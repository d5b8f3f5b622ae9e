//! Packets sent by the client (inbound).
use vstd::prelude::*;
use crate::buffers::{
    be_bytes, byte_array_bytes, decode_be, decode_bool, decode_byte_array, decode_string,
    lemma_be_decode, lemma_byte_array_round_trip, lemma_pow256_le, lemma_signed_round_trip,
    lemma_string_round_trip, pow256, string_bytes, string_fits, to_signed, to_unsigned, Bools,
    BoolsMut, Strings, StringsMut, VarInts, VarIntsMut,
};
use crate::indexed_vec::IndexedVec;
use crate::packets::Vari32;
use crate::varint::{decode_var_i32, encode_var_i32, lemma_var_i32_round_trip};

verus! {

/// Opens a session and names the protocol state that follows it.
#[derive(Clone, Debug, PartialEq, Eq)]
pub struct HandshakePacket {
    pub protocol_version: Vari32,
    pub ip: String,
    pub port: u16,
    pub next_state: Vari32,
}

impl HandshakePacket {
    pub fn get_id() -> (r: i32)
        ensures
            r == 0x00,
    {
        0x00
    }

    pub fn get_state() -> (r: u8)
        ensures
            r == 0,
    {
        0
    }

    pub fn is_inbound() -> (r: bool)
        ensures
            r == true,
    {
        true
    }

    /// The field values as mathematical values.
    pub open spec fn model(&self) -> (i32, Seq<char>, nat, i32) {
        (self.protocol_version.val, self.ip@, self.port as nat, self.next_state.val)
    }

    /// Every length prefix fits in a VarInt.
    pub open spec fn wire_ok(&self) -> bool {
        string_fits(self.ip@)
    }

    /// The body bytes of a packet with field values `m`.
    pub open spec fn wire(m: (i32, Seq<char>, nat, i32)) -> Seq<u8> {
        encode_var_i32(m.0) + string_bytes(m.1) + be_bytes(m.2, 2) + encode_var_i32(m.3)
    }

    /// Decoding of a body at the front of `s`: field values and bytes taken.
    pub open spec fn parse(s: Seq<u8>) -> Option<((i32, Seq<char>, nat, i32), nat)> {
        match decode_var_i32(s, 5) {
            None => None,
            Some((v0, k0)) => {
                match decode_string(s.skip(k0 as int)) {
                    None => None,
                    Some((v1, k1)) => {
                        match decode_be(s.skip(k0 + k1 as int), 2) {
                            None => None,
                            Some((v2, k2)) => {
                                match decode_var_i32(s.skip(k0 + k1 + k2 as int), 5) {
                                    None => None,
                                    Some((v3, k3)) => {
                                        Some(((v0, v1, v2, v3), (k0 + k1 + k2 + k3) as nat))
                                    },
                                }
                            },
                        }
                    },
                }
            },
        }
    }

    /// Reads a body; `None` on a malformed or truncated one.
    pub fn read(buf: &mut IndexedVec) -> (r: Option<HandshakePacket>)
        requires
            old(buf).wf(),
        ensures
            final(buf).wf(),
            match Self::parse(old(buf).readable()) {
                Some((m, k)) => r matches Some(p) && p.model() == m && final(buf).readable()
                    == old(buf).readable().skip(k as int),
                None => r is None,
            },
    {
        let ghost s = buf.readable();
        let ghost t0 = buf.readable();
        let protocol_version = match buf.get_var_i32_limit(5) {
            Some((v, _)) => Vari32 { val: v },
            None => return None,
        };
        let ghost k0: nat = (decode_var_i32(t0, 5)->0).1;
        assert(t0 =~= s.skip((0) as int));
        assert(buf.readable() =~= s.skip((k0) as int));
        let ghost t1 = buf.readable();
        let ip = match buf.get_string() {
            Some(v) => v,
            None => return None,
        };
        let ghost k1: nat = (decode_string(t1)->0).1;
        assert(t1 =~= s.skip((k0) as int));
        assert(buf.readable() =~= s.skip((k0 + k1) as int));
        let ghost t2 = buf.readable();
        if buf.readable_bytes() < 2 {
            return None;
        }
        let port = buf.get_u16();
        let ghost k2: nat = 2;
        assert(t2 =~= s.skip((k0 + k1) as int));
        assert(buf.readable() =~= s.skip((k0 + k1 + k2) as int));
        let ghost t3 = buf.readable();
        let next_state = match buf.get_var_i32_limit(5) {
            Some((v, _)) => Vari32 { val: v },
            None => return None,
        };
        let ghost k3: nat = (decode_var_i32(t3, 5)->0).1;
        assert(t3 =~= s.skip((k0 + k1 + k2) as int));
        assert(buf.readable() =~= s.skip((k0 + k1 + k2 + k3) as int));
        Some(HandshakePacket { protocol_version, ip, port, next_state })
    }

    /// Appends the body bytes.
    pub fn write(&self, buf: &mut IndexedVec)
        requires
            old(buf).wf(),
            self.wire_ok(),
        ensures
            final(buf).wf(),
            final(buf).readable() == old(buf).readable() + Self::wire(self.model()),
    {
        let ghost b0 = buf.readable();
        buf.put_var_i32(self.protocol_version.val);
        let ghost b1 = buf.readable();
        buf.put_string(self.ip.as_str());
        let ghost b2 = buf.readable();
        buf.put_u16(self.port);
        let ghost b3 = buf.readable();
        buf.put_var_i32(self.next_state.val);
        assert(buf.readable() =~= old(buf).readable() + Self::wire(self.model()));
    }

    /// Parsing the bytes of a packet gives back its field values, whatever follows.
    #[verifier::rlimit(50)]
    pub proof fn lemma_round_trip(p: HandshakePacket, rest: Seq<u8>)
        requires
            p.wire_ok(),
        ensures
            Self::parse(Self::wire(p.model()) + rest) == Some((p.model(), Self::wire(p.model()).len())),
    {
        let m = p.model();
        let s = Self::wire(m) + rest;
        let e0 = encode_var_i32(m.0);
        let e1 = string_bytes(m.1);
        let e2 = be_bytes(m.2, 2);
        let e3 = encode_var_i32(m.3);
        let tail4 = rest;
        let tail3 = e3 + tail4;
        let tail2 = e2 + tail3;
        let tail1 = e1 + tail2;
        let tail0 = e0 + tail1;
        assert(s =~= tail0);
        assert(s.skip((0) as int) =~= tail0);
        lemma_var_i32_round_trip(m.0, tail1);
        assert(s.skip((e0.len()) as int) =~= tail1);
        lemma_string_round_trip(m.1, tail2);
        assert(s.skip((e0.len() + e1.len()) as int) =~= tail2);
        lemma_be_decode(m.2, 2, tail3);
        lemma_pow256_le(0);
        vstd::arithmetic::div_mod::lemma_small_mod(m.2, pow256(2));
        assert(s.skip((e0.len() + e1.len() + e2.len()) as int) =~= tail3);
        lemma_var_i32_round_trip(m.3, tail4);
    }
}

/// Asks for the server status.
#[derive(Clone, Debug, PartialEq, Eq)]
pub struct Request {
}

impl Request {
    pub fn get_id() -> (r: i32)
        ensures
            r == 0x00,
    {
        0x00
    }

    pub fn get_state() -> (r: u8)
        ensures
            r == 1,
    {
        1
    }

    pub fn is_inbound() -> (r: bool)
        ensures
            r == true,
    {
        true
    }

    /// The field values as mathematical values.
    pub open spec fn model(&self) -> () {
        ()
    }

    /// Every length prefix fits in a VarInt.
    pub open spec fn wire_ok(&self) -> bool {
        true
    }

    /// The body bytes of a packet with field values `m`.
    pub open spec fn wire(m: ()) -> Seq<u8> {
        Seq::empty()
    }

    /// Decoding of a body at the front of `s`: field values and bytes taken.
    pub open spec fn parse(s: Seq<u8>) -> Option<((), nat)> {
        Some(((), (0) as nat))
    }

    /// Reads a body; `None` on a malformed or truncated one.
    pub fn read(buf: &mut IndexedVec) -> (r: Option<Request>)
        requires
            old(buf).wf(),
        ensures
            final(buf).wf(),
            match Self::parse(old(buf).readable()) {
                Some((m, k)) => r matches Some(p) && p.model() == m && final(buf).readable()
                    == old(buf).readable().skip(k as int),
                None => r is None,
            },
    {
        let ghost s = buf.readable();
        assert(s.skip(0) =~= s);
        Some(Request {})
    }

    /// Appends the body bytes.
    pub fn write(&self, buf: &mut IndexedVec)
        requires
            old(buf).wf(),
            self.wire_ok(),
        ensures
            final(buf).wf(),
            final(buf).readable() == old(buf).readable() + Self::wire(self.model()),
    {
        assert(buf.readable() =~= old(buf).readable() + Self::wire(self.model()));
    }

    /// Parsing the bytes of a packet gives back its field values, whatever follows.
    pub proof fn lemma_round_trip(p: Request, rest: Seq<u8>)
        requires
            p.wire_ok(),
        ensures
            Self::parse(Self::wire(p.model()) + rest) == Some((p.model(), Self::wire(p.model()).len())),
    {
        let m = p.model();
        let s = Self::wire(m) + rest;
        let tail0 = rest;
        assert(s.skip(0) =~= s);
    }
}

/// Status ping with a payload echoed by the server.
#[derive(Clone, Debug, PartialEq, Eq)]
pub struct Ping {
    pub payload: i64,
}

impl Ping {
    pub fn get_id() -> (r: i32)
        ensures
            r == 0x01,
    {
        0x01
    }

    pub fn get_state() -> (r: u8)
        ensures
            r == 1,
    {
        1
    }

    pub fn is_inbound() -> (r: bool)
        ensures
            r == true,
    {
        true
    }

    /// The field values as mathematical values.
    pub open spec fn model(&self) -> (int,) {
        (self.payload as int,)
    }

    /// Every length prefix fits in a VarInt.
    pub open spec fn wire_ok(&self) -> bool {
        true
    }

    /// The body bytes of a packet with field values `m`.
    pub open spec fn wire(m: (int,)) -> Seq<u8> {
        be_bytes(to_unsigned(m.0, 64), 8)
    }

    /// Decoding of a body at the front of `s`: field values and bytes taken.
    pub open spec fn parse(s: Seq<u8>) -> Option<((int,), nat)> {
        match decode_be(s, 8) {
            None => None,
            Some((v0, k0)) => {
                Some(((to_signed(v0, 64),), (k0) as nat))
            },
        }
    }

    /// Reads a body; `None` on a malformed or truncated one.
    pub fn read(buf: &mut IndexedVec) -> (r: Option<Ping>)
        requires
            old(buf).wf(),
        ensures
            final(buf).wf(),
            match Self::parse(old(buf).readable()) {
                Some((m, k)) => r matches Some(p) && p.model() == m && final(buf).readable()
                    == old(buf).readable().skip(k as int),
                None => r is None,
            },
    {
        let ghost s = buf.readable();
        let ghost t0 = buf.readable();
        if buf.readable_bytes() < 8 {
            return None;
        }
        let payload = buf.get_i64();
        let ghost k0: nat = 8;
        assert(t0 =~= s.skip((0) as int));
        assert(buf.readable() =~= s.skip((k0) as int));
        Some(Ping { payload })
    }

    /// Appends the body bytes.
    pub fn write(&self, buf: &mut IndexedVec)
        requires
            old(buf).wf(),
            self.wire_ok(),
        ensures
            final(buf).wf(),
            final(buf).readable() == old(buf).readable() + Self::wire(self.model()),
    {
        let ghost b0 = buf.readable();
        buf.put_i64(self.payload);
        assert(buf.readable() =~= old(buf).readable() + Self::wire(self.model()));
    }

    /// Parsing the bytes of a packet gives back its field values, whatever follows.
    pub proof fn lemma_round_trip(p: Ping, rest: Seq<u8>)
        requires
            p.wire_ok(),
        ensures
            Self::parse(Self::wire(p.model()) + rest) == Some((p.model(), Self::wire(p.model()).len())),
    {
        let m = p.model();
        let s = Self::wire(m) + rest;
        let e0 = be_bytes(to_unsigned(m.0, 64), 8);
        let tail1 = rest;
        let tail0 = e0 + tail1;
        assert(s =~= tail0);
        assert(s.skip((0) as int) =~= tail0);
        lemma_be_decode(to_unsigned(m.0, 64), 8, tail1);
        lemma_pow256_le(0);
        lemma_signed_round_trip(m.0, 64);
    }
}

/// Starts a login under a player name.
#[derive(Clone, Debug, PartialEq, Eq)]
pub struct LoginStart {
    pub name: String,
}

impl LoginStart {
    pub fn get_id() -> (r: i32)
        ensures
            r == 0x00,
    {
        0x00
    }

    pub fn get_state() -> (r: u8)
        ensures
            r == 2,
    {
        2
    }

    pub fn is_inbound() -> (r: bool)
        ensures
            r == true,
    {
        true
    }

    /// The field values as mathematical values.
    pub open spec fn model(&self) -> (Seq<char>,) {
        (self.name@,)
    }

    /// Every length prefix fits in a VarInt.
    pub open spec fn wire_ok(&self) -> bool {
        string_fits(self.name@)
    }

    /// The body bytes of a packet with field values `m`.
    pub open spec fn wire(m: (Seq<char>,)) -> Seq<u8> {
        string_bytes(m.0)
    }

    /// Decoding of a body at the front of `s`: field values and bytes taken.
    pub open spec fn parse(s: Seq<u8>) -> Option<((Seq<char>,), nat)> {
        match decode_string(s) {
            None => None,
            Some((v0, k0)) => {
                Some(((v0,), (k0) as nat))
            },
        }
    }

    /// Reads a body; `None` on a malformed or truncated one.
    pub fn read(buf: &mut IndexedVec) -> (r: Option<LoginStart>)
        requires
            old(buf).wf(),
        ensures
            final(buf).wf(),
            match Self::parse(old(buf).readable()) {
                Some((m, k)) => r matches Some(p) && p.model() == m && final(buf).readable()
                    == old(buf).readable().skip(k as int),
                None => r is None,
            },
    {
        let ghost s = buf.readable();
        let ghost t0 = buf.readable();
        let name = match buf.get_string() {
            Some(v) => v,
            None => return None,
        };
        let ghost k0: nat = (decode_string(t0)->0).1;
        assert(t0 =~= s.skip((0) as int));
        assert(buf.readable() =~= s.skip((k0) as int));
        Some(LoginStart { name })
    }

    /// Appends the body bytes.
    pub fn write(&self, buf: &mut IndexedVec)
        requires
            old(buf).wf(),
            self.wire_ok(),
        ensures
            final(buf).wf(),
            final(buf).readable() == old(buf).readable() + Self::wire(self.model()),
    {
        let ghost b0 = buf.readable();
        buf.put_string(self.name.as_str());
        assert(buf.readable() =~= old(buf).readable() + Self::wire(self.model()));
    }

    /// Parsing the bytes of a packet gives back its field values, whatever follows.
    pub proof fn lemma_round_trip(p: LoginStart, rest: Seq<u8>)
        requires
            p.wire_ok(),
        ensures
            Self::parse(Self::wire(p.model()) + rest) == Some((p.model(), Self::wire(p.model()).len())),
    {
        let m = p.model();
        let s = Self::wire(m) + rest;
        let e0 = string_bytes(m.0);
        let tail1 = rest;
        let tail0 = e0 + tail1;
        assert(s =~= tail0);
        assert(s.skip((0) as int) =~= tail0);
        lemma_string_round_trip(m.0, tail1);
    }
}

/// Answers an encryption request.
#[derive(Clone, Debug, PartialEq, Eq)]
pub struct EncryptionResponse {
    pub shared_secret: Vec<u8>,
    pub verify_token: Vec<u8>,
}

impl EncryptionResponse {
    pub fn get_id() -> (r: i32)
        ensures
            r == 0x01,
    {
        0x01
    }

    pub fn get_state() -> (r: u8)
        ensures
            r == 2,
    {
        2
    }

    pub fn is_inbound() -> (r: bool)
        ensures
            r == true,
    {
        true
    }

    /// The field values as mathematical values.
    pub open spec fn model(&self) -> (Seq<u8>, Seq<u8>) {
        (self.shared_secret@, self.verify_token@)
    }

    /// Every length prefix fits in a VarInt.
    pub open spec fn wire_ok(&self) -> bool {
        self.shared_secret@.len() <= i32::MAX && self.verify_token@.len() <= i32::MAX
    }

    /// The body bytes of a packet with field values `m`.
    pub open spec fn wire(m: (Seq<u8>, Seq<u8>)) -> Seq<u8> {
        byte_array_bytes(m.0) + byte_array_bytes(m.1)
    }

    /// Decoding of a body at the front of `s`: field values and bytes taken.
    pub open spec fn parse(s: Seq<u8>) -> Option<((Seq<u8>, Seq<u8>), nat)> {
        match decode_byte_array(s) {
            None => None,
            Some((v0, k0)) => {
                match decode_byte_array(s.skip(k0 as int)) {
                    None => None,
                    Some((v1, k1)) => {
                        Some(((v0, v1), (k0 + k1) as nat))
                    },
                }
            },
        }
    }

    /// Reads a body; `None` on a malformed or truncated one.
    pub fn read(buf: &mut IndexedVec) -> (r: Option<EncryptionResponse>)
        requires
            old(buf).wf(),
        ensures
            final(buf).wf(),
            match Self::parse(old(buf).readable()) {
                Some((m, k)) => r matches Some(p) && p.model() == m && final(buf).readable()
                    == old(buf).readable().skip(k as int),
                None => r is None,
            },
    {
        let ghost s = buf.readable();
        let ghost t0 = buf.readable();
        let shared_secret = match buf.get_byte_array() {
            Some(v) => v,
            None => return None,
        };
        let ghost k0: nat = (decode_byte_array(t0)->0).1;
        assert(t0 =~= s.skip((0) as int));
        assert(buf.readable() =~= s.skip((k0) as int));
        let ghost t1 = buf.readable();
        let verify_token = match buf.get_byte_array() {
            Some(v) => v,
            None => return None,
        };
        let ghost k1: nat = (decode_byte_array(t1)->0).1;
        assert(t1 =~= s.skip((k0) as int));
        assert(buf.readable() =~= s.skip((k0 + k1) as int));
        Some(EncryptionResponse { shared_secret, verify_token })
    }

    /// Appends the body bytes.
    pub fn write(&self, buf: &mut IndexedVec)
        requires
            old(buf).wf(),
            self.wire_ok(),
        ensures
            final(buf).wf(),
            final(buf).readable() == old(buf).readable() + Self::wire(self.model()),
    {
        let ghost b0 = buf.readable();
        buf.put_byte_array(self.shared_secret.as_slice());
        let ghost b1 = buf.readable();
        buf.put_byte_array(self.verify_token.as_slice());
        assert(buf.readable() =~= old(buf).readable() + Self::wire(self.model()));
    }

    /// Parsing the bytes of a packet gives back its field values, whatever follows.
    pub proof fn lemma_round_trip(p: EncryptionResponse, rest: Seq<u8>)
        requires
            p.wire_ok(),
        ensures
            Self::parse(Self::wire(p.model()) + rest) == Some((p.model(), Self::wire(p.model()).len())),
    {
        let m = p.model();
        let s = Self::wire(m) + rest;
        let e0 = byte_array_bytes(m.0);
        let e1 = byte_array_bytes(m.1);
        let tail2 = rest;
        let tail1 = e1 + tail2;
        let tail0 = e0 + tail1;
        assert(s =~= tail0);
        assert(s.skip((0) as int) =~= tail0);
        lemma_byte_array_round_trip(m.0, tail1);
        assert(s.skip((e0.len()) as int) =~= tail1);
        lemma_byte_array_round_trip(m.1, tail2);
    }
}

/// Answers a login plugin request.
#[derive(Clone, Debug, PartialEq, Eq)]
pub struct LoginPluginResponse {
    pub message_id: Vari32,
    pub successful: bool,
    pub data: Vec<u8>,
}

impl LoginPluginResponse {
    pub fn get_id() -> (r: i32)
        ensures
            r == 0x02,
    {
        0x02
    }

    pub fn get_state() -> (r: u8)
        ensures
            r == 2,
    {
        2
    }

    pub fn is_inbound() -> (r: bool)
        ensures
            r == true,
    {
        true
    }

    /// The field values as mathematical values.
    pub open spec fn model(&self) -> (i32, bool, Seq<u8>) {
        (self.message_id.val, self.successful, self.data@)
    }

    /// Every length prefix fits in a VarInt.
    pub open spec fn wire_ok(&self) -> bool {
        true
    }

    /// The body bytes of a packet with field values `m`.
    pub open spec fn wire(m: (i32, bool, Seq<u8>)) -> Seq<u8> {
        encode_var_i32(m.0) + seq![if m.1 { 1u8 } else { 0u8 }] + m.2
    }

    /// Decoding of a body at the front of `s`: field values and bytes taken.
    pub open spec fn parse(s: Seq<u8>) -> Option<((i32, bool, Seq<u8>), nat)> {
        match decode_var_i32(s, 5) {
            None => None,
            Some((v0, k0)) => {
                match decode_bool(s.skip(k0 as int)) {
                    None => None,
                    Some((v1, k1)) => {
                        match Some((s.skip(k0 + k1 as int), s.skip(k0 + k1 as int).len())) {
                            None => None,
                            Some((v2, k2)) => {
                                Some(((v0, v1, v2), (k0 + k1 + k2) as nat))
                            },
                        }
                    },
                }
            },
        }
    }

    /// Reads a body; `None` on a malformed or truncated one.
    pub fn read(buf: &mut IndexedVec) -> (r: Option<LoginPluginResponse>)
        requires
            old(buf).wf(),
        ensures
            final(buf).wf(),
            match Self::parse(old(buf).readable()) {
                Some((m, k)) => r matches Some(p) && p.model() == m && final(buf).readable()
                    == old(buf).readable().skip(k as int),
                None => r is None,
            },
    {
        let ghost s = buf.readable();
        let ghost t0 = buf.readable();
        let message_id = match buf.get_var_i32_limit(5) {
            Some((v, _)) => Vari32 { val: v },
            None => return None,
        };
        let ghost k0: nat = (decode_var_i32(t0, 5)->0).1;
        assert(t0 =~= s.skip((0) as int));
        assert(buf.readable() =~= s.skip((k0) as int));
        let ghost t1 = buf.readable();
        if buf.readable_bytes() < 1 {
            return None;
        }
        let successful = buf.get_bool();
        let ghost k1: nat = 1;
        assert(buf.readable() =~= t1.skip(1));
        assert(t1 =~= s.skip((k0) as int));
        assert(buf.readable() =~= s.skip((k0 + k1) as int));
        let ghost t2 = buf.readable();
        let data = buf.get_rest();
        let ghost k2: nat = t2.len();
        assert(buf.readable() =~= t2.skip(k2 as int));
        assert(t2 =~= s.skip((k0 + k1) as int));
        assert(buf.readable() =~= s.skip((k0 + k1 + k2) as int));
        Some(LoginPluginResponse { message_id, successful, data })
    }

    /// Appends the body bytes.
    pub fn write(&self, buf: &mut IndexedVec)
        requires
            old(buf).wf(),
            self.wire_ok(),
        ensures
            final(buf).wf(),
            final(buf).readable() == old(buf).readable() + Self::wire(self.model()),
    {
        let ghost b0 = buf.readable();
        buf.put_var_i32(self.message_id.val);
        let ghost b1 = buf.readable();
        buf.put_bool(self.successful);
        let ghost b2 = buf.readable();
        buf.put_slice(self.data.as_slice());
        assert(buf.readable() =~= old(buf).readable() + Self::wire(self.model()));
    }

    /// Parsing the bytes of a packet gives back its field values (the last field takes the rest of the frame).
    #[verifier::rlimit(50)]
    pub proof fn lemma_round_trip(p: LoginPluginResponse)
        requires
            p.wire_ok(),
        ensures
            Self::parse(Self::wire(p.model())) == Some((p.model(), Self::wire(p.model()).len())),
    {
        let m = p.model();
        let s = Self::wire(m);
        let e0 = encode_var_i32(m.0);
        let e1 = seq![if m.1 { 1u8 } else { 0u8 }];
        let e2 = m.2;
        let tail3 = Seq::<u8>::empty();
        let tail2 = e2;
        let tail1 = e1 + tail2;
        let tail0 = e0 + tail1;
        assert(s =~= tail0);
        assert(s.skip((0) as int) =~= tail0);
        lemma_var_i32_round_trip(m.0, tail1);
        assert(s.skip((e0.len()) as int) =~= tail1);
        assert((e1 + tail2)[0] == e1[0]);
        assert(s.skip((e0.len() + e1.len()) as int) =~= tail2);
    }
}

/// A plugin channel message from the client.
#[derive(Clone, Debug, PartialEq, Eq)]
pub struct PluginMessage {
    pub channel: String,
    pub data: Vec<u8>,
}

impl PluginMessage {
    pub fn get_id() -> (r: i32)
        ensures
            r == 0x0B,
    {
        0x0B
    }

    pub fn get_state() -> (r: u8)
        ensures
            r == 3,
    {
        3
    }

    pub fn is_inbound() -> (r: bool)
        ensures
            r == true,
    {
        true
    }

    /// The field values as mathematical values.
    pub open spec fn model(&self) -> (Seq<char>, Seq<u8>) {
        (self.channel@, self.data@)
    }

    /// Every length prefix fits in a VarInt.
    pub open spec fn wire_ok(&self) -> bool {
        string_fits(self.channel@)
    }

    /// The body bytes of a packet with field values `m`.
    pub open spec fn wire(m: (Seq<char>, Seq<u8>)) -> Seq<u8> {
        string_bytes(m.0) + m.1
    }

    /// Decoding of a body at the front of `s`: field values and bytes taken.
    pub open spec fn parse(s: Seq<u8>) -> Option<((Seq<char>, Seq<u8>), nat)> {
        match decode_string(s) {
            None => None,
            Some((v0, k0)) => {
                match Some((s.skip(k0 as int), s.skip(k0 as int).len())) {
                    None => None,
                    Some((v1, k1)) => {
                        Some(((v0, v1), (k0 + k1) as nat))
                    },
                }
            },
        }
    }

    /// Reads a body; `None` on a malformed or truncated one.
    pub fn read(buf: &mut IndexedVec) -> (r: Option<PluginMessage>)
        requires
            old(buf).wf(),
        ensures
            final(buf).wf(),
            match Self::parse(old(buf).readable()) {
                Some((m, k)) => r matches Some(p) && p.model() == m && final(buf).readable()
                    == old(buf).readable().skip(k as int),
                None => r is None,
            },
    {
        let ghost s = buf.readable();
        let ghost t0 = buf.readable();
        let channel = match buf.get_string() {
            Some(v) => v,
            None => return None,
        };
        let ghost k0: nat = (decode_string(t0)->0).1;
        assert(t0 =~= s.skip((0) as int));
        assert(buf.readable() =~= s.skip((k0) as int));
        let ghost t1 = buf.readable();
        let data = buf.get_rest();
        let ghost k1: nat = t1.len();
        assert(buf.readable() =~= t1.skip(k1 as int));
        assert(t1 =~= s.skip((k0) as int));
        assert(buf.readable() =~= s.skip((k0 + k1) as int));
        Some(PluginMessage { channel, data })
    }

    /// Appends the body bytes.
    pub fn write(&self, buf: &mut IndexedVec)
        requires
            old(buf).wf(),
            self.wire_ok(),
        ensures
            final(buf).wf(),
            final(buf).readable() == old(buf).readable() + Self::wire(self.model()),
    {
        let ghost b0 = buf.readable();
        buf.put_string(self.channel.as_str());
        let ghost b1 = buf.readable();
        buf.put_slice(self.data.as_slice());
        assert(buf.readable() =~= old(buf).readable() + Self::wire(self.model()));
    }

    /// Parsing the bytes of a packet gives back its field values (the last field takes the rest of the frame).
    pub proof fn lemma_round_trip(p: PluginMessage)
        requires
            p.wire_ok(),
        ensures
            Self::parse(Self::wire(p.model())) == Some((p.model(), Self::wire(p.model()).len())),
    {
        let m = p.model();
        let s = Self::wire(m);
        let e0 = string_bytes(m.0);
        let e1 = m.1;
        let tail2 = Seq::<u8>::empty();
        let tail1 = e1;
        let tail0 = e0 + tail1;
        assert(s =~= tail0);
        assert(s.skip((0) as int) =~= tail0);
        lemma_string_round_trip(m.0, tail1);
        assert(s.skip((e0.len()) as int) =~= tail1);
    }
}

} // verus!
