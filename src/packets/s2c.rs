//! Packets sent by the server (outbound).
use vstd::prelude::*;
use crate::buffers::{
    be_bytes, byte_array_bytes, decode_be, decode_bool, decode_byte_array, decode_string,
    lemma_be_decode, lemma_byte_array_round_trip, lemma_pow256_le, lemma_signed_round_trip,
    lemma_string_round_trip, pow256, string_bytes, string_fits, to_signed, to_unsigned, Bools,
    BoolsMut, Strings, StringsMut, VarInts, VarIntsMut,
};
use crate::indexed_vec::IndexedVec;
use crate::packets::Vari32;
use crate::varint::{decode_var_i32, encode_var_i32, lemma_var_i32_round_trip};

verus! {

/// The server status as JSON text.
#[derive(Clone, Debug, PartialEq, Eq)]
pub struct Response {
    pub json: String,
}

impl Response {
    pub fn get_id() -> (r: i32)
        ensures
            r == 0x00,
    {
        0x00
    }

    pub fn get_state() -> (r: u8)
        ensures
            r == 1,
    {
        1
    }

    pub fn is_inbound() -> (r: bool)
        ensures
            r == false,
    {
        false
    }

    /// The field values as mathematical values.
    pub open spec fn model(&self) -> (Seq<char>,) {
        (self.json@,)
    }

    /// Every length prefix fits in a VarInt.
    pub open spec fn wire_ok(&self) -> bool {
        string_fits(self.json@)
    }

    /// The body bytes of a packet with field values `m`.
    pub open spec fn wire(m: (Seq<char>,)) -> Seq<u8> {
        string_bytes(m.0)
    }

    /// Decoding of a body at the front of `s`: field values and bytes taken.
    pub open spec fn parse(s: Seq<u8>) -> Option<((Seq<char>,), nat)> {
        match decode_string(s) {
            None => None,
            Some((v0, k0)) => {
                Some(((v0,), (k0) as nat))
            },
        }
    }

    /// Reads a body; `None` on a malformed or truncated one.
    pub fn read(buf: &mut IndexedVec) -> (r: Option<Response>)
        requires
            old(buf).wf(),
        ensures
            final(buf).wf(),
            match Self::parse(old(buf).readable()) {
                Some((m, k)) => r matches Some(p) && p.model() == m && final(buf).readable()
                    == old(buf).readable().skip(k as int),
                None => r is None,
            },
    {
        let ghost s = buf.readable();
        let ghost t0 = buf.readable();
        let json = match buf.get_string() {
            Some(v) => v,
            None => return None,
        };
        let ghost k0: nat = (decode_string(t0)->0).1;
        assert(t0 =~= s.skip((0) as int));
        assert(buf.readable() =~= s.skip((k0) as int));
        Some(Response { json })
    }

    /// Appends the body bytes.
    pub fn write(&self, buf: &mut IndexedVec)
        requires
            old(buf).wf(),
            self.wire_ok(),
        ensures
            final(buf).wf(),
            final(buf).readable() == old(buf).readable() + Self::wire(self.model()),
    {
        let ghost b0 = buf.readable();
        buf.put_string(self.json.as_str());
        assert(buf.readable() =~= old(buf).readable() + Self::wire(self.model()));
    }

    /// Parsing the bytes of a packet gives back its field values, whatever follows.
    pub proof fn lemma_round_trip(p: Response, rest: Seq<u8>)
        requires
            p.wire_ok(),
        ensures
            Self::parse(Self::wire(p.model()) + rest) == Some((p.model(), Self::wire(p.model()).len())),
    {
        let m = p.model();
        let s = Self::wire(m) + rest;
        let e0 = string_bytes(m.0);
        let tail1 = rest;
        let tail0 = e0 + tail1;
        assert(s =~= tail0);
        assert(s.skip((0) as int) =~= tail0);
        lemma_string_round_trip(m.0, tail1);
    }
}

/// Echo of a status ping.
#[derive(Clone, Debug, PartialEq, Eq)]
pub struct Pong {
    pub payload: i64,
}

impl Pong {
    pub fn get_id() -> (r: i32)
        ensures
            r == 0x01,
    {
        0x01
    }

    pub fn get_state() -> (r: u8)
        ensures
            r == 1,
    {
        1
    }

    pub fn is_inbound() -> (r: bool)
        ensures
            r == false,
    {
        false
    }

    /// The field values as mathematical values.
    pub open spec fn model(&self) -> (int,) {
        (self.payload as int,)
    }

    /// Every length prefix fits in a VarInt.
    pub open spec fn wire_ok(&self) -> bool {
        true
    }

    /// The body bytes of a packet with field values `m`.
    pub open spec fn wire(m: (int,)) -> Seq<u8> {
        be_bytes(to_unsigned(m.0, 64), 8)
    }

    /// Decoding of a body at the front of `s`: field values and bytes taken.
    pub open spec fn parse(s: Seq<u8>) -> Option<((int,), nat)> {
        match decode_be(s, 8) {
            None => None,
            Some((v0, k0)) => {
                Some(((to_signed(v0, 64),), (k0) as nat))
            },
        }
    }

    /// Reads a body; `None` on a malformed or truncated one.
    pub fn read(buf: &mut IndexedVec) -> (r: Option<Pong>)
        requires
            old(buf).wf(),
        ensures
            final(buf).wf(),
            match Self::parse(old(buf).readable()) {
                Some((m, k)) => r matches Some(p) && p.model() == m && final(buf).readable()
                    == old(buf).readable().skip(k as int),
                None => r is None,
            },
    {
        let ghost s = buf.readable();
        let ghost t0 = buf.readable();
        if buf.readable_bytes() < 8 {
            return None;
        }
        let payload = buf.get_i64();
        let ghost k0: nat = 8;
        assert(t0 =~= s.skip((0) as int));
        assert(buf.readable() =~= s.skip((k0) as int));
        Some(Pong { payload })
    }

    /// Appends the body bytes.
    pub fn write(&self, buf: &mut IndexedVec)
        requires
            old(buf).wf(),
            self.wire_ok(),
        ensures
            final(buf).wf(),
            final(buf).readable() == old(buf).readable() + Self::wire(self.model()),
    {
        let ghost b0 = buf.readable();
        buf.put_i64(self.payload);
        assert(buf.readable() =~= old(buf).readable() + Self::wire(self.model()));
    }

    /// Parsing the bytes of a packet gives back its field values, whatever follows.
    pub proof fn lemma_round_trip(p: Pong, rest: Seq<u8>)
        requires
            p.wire_ok(),
        ensures
            Self::parse(Self::wire(p.model()) + rest) == Some((p.model(), Self::wire(p.model()).len())),
    {
        let m = p.model();
        let s = Self::wire(m) + rest;
        let e0 = be_bytes(to_unsigned(m.0, 64), 8);
        let tail1 = rest;
        let tail0 = e0 + tail1;
        assert(s =~= tail0);
        assert(s.skip((0) as int) =~= tail0);
        lemma_be_decode(to_unsigned(m.0, 64), 8, tail1);
        lemma_pow256_le(0);
        lemma_signed_round_trip(m.0, 64);
    }
}

/// Ends a login with a reason.
#[derive(Clone, Debug, PartialEq, Eq)]
pub struct Disconnect {
    pub reason: String,
}

impl Disconnect {
    pub fn get_id() -> (r: i32)
        ensures
            r == 0x00,
    {
        0x00
    }

    pub fn get_state() -> (r: u8)
        ensures
            r == 2,
    {
        2
    }

    pub fn is_inbound() -> (r: bool)
        ensures
            r == false,
    {
        false
    }

    /// The field values as mathematical values.
    pub open spec fn model(&self) -> (Seq<char>,) {
        (self.reason@,)
    }

    /// Every length prefix fits in a VarInt.
    pub open spec fn wire_ok(&self) -> bool {
        string_fits(self.reason@)
    }

    /// The body bytes of a packet with field values `m`.
    pub open spec fn wire(m: (Seq<char>,)) -> Seq<u8> {
        string_bytes(m.0)
    }

    /// Decoding of a body at the front of `s`: field values and bytes taken.
    pub open spec fn parse(s: Seq<u8>) -> Option<((Seq<char>,), nat)> {
        match decode_string(s) {
            None => None,
            Some((v0, k0)) => {
                Some(((v0,), (k0) as nat))
            },
        }
    }

    /// Reads a body; `None` on a malformed or truncated one.
    pub fn read(buf: &mut IndexedVec) -> (r: Option<Disconnect>)
        requires
            old(buf).wf(),
        ensures
            final(buf).wf(),
            match Self::parse(old(buf).readable()) {
                Some((m, k)) => r matches Some(p) && p.model() == m && final(buf).readable()
                    == old(buf).readable().skip(k as int),
                None => r is None,
            },
    {
        let ghost s = buf.readable();
        let ghost t0 = buf.readable();
        let reason = match buf.get_string() {
            Some(v) => v,
            None => return None,
        };
        let ghost k0: nat = (decode_string(t0)->0).1;
        assert(t0 =~= s.skip((0) as int));
        assert(buf.readable() =~= s.skip((k0) as int));
        Some(Disconnect { reason })
    }

    /// Appends the body bytes.
    pub fn write(&self, buf: &mut IndexedVec)
        requires
            old(buf).wf(),
            self.wire_ok(),
        ensures
            final(buf).wf(),
            final(buf).readable() == old(buf).readable() + Self::wire(self.model()),
    {
        let ghost b0 = buf.readable();
        buf.put_string(self.reason.as_str());
        assert(buf.readable() =~= old(buf).readable() + Self::wire(self.model()));
    }

    /// Parsing the bytes of a packet gives back its field values, whatever follows.
    pub proof fn lemma_round_trip(p: Disconnect, rest: Seq<u8>)
        requires
            p.wire_ok(),
        ensures
            Self::parse(Self::wire(p.model()) + rest) == Some((p.model(), Self::wire(p.model()).len())),
    {
        let m = p.model();
        let s = Self::wire(m) + rest;
        let e0 = string_bytes(m.0);
        let tail1 = rest;
        let tail0 = e0 + tail1;
        assert(s =~= tail0);
        assert(s.skip((0) as int) =~= tail0);
        lemma_string_round_trip(m.0, tail1);
    }
}

/// Asks the client to start encryption.
#[derive(Clone, Debug, PartialEq, Eq)]
pub struct EncryptionRequest {
    pub server_id: String,
    pub public_key: Vec<u8>,
    pub verify_token: Vec<u8>,
}

impl EncryptionRequest {
    pub fn get_id() -> (r: i32)
        ensures
            r == 0x01,
    {
        0x01
    }

    pub fn get_state() -> (r: u8)
        ensures
            r == 2,
    {
        2
    }

    pub fn is_inbound() -> (r: bool)
        ensures
            r == false,
    {
        false
    }

    /// The field values as mathematical values.
    pub open spec fn model(&self) -> (Seq<char>, Seq<u8>, Seq<u8>) {
        (self.server_id@, self.public_key@, self.verify_token@)
    }

    /// Every length prefix fits in a VarInt.
    pub open spec fn wire_ok(&self) -> bool {
        string_fits(self.server_id@) && self.public_key@.len() <= i32::MAX && self.verify_token@.len() <= i32::MAX
    }

    /// The body bytes of a packet with field values `m`.
    pub open spec fn wire(m: (Seq<char>, Seq<u8>, Seq<u8>)) -> Seq<u8> {
        string_bytes(m.0) + byte_array_bytes(m.1) + byte_array_bytes(m.2)
    }

    /// Decoding of a body at the front of `s`: field values and bytes taken.
    pub open spec fn parse(s: Seq<u8>) -> Option<((Seq<char>, Seq<u8>, Seq<u8>), nat)> {
        match decode_string(s) {
            None => None,
            Some((v0, k0)) => {
                match decode_byte_array(s.skip(k0 as int)) {
                    None => None,
                    Some((v1, k1)) => {
                        match decode_byte_array(s.skip(k0 + k1 as int)) {
                            None => None,
                            Some((v2, k2)) => {
                                Some(((v0, v1, v2), (k0 + k1 + k2) as nat))
                            },
                        }
                    },
                }
            },
        }
    }

    /// Reads a body; `None` on a malformed or truncated one.
    pub fn read(buf: &mut IndexedVec) -> (r: Option<EncryptionRequest>)
        requires
            old(buf).wf(),
        ensures
            final(buf).wf(),
            match Self::parse(old(buf).readable()) {
                Some((m, k)) => r matches Some(p) && p.model() == m && final(buf).readable()
                    == old(buf).readable().skip(k as int),
                None => r is None,
            },
    {
        let ghost s = buf.readable();
        let ghost t0 = buf.readable();
        let server_id = match buf.get_string() {
            Some(v) => v,
            None => return None,
        };
        let ghost k0: nat = (decode_string(t0)->0).1;
        assert(t0 =~= s.skip((0) as int));
        assert(buf.readable() =~= s.skip((k0) as int));
        let ghost t1 = buf.readable();
        let public_key = match buf.get_byte_array() {
            Some(v) => v,
            None => return None,
        };
        let ghost k1: nat = (decode_byte_array(t1)->0).1;
        assert(t1 =~= s.skip((k0) as int));
        assert(buf.readable() =~= s.skip((k0 + k1) as int));
        let ghost t2 = buf.readable();
        let verify_token = match buf.get_byte_array() {
            Some(v) => v,
            None => return None,
        };
        let ghost k2: nat = (decode_byte_array(t2)->0).1;
        assert(t2 =~= s.skip((k0 + k1) as int));
        assert(buf.readable() =~= s.skip((k0 + k1 + k2) as int));
        Some(EncryptionRequest { server_id, public_key, verify_token })
    }

    /// Appends the body bytes.
    pub fn write(&self, buf: &mut IndexedVec)
        requires
            old(buf).wf(),
            self.wire_ok(),
        ensures
            final(buf).wf(),
            final(buf).readable() == old(buf).readable() + Self::wire(self.model()),
    {
        let ghost b0 = buf.readable();
        buf.put_string(self.server_id.as_str());
        let ghost b1 = buf.readable();
        buf.put_byte_array(self.public_key.as_slice());
        let ghost b2 = buf.readable();
        buf.put_byte_array(self.verify_token.as_slice());
        assert(buf.readable() =~= old(buf).readable() + Self::wire(self.model()));
    }

    /// Parsing the bytes of a packet gives back its field values, whatever follows.
    #[verifier::rlimit(50)]
    pub proof fn lemma_round_trip(p: EncryptionRequest, rest: Seq<u8>)
        requires
            p.wire_ok(),
        ensures
            Self::parse(Self::wire(p.model()) + rest) == Some((p.model(), Self::wire(p.model()).len())),
    {
        let m = p.model();
        let s = Self::wire(m) + rest;
        let e0 = string_bytes(m.0);
        let e1 = byte_array_bytes(m.1);
        let e2 = byte_array_bytes(m.2);
        let tail3 = rest;
        let tail2 = e2 + tail3;
        let tail1 = e1 + tail2;
        let tail0 = e0 + tail1;
        assert(s =~= tail0);
        assert(s.skip((0) as int) =~= tail0);
        lemma_string_round_trip(m.0, tail1);
        assert(s.skip((e0.len()) as int) =~= tail1);
        lemma_byte_array_round_trip(m.1, tail2);
        assert(s.skip((e0.len() + e1.len()) as int) =~= tail2);
        lemma_byte_array_round_trip(m.2, tail3);
    }
}

/// Ends a login; play follows.
#[derive(Clone, Debug, PartialEq, Eq)]
pub struct LoginSuccess {
    pub uuid: u128,
    pub username: String,
}

impl LoginSuccess {
    pub fn get_id() -> (r: i32)
        ensures
            r == 0x02,
    {
        0x02
    }

    pub fn get_state() -> (r: u8)
        ensures
            r == 2,
    {
        2
    }

    pub fn is_inbound() -> (r: bool)
        ensures
            r == false,
    {
        false
    }

    /// The field values as mathematical values.
    pub open spec fn model(&self) -> (nat, Seq<char>) {
        (self.uuid as nat, self.username@)
    }

    /// Every length prefix fits in a VarInt.
    pub open spec fn wire_ok(&self) -> bool {
        string_fits(self.username@)
    }

    /// The body bytes of a packet with field values `m`.
    pub open spec fn wire(m: (nat, Seq<char>)) -> Seq<u8> {
        be_bytes(m.0, 16) + string_bytes(m.1)
    }

    /// Decoding of a body at the front of `s`: field values and bytes taken.
    pub open spec fn parse(s: Seq<u8>) -> Option<((nat, Seq<char>), nat)> {
        match decode_be(s, 16) {
            None => None,
            Some((v0, k0)) => {
                match decode_string(s.skip(k0 as int)) {
                    None => None,
                    Some((v1, k1)) => {
                        Some(((v0, v1), (k0 + k1) as nat))
                    },
                }
            },
        }
    }

    /// Reads a body; `None` on a malformed or truncated one.
    pub fn read(buf: &mut IndexedVec) -> (r: Option<LoginSuccess>)
        requires
            old(buf).wf(),
        ensures
            final(buf).wf(),
            match Self::parse(old(buf).readable()) {
                Some((m, k)) => r matches Some(p) && p.model() == m && final(buf).readable()
                    == old(buf).readable().skip(k as int),
                None => r is None,
            },
    {
        let ghost s = buf.readable();
        let ghost t0 = buf.readable();
        if buf.readable_bytes() < 16 {
            return None;
        }
        let uuid = buf.get_u128();
        let ghost k0: nat = 16;
        assert(t0 =~= s.skip((0) as int));
        assert(buf.readable() =~= s.skip((k0) as int));
        let ghost t1 = buf.readable();
        let username = match buf.get_string() {
            Some(v) => v,
            None => return None,
        };
        let ghost k1: nat = (decode_string(t1)->0).1;
        assert(t1 =~= s.skip((k0) as int));
        assert(buf.readable() =~= s.skip((k0 + k1) as int));
        Some(LoginSuccess { uuid, username })
    }

    /// Appends the body bytes.
    pub fn write(&self, buf: &mut IndexedVec)
        requires
            old(buf).wf(),
            self.wire_ok(),
        ensures
            final(buf).wf(),
            final(buf).readable() == old(buf).readable() + Self::wire(self.model()),
    {
        let ghost b0 = buf.readable();
        buf.put_u128(self.uuid);
        let ghost b1 = buf.readable();
        buf.put_string(self.username.as_str());
        assert(buf.readable() =~= old(buf).readable() + Self::wire(self.model()));
    }

    /// Parsing the bytes of a packet gives back its field values, whatever follows.
    pub proof fn lemma_round_trip(p: LoginSuccess, rest: Seq<u8>)
        requires
            p.wire_ok(),
        ensures
            Self::parse(Self::wire(p.model()) + rest) == Some((p.model(), Self::wire(p.model()).len())),
    {
        let m = p.model();
        let s = Self::wire(m) + rest;
        let e0 = be_bytes(m.0, 16);
        let e1 = string_bytes(m.1);
        let tail2 = rest;
        let tail1 = e1 + tail2;
        let tail0 = e0 + tail1;
        assert(s =~= tail0);
        assert(s.skip((0) as int) =~= tail0);
        lemma_be_decode(m.0, 16, tail1);
        lemma_pow256_le(0);
        vstd::arithmetic::div_mod::lemma_small_mod(m.0, pow256(16));
        assert(s.skip((e0.len()) as int) =~= tail1);
        lemma_string_round_trip(m.1, tail2);
    }
}

/// Sets the compression threshold of the session.
#[derive(Clone, Debug, PartialEq, Eq)]
pub struct SetCompression {
    pub threshold: Vari32,
}

impl SetCompression {
    pub fn get_id() -> (r: i32)
        ensures
            r == 0x03,
    {
        0x03
    }

    pub fn get_state() -> (r: u8)
        ensures
            r == 2,
    {
        2
    }

    pub fn is_inbound() -> (r: bool)
        ensures
            r == false,
    {
        false
    }

    /// The field values as mathematical values.
    pub open spec fn model(&self) -> (i32,) {
        (self.threshold.val,)
    }

    /// Every length prefix fits in a VarInt.
    pub open spec fn wire_ok(&self) -> bool {
        true
    }

    /// The body bytes of a packet with field values `m`.
    pub open spec fn wire(m: (i32,)) -> Seq<u8> {
        encode_var_i32(m.0)
    }

    /// Decoding of a body at the front of `s`: field values and bytes taken.
    pub open spec fn parse(s: Seq<u8>) -> Option<((i32,), nat)> {
        match decode_var_i32(s, 5) {
            None => None,
            Some((v0, k0)) => {
                Some(((v0,), (k0) as nat))
            },
        }
    }

    /// Reads a body; `None` on a malformed or truncated one.
    pub fn read(buf: &mut IndexedVec) -> (r: Option<SetCompression>)
        requires
            old(buf).wf(),
        ensures
            final(buf).wf(),
            match Self::parse(old(buf).readable()) {
                Some((m, k)) => r matches Some(p) && p.model() == m && final(buf).readable()
                    == old(buf).readable().skip(k as int),
                None => r is None,
            },
    {
        let ghost s = buf.readable();
        let ghost t0 = buf.readable();
        let threshold = match buf.get_var_i32_limit(5) {
            Some((v, _)) => Vari32 { val: v },
            None => return None,
        };
        let ghost k0: nat = (decode_var_i32(t0, 5)->0).1;
        assert(t0 =~= s.skip((0) as int));
        assert(buf.readable() =~= s.skip((k0) as int));
        Some(SetCompression { threshold })
    }

    /// Appends the body bytes.
    pub fn write(&self, buf: &mut IndexedVec)
        requires
            old(buf).wf(),
            self.wire_ok(),
        ensures
            final(buf).wf(),
            final(buf).readable() == old(buf).readable() + Self::wire(self.model()),
    {
        let ghost b0 = buf.readable();
        buf.put_var_i32(self.threshold.val);
        assert(buf.readable() =~= old(buf).readable() + Self::wire(self.model()));
    }

    /// Parsing the bytes of a packet gives back its field values, whatever follows.
    pub proof fn lemma_round_trip(p: SetCompression, rest: Seq<u8>)
        requires
            p.wire_ok(),
        ensures
            Self::parse(Self::wire(p.model()) + rest) == Some((p.model(), Self::wire(p.model()).len())),
    {
        let m = p.model();
        let s = Self::wire(m) + rest;
        let e0 = encode_var_i32(m.0);
        let tail1 = rest;
        let tail0 = e0 + tail1;
        assert(s =~= tail0);
        assert(s.skip((0) as int) =~= tail0);
        lemma_var_i32_round_trip(m.0, tail1);
    }
}

/// A login plugin request.
#[derive(Clone, Debug, PartialEq, Eq)]
pub struct LoginPluginRequest {
    pub message_id: Vari32,
    pub channel: String,
    pub data: Vec<u8>,
}

impl LoginPluginRequest {
    pub fn get_id() -> (r: i32)
        ensures
            r == 0x04,
    {
        0x04
    }

    pub fn get_state() -> (r: u8)
        ensures
            r == 2,
    {
        2
    }

    pub fn is_inbound() -> (r: bool)
        ensures
            r == false,
    {
        false
    }

    /// The field values as mathematical values.
    pub open spec fn model(&self) -> (i32, Seq<char>, Seq<u8>) {
        (self.message_id.val, self.channel@, self.data@)
    }

    /// Every length prefix fits in a VarInt.
    pub open spec fn wire_ok(&self) -> bool {
        string_fits(self.channel@)
    }

    /// The body bytes of a packet with field values `m`.
    pub open spec fn wire(m: (i32, Seq<char>, Seq<u8>)) -> Seq<u8> {
        encode_var_i32(m.0) + string_bytes(m.1) + m.2
    }

    /// Decoding of a body at the front of `s`: field values and bytes taken.
    pub open spec fn parse(s: Seq<u8>) -> Option<((i32, Seq<char>, Seq<u8>), nat)> {
        match decode_var_i32(s, 5) {
            None => None,
            Some((v0, k0)) => {
                match decode_string(s.skip(k0 as int)) {
                    None => None,
                    Some((v1, k1)) => {
                        match Some((s.skip(k0 + k1 as int), s.skip(k0 + k1 as int).len())) {
                            None => None,
                            Some((v2, k2)) => {
                                Some(((v0, v1, v2), (k0 + k1 + k2) as nat))
                            },
                        }
                    },
                }
            },
        }
    }

    /// Reads a body; `None` on a malformed or truncated one.
    pub fn read(buf: &mut IndexedVec) -> (r: Option<LoginPluginRequest>)
        requires
            old(buf).wf(),
        ensures
            final(buf).wf(),
            match Self::parse(old(buf).readable()) {
                Some((m, k)) => r matches Some(p) && p.model() == m && final(buf).readable()
                    == old(buf).readable().skip(k as int),
                None => r is None,
            },
    {
        let ghost s = buf.readable();
        let ghost t0 = buf.readable();
        let message_id = match buf.get_var_i32_limit(5) {
            Some((v, _)) => Vari32 { val: v },
            None => return None,
        };
        let ghost k0: nat = (decode_var_i32(t0, 5)->0).1;
        assert(t0 =~= s.skip((0) as int));
        assert(buf.readable() =~= s.skip((k0) as int));
        let ghost t1 = buf.readable();
        let channel = match buf.get_string() {
            Some(v) => v,
            None => return None,
        };
        let ghost k1: nat = (decode_string(t1)->0).1;
        assert(t1 =~= s.skip((k0) as int));
        assert(buf.readable() =~= s.skip((k0 + k1) as int));
        let ghost t2 = buf.readable();
        let data = buf.get_rest();
        let ghost k2: nat = t2.len();
        assert(buf.readable() =~= t2.skip(k2 as int));
        assert(t2 =~= s.skip((k0 + k1) as int));
        assert(buf.readable() =~= s.skip((k0 + k1 + k2) as int));
        Some(LoginPluginRequest { message_id, channel, data })
    }

    /// Appends the body bytes.
    pub fn write(&self, buf: &mut IndexedVec)
        requires
            old(buf).wf(),
            self.wire_ok(),
        ensures
            final(buf).wf(),
            final(buf).readable() == old(buf).readable() + Self::wire(self.model()),
    {
        let ghost b0 = buf.readable();
        buf.put_var_i32(self.message_id.val);
        let ghost b1 = buf.readable();
        buf.put_string(self.channel.as_str());
        let ghost b2 = buf.readable();
        buf.put_slice(self.data.as_slice());
        assert(buf.readable() =~= old(buf).readable() + Self::wire(self.model()));
    }

    /// Parsing the bytes of a packet gives back its field values (the last field takes the rest of the frame).
    #[verifier::rlimit(50)]
    pub proof fn lemma_round_trip(p: LoginPluginRequest)
        requires
            p.wire_ok(),
        ensures
            Self::parse(Self::wire(p.model())) == Some((p.model(), Self::wire(p.model()).len())),
    {
        let m = p.model();
        let s = Self::wire(m);
        let e0 = encode_var_i32(m.0);
        let e1 = string_bytes(m.1);
        let e2 = m.2;
        let tail3 = Seq::<u8>::empty();
        let tail2 = e2;
        let tail1 = e1 + tail2;
        let tail0 = e0 + tail1;
        assert(s =~= tail0);
        assert(s.skip((0) as int) =~= tail0);
        lemma_var_i32_round_trip(m.0, tail1);
        assert(s.skip((e0.len()) as int) =~= tail1);
        lemma_string_round_trip(m.1, tail2);
        assert(s.skip((e0.len() + e1.len()) as int) =~= tail2);
    }
}

/// A plugin channel message from the server.
#[derive(Clone, Debug, PartialEq, Eq)]
pub struct PluginMessage {
    pub channel: String,
    pub data: Vec<u8>,
}

impl PluginMessage {
    pub fn get_id() -> (r: i32)
        ensures
            r == 0x17,
    {
        0x17
    }

    pub fn get_state() -> (r: u8)
        ensures
            r == 3,
    {
        3
    }

    pub fn is_inbound() -> (r: bool)
        ensures
            r == false,
    {
        false
    }

    /// The field values as mathematical values.
    pub open spec fn model(&self) -> (Seq<char>, Seq<u8>) {
        (self.channel@, self.data@)
    }

    /// Every length prefix fits in a VarInt.
    pub open spec fn wire_ok(&self) -> bool {
        string_fits(self.channel@)
    }

    /// The body bytes of a packet with field values `m`.
    pub open spec fn wire(m: (Seq<char>, Seq<u8>)) -> Seq<u8> {
        string_bytes(m.0) + m.1
    }

    /// Decoding of a body at the front of `s`: field values and bytes taken.
    pub open spec fn parse(s: Seq<u8>) -> Option<((Seq<char>, Seq<u8>), nat)> {
        match decode_string(s) {
            None => None,
            Some((v0, k0)) => {
                match Some((s.skip(k0 as int), s.skip(k0 as int).len())) {
                    None => None,
                    Some((v1, k1)) => {
                        Some(((v0, v1), (k0 + k1) as nat))
                    },
                }
            },
        }
    }

    /// Reads a body; `None` on a malformed or truncated one.
    pub fn read(buf: &mut IndexedVec) -> (r: Option<PluginMessage>)
        requires
            old(buf).wf(),
        ensures
            final(buf).wf(),
            match Self::parse(old(buf).readable()) {
                Some((m, k)) => r matches Some(p) && p.model() == m && final(buf).readable()
                    == old(buf).readable().skip(k as int),
                None => r is None,
            },
    {
        let ghost s = buf.readable();
        let ghost t0 = buf.readable();
        let channel = match buf.get_string() {
            Some(v) => v,
            None => return None,
        };
        let ghost k0: nat = (decode_string(t0)->0).1;
        assert(t0 =~= s.skip((0) as int));
        assert(buf.readable() =~= s.skip((k0) as int));
        let ghost t1 = buf.readable();
        let data = buf.get_rest();
        let ghost k1: nat = t1.len();
        assert(buf.readable() =~= t1.skip(k1 as int));
        assert(t1 =~= s.skip((k0) as int));
        assert(buf.readable() =~= s.skip((k0 + k1) as int));
        Some(PluginMessage { channel, data })
    }

    /// Appends the body bytes.
    pub fn write(&self, buf: &mut IndexedVec)
        requires
            old(buf).wf(),
            self.wire_ok(),
        ensures
            final(buf).wf(),
            final(buf).readable() == old(buf).readable() + Self::wire(self.model()),
    {
        let ghost b0 = buf.readable();
        buf.put_string(self.channel.as_str());
        let ghost b1 = buf.readable();
        buf.put_slice(self.data.as_slice());
        assert(buf.readable() =~= old(buf).readable() + Self::wire(self.model()));
    }

    /// Parsing the bytes of a packet gives back its field values (the last field takes the rest of the frame).
    pub proof fn lemma_round_trip(p: PluginMessage)
        requires
            p.wire_ok(),
        ensures
            Self::parse(Self::wire(p.model())) == Some((p.model(), Self::wire(p.model()).len())),
    {
        let m = p.model();
        let s = Self::wire(m);
        let e0 = string_bytes(m.0);
        let e1 = m.1;
        let tail2 = Seq::<u8>::empty();
        let tail1 = e1;
        let tail0 = e0 + tail1;
        assert(s =~= tail0);
        assert(s.skip((0) as int) =~= tail0);
        lemma_string_round_trip(m.0, tail1);
        assert(s.skip((e0.len()) as int) =~= tail1);
    }
}

/// Moves an entity by a small delta.
#[derive(Clone, Debug, PartialEq, Eq)]
pub struct EntityPositionPacket {
    pub entity_id: Vari32,
    pub delta_x: i16,
    pub delta_y: i16,
    pub delta_z: i16,
    pub on_ground: bool,
}

impl EntityPositionPacket {
    pub fn get_id() -> (r: i32)
        ensures
            r == 0x27,
    {
        0x27
    }

    pub fn get_state() -> (r: u8)
        ensures
            r == 3,
    {
        3
    }

    pub fn is_inbound() -> (r: bool)
        ensures
            r == false,
    {
        false
    }

    /// The field values as mathematical values.
    pub open spec fn model(&self) -> (i32, int, int, int, bool) {
        (self.entity_id.val, self.delta_x as int, self.delta_y as int, self.delta_z as int, self.on_ground)
    }

    /// Every length prefix fits in a VarInt.
    pub open spec fn wire_ok(&self) -> bool {
        true
    }

    /// The body bytes of a packet with field values `m`.
    pub open spec fn wire(m: (i32, int, int, int, bool)) -> Seq<u8> {
        encode_var_i32(m.0) + be_bytes(to_unsigned(m.1, 16), 2) + be_bytes(to_unsigned(m.2, 16), 2) + be_bytes(to_unsigned(m.3, 16), 2) + seq![if m.4 { 1u8 } else { 0u8 }]
    }

    /// Decoding of a body at the front of `s`: field values and bytes taken.
    pub open spec fn parse(s: Seq<u8>) -> Option<((i32, int, int, int, bool), nat)> {
        match decode_var_i32(s, 5) {
            None => None,
            Some((v0, k0)) => {
                match decode_be(s.skip(k0 as int), 2) {
                    None => None,
                    Some((v1, k1)) => {
                        match decode_be(s.skip(k0 + k1 as int), 2) {
                            None => None,
                            Some((v2, k2)) => {
                                match decode_be(s.skip(k0 + k1 + k2 as int), 2) {
                                    None => None,
                                    Some((v3, k3)) => {
                                        match decode_bool(s.skip(k0 + k1 + k2 + k3 as int)) {
                                            None => None,
                                            Some((v4, k4)) => {
                                                Some(((v0, to_signed(v1, 16), to_signed(v2, 16), to_signed(v3, 16), v4), (k0 + k1 + k2 + k3 + k4) as nat))
                                            },
                                        }
                                    },
                                }
                            },
                        }
                    },
                }
            },
        }
    }

    /// Reads a body; `None` on a malformed or truncated one.
    pub fn read(buf: &mut IndexedVec) -> (r: Option<EntityPositionPacket>)
        requires
            old(buf).wf(),
        ensures
            final(buf).wf(),
            match Self::parse(old(buf).readable()) {
                Some((m, k)) => r matches Some(p) && p.model() == m && final(buf).readable()
                    == old(buf).readable().skip(k as int),
                None => r is None,
            },
    {
        let ghost s = buf.readable();
        let ghost t0 = buf.readable();
        let entity_id = match buf.get_var_i32_limit(5) {
            Some((v, _)) => Vari32 { val: v },
            None => return None,
        };
        let ghost k0: nat = (decode_var_i32(t0, 5)->0).1;
        assert(t0 =~= s.skip((0) as int));
        assert(buf.readable() =~= s.skip((k0) as int));
        let ghost t1 = buf.readable();
        if buf.readable_bytes() < 2 {
            return None;
        }
        let delta_x = buf.get_i16();
        let ghost k1: nat = 2;
        assert(t1 =~= s.skip((k0) as int));
        assert(buf.readable() =~= s.skip((k0 + k1) as int));
        let ghost t2 = buf.readable();
        if buf.readable_bytes() < 2 {
            return None;
        }
        let delta_y = buf.get_i16();
        let ghost k2: nat = 2;
        assert(t2 =~= s.skip((k0 + k1) as int));
        assert(buf.readable() =~= s.skip((k0 + k1 + k2) as int));
        let ghost t3 = buf.readable();
        if buf.readable_bytes() < 2 {
            return None;
        }
        let delta_z = buf.get_i16();
        let ghost k3: nat = 2;
        assert(t3 =~= s.skip((k0 + k1 + k2) as int));
        assert(buf.readable() =~= s.skip((k0 + k1 + k2 + k3) as int));
        let ghost t4 = buf.readable();
        if buf.readable_bytes() < 1 {
            return None;
        }
        let on_ground = buf.get_bool();
        let ghost k4: nat = 1;
        assert(buf.readable() =~= t4.skip(1));
        assert(t4 =~= s.skip((k0 + k1 + k2 + k3) as int));
        assert(buf.readable() =~= s.skip((k0 + k1 + k2 + k3 + k4) as int));
        Some(EntityPositionPacket { entity_id, delta_x, delta_y, delta_z, on_ground })
    }

    /// Appends the body bytes.
    pub fn write(&self, buf: &mut IndexedVec)
        requires
            old(buf).wf(),
            self.wire_ok(),
        ensures
            final(buf).wf(),
            final(buf).readable() == old(buf).readable() + Self::wire(self.model()),
    {
        let ghost b0 = buf.readable();
        buf.put_var_i32(self.entity_id.val);
        let ghost b1 = buf.readable();
        buf.put_i16(self.delta_x);
        let ghost b2 = buf.readable();
        buf.put_i16(self.delta_y);
        let ghost b3 = buf.readable();
        buf.put_i16(self.delta_z);
        let ghost b4 = buf.readable();
        buf.put_bool(self.on_ground);
        assert(buf.readable() =~= old(buf).readable() + Self::wire(self.model()));
    }

    /// Parsing the bytes of a packet gives back its field values, whatever follows.
    #[verifier::rlimit(50)]
    pub proof fn lemma_round_trip(p: EntityPositionPacket, rest: Seq<u8>)
        requires
            p.wire_ok(),
        ensures
            Self::parse(Self::wire(p.model()) + rest) == Some((p.model(), Self::wire(p.model()).len())),
    {
        let m = p.model();
        let s = Self::wire(m) + rest;
        let e0 = encode_var_i32(m.0);
        let e1 = be_bytes(to_unsigned(m.1, 16), 2);
        let e2 = be_bytes(to_unsigned(m.2, 16), 2);
        let e3 = be_bytes(to_unsigned(m.3, 16), 2);
        let e4 = seq![if m.4 { 1u8 } else { 0u8 }];
        let tail5 = rest;
        let tail4 = e4 + tail5;
        let tail3 = e3 + tail4;
        let tail2 = e2 + tail3;
        let tail1 = e1 + tail2;
        let tail0 = e0 + tail1;
        assert(s =~= tail0);
        assert(s.skip((0) as int) =~= tail0);
        lemma_var_i32_round_trip(m.0, tail1);
        assert(s.skip((e0.len()) as int) =~= tail1);
        lemma_be_decode(to_unsigned(m.1, 16), 2, tail2);
        lemma_pow256_le(0);
        lemma_signed_round_trip(m.1, 16);
        assert(s.skip((e0.len() + e1.len()) as int) =~= tail2);
        lemma_be_decode(to_unsigned(m.2, 16), 2, tail3);
        lemma_pow256_le(0);
        lemma_signed_round_trip(m.2, 16);
        assert(s.skip((e0.len() + e1.len() + e2.len()) as int) =~= tail3);
        lemma_be_decode(to_unsigned(m.3, 16), 2, tail4);
        lemma_pow256_le(0);
        lemma_signed_round_trip(m.3, 16);
        assert(s.skip((e0.len() + e1.len() + e2.len() + e3.len()) as int) =~= tail4);
        assert((e4 + tail5)[0] == e4[0]);
    }
}

} // verus!
