//! The closed set of packets, the table of which packet a (direction,
//! state, id) key names, and dispatch over them.
use vstd::prelude::*;
use vstd::string::StringSliceAdditionalSpecFns;
use crate::buffers::string_fits;
use crate::indexed_vec::IndexedVec;
use crate::packets::{c2s, s2c};

verus! {

/// The kind of a packet, by direction, state and id.
#[derive(Clone, Copy, Debug, PartialEq, Eq, Structural)]
pub enum PacketKind {
    Handshake,
    Request,
    Ping,
    LoginStart,
    EncryptionResponse,
    LoginPluginResponse,
    ClientPluginMessage,
    Response,
    Pong,
    Disconnect,
    EncryptionRequest,
    LoginSuccess,
    SetCompression,
    LoginPluginRequest,
    ServerPluginMessage,
    EntityPosition,
}

impl PacketKind {
    pub open spec fn spec_id(self) -> i32 {
        match self {
            PacketKind::Handshake => 0x00,
            PacketKind::Request => 0x00,
            PacketKind::Ping => 0x01,
            PacketKind::LoginStart => 0x00,
            PacketKind::EncryptionResponse => 0x01,
            PacketKind::LoginPluginResponse => 0x02,
            PacketKind::ClientPluginMessage => 0x0B,
            PacketKind::Response => 0x00,
            PacketKind::Pong => 0x01,
            PacketKind::Disconnect => 0x00,
            PacketKind::EncryptionRequest => 0x01,
            PacketKind::LoginSuccess => 0x02,
            PacketKind::SetCompression => 0x03,
            PacketKind::LoginPluginRequest => 0x04,
            PacketKind::ServerPluginMessage => 0x17,
            PacketKind::EntityPosition => 0x27,
        }
    }

    pub open spec fn spec_state(self) -> u8 {
        match self {
            PacketKind::Handshake => 0,
            PacketKind::Request => 1,
            PacketKind::Ping => 1,
            PacketKind::LoginStart => 2,
            PacketKind::EncryptionResponse => 2,
            PacketKind::LoginPluginResponse => 2,
            PacketKind::ClientPluginMessage => 3,
            PacketKind::Response => 1,
            PacketKind::Pong => 1,
            PacketKind::Disconnect => 2,
            PacketKind::EncryptionRequest => 2,
            PacketKind::LoginSuccess => 2,
            PacketKind::SetCompression => 2,
            PacketKind::LoginPluginRequest => 2,
            PacketKind::ServerPluginMessage => 3,
            PacketKind::EntityPosition => 3,
        }
    }

    pub open spec fn spec_inbound(self) -> bool {
        match self {
            PacketKind::Handshake => true,
            PacketKind::Request => true,
            PacketKind::Ping => true,
            PacketKind::LoginStart => true,
            PacketKind::EncryptionResponse => true,
            PacketKind::LoginPluginResponse => true,
            PacketKind::ClientPluginMessage => true,
            PacketKind::Response => false,
            PacketKind::Pong => false,
            PacketKind::Disconnect => false,
            PacketKind::EncryptionRequest => false,
            PacketKind::LoginSuccess => false,
            PacketKind::SetCompression => false,
            PacketKind::LoginPluginRequest => false,
            PacketKind::ServerPluginMessage => false,
            PacketKind::EntityPosition => false,
        }
    }

    pub fn id(&self) -> (r: i32)
        ensures
            r == self.spec_id(),
    {
        match self {
            PacketKind::Handshake => 0x00,
            PacketKind::Request => 0x00,
            PacketKind::Ping => 0x01,
            PacketKind::LoginStart => 0x00,
            PacketKind::EncryptionResponse => 0x01,
            PacketKind::LoginPluginResponse => 0x02,
            PacketKind::ClientPluginMessage => 0x0B,
            PacketKind::Response => 0x00,
            PacketKind::Pong => 0x01,
            PacketKind::Disconnect => 0x00,
            PacketKind::EncryptionRequest => 0x01,
            PacketKind::LoginSuccess => 0x02,
            PacketKind::SetCompression => 0x03,
            PacketKind::LoginPluginRequest => 0x04,
            PacketKind::ServerPluginMessage => 0x17,
            PacketKind::EntityPosition => 0x27,
        }
    }

    pub fn state(&self) -> (r: u8)
        ensures
            r == self.spec_state(),
    {
        match self {
            PacketKind::Handshake => 0,
            PacketKind::Request => 1,
            PacketKind::Ping => 1,
            PacketKind::LoginStart => 2,
            PacketKind::EncryptionResponse => 2,
            PacketKind::LoginPluginResponse => 2,
            PacketKind::ClientPluginMessage => 3,
            PacketKind::Response => 1,
            PacketKind::Pong => 1,
            PacketKind::Disconnect => 2,
            PacketKind::EncryptionRequest => 2,
            PacketKind::LoginSuccess => 2,
            PacketKind::SetCompression => 2,
            PacketKind::LoginPluginRequest => 2,
            PacketKind::ServerPluginMessage => 3,
            PacketKind::EntityPosition => 3,
        }
    }

    pub fn inbound(&self) -> (r: bool)
        ensures
            r == self.spec_inbound(),
    {
        match self {
            PacketKind::Handshake => true,
            PacketKind::Request => true,
            PacketKind::Ping => true,
            PacketKind::LoginStart => true,
            PacketKind::EncryptionResponse => true,
            PacketKind::LoginPluginResponse => true,
            PacketKind::ClientPluginMessage => true,
            PacketKind::Response => false,
            PacketKind::Pong => false,
            PacketKind::Disconnect => false,
            PacketKind::EncryptionRequest => false,
            PacketKind::LoginSuccess => false,
            PacketKind::SetCompression => false,
            PacketKind::LoginPluginRequest => false,
            PacketKind::ServerPluginMessage => false,
            PacketKind::EntityPosition => false,
        }
    }

    /// A body of this kind can be decoded from the front of `s`.
    pub open spec fn parses(self, s: Seq<u8>) -> bool {
        match self {
            PacketKind::Handshake => c2s::HandshakePacket::parse(s) is Some,
            PacketKind::Request => c2s::Request::parse(s) is Some,
            PacketKind::Ping => c2s::Ping::parse(s) is Some,
            PacketKind::LoginStart => c2s::LoginStart::parse(s) is Some,
            PacketKind::EncryptionResponse => c2s::EncryptionResponse::parse(s) is Some,
            PacketKind::LoginPluginResponse => c2s::LoginPluginResponse::parse(s) is Some,
            PacketKind::ClientPluginMessage => c2s::PluginMessage::parse(s) is Some,
            PacketKind::Response => s2c::Response::parse(s) is Some,
            PacketKind::Pong => s2c::Pong::parse(s) is Some,
            PacketKind::Disconnect => s2c::Disconnect::parse(s) is Some,
            PacketKind::EncryptionRequest => s2c::EncryptionRequest::parse(s) is Some,
            PacketKind::LoginSuccess => s2c::LoginSuccess::parse(s) is Some,
            PacketKind::SetCompression => s2c::SetCompression::parse(s) is Some,
            PacketKind::LoginPluginRequest => s2c::LoginPluginRequest::parse(s) is Some,
            PacketKind::ServerPluginMessage => s2c::PluginMessage::parse(s) is Some,
            PacketKind::EntityPosition => s2c::EntityPositionPacket::parse(s) is Some,
        }
    }
}

/// The kind that a key names, if any.
pub open spec fn spec_kind_for(inbound: bool, state: u8, id: i32) -> Option<PacketKind> {
    if inbound == true && state == 0 && id == 0x00 {
        Some(PacketKind::Handshake)
    } else if inbound == true && state == 1 && id == 0x00 {
        Some(PacketKind::Request)
    } else if inbound == true && state == 1 && id == 0x01 {
        Some(PacketKind::Ping)
    } else if inbound == true && state == 2 && id == 0x00 {
        Some(PacketKind::LoginStart)
    } else if inbound == true && state == 2 && id == 0x01 {
        Some(PacketKind::EncryptionResponse)
    } else if inbound == true && state == 2 && id == 0x02 {
        Some(PacketKind::LoginPluginResponse)
    } else if inbound == true && state == 3 && id == 0x0B {
        Some(PacketKind::ClientPluginMessage)
    } else if inbound == false && state == 1 && id == 0x00 {
        Some(PacketKind::Response)
    } else if inbound == false && state == 1 && id == 0x01 {
        Some(PacketKind::Pong)
    } else if inbound == false && state == 2 && id == 0x00 {
        Some(PacketKind::Disconnect)
    } else if inbound == false && state == 2 && id == 0x01 {
        Some(PacketKind::EncryptionRequest)
    } else if inbound == false && state == 2 && id == 0x02 {
        Some(PacketKind::LoginSuccess)
    } else if inbound == false && state == 2 && id == 0x03 {
        Some(PacketKind::SetCompression)
    } else if inbound == false && state == 2 && id == 0x04 {
        Some(PacketKind::LoginPluginRequest)
    } else if inbound == false && state == 3 && id == 0x17 {
        Some(PacketKind::ServerPluginMessage)
    } else if inbound == false && state == 3 && id == 0x27 {
        Some(PacketKind::EntityPosition)
    } else {
        None
    }
}

/// The kind that a key names, if any.
pub fn kind_for(inbound: bool, state: u8, id: i32) -> (r: Option<PacketKind>)
    ensures
        r == spec_kind_for(inbound, state, id),
{
    if inbound == true && state == 0 && id == 0x00 {
        Some(PacketKind::Handshake)
    } else if inbound == true && state == 1 && id == 0x00 {
        Some(PacketKind::Request)
    } else if inbound == true && state == 1 && id == 0x01 {
        Some(PacketKind::Ping)
    } else if inbound == true && state == 2 && id == 0x00 {
        Some(PacketKind::LoginStart)
    } else if inbound == true && state == 2 && id == 0x01 {
        Some(PacketKind::EncryptionResponse)
    } else if inbound == true && state == 2 && id == 0x02 {
        Some(PacketKind::LoginPluginResponse)
    } else if inbound == true && state == 3 && id == 0x0B {
        Some(PacketKind::ClientPluginMessage)
    } else if inbound == false && state == 1 && id == 0x00 {
        Some(PacketKind::Response)
    } else if inbound == false && state == 1 && id == 0x01 {
        Some(PacketKind::Pong)
    } else if inbound == false && state == 2 && id == 0x00 {
        Some(PacketKind::Disconnect)
    } else if inbound == false && state == 2 && id == 0x01 {
        Some(PacketKind::EncryptionRequest)
    } else if inbound == false && state == 2 && id == 0x02 {
        Some(PacketKind::LoginSuccess)
    } else if inbound == false && state == 2 && id == 0x03 {
        Some(PacketKind::SetCompression)
    } else if inbound == false && state == 2 && id == 0x04 {
        Some(PacketKind::LoginPluginRequest)
    } else if inbound == false && state == 3 && id == 0x17 {
        Some(PacketKind::ServerPluginMessage)
    } else if inbound == false && state == 3 && id == 0x27 {
        Some(PacketKind::EntityPosition)
    } else {
        None
    }
}

/// A decoded packet of any kind.
#[derive(Clone, Debug, PartialEq, Eq)]
pub enum Packet {
    Handshake(c2s::HandshakePacket),
    Request(c2s::Request),
    Ping(c2s::Ping),
    LoginStart(c2s::LoginStart),
    EncryptionResponse(c2s::EncryptionResponse),
    LoginPluginResponse(c2s::LoginPluginResponse),
    ClientPluginMessage(c2s::PluginMessage),
    Response(s2c::Response),
    Pong(s2c::Pong),
    Disconnect(s2c::Disconnect),
    EncryptionRequest(s2c::EncryptionRequest),
    LoginSuccess(s2c::LoginSuccess),
    SetCompression(s2c::SetCompression),
    LoginPluginRequest(s2c::LoginPluginRequest),
    ServerPluginMessage(s2c::PluginMessage),
    EntityPosition(s2c::EntityPositionPacket),
}

impl Packet {
    pub open spec fn kind(&self) -> PacketKind {
        match self {
            Packet::Handshake(_) => PacketKind::Handshake,
            Packet::Request(_) => PacketKind::Request,
            Packet::Ping(_) => PacketKind::Ping,
            Packet::LoginStart(_) => PacketKind::LoginStart,
            Packet::EncryptionResponse(_) => PacketKind::EncryptionResponse,
            Packet::LoginPluginResponse(_) => PacketKind::LoginPluginResponse,
            Packet::ClientPluginMessage(_) => PacketKind::ClientPluginMessage,
            Packet::Response(_) => PacketKind::Response,
            Packet::Pong(_) => PacketKind::Pong,
            Packet::Disconnect(_) => PacketKind::Disconnect,
            Packet::EncryptionRequest(_) => PacketKind::EncryptionRequest,
            Packet::LoginSuccess(_) => PacketKind::LoginSuccess,
            Packet::SetCompression(_) => PacketKind::SetCompression,
            Packet::LoginPluginRequest(_) => PacketKind::LoginPluginRequest,
            Packet::ServerPluginMessage(_) => PacketKind::ServerPluginMessage,
            Packet::EntityPosition(_) => PacketKind::EntityPosition,
        }
    }

    /// The kind of the packet.
    pub fn get_kind(&self) -> (r: PacketKind)
        ensures
            r == self.kind(),
    {
        match self {
            Packet::Handshake(_) => PacketKind::Handshake,
            Packet::Request(_) => PacketKind::Request,
            Packet::Ping(_) => PacketKind::Ping,
            Packet::LoginStart(_) => PacketKind::LoginStart,
            Packet::EncryptionResponse(_) => PacketKind::EncryptionResponse,
            Packet::LoginPluginResponse(_) => PacketKind::LoginPluginResponse,
            Packet::ClientPluginMessage(_) => PacketKind::ClientPluginMessage,
            Packet::Response(_) => PacketKind::Response,
            Packet::Pong(_) => PacketKind::Pong,
            Packet::Disconnect(_) => PacketKind::Disconnect,
            Packet::EncryptionRequest(_) => PacketKind::EncryptionRequest,
            Packet::LoginSuccess(_) => PacketKind::LoginSuccess,
            Packet::SetCompression(_) => PacketKind::SetCompression,
            Packet::LoginPluginRequest(_) => PacketKind::LoginPluginRequest,
            Packet::ServerPluginMessage(_) => PacketKind::ServerPluginMessage,
            Packet::EntityPosition(_) => PacketKind::EntityPosition,
        }
    }

    /// The body bytes of the packet.
    pub open spec fn wire(&self) -> Seq<u8> {
        match self {
            Packet::Handshake(p) => c2s::HandshakePacket::wire(p.model()),
            Packet::Request(p) => c2s::Request::wire(p.model()),
            Packet::Ping(p) => c2s::Ping::wire(p.model()),
            Packet::LoginStart(p) => c2s::LoginStart::wire(p.model()),
            Packet::EncryptionResponse(p) => c2s::EncryptionResponse::wire(p.model()),
            Packet::LoginPluginResponse(p) => c2s::LoginPluginResponse::wire(p.model()),
            Packet::ClientPluginMessage(p) => c2s::PluginMessage::wire(p.model()),
            Packet::Response(p) => s2c::Response::wire(p.model()),
            Packet::Pong(p) => s2c::Pong::wire(p.model()),
            Packet::Disconnect(p) => s2c::Disconnect::wire(p.model()),
            Packet::EncryptionRequest(p) => s2c::EncryptionRequest::wire(p.model()),
            Packet::LoginSuccess(p) => s2c::LoginSuccess::wire(p.model()),
            Packet::SetCompression(p) => s2c::SetCompression::wire(p.model()),
            Packet::LoginPluginRequest(p) => s2c::LoginPluginRequest::wire(p.model()),
            Packet::ServerPluginMessage(p) => s2c::PluginMessage::wire(p.model()),
            Packet::EntityPosition(p) => s2c::EntityPositionPacket::wire(p.model()),
        }
    }

    /// Every length prefix of the packet fits in a VarInt.
    pub open spec fn wire_ok(&self) -> bool {
        match self {
            Packet::Handshake(p) => p.wire_ok(),
            Packet::Request(p) => p.wire_ok(),
            Packet::Ping(p) => p.wire_ok(),
            Packet::LoginStart(p) => p.wire_ok(),
            Packet::EncryptionResponse(p) => p.wire_ok(),
            Packet::LoginPluginResponse(p) => p.wire_ok(),
            Packet::ClientPluginMessage(p) => p.wire_ok(),
            Packet::Response(p) => p.wire_ok(),
            Packet::Pong(p) => p.wire_ok(),
            Packet::Disconnect(p) => p.wire_ok(),
            Packet::EncryptionRequest(p) => p.wire_ok(),
            Packet::LoginSuccess(p) => p.wire_ok(),
            Packet::SetCompression(p) => p.wire_ok(),
            Packet::LoginPluginRequest(p) => p.wire_ok(),
            Packet::ServerPluginMessage(p) => p.wire_ok(),
            Packet::EntityPosition(p) => p.wire_ok(),
        }
    }

    /// The packet is what decoding the front of `s` gives.
    pub open spec fn parsed_from(&self, s: Seq<u8>) -> bool {
        match self {
            Packet::Handshake(p) => c2s::HandshakePacket::parse(s) matches Some((m, _)) && m == p.model(),
            Packet::Request(p) => c2s::Request::parse(s) matches Some((m, _)) && m == p.model(),
            Packet::Ping(p) => c2s::Ping::parse(s) matches Some((m, _)) && m == p.model(),
            Packet::LoginStart(p) => c2s::LoginStart::parse(s) matches Some((m, _)) && m == p.model(),
            Packet::EncryptionResponse(p) => c2s::EncryptionResponse::parse(s) matches Some((m, _)) && m == p.model(),
            Packet::LoginPluginResponse(p) => c2s::LoginPluginResponse::parse(s) matches Some((m, _)) && m == p.model(),
            Packet::ClientPluginMessage(p) => c2s::PluginMessage::parse(s) matches Some((m, _)) && m == p.model(),
            Packet::Response(p) => s2c::Response::parse(s) matches Some((m, _)) && m == p.model(),
            Packet::Pong(p) => s2c::Pong::parse(s) matches Some((m, _)) && m == p.model(),
            Packet::Disconnect(p) => s2c::Disconnect::parse(s) matches Some((m, _)) && m == p.model(),
            Packet::EncryptionRequest(p) => s2c::EncryptionRequest::parse(s) matches Some((m, _)) && m == p.model(),
            Packet::LoginSuccess(p) => s2c::LoginSuccess::parse(s) matches Some((m, _)) && m == p.model(),
            Packet::SetCompression(p) => s2c::SetCompression::parse(s) matches Some((m, _)) && m == p.model(),
            Packet::LoginPluginRequest(p) => s2c::LoginPluginRequest::parse(s) matches Some((m, _)) && m == p.model(),
            Packet::ServerPluginMessage(p) => s2c::PluginMessage::parse(s) matches Some((m, _)) && m == p.model(),
            Packet::EntityPosition(p) => s2c::EntityPositionPacket::parse(s) matches Some((m, _)) && m == p.model(),
        }
    }

    /// Decodes a body of kind `kind`; `None` when it is malformed.
    pub fn read(kind: PacketKind, buf: &mut IndexedVec) -> (r: Option<Packet>)
        requires
            old(buf).wf(),
        ensures
            final(buf).wf(),
            r is Some <==> kind.parses(old(buf).readable()),
            r matches Some(p) ==> p.kind() == kind && p.parsed_from(old(buf).readable()),
    {
        match kind {
            PacketKind::Handshake => match c2s::HandshakePacket::read(buf) {
                Some(p) => Some(Packet::Handshake(p)),
                None => None,
            },
            PacketKind::Request => match c2s::Request::read(buf) {
                Some(p) => Some(Packet::Request(p)),
                None => None,
            },
            PacketKind::Ping => match c2s::Ping::read(buf) {
                Some(p) => Some(Packet::Ping(p)),
                None => None,
            },
            PacketKind::LoginStart => match c2s::LoginStart::read(buf) {
                Some(p) => Some(Packet::LoginStart(p)),
                None => None,
            },
            PacketKind::EncryptionResponse => match c2s::EncryptionResponse::read(buf) {
                Some(p) => Some(Packet::EncryptionResponse(p)),
                None => None,
            },
            PacketKind::LoginPluginResponse => match c2s::LoginPluginResponse::read(buf) {
                Some(p) => Some(Packet::LoginPluginResponse(p)),
                None => None,
            },
            PacketKind::ClientPluginMessage => match c2s::PluginMessage::read(buf) {
                Some(p) => Some(Packet::ClientPluginMessage(p)),
                None => None,
            },
            PacketKind::Response => match s2c::Response::read(buf) {
                Some(p) => Some(Packet::Response(p)),
                None => None,
            },
            PacketKind::Pong => match s2c::Pong::read(buf) {
                Some(p) => Some(Packet::Pong(p)),
                None => None,
            },
            PacketKind::Disconnect => match s2c::Disconnect::read(buf) {
                Some(p) => Some(Packet::Disconnect(p)),
                None => None,
            },
            PacketKind::EncryptionRequest => match s2c::EncryptionRequest::read(buf) {
                Some(p) => Some(Packet::EncryptionRequest(p)),
                None => None,
            },
            PacketKind::LoginSuccess => match s2c::LoginSuccess::read(buf) {
                Some(p) => Some(Packet::LoginSuccess(p)),
                None => None,
            },
            PacketKind::SetCompression => match s2c::SetCompression::read(buf) {
                Some(p) => Some(Packet::SetCompression(p)),
                None => None,
            },
            PacketKind::LoginPluginRequest => match s2c::LoginPluginRequest::read(buf) {
                Some(p) => Some(Packet::LoginPluginRequest(p)),
                None => None,
            },
            PacketKind::ServerPluginMessage => match s2c::PluginMessage::read(buf) {
                Some(p) => Some(Packet::ServerPluginMessage(p)),
                None => None,
            },
            PacketKind::EntityPosition => match s2c::EntityPositionPacket::read(buf) {
                Some(p) => Some(Packet::EntityPosition(p)),
                None => None,
            },
        }
    }

    /// Appends the body bytes.
    pub fn write(&self, buf: &mut IndexedVec)
        requires
            old(buf).wf(),
            self.wire_ok(),
        ensures
            final(buf).wf(),
            final(buf).readable() == old(buf).readable() + self.wire(),
    {
        match self {
            Packet::Handshake(p) => p.write(buf),
            Packet::Request(p) => p.write(buf),
            Packet::Ping(p) => p.write(buf),
            Packet::LoginStart(p) => p.write(buf),
            Packet::EncryptionResponse(p) => p.write(buf),
            Packet::LoginPluginResponse(p) => p.write(buf),
            Packet::ClientPluginMessage(p) => p.write(buf),
            Packet::Response(p) => p.write(buf),
            Packet::Pong(p) => p.write(buf),
            Packet::Disconnect(p) => p.write(buf),
            Packet::EncryptionRequest(p) => p.write(buf),
            Packet::LoginSuccess(p) => p.write(buf),
            Packet::SetCompression(p) => p.write(buf),
            Packet::LoginPluginRequest(p) => p.write(buf),
            Packet::ServerPluginMessage(p) => p.write(buf),
            Packet::EntityPosition(p) => p.write(buf),
        }
    }

    /// Whether every length prefix fits in a VarInt.
    pub fn fits(&self) -> (r: bool)
        ensures
            r == self.wire_ok(),
    {
        match self {
            Packet::Handshake(p) => p.ip.as_str().as_bytes().len() <= 0x7fff_ffff,
            Packet::Request(_) => true,
            Packet::Ping(_) => true,
            Packet::LoginStart(p) => p.name.as_str().as_bytes().len() <= 0x7fff_ffff,
            Packet::EncryptionResponse(p) => p.shared_secret.len() <= 0x7fff_ffff && p.verify_token.len() <= 0x7fff_ffff,
            Packet::LoginPluginResponse(_) => true,
            Packet::ClientPluginMessage(p) => p.channel.as_str().as_bytes().len() <= 0x7fff_ffff,
            Packet::Response(p) => p.json.as_str().as_bytes().len() <= 0x7fff_ffff,
            Packet::Pong(_) => true,
            Packet::Disconnect(p) => p.reason.as_str().as_bytes().len() <= 0x7fff_ffff,
            Packet::EncryptionRequest(p) => p.server_id.as_str().as_bytes().len() <= 0x7fff_ffff && p.public_key.len() <= 0x7fff_ffff && p.verify_token.len() <= 0x7fff_ffff,
            Packet::LoginSuccess(p) => p.username.as_str().as_bytes().len() <= 0x7fff_ffff,
            Packet::SetCompression(_) => true,
            Packet::LoginPluginRequest(p) => p.channel.as_str().as_bytes().len() <= 0x7fff_ffff,
            Packet::ServerPluginMessage(p) => p.channel.as_str().as_bytes().len() <= 0x7fff_ffff,
            Packet::EntityPosition(_) => true,
        }
    }
}

} // verus!
