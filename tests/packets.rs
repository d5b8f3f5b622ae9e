use paxy::dispatch::{kind_for, Packet, PacketKind};
use paxy::indexed_vec::IndexedVec;
use paxy::packets::c2s::{HandshakePacket, LoginPluginResponse, Ping, Request};
use paxy::packets::s2c::{EncryptionRequest, EntityPositionPacket, LoginSuccess, SetCompression};
use paxy::packets::Vari32;

#[test]
fn handshake_round_trip_and_bytes() {
    let p = HandshakePacket {
        protocol_version: Vari32 { val: 754 },
        ip: "localhost".to_string(),
        port: 25565,
        next_state: Vari32 { val: 2 },
    };
    let mut b = IndexedVec::new();
    p.write(&mut b);
    let mut expected = vec![0xf2, 0x05, 9];
    expected.extend_from_slice(b"localhost");
    expected.extend_from_slice(&[0x63, 0xdd, 0x02]);
    assert_eq!(b.as_slice(), &expected[..]);
    assert_eq!(HandshakePacket::read(&mut b), Some(p));
    assert_eq!(b.readable_bytes(), 0);
}

#[test]
fn entity_position_round_trip() {
    let p = EntityPositionPacket {
        entity_id: Vari32 { val: 42 },
        delta_x: 5,
        delta_y: -3,
        delta_z: 7,
        on_ground: true,
    };
    let mut b = IndexedVec::new();
    p.write(&mut b);
    assert_eq!(b.as_slice(), &[42, 0, 5, 0xff, 0xfd, 0, 7, 1]);
    assert_eq!(EntityPositionPacket::read(&mut b), Some(p));
}

#[test]
fn login_packets_round_trip() {
    let p = LoginSuccess { uuid: 0x1234_5678_9abc_def0_1122_3344_5566_7788, username: "Steve".to_string() };
    let mut b = IndexedVec::new();
    p.write(&mut b);
    assert_eq!(b.readable_bytes(), 16 + 1 + 5);
    assert_eq!(LoginSuccess::read(&mut b), Some(p));

    let c = SetCompression { threshold: Vari32 { val: 256 } };
    let mut b = IndexedVec::new();
    c.write(&mut b);
    assert_eq!(b.as_slice(), &[0x80, 0x02]);
    assert_eq!(SetCompression::read(&mut b), Some(c));

    let e = EncryptionRequest { server_id: String::new(), public_key: vec![1, 2, 3], verify_token: vec![4] };
    let mut b = IndexedVec::new();
    e.write(&mut b);
    assert_eq!(b.as_slice(), &[0, 3, 1, 2, 3, 1, 4]);
    assert_eq!(EncryptionRequest::read(&mut b), Some(e));
}

#[test]
fn rest_of_frame_fields_and_empty_packets() {
    let p = LoginPluginResponse { message_id: Vari32 { val: 3 }, successful: true, data: vec![7, 7, 7] };
    let mut b = IndexedVec::new();
    p.write(&mut b);
    assert_eq!(b.as_slice(), &[3, 1, 7, 7, 7]);
    assert_eq!(LoginPluginResponse::read(&mut b), Some(p));

    let mut b = IndexedVec::new();
    Request {}.write(&mut b);
    assert_eq!(b.readable_bytes(), 0);
    assert_eq!(Request::read(&mut b), Some(Request {}));
}

#[test]
fn truncated_body_is_rejected() {
    let mut b = IndexedVec::from_vec(vec![42, 0, 5]);
    b.set_writer_index(3);
    assert_eq!(EntityPositionPacket::read(&mut b), None);
    let mut b = IndexedVec::from_vec(vec![1, 2]);
    b.set_writer_index(2);
    assert_eq!(Ping::read(&mut b), None);
}

#[test]
fn packet_metadata_and_kind_table() {
    assert_eq!(HandshakePacket::get_id(), 0);
    assert_eq!(HandshakePacket::get_state(), 0);
    assert!(HandshakePacket::is_inbound());
    assert_eq!(EntityPositionPacket::get_id(), 0x27);
    assert_eq!(EntityPositionPacket::get_state(), 3);
    assert!(!EntityPositionPacket::is_inbound());
    assert_eq!(kind_for(true, 0, 0), Some(PacketKind::Handshake));
    assert_eq!(kind_for(false, 2, 3), Some(PacketKind::SetCompression));
    assert_eq!(kind_for(false, 3, 0x27), Some(PacketKind::EntityPosition));
    assert_eq!(kind_for(true, 3, 0x27), None);
    assert_eq!(PacketKind::Ping.id(), 1);
    assert_eq!(PacketKind::Ping.state(), 1);
    assert!(PacketKind::Ping.inbound());
}

#[test]
fn packet_dispatch_reads_by_kind() {
    let mut b = IndexedVec::new();
    b.put_slice(&[0x80, 0x02]);
    let p = Packet::read(PacketKind::SetCompression, &mut b);
    assert_eq!(p, Some(Packet::SetCompression(SetCompression { threshold: Vari32 { val: 256 } })));
    let p = p.unwrap();
    assert!(p.fits());
    assert_eq!(p.get_kind(), PacketKind::SetCompression);
    let mut out = IndexedVec::new();
    p.write(&mut out);
    assert_eq!(out.as_slice(), &[0x80, 0x02]);
}
