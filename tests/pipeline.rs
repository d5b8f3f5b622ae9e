use libdeflater::{CompressionLvl, Compressor, Decompressor};
use paxy::buffers::{VarInts, VarIntsMut};
use paxy::contexts::ConnectionContext;
use paxy::dispatch::{Packet, PacketKind};
use paxy::framing::{
    compress_packet, decompress_packet, encode_frame, forward_frame, inner_bytes, process_frames, read_frame,
    validate_small_frame,
};
use paxy::handling::{register_packets, HandlingContext, Transformer, UnparsedPacket};
use paxy::indexed_vec::IndexedVec;
use paxy::packets::c2s::{HandshakePacket, Ping};
use paxy::packets::s2c::{EntityPositionPacket, PluginMessage, SetCompression};
use paxy::packets::Vari32;
use paxy::transformation::TransformationResult;

fn compressor() -> Compressor {
    Compressor::new(CompressionLvl::fastest())
}

fn inner_of(id: i32, body: &IndexedVec) -> Vec<u8> {
    let mut b = IndexedVec::new();
    b.put_var_i32(id);
    b.put_slice(body.as_slice());
    b.as_slice().to_vec()
}

fn plain_frame(inner: &[u8]) -> Vec<u8> {
    encode_frame(0, inner, &mut compressor()).as_slice().to_vec()
}

fn filled(bytes: &[u8]) -> IndexedVec {
    let mut b = IndexedVec::from_vec(bytes.to_vec());
    b.set_writer_index(bytes.len());
    b
}

fn run(handler: &HandlingContext, conn: &mut ConnectionContext, other: &mut ConnectionContext, input: &[u8]) -> (usize, Vec<u8>) {
    let mut read_buf = filled(input);
    let mut caching = IndexedVec::new();
    let n = process_frames(handler, conn, other, &mut read_buf, &mut caching, &mut Decompressor::new(), &mut compressor());
    (n, caching.as_slice().to_vec())
}

fn handler() -> HandlingContext {
    let mut h = HandlingContext::new();
    register_packets(&mut h);
    h
}

fn handshake_frame() -> Vec<u8> {
    let p = HandshakePacket {
        protocol_version: Vari32 { val: 754 },
        ip: "localhost".to_string(),
        port: 25565,
        next_state: Vari32 { val: 2 },
    };
    let mut body = IndexedVec::new();
    p.write(&mut body);
    plain_frame(&inner_of(0, &body))
}

#[test]
fn handshake_moves_both_halves_to_login() {
    let h = handler();
    let (mut c2s, mut s2c) = ConnectionContext::create_pair(0);
    let frame = handshake_frame();
    assert_eq!(frame[0] as usize, frame.len() - 1);
    let (n, out) = run(&h, &mut c2s, &mut s2c, &frame);
    assert_eq!(n, frame.len());
    assert_eq!(out, frame);
    assert_eq!(c2s.state, 2);
    assert_eq!(s2c.state, 2);
    assert!(!c2s.should_close);
}

#[test]
fn frames_before_handshake_use_state_zero() {
    let h = handler();
    let (mut c2s, mut s2c) = ConnectionContext::create_pair(3);
    assert_eq!(c2s.state, 0);
    assert_eq!(c2s.token_self, 6);
    assert_eq!(s2c.token_self, 7);
    // id 0 in state 0 is the handshake; it is decoded and dispatched.
    let mut frames = handshake_frame();
    frames.extend_from_slice(&handshake_frame());
    let (n, out) = run(&h, &mut c2s, &mut s2c, &frames);
    assert_eq!(n, frames.len());
    assert_eq!(out, frames);
    assert_eq!(c2s.state, 2);
}

#[test]
fn set_compression_is_adopted_by_both_halves() {
    let h = handler();
    let (mut c2s, mut s2c) = ConnectionContext::create_pair(0);
    c2s.state = 2;
    s2c.state = 2;
    let mut body = IndexedVec::new();
    SetCompression { threshold: Vari32 { val: 256 } }.write(&mut body);
    let frame = plain_frame(&inner_of(3, &body));
    let (_, out) = run(&h, &mut s2c, &mut c2s, &frame);
    assert_eq!(out, frame);
    assert_eq!(c2s.compression_threshold, 256);
    assert_eq!(s2c.compression_threshold, 256);
}

#[test]
fn short_frame_under_threshold_passes_verbatim() {
    let h = handler();
    let (mut c2s, mut s2c) = ConnectionContext::create_pair(0);
    c2s.compression_threshold = 256;
    s2c.compression_threshold = 256;
    c2s.state = 3;
    s2c.state = 3;
    let mut frame = vec![11, 0];
    frame.extend_from_slice(&[0x0b, 1, 2, 3, 4, 5, 6, 7, 8, 9]);
    let (n, out) = run(&h, &mut c2s, &mut s2c, &frame);
    assert_eq!(n, 12);
    assert_eq!(out, frame);
}

#[test]
fn large_modified_frame_is_recompressed() {
    let mut h = handler();
    h.register_transformer(PacketKind::ServerPluginMessage, Transformer::Reencode);
    let (mut c2s, mut s2c) = ConnectionContext::create_pair(0);
    for c in [&mut c2s, &mut s2c] {
        c.compression_threshold = 256;
        c.state = 3;
    }
    let p = PluginMessage { channel: "a:b".to_string(), data: vec![0x5a; 1024 - 5] };
    let mut body = IndexedVec::new();
    p.write(&mut body);
    let inner = inner_of(0x17, &body);
    assert_eq!(inner.len(), 1024);
    let frame = encode_frame(256, &inner, &mut compressor()).as_slice().to_vec();
    let (n, out) = run(&h, &mut s2c, &mut c2s, &frame);
    assert_eq!(n, frame.len());
    // outer length, then VarInt(1024), then a zlib stream of the inner bytes
    let mut ob = filled(&out);
    let (len, k) = ob.get_var_i32();
    assert_eq!(len as usize, out.len() - k as usize);
    assert_eq!(ob.get_var_i32(), (1024, 2));
    let rest = ob.get_rest();
    let mut inflated = vec![0u8; 1024];
    let got = Decompressor::new().zlib_decompress(&rest, &mut inflated).unwrap();
    assert_eq!(got, 1024);
    assert_eq!(inflated, inner);
}

#[test]
fn entity_position_is_rewritten() {
    let mut h = handler();
    h.register_transformer(PacketKind::EntityPosition, Transformer::SetEntityDelta { delta_x: 0, delta_y: 100 });
    let (mut c2s, mut s2c) = ConnectionContext::create_pair(0);
    c2s.state = 3;
    s2c.state = 3;
    let p = EntityPositionPacket { entity_id: Vari32 { val: 42 }, delta_x: 5, delta_y: -3, delta_z: 7, on_ground: true };
    let mut body = IndexedVec::new();
    p.write(&mut body);
    let frame = plain_frame(&inner_of(0x27, &body));
    let (_, out) = run(&h, &mut s2c, &mut c2s, &frame);
    assert_eq!(out[0] as usize, out.len() - 1);
    assert_eq!(out[1], 0x27);
    let mut b = filled(&out[2..]);
    let q = EntityPositionPacket::read(&mut b).unwrap();
    assert_eq!((q.entity_id.val, q.delta_x, q.delta_y, q.delta_z, q.on_ground), (42, 0, 100, 7, true));
}

#[test]
fn canceled_ping_emits_nothing() {
    let mut h = handler();
    h.register_transformer(PacketKind::Ping, Transformer::Cancel);
    let (mut c2s, mut s2c) = ConnectionContext::create_pair(0);
    c2s.state = 1;
    s2c.state = 1;
    let mut body = IndexedVec::new();
    Ping { payload: 99 }.write(&mut body);
    let ping = plain_frame(&inner_of(1, &body));
    let request = plain_frame(&[0]);
    let mut input = ping.clone();
    input.extend_from_slice(&request);
    input.extend_from_slice(&ping);
    let (n, out) = run(&h, &mut c2s, &mut s2c, &input);
    assert_eq!(n, input.len());
    assert_eq!(out, request);
}

#[test]
fn partial_frames_wait_in_read_buffer() {
    let h = handler();
    let (mut c2s, mut s2c) = ConnectionContext::create_pair(0);
    let frame = handshake_frame();
    let mut input = frame.clone();
    input.extend_from_slice(&frame[..5]);
    let (n, out) = run(&h, &mut c2s, &mut s2c, &input);
    assert_eq!(n, frame.len());
    assert_eq!(out, frame);
    assert_eq!(c2s.read_buffering.as_slice(), &frame[..5]);
}

#[test]
fn overlong_length_closes_connection() {
    let h = handler();
    let (mut c2s, mut s2c) = ConnectionContext::create_pair(0);
    let (n, out) = run(&h, &mut c2s, &mut s2c, &[0x80, 0x80, 0x80, 0x01]);
    assert_eq!(n, 0);
    assert!(out.is_empty());
    assert!(c2s.should_close);
}

#[test]
fn read_frame_and_small_frames() {
    let (mut c2s, _) = ConnectionContext::create_pair(0);
    let mut b = filled(&[0x05, 0xff, 0xff]);
    assert_eq!(read_frame(&mut b, 0, 3, &mut c2s), Some((5, 1)));
    assert_eq!(read_frame(&mut b, 1, 3, &mut c2s), None);
    assert!(!c2s.should_close);
    let b = filled(&[0x05, 0xff, 0x01]);
    assert!(validate_small_frame(&b, 1, 3));
    assert!(!validate_small_frame(&b, 0, 3));
    let b = filled(&[0xff, 0xff]);
    assert!(!validate_small_frame(&b, 0, 2));
}

#[test]
fn unregistered_keys_pass_through() {
    let h = HandlingContext::new();
    let (mut c2s, mut s2c) = ConnectionContext::create_pair(0);
    let r = h.handle_packet(&mut c2s, &mut s2c, UnparsedPacket::new(0, IndexedVec::new()), true);
    assert_eq!(r.0, TransformationResult::Unchanged);
    assert!(r.1.is_none());
    let r = h.handle_packet(&mut c2s, &mut s2c, UnparsedPacket::new(500, IndexedVec::new()), true);
    assert_eq!(r.0, TransformationResult::Unchanged);
}

#[test]
fn transformers_run_in_registration_order() {
    let mut h = HandlingContext::new();
    h.register_transformer(PacketKind::EntityPosition, Transformer::SetEntityDelta { delta_x: 1, delta_y: 1 });
    h.register_transformer(PacketKind::EntityPosition, Transformer::SetEntityDelta { delta_x: 2, delta_y: 3 });
    let (mut c2s, mut s2c) = ConnectionContext::create_pair(0);
    s2c.state = 3;
    let p = EntityPositionPacket { entity_id: Vari32 { val: 1 }, delta_x: 0, delta_y: 0, delta_z: 0, on_ground: false };
    let mut body = IndexedVec::new();
    p.write(&mut body);
    let r = h.handle_packet(&mut s2c, &mut c2s, UnparsedPacket::new(0x27, body), false);
    assert_eq!(r.0, TransformationResult::Modified);
    let out = r.1.unwrap();
    assert_eq!(out.as_slice(), &[0x27, 1, 0, 2, 0, 3, 0, 0, 0]);
}

#[test]
fn malformed_body_closes_connection() {
    let h = handler();
    let (mut c2s, mut s2c) = ConnectionContext::create_pair(0);
    let r = h.handle_packet(&mut c2s, &mut s2c, UnparsedPacket::new(0, filled(&[0x80])), true);
    assert_eq!(r.0, TransformationResult::Canceled);
    assert!(c2s.should_close);
    assert!(!s2c.should_close);
}

#[test]
fn frame_encoding_rules() {
    let data = [1u8, 2, 3];
    assert_eq!(encode_frame(0, &data, &mut compressor()).as_slice(), &[3, 1, 2, 3]);
    assert_eq!(encode_frame(-1, &data, &mut compressor()).as_slice(), &[3, 1, 2, 3]);
    assert_eq!(encode_frame(3, &data, &mut compressor()).as_slice(), &[4, 0, 1, 2, 3]);
    let f = encode_frame(2, &data, &mut compressor());
    let bytes = f.as_slice();
    assert_eq!(bytes[0] as usize, bytes.len() - 1);
    assert_eq!(bytes[1], 3);
    let mut out = vec![0u8; 3];
    assert_eq!(Decompressor::new().zlib_decompress(&bytes[2..], &mut out).unwrap(), 3);
    assert_eq!(out, data);
}

#[test]
fn forward_frame_keeps_unchanged_bytes() {
    let h = handler();
    let (mut c2s, mut s2c) = ConnectionContext::create_pair(0);
    c2s.state = 3;
    let frame = plain_frame(&[0x10, 9, 9]);
    let mut caching = IndexedVec::new();
    let r = forward_frame(&h, &mut c2s, &mut s2c, &frame, 1, &mut caching, &mut Decompressor::new(), &mut compressor());
    assert_eq!(r, TransformationResult::Unchanged);
    assert_eq!(caching.as_slice(), &frame[..]);
}

#[test]
fn send_packet_frames_under_threshold() {
    let (mut c2s, _) = ConnectionContext::create_pair(0);
    let p = Packet::SetCompression(SetCompression { threshold: Vari32 { val: 1 } });
    let f = c2s.send_packet(&p, &mut compressor()).unwrap();
    assert_eq!(f.as_slice(), &[2, 3, 1]);
    c2s.compression_threshold = 100;
    let f = c2s.send_packet(&p, &mut compressor()).unwrap();
    assert_eq!(f.as_slice(), &[3, 0, 3, 1]);
}

#[test]
fn corrupt_compressed_frame_closes_connection() {
    let h = handler();
    let (mut c2s, mut s2c) = ConnectionContext::create_pair(0);
    c2s.compression_threshold = 16;
    c2s.state = 3;
    // outer length 5, uncompressed size 100, then bytes that are no zlib stream
    let input = [5u8, 100, 1, 2, 3, 4];
    let (n, out) = run(&h, &mut c2s, &mut s2c, &input);
    assert_eq!(n, 6);
    assert!(out.is_empty());
    assert!(c2s.should_close);
}

#[test]
fn compressed_inner_size_must_match() {
    let mut c = compressor();
    let inner = vec![0x0b; 40];
    let packed = compress_packet(&inner, &mut c);
    let bytes = packed.as_slice().to_vec();
    assert_eq!(bytes[0], 40);
    let mut d = Decompressor::new();
    assert_eq!(decompress_packet(40, &bytes[1..], &mut d), Some(inner.clone()));
    assert_eq!(decompress_packet(39, &bytes[1..], &mut d), None);
    assert_eq!(decompress_packet(41, &bytes[1..], &mut d), None);
    assert_eq!(inner_bytes(16, &bytes, &mut d), Some(inner.clone()));
    assert_eq!(inner_bytes(0, &bytes, &mut d), Some(bytes.clone()));
    assert_eq!(inner_bytes(16, &[0, 7, 7], &mut d), Some(vec![7, 7]));
    assert_eq!(inner_bytes(16, &[0x80], &mut d), None);
}

#[test]
fn empty_input_forwards_nothing() {
    let h = handler();
    let (mut c2s, mut s2c) = ConnectionContext::create_pair(0);
    let (n, out) = run(&h, &mut c2s, &mut s2c, &[]);
    assert_eq!(n, 0);
    assert!(out.is_empty());
    assert!(!c2s.should_close);
    assert_eq!(c2s.read_buffering.readable_bytes(), 0);
}

#[test]
fn later_frames_follow_adopted_compression() {
    let h = handler();
    let (mut c2s, mut s2c) = ConnectionContext::create_pair(0);
    c2s.state = 2;
    s2c.state = 2;
    let mut body = IndexedVec::new();
    SetCompression { threshold: Vari32 { val: 4 } }.write(&mut body);
    let mut input = plain_frame(&inner_of(3, &body));
    // after the notice, the server frames with the compressed layout
    let next = encode_frame(4, &[0x10, 1, 2], &mut compressor()).as_slice().to_vec();
    assert_eq!(next, vec![4, 0, 0x10, 1, 2]);
    input.extend_from_slice(&next);
    let (n, out) = run(&h, &mut s2c, &mut c2s, &input);
    assert_eq!(n, input.len());
    assert_eq!(out, input);
    assert_eq!(c2s.compression_threshold, 4);
}

#[test]
fn entity_position_exact_bytes() {
    let mut h = handler();
    h.register_transformer(PacketKind::EntityPosition, Transformer::SetEntityDelta { delta_x: 0, delta_y: 100 });
    let (mut c2s, mut s2c) = ConnectionContext::create_pair(0);
    c2s.state = 3;
    s2c.state = 3;
    let input = [0x09, 0x27, 0x01, 0x00, 0x05, 0xFF, 0xFD, 0x00, 0x07, 0x01];
    let (n, out) = run(&h, &mut s2c, &mut c2s, &input);
    assert_eq!(n, 10);
    assert_eq!(out, vec![0x09, 0x27, 0x01, 0x00, 0x00, 0x00, 0x64, 0x00, 0x07, 0x01]);
    assert!(!s2c.should_close);
}

#[test]
fn set_compression_wire_bytes() {
    let h = handler();
    let (mut c2s, mut s2c) = ConnectionContext::create_pair(0);
    c2s.state = 2;
    s2c.state = 2;
    let mut input = vec![0x03, 0x03, 0x80, 0x02];
    input.extend_from_slice(&[3, 0, 0x30, 7]);
    let (n, out) = run(&h, &mut s2c, &mut c2s, &input);
    assert_eq!(n, 8);
    assert_eq!(out, input);
    assert_eq!(s2c.compression_threshold, 256);
    assert_eq!(c2s.compression_threshold, 256);
    assert!(s2c.read_buffering.as_slice().is_empty());
}

#[test]
fn send_packet_refuses_frames_past_the_cap() {
    let (mut c2s, _) = ConnectionContext::create_pair(0);
    let big = Packet::ServerPluginMessage(PluginMessage { channel: String::new(), data: vec![1; 0x20_0000] });
    assert!(c2s.send_packet(&big, &mut compressor()).is_none());
    assert!(c2s.should_close);
    let (mut c2s, _) = ConnectionContext::create_pair(0);
    c2s.compression_threshold = 64;
    // compresses to well under the cap
    let f = c2s.send_packet(&big, &mut Compressor::new(CompressionLvl::default())).unwrap();
    assert!(f.readable_bytes() < 0x20_0000);
    assert!(!c2s.should_close);
}

#[test]
fn read_frame_within_a_prefix() {
    let (mut c2s, _) = ConnectionContext::create_pair(0);
    let mut b = filled(&[0x80, 0x80, 0x01, 0x00]);
    assert_eq!(read_frame(&mut b, 0, 2, &mut c2s), None);
    assert!(!c2s.should_close);
    assert_eq!(b.get_writer_index(), 4);
    assert_eq!(read_frame(&mut b, 0, 3, &mut c2s), Some((16384, 3)));
}

