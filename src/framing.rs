//! Frames on the stream: the outer VarInt length, the optional zlib layer
//! with its threshold, and the per-read-event pipeline that re-emits frames
//! to the peer.
use vstd::prelude::*;
use vstd::slice::{slice_subrange, slice_to_vec};
use libdeflater::{Compressor, Decompressor};
use crate::buffers::{VarInts, VarIntsMut};
use crate::contexts::{buffer_read, ConnectionContext};
use crate::dispatch::{spec_kind_for, Packet};
use crate::handling::{
    lemma_cancel_anywhere, protocol_of, run_chain, HandlingContext, Transformer, UnparsedPacket,
};
use crate::indexed_vec::IndexedVec;
use crate::transformation::TransformationResult;
use crate::varint::{decode_var_i32, encode_var_i32, lemma_var_i32_round_trip};

verus! {

/// libdeflater's zlib compressor, carried through opaquely.
#[verifier::external_type_specification]
#[verifier::external_body]
pub struct ExCompressor(Compressor);

/// libdeflater's zlib decompressor, carried through opaquely.
#[verifier::external_type_specification]
#[verifier::external_body]
pub struct ExDecompressor(Decompressor);

/// The bytes that libdeflate's zlib decoder yields for the stream at the
/// front of `data`, or `None` when it rejects it.
pub uninterp spec fn zlib_inflated(data: Seq<u8>) -> Option<Seq<u8>>;

/// Relies on `Decompressor::zlib_decompress`: it succeeds exactly when
/// the stream is valid and inflates to at most `size` bytes, and then the
/// output holds the inflated stream.
#[verifier::external_body]
fn zlib_decompress(decompressor: &mut Decompressor, data: &[u8], size: usize) -> (r: Option<Vec<u8>>)
    ensures
        r matches Some(v) ==> zlib_inflated(data@) == Some(v@) && v@.len() <= size,
        zlib_inflated(data@) is Some && (zlib_inflated(data@)->0).len() <= size ==> r is Some && (
        r->0)@ == zlib_inflated(data@)->0,
{
    let mut out = vec![0u8; size];
    match decompressor.zlib_decompress(data, &mut out) {
        Ok(n) => {
            out.truncate(n);
            Some(out)
        },
        Err(_) => None,
    }
}

/// Relies on `Compressor::zlib_compress_bound` and `Compressor::zlib_compress`:
/// with an output buffer of the documented worst-case bound (six bytes of
/// zlib overhead, five per started 5000-byte block, and the input itself)
/// compression succeeds, and the output is a zlib stream that inflates
/// back to `data`.
#[verifier::external_body]
fn zlib_compress(compressor: &mut Compressor, data: &[u8]) -> (r: Option<Vec<u8>>)
    requires
        data@.len() <= 0x1000_0000,
    ensures
        r is Some,
        zlib_inflated((r->0)@) == Some(data@),
        (r->0)@.len() <= 2 * data@.len() + 11,
{
    let bound = compressor.zlib_compress_bound(data.len());
    let mut out = vec![0u8; bound];
    match compressor.zlib_compress(data, &mut out) {
        Ok(n) => {
            out.truncate(n);
            Some(out)
        },
        Err(_) => None,
    }
}

/// The outer length and its size, for a frame at the front of `s`; the
/// length VarInt may take at most three bytes.
pub open spec fn frame_header(s: Seq<u8>) -> Option<(i32, nat)> {
    decode_var_i32(s, 3)
}

/// `s` starts with a whole frame: its body starts at `k` and it ends at `n`.
pub open spec fn whole_frame(s: Seq<u8>) -> Option<(nat, nat)> {
    match frame_header(s) {
        Some((len, k)) => if 0 <= len && k + len <= s.len() {
            Some((k, k + len as nat))
        } else {
            None
        },
        None => None,
    }
}

/// `s` is a run of whole frames.
pub open spec fn whole_frames(s: Seq<u8>) -> bool
    decreases s.len(),
{
    if s.len() == 0 {
        true
    } else {
        match whole_frame(s) {
            Some((k, n)) => n > 0 && whole_frames(s.skip(n as int)),
            None => false,
        }
    }
}

/// The inner bytes (`VarInt(id) ++ payload`) of a frame body under
/// `threshold`: the body itself without compression; with it, after the
/// uncompressed-size VarInt, the rest verbatim when that size is `0`, or
/// the rest inflated to exactly that size.
pub open spec fn spec_inner(threshold: i32, body: Seq<u8>) -> Option<Seq<u8>> {
    if threshold <= 0 {
        Some(body)
    } else {
        match decode_var_i32(body, 5) {
            None => None,
            Some((ulen, k)) => if ulen == 0 {
                Some(body.skip(k as int))
            } else if ulen < 0 {
                None
            } else {
                match zlib_inflated(body.skip(k as int)) {
                    Some(d) => if d.len() == ulen {
                        Some(d)
                    } else {
                        None
                    },
                    None => None,
                }
            },
        }
    }
}

/// `out` is a frame carrying the inner bytes `data` under `threshold`:
/// plain without compression; with it, an uncompressed-size `0` sentinel
/// and the bytes verbatim when they are at most `threshold` long, and
/// otherwise their true size and a zlib stream that inflates to them.
/// In every case the outer length counts the rest of the frame.
pub open spec fn frame_encodes(threshold: i32, data: Seq<u8>, out: Seq<u8>) -> bool {
    if threshold <= 0 {
        out == encode_var_i32(data.len() as i32) + data
    } else if data.len() <= threshold {
        out == encode_var_i32((data.len() + 1) as i32) + seq![0u8] + data
    } else {
        exists|c: Seq<u8>|
            #![trigger zlib_inflated(c)]
            zlib_inflated(c) == Some(data) && {
                let rest = encode_var_i32(data.len() as i32) + c;
                out == encode_var_i32(rest.len() as i32) + rest
            }
    }
}

/// The outer length of an emitted frame equals the number of bytes after it.
pub proof fn lemma_outer_length(threshold: i32, data: Seq<u8>, out: Seq<u8>)
    requires
        frame_encodes(threshold, data, out),
        out.len() <= i32::MAX,
    ensures
        decode_var_i32(out, 5) matches Some((len, k)) && len == out.len() - k,
{
    if threshold <= 0 {
        lemma_var_i32_round_trip(data.len() as i32, data);
    } else if data.len() <= threshold {
        assert(out == encode_var_i32((data.len() + 1) as i32) + (seq![0u8] + data));
        lemma_var_i32_round_trip((data.len() + 1) as i32, seq![0u8] + data);
    } else {
        let c = choose|c: Seq<u8>|
            #![trigger zlib_inflated(c)]
            zlib_inflated(c) == Some(data) && {
                let rest = encode_var_i32(data.len() as i32) + c;
                out == encode_var_i32(rest.len() as i32) + rest
            };
        let rest = encode_var_i32(data.len() as i32) + c;
        lemma_var_i32_round_trip(rest.len() as i32, rest);
    }
}

/// The inner bytes a frame carries, read back under the threshold it was
/// written with, whatever that threshold.
pub proof fn lemma_frame_inner(threshold: i32, data: Seq<u8>, out: Seq<u8>)
    requires
        frame_encodes(threshold, data, out),
        out.len() <= i32::MAX,
        data.len() <= i32::MAX,
    ensures
        ({
            let (len, k) = decode_var_i32(out, 5)->0;
            spec_inner(threshold, out.skip(k as int)) == Some(data)
        }),
{
    lemma_outer_length(threshold, data, out);
    if threshold <= 0 {
        lemma_var_i32_round_trip(data.len() as i32, data);
        assert(out.skip(encode_var_i32(data.len() as i32).len() as int) =~= data);
    } else {
        lemma_threshold_rule(threshold, data, out);
    }
}

/// Two framings of the same inner bytes under any two thresholds read back
/// as the same inner bytes, so the same packet stream is decoded.
pub proof fn lemma_threshold_independent(t1: i32, t2: i32, data: Seq<u8>, out1: Seq<u8>, out2: Seq<u8>)
    requires
        frame_encodes(t1, data, out1),
        frame_encodes(t2, data, out2),
        out1.len() <= i32::MAX,
        out2.len() <= i32::MAX,
        data.len() <= i32::MAX,
    ensures
        ({
            let k1 = (decode_var_i32(out1, 5)->0).1;
            let k2 = (decode_var_i32(out2, 5)->0).1;
            spec_inner(t1, out1.skip(k1 as int)) == spec_inner(t2, out2.skip(k2 as int))
        }),
{
    lemma_frame_inner(t1, data, out1);
    lemma_frame_inner(t2, data, out2);
}

/// With compression on, an emitted frame's size field is `0` and the inner
/// bytes follow verbatim when they are at most `threshold` long; otherwise
/// it is their true size and the rest inflates to exactly them.
pub proof fn lemma_threshold_rule(threshold: i32, data: Seq<u8>, out: Seq<u8>)
    requires
        threshold > 0,
        frame_encodes(threshold, data, out),
        out.len() <= i32::MAX,
        data.len() <= i32::MAX,
    ensures
        ({
            let (len, k) = decode_var_i32(out, 5)->0;
            let body = out.skip(k as int);
            &&& data.len() <= threshold ==> spec_inner(threshold, body) == Some(data) && body
                == seq![0u8] + data
            &&& data.len() > threshold ==> spec_inner(threshold, body) == Some(data)
                && decode_var_i32(body, 5) == Some((data.len() as i32, encode_var_i32(data.len() as i32).len()))
        }),
{
    lemma_outer_length(threshold, data, out);
    if data.len() <= threshold {
        assert(out == encode_var_i32((data.len() + 1) as i32) + (seq![0u8] + data));
        lemma_var_i32_round_trip((data.len() + 1) as i32, seq![0u8] + data);
        let body = seq![0u8] + data;
        lemma_var_i32_round_trip(0, data);
        assert(encode_var_i32(0) == seq![0u8]);
        assert(out.skip(encode_var_i32((data.len() + 1) as i32).len() as int) =~= body);
        assert(body.skip(1) =~= data);
    } else {
        let c = choose|c: Seq<u8>|
            #![trigger zlib_inflated(c)]
            zlib_inflated(c) == Some(data) && {
                let rest = encode_var_i32(data.len() as i32) + c;
                out == encode_var_i32(rest.len() as i32) + rest
            };
        let rest = encode_var_i32(data.len() as i32) + c;
        lemma_var_i32_round_trip(rest.len() as i32, rest);
        lemma_var_i32_round_trip(data.len() as i32, c);
        assert(out.skip(encode_var_i32(rest.len() as i32).len() as int) =~= rest);
        assert(rest.skip(encode_var_i32(data.len() as i32).len() as int) =~= c);
    }
}

/// Inflates `data` to exactly `real_length` bytes; `None` when the stream
/// is invalid or inflates to another size.
pub fn decompress_packet(real_length: usize, data: &[u8], decompressor: &mut Decompressor) -> (r: Option<Vec<u8>>)
    ensures
        r matches Some(v) ==> zlib_inflated(data@) == Some(v@) && v@.len() == real_length,
        zlib_inflated(data@) is None ==> r is None,
        zlib_inflated(data@) matches Some(d) && d.len() != real_length ==> r is None,
        zlib_inflated(data@) is Some && (zlib_inflated(data@)->0).len() == real_length ==> r is Some
            && (r->0)@ == zlib_inflated(data@)->0,
{
    match zlib_decompress(decompressor, data, real_length) {
        Some(v) => if v.len() == real_length {
            Some(v)
        } else {
            None
        },
        None => None,
    }
}

/// `VarInt(data.len()) ++ zlib(data)`.
pub fn compress_packet(data: &[u8], compressor: &mut Compressor) -> (r: IndexedVec)
    requires
        data@.len() <= 0x1000_0000,
    ensures
        r.wf(),
        r.readable().len() <= 2 * data@.len() + 16,
        exists|c: Seq<u8>|
            #![trigger zlib_inflated(c)]
            zlib_inflated(c) == Some(data@) && r.readable() == encode_var_i32(data@.len() as i32) + c,
{
    let c = match zlib_compress(compressor, data) {
        Some(c) => c,
        None => Vec::new(),
    };
    let mut b = IndexedVec::new();
    b.put_var_i32(data.len() as i32);
    b.put_slice(c.as_slice());
    proof {
        lemma_var_i32_round_trip(data@.len() as i32, Seq::empty());
        crate::varint::lemma_varint_len(crate::varint::unsigned32(data@.len() as int));
    }
    assert(zlib_inflated(c@) == Some(data@));
    b
}

/// The frame carrying the inner bytes `data` under `threshold`.
pub fn encode_frame(threshold: i32, data: &[u8], compressor: &mut Compressor) -> (r: IndexedVec)
    requires
        data@.len() <= 0x1000_0000,
    ensures
        r.wf(),
        frame_encodes(threshold, data@, r.readable()),
        r.readable().len() <= 0x4000_0000,
{
    proof {
        crate::varint::lemma_varint_len(crate::varint::unsigned32(data@.len() as int));
        crate::varint::lemma_varint_len(crate::varint::unsigned32((data@.len() + 1) as int));
    }
    if threshold > 0 && data.len() > threshold as usize {
        let inner = compress_packet(data, compressor);
        let mut frame = IndexedVec::new();
        let n = inner.readable_bytes();
        proof {
            crate::varint::lemma_varint_len(crate::varint::unsigned32(n as int));
        }
        frame.put_var_i32(n as i32);
        frame.put_slice(inner.as_slice());
        frame
    } else if threshold > 0 {
        let mut frame = IndexedVec::new();
        frame.put_var_i32((data.len() + 1) as i32);
        frame.put_u8(0);
        frame.put_slice(data);
        assert(frame.readable() =~= encode_var_i32((data@.len() + 1) as i32) + seq![0u8] + data@);
        frame
    } else {
        let mut frame = IndexedVec::new();
        frame.put_var_i32(data.len() as i32);
        frame.put_slice(data);
        frame
    }
}

/// The inner bytes of a frame body under `threshold` (see [`spec_inner`]).
pub fn inner_bytes(threshold: i32, body: &[u8], decompressor: &mut Decompressor) -> (r: Option<Vec<u8>>)
    ensures
        r matches Some(v) ==> spec_inner(threshold, body@) == Some(v@),
        r is Some <==> spec_inner(threshold, body@) is Some,
{
    if threshold <= 0 {
        return Some(slice_to_vec(body));
    }
    let mut b = IndexedVec::from_vec(slice_to_vec(body));
    b.set_writer_index(body.len());
    assert(b.readable() =~= body@);
    match b.peek_var_i32(5) {
        Some((ulen, k)) => {
            let rest = slice_subrange(body, k, body.len());
            assert(rest@ =~= body@.skip(k as int));
            if ulen == 0 {
                Some(slice_to_vec(rest))
            } else if ulen < 0 {
                None
            } else {
                decompress_packet(ulen as usize, rest, decompressor)
            }
        },
        None => None,
    }
}

/// Reads the outer length of the frame at `pointer` among the buffer's
/// first `len` written bytes: its value and size. A length VarInt that runs past three
/// bytes marks the connection for closing; one cut short by the end of
/// the data is simply not there yet.
pub fn read_frame(buf: &mut IndexedVec, pointer: usize, len: usize, connection_ctx: &mut ConnectionContext) -> (r: Option<(usize, usize)>)
    requires
        old(buf).wf(),
        len <= old(buf).writer(),
        pointer <= len,
    ensures
        final(buf).wf(),
        final(buf).data() == old(buf).data(),
        final(buf).writer() == old(buf).writer(),
        final(buf).reader() == pointer,
        ({
            let s = old(buf).data().subrange(pointer as int, len as int);
            &&& match frame_header(s) {
                Some((v, k)) => r == Some((v as usize, k as usize)) && 0 <= v < 0x20_0000 && k <= 3,
                None => r is None,
            }
            &&& final(connection_ctx).should_close == (old(connection_ctx).should_close || (
            frame_header(s) is None && s.len() >= 3))
        }),
        final(connection_ctx).token_self == old(connection_ctx).token_self,
        final(connection_ctx).token_other == old(connection_ctx).token_other,
        final(connection_ctx).state == old(connection_ctx).state,
        final(connection_ctx).compression_threshold == old(connection_ctx).compression_threshold,
        final(connection_ctx).read_buffering == old(connection_ctx).read_buffering,
        final(connection_ctx).write_buffering == old(connection_ctx).write_buffering,
        final(connection_ctx).is_writable == old(connection_ctx).is_writable,
        final(connection_ctx).inbound == old(connection_ctx).inbound,
{
    let w = buf.get_writer_index();
    buf.reset_reader();
    buf.set_writer_index(len);
    buf.set_reader_index(pointer);
    let ghost s = buf.readable();
    assert(s =~= old(buf).data().subrange(pointer as int, len as int));
    let r = match buf.peek_var_i32(3) {
        Some((v, k)) => {
            proof {
                lemma_small_varint(s, k as nat);
            }
            Some((v as usize, k))
        },
        None => {
            if len - pointer >= 3 {
                connection_ctx.should_close = true;
            }
            None
        },
    };
    buf.set_writer_index(w);
    r
}

/// A VarInt of at most three bytes is a value below `2^21`.
proof fn lemma_small_varint(s: Seq<u8>, k: nat)
    requires
        decode_var_i32(s, 3) matches Some((_, kk)) && kk == k,
    ensures
        decode_var_i32(s, 3) matches Some((v, _)) && 0 <= v < 0x20_0000,
        k <= 3,
{
    let t = s.take(k as int);
    crate::buffers::lemma_varint_sum_bound(t);
    crate::buffers::lemma_pow128_le(0);
    assert(crate::varint::pow128(0) == 1);
    assert(crate::varint::pow128(1) == 0x80);
    assert(crate::varint::pow128(2) == 0x4000);
    assert(crate::varint::pow128(3) == 0x20_0000);
}

/// Fewer than three bytes remain from `pointer` and one of them ends a
/// VarInt, so the frame length there can be read.
pub fn validate_small_frame(buf: &IndexedVec, pointer: usize, len: usize) -> (r: bool)
    requires
        len <= buf.data().len(),
    ensures
        r == (len > pointer && len - pointer < 3 && exists|i: int|
            pointer <= i < len && buf.data()[i] < 128),
{
    if len > pointer && len - pointer < 3 {
        let mut index = pointer;
        while index < len
            invariant
                pointer <= index <= len,
                len > pointer && len - pointer < 3,
                len <= buf.data().len(),
                forall|i: int| pointer <= i < index ==> buf.data()[i] >= 128,
            decreases len - index,
        {
            if buf.byte_at(index) < 128 {
                assert(pointer <= index < len && buf.data()[index as int] < 128);
                return true;
            }
            index = index + 1;
        }
    }
    false
}

/// How forwarding ended for a frame of an active key whose payload decoded
/// as `p`: the protocols follow the chain, an `Unchanged` or `Canceled`
/// chain gives that result, and a `Modified` one either appends the frame
/// that carries `VarInt(id) ++ body` of the packet after the chain under
/// `threshold` as `emitted`, or, when that cannot be framed, ends `Canceled` with the
/// connection marked for closing.
pub open spec fn forwarded_as(
    handler: HandlingContext,
    threshold: i32,
    id: i32,
    p: Packet,
    c0: ConnectionContext,
    o0: ConnectionContext,
    c1: ConnectionContext,
    o1: ConnectionContext,
    r: TransformationResult,
    emitted: Seq<u8>,
) -> bool {
    let (res, next_p, a2, b2) = run_chain(
        handler.chain(c0.inbound, c0.state as int, id as int),
        TransformationResult::Unchanged,
        p,
        protocol_of(c0),
        protocol_of(o0),
    );
    &&& protocol_of(c1) == a2
    &&& protocol_of(o1) == b2
    &&& res == TransformationResult::Unchanged ==> r == TransformationResult::Unchanged
    &&& res == TransformationResult::Canceled ==> r == TransformationResult::Canceled
    &&& res == TransformationResult::Modified && reencodable(id, next_p) ==> r
        == TransformationResult::Modified && frame_encodes(
        threshold,
        encode_var_i32(id) + next_p.wire(),
        emitted,
    )
    &&& res == TransformationResult::Modified && !reencodable(id, next_p) ==> r
        == TransformationResult::Canceled && c1.should_close
}

/// The packet can be re-encoded: its length prefixes fit a VarInt and its
/// inner bytes stay within what a frame is built from.
pub open spec fn reencodable(id: i32, p: Packet) -> bool {
    p.wire_ok() && (encode_var_i32(id) + p.wire()).len() <= 0x1000_0000
}

/// What forwarding one whole frame (body from `k`) comes to, as the bytes
/// `out` it emits and the halves before (`c0`, `o0`) and after (`c1`, `o1`):
/// the frame verbatim when `Unchanged`, nothing when `Canceled`, a frame
/// encoding when `Modified`; undecodable inner bytes or id cancel and mark
/// the connection for closing; an inactive key leaves all as it was; an
/// active one follows its chain (see [`forwarded_as`]).
#[verifier::opaque]
pub open spec fn forward_rel(
    handler: HandlingContext,
    frame: Seq<u8>,
    k: nat,
    c0: ConnectionContext,
    o0: ConnectionContext,
    c1: ConnectionContext,
    o1: ConnectionContext,
    r: TransformationResult,
    out: Seq<u8>,
) -> bool {
    &&& r == TransformationResult::Unchanged ==> out == frame
    &&& r == TransformationResult::Canceled ==> out.len() == 0
    &&& r == TransformationResult::Modified ==> exists|data: Seq<u8>|
        #![trigger frame_encodes(c0.compression_threshold, data, out)]
        frame_encodes(c0.compression_threshold, data, out)
    &&& ({
            let body = frame.skip(k as int);
            let threshold = c0.compression_threshold;
            &&& spec_inner(threshold, body) is None ==> r == TransformationResult::Canceled
                && c1.should_close
            &&& spec_inner(threshold, body) matches Some(inner) ==> (decode_var_i32(inner, 5) is None
                ==> r == TransformationResult::Canceled && c1.should_close)
            &&& spec_inner(threshold, body) matches Some(inner) ==> (decode_var_i32(inner, 5) matches Some((id, _))
                ==> (!handler.active(c0.inbound, c0.state, id)
                ==> r == TransformationResult::Unchanged && c1 == c0
                    && o1 == o0))
            &&& spec_inner(threshold, body) matches Some(inner) ==> (decode_var_i32(inner, 5) matches Some((id, kid))
                ==> (handler.active(c0.inbound, c0.state, id) ==> {
                    let kind = spec_kind_for(c0.inbound, c0.state, id)->0;
                    let payload = inner.skip(kid as int);
                    ||| !kind.parses(payload) && r == TransformationResult::Canceled
                        && c1.should_close
                    ||| kind.parses(payload) && exists|p: Packet|
                        #![trigger p.parsed_from(payload)]
                        p.kind() == kind && p.parsed_from(payload) && forwarded_as(
                            handler,
                            threshold,
                            id,
                            p,
                            c0,
                            o0,
                            c1,
                            o1,
                            r,
                            out,
                        )
                }))
        })
}

/// Forwards one whole frame: decodes its inner bytes and id, runs the
/// registry on it, and appends to `caching_buf` the frame verbatim when
/// the result is `Unchanged`, nothing when it is `Canceled`, and the
/// re-encoded frame (under the threshold the frame arrived with) when it
/// is `Modified`. A frame whose inner bytes or id cannot be decoded marks
/// the connection for closing and is dropped.
#[verifier::rlimit(100)]
pub fn forward_frame(
    handler: &HandlingContext,
    connection_ctx: &mut ConnectionContext,
    other_ctx: &mut ConnectionContext,
    frame: &[u8],
    k: usize,
    caching_buf: &mut IndexedVec,
    decompressor: &mut Decompressor,
    compressor: &mut Compressor,
) -> (r: TransformationResult)
    requires
        handler.wf(),
        old(caching_buf).wf(),
        whole_frame(frame@) == Some((k as nat, frame@.len())),
        frame@.len() <= 0x40_0000,
    ensures
        final(caching_buf).wf(),
        final(connection_ctx).token_self == old(connection_ctx).token_self,
        final(connection_ctx).token_other == old(connection_ctx).token_other,
        final(connection_ctx).read_buffering == old(connection_ctx).read_buffering,
        final(connection_ctx).write_buffering == old(connection_ctx).write_buffering,
        final(connection_ctx).inbound == old(connection_ctx).inbound,
        final(other_ctx).token_self == old(other_ctx).token_self,
        final(other_ctx).token_other == old(other_ctx).token_other,
        final(other_ctx).read_buffering == old(other_ctx).read_buffering,
        final(other_ctx).write_buffering == old(other_ctx).write_buffering,
        final(other_ctx).should_close == old(other_ctx).should_close,
        old(connection_ctx).should_close ==> final(connection_ctx).should_close,
        old(caching_buf).readable().is_prefix_of(final(caching_buf).readable()),
        forward_rel(
            *handler,
            frame@,
            k as nat,
            *old(connection_ctx),
            *old(other_ctx),
            *final(connection_ctx),
            *final(other_ctx),
            r,
            final(caching_buf).readable().skip(old(caching_buf).readable().len() as int),
        ),
{
    reveal(forward_rel);
    let threshold = connection_ctx.compression_threshold;
    let body = slice_subrange(frame, k, frame.len());
    assert(body@ =~= frame@.skip(k as int));
    assert(caching_buf.readable().skip(caching_buf.readable().len() as int) =~= Seq::<u8>::empty());
    let inner = match inner_bytes(threshold, body, decompressor) {
        Some(v) => v,
        None => {
            connection_ctx.should_close = true;
            return TransformationResult::Canceled;
        },
    };
    let mut buf = IndexedVec::from_vec(inner);
    let n = buf.len();
    buf.set_writer_index(n);
    assert(buf.readable() =~= inner@);
    let (id, _) = match buf.get_var_i32_limit(5) {
        Some(v) => v,
        None => {
            connection_ctx.should_close = true;
            return TransformationResult::Canceled;
        },
    };
    let inbound = connection_ctx.inbound;
    let ghost c0 = *connection_ctx;
    let ghost o0 = *other_ctx;
    let ghost before = caching_buf.readable();
    let ghost payload = buf.readable();
    assert(payload =~= inner@.skip((decode_var_i32(inner@, 5)->0).1 as int));
    let result = handler.handle_packet(
        connection_ctx,
        other_ctx,
        UnparsedPacket::new(id, buf),
        inbound,
    );
    let ghost result_c1 = *connection_ctx;
    let ghost result_o1 = *other_ctx;
    let r = match result.0 {
        TransformationResult::Unchanged => {
            caching_buf.put_slice(frame);
            TransformationResult::Unchanged
        },
        TransformationResult::Canceled => TransformationResult::Canceled,
        TransformationResult::Modified => {
            match result.1 {
                Some(data) => {
                    if data.readable_bytes() > 0x1000_0000 {
                        connection_ctx.should_close = true;
                        TransformationResult::Canceled
                    } else {
                        let out = encode_frame(threshold, data.as_slice(), compressor);
                        caching_buf.put_slice(out.as_slice());
                        assert(frame_encodes(threshold, data.readable(), out.readable()));
                        assert(caching_buf.readable().skip(before.len() as int) =~= out.readable());
                        TransformationResult::Modified
                    }
                },
                None => {
                    connection_ctx.should_close = true;
                    TransformationResult::Canceled
                },
            }
        },
    };
    proof {
        let out = caching_buf.readable().skip(before.len() as int);
        if r == TransformationResult::Unchanged {
            assert(out =~= frame@);
        }
        if r == TransformationResult::Canceled {
            assert(out =~= Seq::<u8>::empty());
        }
        let state = c0.state;
        if handler.active(inbound, state, id) {
            let kind = spec_kind_for(inbound, state, id)->0;
            if kind.parses(payload) {
                let p = choose|p: Packet|
                    #![trigger p.parsed_from(payload)]
                    p.kind() == kind && p.parsed_from(payload) && handler.handled_as(
                        inbound,
                        state,
                        id,
                        p,
                        c0,
                        o0,
                        result_c1,
                        result_o1,
                        result,
                    );
                assert(forwarded_as(
                    *handler,
                    threshold,
                    id,
                    p,
                    c0,
                    o0,
                    *connection_ctx,
                    *other_ctx,
                    r,
                    caching_buf.readable().skip(before.len() as int),
                ));
            }
        }
    }
    r
}

/// A frame whose key's chain holds a `Cancel` anywhere emits nothing.
pub proof fn lemma_cancel_emits_nothing(
    handler: HandlingContext,
    frame: Seq<u8>,
    k: nat,
    c0: ConnectionContext,
    o0: ConnectionContext,
    c1: ConnectionContext,
    o1: ConnectionContext,
    r: TransformationResult,
    out: Seq<u8>,
    i: int,
)
    requires
        forward_rel(handler, frame, k, c0, o0, c1, o1, r, out),
        spec_inner(c0.compression_threshold, frame.skip(k as int)) matches Some(inner) && (
        decode_var_i32(inner, 5) matches Some((id, _)) && handler.active(c0.inbound, c0.state, id)
            && 0 <= i < handler.chain(c0.inbound, c0.state as int, id as int).len() && handler.chain(
            c0.inbound,
            c0.state as int,
            id as int,
        )[i] == Transformer::Cancel),
    ensures
        r == TransformationResult::Canceled,
        out.len() == 0,
{
    reveal(forward_rel);
    let inner = spec_inner(c0.compression_threshold, frame.skip(k as int))->0;
    let (id, kid) = decode_var_i32(inner, 5)->0;
    let kind = spec_kind_for(c0.inbound, c0.state, id)->0;
    let payload = inner.skip(kid as int);
    if kind.parses(payload) {
        let p = choose|p: Packet|
            #![trigger p.parsed_from(payload)]
            p.kind() == kind && p.parsed_from(payload) && forwarded_as(
                handler,
                c0.compression_threshold,
                id,
                p,
                c0,
                o0,
                c1,
                o1,
                r,
                out,
            );
        lemma_cancel_anywhere(
            handler.chain(c0.inbound, c0.state as int, id as int),
            TransformationResult::Unchanged,
            p,
            protocol_of(c0),
            protocol_of(o0),
            i,
        );
    }
}

/// `s` starts with a length VarInt that runs past its three bytes.
pub open spec fn overlong_header(s: Seq<u8>) -> bool {
    frame_header(s) is None && s.len() >= 3
}

/// A run of frames forwarded one after the other: frame `i` (body from
/// `ks[i]`) takes the halves from `cs[i]`, `os[i]` to `cs[i + 1]`,
/// `os[i + 1]`, ends `rs[i]` and emits `outs[i]`.
#[verifier::opaque]
pub open spec fn forwarded_run(
    handler: HandlingContext,
    frames: Seq<Seq<u8>>,
    ks: Seq<nat>,
    cs: Seq<ConnectionContext>,
    os: Seq<ConnectionContext>,
    rs: Seq<TransformationResult>,
    outs: Seq<Seq<u8>>,
) -> bool {
    &&& ks.len() == frames.len()
    &&& rs.len() == frames.len()
    &&& outs.len() == frames.len()
    &&& cs.len() == frames.len() + 1
    &&& os.len() == frames.len() + 1
    &&& forall|i: int|
        0 <= i < frames.len() ==> whole_frame(#[trigger] frames[i]) == Some((ks[i], frames[i].len()))
            && forward_rel(handler, frames[i], ks[i], cs[i], os[i], cs[i + 1], os[i + 1], rs[i], outs[i])
}

/// Forwards every whole frame of the readable bytes of `read_buf` (which
/// start at its beginning) into `caching_buf`, in order, and keeps the
/// unparsed tail in the connection's read buffer for the next event.
/// Returns how many bytes were taken as whole frames. Processing stops at
/// the first frame that marks the connection for closing.
pub fn process_frames(
    handler: &HandlingContext,
    connection_ctx: &mut ConnectionContext,
    other_ctx: &mut ConnectionContext,
    read_buf: &mut IndexedVec,
    caching_buf: &mut IndexedVec,
    decompressor: &mut Decompressor,
    compressor: &mut Compressor,
) -> (r: usize)
    requires
        handler.wf(),
        old(read_buf).wf(),
        old(read_buf).reader() == 0,
        old(caching_buf).wf(),
        old(connection_ctx).wf(),
        old(read_buf).writer() < 0x4000_0000,
    ensures
        final(caching_buf).wf(),
        final(connection_ctx).wf(),
        final(read_buf).wf(),
        old(caching_buf).readable().is_prefix_of(final(caching_buf).readable()),
        exists|
            frames: Seq<Seq<u8>>,
            ks: Seq<nat>,
            cs: Seq<ConnectionContext>,
            os: Seq<ConnectionContext>,
            rs: Seq<TransformationResult>,
            outs: Seq<Seq<u8>>,
        |
            #![trigger forwarded_run(*handler, frames, ks, cs, os, rs, outs)]
            forwarded_run(*handler, frames, ks, cs, os, rs, outs) && frames.flatten() == old(
                read_buf,
            ).readable().take(r as int) && outs.flatten() == final(caching_buf).readable().skip(
                old(caching_buf).readable().len() as int,
            ) && cs[0] == *old(connection_ctx) && os[0] == *old(other_ctx) && protocol_of(
                cs.last(),
            ) == protocol_of(*final(connection_ctx)) && final(connection_ctx).should_close == (
            cs.last().should_close || overlong_header(old(read_buf).readable().skip(r as int)))
                && os.last() == *final(other_ctx),
        r <= old(read_buf).readable().len(),
        whole_frames(old(read_buf).readable().take(r as int)),
        !final(connection_ctx).should_close ==> whole_frame(old(read_buf).readable().skip(r as int)) is None
            && final(connection_ctx).read_buffering.readable() == old(connection_ctx).read_buffering.readable()
            + old(read_buf).readable().skip(r as int),
        final(connection_ctx).token_self == old(connection_ctx).token_self,
        final(connection_ctx).token_other == old(connection_ctx).token_other,
        final(connection_ctx).inbound == old(connection_ctx).inbound,
        final(other_ctx).token_self == old(other_ctx).token_self,
        final(other_ctx).token_other == old(other_ctx).token_other,
        final(other_ctx).read_buffering == old(other_ctx).read_buffering,
        final(other_ctx).write_buffering == old(other_ctx).write_buffering,
        final(other_ctx).should_close == old(other_ctx).should_close,
{
    let ghost input = read_buf.readable();
    let ghost data = read_buf.data();
    let len = read_buf.readable_bytes();
    assert(input =~= data.subrange(0, len as int));
    let mut pointer: usize = 0;
    assert(input.take(0) =~= Seq::<u8>::empty());
    let ghost c_init = *connection_ctx;
    let ghost o_init = *other_ctx;
    let ghost mut frames: Seq<Seq<u8>> = Seq::empty();
    let ghost mut ks: Seq<nat> = Seq::empty();
    let ghost mut cs: Seq<ConnectionContext> = seq![c_init];
    let ghost mut os: Seq<ConnectionContext> = seq![o_init];
    let ghost mut rs: Seq<TransformationResult> = Seq::empty();
    let ghost mut outs: Seq<Seq<u8>> = Seq::empty();
    let ghost start = caching_buf.readable().len();
    assert(frames.flatten() =~= Seq::<u8>::empty());
    assert(outs.flatten() =~= Seq::<u8>::empty());
    assert(caching_buf.readable().skip(start as int) =~= Seq::<u8>::empty());
    assert(forwarded_run(*handler, frames, ks, cs, os, rs, outs)) by {
        reveal(forwarded_run);
    }
    if connection_ctx.should_close {
        return 0;
    }
    while pointer < len
        invariant
            input == old(read_buf).readable(),
            read_buf.wf(),
            read_buf.data() == data,
            read_buf.writer() == len,
            len == input.len(),
            len < 0x4000_0000,
            input == data.subrange(0, len as int),
            pointer <= len,
            whole_frames(input.take(pointer as int)),
            connection_ctx.wf(),
            old(connection_ctx).wf(),
            caching_buf.wf(),
            old(caching_buf).readable().is_prefix_of(caching_buf.readable()),
            start == old(caching_buf).readable().len(),
            forwarded_run(*handler, frames, ks, cs, os, rs, outs),
            frames.flatten() == input.take(pointer as int),
            outs.flatten() == caching_buf.readable().skip(start as int),
            cs.len() >= 1,
            os.len() >= 1,
            cs[0] == *old(connection_ctx),
            os[0] == *old(other_ctx),
            cs.last() == *connection_ctx,
            os.last() == *other_ctx,
            handler.wf(),
            connection_ctx.read_buffering == old(connection_ctx).read_buffering,
            connection_ctx.write_buffering == old(connection_ctx).write_buffering,
            connection_ctx.token_self == old(connection_ctx).token_self,
            connection_ctx.token_other == old(connection_ctx).token_other,
            connection_ctx.inbound == old(connection_ctx).inbound,
            !connection_ctx.should_close,
            other_ctx.token_self == old(other_ctx).token_self,
            other_ctx.token_other == old(other_ctx).token_other,
            other_ctx.read_buffering == old(other_ctx).read_buffering,
            other_ctx.write_buffering == old(other_ctx).write_buffering,
            other_ctx.should_close == old(other_ctx).should_close,
        ensures
            pointer <= len,
            whole_frames(input.take(pointer as int)),
            forwarded_run(*handler, frames, ks, cs, os, rs, outs),
            frames.flatten() == input.take(pointer as int),
            outs.flatten() == caching_buf.readable().skip(start as int),
            cs.len() >= 1,
            os.len() >= 1,
            cs[0] == *old(connection_ctx),
            os[0] == *old(other_ctx),
            cs.last() == *connection_ctx,
            os.last() == *other_ctx,
            old(caching_buf).readable().is_prefix_of(caching_buf.readable()),
            !connection_ctx.should_close,
            whole_frame(input.skip(pointer as int)) is None,
            !overlong_header(input.skip(pointer as int)),
        decreases len - pointer,
    {
        let ghost rest = input.skip(pointer as int);
        assert(data.subrange(pointer as int, len as int) =~= rest);
        let (packet_len, header) = match read_frame(read_buf, pointer, len, connection_ctx) {
            Some(h) => h,
            None => {
                if connection_ctx.should_close {
                    return pointer;
                }
                break;
            },
        };
        let offset = pointer + header;
        let next = offset + packet_len;
        if next > len {
            break;
        }
        let all = read_buf.as_slice();
        let frame = slice_subrange(all, 0, next - pointer);
        assert(frame@ =~= rest.take((next - pointer) as int));
        proof {
            assert(frame_header(frame@) == frame_header(rest)) by {
                assert(rest.take((next - pointer) as int) =~= frame@);
                lemma_header_prefix(rest, (next - pointer) as nat);
            }
            lemma_whole_frames_extend(input, pointer as nat, (next - pointer) as nat);
        }
        let ghost before = caching_buf.readable();
        let ghost c_before = *connection_ctx;
        let ghost o_before = *other_ctx;
        let fr = forward_frame(
            handler,
            connection_ctx,
            other_ctx,
            frame,
            header,
            caching_buf,
            decompressor,
            compressor,
        );
        proof {
            assert(before.is_prefix_of(caching_buf.readable()));
            assert(old(caching_buf).readable().is_prefix_of(caching_buf.readable()));
            let out = caching_buf.readable().skip(before.len() as int);
            lemma_run_push(
                *handler,
                frames,
                ks,
                cs,
                os,
                rs,
                outs,
                frame@,
                header as nat,
                *connection_ctx,
                *other_ctx,
                fr,
                out,
            );
            frames.lemma_flatten_push(frame@);
            outs.lemma_flatten_push(out);
            assert(input.take(next as int) =~= input.take(pointer as int) + frame@);
            assert(caching_buf.readable().skip(start as int) =~= before.skip(start as int) + out);
            frames = frames.push(frame@);
            ks = ks.push(header as nat);
            cs = cs.push(*connection_ctx);
            os = os.push(*other_ctx);
            rs = rs.push(fr);
            outs = outs.push(out);
            assert(cs[0] == *old(connection_ctx));
            assert(os[0] == *old(other_ctx));
        }
        pointer = next;
        if connection_ctx.should_close {
            return pointer;
        }
    }
    read_buf.set_reader_index(pointer);
    assert(read_buf.readable() =~= input.skip(pointer as int));
    buffer_read(connection_ctx, read_buf);
    pointer
}

/// A run of forwarded frames extends by one more frame.
proof fn lemma_run_push(
    handler: HandlingContext,
    frames: Seq<Seq<u8>>,
    ks: Seq<nat>,
    cs: Seq<ConnectionContext>,
    os: Seq<ConnectionContext>,
    rs: Seq<TransformationResult>,
    outs: Seq<Seq<u8>>,
    f: Seq<u8>,
    k: nat,
    c1: ConnectionContext,
    o1: ConnectionContext,
    r: TransformationResult,
    out: Seq<u8>,
)
    requires
        forwarded_run(handler, frames, ks, cs, os, rs, outs),
        whole_frame(f) == Some((k, f.len())),
        forward_rel(handler, f, k, cs.last(), os.last(), c1, o1, r, out),
    ensures
        forwarded_run(
            handler,
            frames.push(f),
            ks.push(k),
            cs.push(c1),
            os.push(o1),
            rs.push(r),
            outs.push(out),
        ),
{
    reveal(forwarded_run);
    let frames2 = frames.push(f);
    let ks2 = ks.push(k);
    let cs2 = cs.push(c1);
    let os2 = os.push(o1);
    let rs2 = rs.push(r);
    let outs2 = outs.push(out);
    assert forall|i: int| 0 <= i < frames2.len() implies whole_frame(#[trigger] frames2[i]) == Some(
        (ks2[i], frames2[i].len()),
    ) && forward_rel(
        handler,
        frames2[i],
        ks2[i],
        cs2[i],
        os2[i],
        cs2[i + 1],
        os2[i + 1],
        rs2[i],
        outs2[i],
    ) by {
        if i < frames.len() {
            assert(frames2[i] == frames[i]);
            assert(cs2[i + 1] == cs[i + 1]);
            assert(os2[i + 1] == os[i + 1]);
        }
    }
}

/// A frame header only looks at the bytes of its frame.
proof fn lemma_header_prefix(s: Seq<u8>, n: nat)
    requires
        whole_frame(s) matches Some((_, m)) && m == n,
    ensures
        frame_header(s.take(n as int)) == frame_header(s),
{
    let (len, k) = frame_header(s)->0;
    lemma_extent_prefix(s, n, 3);
}

/// The bytes before the end of the leading run have their continuation
/// bit set, and the byte that ends it does not.
proof fn lemma_run_facts(s: Seq<u8>)
    ensures
        forall|j: int| 0 <= j < crate::varint::continuation_run(s) ==> s[j] >= 128,
        crate::varint::continuation_run(s) <= s.len(),
        crate::varint::continuation_run(s) < s.len() ==> s[crate::varint::continuation_run(s) as int] < 128,
    decreases s.len(),
{
    if s.len() > 0 && s[0] >= 128 {
        let t = s.drop_first();
        lemma_run_facts(t);
        assert forall|j: int| 0 <= j < crate::varint::continuation_run(s) implies s[j] >= 128 by {
            if j > 0 {
                assert(s[j] == t[j - 1]);
            }
        }
    }
}

/// Two sequences that agree up to and including the byte ending the
/// leading run of `s` have the same leading run.
proof fn lemma_run_agree(s: Seq<u8>, t: Seq<u8>)
    requires
        crate::varint::continuation_run(s) < s.len(),
        crate::varint::continuation_run(s) < t.len(),
        forall|j: int| 0 <= j <= crate::varint::continuation_run(s) ==> s[j] == t[j],
    ensures
        crate::varint::continuation_run(t) == crate::varint::continuation_run(s),
{
    let c = crate::varint::continuation_run(s);
    lemma_run_facts(s);
    assert forall|j: int| 0 <= j < c implies t[j] >= 128 by {
        assert(s[j] == t[j]);
    }
    crate::buffers::lemma_continuation_run(t, c);
    assert(t[c as int] == s[c as int]);
}

/// The VarInt at the front of `s` is found the same in a prefix that holds it.
proof fn lemma_extent_prefix(s: Seq<u8>, n: nat, limit: nat)
    requires
        decode_var_i32(s, limit) matches Some((_, k)) && k <= n,
        n <= s.len(),
    ensures
        decode_var_i32(s.take(n as int), limit) == decode_var_i32(s, limit),
{
    let t = s.take(n as int);
    let k = (decode_var_i32(s, limit)->0).1;
    lemma_run_agree(s, t);
    assert(t.take(k as int) =~= s.take(k as int));
}

/// Appending one whole frame keeps a run of whole frames.
proof fn lemma_whole_frames_extend(input: Seq<u8>, p: nat, n: nat)
    requires
        p + n <= input.len(),
        n > 0,
        whole_frames(input.take(p as int)),
        whole_frame(input.skip(p as int).take(n as int)) matches Some((_, m)) && m == n,
    ensures
        whole_frames(input.take((p + n) as int)),
    decreases p,
{
    let a = input.take(p as int);
    let f = input.skip(p as int).take(n as int);
    assert(input.take((p + n) as int) =~= a + f);
    lemma_whole_frames_concat(a, f);
}

/// Runs of whole frames concatenate.
proof fn lemma_whole_frames_concat(a: Seq<u8>, f: Seq<u8>)
    requires
        whole_frames(a),
        f.len() > 0,
        whole_frame(f) matches Some((_, m)) && m == f.len(),
    ensures
        whole_frames(a + f),
    decreases a.len(),
{
    if a.len() == 0 {
        assert(a + f =~= f);
        assert(f.skip(f.len() as int) =~= Seq::<u8>::empty());
        assert(whole_frames(Seq::<u8>::empty()));
        assert(whole_frames(f.skip(f.len() as int)));
        assert(whole_frames(f));
    } else {
        let (k, n) = whole_frame(a)->0;
        assert(n > 0 && whole_frames(a.skip(n as int)));
        lemma_extent_prefix_rev(a, f, n);
        assert((a + f).skip(n as int) =~= a.skip(n as int) + f);
        lemma_whole_frames_concat(a.skip(n as int), f);
        assert(whole_frame(a + f) == Some((k, n)));
        assert(whole_frames((a + f).skip(n as int)));
    }
}

/// A whole frame at the front of `a` is found the same when more follows.
proof fn lemma_extent_prefix_rev(a: Seq<u8>, f: Seq<u8>, n: nat)
    requires
        whole_frame(a) matches Some((_, m)) && m == n,
    ensures
        whole_frame(a + f) == whole_frame(a),
{
    let s = a + f;
    let k = (frame_header(a)->0).1;
    lemma_run_agree(a, s);
    assert(s.take(k as int) =~= a.take(k as int));
}

impl ConnectionContext {
    /// The frame that sends `packet` on this connection, under its
    /// compression threshold. When the frame's outer length reaches `2^21`
    /// (more than three VarInt bytes) there is no frame: the connection is
    /// marked for closing instead.
    pub fn send_packet(&mut self, packet: &Packet, compressor: &mut Compressor) -> (r: Option<IndexedVec>)
        requires
            reencodable(packet.kind().spec_id(), *packet),
        ensures
            exists|out: Seq<u8>|
                #![trigger outer_length(out)]
                frame_encodes(
                    old(self).compression_threshold,
                    encode_var_i32(packet.kind().spec_id()) + packet.wire(),
                    out,
                ) && (r is Some <==> outer_length(out) < 0x20_0000) && (r matches Some(b)
                    ==> b.wf() && b.readable() == out),
            final(self).should_close == (old(self).should_close || r is None),
            final(self).state == old(self).state,
            final(self).compression_threshold == old(self).compression_threshold,
            final(self).token_self == old(self).token_self,
            final(self).token_other == old(self).token_other,
            final(self).read_buffering == old(self).read_buffering,
            final(self).write_buffering == old(self).write_buffering,
            final(self).is_writable == old(self).is_writable,
            final(self).inbound == old(self).inbound,
    {
        let mut buf = IndexedVec::new();
        buf.put_var_i32(packet.get_kind().id());
        packet.write(&mut buf);
        assert(buf.readable() =~= encode_var_i32(packet.kind().spec_id()) + packet.wire());
        let threshold = self.compression_threshold;
        let frame = encode_frame(threshold, buf.as_slice(), compressor);
        let ghost out = frame.readable();
        proof {
            lemma_outer_length(threshold, buf.readable(), out);
        }
        assert(frame_encodes(threshold, encode_var_i32(packet.kind().spec_id()) + packet.wire(), out));
        let r = match frame.peek_var_i32(5) {
            Some((len, _)) => {
                if len >= 0x20_0000 {
                    self.should_close = true;
                    None
                } else {
                    Some(frame)
                }
            },
            None => {
                self.should_close = true;
                None
            },
        };
        assert(r is Some <==> outer_length(out) < 0x20_0000);
        r
    }
}

/// The outer length that a frame starts with.
pub open spec fn outer_length(out: Seq<u8>) -> int {
    (decode_var_i32(out, 5)->0).0 as int
}

} // verus!
