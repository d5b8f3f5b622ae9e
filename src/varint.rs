//! Variable-length integers: seven data bits per byte, least significant
//! group first, high bit set on every byte but the last.
use vstd::prelude::*;

verus! {

/// `128` raised to `n`.
pub open spec fn pow128(n: nat) -> nat
    decreases n,
{
    if n == 0 {
        1
    } else {
        128 * pow128((n - 1) as nat)
    }
}

/// The bytes that encode the unsigned value `v`.
pub open spec fn varint_bytes(v: nat) -> Seq<u8>
    decreases v,
{
    if v < 128 {
        seq![v as u8]
    } else {
        seq![((v % 128) + 128) as u8] + varint_bytes(v / 128)
    }
}

/// The value carried by the data bits of `s`, first byte lowest.
pub open spec fn varint_sum(s: Seq<u8>) -> nat
    decreases s.len(),
{
    if s.len() == 0 {
        0
    } else {
        varint_sum(s.drop_last()) + ((s.last() % 128) as nat) * pow128((s.len() - 1) as nat)
    }
}

/// Number of leading bytes of `s` whose continuation bit is set.
pub open spec fn continuation_run(s: Seq<u8>) -> nat
    decreases s.len(),
{
    if s.len() == 0 || s[0] < 128 {
        0
    } else {
        1 + continuation_run(s.drop_first())
    }
}

/// How many bytes the VarInt at the front of `s` occupies, if it ends within
/// both `s` and the first `limit` bytes.
pub open spec fn varint_extent(s: Seq<u8>, limit: nat) -> Option<nat> {
    let k = continuation_run(s) + 1;
    if k <= s.len() && k <= limit {
        Some(k)
    } else {
        None
    }
}

/// The unsigned 32-bit image of a signed value.
pub open spec fn unsigned32(n: int) -> nat {
    if n >= 0 {
        n as nat
    } else {
        (n + 0x1_0000_0000) as nat
    }
}

/// The unsigned 64-bit image of a signed value.
pub open spec fn unsigned64(n: int) -> nat {
    if n >= 0 {
        n as nat
    } else {
        (n + 0x1_0000_0000_0000_0000) as nat
    }
}

/// The signed 32-bit value whose bits are the low 32 bits of `x`.
pub open spec fn signed32(x: nat) -> int {
    let m = x % 0x1_0000_0000;
    if m >= 0x8000_0000 {
        m - 0x1_0000_0000
    } else {
        m as int
    }
}

/// The signed 64-bit value whose bits are the low 64 bits of `x`.
pub open spec fn signed64(x: nat) -> int {
    let m = x % 0x1_0000_0000_0000_0000;
    if m >= 0x8000_0000_0000_0000 {
        m - 0x1_0000_0000_0000_0000
    } else {
        m as int
    }
}

/// Encoding of a 32-bit VarInt.
pub open spec fn encode_var_i32(n: i32) -> Seq<u8> {
    varint_bytes(unsigned32(n as int))
}

/// Encoding of a 64-bit VarLong.
pub open spec fn encode_var_i64(n: i64) -> Seq<u8> {
    varint_bytes(unsigned64(n as int))
}

/// Decoding of a 32-bit VarInt at the front of `s`, reading at most `limit`
/// bytes (and never more than five): the value and the bytes it took.
pub open spec fn decode_var_i32(s: Seq<u8>, limit: nat) -> Option<(i32, nat)> {
    let cap = if limit < 5 { limit } else { 5 };
    match varint_extent(s, cap) {
        Some(k) => Some((signed32(varint_sum(s.take(k as int))) as i32, k)),
        None => None,
    }
}

/// Decoding of a 64-bit VarLong at the front of `s` (at most ten bytes).
pub open spec fn decode_var_i64(s: Seq<u8>) -> Option<(i64, nat)> {
    match varint_extent(s, 10) {
        Some(k) => Some((signed64(varint_sum(s.take(k as int))) as i64, k)),
        None => None,
    }
}

/// Size of a VarInt by magnitude of its unsigned image.
pub open spec fn varint_size_table(v: nat) -> nat {
    if v < 0x80 {
        1
    } else if v < 0x4000 {
        2
    } else if v < 0x20_0000 {
        3
    } else if v < 0x1000_0000 {
        4
    } else {
        5
    }
}

/// Length of an encoding grows by one with each seven bits of the value.
pub proof fn lemma_varint_len(v: nat)
    ensures
        varint_bytes(v).len() >= 1,
        v < 0x80 ==> varint_bytes(v).len() == 1,
        v >= 0x80 ==> varint_bytes(v).len() == 1 + varint_bytes(v / 128).len(),
        v < 0x1_0000_0000 ==> varint_bytes(v).len() == varint_size_table(v),
    decreases v,
{
    if v >= 128 {
        lemma_varint_len(v / 128);
    }
}

/// A value below `128` to the `k` takes at most `k` bytes.
pub proof fn lemma_varint_len_bound(v: nat, k: nat)
    requires
        k >= 1,
        v < pow128(k),
    ensures
        varint_bytes(v).len() <= k,
    decreases k,
{
    lemma_varint_len(v);
    if v >= 128 {
        assert(pow128(k) == 128 * pow128((k - 1) as nat));
        assert(v / 128 < pow128((k - 1) as nat)) by (nonlinear_arith)
            requires
                v < 128 * pow128((k - 1) as nat),
        ;
        if k == 1 {
            assert(pow128(0) == 1);
        } else {
            lemma_varint_len_bound(v / 128, (k - 1) as nat);
        }
    }
}

/// The last byte of an encoding is the only one without continuation bit.
pub proof fn lemma_varint_shape(v: nat, rest: Seq<u8>)
    ensures
        continuation_run(varint_bytes(v) + rest) + 1 == varint_bytes(v).len(),
        (varint_bytes(v) + rest).take(varint_bytes(v).len() as int) == varint_bytes(v),
    decreases v,
{
    let e = varint_bytes(v);
    lemma_varint_len(v);
    if v < 128 {
        assert((e + rest)[0] == v as u8);
    } else {
        let t = varint_bytes(v / 128);
        lemma_varint_shape(v / 128, rest);
        assert((e + rest).drop_first() =~= t + rest);
        assert((e + rest)[0] == ((v % 128) + 128) as u8);
    }
    assert((e + rest).take(e.len() as int) =~= e);
}

/// Prepending a byte shifts the remaining groups up by seven bits.
pub proof fn lemma_varint_sum_cons(x: u8, t: Seq<u8>)
    ensures
        varint_sum(seq![x] + t) == (x % 128) as nat + 128 * varint_sum(t),
    decreases t.len(),
{
    let s = seq![x] + t;
    if t.len() == 0 {
        assert(s.drop_last() =~= Seq::<u8>::empty());
        assert(s.last() == x);
        assert(varint_sum(Seq::<u8>::empty()) == 0);
        assert(pow128(0) == 1);
        assert(varint_sum(s) == varint_sum(s.drop_last()) + ((x % 128) as nat) * pow128(0));
    } else {
        let t2 = t.drop_last();
        assert(s.drop_last() =~= seq![x] + t2);
        lemma_varint_sum_cons(x, t2);
        assert(s.last() == t.last());
        let l = (t.last() % 128) as nat;
        let n = (t.len() - 1) as nat;
        assert(pow128(n + 1) == 128 * pow128(n));
        assert(varint_sum(t) == varint_sum(t2) + l * pow128(n));
        assert(varint_sum(s) == varint_sum(seq![x] + t2) + l * pow128(n + 1));
        assert(l * (128 * pow128(n)) == 128 * (l * pow128(n))) by (nonlinear_arith);
        assert(128 * varint_sum(t2) + 128 * (l * pow128(n)) == 128 * (varint_sum(t2) + l * pow128(n))) by (nonlinear_arith);
    }
}

/// The data bits of an encoding add up to the encoded value.
pub proof fn lemma_varint_sum_bytes(v: nat)
    ensures
        varint_sum(varint_bytes(v)) == v,
    decreases v,
{
    if v < 128 {
        let s = varint_bytes(v);
        assert(s.drop_last() =~= Seq::<u8>::empty());
        assert(varint_sum(Seq::<u8>::empty()) == 0);
        assert(pow128(0) == 1);
        assert(s.last() == v as u8);
        assert(varint_sum(s) == varint_sum(s.drop_last()) + ((s.last() % 128) as nat) * pow128(0));
    } else {
        let b = ((v % 128) + 128) as u8;
        lemma_varint_sum_bytes(v / 128);
        lemma_varint_sum_cons(b, varint_bytes(v / 128));
        assert(b % 128 == v % 128);
        assert(v == v % 128 + 128 * (v / 128)) by (nonlinear_arith);
    }
}

/// Decoding a 32-bit VarInt gives back the value, and the encoding has the
/// size given by the closed-form table, whatever bytes follow it.
pub proof fn lemma_var_i32_round_trip(n: i32, rest: Seq<u8>)
    ensures
        decode_var_i32(encode_var_i32(n) + rest, 5) == Some((n, encode_var_i32(n).len())),
        encode_var_i32(n).len() == varint_size_table(unsigned32(n as int)),
{
    let v = unsigned32(n as int);
    lemma_varint_len(v);
    lemma_varint_shape(v, rest);
    lemma_varint_sum_bytes(v);
    assert(signed32(v) == n as int);
}

/// Decoding a 64-bit VarLong gives back the value and the encoding's size.
pub proof fn lemma_var_i64_round_trip(n: i64, rest: Seq<u8>)
    ensures
        decode_var_i64(encode_var_i64(n) + rest) == Some((n, encode_var_i64(n).len())),
        encode_var_i64(n).len() <= 10,
{
    let v = unsigned64(n as int);
    lemma_varint_len(v);
    assert(pow128(0) == 1);
    assert(pow128(1) == 0x80);
    assert(pow128(2) == 0x4000);
    assert(pow128(3) == 0x20_0000);
    assert(pow128(4) == 0x1000_0000);
    assert(pow128(5) == 0x8_0000_0000);
    assert(pow128(6) == 0x400_0000_0000);
    assert(pow128(7) == 0x2_0000_0000_0000);
    assert(pow128(8) == 0x100_0000_0000_0000);
    assert(pow128(9) == 0x8000_0000_0000_0000);
    assert(pow128(10) == 0x40_0000_0000_0000_0000);
    lemma_varint_len_bound(v, 10);
    lemma_varint_shape(v, rest);
    lemma_varint_sum_bytes(v);
    assert(signed64(v) == n as int);
}

/// The number of bytes that the VarInt encoding of `num` takes.
pub fn get_var_i32_size(num: i32) -> (r: i32)
    ensures
        r as int == encode_var_i32(num).len(),
        r as int == varint_size_table(unsigned32(num as int)),
{
    proof {
        lemma_varint_len(unsigned32(num as int));
    }
    let v: u64 = if num >= 0 {
        num as u64
    } else {
        (num as i64 + 0x1_0000_0000) as u64
    };
    if v < 0x80 {
        1
    } else if v < 0x4000 {
        2
    } else if v < 0x20_0000 {
        3
    } else if v < 0x1000_0000 {
        4
    } else {
        5
    }
}

} // verus!
