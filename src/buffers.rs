//! The wire codec over an [`IndexedVec`]: VarInts, big-endian fixed-width
//! integers, booleans and length-prefixed strings and byte arrays.
use vstd::prelude::*;
use vstd::string::StringSliceAdditionalSpecFns;
use vstd::utf8::{
    decode_utf8, encode_utf8, encode_utf8_decode_utf8, encode_utf8_valid_utf8, valid_utf8,
};
use crate::indexed_vec::IndexedVec;
use crate::varint::{
    continuation_run, decode_var_i32, decode_var_i64, encode_var_i32, encode_var_i64, pow128,
    varint_bytes, varint_extent, varint_sum, lemma_var_i32_round_trip,
};

verus! {

/// `256` raised to `n`.
pub open spec fn pow256(n: nat) -> nat
    decreases n,
{
    if n == 0 {
        1
    } else {
        256 * pow256((n - 1) as nat)
    }
}

/// The `n` low bytes of `v`, most significant first.
pub open spec fn be_bytes(v: nat, n: nat) -> Seq<u8>
    decreases n,
{
    if n == 0 {
        Seq::empty()
    } else {
        be_bytes(v / 256, (n - 1) as nat).push((v % 256) as u8)
    }
}

/// The unsigned value of big-endian bytes.
pub open spec fn be_value(s: Seq<u8>) -> nat
    decreases s.len(),
{
    if s.len() == 0 {
        0
    } else {
        be_value(s.drop_last()) * 256 + s.last() as nat
    }
}

/// Two's complement image of `n` in `bits` bits.
pub open spec fn to_unsigned(n: int, bits: nat) -> nat {
    if n >= 0 {
        n as nat
    } else {
        (n + pow2(bits)) as nat
    }
}

/// The signed value of the `bits`-bit pattern `x`.
pub open spec fn to_signed(x: nat, bits: nat) -> int {
    if x >= pow2(bits) / 2 {
        x - pow2(bits)
    } else {
        x as int
    }
}

pub open spec fn pow2(bits: nat) -> nat {
    pow256(bits / 8)
}

/// Bytes of a length-prefixed UTF-8 string.
pub open spec fn string_bytes(s: Seq<char>) -> Seq<u8> {
    encode_var_i32(encode_utf8(s).len() as i32) + encode_utf8(s)
}

/// The text that lossy UTF-8 decoding gives for `b`.
pub uninterp spec fn utf8_lossy(b: Seq<u8>) -> Seq<char>;

/// Text of the bytes `b`: their decoding when they are valid UTF-8, the
/// lossy decoding (invalid sequences replaced) otherwise.
pub open spec fn text_of(b: Seq<u8>) -> Seq<char> {
    if valid_utf8(b) {
        decode_utf8(b)
    } else {
        utf8_lossy(b)
    }
}

/// Decoding of a length-prefixed string at the front of `s`: the text and
/// the number of bytes taken.
pub open spec fn decode_string(s: Seq<u8>) -> Option<(Seq<char>, nat)> {
    match decode_var_i32(s, 5) {
        Some((len, k)) => if 0 <= len && k + len <= s.len() {
            Some((text_of(s.subrange(k as int, k + len)), k + len as nat))
        } else {
            None
        },
        None => None,
    }
}

/// Decoding of a length-prefixed byte array at the front of `s`.
pub open spec fn decode_byte_array(s: Seq<u8>) -> Option<(Seq<u8>, nat)> {
    match decode_var_i32(s, 5) {
        Some((len, k)) => if 0 <= len && k + len <= s.len() {
            Some((s.subrange(k as int, k + len), k + len as nat))
        } else {
            None
        },
        None => None,
    }
}

/// Bytes of a length-prefixed byte array.
pub open spec fn byte_array_bytes(b: Seq<u8>) -> Seq<u8> {
    encode_var_i32(b.len() as i32) + b
}

/// Relies on `String::from_utf8_lossy`: valid UTF-8 decodes as such, other
/// input has its invalid sequences replaced.
#[verifier::external_body]
fn lossy_string(b: &[u8]) -> (r: String)
    ensures
        r@ == (if valid_utf8(b@) {
            decode_utf8(b@)
        } else {
            utf8_lossy(b@)
        }),
{
    String::from_utf8_lossy(b).into_owned()
}

pub proof fn lemma_pow256_pos(n: nat)
    ensures
        pow256(n) >= 1,
    decreases n,
{
    if n > 0 {
        lemma_pow256_pos((n - 1) as nat);
    }
}

/// Big-endian bytes read back as the value modulo their range.
pub proof fn lemma_be_round_trip(v: nat, n: nat)
    ensures
        be_bytes(v, n).len() == n,
        be_value(be_bytes(v, n)) == v % pow256(n),
    decreases n,
{
    if n > 0 {
        let m = (n - 1) as nat;
        lemma_be_round_trip(v / 256, m);
        lemma_pow256_pos(m);
        let s = be_bytes(v, n);
        assert(s.drop_last() =~= be_bytes(v / 256, m));
        let q = v / 256;
        let p = pow256(m);
        assert((q % p) * 256 + v % 256 == v % (256 * p)) by (nonlinear_arith)
            requires
                p >= 1,
                q == v / 256,
        {
            vstd::arithmetic::div_mod::lemma_breakdown(v as int, 256, p as int);
        }
    }
}

/// Big-endian value of `n` bytes is below `256` to the `n`.
pub proof fn lemma_be_value_bound(s: Seq<u8>)
    ensures
        be_value(s) < pow256(s.len()),
    decreases s.len(),
{
    if s.len() > 0 {
        lemma_be_value_bound(s.drop_last());
        let p = pow256((s.len() - 1) as nat);
        let x = be_value(s.drop_last());
        let l = s.last() as nat;
        assert(x * 256 + l < 256 * p) by (nonlinear_arith)
            requires
                x < p,
                l < 256,
        ;
    }
}

/// The data bits of `s` add up to less than `128` to its length.
pub proof fn lemma_varint_sum_bound(s: Seq<u8>)
    ensures
        varint_sum(s) < pow128(s.len()),
    decreases s.len(),
{
    if s.len() > 0 {
        lemma_varint_sum_bound(s.drop_last());
        let p = pow128((s.len() - 1) as nat);
        let x = varint_sum(s.drop_last());
        let l = (s.last() % 128) as nat;
        assert(x + l * p < 128 * p) by (nonlinear_arith)
            requires
                x < p,
                l < 128,
        ;
    }
}

/// A run of continuation bytes followed by a final byte fixes the run length.
pub proof fn lemma_continuation_run(s: Seq<u8>, i: nat)
    requires
        i <= s.len(),
        forall|j: int| 0 <= j < i ==> s[j] >= 128,
    ensures
        continuation_run(s) >= i,
        i < s.len() && s[i as int] < 128 ==> continuation_run(s) == i,
    decreases i,
{
    if i > 0 {
        let t = s.drop_first();
        assert forall|j: int| 0 <= j < i - 1 implies t[j] >= 128 by {
            assert(t[j] == s[j + 1]);
        }
        lemma_continuation_run(t, (i - 1) as nat);
        if i < s.len() {
            assert(t[i - 1] == s[i as int]);
        }
    }
}

impl IndexedVec {
    /// Finds the VarInt at the front of the readable bytes, reading at most
    /// `cap` bytes, without moving the cursors: its data-bit sum and size.
    pub fn peek_varint(&self, cap: usize) -> (r: Option<(u128, usize)>)
        requires
            self.wf(),
            cap <= 10,
        ensures
            r is None <==> varint_extent(self.readable(), cap as nat) is None,
            r matches Some((v, k)) ==> varint_extent(self.readable(), cap as nat) == Some(k as nat)
                && v as nat == varint_sum(self.readable().take(k as int)),
    {
        let ghost s = self.readable();
        let avail = self.readable_bytes();
        let mut acc: u128 = 0;
        let mut mult: u128 = 1;
        let mut i: usize = 0;
        while i < cap && i < avail
            invariant
                self.wf(),
                s == self.readable(),
                avail == s.len(),
                cap <= 10,
                i <= cap,
                i <= avail,
                mult as nat == pow128(i as nat),
                acc as nat == varint_sum(s.take(i as int)),
                forall|j: int| 0 <= j < i ==> s[j] >= 128,
            decreases cap - i,
        {
            let b = self.peek(i);
            proof {
                assert(s.take(i + 1).drop_last() =~= s.take(i as int));
                lemma_varint_sum_bound(s.take(i as int));
                lemma_pow128_le(i as nat);
                let bb = (b % 128) as nat;
                assert(bb * (mult as nat) <= 127 * 0x8000_0000_0000_0000) by (nonlinear_arith)
                    requires
                        bb < 128,
                        mult as nat <= 0x8000_0000_0000_0000,
                ;
            }
            acc = acc + (b % 128) as u128 * mult;
            if b < 128 {
                proof {
                    lemma_continuation_run(s, i as nat);
                }
                return Some((acc, i + 1));
            }
            mult = mult * 128;
            i = i + 1;
        }
        proof {
            lemma_continuation_run(s, i as nat);
        }
        None
    }

    /// Decodes the VarInt at the front of the readable bytes, reading at
    /// most `limit` bytes (and five), without moving the cursors.
    pub fn peek_var_i32(&self, limit: u32) -> (r: Option<(i32, usize)>)
        requires
            self.wf(),
        ensures
            match decode_var_i32(self.readable(), limit as nat) {
                Some((v, k)) => r == Some((v, k as usize)) && k <= self.readable().len(),
                None => r is None,
            },
    {
        let cap: usize = if limit < 5 { limit as usize } else { 5 };
        match self.peek_varint(cap) {
            Some((acc, k)) => {
                proof {
                    lemma_varint_sum_bound(self.readable().take(k as int));
                    lemma_pow128_le((k - 1) as nat);
                    lemma_pow128_le(k as nat);
                }
                let m = acc % 0x1_0000_0000;
                let v: i32 = if m >= 0x8000_0000 {
                    (m as i64 - 0x1_0000_0000) as i32
                } else {
                    m as i32
                };
                Some((v, k))
            },
            None => None,
        }
    }

    /// Appends the bytes of the unsigned value `v`.
    fn put_varint(&mut self, v: u64)
        requires
            old(self).wf(),
        ensures
            final(self).wf(),
            final(self).readable() == old(self).readable() + varint_bytes(v as nat),
    {
        let mut x = v;
        assert(self.readable() =~= old(self).readable() + Seq::<u8>::empty());
        assert(Seq::<u8>::empty() + varint_bytes(v as nat) =~= varint_bytes(v as nat));
        while x >= 128
            invariant
                self.wf(),
                exists|p: Seq<u8>|
                    self.readable() == old(self).readable() + p && #[trigger] (p + varint_bytes(
                        x as nat,
                    )) == varint_bytes(v as nat),
            decreases x,
        {
            let ghost before = self.readable();
            let ghost p = choose|p: Seq<u8>|
                self.readable() == old(self).readable() + p && #[trigger] (p + varint_bytes(
                    x as nat,
                )) == varint_bytes(v as nat);
            let b = (x % 128 + 128) as u8;
            self.put_u8(b);
            proof {
                let x2 = (x / 128) as nat;
                assert(varint_bytes(x as nat) == seq![b] + varint_bytes(x2));
                assert(p.push(b) + varint_bytes(x2) =~= p + varint_bytes(x as nat));
                assert(self.readable() =~= old(self).readable() + p.push(b));
            }
            x = x / 128;
        }
        let ghost p = choose|p: Seq<u8>|
            self.readable() == old(self).readable() + p && #[trigger] (p + varint_bytes(x as nat))
                == varint_bytes(v as nat);
        self.put_u8(x as u8);
        assert(varint_bytes(x as nat) == seq![x as u8]);
        assert(self.readable() =~= old(self).readable() + (p + varint_bytes(x as nat)));
    }

    /// Appends the `n` low bytes of `v`, most significant first.
    pub fn put_be(&mut self, v: u128, n: usize)
        requires
            old(self).wf(),
        ensures
            final(self).wf(),
            final(self).readable() == old(self).readable() + be_bytes(v as nat, n as nat),
        decreases n,
    {
        if n > 0 {
            self.put_be(v / 256, n - 1);
            self.put_u8((v % 256) as u8);
            assert(self.readable() =~= old(self).readable() + be_bytes(v as nat, n as nat));
        } else {
            assert(self.readable() =~= old(self).readable() + be_bytes(v as nat, n as nat));
        }
    }

    /// Takes `n` bytes as a big-endian unsigned value.
    pub fn get_be(&mut self, n: usize) -> (r: u128)
        requires
            old(self).wf(),
            n <= 16,
            n <= old(self).readable().len(),
        ensures
            final(self).wf(),
            r as nat == be_value(old(self).readable().take(n as int)),
            final(self).readable() == old(self).readable().skip(n as int),
    {
        let ghost s = old(self).readable();
        let mut acc: u128 = 0;
        let mut i: usize = 0;
        while i < n
            invariant
                i <= n,
                n <= 16,
                n <= s.len(),
                self.wf(),
                self.readable() == s.skip(i as int),
                acc as nat == be_value(s.take(i as int)),
            decreases n - i,
        {
            proof {
                lemma_be_value_bound(s.take(i as int));
                lemma_pow256_le(i as nat);
                assert(s.take(i + 1).drop_last() =~= s.take(i as int));
            }
            let b = self.get_u8();
            acc = acc * 256 + b as u128;
            i = i + 1;
            assert(self.readable() =~= s.skip(i as int));
        }
        acc
    }
}

pub proof fn lemma_pow128_le(i: nat)
    requires
        i <= 9,
    ensures
        pow128(i) <= pow128(9),
        pow128(9) == 0x8000_0000_0000_0000,
        pow128(5) == 0x8_0000_0000,
    decreases 9 - i,
{
    assert(pow128(0) == 1);
    assert(pow128(1) == 0x80);
    assert(pow128(2) == 0x4000);
    assert(pow128(3) == 0x20_0000);
    assert(pow128(4) == 0x1000_0000);
    assert(pow128(5) == 0x8_0000_0000);
    assert(pow128(6) == 0x400_0000_0000);
    assert(pow128(7) == 0x2_0000_0000_0000);
    assert(pow128(8) == 0x100_0000_0000_0000);
    assert(pow128(9) == 0x8000_0000_0000_0000);
    if i < 9 {
        lemma_pow128_le(i + 1);
    }
}

pub proof fn lemma_pow256_le(i: nat)
    requires
        i <= 15,
    ensures
        pow256(i) <= pow256(15),
        pow256(15) == 0x1_0000_0000_0000_0000_0000_0000_0000_00,
        pow256(2) == 0x1_0000,
        pow256(4) == 0x1_0000_0000,
        pow256(8) == 0x1_0000_0000_0000_0000,
        pow256(16) == 0x1_0000_0000_0000_0000_0000_0000_0000_0000,
    decreases 15 - i,
{
    assert(pow256(0) == 1);
    assert(pow256(1) == 0x100);
    assert(pow256(2) == 0x1_0000);
    assert(pow256(3) == 0x100_0000);
    assert(pow256(4) == 0x1_0000_0000);
    assert(pow256(5) == 0x100_0000_0000);
    assert(pow256(6) == 0x1_0000_0000_0000);
    assert(pow256(7) == 0x100_0000_0000_0000);
    assert(pow256(8) == 0x1_0000_0000_0000_0000);
    assert(pow256(9) == 0x100_0000_0000_0000_0000);
    assert(pow256(10) == 0x1_0000_0000_0000_0000_0000);
    assert(pow256(11) == 0x100_0000_0000_0000_0000_0000);
    assert(pow256(12) == 0x1_0000_0000_0000_0000_0000_0000);
    assert(pow256(13) == 0x100_0000_0000_0000_0000_0000_0000);
    assert(pow256(14) == 0x1_0000_0000_0000_0000_0000_0000_0000);
    assert(pow256(15) == 0x100_0000_0000_0000_0000_0000_0000_0000);
    assert(pow256(16) == 0x1_0000_0000_0000_0000_0000_0000_0000_0000);
    if i < 15 {
        lemma_pow256_le(i + 1);
    }
}

/// A byte container read from the front and written at the back.
pub trait ByteBuffer {
    /// The container is well formed.
    spec fn inv(&self) -> bool;

    /// The bytes written and not yet read, in order.
    spec fn pending(&self) -> Seq<u8>;
}

/// Reading VarInts and VarLongs.
pub trait VarInts: ByteBuffer {
    /// Takes a VarInt of at most five bytes; the input must hold one.
    fn get_var_i32(&mut self) -> (r: (i32, i32))
        requires
            old(self).inv(),
            decode_var_i32(old(self).pending(), 5) is Some,
        ensures
            final(self).inv(),
            r.1 >= 1,
            decode_var_i32(old(self).pending(), 5) == Some((r.0, r.1 as nat)),
            final(self).pending() == old(self).pending().skip(r.1 as int),
    ;

    /// Takes a VarInt that ends within `max_size` bytes (and five); on
    /// failure, over-length or input exhausted, nothing is taken.
    fn get_var_i32_limit(&mut self, max_size: u32) -> (r: Option<(i32, i32)>)
        requires
            old(self).inv(),
        ensures
            final(self).inv(),
            match decode_var_i32(old(self).pending(), max_size as nat) {
                Some((v, k)) => r == Some((v, k as i32)) && final(self).pending()
                    == old(self).pending().skip(k as int),
                None => r is None && final(self).pending() == old(self).pending(),
            },
    ;

    /// Takes a VarLong of at most ten bytes; the input must hold one.
    fn get_var_i64(&mut self) -> (r: (i64, i64))
        requires
            old(self).inv(),
            decode_var_i64(old(self).pending()) is Some,
        ensures
            final(self).inv(),
            r.1 >= 1,
            decode_var_i64(old(self).pending()) == Some((r.0, r.1 as nat)),
            final(self).pending() == old(self).pending().skip(r.1 as int),
    ;
}

/// Writing VarInts and VarLongs.
pub trait VarIntsMut: ByteBuffer {
    fn put_var_i32(&mut self, num: i32)
        requires
            old(self).inv(),
        ensures
            final(self).inv(),
            final(self).pending() == old(self).pending() + encode_var_i32(num),
    ;

    fn put_var_i64(&mut self, num: i64)
        requires
            old(self).inv(),
        ensures
            final(self).inv(),
            final(self).pending() == old(self).pending() + encode_var_i64(num),
    ;
}

/// Reading booleans: any non-zero byte is true.
pub trait Bools: ByteBuffer {
    fn get_bool(&mut self) -> (r: bool)
        requires
            old(self).inv(),
            old(self).pending().len() >= 1,
        ensures
            final(self).inv(),
            r == (old(self).pending()[0] != 0),
            final(self).pending() == old(self).pending().drop_first(),
    ;
}

/// Writing booleans as one byte, `1` or `0`.
pub trait BoolsMut: ByteBuffer {
    fn put_bool(&mut self, val: bool)
        requires
            old(self).inv(),
        ensures
            final(self).inv(),
            final(self).pending() == old(self).pending().push(if val { 1u8 } else { 0u8 }),
    ;
}

/// Reading length-prefixed strings.
pub trait Strings: ByteBuffer {
    /// Takes a string; on a malformed or truncated one nothing is taken.
    fn get_string(&mut self) -> (r: Option<String>)
        requires
            old(self).inv(),
        ensures
            final(self).inv(),
            match decode_string(old(self).pending()) {
                Some((t, k)) => r matches Some(s) && s@ == t && final(self).pending()
                    == old(self).pending().skip(k as int),
                None => r is None && final(self).pending() == old(self).pending(),
            },
    ;
}

/// Writing length-prefixed strings.
pub trait StringsMut: ByteBuffer {
    fn put_string(&mut self, string: &str)
        requires
            old(self).inv(),
            string.spec_bytes().len() <= i32::MAX,
        ensures
            final(self).inv(),
            final(self).pending() == old(self).pending() + string_bytes(string@),
    ;
}

impl ByteBuffer for IndexedVec {
    open spec fn inv(&self) -> bool {
        self.wf()
    }

    open spec fn pending(&self) -> Seq<u8> {
        self.readable()
    }
}

impl VarInts for IndexedVec {
    fn get_var_i32(&mut self) -> (r: (i32, i32)) {
        match self.get_var_i32_limit(5) {
            Some(r) => r,
            None => (0, 0),
        }
    }

    fn get_var_i32_limit(&mut self, max_size: u32) -> (r: Option<(i32, i32)>) {
        match self.peek_var_i32(max_size) {
            Some((v, k)) => {
                let ghost s = self.readable();
                self.advance_reader_index(k);
                assert(self.readable() =~= s.skip(k as int));
                Some((v, k as i32))
            },
            None => None,
        }
    }

    fn get_var_i64(&mut self) -> (r: (i64, i64)) {
        match self.peek_varint(10) {
            Some((acc, k)) => {
                proof {
                    lemma_varint_sum_bound(self.readable().take(k as int));
                    lemma_pow128_le((k - 1) as nat);
                    assert(pow128(k as nat) <= 128 * pow128(9));
                }
                let m = acc % 0x1_0000_0000_0000_0000;
                let v: i64 = if m >= 0x8000_0000_0000_0000 {
                    (m as i128 - 0x1_0000_0000_0000_0000) as i64
                } else {
                    m as i64
                };
                let ghost s = self.readable();
                self.advance_reader_index(k);
                assert(self.readable() =~= s.skip(k as int));
                (v, k as i64)
            },
            None => (0, 0),
        }
    }
}

impl VarIntsMut for IndexedVec {
    fn put_var_i32(&mut self, num: i32) {
        let v: u64 = if num >= 0 {
            num as u64
        } else {
            (num as i64 + 0x1_0000_0000) as u64
        };
        self.put_varint(v);
    }

    fn put_var_i64(&mut self, num: i64) {
        let v: u64 = if num >= 0 {
            num as u64
        } else {
            (num as i128 + 0x1_0000_0000_0000_0000) as u64
        };
        self.put_varint(v);
    }
}

impl Bools for IndexedVec {
    fn get_bool(&mut self) -> (r: bool) {
        self.get_u8() != 0
    }
}

impl BoolsMut for IndexedVec {
    fn put_bool(&mut self, val: bool) {
        self.put_u8(if val { 1 } else { 0 });
    }
}

impl Strings for IndexedVec {
    fn get_string(&mut self) -> (r: Option<String>) {
        let ghost s = self.readable();
        match self.peek_var_i32(5) {
            Some((len, k)) => {
                if len < 0 || len as usize > self.readable_bytes() - k {
                    None
                } else {
                    self.advance_reader_index(k);
                    assert(self.readable() =~= s.skip(k as int));
                    let bytes = self.get_bytes(len as usize);
                    assert(bytes@ =~= s.subrange(k as int, k + len));
                    assert(self.readable() =~= s.skip(k + len));
                    Some(lossy_string(bytes.as_slice()))
                }
            },
            None => None,
        }
    }
}

impl StringsMut for IndexedVec {
    fn put_string(&mut self, string: &str) {
        let bytes = string.as_bytes();
        self.put_var_i32(bytes.len() as i32);
        self.put_slice(bytes);
        assert(self.readable() =~= old(self).readable() + string_bytes(string@));
    }
}

impl IndexedVec {
    /// Takes a length-prefixed byte array; on a malformed or truncated one
    /// nothing is taken.
    pub fn get_byte_array(&mut self) -> (r: Option<Vec<u8>>)
        requires
            old(self).wf(),
        ensures
            final(self).wf(),
            match decode_byte_array(old(self).readable()) {
                Some((b, k)) => r matches Some(v) && v@ == b && final(self).readable()
                    == old(self).readable().skip(k as int),
                None => r is None && final(self).readable() == old(self).readable(),
            },
    {
        let ghost s = self.readable();
        match self.peek_var_i32(5) {
            Some((len, k)) => {
                if len < 0 || len as usize > self.readable_bytes() - k {
                    None
                } else {
                    self.advance_reader_index(k);
                    assert(self.readable() =~= s.skip(k as int));
                    let bytes = self.get_bytes(len as usize);
                    assert(bytes@ =~= s.subrange(k as int, k + len));
                    assert(self.readable() =~= s.skip(k + len));
                    Some(bytes)
                }
            },
            None => None,
        }
    }

    /// Appends a length-prefixed byte array.
    pub fn put_byte_array(&mut self, data: &[u8])
        requires
            old(self).wf(),
            data@.len() <= i32::MAX,
        ensures
            final(self).wf(),
            final(self).readable() == old(self).readable() + byte_array_bytes(data@),
    {
        self.put_var_i32(data.len() as i32);
        self.put_slice(data);
        assert(self.readable() =~= old(self).readable() + byte_array_bytes(data@));
    }

    /// Takes all the readable bytes.
    pub fn get_rest(&mut self) -> (r: Vec<u8>)
        requires
            old(self).wf(),
        ensures
            final(self).wf(),
            r@ == old(self).readable(),
            final(self).readable().len() == 0,
    {
        let n = self.readable_bytes();
        let r = self.get_bytes(n);
        assert(old(self).readable().take(n as int) =~= old(self).readable());
        r
    }
}

impl IndexedVec {
    pub fn put_u16(&mut self, v: u16)
        requires
            old(self).wf(),
        ensures
            final(self).wf(),
            final(self).readable() == old(self).readable() + be_bytes(v as nat, 2),
    {
        self.put_be(v as u128, 2);
    }

    pub fn get_u16(&mut self) -> (r: u16)
        requires
            old(self).wf(),
            old(self).readable().len() >= 2,
        ensures
            final(self).wf(),
            r as nat == be_value(old(self).readable().take(2)),
            final(self).readable() == old(self).readable().skip(2),
    {
        proof {
            lemma_be_value_bound(old(self).readable().take(2));
            lemma_pow256_le(0);
        }
        self.get_be(2) as u16
    }

    pub fn put_i16(&mut self, v: i16)
        requires
            old(self).wf(),
        ensures
            final(self).wf(),
            final(self).readable() == old(self).readable() + be_bytes(to_unsigned(v as int, 16), 2),
    {
        proof {
            lemma_pow256_le(0);
        }
        let u: u128 = if v >= 0 {
            v as u128
        } else {
            (v as i32 + 0x1_0000) as u128
        };
        self.put_be(u, 2);
    }

    pub fn get_i16(&mut self) -> (r: i16)
        requires
            old(self).wf(),
            old(self).readable().len() >= 2,
        ensures
            final(self).wf(),
            r as int == to_signed(be_value(old(self).readable().take(2)), 16),
            final(self).readable() == old(self).readable().skip(2),
    {
        proof {
            lemma_be_value_bound(old(self).readable().take(2));
            lemma_pow256_le(0);
        }
        let x = self.get_be(2);
        if x >= 0x8000 {
            (x as i32 - 0x1_0000) as i16
        } else {
            x as i16
        }
    }

    pub fn put_i32(&mut self, v: i32)
        requires
            old(self).wf(),
        ensures
            final(self).wf(),
            final(self).readable() == old(self).readable() + be_bytes(to_unsigned(v as int, 32), 4),
    {
        proof {
            lemma_pow256_le(0);
        }
        let u: u128 = if v >= 0 {
            v as u128
        } else {
            (v as i64 + 0x1_0000_0000) as u128
        };
        self.put_be(u, 4);
    }

    pub fn get_i32(&mut self) -> (r: i32)
        requires
            old(self).wf(),
            old(self).readable().len() >= 4,
        ensures
            final(self).wf(),
            r as int == to_signed(be_value(old(self).readable().take(4)), 32),
            final(self).readable() == old(self).readable().skip(4),
    {
        proof {
            lemma_be_value_bound(old(self).readable().take(4));
            lemma_pow256_le(0);
        }
        let x = self.get_be(4);
        if x >= 0x80000000 {
            (x as i64 - 0x1_0000_0000) as i32
        } else {
            x as i32
        }
    }

    pub fn put_i64(&mut self, v: i64)
        requires
            old(self).wf(),
        ensures
            final(self).wf(),
            final(self).readable() == old(self).readable() + be_bytes(to_unsigned(v as int, 64), 8),
    {
        proof {
            lemma_pow256_le(0);
        }
        let u: u128 = if v >= 0 {
            v as u128
        } else {
            (v as i128 + 0x1_0000_0000_0000_0000) as u128
        };
        self.put_be(u, 8);
    }

    pub fn get_i64(&mut self) -> (r: i64)
        requires
            old(self).wf(),
            old(self).readable().len() >= 8,
        ensures
            final(self).wf(),
            r as int == to_signed(be_value(old(self).readable().take(8)), 64),
            final(self).readable() == old(self).readable().skip(8),
    {
        proof {
            lemma_be_value_bound(old(self).readable().take(8));
            lemma_pow256_le(0);
        }
        let x = self.get_be(8);
        if x >= 0x8000000000000000 {
            (x as i128 - 0x1_0000_0000_0000_0000) as i64
        } else {
            x as i64
        }
    }

    pub fn put_u64(&mut self, v: u64)
        requires
            old(self).wf(),
        ensures
            final(self).wf(),
            final(self).readable() == old(self).readable() + be_bytes(v as nat, 8),
    {
        self.put_be(v as u128, 8);
    }

    pub fn get_u64(&mut self) -> (r: u64)
        requires
            old(self).wf(),
            old(self).readable().len() >= 8,
        ensures
            final(self).wf(),
            r as nat == be_value(old(self).readable().take(8)),
            final(self).readable() == old(self).readable().skip(8),
    {
        proof {
            lemma_be_value_bound(old(self).readable().take(8));
            lemma_pow256_le(0);
        }
        self.get_be(8) as u64
    }

    pub fn put_u128(&mut self, v: u128)
        requires
            old(self).wf(),
        ensures
            final(self).wf(),
            final(self).readable() == old(self).readable() + be_bytes(v as nat, 16),
    {
        self.put_be(v as u128, 16);
    }

    pub fn get_u128(&mut self) -> (r: u128)
        requires
            old(self).wf(),
            old(self).readable().len() >= 16,
        ensures
            final(self).wf(),
            r as nat == be_value(old(self).readable().take(16)),
            final(self).readable() == old(self).readable().skip(16),
    {
        proof {
            lemma_be_value_bound(old(self).readable().take(16));
            lemma_pow256_le(0);
        }
        self.get_be(16) as u128
    }
}

/// Decoding of `n` big-endian bytes at the front of `s`.
pub open spec fn decode_be(s: Seq<u8>, n: nat) -> Option<(nat, nat)> {
    if s.len() >= n {
        Some((be_value(s.take(n as int)), n))
    } else {
        None
    }
}

/// Decoding of a boolean byte at the front of `s`.
pub open spec fn decode_bool(s: Seq<u8>) -> Option<(bool, nat)> {
    if s.len() >= 1 {
        Some((s[0] != 0, 1))
    } else {
        None
    }
}

/// A string whose byte length a VarInt can carry.
pub open spec fn string_fits(t: Seq<char>) -> bool {
    encode_utf8(t).len() <= i32::MAX
}

/// A length-prefixed string reads back as itself, whatever follows it.
pub proof fn lemma_string_round_trip(t: Seq<char>, rest: Seq<u8>)
    requires
        string_fits(t),
    ensures
        decode_string(string_bytes(t) + rest) == Some((t, string_bytes(t).len())),
{
    let b = encode_utf8(t);
    let len = b.len() as i32;
    let e = encode_var_i32(len);
    lemma_var_i32_round_trip(len, b + rest);
    assert(string_bytes(t) + rest =~= e + (b + rest));
    let s = string_bytes(t) + rest;
    assert(s.subrange(e.len() as int, e.len() + len) =~= b);
    encode_utf8_valid_utf8(t);
    encode_utf8_decode_utf8(t);
}

/// A length-prefixed byte array reads back as itself.
pub proof fn lemma_byte_array_round_trip(b: Seq<u8>, rest: Seq<u8>)
    requires
        b.len() <= i32::MAX,
    ensures
        decode_byte_array(byte_array_bytes(b) + rest) == Some((b, byte_array_bytes(b).len())),
{
    let len = b.len() as i32;
    let e = encode_var_i32(len);
    lemma_var_i32_round_trip(len, b + rest);
    assert(byte_array_bytes(b) + rest =~= e + (b + rest));
    let s = byte_array_bytes(b) + rest;
    assert(s.subrange(e.len() as int, e.len() + len) =~= b);
}

/// Fixed-width bytes read back as the value modulo their range.
pub proof fn lemma_be_decode(v: nat, n: nat, rest: Seq<u8>)
    ensures
        be_bytes(v, n).len() == n,
        decode_be(be_bytes(v, n) + rest, n) == Some((v % pow256(n), n)),
{
    lemma_be_round_trip(v, n);
    assert((be_bytes(v, n) + rest).take(n as int) =~= be_bytes(v, n));
}

/// The two's complement image of an in-range value reads back as itself.
pub proof fn lemma_signed_round_trip(n: int, bits: nat)
    requires
        bits == 16 || bits == 32 || bits == 64,
        -(pow2(bits) / 2) <= n < pow2(bits) / 2,
    ensures
        to_unsigned(n, bits) < pow2(bits),
        to_unsigned(n, bits) % pow2(bits) == to_unsigned(n, bits),
        to_signed(to_unsigned(n, bits), bits) == n,
{
    lemma_pow256_le(0);
    let u = to_unsigned(n, bits);
    vstd::arithmetic::div_mod::lemma_small_mod(u, pow2(bits));
}

} // verus!
