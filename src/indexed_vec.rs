//! A growable byte container with independent reader and writer cursors.
use vstd::prelude::*;
use vstd::slice::slice_subrange;

verus! {

/// Bytes `[0, len)` with a reader cursor and a writer cursor,
/// `reader <= writer <= len`. Bytes between the cursors are readable.
pub struct IndexedVec {
    vec: Vec<u8>,
    writer_index: usize,
    reader_index: usize,
}

/// How much a buffer of `len` bytes grows to gain at least `min_extra`:
/// the fewest whole multiples of its size (of one byte when it is empty).
pub open spec fn growth(len: nat, min_extra: nat) -> nat {
    let inc = if len == 0 { 1 } else { len };
    (if min_extra % inc == 0 { min_extra / inc } else { min_extra / inc + 1 }) * inc
}

/// A multiple of the increment that reaches `min_extra` and falls short of
/// it by less than one step is the growth.
proof fn lemma_growth(len: nat, min_extra: nat, extra: nat)
    requires
        extra % (if len == 0 { 1nat } else { len }) == 0,
        extra >= min_extra,
        extra > 0 ==> extra - (if len == 0 { 1nat } else { len }) < min_extra,
    ensures
        extra == growth(len, min_extra),
{
    let inc: nat = if len == 0 { 1 } else { len };
    let q = extra / inc;
    vstd::arithmetic::div_mod::lemma_fundamental_div_mod(extra as int, inc as int);
    vstd::arithmetic::div_mod::lemma_fundamental_div_mod(min_extra as int, inc as int);
    let a = min_extra / inc;
    let b = min_extra % inc;
    assert(extra == q * inc);
    assert(min_extra == a * inc + b);
    if extra == 0 {
        assert(min_extra == 0);
        assert(a == 0 && b == 0) by (nonlinear_arith)
            requires min_extra == a * inc + b, min_extra == 0, inc > 0, b < inc, a >= 0, b >= 0;
    } else {
        assert(q == (if b == 0 { a } else { a + 1 })) by (nonlinear_arith)
            requires
                extra == q * inc,
                min_extra == a * inc + b,
                extra >= min_extra,
                extra - inc < min_extra,
                inc > 0,
                0 <= b < inc,
                a >= 0,
                q >= 0,
        ;
    }
}

impl IndexedVec {
    /// All the bytes held, allocated or written.
    pub closed spec fn data(&self) -> Seq<u8> {
        self.vec@
    }

    pub closed spec fn writer(&self) -> nat {
        self.writer_index as nat
    }

    pub closed spec fn reader(&self) -> nat {
        self.reader_index as nat
    }

    /// The cursors lie within the allocation, reader first.
    pub open spec fn wf(&self) -> bool {
        self.reader() <= self.writer() <= self.data().len()
    }

    /// The bytes between the reader and the writer cursor.
    pub open spec fn readable(&self) -> Seq<u8> {
        self.data().subrange(self.reader() as int, self.writer() as int)
    }

    /// A buffer of 256 zero bytes with both cursors at the start.
    pub fn new() -> (r: IndexedVec)
        ensures
            r.wf(),
            r.data().len() == 256,
            r.reader() == 0,
            r.writer() == 0,
    {
        IndexedVec::with_len(256)
    }

    /// A buffer of `len` zero bytes with both cursors at the start.
    pub fn with_len(len: usize) -> (r: IndexedVec)
        ensures
            r.wf(),
            r.data() == Seq::new(len as nat, |i: int| 0u8),
            r.reader() == 0,
            r.writer() == 0,
    {
        let mut vec: Vec<u8> = Vec::new();
        let mut i: usize = 0;
        while i < len
            invariant
                i <= len,
                vec@ == Seq::new(i as nat, |k: int| 0u8),
            decreases len - i,
        {
            vec.push(0);
            i = i + 1;
            assert(vec@ =~= Seq::new(i as nat, |k: int| 0u8));
        }
        IndexedVec::from_vec(vec)
    }

    /// Wraps `vec`, with both cursors at the start.
    pub fn from_vec(vec: Vec<u8>) -> (r: IndexedVec)
        ensures
            r.wf(),
            r.data() == vec@,
            r.reader() == 0,
            r.writer() == 0,
    {
        IndexedVec { vec, writer_index: 0, reader_index: 0 }
    }

    /// Number of bytes allocated.
    pub fn len(&self) -> (r: usize)
        ensures
            r == self.data().len(),
    {
        self.vec.len()
    }

    pub fn get_writer_index(&self) -> (r: usize)
        ensures
            r == self.writer(),
    {
        self.writer_index
    }

    pub fn get_reader_index(&self) -> (r: usize)
        ensures
            r == self.reader(),
    {
        self.reader_index
    }

    pub fn set_writer_index(&mut self, writer_index: usize)
        requires
            old(self).reader() <= writer_index <= old(self).data().len(),
        ensures
            final(self).data() == old(self).data(),
            final(self).reader() == old(self).reader(),
            final(self).writer() == writer_index,
    {
        self.writer_index = writer_index;
    }

    pub fn set_reader_index(&mut self, reader_index: usize)
        requires
            reader_index <= old(self).writer(),
        ensures
            final(self).data() == old(self).data(),
            final(self).reader() == reader_index,
            final(self).writer() == old(self).writer(),
    {
        self.reader_index = reader_index;
    }

    pub fn advance_writer_index(&mut self, distance: usize)
        requires
            old(self).wf(),
            old(self).writer() + distance <= old(self).data().len(),
        ensures
            final(self).data() == old(self).data(),
            final(self).reader() == old(self).reader(),
            final(self).writer() == old(self).writer() + distance,
    {
        let len = self.vec.len();
        assert(self.writer_index + distance <= len);
        self.writer_index = self.writer_index + distance;
    }

    pub fn advance_reader_index(&mut self, distance: usize)
        requires
            old(self).wf(),
            old(self).reader() + distance <= old(self).writer(),
        ensures
            final(self).data() == old(self).data(),
            final(self).reader() == old(self).reader() + distance,
            final(self).writer() == old(self).writer(),
    {
        self.reader_index = self.reader_index + distance;
    }

    /// Puts both cursors back to the start; the allocation stays.
    pub fn reset(&mut self)
        ensures
            final(self).data() == old(self).data(),
            final(self).reader() == 0,
            final(self).writer() == 0,
    {
        self.writer_index = 0;
        self.reader_index = 0;
    }

    pub fn reset_reader(&mut self)
        ensures
            final(self).data() == old(self).data(),
            final(self).reader() == 0,
            final(self).writer() == old(self).writer(),
    {
        self.reader_index = 0;
    }

    pub fn reset_writer(&mut self)
        requires
            old(self).reader() == 0,
        ensures
            final(self).data() == old(self).data(),
            final(self).reader() == 0,
            final(self).writer() == 0,
    {
        self.writer_index = 0;
    }

    /// Grows the allocation so that at least `extra` bytes fit after the
    /// writer cursor. The bytes held and both cursors are kept.
    pub fn ensure_writable(&mut self, extra: usize)
        requires
            old(self).wf(),
            2 * old(self).data().len() + extra <= usize::MAX,
        ensures
            final(self).wf(),
            final(self).data().len() >= final(self).writer() + extra,
            final(self).data().subrange(0, old(self).data().len() as int) == old(self).data(),
            final(self).reader() == old(self).reader(),
            final(self).writer() == old(self).writer(),
            old(self).data().len() >= old(self).writer() + extra ==> final(self).data() == old(
                self,
            ).data(),
            old(self).data().len() < old(self).writer() + extra ==> final(self).data().len()
                == old(self).data().len() + growth(
                old(self).data().len(),
                (old(self).writer() + extra - old(self).data().len()) as nat,
            ),
    {
        let remaining = self.vec.len() - self.writer_index;
        if remaining < extra {
            let needed = extra - remaining;
            self.reallocate(needed);
        }
    }

    /// Grows the allocation by whole multiples of its current size (by one
    /// byte at a time when it is empty) until it has grown by `min_extra`.
    pub fn reallocate(&mut self, min_extra: usize)
        requires
            old(self).wf(),
            2 * old(self).data().len() + min_extra <= usize::MAX,
        ensures
            final(self).wf(),
            final(self).data().len() == old(self).data().len() + growth(
                old(self).data().len(),
                min_extra as nat,
            ),
            final(self).data().len() >= old(self).data().len() + min_extra,
            final(self).data().len() <= 2 * old(self).data().len() + min_extra,
            final(self).data().subrange(0, old(self).data().len() as int) == old(self).data(),
            final(self).reader() == old(self).reader(),
            final(self).writer() == old(self).writer(),
    {
        let start = self.vec.len();
        let increment = if start == 0 { 1 } else { start };
        let mut extra: usize = 0;
        while extra < min_extra
            invariant
                self.vec@.len() == start + extra,
                extra + 1 <= min_extra + increment,
                extra % increment == 0,
                extra > 0 ==> extra - increment < min_extra,
                self.vec@.subrange(0, start as int) == old(self).vec@,
                increment >= 1,
                increment == if start == 0 { 1 } else { start },
                start == old(self).vec@.len(),
                2 * start + min_extra <= usize::MAX,
                self.writer_index == old(self).writer_index,
                self.reader_index == old(self).reader_index,
                self.reader_index <= self.writer_index <= start,
            decreases min_extra + increment - extra,
        {
            let mut k: usize = 0;
            while k < increment
                invariant
                    k <= increment,
                    self.vec@.len() == start + extra + k,
                    self.vec@.subrange(0, start as int) == old(self).vec@,
                    extra < min_extra,
                    increment >= 1,
                    increment == if start == 0 { 1 } else { start },
                    2 * start + min_extra <= usize::MAX,
                    start == old(self).vec@.len(),
                    self.writer_index == old(self).writer_index,
                    self.reader_index == old(self).reader_index,
                decreases increment - k,
            {
                self.vec.push(0);
                k = k + 1;
                assert(self.vec@.subrange(0, start as int) =~= old(self).vec@);
            }
            assert((extra + increment) as int % (increment as int) == 0) by {
                vstd::arithmetic::div_mod::lemma_mod_adds(extra as int, increment as int, increment as int);
                vstd::arithmetic::div_mod::lemma_mod_self_0(increment as int);
            }
            extra = extra + increment;
        }
        proof {
            lemma_growth(start as nat, min_extra as nat, extra as nat);
        }
    }

    /// The readable bytes.
    pub fn as_slice(&self) -> (r: &[u8])
        requires
            self.wf(),
        ensures
            r@ == self.readable(),
    {
        slice_subrange(self.vec.as_slice(), self.reader_index, self.writer_index)
    }

    pub fn readable_bytes(&self) -> (r: usize)
        requires
            self.wf(),
        ensures
            r == self.readable().len(),
    {
        self.writer_index - self.reader_index
    }

    /// Appends one byte at the writer cursor, growing the allocation when full.
    pub fn put_u8(&mut self, v: u8)
        requires
            old(self).wf(),
        ensures
            final(self).wf(),
            final(self).readable() == old(self).readable().push(v),
            final(self).reader() == old(self).reader(),
            final(self).writer() == old(self).writer() + 1,
            final(self).data().subrange(0, old(self).writer() as int) == old(self).data().subrange(
                0,
                old(self).writer() as int,
            ),
    {
        let w = self.writer_index;
        if w < self.vec.len() {
            self.vec.set(w, v);
        } else {
            self.vec.push(v);
        }
        let len = self.vec.len();
        assert(w < len);
        self.writer_index = w + 1;
        assert(self.readable() =~= old(self).readable().push(v));
        assert(self.data().subrange(0, w as int) =~= old(self).data().subrange(0, w as int));
    }

    /// Appends `src` at the writer cursor.
    pub fn put_slice(&mut self, src: &[u8])
        requires
            old(self).wf(),
        ensures
            final(self).wf(),
            final(self).readable() == old(self).readable() + src@,
            final(self).reader() == old(self).reader(),
            final(self).writer() == old(self).writer() + src@.len(),
            final(self).data().subrange(0, old(self).writer() as int) == old(self).data().subrange(
                0,
                old(self).writer() as int,
            ),
    {
        let mut i: usize = 0;
        while i < src.len()
            invariant
                i <= src@.len(),
                self.wf(),
                self.data().subrange(0, old(self).writer() as int) == old(self).data().subrange(
                    0,
                    old(self).writer() as int,
                ),
                self.readable() == old(self).readable() + src@.subrange(0, i as int),
                self.reader() == old(self).reader(),
                self.writer() == old(self).writer() + i,
            decreases src@.len() - i,
        {
            let ghost pre = self.data();
            self.put_u8(src[i]);
            assert(self.data().subrange(0, old(self).writer() as int) =~= pre.subrange(
                0,
                old(self).writer() as int,
            ));
            i = i + 1;
            assert(src@.subrange(0, i as int) =~= src@.subrange(0, (i - 1) as int).push(src@[i - 1]));
        }
        assert(src@.subrange(0, i as int) =~= src@);
    }

    /// Takes the first readable byte.
    pub fn get_u8(&mut self) -> (r: u8)
        requires
            old(self).wf(),
            old(self).readable().len() >= 1,
        ensures
            final(self).wf(),
            r == old(self).readable()[0],
            final(self).readable() == old(self).readable().drop_first(),
            final(self).data() == old(self).data(),
            final(self).reader() == old(self).reader() + 1,
            final(self).writer() == old(self).writer(),
    {
        let r = self.vec[self.reader_index];
        self.reader_index = self.reader_index + 1;
        assert(self.readable() =~= old(self).readable().drop_first());
        r
    }

    /// The readable byte `i` places after the reader cursor.
    pub fn peek(&self, i: usize) -> (r: u8)
        requires
            self.wf(),
            i < self.readable().len(),
        ensures
            r == self.readable()[i as int],
    {
        self.vec[self.reader_index + i]
    }

    /// The byte at position `i` of the allocation.
    pub fn byte_at(&self, i: usize) -> (r: u8)
        requires
            i < self.data().len(),
        ensures
            r == self.data()[i as int],
    {
        self.vec[i]
    }

    /// Takes the first `n` readable bytes.
    pub fn get_bytes(&mut self, n: usize) -> (r: Vec<u8>)
        requires
            old(self).wf(),
            n <= old(self).readable().len(),
        ensures
            final(self).wf(),
            r@ == old(self).readable().take(n as int),
            final(self).readable() == old(self).readable().skip(n as int),
            final(self).data() == old(self).data(),
            final(self).writer() == old(self).writer(),
    {
        let mut r: Vec<u8> = Vec::new();
        let mut i: usize = 0;
        while i < n
            invariant
                i <= n,
                n <= old(self).readable().len(),
                self.wf(),
                self.data() == old(self).data(),
                self.writer() == old(self).writer(),
                self.reader() == old(self).reader() + i,
                r@ == old(self).readable().take(i as int),
            decreases n - i,
        {
            let b = self.get_u8();
            r.push(b);
            i = i + 1;
            assert(r@ =~= old(self).readable().take(i as int));
        }
        assert(self.readable() =~= old(self).readable().skip(n as int));
        r
    }
}

} // verus!
