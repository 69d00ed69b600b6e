//! The untyped byte arena and the stride-aware view over it.

use vstd::prelude::*;

verus! {

use vstd::arithmetic::div_mod::{lemma_fundamental_div_mod, lemma_mod_multiples_basic};

/// A growable, untyped byte arena.
///
/// The arena holds backing storage of `cap_bytes()` bytes, of which the
/// first `len_bytes()` are in use; it knows nothing about element types.
/// Every operation that works in elements takes the element stride as an
/// argument, and a caller must pass the same stride consistently for the
/// lifetime of one arena — the divisibility preconditions state exactly
/// that.
pub struct ByteVec {
    data: Vec<u8>,
    len: usize,
}

impl ByteVec {
    /// Bytes in use.
    pub closed spec fn len_bytes(&self) -> int {
        self.len as int
    }

    /// Bytes of backing storage held.
    pub closed spec fn cap_bytes(&self) -> int {
        self.data@.len() as int
    }

    /// The bytes in use, in order.
    pub closed spec fn bytes(&self) -> Seq<u8> {
        self.data@.take(self.len as int)
    }

    /// The length never exceeds the capacity, which is a machine size.
    pub closed spec fn wf(&self) -> bool {
        self.len as int <= self.data@.len() && self.data@.len() <= usize::MAX
    }

    /// Creates a new, empty arena. No allocation is performed.
    pub fn new() -> (v: ByteVec)
        ensures
            v.wf(),
            v.len_bytes() == 0,
            v.cap_bytes() == 0,
            v.bytes() == Seq::<u8>::empty(),
    {
        let v = ByteVec { data: Vec::new(), len: 0 };
        proof {
            assert(v.bytes() =~= Seq::<u8>::empty());
        }
        v
    }

    /// Bytes in use.
    pub fn byte_len(&self) -> (n: usize)
        ensures
            n as int == self.len_bytes(),
    {
        self.len
    }

    /// Bytes of backing storage held.
    pub fn byte_cap(&self) -> (n: usize)
        ensures
            n as int == self.cap_bytes(),
    {
        self.data.len()
    }

    /// Resizes the backing storage to exactly `new_cap` bytes, keeping the
    /// bytes in use.
    fn set_cap(&mut self, new_cap: usize)
        requires
            old(self).wf(),
            old(self).len_bytes() <= new_cap as int,
        ensures
            final(self).wf(),
            final(self).len_bytes() == old(self).len_bytes(),
            final(self).cap_bytes() == new_cap as int,
            final(self).bytes() == old(self).bytes(),
    {
        if new_cap < self.data.len() {
            self.data.truncate(new_cap);
            proof {
                assert(self.data@.take(self.len as int) =~= old(self).bytes());
            }
        } else {
            while self.data.len() < new_cap
                invariant
                    old(self).len_bytes() <= self.data@.len(),
                    self.data@.len() <= new_cap as int,
                    self.len == old(self).len,
                    self.data@.take(self.len as int) == old(self).bytes(),
                decreases new_cap - self.data@.len(),
            {
                self.data.push(0u8);
                proof {
                    assert(self.data@.take(self.len as int) =~= old(self).bytes());
                }
            }
        }
    }

    /// Grows the arena by one element of `stride` bytes, reallocating if
    /// the storage is full: a first allocation holds 4 elements, and every
    /// later one doubles the capacity. The bytes already in use are kept;
    /// the content of the new element is unspecified.
    pub fn grow_by_one(&mut self, stride: usize)
        requires
            old(self).wf(),
            stride > 0,
            old(self).len_bytes() % (stride as int) == 0,
            old(self).cap_bytes() % (stride as int) == 0,
            old(self).len_bytes() == old(self).cap_bytes() ==> (if old(self).cap_bytes() == 0 {
                4 * (stride as int) <= usize::MAX
            } else {
                2 * old(self).cap_bytes() <= usize::MAX
            }),
        ensures
            final(self).wf(),
            final(self).len_bytes() == old(self).len_bytes() + stride,
            final(self).len_bytes() % (stride as int) == 0,
            final(self).cap_bytes() % (stride as int) == 0,
            final(self).bytes().take(old(self).len_bytes()) == old(self).bytes(),
            final(self).cap_bytes() == (if old(self).len_bytes() < old(self).cap_bytes() {
                old(self).cap_bytes()
            } else if old(self).cap_bytes() == 0 {
                4 * (stride as int)
            } else {
                2 * old(self).cap_bytes()
            }),
    {
        proof {
            if old(self).len_bytes() < old(self).cap_bytes() {
                Self::lemma_multiple_below(
                    old(self).len_bytes(),
                    old(self).cap_bytes(),
                    stride as int,
                );
            }
        }
        if self.len == self.data.len() {
            let new_cap: usize = if self.data.len() == 0 {
                4 * stride
            } else {
                2 * self.data.len()
            };
            self.set_cap(new_cap);
            proof {
                lemma_mod_multiples_basic(4, stride as int);
                let c = old(self).cap_bytes();
                assert((2 * c) % (stride as int) == 0) by {
                    let s = stride as int;
                    let q = c / s;
                    lemma_fundamental_div_mod(c, s);
                    lemma_mod_multiples_basic(2 * q, s);
                    assert(2 * c == (2 * q) * s) by (nonlinear_arith)
                        requires
                            c == q * s,
                    ;
                }
            }
        }
        proof {
            if old(self).len_bytes() == old(self).cap_bytes() && old(self).cap_bytes() > 0 {
                Self::lemma_multiple_below(0, old(self).cap_bytes(), stride as int);
            }
            assert(self.len as int + stride as int <= self.cap_bytes());
        }
        self.len = self.len + stride;
        proof {
            assert(self.bytes().take(old(self).len_bytes()) =~= old(self).bytes());
            lemma_mod_multiples_basic(0, stride as int);
            let l = old(self).len_bytes();
            assert((l + stride) % (stride as int) == 0) by {
                let s = stride as int;
                let q = l / s;
                lemma_fundamental_div_mod(l, s);
                lemma_mod_multiples_basic(q + 1, s);
                assert(l + s == (q + 1) * s) by (nonlinear_arith)
                    requires
                        l == q * s,
                ;
            }
        }
    }

    /// Copies the bytes of the `index`-th element of `stride` bytes out of
    /// the arena.
    pub fn read_element(&self, index: usize, stride: usize) -> (out: Vec<u8>)
        requires
            self.wf(),
            stride > 0,
            (index as int + 1) * (stride as int) <= self.len_bytes(),
        ensures
            out@ == self.bytes().subrange(
                (index as int) * (stride as int),
                (index as int) * (stride as int) + (stride as int),
            ),
    {
        proof {
            assert((index as int) * (stride as int) + stride as int == (index as int + 1) * (
            stride as int)) by (nonlinear_arith);
            assert((index as int) * (stride as int) >= 0) by (nonlinear_arith);
        }
        let start: usize = index * stride;
        let mut out: Vec<u8> = Vec::new();
        let mut j: usize = 0;
        while j < stride
            invariant
                self.wf(),
                stride > 0,
                j <= stride,
                start as int == (index as int) * (stride as int),
                start + stride <= self.len_bytes(),
                out@ == self.bytes().subrange(start as int, start as int + j as int),
            decreases stride - j,
        {
            let b = self.data[start + j];
            out.push(b);
            proof {
                assert(out@ =~= self.bytes().subrange(start as int, start as int + j as int + 1));
            }
            j = j + 1;
        }
        out
    }

    /// Overwrites the bytes of the `index`-th element of `stride` bytes
    /// with `src`. No other byte changes, and length and capacity stay.
    pub fn write_element(&mut self, index: usize, stride: usize, src: &Vec<u8>)
        requires
            old(self).wf(),
            stride > 0,
            src@.len() == stride,
            (index as int + 1) * (stride as int) <= old(self).len_bytes(),
        ensures
            final(self).wf(),
            final(self).len_bytes() == old(self).len_bytes(),
            final(self).cap_bytes() == old(self).cap_bytes(),
            final(self).bytes().len() == old(self).bytes().len(),
            final(self).bytes().subrange(
                (index as int) * (stride as int),
                (index as int) * (stride as int) + (stride as int),
            ) == src@,
            forall|k: int|
                0 <= k < old(self).len_bytes() && !((index as int) * (stride as int) <= k < (
                index as int) * (stride as int) + (stride as int)) ==> final(self).bytes()[k]
                    == old(self).bytes()[k],
    {
        proof {
            assert((index as int) * (stride as int) + stride as int == (index as int + 1) * (
            stride as int)) by (nonlinear_arith);
            assert((index as int) * (stride as int) >= 0) by (nonlinear_arith);
        }
        let start: usize = index * stride;
        let mut j: usize = 0;
        while j < stride
            invariant
                stride > 0,
                j <= stride,
                src@.len() == stride,
                start as int == (index as int) * (stride as int),
                start + stride <= self.len as int,
                self.len == old(self).len,
                self.data@.len() == old(self).data@.len(),
                old(self).len as int <= old(self).data@.len(),
                forall|k: int|
                    start as int <= k < start as int + j as int ==> self.data@[k] == src@[k
                        - start as int],
                forall|k: int|
                    0 <= k < self.data@.len() && !(start as int <= k < start as int + j as int)
                        ==> self.data@[k] == old(self).data@[k],
            decreases stride - j,
        {
            self.data[start + j] = src[j];
            j = j + 1;
        }
        proof {
            assert forall|k: int|
                0 <= k < old(self).len_bytes() && !((index as int) * (stride as int) <= k < (
                index as int) * (stride as int) + (stride as int)) implies self.bytes()[k] == old(
            self).bytes()[k] by {
                assert(self.data@[k] == old(self).data@[k]);
            }
            assert(self.bytes().subrange(start as int, start as int + stride as int) =~= src@);
        }
    }

    /// Unordered removal: overwrites the `index`-th element of `stride`
    /// bytes with the bytes of the last element, then shrinks the length by
    /// one element. The capacity is kept.
    pub fn swap_remove(&mut self, index: usize, stride: usize)
        requires
            old(self).wf(),
            stride > 0,
            old(self).len_bytes() % (stride as int) == 0,
            (index as int + 1) * (stride as int) <= old(self).len_bytes(),
        ensures
            final(self).wf(),
            final(self).len_bytes() == old(self).len_bytes() - stride,
            final(self).cap_bytes() == old(self).cap_bytes(),
            final(self).len_bytes() % (stride as int) == 0,
            forall|k: int|
                0 <= k < old(self).len_bytes() - stride ==> final(self).bytes()[k] == (if (
                index as int) * (stride as int) <= k < (index as int) * (stride as int) + (
                stride as int) {
                    old(self).bytes()[old(self).len_bytes() - stride + (k - (index as int) * (
                    stride as int))]
                } else {
                    old(self).bytes()[k]
                }),
    {
        proof {
            assert((index as int) * (stride as int) + stride as int == (index as int + 1) * (
            stride as int)) by (nonlinear_arith);
            assert((index as int) * (stride as int) >= 0) by (nonlinear_arith);
        }
        let last: usize = self.len - stride;
        let start: usize = index * stride;
        proof {
            let s = stride as int;
            let l = old(self).len_bytes();
            assert((index as int) * s % s == 0) by {
                lemma_mod_multiples_basic(index as int, s);
            }
            assert((l - s) % s == 0) by {
                let q = l / s;
                lemma_fundamental_div_mod(l, s);
                lemma_mod_multiples_basic(q - 1, s);
                assert(l - s == (q - 1) * s) by (nonlinear_arith)
                    requires
                        l == q * s,
                ;
            }
            if (start as int) < last as int {
                Self::lemma_multiple_below(start as int, last as int, s);
            }
        }
        let mut j: usize = 0;
        while j < stride
            invariant
                stride > 0,
                j <= stride,
                start as int == (index as int) * (stride as int),
                start + stride <= self.len as int,
                last as int == self.len as int - stride,
                self.len == old(self).len,
                self.data@.len() == old(self).data@.len(),
                old(self).len as int <= old(self).data@.len(),
                start as int == last as int || start as int + stride <= last as int,
                forall|k: int|
                    start as int <= k < start as int + j as int ==> self.data@[k] == old(
                    self).data@[last as int + (k - start as int)],
                forall|k: int|
                    0 <= k < self.data@.len() && !(start as int <= k < start as int + j as int)
                        ==> self.data@[k] == old(self).data@[k],
            decreases stride - j,
        {
            let b = self.data[last + j];
            self.data[start + j] = b;
            j = j + 1;
        }
        proof {
            assert forall|k: int| 0 <= k < old(self).len_bytes() - stride implies self.data@[k]
                == (if (index as int) * (stride as int) <= k < (index as int) * (stride as int)
                + (stride as int) {
                old(self).bytes()[old(self).len_bytes() - stride + (k - (index as int) * (
                stride as int))]
            } else {
                old(self).bytes()[k]
            }) by {}
            let s = stride as int;
            let l = old(self).len_bytes();
            let q = l / s;
            lemma_fundamental_div_mod(l, s);
            lemma_mod_multiples_basic(q - 1, s);
            assert(l - s == (q - 1) * s) by (nonlinear_arith)
                requires
                    l == q * s,
            ;
        }
        self.len = last;
    }

    /// Releases the backing storage. May only be called once the arena is
    /// logically empty.
    pub fn deallocate(&mut self)
        requires
            old(self).wf(),
            old(self).len_bytes() == 0,
        ensures
            final(self).wf(),
            final(self).len_bytes() == 0,
            final(self).cap_bytes() == 0,
            final(self).bytes() == Seq::<u8>::empty(),
    {
        self.data = Vec::new();
        proof {
            assert(self.bytes() =~= Seq::<u8>::empty());
        }
    }

    /// Two multiples of a positive stride that are strictly ordered are at
    /// least one stride apart.
    proof fn lemma_multiple_below(a: int, b: int, s: int)
        requires
            s > 0,
            a % s == 0,
            b % s == 0,
            a < b,
        ensures
            a + s <= b,
    {
        let qa = a / s;
        let qb = b / s;
        lemma_fundamental_div_mod(a, s);
        lemma_fundamental_div_mod(b, s);
        assert(qa * s < qb * s);
        assert(qa < qb) by (nonlinear_arith)
            requires
                s > 0,
                qa * s < qb * s,
        ;
        assert(qa * s + s <= qb * s) by (nonlinear_arith)
            requires
                s > 0,
                qa + 1 <= qb,
        ;
    }
}

/// `wf` pins the length of `bytes()` to `len_bytes()` and keeps the
/// length within the capacity, which is a machine size.
pub broadcast proof fn lemma_byte_vec_bytes_len(v: ByteVec)
    requires
        v.wf(),
    ensures
        (#[trigger] v.bytes()).len() == v.len_bytes(),
        0 <= v.len_bytes() <= v.cap_bytes() <= usize::MAX,
{
}

/// A stride-aware view over a byte arena.
///
/// A `WrapVec` binds an arena to a fixed element size and alignment for a
/// sequence of operations, so callers need not thread those two values
/// through every call. It takes the arena by value and hands it back
/// through [`WrapVec::into_inner`]. While wrapped, the arena's length and
/// capacity are multiples of the element size, and all lengths exposed
/// here are in elements.
pub struct WrapVec {
    bytes: ByteVec,
    size: usize,
    align: usize,
}

impl WrapVec {
    /// Element size in bytes.
    pub closed spec fn stride(&self) -> int {
        self.size as int
    }

    /// Element alignment.
    pub closed spec fn alignment(&self) -> int {
        self.align as int
    }

    /// Bytes in use in the wrapped arena.
    pub closed spec fn len_bytes(&self) -> int {
        self.bytes.len_bytes()
    }

    /// Capacity of the wrapped arena, in bytes.
    pub closed spec fn cap_bytes(&self) -> int {
        self.bytes.cap_bytes()
    }

    /// The bytes in use, in order.
    pub closed spec fn contents(&self) -> Seq<u8> {
        self.bytes.bytes()
    }

    /// The stride is positive and at least the alignment, and the wrapped
    /// arena's length and capacity are multiples of the stride.
    pub closed spec fn wf(&self) -> bool {
        &&& self.size > 0
        &&& self.align <= self.size
        &&& self.bytes.wf()
        &&& self.bytes.len_bytes() % (self.size as int) == 0
        &&& self.bytes.cap_bytes() % (self.size as int) == 0
    }

    /// Wraps `bytes` with elements of `size` bytes at alignment `align`.
    /// The same size must have been used whenever this arena was wrapped
    /// before; the divisibility preconditions state that.
    pub fn new(bytes: ByteVec, size: usize, align: usize) -> (w: WrapVec)
        requires
            size > 0,
            align <= size,
            bytes.wf(),
            bytes.len_bytes() % (size as int) == 0,
            bytes.cap_bytes() % (size as int) == 0,
        ensures
            w.wf(),
            w.stride() == size as int,
            w.alignment() == align as int,
            w.len_bytes() == bytes.len_bytes(),
            w.cap_bytes() == bytes.cap_bytes(),
            w.contents() == bytes.bytes(),
    {
        WrapVec { bytes, size, align }
    }

    /// Hands the wrapped arena back.
    pub fn into_inner(self) -> (bytes: ByteVec)
        requires
            self.wf(),
        ensures
            bytes.wf(),
            bytes.len_bytes() == self.len_bytes(),
            bytes.cap_bytes() == self.cap_bytes(),
            bytes.bytes() == self.contents(),
            bytes.len_bytes() % self.stride() == 0,
            bytes.cap_bytes() % self.stride() == 0,
    {
        self.bytes
    }

    /// Whether the collection contains no elements.
    pub fn is_empty(&self) -> (r: bool)
        requires
            self.wf(),
        ensures
            r <==> self.len_bytes() == 0,
    {
        self.bytes.byte_len() == 0
    }

    /// The size of the collection in elements: `len() * stride()` is the
    /// number of bytes in use.
    pub fn len(&self) -> (n: usize)
        requires
            self.wf(),
        ensures
            (n as int) * self.stride() == self.len_bytes(),
    {
        let n = self.bytes.byte_len() / self.size;
        proof {
            let l = self.len_bytes();
            let s = self.size as int;
            lemma_fundamental_div_mod(l, s);
            assert((n as int) * s == s * (l / s)) by (nonlinear_arith)
                requires
                    n as int == l / s,
            ;
        }
        n
    }

    /// The allocated capacity of the collection in elements: `cap() *
    /// stride()` is the capacity in bytes.
    pub fn cap(&self) -> (n: usize)
        requires
            self.wf(),
        ensures
            (n as int) * self.stride() == self.cap_bytes(),
    {
        let n = self.bytes.byte_cap() / self.size;
        proof {
            let c = self.cap_bytes();
            let s = self.size as int;
            lemma_fundamental_div_mod(c, s);
            assert((n as int) * s == s * (c / s)) by (nonlinear_arith)
                requires
                    n as int == c / s,
            ;
        }
        n
    }

    /// Directly sets the logical length to `len` elements, which must fit
    /// in the allocated capacity. Bytes shared between the old and new
    /// length are kept; bytes exposed by an extension are unspecified.
    pub fn set_len(&mut self, len: usize)
        requires
            old(self).wf(),
            (len as int) * old(self).stride() <= old(self).cap_bytes(),
        ensures
            final(self).wf(),
            final(self).stride() == old(self).stride(),
            final(self).alignment() == old(self).alignment(),
            final(self).cap_bytes() == old(self).cap_bytes(),
            final(self).len_bytes() == (len as int) * old(self).stride(),
            forall|k: int|
                0 <= k < old(self).len_bytes() && k < final(self).len_bytes() ==> final(
                self).contents()[k] == old(self).contents()[k],
    {
        proof {
            assert((len as int) * (self.size as int) >= 0) by (nonlinear_arith);
            lemma_mod_multiples_basic(len as int, self.size as int);
        }
        let n: usize = len * self.size;
        self.bytes.len = n;
        proof {
            assert forall|k: int|
                0 <= k < old(self).len_bytes() && k < self.len_bytes() implies self.contents()[k]
                == old(self).contents()[k] by {}
        }
    }

    /// Copies the bytes of the element at `index` out of the arena.
    pub fn read_at(&self, index: usize) -> (out: Vec<u8>)
        requires
            self.wf(),
            (index as int + 1) * self.stride() <= self.len_bytes(),
        ensures
            out@ == self.contents().subrange(
                (index as int) * self.stride(),
                (index as int) * self.stride() + self.stride(),
            ),
    {
        self.bytes.read_element(index, self.size)
    }

    /// Overwrites the bytes of the element at `index` with `src`. No other
    /// byte changes, and length and capacity stay.
    pub fn write_at(&mut self, index: usize, src: &Vec<u8>)
        requires
            old(self).wf(),
            src@.len() == old(self).stride(),
            (index as int + 1) * old(self).stride() <= old(self).len_bytes(),
        ensures
            final(self).wf(),
            final(self).stride() == old(self).stride(),
            final(self).alignment() == old(self).alignment(),
            final(self).len_bytes() == old(self).len_bytes(),
            final(self).cap_bytes() == old(self).cap_bytes(),
            final(self).contents().len() == old(self).contents().len(),
            final(self).contents().subrange(
                (index as int) * old(self).stride(),
                (index as int) * old(self).stride() + old(self).stride(),
            ) == src@,
            forall|k: int|
                0 <= k < old(self).len_bytes() && !((index as int) * old(self).stride() <= k < (
                index as int) * old(self).stride() + old(self).stride()) ==> final(
                self).contents()[k] == old(self).contents()[k],
    {
        self.bytes.write_element(index, self.size, src);
    }

    /// Guarantees room for `count` additional elements, growing by the
    /// amortized policy of [`WrapVec::maybe_grow_amortized`].
    pub fn maybe_grow_by(&mut self, count: usize)
        requires
            old(self).wf(),
            old(self).len_bytes() + (count as int) * old(self).stride() <= usize::MAX,
            old(self).len_bytes() == 0 ==> 4 * old(self).stride() <= usize::MAX,
            old(self).len_bytes() > 0 && old(self).len_bytes() + (count as int) * old(
            self).stride() > old(self).cap_bytes() ==> 2 * old(self).cap_bytes() <= usize::MAX,
        ensures
            final(self).wf(),
            final(self).stride() == old(self).stride(),
            final(self).alignment() == old(self).alignment(),
            final(self).len_bytes() == old(self).len_bytes(),
            final(self).contents() == old(self).contents(),
            final(self).cap_bytes() == spec_grow_amortized(
                old(self).len_bytes(),
                old(self).cap_bytes(),
                old(self).len_bytes() + (count as int) * old(self).stride(),
                old(self).stride(),
            ),
    {
        let n = self.len();
        proof {
            let l = old(self).len_bytes();
            let s = self.size as int;
            assert(n as int + count <= usize::MAX && (n as int + count) * s == l + (
            count as int) * s) by (nonlinear_arith)
                requires
                    (n as int) * s == l,
                    l + (count as int) * s <= usize::MAX,
                    s >= 1,
                    n >= 0,
                    count >= 0,
            ;
        }
        let target: usize = n + count;
        self.maybe_grow_amortized(target);
    }

    /// The growth policy: when the view is empty, allocate room for 4
    /// elements; otherwise, whenever the target exceeds the capacity,
    /// double the capacity or grow exactly to the target, whichever is
    /// larger.
    pub fn maybe_grow_amortized(&mut self, new_cap: usize)
        requires
            old(self).wf(),
            old(self).len_bytes() == 0 ==> 4 * old(self).stride() <= usize::MAX,
            old(self).len_bytes() > 0 && (new_cap as int) * old(self).stride() > old(
            self).cap_bytes() ==> (new_cap as int) * old(self).stride() <= usize::MAX && 2 * old(
            self).cap_bytes() <= usize::MAX,
        ensures
            final(self).wf(),
            final(self).stride() == old(self).stride(),
            final(self).alignment() == old(self).alignment(),
            final(self).len_bytes() == old(self).len_bytes(),
            final(self).contents() == old(self).contents(),
            final(self).cap_bytes() == spec_grow_amortized(
                old(self).len_bytes(),
                old(self).cap_bytes(),
                (new_cap as int) * old(self).stride(),
                old(self).stride(),
            ),
    {
        if self.is_empty() {
            self.allocate(4);
        } else {
            let cap = self.cap();
            let ghost s = self.size as int;
            let ghost capb = old(self).cap_bytes();
            proof {
                assert(new_cap > cap <==> (new_cap as int) * s > capb) by (nonlinear_arith)
                    requires
                        s >= 1,
                        (cap as int) * s == capb,
                ;
            }
            if new_cap > cap {
                proof {
                    assert((2 * (cap as int)) * s == 2 * capb && 2 * (cap as int) <= usize::MAX)
                        by (nonlinear_arith)
                        requires
                            (cap as int) * s == capb,
                            2 * capb <= usize::MAX,
                            s >= 1,
                            cap >= 0,
                    ;
                }
                let doubled: usize = cap * 2;
                let target: usize = if new_cap > doubled {
                    new_cap
                } else {
                    doubled
                };
                proof {
                    assert(new_cap > doubled <==> (new_cap as int) * s > (doubled as int) * s)
                        by (nonlinear_arith)
                        requires
                            s >= 1,
                    ;
                    assert(old(self).len_bytes() <= (target as int) * s);
                    assert((target as int) * s <= usize::MAX);
                }
                self.allocate(target);
            }
        }
    }

    /// Allocates storage for exactly `new_cap` elements, keeping the bytes
    /// in use. A request of zero bytes releases the storage instead.
    pub fn allocate(&mut self, new_cap: usize)
        requires
            old(self).wf(),
            old(self).len_bytes() <= (new_cap as int) * old(self).stride(),
            (new_cap as int) * old(self).stride() <= usize::MAX,
        ensures
            final(self).wf(),
            final(self).stride() == old(self).stride(),
            final(self).alignment() == old(self).alignment(),
            final(self).len_bytes() == old(self).len_bytes(),
            final(self).contents() == old(self).contents(),
            final(self).cap_bytes() == (new_cap as int) * old(self).stride(),
    {
        proof {
            assert((new_cap as int) * (self.size as int) >= 0) by (nonlinear_arith);
            lemma_mod_multiples_basic(new_cap as int, self.size as int);
        }
        let bytes: usize = new_cap * self.size;
        if bytes == 0 {
            self.bytes.deallocate();
            proof {
                assert(self.contents() =~= old(self).contents());
            }
        } else {
            self.bytes.set_cap(bytes);
        }
    }

    /// Releases the arena's storage. May only be called when the view is
    /// empty.
    pub fn dealloc(&mut self)
        requires
            old(self).wf(),
            old(self).len_bytes() == 0,
        ensures
            final(self).wf(),
            final(self).stride() == old(self).stride(),
            final(self).alignment() == old(self).alignment(),
            final(self).len_bytes() == 0,
            final(self).cap_bytes() == 0,
    {
        self.bytes.deallocate();
    }
}

/// The capacity in bytes that the amortized growth policy yields, given
/// the bytes in use, the capacity in bytes, the target in bytes and the
/// stride.
pub open spec fn spec_grow_amortized(len: int, cap: int, target: int, stride: int) -> int {
    if len == 0 {
        4 * stride
    } else if target > cap {
        if target > 2 * cap {
            target
        } else {
            2 * cap
        }
    } else {
        cap
    }
}

/// Growing to make room for one more element always yields a capacity
/// that holds it.
pub proof fn lemma_grow_amortized_reaches(len: int, cap: int, stride: int)
    requires
        stride > 0,
        0 <= len <= cap,
    ensures
        spec_grow_amortized(len, cap, len + stride, stride) >= len + stride,
{
}

/// The grown capacity is a multiple of the stride whenever the length,
/// capacity and target are.
pub proof fn lemma_grow_amortized_divisible(len: int, cap: int, target: int, stride: int)
    requires
        stride > 0,
        len % stride == 0,
        cap % stride == 0,
        target % stride == 0,
    ensures
        spec_grow_amortized(len, cap, target, stride) % stride == 0,
{
    lemma_mod_multiples_basic(4, stride);
    let q = cap / stride;
    lemma_fundamental_div_mod(cap, stride);
    lemma_mod_multiples_basic(2 * q, stride);
    assert(2 * cap == (2 * q) * stride) by (nonlinear_arith)
        requires
            cap == q * stride,
    ;
}

} // verus!
