//! Bookkeeping shared by the containers: the entry log, the per-variant
//! size table, and counting how many logged entries fall in a size class.

use vstd::prelude::*;

verus! {

use crate::Packable;
use crate::Variant;

/// One live logical element of a container: the variant it holds and the
/// index of its payload within the variant's bucket at the time of the
/// corresponding push.
pub struct Entry<T: Packable> {
    /// The variant tag of the stored value.
    pub variant: T::Variant,
    /// The element index of its payload in the bucket of its size class.
    pub index: usize,
}

/// Relies on std's `Vec::capacity`: the number of elements the vector can
/// hold without reallocating, which is never less than its length.
#[verifier::external_body]
pub(crate) fn vec_capacity<T>(v: &Vec<T>) -> (cap: usize)
    ensures
        cap >= v@.len(),
{
    v.capacity()
}

/// The per-variant payload sizes of the sum type `T`, as machine sizes.
pub open spec fn variant_sizes<T: Packable>() -> Seq<usize> {
    Seq::new(
        <T::Variant as Variant>::spec_count(),
        |i: int| <T::Variant as Variant>::spec_size(i) as usize,
    )
}

/// The size-class index of entry `e` under the variant-to-class mapping.
pub open spec fn entry_class<T: Packable>(bucket_of: Seq<usize>, e: Entry<T>) -> int {
    bucket_of[e.variant.spec_index()] as int
}

/// How many of the first `upto` entries fall in size class `c`.
pub open spec fn class_count<T: Packable>(
    entries: Seq<Entry<T>>,
    bucket_of: Seq<usize>,
    c: int,
    upto: int,
) -> int
    decreases upto,
{
    if upto <= 0 {
        0
    } else if entry_class(bucket_of, entries[upto - 1]) == c {
        class_count(entries, bucket_of, c, upto - 1) + 1
    } else {
        class_count(entries, bucket_of, c, upto - 1)
    }
}

/// A class holds between none and all of the entries counted.
pub proof fn lemma_class_count_bounds<T: Packable>(
    entries: Seq<Entry<T>>,
    bucket_of: Seq<usize>,
    c: int,
    upto: int,
)
    ensures
        0 <= class_count(entries, bucket_of, c, upto),
        upto >= 0 ==> class_count(entries, bucket_of, c, upto) <= upto,
    decreases upto,
{
    if upto > 0 {
        lemma_class_count_bounds(entries, bucket_of, c, upto - 1);
    }
}

/// The count over the first `upto` entries only looks at those entries:
/// two logs that agree below `upto` count alike.
pub proof fn lemma_class_count_prefix<T: Packable>(
    entries1: Seq<Entry<T>>,
    entries2: Seq<Entry<T>>,
    bucket_of: Seq<usize>,
    c: int,
    upto: int,
)
    requires
        forall|k: int| 0 <= k < upto ==> entries1[k] == entries2[k],
    ensures
        class_count(entries1, bucket_of, c, upto) == class_count(entries2, bucket_of, c, upto),
    decreases upto,
{
    if upto > 0 {
        lemma_class_count_prefix(entries1, entries2, bucket_of, c, upto - 1);
    }
}

/// The count never decreases as more entries are taken in.
pub proof fn lemma_class_count_monotone<T: Packable>(
    entries: Seq<Entry<T>>,
    bucket_of: Seq<usize>,
    c: int,
    i: int,
    j: int,
)
    requires
        i <= j,
    ensures
        class_count(entries, bucket_of, c, i) <= class_count(entries, bucket_of, c, j),
    decreases j - i,
{
    if i < j {
        lemma_class_count_monotone(entries, bucket_of, c, i, j - 1);
    }
}

/// An entry of class `c` at position `i` is counted by every count that
/// reaches past it, so the count before it is strictly below the count up
/// to any later bound.
pub proof fn lemma_class_count_strict<T: Packable>(
    entries: Seq<Entry<T>>,
    bucket_of: Seq<usize>,
    c: int,
    i: int,
    j: int,
)
    requires
        0 <= i < j,
        entry_class(bucket_of, entries[i]) == c,
    ensures
        class_count(entries, bucket_of, c, i) < class_count(entries, bucket_of, c, j),
{
    lemma_class_count_monotone(entries, bucket_of, c, i + 1, j);
}

/// The model after pushing the values of `vs` in order: each push
/// appends, as the containers' `push` contracts state.
pub open spec fn push_all<T>(m: Seq<T>, vs: Seq<T>) -> Seq<T>
    decreases vs.len(),
{
    if vs.len() == 0 {
        m
    } else {
        push_all(m.push(vs[0]), vs.drop_first())
    }
}

/// The model after `k` pops: each pop drops the last value, as the
/// containers' `pop` contracts state.
pub open spec fn drop_n<T>(m: Seq<T>, k: int) -> Seq<T>
    decreases k,
{
    if k <= 0 {
        m
    } else {
        drop_n(m, k - 1).drop_last()
    }
}

/// Pushing is appending.
pub proof fn lemma_push_all<T>(m: Seq<T>, vs: Seq<T>)
    ensures
        push_all(m, vs) == m + vs,
    decreases vs.len(),
{
    if vs.len() == 0 {
        assert(push_all(m, vs) =~= m + vs);
    } else {
        lemma_push_all(m.push(vs[0]), vs.drop_first());
        assert(m.push(vs[0]) + vs.drop_first() =~= m + vs);
    }
}

/// `k` pops keep exactly the first `len - k` values.
pub proof fn lemma_drop_n<T>(m: Seq<T>, k: int)
    requires
        0 <= k <= m.len(),
    ensures
        drop_n(m, k) == m.take(m.len() - k),
    decreases k,
{
    if k == 0 {
        assert(drop_n(m, 0) =~= m.take(m.len() as int));
    } else {
        lemma_drop_n(m, k - 1);
        assert(m.take(m.len() - k + 1).drop_last() =~= m.take(m.len() - k));
    }
}

/// Length bookkeeping: in the terms of the containers' contracts, a push
/// (model `m.push(v)`) grows the length by exactly one, a pop on a
/// non-empty container (model `m.drop_last()`) shrinks it by exactly one,
/// and the length never goes negative — so after any sequence of pushes
/// and pops the length is the number of pushes minus the number of
/// non-empty pops; `pop` on an empty container returns no value and
/// leaves the model as it is by its own contract.
pub proof fn lemma_length_invariant<T>(m: Seq<T>, v: T)
    ensures
        m.push(v).len() == m.len() + 1,
        m.len() > 0 ==> m.drop_last().len() == m.len() - 1,
        m.len() >= 0,
{
}

/// LIFO round trip: pushing the values of `vs` in order onto a container
/// whose model is `base` yields the model `base + vs`, and of the
/// `vs.len()` pops that follow, the `i`-th returns `vs[vs.len() - 1 - i]`
/// — the pushed values come back in exactly reversed order, byte-for-byte
/// the same values, and after all of them the container holds `base`
/// again. The terms are those of the containers' contracts: `push` turns
/// model `m` into `m.push(v)`, and `pop` returns `m.last()` and leaves
/// `m.drop_last()`.
pub proof fn lemma_lifo_round_trip<T>(base: Seq<T>, vs: Seq<T>, i: int)
    requires
        0 <= i < vs.len(),
    ensures
        push_all(base, vs) == base + vs,
        drop_n(base + vs, i).last() == vs[vs.len() - 1 - i],
        drop_n(base + vs, vs.len() as int) == base,
{
    let full = base + vs;
    lemma_push_all(base, vs);
    lemma_drop_n(full, i);
    lemma_drop_n(full, vs.len() as int);
    assert(drop_n(full, i).last() == full[full.len() - i - 1]);
    assert(full[full.len() - i - 1] == vs[vs.len() - 1 - i]);
    assert(drop_n(full, vs.len() as int) =~= base);
}

} // verus!
