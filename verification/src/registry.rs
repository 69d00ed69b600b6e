//! The bucket registry: a construction-time computation that deduplicates
//! variant payload sizes into ascending size classes and maps every
//! variant to the class holding its size.

use vstd::prelude::*;

verus! {

/// A sequence of sizes in strictly ascending order (hence all distinct).
pub open spec fn strictly_ascending(s: Seq<usize>) -> bool {
    forall|i: int, j: int| 0 <= i < j < s.len() ==> s[i] < s[j]
}

/// The product of the registry computation for one sum type.
///
/// `classes` is the deduplicated, ascending list of the distinct payload
/// sizes of all variants, and `bucket_of[v]` is the index in `classes` of
/// variant `v`'s size. The mapping is total: every variant gets exactly
/// one class, zero-sized variants included.
pub struct Registry {
    /// Ascending list of the distinct variant payload sizes.
    pub classes: Vec<usize>,
    /// For each variant index, the index into `classes` of its size.
    pub bucket_of: Vec<usize>,
}

impl Registry {
    /// What it means for this registry to describe the per-variant payload
    /// sizes `sizes`: the class list is strictly ascending, every variant
    /// maps to the class holding exactly its size, and every class is the
    /// size of some variant.
    pub open spec fn matches(&self, sizes: Seq<usize>) -> bool {
        &&& self.bucket_of@.len() == sizes.len()
        &&& strictly_ascending(self.classes@)
        &&& forall|v: int|
            0 <= v < sizes.len() ==> (#[trigger] self.bucket_of@[v]) < self.classes@.len()
                && self.classes@[self.bucket_of@[v] as int] == sizes[v]
        &&& forall|c: int|
            0 <= c < self.classes@.len() ==> sizes.contains(#[trigger] self.classes@[c])
    }

    /// Computes the registry for the given per-variant payload sizes.
    pub fn build(sizes: &Vec<usize>) -> (r: Registry)
        ensures
            r.matches(sizes@),
    {
        let mut classes: Vec<usize> = Vec::new();
        let mut v: usize = 0;
        while v < sizes.len()
            invariant
                v <= sizes@.len(),
                strictly_ascending(classes@),
                forall|x: usize|
                    #[trigger] classes@.contains(x) <==> exists|w: int|
                        0 <= w < v && sizes@[w] == x,
            decreases sizes@.len() - v,
        {
            insert_class(&mut classes, sizes[v]);
            proof {
                assert forall|x: usize| #[trigger] classes@.contains(x) implies exists|w: int|
                    0 <= w < v + 1 && sizes@[w] == x by {
                    if x == sizes@[v as int] {
                        assert(sizes@[v as int] == x);
                    }
                }
                assert forall|x: usize| (exists|w: int| 0 <= w < v + 1 && sizes@[w] == x)
                    implies #[trigger] classes@.contains(x) by {
                    let w = choose|w: int| 0 <= w < v + 1 && sizes@[w] == x;
                    if w < v {
                        assert(exists|w2: int| 0 <= w2 < v && sizes@[w2] == x);
                    }
                }
            }
            v = v + 1;
        }
        let mut bucket_of: Vec<usize> = Vec::new();
        let mut v: usize = 0;
        while v < sizes.len()
            invariant
                v <= sizes@.len(),
                strictly_ascending(classes@),
                forall|x: usize|
                    #[trigger] classes@.contains(x) <==> exists|w: int|
                        0 <= w < sizes@.len() && sizes@[w] == x,
                bucket_of@.len() == v,
                forall|w: int|
                    0 <= w < v ==> (#[trigger] bucket_of@[w]) < classes@.len()
                        && classes@[bucket_of@[w] as int] == sizes@[w],
            decreases sizes@.len() - v,
        {
            proof {
                // Position `v` itself witnesses that this size is a class.
                assert(classes@.contains(sizes@[v as int])) by {
                    assert(0 <= v < sizes@.len() && sizes@[v as int] == sizes@[v as int]);
                }
            }
            let c = find_class(&classes, sizes[v]);
            bucket_of.push(c);
            v = v + 1;
        }
        let r = Registry { classes, bucket_of };
        proof {
            assert forall|c: int| 0 <= c < r.classes@.len() implies sizes@.contains(
                #[trigger] r.classes@[c],
            ) by {
                assert(r.classes@.contains(r.classes@[c]));
                let w = choose|w: int| 0 <= w < sizes@.len() && sizes@[w] == r.classes@[c];
                assert(sizes@[w] == r.classes@[c]);
            }
        }
        r
    }
}

/// Inserts `s` into the ascending class list if it is not yet present,
/// keeping the list ascending. Afterwards the list holds exactly the old
/// sizes and `s`.
fn insert_class(classes: &mut Vec<usize>, s: usize)
    requires
        strictly_ascending(old(classes)@),
    ensures
        strictly_ascending(final(classes)@),
        forall|x: usize|
            #[trigger] final(classes)@.contains(x) <==> (old(classes)@.contains(x) || x == s),
{
    let n = classes.len();
    let mut i: usize = 0;
    while i < n && classes[i] < s
        invariant
            n == classes@.len(),
            classes@ == old(classes)@,
            i <= n,
            forall|j: int| 0 <= j < i ==> classes@[j] < s,
        decreases n - i,
    {
        i = i + 1;
    }
    if i < n && classes[i] == s {
        proof {
            assert(classes@.contains(s)) by {
                assert(classes@[i as int] == s);
            }
            assert forall|x: usize| #[trigger] classes@.contains(x) implies (old(
            classes)@.contains(x) || x == s) by {}
        }
    } else {
        proof {
            assert(i < n ==> classes@[i as int] > s);
        }
        classes.insert(i, s);
        proof {
            let post = classes@;
            let pre = old(classes)@;
            assert forall|a: int, b: int| 0 <= a < b < post.len() implies post[a] < post[b] by {
                if b < i {
                    assert(post[a] == pre[a] && post[b] == pre[b]);
                } else if a < i && b == i {
                    assert(post[a] == pre[a] && post[b] == s);
                } else if a < i && b > i {
                    assert(post[a] == pre[a] && post[b] == pre[b - 1]);
                    assert(pre[a] < s);
                    if i < b - 1 {
                        assert(pre[i as int] < pre[b - 1]);
                    }
                    assert(s <= pre[b - 1]);
                } else if a == i {
                    assert(post[a] == s && post[b] == pre[b - 1]);
                    assert(s < pre[i as int]);
                    if i < b - 1 {
                        assert(pre[i as int] < pre[b - 1]);
                    }
                } else {
                    assert(post[a] == pre[a - 1] && post[b] == pre[b - 1]);
                }
            }
            assert forall|x: usize| #[trigger] post.contains(x) implies (pre.contains(x) || x
                == s) by {
                let k = choose|k: int| 0 <= k < post.len() && post[k] == x;
                if k < i {
                    assert(pre[k] == x);
                } else if k > i {
                    assert(pre[k - 1] == x);
                }
            }
            assert forall|x: usize| (pre.contains(x) || x == s) implies #[trigger] post.contains(
            x) by {
                if x == s {
                    assert(post[i as int] == x);
                } else {
                    let k = choose|k: int| 0 <= k < pre.len() && pre[k] == x;
                    if k < i {
                        assert(post[k] == x);
                    } else {
                        assert(post[k + 1] == x);
                    }
                }
            }
        }
    }
}

/// Finds the index of `s` in the class list.
fn find_class(classes: &Vec<usize>, s: usize) -> (c: usize)
    requires
        classes@.contains(s),
    ensures
        c < classes@.len(),
        classes@[c as int] == s,
{
    let n = classes.len();
    let mut i: usize = 0;
    while i < n
        invariant
            n == classes@.len(),
            classes@.contains(s),
            i <= n,
            forall|j: int| 0 <= j < i ==> classes@[j] != s,
        decreases n - i,
    {
        if classes[i] == s {
            return i;
        }
        i = i + 1;
    }
    proof {
        let k = choose|k: int| 0 <= k < classes@.len() && classes@[k] == s;
        assert(false);
    }
    0
}

/// Bucket sharing: under any registry that describes `sizes`, two
/// variants are mapped to the same size class exactly when their payload
/// sizes are equal — so two variants of equal size share a bucket.
pub proof fn lemma_equal_sizes_share_class(r: Registry, sizes: Seq<usize>, v: int, w: int)
    requires
        r.matches(sizes),
        0 <= v < sizes.len(),
        0 <= w < sizes.len(),
    ensures
        r.bucket_of@[v] == r.bucket_of@[w] <==> sizes[v] == sizes[w],
{
    let bv = r.bucket_of@[v] as int;
    let bw = r.bucket_of@[w] as int;
    if sizes[v] == sizes[w] {
        if bv < bw {
            assert(r.classes@[bv] < r.classes@[bw]);
        }
        if bw < bv {
            assert(r.classes@[bw] < r.classes@[bv]);
        }
    }
}

} // verus!
