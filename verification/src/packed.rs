//! The packed container that drives the byte arenas directly and removes
//! popped slots by unordered swap-removal.

use vstd::prelude::*;

verus! {

use crate::Packable;
use crate::Variant;
use crate::byte_vec::ByteVec;
use crate::registry::Registry;
use crate::store::Entry;
use crate::store::class_count;
use crate::store::entry_class;
use crate::store::lemma_class_count_bounds;
use crate::store::lemma_class_count_prefix;
use crate::store::lemma_class_count_strict;
use crate::store::variant_sizes;
use crate::store::vec_capacity;

/// A compact LIFO container for values of the sum type `T`, working on
/// its byte arenas directly: every arena operation is passed the stride
/// of the size class it belongs to.
///
/// Storage and ordering are as in [`crate::pack::Pack`]: one bucket per
/// size class, an entry log in push order, strict LIFO pops. The two
/// containers differ in how a popped slot leaves its bucket. Here the
/// arena's unordered swap-removal is used, which overwrites the popped
/// slot with the bucket's physical tail; because pushes and pops into one
/// bucket are LIFO relative to each other through the shared log, the
/// popped slot always *is* the physical tail, so the swap is degenerate
/// and bucket order is preserved either way.
///
/// Viewed abstractly (`self@`), the container is the sequence of live
/// values in push order.
pub struct Packed<T: Packable> {
    entries: Vec<Entry<T>>,
    buckets: Vec<ByteVec>,
    registry: Registry,
    model: Ghost<Seq<T>>,
}

impl<T: Packable> View for Packed<T> {
    type V = Seq<T>;

    closed spec fn view(&self) -> Seq<T> {
        self.model@
    }
}

impl<T: Packable> Packed<T> {
    /// How many size classes the registry produced for `T`.
    pub closed spec fn num_classes(&self) -> int {
        self.registry.classes@.len() as int
    }

    /// The stride (element size in bytes) of size class `c`.
    pub closed spec fn class_stride(&self, c: int) -> int {
        self.registry.classes@[c] as int
    }

    /// Bytes in use in the bucket of size class `c`.
    pub closed spec fn class_len_bytes(&self, c: int) -> int {
        self.buckets@[c].len_bytes()
    }

    /// Bytes of backing storage held by the bucket of size class `c`.
    pub closed spec fn class_cap_bytes(&self, c: int) -> int {
        self.buckets@[c].cap_bytes()
    }

    /// The bytes in use in the bucket of size class `c`.
    pub closed spec fn class_contents(&self, c: int) -> Seq<u8> {
        self.buckets@[c].bytes()
    }

    /// The size class that values tagged `tag` are stored in.
    pub closed spec fn class_of(&self, tag: T::Variant) -> int {
        self.registry.bucket_of@[tag.spec_index()] as int
    }

    /// One entry of the log is consistent with the buckets and the model;
    /// see `Pack::entry_ok`, which this mirrors.
    spec fn entry_ok(&self, i: int) -> bool {
        let e = self.entries@[i];
        let vi = e.variant.spec_index();
        &&& 0 <= vi < <T::Variant as Variant>::spec_count()
        &&& self.model@[i].spec_variant() == e.variant
        &&& if <T::Variant as Variant>::spec_size(vi) == 0 {
            &&& e.index == 0
            &&& T::spec_decode(e.variant, Seq::<u8>::empty()) == self.model@[i]
        } else {
            let c = self.registry.bucket_of@[vi] as int;
            let s = self.registry.classes@[c] as int;
            &&& e.index as int == class_count(self.entries@, self.registry.bucket_of@, c, i)
            &&& T::spec_decode(
                e.variant,
                self.buckets@[c].bytes().subrange(
                    (e.index as int) * s,
                    (e.index as int) * s + s,
                ),
            ) == self.model@[i]
        }
    }

    /// The container's invariant; see `Pack::wf`, which this mirrors.
    pub closed spec fn wf(&self) -> bool {
        &&& self.registry.matches(variant_sizes::<T>())
        &&& self.buckets@.len() == self.registry.classes@.len()
        &&& self.entries@.len() == self.model@.len()
        &&& forall|c: int| 0 <= c < self.buckets@.len() ==> (#[trigger] self.buckets@[c]).wf()
        &&& forall|c: int|
            0 <= c < self.buckets@.len() ==> (#[trigger] self.buckets@[c]).len_bytes()
                == class_count(
                self.entries@,
                self.registry.bucket_of@,
                c,
                self.entries@.len() as int,
            ) * (self.registry.classes@[c] as int)
        &&& forall|c: int|
            0 <= c < self.buckets@.len() && self.registry.classes@[c] > 0 ==> (
            #[trigger] self.buckets@[c]).cap_bytes() % (self.registry.classes@[c] as int) == 0
        &&& forall|c: int|
            0 <= c < self.buckets@.len() && self.registry.classes@[c] == 0 ==> (
            #[trigger] self.buckets@[c]).cap_bytes() == 0
        &&& forall|i: int| 0 <= i < self.entries@.len() ==> #[trigger] self.entry_ok(i)
    }

    /// Whether a push of `element` cannot overrun the address space under
    /// the arena's growth policy (first allocation 4 elements, then
    /// doubling). Every allocation failure is fatal by design, so a
    /// verified caller must rule it out.
    pub open spec fn can_push(&self, element: T) -> bool {
        let vi = element.spec_variant().spec_index();
        let s = <T::Variant as Variant>::spec_size(vi) as int;
        ||| s == 0
        ||| {
            let c = self.class_of(element.spec_variant());
            let lenb = self.class_len_bytes(c);
            let capb = self.class_cap_bytes(c);
            lenb == capb ==> (if capb == 0 {
                4 * s <= usize::MAX
            } else {
                2 * capb <= usize::MAX
            })
        }
    }

    /// Storage of size class `c` is untouched between the two states.
    pub open spec fn unchanged_class(pre: Self, post: Self, c: int) -> bool {
        &&& post.class_len_bytes(c) == pre.class_len_bytes(c)
        &&& post.class_cap_bytes(c) == pre.class_cap_bytes(c)
        &&& post.class_contents(c) == pre.class_contents(c)
    }

    /// Creates a new, empty container: one empty bucket per size class of
    /// `T`, an empty entry log, and no heap allocation for payloads.
    pub fn new() -> (p: Self)
        ensures
            p.wf(),
            p@ == Seq::<T>::empty(),
            forall|c: int|
                0 <= c < p.num_classes() ==> #[trigger] p.class_len_bytes(c) == 0
                    && p.class_cap_bytes(c) == 0,
    {
        let n = <T::Variant as Variant>::count();
        let mut sizes: Vec<usize> = Vec::new();
        let mut i: usize = 0;
        while i < n
            invariant
                n as nat == <T::Variant as Variant>::spec_count(),
                i <= n,
                sizes@.len() == i,
                forall|v: int|
                    0 <= v < i ==> (#[trigger] sizes@[v]) as nat == <T::Variant as Variant>::spec_size(
                    v),
            decreases n - i,
        {
            let tag = <T::Variant as Variant>::from_index(i);
            let (s, _a) = tag.size_align();
            sizes.push(s);
            i = i + 1;
        }
        proof {
            assert(sizes@ =~= variant_sizes::<T>());
        }
        let registry = Registry::build(&sizes);
        let mut buckets: Vec<ByteVec> = Vec::new();
        let mut c: usize = 0;
        let ncls = registry.classes.len();
        while c < ncls
            invariant
                buckets@.len() == c,
                c <= ncls,
                forall|j: int|
                    0 <= j < c ==> (#[trigger] buckets@[j]).wf() && buckets@[j].len_bytes() == 0
                        && buckets@[j].cap_bytes() == 0,
            decreases ncls - c,
        {
            buckets.push(ByteVec::new());
            c = c + 1;
        }
        let p = Packed::<T> { entries: Vec::new(), buckets, registry, model: Ghost(Seq::empty()) };
        proof {
            assert forall|cl: int| 0 <= cl < p.buckets@.len() implies (
            #[trigger] p.buckets@[cl]).len_bytes() == class_count(
                p.entries@,
                p.registry.bucket_of@,
                cl,
                p.entries@.len() as int,
            ) * (p.registry.classes@[cl] as int) by {
                assert(class_count(p.entries@, p.registry.bucket_of@, cl, 0) == 0);
            }
            assert forall|cl: int|
                0 <= cl < p.buckets@.len() && p.registry.classes@[cl] > 0 implies (
            #[trigger] p.buckets@[cl]).cap_bytes() % (p.registry.classes@[cl] as int) == 0 by {
                vstd::arithmetic::div_mod::lemma_mod_multiples_basic(
                    0,
                    p.registry.classes@[cl] as int,
                );
            }
        }
        p
    }

    /// Pushes `element` on top of the container. The element's payload
    /// goes to the tail of its size class's bucket, grown by one element
    /// if needed, and an entry is appended to the log. A zero-sized
    /// variant records a placeholder entry and never touches bucket
    /// storage. No other class's storage changes.
    pub fn push(&mut self, element: T)
        requires
            old(self).wf(),
            old(self).can_push(element),
        ensures
            final(self).wf(),
            final(self)@ == old(self)@.push(element),
            final(self).num_classes() == old(self).num_classes(),
            forall|c: int|
                0 <= c < old(self).num_classes() ==> #[trigger] final(self).class_stride(c)
                    == old(self).class_stride(c),
            forall|c: int|
                0 <= c < old(self).num_classes() && c != old(self).class_of(
                    element.spec_variant(),
                ) ==> #[trigger] Self::unchanged_class(*old(self), *final(self), c),
            <T::Variant as Variant>::spec_size(element.spec_variant().spec_index()) == 0
                ==> forall|c: int|
                0 <= c < old(self).num_classes() ==> #[trigger] Self::unchanged_class(
                    *old(self),
                    *final(self),
                    c,
                ),
            <T::Variant as Variant>::spec_size(element.spec_variant().spec_index()) > 0 ==> {
                let cls = old(self).class_of(element.spec_variant());
                let s = <T::Variant as Variant>::spec_size(
                    element.spec_variant().spec_index(),
                ) as int;
                &&& final(self).class_len_bytes(cls) == old(self).class_len_bytes(cls) + s
                &&& final(self).class_cap_bytes(cls) == (if old(self).class_len_bytes(cls) < old(
                    self,
                ).class_cap_bytes(cls) {
                    old(self).class_cap_bytes(cls)
                } else if old(self).class_cap_bytes(cls) == 0 {
                    4 * s
                } else {
                    2 * old(self).class_cap_bytes(cls)
                })
            },
    {
        let tag = element.variant();
        let (size, _align) = tag.size_align();
        let vi = tag.as_index();
        let ghost ge = element;
        let ghost bof = self.registry.bucket_of@;
        let ghost entries0 = self.entries@;
        let ghost n = self.entries@.len() as int;
        proof {
            assert(variant_sizes::<T>()[vi as int] == size);
        }
        if size == 0 {
            let _bytes = element.encode();
            self.entries.push(Entry { variant: tag, index: 0 });
            let ghost m = self.model@;
            self.model = Ghost(m.push(ge));
            proof {
                assert(_bytes@ =~= Seq::<u8>::empty());
                assert forall|c: int| 0 <= c < self.buckets@.len() implies (
                #[trigger] self.buckets@[c]).len_bytes() == class_count(
                    self.entries@,
                    self.registry.bucket_of@,
                    c,
                    self.entries@.len() as int,
                ) * (self.registry.classes@[c] as int) by {
                    lemma_class_count_prefix(self.entries@, entries0, bof, c, n);
                    assert(self.entries@[n] == (Entry::<T> { variant: tag, index: 0 }));
                    assert(old(self).buckets@[c].len_bytes() == class_count(entries0, bof, c, n)
                        * (self.registry.classes@[c] as int));
                    let ccf = class_count(self.entries@, bof, c, n + 1);
                    if c == bof[vi as int] {
                        assert(self.registry.classes@[c] == 0);
                        assert(self.buckets@[c].len_bytes() == ccf * 0);
                    } else {
                        assert(entry_class(bof, self.entries@[n]) != c);
                        assert(ccf == class_count(self.entries@, bof, c, n));
                    }
                }
                assert forall|i: int| 0 <= i < self.entries@.len() implies #[trigger] self.entry_ok(
                    i,
                ) by {
                    if i < n {
                        assert(old(self).entry_ok(i));
                        lemma_class_count_prefix(self.entries@, entries0, bof, i, i);
                        let e = self.entries@[i];
                        let evi = e.variant.spec_index();
                        if <T::Variant as Variant>::spec_size(evi) != 0 {
                            lemma_class_count_prefix(
                                self.entries@,
                                entries0,
                                bof,
                                bof[evi] as int,
                                i,
                            );
                        }
                    }
                }
            }
        } else {
            let cls = self.registry.bucket_of[vi];
            let ghost gcls = cls as int;
            let ghost s = size as int;
            let ghost bucket0 = self.buckets@[gcls];
            let ghost buckets0 = self.buckets@;
            let ghost cc0 = class_count(entries0, bof, gcls, n);
            proof {
                assert(self.registry.classes@[gcls] == size);
                lemma_class_count_bounds(entries0, bof, gcls, n);
                vstd::arithmetic::div_mod::lemma_mod_multiples_basic(cc0, s);
                assert(bucket0.len_bytes() == cc0 * s);
                crate::byte_vec::lemma_byte_vec_bytes_len(bucket0);
            }
            let mut bv = self.buckets.remove(cls);
            let index = bv.byte_len() / size;
            proof {
                vstd::arithmetic::div_mod::lemma_fundamental_div_mod(bucket0.len_bytes(), s);
                assert(index as int == cc0) by (nonlinear_arith)
                    requires
                        cc0 * s == s * (index as int),
                        s >= 1,
                ;
                assert((index as int) * s == bucket0.len_bytes()) by (nonlinear_arith)
                    requires
                        index as int == cc0,
                        cc0 * s == bucket0.len_bytes(),
                ;
            }
            bv.grow_by_one(size);
            let bytes = element.encode();
            proof {
                assert((index as int + 1) * s == (index as int) * s + s) by (nonlinear_arith);
            }
            bv.write_element(index, size, &bytes);
            let ghost nb = bv;
            self.buckets.insert(cls, bv);
            self.entries.push(Entry { variant: tag, index });
            let ghost m = self.model@;
            self.model = Ghost(m.push(ge));
            proof {
                assert(self.buckets@ =~= buckets0.update(gcls, nb));
                crate::byte_vec::lemma_byte_vec_bytes_len(nb);
                assert forall|k: int| 0 <= k < (index as int) * s implies nb.bytes()[k]
                    == bucket0.bytes()[k] by {
                    assert(nb.bytes().take(bucket0.len_bytes())[k] == bucket0.bytes()[k]);
                }
                assert forall|c: int| 0 <= c < self.buckets@.len() implies (
                #[trigger] self.buckets@[c]).len_bytes() == class_count(
                    self.entries@,
                    self.registry.bucket_of@,
                    c,
                    self.entries@.len() as int,
                ) * (self.registry.classes@[c] as int) by {
                    lemma_class_count_prefix(self.entries@, entries0, bof, c, n);
                    if c == gcls {
                        assert((cc0 + 1) * s == cc0 * s + s) by (nonlinear_arith);
                    }
                }
                assert forall|i: int| 0 <= i < self.entries@.len() implies #[trigger] self.entry_ok(
                    i,
                ) by {
                    if i < n {
                        assert(old(self).entry_ok(i));
                        let e = self.entries@[i];
                        let evi = e.variant.spec_index();
                        lemma_class_count_prefix(self.entries@, entries0, bof, i, i);
                        if <T::Variant as Variant>::spec_size(evi) != 0 {
                            let ec = bof[evi] as int;
                            lemma_class_count_prefix(self.entries@, entries0, bof, ec, i);
                            if ec == gcls {
                                let ei = e.index as int;
                                lemma_class_count_strict(entries0, bof, gcls, i, n);
                                assert(ei < index as int);
                                assert((ei + 1) * s <= (index as int) * s) by (nonlinear_arith)
                                    requires
                                        ei + 1 <= index as int,
                                        s >= 1,
                                ;
                                assert(ei * s >= 0) by (nonlinear_arith)
                                    requires
                                        ei >= 0,
                                        s >= 1,
                                ;
                                assert((ei + 1) * s == ei * s + s) by (nonlinear_arith);
                                assert(nb.bytes().subrange(ei * s, ei * s + s) =~= bucket0.bytes()
                                    .subrange(ei * s, ei * s + s));
                            }
                        }
                    } else {
                        assert((index as int + 1) * s == (index as int) * s + s)
                            by (nonlinear_arith);
                        assert(nb.bytes().subrange((index as int) * s, (index as int) * s + s)
                            == bytes@);
                        lemma_class_count_prefix(self.entries@, entries0, bof, gcls, n);
                    }
                }
            }
        }
    }

    /// Pops the most recently pushed still-live value, or nothing if the
    /// container is empty — strict LIFO order over the logical sequence.
    ///
    /// The popped slot is removed from its bucket by the arena's
    /// unordered swap-removal; the LIFO discipline makes the popped slot
    /// the bucket's physical tail, so no payload actually moves.
    pub fn pop(&mut self) -> (r: Option<T>)
        requires
            old(self).wf(),
        ensures
            final(self).wf(),
            old(self)@.len() == 0 ==> r is None && final(self)@ == old(self)@,
            old(self)@.len() > 0 ==> r == Some(old(self)@.last()) && final(self)@ == old(
            self)@.drop_last(),
            final(self).num_classes() == old(self).num_classes(),
            forall|c: int|
                0 <= c < old(self).num_classes() ==> #[trigger] final(self).class_stride(c)
                    == old(self).class_stride(c),
            forall|c: int|
                0 <= c < old(self).num_classes() ==> #[trigger] final(self).class_cap_bytes(c)
                    == old(self).class_cap_bytes(c),
            forall|c: int|
                0 <= c < old(self).num_classes() && (old(self)@.len() == 0 || c != old(
                self).class_of(old(self)@.last().spec_variant())) ==> #[trigger] final(
                self).class_len_bytes(c) == old(self).class_len_bytes(c),
            old(self)@.len() > 0 ==> final(self).class_len_bytes(
                old(self).class_of(old(self)@.last().spec_variant()),
            ) == old(self).class_len_bytes(old(self).class_of(old(self)@.last().spec_variant()))
                - <T::Variant as Variant>::spec_size(old(self)@.last().spec_variant().spec_index()),
    {
        let ghost bof = self.registry.bucket_of@;
        let ghost entries0 = self.entries@;
        let ghost model0 = self.model@;
        let ghost n = self.entries@.len() as int;
        match self.entries.pop() {
            None => {
                proof {
                    assert(self.entries@ == entries0);
                }
                None
            },
            Some(e) => {
                let Entry { variant: tag, index } = e;
                let (size, _align) = tag.size_align();
                let ghost vi_g = tag.spec_index();
                proof {
                    assert(old(self).entry_ok(n - 1));
                    assert(self.entries@ == entries0.subrange(0, n - 1));
                    assert(variant_sizes::<T>()[vi_g] == <T::Variant as Variant>::spec_size(
                        vi_g,
                    ) as usize);
                    assert(model0[n - 1].spec_variant() == tag);
                }
                if size == 0 {
                    let empty_bytes: Vec<u8> = Vec::new();
                    let value = T::decode(tag, &empty_bytes);
                    let ghost m = self.model@;
                    self.model = Ghost(m.drop_last());
                    proof {
                        assert forall|c: int| 0 <= c < self.buckets@.len() implies (
                        #[trigger] self.buckets@[c]).len_bytes() == class_count(
                            self.entries@,
                            self.registry.bucket_of@,
                            c,
                            self.entries@.len() as int,
                        ) * (self.registry.classes@[c] as int) by {
                            lemma_class_count_prefix(self.entries@, entries0, bof, c, n - 1);
                            assert(old(self).buckets@[c].len_bytes() == class_count(
                                entries0,
                                bof,
                                c,
                                n,
                            ) * (self.registry.classes@[c] as int));
                            if c == bof[vi_g] as int {
                                assert(self.registry.classes@[c] == 0);
                            } else {
                                assert(entry_class(bof, entries0[n - 1]) != c);
                                assert(class_count(entries0, bof, c, n) == class_count(
                                    entries0,
                                    bof,
                                    c,
                                    n - 1,
                                ));
                            }
                        }
                        assert forall|i: int| 0 <= i < self.entries@.len() implies
                            #[trigger] self.entry_ok(i) by {
                            assert(old(self).entry_ok(i));
                            let e2 = self.entries@[i];
                            let evi = e2.variant.spec_index();
                            if <T::Variant as Variant>::spec_size(evi) != 0 {
                                lemma_class_count_prefix(
                                    self.entries@,
                                    entries0,
                                    bof,
                                    bof[evi] as int,
                                    i,
                                );
                            }
                        }
                        assert(self.model@ =~= old(self)@.drop_last());
                    }
                    Some(value)
                } else {
                    let vi = tag.as_index();
                    let cls = self.registry.bucket_of[vi];
                    let ghost gcls = cls as int;
                    let ghost s = size as int;
                    let ghost bucket0 = self.buckets@[gcls];
                    let ghost buckets0 = self.buckets@;
                    proof {
                        assert(self.registry.classes@[gcls] == size);
                        assert(entry_class(bof, entries0[n - 1]) == gcls);
                        assert(class_count(entries0, bof, gcls, n) == class_count(
                            entries0,
                            bof,
                            gcls,
                            n - 1,
                        ) + 1);
                        assert(index as int == class_count(entries0, bof, gcls, n - 1));
                        lemma_class_count_bounds(entries0, bof, gcls, n - 1);
                        assert(bucket0.len_bytes() == (index as int + 1) * s);
                        assert((index as int + 1) * s == (index as int) * s + s)
                            by (nonlinear_arith);
                        assert((index as int) * s >= 0) by (nonlinear_arith)
                            requires
                                index >= 0,
                                s >= 0,
                        ;
                        vstd::arithmetic::div_mod::lemma_mod_multiples_basic(index as int + 1, s);
                        crate::byte_vec::lemma_byte_vec_bytes_len(bucket0);
                    }
                    let mut bv = self.buckets.remove(cls);
                    let bytes = bv.read_element(index, size);
                    bv.swap_remove(index, size);
                    let ghost nb = bv;
                    self.buckets.insert(cls, bv);
                    let value = T::decode(tag, &bytes);
                    let ghost m = self.model@;
                    self.model = Ghost(m.drop_last());
                    proof {
                        assert(self.buckets@ =~= buckets0.update(gcls, nb));
                        crate::byte_vec::lemma_byte_vec_bytes_len(nb);
                        assert(value == model0[n - 1]);
                        assert forall|c: int| 0 <= c < self.buckets@.len() implies (
                        #[trigger] self.buckets@[c]).len_bytes() == class_count(
                            self.entries@,
                            self.registry.bucket_of@,
                            c,
                            self.entries@.len() as int,
                        ) * (self.registry.classes@[c] as int) by {
                            lemma_class_count_prefix(self.entries@, entries0, bof, c, n - 1);
                            assert(old(self).buckets@[c].len_bytes() == class_count(
                                entries0,
                                bof,
                                c,
                                n,
                            ) * (self.registry.classes@[c] as int));
                            if c != gcls {
                                assert(entry_class(bof, entries0[n - 1]) != c);
                                assert(class_count(entries0, bof, c, n) == class_count(
                                    entries0,
                                    bof,
                                    c,
                                    n - 1,
                                ));
                            }
                        }
                        assert forall|i: int| 0 <= i < self.entries@.len() implies
                            #[trigger] self.entry_ok(i) by {
                            assert(old(self).entry_ok(i));
                            let e2 = self.entries@[i];
                            let evi = e2.variant.spec_index();
                            if <T::Variant as Variant>::spec_size(evi) != 0 {
                                let ec = bof[evi] as int;
                                lemma_class_count_prefix(self.entries@, entries0, bof, ec, i);
                                if ec == gcls {
                                    let ei = e2.index as int;
                                    lemma_class_count_strict(entries0, bof, gcls, i, n - 1);
                                    assert(ei < index as int);
                                    assert((ei + 1) * s <= (index as int) * s)
                                        by (nonlinear_arith)
                                        requires
                                            ei + 1 <= index as int,
                                            s >= 1,
                                    ;
                                    assert((ei + 1) * s == ei * s + s) by (nonlinear_arith);
                                    assert(ei * s >= 0) by (nonlinear_arith)
                                        requires
                                            ei >= 0,
                                            s >= 1,
                                    ;
                                    assert(nb.bytes().subrange(ei * s, ei * s + s)
                                        =~= bucket0.bytes().subrange(ei * s, ei * s + s));
                                }
                            }
                        }
                        assert(self.model@ =~= old(self)@.drop_last());
                    }
                    Some(value)
                }
            },
        }
    }

    /// Tears the container down: drains every live value through `pop`,
    /// so that any value-level cleanup of stored payloads runs exactly
    /// once per element, then releases every bucket's backing storage.
    /// Afterwards the container is empty and every bucket's capacity is
    /// back to zero — nothing is left allocated.
    pub fn teardown(&mut self)
        requires
            old(self).wf(),
        ensures
            final(self).wf(),
            final(self)@ == Seq::<T>::empty(),
            final(self).num_classes() == old(self).num_classes(),
            forall|c: int|
                0 <= c < old(self).num_classes() ==> #[trigger] final(self).class_len_bytes(c)
                    == 0 && final(self).class_cap_bytes(c) == 0,
    {
        while !self.is_empty()
            invariant
                self.wf(),
                self.num_classes() == old(self).num_classes(),
            decreases self@.len(),
        {
            let _popped = self.pop();
        }
        proof {
            assert(self.entries@.len() == 0);
        }
        let ncls = self.buckets.len();
        let mut c: usize = 0;
        while c < ncls
            invariant
                self.wf(),
                self@.len() == 0,
                self.num_classes() == old(self).num_classes(),
                ncls as int == self.buckets@.len(),
                c <= ncls,
                forall|j: int|
                    0 <= j < c ==> #[trigger] self.buckets@[j].len_bytes() == 0
                        && self.buckets@[j].cap_bytes() == 0,
            decreases ncls - c,
        {
            let ghost buckets0 = self.buckets@;
            let mut bv = self.buckets.remove(c);
            proof {
                assert(class_count(
                    self.entries@,
                    self.registry.bucket_of@,
                    c as int,
                    self.entries@.len() as int,
                ) == 0);
            }
            bv.deallocate();
            self.buckets.insert(c, bv);
            proof {
                assert(self.buckets@ =~= buckets0.update(c as int, bv));
                assert forall|cl: int| 0 <= cl < self.buckets@.len() implies (
                #[trigger] self.buckets@[cl]).len_bytes() == class_count(
                    self.entries@,
                    self.registry.bucket_of@,
                    cl,
                    self.entries@.len() as int,
                ) * (self.registry.classes@[cl] as int) by {
                    assert(class_count(
                        self.entries@,
                        self.registry.bucket_of@,
                        cl,
                        self.entries@.len() as int,
                    ) == 0);
                }
                assert forall|cl: int|
                    0 <= cl < self.buckets@.len() && self.registry.classes@[cl] > 0 implies (
                #[trigger] self.buckets@[cl]).cap_bytes() % (self.registry.classes@[cl] as int)
                    == 0 by {
                    vstd::arithmetic::div_mod::lemma_mod_multiples_basic(
                        0,
                        self.registry.classes@[cl] as int,
                    );
                }
            }
            c = c + 1;
        }
        proof {
            assert(self.model@ =~= Seq::<T>::empty());
        }
    }

    /// The number of live values.
    pub fn len(&self) -> (n: usize)
        requires
            self.wf(),
        ensures
            n == self@.len(),
    {
        self.entries.len()
    }

    /// Whether the container holds no values.
    pub fn is_empty(&self) -> (r: bool)
        requires
            self.wf(),
        ensures
            r <==> self@.len() == 0,
    {
        self.entries.is_empty()
    }

    /// The capacity of the entry log, never below the number of live
    /// values. Bucket capacities are not separately exposed.
    pub fn capacity(&self) -> (n: usize)
        requires
            self.wf(),
        ensures
            n >= self@.len(),
    {
        vec_capacity(&self.entries)
    }

    /// Every variant's size class is one of the container's classes.
    pub proof fn lemma_class_of_range(&self, v: T::Variant)
        requires
            self.wf(),
            0 <= v.spec_index() < <T::Variant as Variant>::spec_count(),
        ensures
            0 <= self.class_of(v) < self.num_classes(),
            self.class_stride(self.class_of(v)) == variant_sizes::<T>()[v.spec_index()],
    {
    }

    /// Bucket sharing: two variants with equal payload size are stored in
    /// the same bucket, and conversely all variants stored in one bucket
    /// have payloads of one size — the bucket's stride.
    pub proof fn lemma_bucket_sharing(&self, v: T::Variant, w: T::Variant)
        requires
            self.wf(),
            0 <= v.spec_index() < <T::Variant as Variant>::spec_count(),
            0 <= w.spec_index() < <T::Variant as Variant>::spec_count(),
        ensures
            <T::Variant as Variant>::spec_size(v.spec_index()) == <T::Variant as Variant>::spec_size(
                w.spec_index(),
            ) ==> self.class_of(v) == self.class_of(w),
            self.class_of(v) == self.class_of(w) ==> variant_sizes::<T>()[v.spec_index()]
                == variant_sizes::<T>()[w.spec_index()],
    {
        crate::registry::lemma_equal_sizes_share_class(
            self.registry,
            variant_sizes::<T>(),
            v.spec_index(),
            w.spec_index(),
        );
    }
}

impl<T: Packable> Default for Packed<T> {
    /// Creates a new, empty container, as [`Packed::new`] does.
    fn default() -> (p: Self)
        ensures
            p.wf(),
            p@ == Seq::<T>::empty(),
    {
        Self::new()
    }
}

} // verus!
