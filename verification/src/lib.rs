//! Compact storage for values of a closed sum type.
//!
//! A value of a sum type is exactly one of `N` variants, each with a
//! fixed-size payload. Storing such values in an ordinary vector wastes
//! space: every slot is as large as the largest variant. The containers in
//! this crate instead keep one growable byte arena per distinct payload
//! size ("size class") and a log of `(variant, position)` entries that
//! records the logical push order, so each payload occupies exactly its own
//! footprint while push and pop still behave as a strict LIFO stack.
//!
//! The crate is layered as:
//! - [`byte_vec::ByteVec`]: an untyped, growable byte arena that tracks a
//!   length and a capacity in bytes and knows nothing about element types;
//! - [`byte_vec::WrapVec`]: a stride-aware view binding an arena to a fixed
//!   element size and alignment, with an amortized doubling growth policy;
//! - [`registry::Registry`]: the construction-time computation that
//!   deduplicates variant sizes into ascending size classes and maps every
//!   variant to its class;
//! - [`pack::Pack`] and [`packed::Packed`]: the containers themselves,
//!   differing only in how a popped slot is removed from its bucket.
//!
//! The inspection of a concrete sum type — its variant count, per-variant
//! sizes and alignments, and the conversion between a value and its raw
//! payload bytes — is not done here. It is supplied per type through the
//! [`Packable`] and [`Variant`] traits, whose contracts state exactly what
//! the containers rely on: a total tag-to-index mapping, descriptors whose
//! alignment never exceeds a nonzero payload size, and an encode/decode
//! pair that round-trips every value.

use vstd::prelude::*;

pub mod byte_vec;
pub mod pack;
pub mod packed;
pub mod registry;
pub mod sample;
pub mod store;

verus! {

/// The tag identifying which variant a sum-type value currently holds,
/// together with the static layout of every variant.
///
/// `spec_count`, `spec_size`, `spec_align` and `spec_index` are the
/// mathematical layout of the sum type; the executable methods are obliged
/// by their `ensures` to agree with it. `as_index` maps every tag into
/// `0 .. spec_count()`, and `from_index` produces a tag for every index in
/// that range, so the mapping is total. For a variant with a nonzero
/// payload size, the alignment never exceeds the size, which lets a bucket
/// of stride `size` hold it.
pub trait Variant: Sized + Copy {
    /// Number of variants of the sum type.
    spec fn spec_count() -> nat;

    /// Payload size in bytes of the variant with index `i`.
    spec fn spec_size(i: int) -> nat;

    /// Payload alignment of the variant with index `i`.
    spec fn spec_align(i: int) -> nat;

    /// The index of this tag.
    spec fn spec_index(&self) -> int;

    /// Number of variants of the sum type.
    fn count() -> (n: usize)
        ensures
            n as nat == Self::spec_count(),
    ;

    /// The index of this tag, always within `0 .. count()`.
    fn as_index(&self) -> (i: usize)
        ensures
            i as int == self.spec_index(),
            0 <= self.spec_index() < Self::spec_count(),
    ;

    /// Payload size and alignment of this tag's variant. A nonzero size is
    /// at least the alignment.
    fn size_align(&self) -> (r: (usize, usize))
        ensures
            r.0 as nat == Self::spec_size(self.spec_index()),
            r.1 as nat == Self::spec_align(self.spec_index()),
            r.0 > 0 ==> r.1 <= r.0,
    ;

    /// The tag with index `i`.
    fn from_index(i: usize) -> (tag: Self)
        requires
            (i as nat) < Self::spec_count(),
        ensures
            tag.spec_index() == i as int,
    ;
}

/// A sum type whose values can be taken apart into a variant tag plus raw
/// payload bytes and rebuilt from them.
///
/// `spec_decode` is the mathematical meaning of a stored payload: the value
/// that the bytes of a given variant stand for. `encode` must produce
/// exactly `spec_size` bytes that decode back to the encoded value, and
/// `decode` must realize `spec_decode`; this round trip is what lets the
/// containers return popped values byte-for-byte equal to what was pushed.
pub trait Packable: Sized {
    /// The tag type enumerating this sum type's variants.
    type Variant: Variant;

    /// The tag of this value.
    spec fn spec_variant(&self) -> Self::Variant;

    /// The value that `bytes` of variant `tag` stand for.
    spec fn spec_decode(tag: Self::Variant, bytes: Seq<u8>) -> Self;

    /// Determine this value's tag without consuming it.
    fn variant(&self) -> (tag: Self::Variant)
        ensures
            tag == self.spec_variant(),
    ;

    /// Consume the value, yielding its payload bytes: exactly the variant's
    /// size many, and decoding them yields the value back.
    fn encode(self) -> (bytes: Vec<u8>)
        ensures
            bytes@.len() == <Self::Variant as Variant>::spec_size(
                self.spec_variant().spec_index(),
            ),
            Self::spec_decode(self.spec_variant(), bytes@) == self,
    ;

    /// Rebuild a value of variant `tag` from its payload bytes.
    fn decode(tag: Self::Variant, bytes: &Vec<u8>) -> (value: Self)
        requires
            bytes@.len() == <Self::Variant as Variant>::spec_size(tag.spec_index()),
        ensures
            value == Self::spec_decode(tag, bytes@),
    ;
}

} // verus!
