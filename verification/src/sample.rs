//! Example sum types with hand-written layout providers and codecs.
//!
//! The containers consume a sum type only through the [`Packable`] and
//! [`Variant`] traits; this module shows two such types written by hand,
//! the way a build-time generator would otherwise produce them. Payloads
//! are laid out little-endian, field after field. The types also give the
//! integration tests something concrete to store.

use vstd::prelude::*;

verus! {

use crate::Packable;
use crate::Variant;
use vstd::arithmetic::div_mod::lemma_fundamental_div_mod;

/// A sum type with two 4-byte variants of different shape and alignment,
/// plus a variant with no payload at all: `A` and `B` share one size
/// class, and `C` exercises zero-sized storage.
#[derive(Debug, Clone, Copy, PartialEq, Eq, Structural)]
pub enum Sample {
    /// Four single bytes: size 4, alignment 1.
    A(u8, u8, u8, u8),
    /// Two 16-bit fields: size 4, alignment 2.
    B { foo: u16, bar: u16 },
    /// No payload: size 0.
    C,
}

/// The tags of [`Sample`].
#[derive(Debug, Clone, Copy, PartialEq, Eq, Structural)]
pub enum SampleTag {
    /// Tag of [`Sample::A`].
    A,
    /// Tag of [`Sample::B`].
    B,
    /// Tag of [`Sample::C`].
    C,
}

impl Variant for SampleTag {
    open spec fn spec_count() -> nat {
        3
    }

    open spec fn spec_size(i: int) -> nat {
        if i == 0 {
            4
        } else if i == 1 {
            4
        } else {
            0
        }
    }

    open spec fn spec_align(i: int) -> nat {
        if i == 0 {
            1
        } else if i == 1 {
            2
        } else {
            1
        }
    }

    open spec fn spec_index(&self) -> int {
        match self {
            SampleTag::A => 0,
            SampleTag::B => 1,
            SampleTag::C => 2,
        }
    }

    fn count() -> (n: usize) {
        3
    }

    fn as_index(&self) -> (i: usize) {
        match self {
            SampleTag::A => 0,
            SampleTag::B => 1,
            SampleTag::C => 2,
        }
    }

    fn size_align(&self) -> (r: (usize, usize)) {
        match self {
            SampleTag::A => (4, 1),
            SampleTag::B => (4, 2),
            SampleTag::C => (0, 1),
        }
    }

    fn from_index(i: usize) -> (tag: Self) {
        if i == 0 {
            SampleTag::A
        } else if i == 1 {
            SampleTag::B
        } else {
            SampleTag::C
        }
    }
}

impl Packable for Sample {
    type Variant = SampleTag;

    open spec fn spec_variant(&self) -> SampleTag {
        match self {
            Sample::A(_, _, _, _) => SampleTag::A,
            Sample::B { .. } => SampleTag::B,
            Sample::C => SampleTag::C,
        }
    }

    open spec fn spec_decode(tag: SampleTag, bytes: Seq<u8>) -> Sample {
        match tag {
            SampleTag::A => Sample::A(bytes[0], bytes[1], bytes[2], bytes[3]),
            SampleTag::B => Sample::B {
                foo: (bytes[0] + 256 * bytes[1]) as u16,
                bar: (bytes[2] + 256 * bytes[3]) as u16,
            },
            SampleTag::C => Sample::C,
        }
    }

    fn variant(&self) -> (tag: SampleTag) {
        match self {
            Sample::A(_, _, _, _) => SampleTag::A,
            Sample::B { .. } => SampleTag::B,
            Sample::C => SampleTag::C,
        }
    }

    fn encode(self) -> (bytes: Vec<u8>) {
        match self {
            Sample::A(a, b, c, d) => {
                let mut out: Vec<u8> = Vec::new();
                out.push(a);
                out.push(b);
                out.push(c);
                out.push(d);
                out
            },
            Sample::B { foo, bar } => {
                let mut out: Vec<u8> = Vec::new();
                out.push((foo % 256) as u8);
                out.push((foo / 256) as u8);
                out.push((bar % 256) as u8);
                out.push((bar / 256) as u8);
                proof {
                    lemma_fundamental_div_mod(foo as int, 256);
                    lemma_fundamental_div_mod(bar as int, 256);
                }
                out
            },
            Sample::C => Vec::new(),
        }
    }

    fn decode(tag: SampleTag, bytes: &Vec<u8>) -> (value: Sample) {
        match tag {
            SampleTag::A => Sample::A(bytes[0], bytes[1], bytes[2], bytes[3]),
            SampleTag::B => {
                let foo: u16 = bytes[0] as u16 + 256 * (bytes[1] as u16);
                let bar: u16 = bytes[2] as u16 + 256 * (bytes[3] as u16);
                Sample::B { foo, bar }
            },
            SampleTag::C => Sample::C,
        }
    }
}

/// A sum type with two 4-byte variants and one 8-byte variant, so its
/// registry holds two size classes with the 4-byte one shared.
#[derive(Debug, Clone, Copy, PartialEq, Eq, Structural)]
pub enum Trio {
    /// One 32-bit field: size 4.
    A(u32),
    /// Two 16-bit fields: size 4.
    B(u16, u16),
    /// One 64-bit field: size 8.
    C(u64),
}

/// The tags of [`Trio`].
#[derive(Debug, Clone, Copy, PartialEq, Eq, Structural)]
pub enum TrioTag {
    /// Tag of [`Trio::A`].
    A,
    /// Tag of [`Trio::B`].
    B,
    /// Tag of [`Trio::C`].
    C,
}

impl Variant for TrioTag {
    open spec fn spec_count() -> nat {
        3
    }

    open spec fn spec_size(i: int) -> nat {
        if i == 0 {
            4
        } else if i == 1 {
            4
        } else {
            8
        }
    }

    open spec fn spec_align(i: int) -> nat {
        if i == 0 {
            4
        } else if i == 1 {
            2
        } else {
            8
        }
    }

    open spec fn spec_index(&self) -> int {
        match self {
            TrioTag::A => 0,
            TrioTag::B => 1,
            TrioTag::C => 2,
        }
    }

    fn count() -> (n: usize) {
        3
    }

    fn as_index(&self) -> (i: usize) {
        match self {
            TrioTag::A => 0,
            TrioTag::B => 1,
            TrioTag::C => 2,
        }
    }

    fn size_align(&self) -> (r: (usize, usize)) {
        match self {
            TrioTag::A => (4, 4),
            TrioTag::B => (4, 2),
            TrioTag::C => (8, 8),
        }
    }

    fn from_index(i: usize) -> (tag: Self) {
        if i == 0 {
            TrioTag::A
        } else if i == 1 {
            TrioTag::B
        } else {
            TrioTag::C
        }
    }
}

impl Packable for Trio {
    type Variant = TrioTag;

    open spec fn spec_variant(&self) -> TrioTag {
        match self {
            Trio::A(_) => TrioTag::A,
            Trio::B(_, _) => TrioTag::B,
            Trio::C(_) => TrioTag::C,
        }
    }

    open spec fn spec_decode(tag: TrioTag, bytes: Seq<u8>) -> Trio {
        match tag {
            TrioTag::A => Trio::A(
                (bytes[0] + 256 * bytes[1] + 65536 * bytes[2] + 16777216 * bytes[3]) as u32,
            ),
            TrioTag::B => Trio::B(
                (bytes[0] + 256 * bytes[1]) as u16,
                (bytes[2] + 256 * bytes[3]) as u16,
            ),
            TrioTag::C => Trio::C(
                (bytes[0] + 256 * bytes[1] + 65536 * bytes[2] + 16777216 * bytes[3] + 4294967296
                    * bytes[4] + 1099511627776 * bytes[5] + 281474976710656 * bytes[6]
                    + 72057594037927936 * bytes[7]) as u64,
            ),
        }
    }

    fn variant(&self) -> (tag: TrioTag) {
        match self {
            Trio::A(_) => TrioTag::A,
            Trio::B(_, _) => TrioTag::B,
            Trio::C(_) => TrioTag::C,
        }
    }

    fn encode(self) -> (bytes: Vec<u8>) {
        match self {
            Trio::A(x) => {
                let mut out: Vec<u8> = Vec::new();
                out.push((x % 256) as u8);
                let x1 = x / 256;
                out.push((x1 % 256) as u8);
                let x2 = x1 / 256;
                out.push((x2 % 256) as u8);
                let x3 = x2 / 256;
                out.push(x3 as u8);
                proof {
                    lemma_fundamental_div_mod(x as int, 256);
                    lemma_fundamental_div_mod(x1 as int, 256);
                    lemma_fundamental_div_mod(x2 as int, 256);
                }
                out
            },
            Trio::B(a, b) => {
                let mut out: Vec<u8> = Vec::new();
                out.push((a % 256) as u8);
                out.push((a / 256) as u8);
                out.push((b % 256) as u8);
                out.push((b / 256) as u8);
                proof {
                    lemma_fundamental_div_mod(a as int, 256);
                    lemma_fundamental_div_mod(b as int, 256);
                }
                out
            },
            Trio::C(x) => {
                let mut out: Vec<u8> = Vec::new();
                out.push((x % 256) as u8);
                let x1 = x / 256;
                out.push((x1 % 256) as u8);
                let x2 = x1 / 256;
                out.push((x2 % 256) as u8);
                let x3 = x2 / 256;
                out.push((x3 % 256) as u8);
                let x4 = x3 / 256;
                out.push((x4 % 256) as u8);
                let x5 = x4 / 256;
                out.push((x5 % 256) as u8);
                let x6 = x5 / 256;
                out.push((x6 % 256) as u8);
                let x7 = x6 / 256;
                out.push(x7 as u8);
                proof {
                    lemma_fundamental_div_mod(x as int, 256);
                    lemma_fundamental_div_mod(x1 as int, 256);
                    lemma_fundamental_div_mod(x2 as int, 256);
                    lemma_fundamental_div_mod(x3 as int, 256);
                    lemma_fundamental_div_mod(x4 as int, 256);
                    lemma_fundamental_div_mod(x5 as int, 256);
                    lemma_fundamental_div_mod(x6 as int, 256);
                }
                out
            },
        }
    }

    fn decode(tag: TrioTag, bytes: &Vec<u8>) -> (value: Trio) {
        match tag {
            TrioTag::A => {
                let x: u32 = bytes[0] as u32 + 256 * (bytes[1] as u32) + 65536 * (
                bytes[2] as u32) + 16777216 * (bytes[3] as u32);
                Trio::A(x)
            },
            TrioTag::B => {
                let a: u16 = bytes[0] as u16 + 256 * (bytes[1] as u16);
                let b: u16 = bytes[2] as u16 + 256 * (bytes[3] as u16);
                Trio::B(a, b)
            },
            TrioTag::C => {
                let x: u64 = bytes[0] as u64 + 256 * (bytes[1] as u64) + 65536 * (
                bytes[2] as u64) + 16777216 * (bytes[3] as u64) + 4294967296 * (bytes[4] as u64)
                    + 1099511627776 * (bytes[5] as u64) + 281474976710656 * (bytes[6] as u64)
                    + 72057594037927936 * (bytes[7] as u64);
                Trio::C(x)
            },
        }
    }
}

} // verus!
