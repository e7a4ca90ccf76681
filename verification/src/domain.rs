//! The scalar types that identify things in a font, and the order they are kept in.

use vstd::prelude::*;

verus! {

/// A value that stands for one unsigned 32-bit integer, its key.
///
/// Sets of such values are kept in ascending order of key, and two values
/// with the same key are the same value.
pub trait Domain: Copy {
    /// The integer that this value stands for.
    spec fn key(self) -> int;

    /// The key as a machine integer.
    fn to_u32(self) -> (r: u32)
        ensures
            r as int == self.key(),
    ;

    /// A value is determined by its key.
    proof fn lemma_key_determines(a: Self, b: Self)
        requires
            a.key() == b.key(),
        ensures
            a == b,
    ;
}

impl Domain for u16 {
    open spec fn key(self) -> int {
        self as int
    }

    fn to_u32(self) -> (r: u32) {
        self as u32
    }

    proof fn lemma_key_determines(a: Self, b: Self) {
    }
}

impl Domain for u32 {
    open spec fn key(self) -> int {
        self as int
    }

    fn to_u32(self) -> (r: u32) {
        self
    }

    proof fn lemma_key_determines(a: Self, b: Self) {
    }
}

/// A 16-bit glyph identifier.
#[derive(Copy, Clone, Debug, PartialEq, Eq, Structural, PartialOrd, Ord, Hash)]
pub struct GlyphId16 {
    pub id: u16,
}

impl GlyphId16 {
    /// The identifier that every font gives to its "missing glyph".
    pub fn notdef() -> (r: Self)
        ensures
            r.id == 0,
    {
        GlyphId16 { id: 0 }
    }

    /// The glyph with the given identifier.
    pub fn new(raw: u16) -> (r: Self)
        ensures
            r.id == raw,
    {
        GlyphId16 { id: raw }
    }

    /// The identifier as a plain integer.
    pub fn to_u16(self) -> (r: u16)
        ensures
            r == self.id,
    {
        self.id
    }
}

impl Default for GlyphId16 {
    fn default() -> (r: Self)
        ensures
            r.id == 0,
    {
        GlyphId16 { id: 0 }
    }
}

impl Domain for GlyphId16 {
    open spec fn key(self) -> int {
        self.id as int
    }

    fn to_u32(self) -> (r: u32) {
        self.id as u32
    }

    proof fn lemma_key_determines(a: Self, b: Self) {
    }
}

/// A four-byte identifier of a script, a language system or a feature.
///
/// Two tags are equal exactly when their four bytes are.
#[derive(Copy, Clone, Debug, PartialEq, Eq, Structural, PartialOrd, Ord, Hash)]
pub struct Tag {
    pub b0: u8,
    pub b1: u8,
    pub b2: u8,
    pub b3: u8,
}

impl Tag {
    /// The tag made of the four given bytes, in order.
    pub fn new(src: &[u8; 4]) -> (r: Self)
        ensures
            r == (Tag { b0: src[0], b1: src[1], b2: src[2], b3: src[3] }),
    {
        Tag { b0: src[0], b1: src[1], b2: src[2], b3: src[3] }
    }

    /// The four bytes of the tag, in order.
    pub fn to_be_bytes(self) -> (r: [u8; 4])
        ensures
            r[0] == self.b0,
            r[1] == self.b1,
            r[2] == self.b2,
            r[3] == self.b3,
    {
        [self.b0, self.b1, self.b2, self.b3]
    }
}

impl Domain for Tag {
    /// The four bytes read as one big-endian number.
    open spec fn key(self) -> int {
        self.b0 as int * 0x100_0000 + self.b1 as int * 0x1_0000 + self.b2 as int * 0x100
            + self.b3 as int
    }

    fn to_u32(self) -> (r: u32) {
        self.b0 as u32 * 0x100_0000 + self.b1 as u32 * 0x1_0000 + self.b2 as u32 * 0x100
            + self.b3 as u32
    }

    proof fn lemma_key_determines(a: Self, b: Self) {
    }
}

} // verus!
