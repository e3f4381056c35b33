//! Tags and errors of the codec.

use vstd::prelude::*;

verus! {

/// The kind of a value. Each tag is one byte on the wire.
#[derive(Clone, Copy, Debug, PartialEq, Eq, Structural)]
pub enum Tag {
    Bool,
    U8,
    S8,
    U16,
    S16,
    U32,
    S32,
    U64,
    S64,
    F32,
    F64,
    String,
    Bytes,
    Struct,
    List,
    /// A map from string keys to values.
    Dict,
    Array,
}

/// Everything that can go wrong while encoding or decoding.
#[derive(Clone, Copy, Debug, PartialEq, Eq, Structural)]
pub enum Error {
    /// The input ends early; the payload says by how many bytes.
    Pending(usize),
    /// The byte is not a tag.
    InvalidTag(u8),
    /// A value of another kind stands where this one was expected.
    TypeMismatch,
    /// A string payload is not UTF-8.
    InvalidUtf8,
    /// A container's header contradicts its length.
    Malformed,
    /// A blob or a container body is longer than a `u32` can say.
    BlobTooLarge(usize),
    /// An array stride of zero, or one longer than a `u32` can say.
    InvalidStride(usize),
    /// No further byte fits into the container.
    ContainerFull,
}

impl Tag {
    /// The byte that stands for the tag on the wire.
    pub open spec fn byte(self) -> u8 {
        match self {
            Tag::Bool => 0x02,
            Tag::U8 => 0x03,
            Tag::S8 => 0x04,
            Tag::U16 => 0x05,
            Tag::S16 => 0x06,
            Tag::U32 => 0x07,
            Tag::S32 => 0x08,
            Tag::U64 => 0x09,
            Tag::S64 => 0x0A,
            Tag::F32 => 0x0B,
            Tag::F64 => 0x0C,
            Tag::String => 0x10,
            Tag::Bytes => 0x11,
            Tag::Struct => 0x12,
            Tag::List => 0x20,
            Tag::Dict => 0x21,
            Tag::Array => 0x22,
        }
    }

    /// The tag a byte stands for, if any.
    pub open spec fn of_byte(b: u8) -> Option<Tag> {
        if b == 0x02 {
            Some(Tag::Bool)
        } else if b == 0x03 {
            Some(Tag::U8)
        } else if b == 0x04 {
            Some(Tag::S8)
        } else if b == 0x05 {
            Some(Tag::U16)
        } else if b == 0x06 {
            Some(Tag::S16)
        } else if b == 0x07 {
            Some(Tag::U32)
        } else if b == 0x08 {
            Some(Tag::S32)
        } else if b == 0x09 {
            Some(Tag::U64)
        } else if b == 0x0A {
            Some(Tag::S64)
        } else if b == 0x0B {
            Some(Tag::F32)
        } else if b == 0x0C {
            Some(Tag::F64)
        } else if b == 0x10 {
            Some(Tag::String)
        } else if b == 0x11 {
            Some(Tag::Bytes)
        } else if b == 0x12 {
            Some(Tag::Struct)
        } else if b == 0x20 {
            Some(Tag::List)
        } else if b == 0x21 {
            Some(Tag::Dict)
        } else if b == 0x22 {
            Some(Tag::Array)
        } else {
            None
        }
    }

    /// Payload width of a fixed-width scalar; `None` for the tags whose
    /// payload carries a length prefix.
    pub open spec fn width(self) -> Option<int> {
        match self {
            Tag::Bool | Tag::U8 | Tag::S8 => Some(1),
            Tag::U16 | Tag::S16 => Some(2),
            Tag::U32 | Tag::S32 | Tag::F32 => Some(4),
            Tag::U64 | Tag::S64 | Tag::F64 => Some(8),
            _ => None,
        }
    }

    /// The tag's wire byte.
    pub fn to_u8(self) -> (b: u8)
        ensures
            b == self.byte(),
    {
        match self {
            Tag::Bool => 0x02,
            Tag::U8 => 0x03,
            Tag::S8 => 0x04,
            Tag::U16 => 0x05,
            Tag::S16 => 0x06,
            Tag::U32 => 0x07,
            Tag::S32 => 0x08,
            Tag::U64 => 0x09,
            Tag::S64 => 0x0A,
            Tag::F32 => 0x0B,
            Tag::F64 => 0x0C,
            Tag::String => 0x10,
            Tag::Bytes => 0x11,
            Tag::Struct => 0x12,
            Tag::List => 0x20,
            Tag::Dict => 0x21,
            Tag::Array => 0x22,
        }
    }

    /// Reads a wire byte back into its tag.
    pub fn from_u8(b: u8) -> (r: Option<Tag>)
        ensures
            r == Tag::of_byte(b),
    {
        match b {
            0x02 => Some(Tag::Bool),
            0x03 => Some(Tag::U8),
            0x04 => Some(Tag::S8),
            0x05 => Some(Tag::U16),
            0x06 => Some(Tag::S16),
            0x07 => Some(Tag::U32),
            0x08 => Some(Tag::S32),
            0x09 => Some(Tag::U64),
            0x0A => Some(Tag::S64),
            0x0B => Some(Tag::F32),
            0x0C => Some(Tag::F64),
            0x10 => Some(Tag::String),
            0x11 => Some(Tag::Bytes),
            0x12 => Some(Tag::Struct),
            0x20 => Some(Tag::List),
            0x21 => Some(Tag::Dict),
            0x22 => Some(Tag::Array),
            _ => None,
        }
    }

    /// Payload width in bytes of a fixed-width scalar.
    pub fn fixed_width(self) -> (r: Option<usize>)
        ensures
            match self.width() {
                Some(w) => r == Some(w as usize),
                None => r is None,
            },
    {
        match self {
            Tag::Bool | Tag::U8 | Tag::S8 => Some(1),
            Tag::U16 | Tag::S16 => Some(2),
            Tag::U32 | Tag::S32 | Tag::F32 => Some(4),
            Tag::U64 | Tag::S64 | Tag::F64 => Some(8),
            _ => None,
        }
    }
}

/// A byte and the tag it stands for name each other.
pub proof fn lemma_tag_byte_round_trip(tag: Tag)
    ensures
        Tag::of_byte(tag.byte()) == Some(tag),
{
}

/// Only a tag's own byte reads back as that tag.
pub proof fn lemma_tag_of_byte_exact(b: u8)
    ensures
        Tag::of_byte(b) matches Some(t) ==> t.byte() == b,
{
}

} // verus!
