//! The wire format, stated over byte sequences.
//!
//! A value is `[tag][payload]` for the fixed-width scalars and
//! `[tag][byte_len: u32 LE][payload]` for everything else. The functions here
//! say what the bytes of a value are and what a reader finds at a position;
//! the encoder and the decoder are verified against them.

use vstd::prelude::*;
use vstd::bytes::*;
use vstd::utf8::valid_utf8;
use crate::neopack::types::{Tag, Error};

verus! {

/// A value as the decoder reports it. Containers are given by the bytes of
/// their body, which hold further values.
pub enum Value {
    Bool(bool),
    U8(u8),
    S8(i8),
    U16(u16),
    S16(i16),
    U32(u32),
    S32(i32),
    U64(u64),
    S64(i64),
    /// The IEEE 754 bit pattern of a single-precision number.
    F32(u32),
    /// The IEEE 754 bit pattern of a double-precision number.
    F64(u64),
    /// The UTF-8 bytes of a string.
    String(Seq<u8>),
    Bytes(Seq<u8>),
    Struct(Seq<u8>),
    /// The concatenated encodings of the elements.
    List(Seq<u8>),
    /// The concatenated encodings of the keys and values, in turn.
    Dict(Seq<u8>),
    /// Item tag, stride, and the items' payloads one after the other.
    Array(Tag, int, Seq<u8>),
}

/// Length of the length prefix of a blob or container.
pub const LEN_WIDTH: usize = 4;

/// Length of the header that opens an array body: item tag and stride.
pub const ARRAY_HEADER: usize = 5;

impl Value {
    pub open spec fn tag(self) -> Tag {
        match self {
            Value::Bool(_) => Tag::Bool,
            Value::U8(_) => Tag::U8,
            Value::S8(_) => Tag::S8,
            Value::U16(_) => Tag::U16,
            Value::S16(_) => Tag::S16,
            Value::U32(_) => Tag::U32,
            Value::S32(_) => Tag::S32,
            Value::U64(_) => Tag::U64,
            Value::S64(_) => Tag::S64,
            Value::F32(_) => Tag::F32,
            Value::F64(_) => Tag::F64,
            Value::String(_) => Tag::String,
            Value::Bytes(_) => Tag::Bytes,
            Value::Struct(_) => Tag::Struct,
            Value::List(_) => Tag::List,
            Value::Dict(_) => Tag::Dict,
            Value::Array(_, _, _) => Tag::Array,
        }
    }

    /// The bytes that follow the tag and, where there is one, the length
    /// prefix.
    pub open spec fn payload(self) -> Seq<u8> {
        match self {
            Value::Bool(v) => seq![if v { 1u8 } else { 0u8 }],
            Value::U8(v) => seq![v],
            Value::S8(v) => seq![v as u8],
            Value::U16(v) => spec_u16_to_le_bytes(v),
            Value::S16(v) => spec_u16_to_le_bytes(v as u16),
            Value::U32(v) => spec_u32_to_le_bytes(v),
            Value::S32(v) => spec_u32_to_le_bytes(v as u32),
            Value::U64(v) => spec_u64_to_le_bytes(v),
            Value::S64(v) => spec_u64_to_le_bytes(v as u64),
            Value::F32(v) => spec_u32_to_le_bytes(v),
            Value::F64(v) => spec_u64_to_le_bytes(v),
            Value::String(b) => b,
            Value::Bytes(b) => b,
            Value::Struct(b) => b,
            Value::List(b) => b,
            Value::Dict(b) => b,
            Value::Array(item, stride, items) => array_header(item, stride) + items,
        }
    }

    /// What the encoder accepts: lengths that a `u32` can say, strings in
    /// UTF-8, arrays of at least one item whose items all have the stride's
    /// length.
    pub open spec fn valid(self) -> bool {
        &&& self.payload().len() <= u32::MAX
        &&& self matches Value::String(b) ==> valid_utf8(b)
        &&& self matches Value::Array(_, stride, items) ==> 0 < stride <= u32::MAX && items.len()
            > 0 && items.len() % (stride as nat) == 0
    }

    /// The bytes of the value on the wire.
    pub open spec fn encoding(self) -> Seq<u8> {
        framed(self.tag(), self.payload())
    }

    /// The value that a payload holds under a tag. A scalar is read from the
    /// first bytes of the payload.
    pub open spec fn from_payload(tag: Tag, p: Seq<u8>) -> Result<Value, Error> {
        match tag.width() {
            Some(w) => if p.len() < w {
                Err(Error::Malformed)
            } else {
                Ok(scalar_value(tag, p.subrange(0, w)))
            },
            None => match tag {
                Tag::String => if valid_utf8(p) {
                    Ok(Value::String(p))
                } else {
                    Err(Error::InvalidUtf8)
                },
                Tag::Bytes => Ok(Value::Bytes(p)),
                Tag::Struct => Ok(Value::Struct(p)),
                Tag::List => Ok(Value::List(p)),
                Tag::Dict => Ok(Value::Dict(p)),
                _ => array_value(p),
            },
        }
    }
}

/// The header that opens an array body.
pub open spec fn array_header(item: Tag, stride: int) -> Seq<u8> {
    seq![item.byte()] + spec_u32_to_le_bytes(stride as u32)
}

/// Tag, length prefix where the tag asks for one, and payload.
pub open spec fn framed(tag: Tag, payload: Seq<u8>) -> Seq<u8> {
    if tag.width() is Some {
        seq![tag.byte()] + payload
    } else {
        seq![tag.byte()] + spec_u32_to_le_bytes(payload.len() as u32) + payload
    }
}

/// The scalar that `w` payload bytes hold under a fixed-width tag.
pub open spec fn scalar_value(tag: Tag, p: Seq<u8>) -> Value {
    match tag {
        Tag::Bool => Value::Bool(p[0] != 0),
        Tag::U8 => Value::U8(p[0]),
        Tag::S8 => Value::S8(p[0] as i8),
        Tag::U16 => Value::U16(spec_u16_from_le_bytes(p)),
        Tag::S16 => Value::S16(spec_u16_from_le_bytes(p) as i16),
        Tag::U32 => Value::U32(spec_u32_from_le_bytes(p)),
        Tag::S32 => Value::S32(spec_u32_from_le_bytes(p) as i32),
        Tag::U64 => Value::U64(spec_u64_from_le_bytes(p)),
        Tag::S64 => Value::S64(spec_u64_from_le_bytes(p) as i64),
        Tag::F32 => Value::F32(spec_u32_from_le_bytes(p)),
        _ => Value::F64(spec_u64_from_le_bytes(p)),
    }
}

/// The array that a body holds: its header must be whole, name a tag and a
/// stride above zero, and the rest must be whole items, at least one.
pub open spec fn array_value(p: Seq<u8>) -> Result<Value, Error> {
    if p.len() < ARRAY_HEADER {
        Err(Error::Malformed)
    } else {
        match Tag::of_byte(p[0]) {
            None => Err(Error::InvalidTag(p[0])),
            Some(item) => {
                let stride = spec_u32_from_le_bytes(p.subrange(1, ARRAY_HEADER as int));
                if stride == 0 || p.len() == ARRAY_HEADER || (p.len() - ARRAY_HEADER) % (
                stride as int) != 0 {
                    Err(Error::Malformed)
                } else {
                    Ok(Value::Array(item, stride as int, p.subrange(ARRAY_HEADER as int, p.len() as int)))
                }
            },
        }
    }
}

/// What asking for `n` bytes at `pos` gives: the bytes, or by how many the
/// input falls short.
pub open spec fn take(s: Seq<u8>, pos: int, n: int) -> Result<Seq<u8>, Error> {
    if s.len() - pos < n {
        Err(Error::Pending((n - (s.len() - pos)) as usize))
    } else {
        Ok(s.subrange(pos, pos + n))
    }
}

/// The tag at `pos`.
pub open spec fn tag_at(s: Seq<u8>, pos: int) -> Result<Tag, Error> {
    if s.len() - pos < 1 {
        Err(Error::Pending(1))
    } else {
        match Tag::of_byte(s[pos]) {
            Some(t) => Ok(t),
            None => Err(Error::InvalidTag(s[pos])),
        }
    }
}

/// The tag at `pos`, which must be `tag`.
pub open spec fn expect_tag(s: Seq<u8>, pos: int, tag: Tag) -> Result<Tag, Error> {
    match tag_at(s, pos) {
        Ok(t) => if t == tag {
            Ok(t)
        } else {
            Err(Error::TypeMismatch)
        },
        Err(e) => Err(e),
    }
}

/// The payload that follows a tag at `pos`: as long as the tag's width, or as
/// the length prefix says.
pub open spec fn payload_after(s: Seq<u8>, pos: int, tag: Tag) -> Result<Seq<u8>, Error> {
    match tag.width() {
        Some(w) => take(s, pos + 1, w),
        None => match take(s, pos + 1, LEN_WIDTH as int) {
            Ok(l) => take(s, pos + 1 + LEN_WIDTH, spec_u32_from_le_bytes(l) as int),
            Err(e) => Err(e),
        },
    }
}

/// The payload of the value at `pos`, which must carry `tag`.
pub open spec fn payload_at(s: Seq<u8>, pos: int, tag: Tag) -> Result<Seq<u8>, Error> {
    match expect_tag(s, pos, tag) {
        Ok(_) => payload_after(s, pos, tag),
        Err(e) => Err(e),
    }
}

/// Bytes that a value with this tag and payload takes on the wire.
pub open spec fn framed_len(tag: Tag, payload: Seq<u8>) -> int {
    if tag.width() is Some {
        1 + payload.len() as int
    } else {
        1 + LEN_WIDTH as int + payload.len() as int
    }
}

/// The length on the wire of the value at `pos`, whatever its payload holds.
pub open spec fn value_len(s: Seq<u8>, pos: int) -> Result<int, Error> {
    match tag_at(s, pos) {
        Ok(t) => match payload_after(s, pos, t) {
            Ok(p) => Ok(framed_len(t, p)),
            Err(e) => Err(e),
        },
        Err(e) => Err(e),
    }
}

/// The value at `pos` and its length on the wire.
pub open spec fn parse(s: Seq<u8>, pos: int) -> Result<(Value, int), Error> {
    match tag_at(s, pos) {
        Ok(t) => match payload_after(s, pos, t) {
            Ok(p) => match Value::from_payload(t, p) {
                Ok(v) => Ok((v, framed_len(t, p))),
                Err(e) => Err(e),
            },
            Err(e) => Err(e),
        },
        Err(e) => Err(e),
    }
}

} // verus!
