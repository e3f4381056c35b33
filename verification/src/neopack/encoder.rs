//! Writing values as bytes.
//!
//! An [`Encoder`] owns the buffer. A container is written through a scoped
//! builder that borrows the encoder: opening it writes the tag and reserves
//! the four bytes of the length prefix, and `finish` fills them in with the
//! length of the body that was written meanwhile.
//!
//! A builder has to be finished. Until it is, its length prefix holds the
//! largest length there is: what a builder leaves that was dropped without
//! `finish` is no whole container, and a reader that comes to it reports
//! that bytes are wanting. A key of a map that was left without a value is
//! refused by the next call on the map.

use vstd::prelude::*;
use vstd::bytes::{
    spec_u32_to_le_bytes, u16_to_le_bytes, u32_to_le_bytes, u64_to_le_bytes,
};
use vstd::string::StringSliceAdditionalSpecFns;
use crate::neopack::types::{Tag, Error};
use crate::neopack::wire::{Value, LEN_WIDTH, ARRAY_HEADER, framed, array_header};

verus! {

/// A growable buffer that values are encoded into.
pub struct Encoder {
    pub buf: Vec<u8>,
}

/// The largest length that a length prefix can say.
pub const MAX_LEN: usize = 0xFFFF_FFFF;

/// `buf` with the four bytes at `len_offset` replaced by the length of what
/// follows them.
pub open spec fn patched(buf: Seq<u8>, len_offset: int) -> Seq<u8> {
    buf.subrange(0, len_offset) + spec_u32_to_le_bytes(
        (buf.len() - len_offset - LEN_WIDTH) as u32,
    ) + buf.subrange(len_offset + LEN_WIDTH, buf.len() as int)
}

/// What the length prefix of a container holds while the container is
/// open: the largest length there is.
pub const OPEN_LEN: u32 = 0xFFFF_FFFF;

/// The length prefix of a container that is still open. It holds the
/// largest length there is, so that what a builder leaves that was never
/// finished is not read as a whole container: a reader asks for more.
pub open spec fn len_slot() -> Seq<u8> {
    spec_u32_to_le_bytes(OPEN_LEN)
}

/// A vector of one byte.
fn byte_vec(b: u8) -> (v: Vec<u8>)
    ensures
        v@ == seq![b],
{
    let mut v: Vec<u8> = Vec::new();
    v.push(b);
    v
}

impl Encoder {
    /// An encoder that has written nothing.
    pub fn new() -> (e: Self)
        ensures
            e.buf@ == Seq::<u8>::empty(),
    {
        Encoder { buf: Vec::new() }
    }

    /// An encoder that has written nothing, with room set aside for `cap`
    /// bytes. The room is a hint to the allocator and changes nothing of
    /// what is written.
    pub fn with_capacity(cap: usize) -> (e: Self)
        ensures
            e.buf@ == Seq::<u8>::empty(),
    {
        Encoder { buf: Vec::with_capacity(cap) }
    }

    /// The bytes written so far.
    pub fn as_bytes(&self) -> (b: &[u8])
        ensures
            b@ == self.buf@,
    {
        self.buf.as_slice()
    }

    /// Gives up the encoder for the bytes written.
    pub fn into_bytes(self) -> (b: Vec<u8>)
        ensures
            b@ == self.buf@,
    {
        self.buf
    }

    fn write_tag(&mut self, tag: Tag)
        ensures
            final(self).buf@ == old(self).buf@.push(tag.byte()),
    {
        self.buf.push(tag.to_u8());
    }

    fn write_u32_raw(&mut self, v: u32)
        ensures
            final(self).buf@ == old(self).buf@ + spec_u32_to_le_bytes(v),
    {
        let b = u32_to_le_bytes(v);
        self.buf.extend_from_slice(b.as_slice());
    }

    /// Appends bytes as they are.
    fn write_raw(&mut self, data: &[u8])
        ensures
            final(self).buf@ == old(self).buf@ + data@,
    {
        self.buf.extend_from_slice(data);
    }

    /// Writes a fixed-width scalar: the tag, then the payload.
    fn write_scalar(&mut self, tag: Tag, payload: &[u8])
        requires
            tag.width() == Some(payload@.len() as int),
        ensures
            final(self).buf@ == old(self).buf@ + framed(tag, payload@),
    {
        self.write_tag(tag);
        self.buf.extend_from_slice(payload);
        assert(self.buf@ == old(self).buf@ + (seq![tag.byte()] + payload@));
    }

    /// Writes a blob: the tag, the length of the data, the data.
    fn write_blob(&mut self, tag: Tag, data: &[u8]) -> (r: Result<(), Error>)
        requires
            tag.width() is None,
        ensures
            r is Ok <==> data@.len() <= u32::MAX,
            r is Ok ==> final(self).buf@ == old(self).buf@ + framed(tag, data@),
            r matches Err(e) ==> e == Error::BlobTooLarge(data@.len() as usize) && final(self).buf@
                == old(self).buf@,
    {
        if data.len() > MAX_LEN {
            return Err(Error::BlobTooLarge(data.len()));
        }
        self.write_tag(tag);
        self.write_u32_raw(data.len() as u32);
        self.buf.extend_from_slice(data);
        assert(self.buf@ == old(self).buf@ + (seq![tag.byte()] + spec_u32_to_le_bytes(
            data@.len() as u32,
        ) + data@));
        Ok(())
    }

    /// Writes what opens an array: tag, open length slot, item tag, stride.
    fn write_array_head(&mut self, item_tag: Tag, stride: usize) -> (r: Result<usize, Error>)
        ensures
            r is Ok <==> 0 < stride <= u32::MAX,
            r matches Ok(len_offset) ==> len_offset == old(self).buf@.len() + 1 && len_offset
                + LEN_WIDTH + ARRAY_HEADER == final(self).buf@.len() <= usize::MAX && final(self).buf@ == old(self).buf@.push(Tag::Array.byte()) + len_slot() + array_header(
                item_tag,
                stride as int,
            ),
            r matches Err(e) ==> e == Error::InvalidStride(stride) && final(self).buf@ == old(self).buf@,
    {
        if stride == 0 || stride > MAX_LEN {
            return Err(Error::InvalidStride(stride));
        }
        self.write_tag(Tag::Array);
        let len_offset: usize = self.buf.len();
        self.write_u32_raw(OPEN_LEN);
        self.buf.push(item_tag.to_u8());
        self.write_u32_raw(stride as u32);
        assert(self.buf@ == old(self).buf@.push(Tag::Array.byte()) + len_slot() + (
        seq![item_tag.byte()] + spec_u32_to_le_bytes(stride as u32)));
        proof {
            lemma_array_head_len(old(self).buf@, item_tag, stride as int);
        }
        let _len: usize = self.buf.len();
        Ok(len_offset)
    }

    /// Appends a `Bool`.
    pub fn bool(&mut self, v: bool) -> (r: &mut Self)
        ensures
            r.buf@ == old(self).buf@ + Value::Bool(v).encoding(),
            *final(r) == *final(self),
    {
        let p = byte_vec(if v { 1 } else { 0 });
        self.write_scalar(Tag::Bool, p.as_slice());
        self
    }

    /// Appends a `U8`.
    pub fn u8(&mut self, v: u8) -> (r: &mut Self)
        ensures
            r.buf@ == old(self).buf@ + Value::U8(v).encoding(),
            *final(r) == *final(self),
    {
        let p = byte_vec(v);
        self.write_scalar(Tag::U8, p.as_slice());
        self
    }

    /// Appends an `S8`.
    pub fn i8(&mut self, v: i8) -> (r: &mut Self)
        ensures
            r.buf@ == old(self).buf@ + Value::S8(v).encoding(),
            *final(r) == *final(self),
    {
        let p = byte_vec(v as u8);
        self.write_scalar(Tag::S8, p.as_slice());
        self
    }

    /// Appends a `U16`.
    pub fn u16(&mut self, v: u16) -> (r: &mut Self)
        ensures
            r.buf@ == old(self).buf@ + Value::U16(v).encoding(),
            *final(r) == *final(self),
    {
        let p = u16_to_le_bytes(v);
        self.write_scalar(Tag::U16, p.as_slice());
        self
    }

    /// Appends an `S16`.
    pub fn i16(&mut self, v: i16) -> (r: &mut Self)
        ensures
            r.buf@ == old(self).buf@ + Value::S16(v).encoding(),
            *final(r) == *final(self),
    {
        let p = u16_to_le_bytes(v as u16);
        self.write_scalar(Tag::S16, p.as_slice());
        self
    }

    /// Appends a `U32`.
    pub fn u32(&mut self, v: u32) -> (r: &mut Self)
        ensures
            r.buf@ == old(self).buf@ + Value::U32(v).encoding(),
            *final(r) == *final(self),
    {
        let p = u32_to_le_bytes(v);
        self.write_scalar(Tag::U32, p.as_slice());
        self
    }

    /// Appends an `S32`.
    pub fn i32(&mut self, v: i32) -> (r: &mut Self)
        ensures
            r.buf@ == old(self).buf@ + Value::S32(v).encoding(),
            *final(r) == *final(self),
    {
        let p = u32_to_le_bytes(v as u32);
        self.write_scalar(Tag::S32, p.as_slice());
        self
    }

    /// Appends a `U64`.
    pub fn u64(&mut self, v: u64) -> (r: &mut Self)
        ensures
            r.buf@ == old(self).buf@ + Value::U64(v).encoding(),
            *final(r) == *final(self),
    {
        let p = u64_to_le_bytes(v);
        self.write_scalar(Tag::U64, p.as_slice());
        self
    }

    /// Appends an `S64`.
    pub fn i64(&mut self, v: i64) -> (r: &mut Self)
        ensures
            r.buf@ == old(self).buf@ + Value::S64(v).encoding(),
            *final(r) == *final(self),
    {
        let p = u64_to_le_bytes(v as u64);
        self.write_scalar(Tag::S64, p.as_slice());
        self
    }

    /// Appends an `F32`, given by its IEEE 754 bit pattern.
    pub fn f32_bits(&mut self, v: u32) -> (r: &mut Self)
        ensures
            r.buf@ == old(self).buf@ + Value::F32(v).encoding(),
            *final(r) == *final(self),
    {
        let p = u32_to_le_bytes(v);
        self.write_scalar(Tag::F32, p.as_slice());
        self
    }

    /// Appends an `F64`, given by its IEEE 754 bit pattern.
    pub fn f64_bits(&mut self, v: u64) -> (r: &mut Self)
        ensures
            r.buf@ == old(self).buf@ + Value::F64(v).encoding(),
            *final(r) == *final(self),
    {
        let p = u64_to_le_bytes(v);
        self.write_scalar(Tag::F64, p.as_slice());
        self
    }

    /// Appends a `String`.
    pub fn str(&mut self, v: &str) -> (r: Result<&mut Self, Error>)
        ensures
            r is Ok <==> v.spec_bytes().len() <= u32::MAX,
            r matches Ok(e) ==> e.buf@ == old(self).buf@ + Value::String(v.spec_bytes()).encoding()
                && *final(e) == *final(self),
            r matches Err(e) ==> e == Error::BlobTooLarge(v.spec_bytes().len() as usize) && final(self).buf@ == old(self).buf@,
    {
        match self.write_blob(Tag::String, v.as_bytes()) {
            Err(e) => Err(e),
            Ok(_) => Ok(self),
        }
    }

    /// Appends a `Bytes` blob.
    pub fn bytes(&mut self, v: &[u8]) -> (r: Result<&mut Self, Error>)
        ensures
            r is Ok <==> v@.len() <= u32::MAX,
            r matches Ok(e) ==> e.buf@ == old(self).buf@ + Value::Bytes(v@).encoding()
                && *final(e) == *final(self),
            r matches Err(e) ==> e == Error::BlobTooLarge(v@.len() as usize) && final(self).buf@ == old(self).buf@,
    {
        match self.write_blob(Tag::Bytes, v) {
            Err(e) => Err(e),
            Ok(_) => Ok(self),
        }
    }

    /// Appends a `Struct` whose fields the caller has laid out.
    pub fn record_blob(&mut self, v: &[u8]) -> (r: Result<&mut Self, Error>)
        ensures
            r is Ok <==> v@.len() <= u32::MAX,
            r matches Ok(e) ==> e.buf@ == old(self).buf@ + Value::Struct(v@).encoding()
                && *final(e) == *final(self),
            r matches Err(e) ==> e == Error::BlobTooLarge(v@.len() as usize) && final(self).buf@ == old(self).buf@,
    {
        match self.write_blob(Tag::Struct, v) {
            Err(e) => Err(e),
            Ok(_) => Ok(self),
        }
    }

    /// Opens a list. Its elements are written through the builder.
    pub fn list(&mut self) -> (l: ListEncoder<'_>)
        ensures
            l.scope.opened(old(self).buf@, Tag::List),
            *final(self) == *final(l.scope.parent),
    {
        self.write_tag(Tag::List);
        ListEncoder::new(self)
    }

    /// Opens a map. Its entries are written through the builder.
    pub fn map(&mut self) -> (m: MapEncoder<'_>)
        ensures
            m.scope.opened(old(self).buf@, Tag::Dict),
            m.key_end == 0,
            *final(self) == *final(m.scope.parent),
    {
        self.write_tag(Tag::Dict);
        MapEncoder::new(self)
    }

    /// Opens an array of items that are `stride` bytes long each.
    pub fn array(&mut self, item_tag: Tag, stride: usize) -> (r: Result<ArrayEncoder<'_>, Error>)
        ensures
            r is Ok <==> 0 < stride <= u32::MAX,
            r matches Ok(a) ==> a.opened(old(self).buf@, item_tag, stride) && *final(self)
                == *final(a.scope.parent),
            r matches Err(e) ==> e == Error::InvalidStride(stride) && final(self).buf@ == old(self).buf@,
    {
        match self.write_array_head(item_tag, stride) {
            Err(e) => Err(e),
            Ok(len_offset) => {
                proof {
                    lemma_array_head_len(old(self).buf@, item_tag, stride as int);
                }
                let body_start: usize = len_offset + LEN_WIDTH;
                Ok(ArrayEncoder { scope: PatchScope::manual(self, len_offset, body_start), stride })
            },
        }
    }

    /// Opens a record: a `Struct` whose fields are written without tags.
    pub fn record(&mut self) -> (rec: RecordEncoder<'_>)
        ensures
            rec.scope.opened(old(self).buf@, Tag::Struct),
            *final(self) == *final(rec.scope.parent),
    {
        self.write_tag(Tag::Struct);
        RecordEncoder { scope: PatchScope::new(self) }
    }
}

/// What opens an array is ten bytes long, five of them in the body.
proof fn lemma_array_head_len(before: Seq<u8>, item_tag: Tag, stride: int)
    requires
        stride > 0,
    ensures
        (before.push(Tag::Array.byte()) + len_slot() + array_header(item_tag, stride)).len()
            == before.len() + 1 + LEN_WIDTH + ARRAY_HEADER,
        0int % stride == 0,
{
    vstd::bytes::lemma_auto_spec_u32_to_from_le_bytes();
    vstd::arithmetic::div_mod::lemma_small_mod(0, stride as nat);
}

/// The length slot of an open container and the encoder it writes to.
pub struct PatchScope<'a> {
    pub parent: &'a mut Encoder,
    pub len_offset: usize,
    pub body_start_offset: usize,
}

impl<'a> PatchScope<'a> {
    /// The length slot lies within the buffer and the body starts behind it.
    pub open spec fn wf(&self) -> bool {
        &&& self.len_offset + LEN_WIDTH == self.body_start_offset
        &&& self.body_start_offset <= self.parent.buf@.len()
    }

    /// The bytes written into the container so far.
    pub open spec fn body(&self) -> Seq<u8> {
        self.parent.buf@.subrange(self.body_start_offset as int, self.parent.buf@.len() as int)
    }

    /// The scope has just been opened behind `before` for a container tagged
    /// `tag`: the tag and an open length slot stand in the buffer.
    pub open spec fn opened(&self, before: Seq<u8>, tag: Tag) -> bool {
        &&& self.wf()
        &&& self.len_offset == before.len() + 1
        &&& self.parent.buf@ == before.push(tag.byte()) + len_slot()
    }

    /// `post` is `pre` with `bytes` appended to the body.
    pub open spec fn grown(pre: &Self, post: &Self, bytes: Seq<u8>) -> bool {
        &&& post.len_offset == pre.len_offset
        &&& post.body_start_offset == pre.body_start_offset
        &&& post.parent.buf@ == pre.parent.buf@ + bytes
    }

    /// `post` has the offsets and the bytes of `pre`.
    pub open spec fn same(pre: &Self, post: &Self) -> bool {
        &&& post.len_offset == pre.len_offset
        &&& post.body_start_offset == pre.body_start_offset
        &&& post.parent.buf@ == pre.parent.buf@
    }

    /// Reserves the length slot at the end of the parent's buffer.
    fn new(parent: &'a mut Encoder) -> (s: Self)
        ensures
            s.wf(),
            s.len_offset == old(parent).buf@.len(),
            s.parent.buf@ == old(parent).buf@ + len_slot(),
            *final(parent) == *final(s.parent),
    {
        let len_offset: usize = parent.buf.len();
        parent.write_u32_raw(OPEN_LEN);
        let body_start_offset: usize = parent.buf.len();
        proof {
            vstd::bytes::lemma_auto_spec_u32_to_from_le_bytes();
        }
        PatchScope { parent, len_offset, body_start_offset }
    }

    /// A scope over a length slot that the caller has written already.
    fn manual(parent: &'a mut Encoder, len_offset: usize, body_start_offset: usize) -> (s: Self)
        ensures
            s.parent.buf@ == old(parent).buf@,
            s.len_offset == len_offset,
            s.body_start_offset == body_start_offset,
            *final(parent) == *final(s.parent),
    {
        PatchScope { parent, len_offset, body_start_offset }
    }

    /// Writes the length of the body into the length slot.
    fn flush(&mut self) -> (r: Result<(), Error>)
        requires
            old(self).wf(),
        ensures
            final(self).wf(),
            final(self).len_offset == old(self).len_offset,
            final(self).body_start_offset == old(self).body_start_offset,
            *final(final(self).parent) == *final(old(self).parent),
            r is Ok <==> old(self).body().len() <= u32::MAX,
            r is Ok ==> final(self).parent.buf@ == patched(
                old(self).parent.buf@,
                old(self).len_offset as int,
            ),
            r matches Err(e) ==> e == Error::BlobTooLarge(old(self).body().len() as usize)
                && final(self).parent.buf@ == old(self).parent.buf@,
    {
        let current_len: usize = self.parent.buf.len();
        let body_len: usize = current_len - self.body_start_offset;
        if body_len > MAX_LEN {
            return Err(Error::BlobTooLarge(body_len));
        }
        let len_bytes = u32_to_le_bytes(body_len as u32);
        let ghost before = self.parent.buf@;
        self.parent.buf.set(self.len_offset, len_bytes[0]);
        self.parent.buf.set(self.len_offset + 1, len_bytes[1]);
        self.parent.buf.set(self.len_offset + 2, len_bytes[2]);
        self.parent.buf.set(self.len_offset + 3, len_bytes[3]);
        assert(self.parent.buf@ == patched(before, self.len_offset as int));
        Ok(())
    }

    /// Fills in the length slot and hands the encoder back.
    fn finish(self) -> (r: Result<&'a mut Encoder, Error>)
        requires
            self.wf(),
        ensures
            r is Ok <==> self.body().len() <= u32::MAX,
            r matches Ok(e) ==> e.buf@ == patched(old(self.parent).buf@, self.len_offset as int)
                && *final(e) == *final(self.parent),
            r matches Err(e) ==> e == Error::BlobTooLarge(self.body().len() as usize) && final(self.parent).buf@ == old(self.parent).buf@,
    {
        let mut scope = self;
        match scope.flush() {
            Err(e) => Err(e),
            Ok(_) => Ok(scope.parent),
        }
    }
}

/// Builder for the elements of a list.
pub struct ListEncoder<'a> {
    pub scope: PatchScope<'a>,
}

impl<'a> ListEncoder<'a> {
    fn new(parent: &'a mut Encoder) -> (l: Self)
        ensures
            l.scope.wf(),
            l.scope.len_offset == old(parent).buf@.len(),
            l.scope.parent.buf@ == old(parent).buf@ + len_slot(),
            *final(parent) == *final(l.scope.parent),
    {
        ListEncoder { scope: PatchScope::new(parent) }
    }

    /// Appends a `Bool` as the next element.
    pub fn bool(&mut self, v: bool) -> (r: Result<&mut Self, Error>)
        requires
            old(self).scope.wf(),
        ensures
            r matches Ok(l) && l.scope.wf() && PatchScope::grown(
                &old(self).scope,
                &l.scope,
                Value::Bool(v).encoding(),
            ) && *final(l.scope.parent) == *final(old(self).scope.parent) && *final(l) == *final(self),
    {
        self.scope.parent.bool(v);
        Ok(self)
    }

    /// Appends a `U8` as the next element.
    pub fn u8(&mut self, v: u8) -> (r: Result<&mut Self, Error>)
        requires
            old(self).scope.wf(),
        ensures
            r matches Ok(l) && l.scope.wf() && PatchScope::grown(
                &old(self).scope,
                &l.scope,
                Value::U8(v).encoding(),
            ) && *final(l.scope.parent) == *final(old(self).scope.parent) && *final(l) == *final(self),
    {
        self.scope.parent.u8(v);
        Ok(self)
    }

    /// Appends an `S8` as the next element.
    pub fn i8(&mut self, v: i8) -> (r: Result<&mut Self, Error>)
        requires
            old(self).scope.wf(),
        ensures
            r matches Ok(l) && l.scope.wf() && PatchScope::grown(
                &old(self).scope,
                &l.scope,
                Value::S8(v).encoding(),
            ) && *final(l.scope.parent) == *final(old(self).scope.parent) && *final(l) == *final(self),
    {
        self.scope.parent.i8(v);
        Ok(self)
    }

    /// Appends a `U16` as the next element.
    pub fn u16(&mut self, v: u16) -> (r: Result<&mut Self, Error>)
        requires
            old(self).scope.wf(),
        ensures
            r matches Ok(l) && l.scope.wf() && PatchScope::grown(
                &old(self).scope,
                &l.scope,
                Value::U16(v).encoding(),
            ) && *final(l.scope.parent) == *final(old(self).scope.parent) && *final(l) == *final(self),
    {
        self.scope.parent.u16(v);
        Ok(self)
    }

    /// Appends an `S16` as the next element.
    pub fn i16(&mut self, v: i16) -> (r: Result<&mut Self, Error>)
        requires
            old(self).scope.wf(),
        ensures
            r matches Ok(l) && l.scope.wf() && PatchScope::grown(
                &old(self).scope,
                &l.scope,
                Value::S16(v).encoding(),
            ) && *final(l.scope.parent) == *final(old(self).scope.parent) && *final(l) == *final(self),
    {
        self.scope.parent.i16(v);
        Ok(self)
    }

    /// Appends a `U32` as the next element.
    pub fn u32(&mut self, v: u32) -> (r: Result<&mut Self, Error>)
        requires
            old(self).scope.wf(),
        ensures
            r matches Ok(l) && l.scope.wf() && PatchScope::grown(
                &old(self).scope,
                &l.scope,
                Value::U32(v).encoding(),
            ) && *final(l.scope.parent) == *final(old(self).scope.parent) && *final(l) == *final(self),
    {
        self.scope.parent.u32(v);
        Ok(self)
    }

    /// Appends an `S32` as the next element.
    pub fn i32(&mut self, v: i32) -> (r: Result<&mut Self, Error>)
        requires
            old(self).scope.wf(),
        ensures
            r matches Ok(l) && l.scope.wf() && PatchScope::grown(
                &old(self).scope,
                &l.scope,
                Value::S32(v).encoding(),
            ) && *final(l.scope.parent) == *final(old(self).scope.parent) && *final(l) == *final(self),
    {
        self.scope.parent.i32(v);
        Ok(self)
    }

    /// Appends a `U64` as the next element.
    pub fn u64(&mut self, v: u64) -> (r: Result<&mut Self, Error>)
        requires
            old(self).scope.wf(),
        ensures
            r matches Ok(l) && l.scope.wf() && PatchScope::grown(
                &old(self).scope,
                &l.scope,
                Value::U64(v).encoding(),
            ) && *final(l.scope.parent) == *final(old(self).scope.parent) && *final(l) == *final(self),
    {
        self.scope.parent.u64(v);
        Ok(self)
    }

    /// Appends an `S64` as the next element.
    pub fn i64(&mut self, v: i64) -> (r: Result<&mut Self, Error>)
        requires
            old(self).scope.wf(),
        ensures
            r matches Ok(l) && l.scope.wf() && PatchScope::grown(
                &old(self).scope,
                &l.scope,
                Value::S64(v).encoding(),
            ) && *final(l.scope.parent) == *final(old(self).scope.parent) && *final(l) == *final(self),
    {
        self.scope.parent.i64(v);
        Ok(self)
    }

    /// Appends an `F32`, given by its IEEE 754 bit pattern as the next element.
    pub fn f32_bits(&mut self, v: u32) -> (r: Result<&mut Self, Error>)
        requires
            old(self).scope.wf(),
        ensures
            r matches Ok(l) && l.scope.wf() && PatchScope::grown(
                &old(self).scope,
                &l.scope,
                Value::F32(v).encoding(),
            ) && *final(l.scope.parent) == *final(old(self).scope.parent) && *final(l) == *final(self),
    {
        self.scope.parent.f32_bits(v);
        Ok(self)
    }

    /// Appends an `F64`, given by its IEEE 754 bit pattern as the next element.
    pub fn f64_bits(&mut self, v: u64) -> (r: Result<&mut Self, Error>)
        requires
            old(self).scope.wf(),
        ensures
            r matches Ok(l) && l.scope.wf() && PatchScope::grown(
                &old(self).scope,
                &l.scope,
                Value::F64(v).encoding(),
            ) && *final(l.scope.parent) == *final(old(self).scope.parent) && *final(l) == *final(self),
    {
        self.scope.parent.f64_bits(v);
        Ok(self)
    }

    /// Appends a `String` as the next element.
    pub fn str(&mut self, v: &str) -> (r: Result<&mut Self, Error>)
        requires
            old(self).scope.wf(),
        ensures
            r is Ok <==> v.spec_bytes().len() <= u32::MAX,
            r matches Ok(l) ==> l.scope.wf() && PatchScope::grown(
                &old(self).scope,
                &l.scope,
                Value::String(v.spec_bytes()).encoding(),
            ) && *final(l.scope.parent) == *final(old(self).scope.parent) && *final(l) == *final(self),
            r matches Err(e) ==> e == Error::BlobTooLarge(v.spec_bytes().len() as usize)
                && PatchScope::same(&old(self).scope, &final(self).scope) && *final(final(self).scope.parent) == *final(old(self).scope.parent),
    {
        match self.scope.parent.write_blob(Tag::String, v.as_bytes()) {
            Err(e) => Err(e),
            Ok(_) => Ok(self),
        }
    }

    /// Appends a `Bytes` blob as the next element.
    pub fn bytes(&mut self, v: &[u8]) -> (r: Result<&mut Self, Error>)
        requires
            old(self).scope.wf(),
        ensures
            r is Ok <==> v@.len() <= u32::MAX,
            r matches Ok(l) ==> l.scope.wf() && PatchScope::grown(
                &old(self).scope,
                &l.scope,
                Value::Bytes(v@).encoding(),
            ) && *final(l.scope.parent) == *final(old(self).scope.parent) && *final(l) == *final(self),
            r matches Err(e) ==> e == Error::BlobTooLarge(v@.len() as usize)
                && PatchScope::same(&old(self).scope, &final(self).scope) && *final(final(self).scope.parent) == *final(old(self).scope.parent),
    {
        match self.scope.parent.write_blob(Tag::Bytes, v) {
            Err(e) => Err(e),
            Ok(_) => Ok(self),
        }
    }

    /// Appends a `Struct` whose fields the caller has laid out as the next element.
    pub fn record_blob(&mut self, v: &[u8]) -> (r: Result<&mut Self, Error>)
        requires
            old(self).scope.wf(),
        ensures
            r is Ok <==> v@.len() <= u32::MAX,
            r matches Ok(l) ==> l.scope.wf() && PatchScope::grown(
                &old(self).scope,
                &l.scope,
                Value::Struct(v@).encoding(),
            ) && *final(l.scope.parent) == *final(old(self).scope.parent) && *final(l) == *final(self),
            r matches Err(e) ==> e == Error::BlobTooLarge(v@.len() as usize)
                && PatchScope::same(&old(self).scope, &final(self).scope) && *final(final(self).scope.parent) == *final(old(self).scope.parent),
    {
        match self.scope.parent.write_blob(Tag::Struct, v) {
            Err(e) => Err(e),
            Ok(_) => Ok(self),
        }
    }

    /// Opens a list as the next element.
    pub fn list(&mut self) -> (l: ListEncoder<'_>)
        requires
            old(self).scope.wf(),
        ensures
            l.scope.opened(old(self).scope.parent.buf@, Tag::List),
            final(self).scope.len_offset == old(self).scope.len_offset,
            final(self).scope.body_start_offset == old(self).scope.body_start_offset,
            final(self).scope.parent.buf@ == final(l.scope.parent).buf@,
            *final(final(self).scope.parent) == *final(old(self).scope.parent),
    {
        self.scope.parent.write_tag(Tag::List);
        ListEncoder::new(&mut *self.scope.parent)
    }

    /// Opens a map as the next element.
    pub fn map(&mut self) -> (m: MapEncoder<'_>)
        requires
            old(self).scope.wf(),
        ensures
            m.scope.opened(old(self).scope.parent.buf@, Tag::Dict),
            m.key_end == 0,
            final(self).scope.len_offset == old(self).scope.len_offset,
            final(self).scope.body_start_offset == old(self).scope.body_start_offset,
            final(self).scope.parent.buf@ == final(m.scope.parent).buf@,
            *final(final(self).scope.parent) == *final(old(self).scope.parent),
    {
        self.scope.parent.write_tag(Tag::Dict);
        MapEncoder::new(&mut *self.scope.parent)
    }

    /// Opens an array as the next element.
    pub fn array(&mut self, item_tag: Tag, stride: usize) -> (r: Result<ArrayEncoder<'_>, Error>)
        requires
            old(self).scope.wf(),
        ensures
            r is Ok <==> 0 < stride <= u32::MAX,
            final(self).scope.len_offset == old(self).scope.len_offset,
            final(self).scope.body_start_offset == old(self).scope.body_start_offset,
            *final(final(self).scope.parent) == *final(old(self).scope.parent),
            r matches Ok(a) ==> a.opened(old(self).scope.parent.buf@, item_tag, stride) && final(self).scope.parent.buf@ == final(a.scope.parent).buf@,
            r matches Err(e) ==> e == Error::InvalidStride(stride) && final(self).scope.parent.buf@
                == old(self).scope.parent.buf@,
    {
        match self.scope.parent.write_array_head(item_tag, stride) {
            Err(e) => Err(e),
            Ok(len_offset) => {
                proof {
                    lemma_array_head_len(old(self).scope.parent.buf@, item_tag, stride as int);
                }
                let body_start: usize = len_offset + LEN_WIDTH;
                Ok(
                    ArrayEncoder {
                        scope: PatchScope::manual(&mut *self.scope.parent, len_offset, body_start),
                        stride,
                    },
                )
            },
        }
    }

    /// Opens a record as the next element.
    pub fn record(&mut self) -> (rec: RecordEncoder<'_>)
        requires
            old(self).scope.wf(),
        ensures
            rec.scope.opened(old(self).scope.parent.buf@, Tag::Struct),
            final(self).scope.len_offset == old(self).scope.len_offset,
            final(self).scope.body_start_offset == old(self).scope.body_start_offset,
            final(self).scope.parent.buf@ == final(rec.scope.parent).buf@,
            *final(final(self).scope.parent) == *final(old(self).scope.parent),
    {
        self.scope.parent.write_tag(Tag::Struct);
        RecordEncoder { scope: PatchScope::new(&mut *self.scope.parent) }
    }

    /// Closes the list: the length of its body goes into the length prefix.
    /// A body longer than a `u32` can say is refused and the buffer stays as
    /// it is.
    pub fn finish(self) -> (r: Result<&'a mut Encoder, Error>)
        requires
            self.scope.wf(),
        ensures
            r is Ok <==> self.scope.body().len() <= u32::MAX,
            r matches Ok(e) ==> e.buf@ == patched(
                old(self.scope.parent).buf@,
                self.scope.len_offset as int,
            ) && *final(e) == *final(self.scope.parent),
            r matches Err(e) ==> e == Error::BlobTooLarge(self.scope.body().len() as usize)
                && final(self.scope.parent).buf@ == old(self.scope.parent).buf@,
    {
        self.scope.finish()
    }
}

/// Builder for the entries of a map. An entry is a key and the one value
/// that is written through the encoder that `key` returns. A key whose value
/// was never written is reported by the next call.
pub struct MapEncoder<'a> {
    pub scope: PatchScope<'a>,
    /// Length of the buffer behind the last key; zero before the first key.
    pub key_end: usize,
}

impl<'a> MapEncoder<'a> {
    /// Whether the last key was left without a value: nothing stands
    /// behind it.
    pub open spec fn abandoned(&self) -> bool {
        self.scope.parent.buf@.len() == self.key_end
    }

    /// The error that a key or the end of the map is refused with: a key
    /// was left without a value, or what is to be written is too long.
    pub open spec fn refusal(&self, len: nat) -> Error {
        if self.abandoned() {
            Error::Malformed
        } else {
            Error::BlobTooLarge(len as usize)
        }
    }

    fn new(parent: &'a mut Encoder) -> (m: Self)
        ensures
            m.scope.wf(),
            m.key_end == 0,
            m.scope.len_offset == old(parent).buf@.len(),
            m.scope.parent.buf@ == old(parent).buf@ + len_slot(),
            *final(parent) == *final(m.scope.parent),
    {
        MapEncoder { scope: PatchScope::new(parent), key_end: 0 }
    }

    /// Writes a key and returns the encoder for its value. Whatever that
    /// encoder leaves in the buffer is what the map holds afterwards. Where
    /// the key before was left without a value, the key is refused as
    /// `Malformed`.
    #[must_use]
    pub fn key(&mut self, k: &str) -> (r: Result<MapValueEncoder<'_>, Error>)
        requires
            old(self).scope.wf(),
        ensures
            r is Ok <==> !old(self).abandoned() && k.spec_bytes().len() <= u32::MAX,
            final(self).scope.len_offset == old(self).scope.len_offset,
            final(self).scope.body_start_offset == old(self).scope.body_start_offset,
            *final(final(self).scope.parent) == *final(old(self).scope.parent),
            r matches Ok(ve) ==> ve.parent.buf@ == old(self).scope.parent.buf@ + Value::String(
                k.spec_bytes(),
            ).encoding() && final(self).scope.parent.buf@ == final(ve.parent).buf@ && final(self).key_end
                == ve.parent.buf@.len(),
            r matches Err(e) ==> e == old(self).refusal(k.spec_bytes().len()) && final(self).scope.parent.buf@
                == old(self).scope.parent.buf@ && final(self).key_end == old(self).key_end,
    {
        if self.scope.parent.buf.len() == self.key_end {
            return Err(Error::Malformed);
        }
        match self.scope.parent.write_blob(Tag::String, k.as_bytes()) {
            Err(e) => Err(e),
            Ok(_) => {
                self.key_end = self.scope.parent.buf.len();
                Ok(MapValueEncoder { parent: &mut *self.scope.parent })
            },
        }
    }

    /// Writes a key and has `f` write its value. The closure is handed the
    /// encoder for the value; where it returns without having written
    /// anything, the entry is refused as `Malformed`.
    pub fn entry<F>(&mut self, key: &str, f: F) -> (r: Result<&mut Self, Error>) where
        F: FnOnce(MapValueEncoder<'_>) -> Result<(), Error>,

        requires
            old(self).scope.wf(),
            forall|ve: MapValueEncoder<'_>|
                ve.parent.buf@ == old(self).scope.parent.buf@ + Value::String(
                    key.spec_bytes(),
                ).encoding() ==> f.requires((ve,)),
        ensures
            old(self).abandoned() || key.spec_bytes().len() > u32::MAX ==> r == Err::<
                &mut Self,
                Error,
            >(old(self).refusal(key.spec_bytes().len())) && PatchScope::same(
                &old(self).scope,
                &final(self).scope,
            ) && final(self).key_end == old(self).key_end,
            !old(self).abandoned() && key.spec_bytes().len() <= u32::MAX ==> exists|
                ve: MapValueEncoder<'_>,
                res: Result<(), Error>,
            |
                {
                    &&& ve.parent.buf@ == old(self).scope.parent.buf@ + Value::String(
                        key.spec_bytes(),
                    ).encoding()
                    &&& f.ensures((ve,), res)
                    &&& r is Ok <==> res is Ok && final(ve.parent).buf@.len() != ve.parent.buf@.len()
                    &&& r matches Err(e) ==> res == Err::<(), Error>(e) || (res is Ok && e
                        == Error::Malformed)
                    &&& match r {
                        Ok(m) => m.scope.parent.buf@ == final(ve.parent).buf@
                            && m.scope.len_offset == old(self).scope.len_offset
                            && m.scope.body_start_offset == old(self).scope.body_start_offset
                            && m.key_end == ve.parent.buf@.len() && *final(m) == *final(self),
                        Err(_) => final(self).scope.parent.buf@ == final(ve.parent).buf@
                            && final(self).scope.len_offset == old(self).scope.len_offset
                            && final(self).scope.body_start_offset == old(self).scope.body_start_offset
                            && final(self).key_end == ve.parent.buf@.len(),
                    }
                },
    {
        match self.key(key) {
            Err(e) => Err(e),
            Ok(val_enc) => {
                let ghost ve = val_enc;
                let res = f(val_enc);
                assert(f.ensures((ve,), res));
                match res {
                    Err(e) => Err(e),
                    Ok(_) => if self.scope.parent.buf.len() == self.key_end {
                        Err(Error::Malformed)
                    } else {
                        Ok(self)
                    },
                }
            },
        }
    }

    /// Closes the map: the length of its body goes into the length prefix.
    /// A map whose last key was left without a value is refused as
    /// `Malformed`, a body longer than a `u32` can say as `BlobTooLarge`;
    /// the buffer then stays as it is.
    pub fn finish(self) -> (r: Result<&'a mut Encoder, Error>)
        requires
            self.scope.wf(),
        ensures
            r is Ok <==> !self.abandoned() && self.scope.body().len() <= u32::MAX,
            r matches Ok(e) ==> e.buf@ == patched(
                old(self.scope.parent).buf@,
                self.scope.len_offset as int,
            ) && *final(e) == *final(self.scope.parent),
            r matches Err(e) ==> e == self.refusal(self.scope.body().len()) && final(self.scope.parent).buf@ == old(self.scope.parent).buf@,
    {
        if self.scope.parent.buf.len() == self.key_end {
            return Err(Error::Malformed);
        }
        self.scope.finish()
    }
}

/// Encoder for the one value of a map entry. Each method uses it up.
#[must_use]
pub struct MapValueEncoder<'a> {
    pub parent: &'a mut Encoder,
}

impl<'a> MapValueEncoder<'a> {
    /// Writes a `Bool` as the value.
    pub fn bool(self, v: bool) -> (r: Result<(), Error>)
        ensures
            r is Ok,
            final(self.parent).buf@ == old(self.parent).buf@ + Value::Bool(v).encoding(),
    {
        self.parent.bool(v);
        Ok(())
    }

    /// Writes a `U8` as the value.
    pub fn u8(self, v: u8) -> (r: Result<(), Error>)
        ensures
            r is Ok,
            final(self.parent).buf@ == old(self.parent).buf@ + Value::U8(v).encoding(),
    {
        self.parent.u8(v);
        Ok(())
    }

    /// Writes an `S8` as the value.
    pub fn i8(self, v: i8) -> (r: Result<(), Error>)
        ensures
            r is Ok,
            final(self.parent).buf@ == old(self.parent).buf@ + Value::S8(v).encoding(),
    {
        self.parent.i8(v);
        Ok(())
    }

    /// Writes a `U16` as the value.
    pub fn u16(self, v: u16) -> (r: Result<(), Error>)
        ensures
            r is Ok,
            final(self.parent).buf@ == old(self.parent).buf@ + Value::U16(v).encoding(),
    {
        self.parent.u16(v);
        Ok(())
    }

    /// Writes an `S16` as the value.
    pub fn i16(self, v: i16) -> (r: Result<(), Error>)
        ensures
            r is Ok,
            final(self.parent).buf@ == old(self.parent).buf@ + Value::S16(v).encoding(),
    {
        self.parent.i16(v);
        Ok(())
    }

    /// Writes a `U32` as the value.
    pub fn u32(self, v: u32) -> (r: Result<(), Error>)
        ensures
            r is Ok,
            final(self.parent).buf@ == old(self.parent).buf@ + Value::U32(v).encoding(),
    {
        self.parent.u32(v);
        Ok(())
    }

    /// Writes an `S32` as the value.
    pub fn i32(self, v: i32) -> (r: Result<(), Error>)
        ensures
            r is Ok,
            final(self.parent).buf@ == old(self.parent).buf@ + Value::S32(v).encoding(),
    {
        self.parent.i32(v);
        Ok(())
    }

    /// Writes a `U64` as the value.
    pub fn u64(self, v: u64) -> (r: Result<(), Error>)
        ensures
            r is Ok,
            final(self.parent).buf@ == old(self.parent).buf@ + Value::U64(v).encoding(),
    {
        self.parent.u64(v);
        Ok(())
    }

    /// Writes an `S64` as the value.
    pub fn i64(self, v: i64) -> (r: Result<(), Error>)
        ensures
            r is Ok,
            final(self.parent).buf@ == old(self.parent).buf@ + Value::S64(v).encoding(),
    {
        self.parent.i64(v);
        Ok(())
    }

    /// Writes an `F32`, given by its IEEE 754 bit pattern as the value.
    pub fn f32_bits(self, v: u32) -> (r: Result<(), Error>)
        ensures
            r is Ok,
            final(self.parent).buf@ == old(self.parent).buf@ + Value::F32(v).encoding(),
    {
        self.parent.f32_bits(v);
        Ok(())
    }

    /// Writes an `F64`, given by its IEEE 754 bit pattern as the value.
    pub fn f64_bits(self, v: u64) -> (r: Result<(), Error>)
        ensures
            r is Ok,
            final(self.parent).buf@ == old(self.parent).buf@ + Value::F64(v).encoding(),
    {
        self.parent.f64_bits(v);
        Ok(())
    }

    /// Writes a `String` as the value.
    pub fn str(self, v: &str) -> (r: Result<(), Error>)
        ensures
            r is Ok <==> v.spec_bytes().len() <= u32::MAX,
            r is Ok ==> final(self.parent).buf@ == old(self.parent).buf@ + Value::String(
                v.spec_bytes(),
            ).encoding(),
            r matches Err(e) ==> e == Error::BlobTooLarge(v.spec_bytes().len() as usize) && final(self.parent).buf@ == old(self.parent).buf@,
    {
        self.parent.write_blob(Tag::String, v.as_bytes())
    }

    /// Writes a `Bytes` blob as the value.
    pub fn bytes(self, v: &[u8]) -> (r: Result<(), Error>)
        ensures
            r is Ok <==> v@.len() <= u32::MAX,
            r is Ok ==> final(self.parent).buf@ == old(self.parent).buf@ + Value::Bytes(
                v@,
            ).encoding(),
            r matches Err(e) ==> e == Error::BlobTooLarge(v@.len() as usize) && final(self.parent).buf@ == old(self.parent).buf@,
    {
        self.parent.write_blob(Tag::Bytes, v)
    }

    /// Writes a `Struct` whose fields the caller has laid out as the value.
    pub fn record_blob(self, v: &[u8]) -> (r: Result<(), Error>)
        ensures
            r is Ok <==> v@.len() <= u32::MAX,
            r is Ok ==> final(self.parent).buf@ == old(self.parent).buf@ + Value::Struct(
                v@,
            ).encoding(),
            r matches Err(e) ==> e == Error::BlobTooLarge(v@.len() as usize) && final(self.parent).buf@ == old(self.parent).buf@,
    {
        self.parent.write_blob(Tag::Struct, v)
    }

    /// Opens a list as the value.
    pub fn list(self) -> (l: ListEncoder<'a>)
        ensures
            l.scope.opened(old(self.parent).buf@, Tag::List),
            *final(self.parent) == *final(l.scope.parent),
    {
        self.parent.write_tag(Tag::List);
        ListEncoder::new(self.parent)
    }

    /// Opens a map as the value.
    pub fn map(self) -> (m: MapEncoder<'a>)
        ensures
            m.scope.opened(old(self.parent).buf@, Tag::Dict),
            m.key_end == 0,
            *final(self.parent) == *final(m.scope.parent),
    {
        self.parent.write_tag(Tag::Dict);
        MapEncoder::new(self.parent)
    }

    /// Opens an array as the value. A stride that is refused leaves the
    /// entry without a value.
    pub fn array(self, item_tag: Tag, stride: usize) -> (r: Result<ArrayEncoder<'a>, Error>)
        ensures
            r is Ok <==> 0 < stride <= u32::MAX,
            r matches Ok(a) ==> a.opened(old(self.parent).buf@, item_tag, stride) && *final(self.parent) == *final(a.scope.parent),
            r matches Err(e) ==> e == Error::InvalidStride(stride) && final(self.parent).buf@
                == old(self.parent).buf@,
    {
        match self.parent.write_array_head(item_tag, stride) {
            Err(e) => Err(e),
            Ok(len_offset) => {
                proof {
                    lemma_array_head_len(old(self.parent).buf@, item_tag, stride as int);
                }
                let body_start: usize = len_offset + LEN_WIDTH;
                Ok(
                    ArrayEncoder {
                        scope: PatchScope::manual(self.parent, len_offset, body_start),
                        stride,
                    },
                )
            },
        }
    }

    /// Opens a record as the value.
    pub fn record(self) -> (rec: RecordEncoder<'a>)
        ensures
            rec.scope.opened(old(self.parent).buf@, Tag::Struct),
            *final(self.parent) == *final(rec.scope.parent),
    {
        self.parent.write_tag(Tag::Struct);
        RecordEncoder { scope: PatchScope::new(self.parent) }
    }
}

/// Builder for the fields of a record. Fields are written without tags,
/// one after the other; the reader has to know the layout.
pub struct RecordEncoder<'a> {
    pub scope: PatchScope<'a>,
}

impl<'a> RecordEncoder<'a> {
    /// Appends bytes as they are.
    pub fn push(&mut self, data: &[u8]) -> (r: Result<&mut Self, Error>)
        requires
            old(self).scope.wf(),
        ensures
            r matches Ok(l) && l.scope.wf() && PatchScope::grown(&old(self).scope, &l.scope, data@)
                && *final(l.scope.parent) == *final(old(self).scope.parent) && *final(l) == *final(self),
    {
        self.scope.parent.write_raw(data);
        Ok(self)
    }

    /// Appends the 1 payload byte of a `Bool`.
    pub fn bool(&mut self, v: bool) -> (r: Result<&mut Self, Error>)
        requires
            old(self).scope.wf(),
        ensures
            r matches Ok(l) && l.scope.wf() && PatchScope::grown(
                &old(self).scope,
                &l.scope,
                Value::Bool(v).payload(),
            ) && *final(l.scope.parent) == *final(old(self).scope.parent) && *final(l) == *final(self),
    {
        let p = byte_vec(if v { 1 } else { 0 });
        self.scope.parent.write_raw(p.as_slice());
        Ok(self)
    }

    /// Appends the 1 payload byte of a `U8`.
    pub fn u8(&mut self, v: u8) -> (r: Result<&mut Self, Error>)
        requires
            old(self).scope.wf(),
        ensures
            r matches Ok(l) && l.scope.wf() && PatchScope::grown(
                &old(self).scope,
                &l.scope,
                Value::U8(v).payload(),
            ) && *final(l.scope.parent) == *final(old(self).scope.parent) && *final(l) == *final(self),
    {
        let p = byte_vec(v);
        self.scope.parent.write_raw(p.as_slice());
        Ok(self)
    }

    /// Appends the 1 payload byte of an `S8`.
    pub fn i8(&mut self, v: i8) -> (r: Result<&mut Self, Error>)
        requires
            old(self).scope.wf(),
        ensures
            r matches Ok(l) && l.scope.wf() && PatchScope::grown(
                &old(self).scope,
                &l.scope,
                Value::S8(v).payload(),
            ) && *final(l.scope.parent) == *final(old(self).scope.parent) && *final(l) == *final(self),
    {
        let p = byte_vec(v as u8);
        self.scope.parent.write_raw(p.as_slice());
        Ok(self)
    }

    /// Appends the 2 payload bytes of a `U16`.
    pub fn u16(&mut self, v: u16) -> (r: Result<&mut Self, Error>)
        requires
            old(self).scope.wf(),
        ensures
            r matches Ok(l) && l.scope.wf() && PatchScope::grown(
                &old(self).scope,
                &l.scope,
                Value::U16(v).payload(),
            ) && *final(l.scope.parent) == *final(old(self).scope.parent) && *final(l) == *final(self),
    {
        let p = u16_to_le_bytes(v);
        self.scope.parent.write_raw(p.as_slice());
        Ok(self)
    }

    /// Appends the 2 payload bytes of an `S16`.
    pub fn i16(&mut self, v: i16) -> (r: Result<&mut Self, Error>)
        requires
            old(self).scope.wf(),
        ensures
            r matches Ok(l) && l.scope.wf() && PatchScope::grown(
                &old(self).scope,
                &l.scope,
                Value::S16(v).payload(),
            ) && *final(l.scope.parent) == *final(old(self).scope.parent) && *final(l) == *final(self),
    {
        let p = u16_to_le_bytes(v as u16);
        self.scope.parent.write_raw(p.as_slice());
        Ok(self)
    }

    /// Appends the 4 payload bytes of a `U32`.
    pub fn u32(&mut self, v: u32) -> (r: Result<&mut Self, Error>)
        requires
            old(self).scope.wf(),
        ensures
            r matches Ok(l) && l.scope.wf() && PatchScope::grown(
                &old(self).scope,
                &l.scope,
                Value::U32(v).payload(),
            ) && *final(l.scope.parent) == *final(old(self).scope.parent) && *final(l) == *final(self),
    {
        let p = u32_to_le_bytes(v);
        self.scope.parent.write_raw(p.as_slice());
        Ok(self)
    }

    /// Appends the 4 payload bytes of an `S32`.
    pub fn i32(&mut self, v: i32) -> (r: Result<&mut Self, Error>)
        requires
            old(self).scope.wf(),
        ensures
            r matches Ok(l) && l.scope.wf() && PatchScope::grown(
                &old(self).scope,
                &l.scope,
                Value::S32(v).payload(),
            ) && *final(l.scope.parent) == *final(old(self).scope.parent) && *final(l) == *final(self),
    {
        let p = u32_to_le_bytes(v as u32);
        self.scope.parent.write_raw(p.as_slice());
        Ok(self)
    }

    /// Appends the 8 payload bytes of a `U64`.
    pub fn u64(&mut self, v: u64) -> (r: Result<&mut Self, Error>)
        requires
            old(self).scope.wf(),
        ensures
            r matches Ok(l) && l.scope.wf() && PatchScope::grown(
                &old(self).scope,
                &l.scope,
                Value::U64(v).payload(),
            ) && *final(l.scope.parent) == *final(old(self).scope.parent) && *final(l) == *final(self),
    {
        let p = u64_to_le_bytes(v);
        self.scope.parent.write_raw(p.as_slice());
        Ok(self)
    }

    /// Appends the 8 payload bytes of an `S64`.
    pub fn i64(&mut self, v: i64) -> (r: Result<&mut Self, Error>)
        requires
            old(self).scope.wf(),
        ensures
            r matches Ok(l) && l.scope.wf() && PatchScope::grown(
                &old(self).scope,
                &l.scope,
                Value::S64(v).payload(),
            ) && *final(l.scope.parent) == *final(old(self).scope.parent) && *final(l) == *final(self),
    {
        let p = u64_to_le_bytes(v as u64);
        self.scope.parent.write_raw(p.as_slice());
        Ok(self)
    }

    /// Appends the 4 payload bytes of an `F32`, given by its IEEE 754 bit pattern.
    pub fn f32_bits(&mut self, v: u32) -> (r: Result<&mut Self, Error>)
        requires
            old(self).scope.wf(),
        ensures
            r matches Ok(l) && l.scope.wf() && PatchScope::grown(
                &old(self).scope,
                &l.scope,
                Value::F32(v).payload(),
            ) && *final(l.scope.parent) == *final(old(self).scope.parent) && *final(l) == *final(self),
    {
        let p = u32_to_le_bytes(v);
        self.scope.parent.write_raw(p.as_slice());
        Ok(self)
    }

    /// Appends the 8 payload bytes of an `F64`, given by its IEEE 754 bit pattern.
    pub fn f64_bits(&mut self, v: u64) -> (r: Result<&mut Self, Error>)
        requires
            old(self).scope.wf(),
        ensures
            r matches Ok(l) && l.scope.wf() && PatchScope::grown(
                &old(self).scope,
                &l.scope,
                Value::F64(v).payload(),
            ) && *final(l.scope.parent) == *final(old(self).scope.parent) && *final(l) == *final(self),
    {
        let p = u64_to_le_bytes(v);
        self.scope.parent.write_raw(p.as_slice());
        Ok(self)
    }

    /// Closes the record: the length of its body goes into the length prefix.
    /// A body longer than a `u32` can say is refused and the buffer stays as
    /// it is.
    pub fn finish(self) -> (r: Result<&'a mut Encoder, Error>)
        requires
            self.scope.wf(),
        ensures
            r is Ok <==> self.scope.body().len() <= u32::MAX,
            r matches Ok(e) ==> e.buf@ == patched(
                old(self.scope.parent).buf@,
                self.scope.len_offset as int,
            ) && *final(e) == *final(self.scope.parent),
            r matches Err(e) ==> e == Error::BlobTooLarge(self.scope.body().len() as usize)
                && final(self.scope.parent).buf@ == old(self.scope.parent).buf@,
    {
        self.scope.finish()
    }
}

/// Builder for the items of an array. Every item is `stride` bytes long and
/// carries no tag of its own. An array holds at least one item: one
/// without items cannot be finished.
pub struct ArrayEncoder<'a> {
    pub scope: PatchScope<'a>,
    pub stride: usize,
}

impl<'a> ArrayEncoder<'a> {
    /// The header stands in the body and whole items follow it.
    pub open spec fn wf(&self) -> bool {
        &&& self.scope.wf()
        &&& 0 < self.stride <= u32::MAX
        &&& self.scope.body().len() >= ARRAY_HEADER
        &&& (self.scope.body().len() - ARRAY_HEADER) % (self.stride as int) == 0
    }

    /// The array has just been opened behind `before`.
    pub open spec fn opened(&self, before: Seq<u8>, item_tag: Tag, stride: usize) -> bool {
        &&& self.wf()
        &&& self.stride == stride
        &&& self.scope.len_offset == before.len() + 1
        &&& self.scope.parent.buf@ == before.push(Tag::Array.byte()) + len_slot() + array_header(
            item_tag,
            stride as int,
        )
    }

    /// `post` is `pre` with `bytes` appended.
    pub open spec fn grown(pre: &Self, post: &Self, bytes: Seq<u8>) -> bool {
        post.stride == pre.stride && PatchScope::grown(&pre.scope, &post.scope, bytes)
    }

    /// `post` has the stride, the offsets and the bytes of `pre`.
    pub open spec fn same(pre: &Self, post: &Self) -> bool {
        post.stride == pre.stride && PatchScope::same(&pre.scope, &post.scope)
    }

    /// Appends one item of the stride's length.
    fn push_item(&mut self, data: &[u8])
        requires
            old(self).wf(),
            data@.len() == old(self).stride,
        ensures
            final(self).wf(),
            Self::grown(old(self), final(self), data@),
            *final(final(self).scope.parent) == *final(old(self).scope.parent),
    {
        proof {
            vstd::arithmetic::div_mod::lemma_mod_add_multiples_vanish(
                self.scope.body().len() - ARRAY_HEADER,
                self.stride as int,
            );
        }
        self.scope.parent.write_raw(data);
    }

    /// Appends one item without looking at its length: that the data is as
    /// long as the stride is for the caller to show.
    pub fn push_unchecked(&mut self, data: &[u8]) -> (r: Result<(), Error>)
        requires
            old(self).wf(),
            data@.len() == old(self).stride,
        ensures
            final(self).wf(),
            *final(final(self).scope.parent) == *final(old(self).scope.parent),
            r is Ok,
            Self::grown(old(self), final(self), data@),
    {
        self.push_item(data);
        Ok(())
    }

    /// Appends one item. Data of another length than the stride is refused.
    pub fn push(&mut self, data: &[u8]) -> (r: Result<(), Error>)
        requires
            old(self).wf(),
        ensures
            final(self).wf(),
            *final(final(self).scope.parent) == *final(old(self).scope.parent),
            r is Ok <==> data@.len() == old(self).stride,
            r is Ok ==> Self::grown(old(self), final(self), data@),
            r matches Err(e) ==> e == Error::Malformed && Self::same(old(self), final(self)),
    {
        if data.len() != self.stride {
            return Err(Error::Malformed);
        }
        self.push_item(data);
        Ok(())
    }

    /// Appends a `Bool` as one item, which the stride must have room for
    /// exactly.
    pub fn bool(&mut self, v: bool) -> (r: Result<(), Error>)
        requires
            old(self).wf(),
        ensures
            final(self).wf(),
            *final(final(self).scope.parent) == *final(old(self).scope.parent),
            r is Ok <==> old(self).stride == 1,
            r is Ok ==> Self::grown(old(self), final(self), Value::Bool(v).payload()),
            r matches Err(e) ==> e == Error::Malformed && Self::same(old(self), final(self)),
    {
        if self.stride != 1 {
            return Err(Error::Malformed);
        }
        let p = byte_vec(if v { 1 } else { 0 });
        self.push_item(p.as_slice());
        Ok(())
    }

    /// Appends a `U8` as one item, which the stride must have room for
    /// exactly.
    pub fn u8(&mut self, v: u8) -> (r: Result<(), Error>)
        requires
            old(self).wf(),
        ensures
            final(self).wf(),
            *final(final(self).scope.parent) == *final(old(self).scope.parent),
            r is Ok <==> old(self).stride == 1,
            r is Ok ==> Self::grown(old(self), final(self), Value::U8(v).payload()),
            r matches Err(e) ==> e == Error::Malformed && Self::same(old(self), final(self)),
    {
        if self.stride != 1 {
            return Err(Error::Malformed);
        }
        let p = byte_vec(v);
        self.push_item(p.as_slice());
        Ok(())
    }

    /// Appends an `S8` as one item, which the stride must have room for
    /// exactly.
    pub fn i8(&mut self, v: i8) -> (r: Result<(), Error>)
        requires
            old(self).wf(),
        ensures
            final(self).wf(),
            *final(final(self).scope.parent) == *final(old(self).scope.parent),
            r is Ok <==> old(self).stride == 1,
            r is Ok ==> Self::grown(old(self), final(self), Value::S8(v).payload()),
            r matches Err(e) ==> e == Error::Malformed && Self::same(old(self), final(self)),
    {
        if self.stride != 1 {
            return Err(Error::Malformed);
        }
        let p = byte_vec(v as u8);
        self.push_item(p.as_slice());
        Ok(())
    }

    /// Appends a `U16` as one item, which the stride must have room for
    /// exactly.
    pub fn u16(&mut self, v: u16) -> (r: Result<(), Error>)
        requires
            old(self).wf(),
        ensures
            final(self).wf(),
            *final(final(self).scope.parent) == *final(old(self).scope.parent),
            r is Ok <==> old(self).stride == 2,
            r is Ok ==> Self::grown(old(self), final(self), Value::U16(v).payload()),
            r matches Err(e) ==> e == Error::Malformed && Self::same(old(self), final(self)),
    {
        if self.stride != 2 {
            return Err(Error::Malformed);
        }
        let p = u16_to_le_bytes(v);
        self.push_item(p.as_slice());
        Ok(())
    }

    /// Appends an `S16` as one item, which the stride must have room for
    /// exactly.
    pub fn i16(&mut self, v: i16) -> (r: Result<(), Error>)
        requires
            old(self).wf(),
        ensures
            final(self).wf(),
            *final(final(self).scope.parent) == *final(old(self).scope.parent),
            r is Ok <==> old(self).stride == 2,
            r is Ok ==> Self::grown(old(self), final(self), Value::S16(v).payload()),
            r matches Err(e) ==> e == Error::Malformed && Self::same(old(self), final(self)),
    {
        if self.stride != 2 {
            return Err(Error::Malformed);
        }
        let p = u16_to_le_bytes(v as u16);
        self.push_item(p.as_slice());
        Ok(())
    }

    /// Appends a `U32` as one item, which the stride must have room for
    /// exactly.
    pub fn u32(&mut self, v: u32) -> (r: Result<(), Error>)
        requires
            old(self).wf(),
        ensures
            final(self).wf(),
            *final(final(self).scope.parent) == *final(old(self).scope.parent),
            r is Ok <==> old(self).stride == 4,
            r is Ok ==> Self::grown(old(self), final(self), Value::U32(v).payload()),
            r matches Err(e) ==> e == Error::Malformed && Self::same(old(self), final(self)),
    {
        if self.stride != 4 {
            return Err(Error::Malformed);
        }
        let p = u32_to_le_bytes(v);
        self.push_item(p.as_slice());
        Ok(())
    }

    /// Appends an `S32` as one item, which the stride must have room for
    /// exactly.
    pub fn i32(&mut self, v: i32) -> (r: Result<(), Error>)
        requires
            old(self).wf(),
        ensures
            final(self).wf(),
            *final(final(self).scope.parent) == *final(old(self).scope.parent),
            r is Ok <==> old(self).stride == 4,
            r is Ok ==> Self::grown(old(self), final(self), Value::S32(v).payload()),
            r matches Err(e) ==> e == Error::Malformed && Self::same(old(self), final(self)),
    {
        if self.stride != 4 {
            return Err(Error::Malformed);
        }
        let p = u32_to_le_bytes(v as u32);
        self.push_item(p.as_slice());
        Ok(())
    }

    /// Appends a `U64` as one item, which the stride must have room for
    /// exactly.
    pub fn u64(&mut self, v: u64) -> (r: Result<(), Error>)
        requires
            old(self).wf(),
        ensures
            final(self).wf(),
            *final(final(self).scope.parent) == *final(old(self).scope.parent),
            r is Ok <==> old(self).stride == 8,
            r is Ok ==> Self::grown(old(self), final(self), Value::U64(v).payload()),
            r matches Err(e) ==> e == Error::Malformed && Self::same(old(self), final(self)),
    {
        if self.stride != 8 {
            return Err(Error::Malformed);
        }
        let p = u64_to_le_bytes(v);
        self.push_item(p.as_slice());
        Ok(())
    }

    /// Appends an `S64` as one item, which the stride must have room for
    /// exactly.
    pub fn i64(&mut self, v: i64) -> (r: Result<(), Error>)
        requires
            old(self).wf(),
        ensures
            final(self).wf(),
            *final(final(self).scope.parent) == *final(old(self).scope.parent),
            r is Ok <==> old(self).stride == 8,
            r is Ok ==> Self::grown(old(self), final(self), Value::S64(v).payload()),
            r matches Err(e) ==> e == Error::Malformed && Self::same(old(self), final(self)),
    {
        if self.stride != 8 {
            return Err(Error::Malformed);
        }
        let p = u64_to_le_bytes(v as u64);
        self.push_item(p.as_slice());
        Ok(())
    }

    /// Appends an `F32`, given by its IEEE 754 bit pattern as one item, which the stride must have room for
    /// exactly.
    pub fn f32_bits(&mut self, v: u32) -> (r: Result<(), Error>)
        requires
            old(self).wf(),
        ensures
            final(self).wf(),
            *final(final(self).scope.parent) == *final(old(self).scope.parent),
            r is Ok <==> old(self).stride == 4,
            r is Ok ==> Self::grown(old(self), final(self), Value::F32(v).payload()),
            r matches Err(e) ==> e == Error::Malformed && Self::same(old(self), final(self)),
    {
        if self.stride != 4 {
            return Err(Error::Malformed);
        }
        let p = u32_to_le_bytes(v);
        self.push_item(p.as_slice());
        Ok(())
    }

    /// Appends an `F64`, given by its IEEE 754 bit pattern as one item, which the stride must have room for
    /// exactly.
    pub fn f64_bits(&mut self, v: u64) -> (r: Result<(), Error>)
        requires
            old(self).wf(),
        ensures
            final(self).wf(),
            *final(final(self).scope.parent) == *final(old(self).scope.parent),
            r is Ok <==> old(self).stride == 8,
            r is Ok ==> Self::grown(old(self), final(self), Value::F64(v).payload()),
            r matches Err(e) ==> e == Error::Malformed && Self::same(old(self), final(self)),
    {
        if self.stride != 8 {
            return Err(Error::Malformed);
        }
        let p = u64_to_le_bytes(v);
        self.push_item(p.as_slice());
        Ok(())
    }

    /// Starts an item that is written field by field.
    pub fn fixed_record(&mut self) -> (f: FixedRecordEncoder<'_, 'a>)
        requires
            old(self).wf(),
        ensures
            f.wf(),
            f.start == old(self).scope.parent.buf@.len(),
            Self::same(old(self), f.parent),
            *final(f.parent.scope.parent) == *final(old(self).scope.parent),
            *final(self) == *final(f.parent),
    {
        let start: usize = self.scope.parent.buf.len();
        FixedRecordEncoder { parent: self, start }
    }

    /// Whether the array holds no item yet: its body is its header alone.
    pub open spec fn empty(&self) -> bool {
        self.scope.body().len() == ARRAY_HEADER
    }

    /// Closes the array: the length of its body goes into the length prefix.
    /// An array without items is refused as `Malformed`, a body longer than
    /// a `u32` can say as `BlobTooLarge`; the buffer then stays as it is.
    pub fn finish(self) -> (r: Result<&'a mut Encoder, Error>)
        requires
            self.wf(),
        ensures
            r is Ok <==> !self.empty() && self.scope.body().len() <= u32::MAX,
            r matches Ok(e) ==> e.buf@ == patched(
                old(self.scope.parent).buf@,
                self.scope.len_offset as int,
            ) && *final(e) == *final(self.scope.parent),
            r matches Err(e) ==> e == (if self.empty() {
                Error::Malformed
            } else {
                Error::BlobTooLarge(self.scope.body().len() as usize)
            }) && final(self.scope.parent).buf@ == old(self.scope.parent).buf@,
    {
        if self.scope.parent.buf.len() - self.scope.body_start_offset == ARRAY_HEADER {
            return Err(Error::Malformed);
        }
        self.scope.finish()
    }
}

/// Builder for one array item that is laid out field by field. The fields
/// together must fill the stride exactly.
pub struct FixedRecordEncoder<'p, 'a> {
    pub parent: &'p mut ArrayEncoder<'a>,
    pub start: usize,
}

impl<'p, 'a> FixedRecordEncoder<'p, 'a> {
    /// The item starts on an item boundary and is no longer than the stride.
    pub open spec fn wf(&self) -> bool {
        &&& self.parent.scope.wf()
        &&& 0 < self.parent.stride <= u32::MAX
        &&& self.parent.scope.body_start_offset + ARRAY_HEADER <= self.start
        &&& self.start <= self.parent.scope.parent.buf@.len()
        &&& (self.start - self.parent.scope.body_start_offset - ARRAY_HEADER) % (
        self.parent.stride as int) == 0
        &&& self.written() <= self.parent.stride
    }

    /// Bytes of the item written so far.
    pub open spec fn written(&self) -> int {
        self.parent.scope.parent.buf@.len() - self.start
    }

    /// `post` is `pre` with `bytes` appended to the item.
    pub open spec fn grown(pre: &Self, post: &Self, bytes: Seq<u8>) -> bool {
        post.start == pre.start && ArrayEncoder::grown(pre.parent, post.parent, bytes)
    }

    /// `post` has the offsets and the bytes of `pre`.
    pub open spec fn same(pre: &Self, post: &Self) -> bool {
        post.start == pre.start && ArrayEncoder::same(pre.parent, post.parent)
    }

    /// Appends a field, if the stride has room for it.
    fn push_field(&mut self, data: &[u8]) -> (r: Result<(), Error>)
        requires
            old(self).wf(),
        ensures
            final(self).wf(),
            *final(final(self).parent) == *final(old(self).parent),
            *final(final(self).parent.scope.parent) == *final(old(self).parent.scope.parent),
            r is Ok <==> old(self).written() + data@.len() <= old(self).parent.stride,
            r is Ok ==> Self::grown(old(self), final(self), data@),
            r matches Err(e) ==> e == Error::ContainerFull && Self::same(old(self), final(self)),
    {
        let written: usize = self.parent.scope.parent.buf.len() - self.start;
        if data.len() > self.parent.stride - written {
            return Err(Error::ContainerFull);
        }
        self.parent.scope.parent.write_raw(data);
        Ok(())
    }

    /// Appends bytes as they are. Bytes that the stride has no room for are
    /// refused.
    pub fn push(&mut self, data: &[u8]) -> (r: Result<&mut Self, Error>)
        requires
            old(self).wf(),
        ensures
            r is Ok <==> old(self).written() + data@.len() <= old(self).parent.stride,
            r matches Ok(f) ==> f.wf() && Self::grown(old(self), f, data@) && *final(f.parent)
                == *final(old(self).parent) && *final(f.parent.scope.parent) == *final(old(self).parent.scope.parent) && *final(f) == *final(self),
            r matches Err(e) ==> e == Error::ContainerFull && final(self).wf() && Self::same(
                old(self),
                final(self),
            ) && *final(final(self).parent) == *final(old(self).parent) && *final(final(self).parent.scope.parent) == *final(old(self).parent.scope.parent),
    {
        match self.push_field(data) {
            Err(e) => Err(e),
            Ok(_) => Ok(self),
        }
    }

    /// Appends the 1 payload byte of a `Bool` as the next field.
    pub fn bool(&mut self, v: bool) -> (r: Result<&mut Self, Error>)
        requires
            old(self).wf(),
        ensures
            r is Ok <==> old(self).written() + 1 <= old(self).parent.stride,
            r matches Ok(f) ==> f.wf() && Self::grown(old(self), f, Value::Bool(v).payload())
                && *final(f.parent) == *final(old(self).parent) && *final(f.parent.scope.parent)
                == *final(old(self).parent.scope.parent) && *final(f) == *final(self),
            r matches Err(e) ==> e == Error::ContainerFull && final(self).wf() && Self::same(
                old(self),
                final(self),
            ) && *final(final(self).parent) == *final(old(self).parent) && *final(final(self).parent.scope.parent) == *final(old(self).parent.scope.parent),
    {
        let p = byte_vec(if v { 1 } else { 0 });
        proof {
            vstd::bytes::lemma_auto_spec_u16_to_from_le_bytes();
            vstd::bytes::lemma_auto_spec_u32_to_from_le_bytes();
            vstd::bytes::lemma_auto_spec_u64_to_from_le_bytes();
        }
        match self.push_field(p.as_slice()) {
            Err(e) => Err(e),
            Ok(_) => Ok(self),
        }
    }

    /// Appends the 1 payload byte of a `U8` as the next field.
    pub fn u8(&mut self, v: u8) -> (r: Result<&mut Self, Error>)
        requires
            old(self).wf(),
        ensures
            r is Ok <==> old(self).written() + 1 <= old(self).parent.stride,
            r matches Ok(f) ==> f.wf() && Self::grown(old(self), f, Value::U8(v).payload())
                && *final(f.parent) == *final(old(self).parent) && *final(f.parent.scope.parent)
                == *final(old(self).parent.scope.parent) && *final(f) == *final(self),
            r matches Err(e) ==> e == Error::ContainerFull && final(self).wf() && Self::same(
                old(self),
                final(self),
            ) && *final(final(self).parent) == *final(old(self).parent) && *final(final(self).parent.scope.parent) == *final(old(self).parent.scope.parent),
    {
        let p = byte_vec(v);
        proof {
            vstd::bytes::lemma_auto_spec_u16_to_from_le_bytes();
            vstd::bytes::lemma_auto_spec_u32_to_from_le_bytes();
            vstd::bytes::lemma_auto_spec_u64_to_from_le_bytes();
        }
        match self.push_field(p.as_slice()) {
            Err(e) => Err(e),
            Ok(_) => Ok(self),
        }
    }

    /// Appends the 1 payload byte of an `S8` as the next field.
    pub fn i8(&mut self, v: i8) -> (r: Result<&mut Self, Error>)
        requires
            old(self).wf(),
        ensures
            r is Ok <==> old(self).written() + 1 <= old(self).parent.stride,
            r matches Ok(f) ==> f.wf() && Self::grown(old(self), f, Value::S8(v).payload())
                && *final(f.parent) == *final(old(self).parent) && *final(f.parent.scope.parent)
                == *final(old(self).parent.scope.parent) && *final(f) == *final(self),
            r matches Err(e) ==> e == Error::ContainerFull && final(self).wf() && Self::same(
                old(self),
                final(self),
            ) && *final(final(self).parent) == *final(old(self).parent) && *final(final(self).parent.scope.parent) == *final(old(self).parent.scope.parent),
    {
        let p = byte_vec(v as u8);
        proof {
            vstd::bytes::lemma_auto_spec_u16_to_from_le_bytes();
            vstd::bytes::lemma_auto_spec_u32_to_from_le_bytes();
            vstd::bytes::lemma_auto_spec_u64_to_from_le_bytes();
        }
        match self.push_field(p.as_slice()) {
            Err(e) => Err(e),
            Ok(_) => Ok(self),
        }
    }

    /// Appends the 2 payload bytes of a `U16` as the next field.
    pub fn u16(&mut self, v: u16) -> (r: Result<&mut Self, Error>)
        requires
            old(self).wf(),
        ensures
            r is Ok <==> old(self).written() + 2 <= old(self).parent.stride,
            r matches Ok(f) ==> f.wf() && Self::grown(old(self), f, Value::U16(v).payload())
                && *final(f.parent) == *final(old(self).parent) && *final(f.parent.scope.parent)
                == *final(old(self).parent.scope.parent) && *final(f) == *final(self),
            r matches Err(e) ==> e == Error::ContainerFull && final(self).wf() && Self::same(
                old(self),
                final(self),
            ) && *final(final(self).parent) == *final(old(self).parent) && *final(final(self).parent.scope.parent) == *final(old(self).parent.scope.parent),
    {
        let p = u16_to_le_bytes(v);
        proof {
            vstd::bytes::lemma_auto_spec_u16_to_from_le_bytes();
            vstd::bytes::lemma_auto_spec_u32_to_from_le_bytes();
            vstd::bytes::lemma_auto_spec_u64_to_from_le_bytes();
        }
        match self.push_field(p.as_slice()) {
            Err(e) => Err(e),
            Ok(_) => Ok(self),
        }
    }

    /// Appends the 2 payload bytes of an `S16` as the next field.
    pub fn i16(&mut self, v: i16) -> (r: Result<&mut Self, Error>)
        requires
            old(self).wf(),
        ensures
            r is Ok <==> old(self).written() + 2 <= old(self).parent.stride,
            r matches Ok(f) ==> f.wf() && Self::grown(old(self), f, Value::S16(v).payload())
                && *final(f.parent) == *final(old(self).parent) && *final(f.parent.scope.parent)
                == *final(old(self).parent.scope.parent) && *final(f) == *final(self),
            r matches Err(e) ==> e == Error::ContainerFull && final(self).wf() && Self::same(
                old(self),
                final(self),
            ) && *final(final(self).parent) == *final(old(self).parent) && *final(final(self).parent.scope.parent) == *final(old(self).parent.scope.parent),
    {
        let p = u16_to_le_bytes(v as u16);
        proof {
            vstd::bytes::lemma_auto_spec_u16_to_from_le_bytes();
            vstd::bytes::lemma_auto_spec_u32_to_from_le_bytes();
            vstd::bytes::lemma_auto_spec_u64_to_from_le_bytes();
        }
        match self.push_field(p.as_slice()) {
            Err(e) => Err(e),
            Ok(_) => Ok(self),
        }
    }

    /// Appends the 4 payload bytes of a `U32` as the next field.
    pub fn u32(&mut self, v: u32) -> (r: Result<&mut Self, Error>)
        requires
            old(self).wf(),
        ensures
            r is Ok <==> old(self).written() + 4 <= old(self).parent.stride,
            r matches Ok(f) ==> f.wf() && Self::grown(old(self), f, Value::U32(v).payload())
                && *final(f.parent) == *final(old(self).parent) && *final(f.parent.scope.parent)
                == *final(old(self).parent.scope.parent) && *final(f) == *final(self),
            r matches Err(e) ==> e == Error::ContainerFull && final(self).wf() && Self::same(
                old(self),
                final(self),
            ) && *final(final(self).parent) == *final(old(self).parent) && *final(final(self).parent.scope.parent) == *final(old(self).parent.scope.parent),
    {
        let p = u32_to_le_bytes(v);
        proof {
            vstd::bytes::lemma_auto_spec_u16_to_from_le_bytes();
            vstd::bytes::lemma_auto_spec_u32_to_from_le_bytes();
            vstd::bytes::lemma_auto_spec_u64_to_from_le_bytes();
        }
        match self.push_field(p.as_slice()) {
            Err(e) => Err(e),
            Ok(_) => Ok(self),
        }
    }

    /// Appends the 4 payload bytes of an `S32` as the next field.
    pub fn i32(&mut self, v: i32) -> (r: Result<&mut Self, Error>)
        requires
            old(self).wf(),
        ensures
            r is Ok <==> old(self).written() + 4 <= old(self).parent.stride,
            r matches Ok(f) ==> f.wf() && Self::grown(old(self), f, Value::S32(v).payload())
                && *final(f.parent) == *final(old(self).parent) && *final(f.parent.scope.parent)
                == *final(old(self).parent.scope.parent) && *final(f) == *final(self),
            r matches Err(e) ==> e == Error::ContainerFull && final(self).wf() && Self::same(
                old(self),
                final(self),
            ) && *final(final(self).parent) == *final(old(self).parent) && *final(final(self).parent.scope.parent) == *final(old(self).parent.scope.parent),
    {
        let p = u32_to_le_bytes(v as u32);
        proof {
            vstd::bytes::lemma_auto_spec_u16_to_from_le_bytes();
            vstd::bytes::lemma_auto_spec_u32_to_from_le_bytes();
            vstd::bytes::lemma_auto_spec_u64_to_from_le_bytes();
        }
        match self.push_field(p.as_slice()) {
            Err(e) => Err(e),
            Ok(_) => Ok(self),
        }
    }

    /// Appends the 8 payload bytes of a `U64` as the next field.
    pub fn u64(&mut self, v: u64) -> (r: Result<&mut Self, Error>)
        requires
            old(self).wf(),
        ensures
            r is Ok <==> old(self).written() + 8 <= old(self).parent.stride,
            r matches Ok(f) ==> f.wf() && Self::grown(old(self), f, Value::U64(v).payload())
                && *final(f.parent) == *final(old(self).parent) && *final(f.parent.scope.parent)
                == *final(old(self).parent.scope.parent) && *final(f) == *final(self),
            r matches Err(e) ==> e == Error::ContainerFull && final(self).wf() && Self::same(
                old(self),
                final(self),
            ) && *final(final(self).parent) == *final(old(self).parent) && *final(final(self).parent.scope.parent) == *final(old(self).parent.scope.parent),
    {
        let p = u64_to_le_bytes(v);
        proof {
            vstd::bytes::lemma_auto_spec_u16_to_from_le_bytes();
            vstd::bytes::lemma_auto_spec_u32_to_from_le_bytes();
            vstd::bytes::lemma_auto_spec_u64_to_from_le_bytes();
        }
        match self.push_field(p.as_slice()) {
            Err(e) => Err(e),
            Ok(_) => Ok(self),
        }
    }

    /// Appends the 8 payload bytes of an `S64` as the next field.
    pub fn i64(&mut self, v: i64) -> (r: Result<&mut Self, Error>)
        requires
            old(self).wf(),
        ensures
            r is Ok <==> old(self).written() + 8 <= old(self).parent.stride,
            r matches Ok(f) ==> f.wf() && Self::grown(old(self), f, Value::S64(v).payload())
                && *final(f.parent) == *final(old(self).parent) && *final(f.parent.scope.parent)
                == *final(old(self).parent.scope.parent) && *final(f) == *final(self),
            r matches Err(e) ==> e == Error::ContainerFull && final(self).wf() && Self::same(
                old(self),
                final(self),
            ) && *final(final(self).parent) == *final(old(self).parent) && *final(final(self).parent.scope.parent) == *final(old(self).parent.scope.parent),
    {
        let p = u64_to_le_bytes(v as u64);
        proof {
            vstd::bytes::lemma_auto_spec_u16_to_from_le_bytes();
            vstd::bytes::lemma_auto_spec_u32_to_from_le_bytes();
            vstd::bytes::lemma_auto_spec_u64_to_from_le_bytes();
        }
        match self.push_field(p.as_slice()) {
            Err(e) => Err(e),
            Ok(_) => Ok(self),
        }
    }

    /// Appends the 4 payload bytes of an `F32`, given by its IEEE 754 bit pattern as the next field.
    pub fn f32_bits(&mut self, v: u32) -> (r: Result<&mut Self, Error>)
        requires
            old(self).wf(),
        ensures
            r is Ok <==> old(self).written() + 4 <= old(self).parent.stride,
            r matches Ok(f) ==> f.wf() && Self::grown(old(self), f, Value::F32(v).payload())
                && *final(f.parent) == *final(old(self).parent) && *final(f.parent.scope.parent)
                == *final(old(self).parent.scope.parent) && *final(f) == *final(self),
            r matches Err(e) ==> e == Error::ContainerFull && final(self).wf() && Self::same(
                old(self),
                final(self),
            ) && *final(final(self).parent) == *final(old(self).parent) && *final(final(self).parent.scope.parent) == *final(old(self).parent.scope.parent),
    {
        let p = u32_to_le_bytes(v);
        proof {
            vstd::bytes::lemma_auto_spec_u16_to_from_le_bytes();
            vstd::bytes::lemma_auto_spec_u32_to_from_le_bytes();
            vstd::bytes::lemma_auto_spec_u64_to_from_le_bytes();
        }
        match self.push_field(p.as_slice()) {
            Err(e) => Err(e),
            Ok(_) => Ok(self),
        }
    }

    /// Appends the 8 payload bytes of an `F64`, given by its IEEE 754 bit pattern as the next field.
    pub fn f64_bits(&mut self, v: u64) -> (r: Result<&mut Self, Error>)
        requires
            old(self).wf(),
        ensures
            r is Ok <==> old(self).written() + 8 <= old(self).parent.stride,
            r matches Ok(f) ==> f.wf() && Self::grown(old(self), f, Value::F64(v).payload())
                && *final(f.parent) == *final(old(self).parent) && *final(f.parent.scope.parent)
                == *final(old(self).parent.scope.parent) && *final(f) == *final(self),
            r matches Err(e) ==> e == Error::ContainerFull && final(self).wf() && Self::same(
                old(self),
                final(self),
            ) && *final(final(self).parent) == *final(old(self).parent) && *final(final(self).parent.scope.parent) == *final(old(self).parent.scope.parent),
    {
        let p = u64_to_le_bytes(v);
        proof {
            vstd::bytes::lemma_auto_spec_u16_to_from_le_bytes();
            vstd::bytes::lemma_auto_spec_u32_to_from_le_bytes();
            vstd::bytes::lemma_auto_spec_u64_to_from_le_bytes();
        }
        match self.push_field(p.as_slice()) {
            Err(e) => Err(e),
            Ok(_) => Ok(self),
        }
    }

    /// Closes the item. An item shorter than the stride is refused and taken
    /// out of the array again.
    pub fn finish(self) -> (r: Result<&'p mut ArrayEncoder<'a>, Error>)
        requires
            self.wf(),
        ensures
            r is Ok <==> self.written() == old(self.parent).stride,
            r matches Ok(a) ==> a.wf() && ArrayEncoder::same(old(self.parent), a) && *final(a)
                == *final(self.parent) && *final(a.scope.parent) == *final(old(self.parent).scope.parent),
            r matches Err(e) ==> e == Error::Malformed && final(self.parent).wf()
                && final(self.parent).stride == old(self.parent).stride
                && final(self.parent).scope.len_offset == old(self.parent).scope.len_offset
                && final(self.parent).scope.body_start_offset == old(self.parent).scope.body_start_offset && final(self.parent).scope.parent.buf@ == old(self.parent).scope.parent.buf@.subrange(0, self.start as int) && *final(final(self.parent).scope.parent) == *final(old(self.parent).scope.parent),
    {
        let end: usize = self.parent.scope.parent.buf.len();
        let written: usize = end - self.start;
        if written != self.parent.stride {
            self.parent.scope.parent.buf.truncate(self.start);
            return Err(Error::Malformed);
        }
        proof {
            vstd::arithmetic::div_mod::lemma_mod_add_multiples_vanish(
                self.start - self.parent.scope.body_start_offset - ARRAY_HEADER,
                self.parent.stride as int,
            );
        }
        Ok(self.parent)
    }
}

} // verus!
