//! Reading values back from bytes.
//!
//! Every read either succeeds and moves the cursor past what it read, or fails
//! and leaves the cursor where it was. A read that runs out of input fails
//! with `Pending`, so a caller can add bytes and ask again.

use vstd::prelude::*;
use vstd::bytes::{
    spec_u32_from_le_bytes, u16_from_le_bytes,
    u32_from_le_bytes, u64_from_le_bytes,
};
use vstd::slice::slice_subrange;
use vstd::string::StringSliceAdditionalSpecFns;
use vstd::utf8::valid_utf8;
use crate::neopack::types::{Tag, Error};
use crate::neopack::wire::{
    Value, LEN_WIDTH, ARRAY_HEADER, take, tag_at, payload_after, payload_at,
    framed_len, value_len, parse, scalar_value, array_value,
};

verus! {

/// `core::str::from_utf8`: the string slice that the bytes encode, or nothing
/// where they are not UTF-8. The slice covers exactly the given bytes.
#[verifier::external_body]
pub(crate) fn str_from_utf8<'a>(bytes: &'a [u8]) -> (r: Option<&'a str>)
    ensures
        r is Some <==> valid_utf8(bytes@),
        r matches Some(s) ==> s.spec_bytes() == bytes@,
{
    core::str::from_utf8(bytes).ok()
}

/// A cursor over a byte slice.
#[derive(Debug, Clone, Copy)]
pub struct Reader<'a> {
    pub buf: &'a [u8],
    pub pos: usize,
}

/// The result of a read, with the value given by its view.
pub open spec fn seen<T: View>(r: Result<T, Error>) -> Result<T::V, Error> {
    match r {
        Ok(v) => Ok(v@),
        Err(e) => Err(e),
    }
}

impl<'a> Reader<'a> {
    /// The cursor lies within the buffer.
    pub open spec fn wf(&self) -> bool {
        self.pos <= self.buf@.len() <= usize::MAX
    }

    /// The bytes from the cursor on.
    pub open spec fn rest(&self) -> Seq<u8> {
        self.buf@.subrange(self.pos as int, self.buf@.len() as int)
    }

    /// `post` is `pre` moved on by `n` bytes.
    pub open spec fn moved(pre: Self, post: Self, n: int) -> bool {
        post.buf == pre.buf && post.pos == pre.pos + n
    }

    /// `post` is what a read that found `r` leaves of `pre`: the cursor has
    /// moved past the `n` bytes if the read succeeded and stands still if not.
    pub open spec fn stepped<T>(pre: Self, post: Self, r: Result<T, Error>, n: int) -> bool {
        Self::moved(pre, post, if r is Ok { n } else { 0 })
    }

    /// `post` and `r` are what reading one value tagged `tag` leaves of `pre`.
    pub open spec fn read_as(pre: Self, post: Self, tag: Tag, r: Result<Value, Error>) -> bool {
        match payload_at(pre.buf@, pre.pos as int, tag) {
            Ok(p) => r == Value::from_payload(tag, p) && Self::stepped(
                pre,
                post,
                r,
                framed_len(tag, p),
            ),
            Err(e) => r == Err::<Value, Error>(e) && Self::moved(pre, post, 0),
        }
    }

    /// `post` and `r` are what reading one value of any kind leaves of `pre`.
    pub open spec fn read_any(pre: Self, post: Self, r: Result<Value, Error>) -> bool {
        match parse(pre.buf@, pre.pos as int) {
            Ok((v, n)) => r == Ok::<Value, Error>(v) && Self::moved(pre, post, n),
            Err(e) => r == Err::<Value, Error>(e) && Self::moved(pre, post, 0),
        }
    }

    pub fn new(buf: &'a [u8]) -> (r: Self)
        ensures
            r.buf == buf,
            r.pos == 0,
            r.wf(),
    {
        let _len: usize = buf.len();
        Reader { buf, pos: 0 }
    }

    pub fn pos(&self) -> (p: usize)
        ensures
            p == self.pos,
    {
        self.pos
    }

    /// Bytes left after the cursor.
    pub fn remaining(&self) -> (n: usize)
        ensures
            n == if self.pos <= self.buf@.len() {
                self.buf@.len() - self.pos
            } else {
                0
            },
    {
        let len: usize = self.buf.len();
        if self.pos <= len {
            len - self.pos
        } else {
            0
        }
    }

    fn need(&self, n: usize) -> (r: Result<(), Error>)
        requires
            self.wf(),
        ensures
            r is Ok <==> self.pos + n <= self.buf@.len(),
            r matches Err(e) ==> take(self.buf@, self.pos as int, n as int) == Err::<Seq<u8>, Error>(e),
    {
        let left: usize = self.remaining();
        if left < n {
            Err(Error::Pending(n - left))
        } else {
            Ok(())
        }
    }

    fn read_bytes(&mut self, len: usize) -> (r: Result<&'a [u8], Error>)
        requires
            old(self).wf(),
        ensures
            final(self).wf(),
            seen(r) == take(old(self).buf@, old(self).pos as int, len as int),
            Self::stepped(*old(self), *final(self), r, len as int),
    {
        match self.need(len) {
            Err(e) => Err(e),
            Ok(_) => {
                let slice = slice_subrange(self.buf, self.pos, self.pos + len);
                self.pos = self.pos + len;
                Ok(slice)
            },
        }
    }

    fn skip(&mut self, len: usize) -> (r: Result<(), Error>)
        requires
            old(self).wf(),
        ensures
            final(self).wf(),
            r is Ok <==> old(self).pos + len <= old(self).buf@.len(),
            r matches Err(e) ==> take(old(self).buf@, old(self).pos as int, len as int) == Err::<
                Seq<u8>,
                Error,
            >(e),
            Self::stepped(*old(self), *final(self), r, len as int),
    {
        match self.need(len) {
            Err(e) => Err(e),
            Ok(_) => {
                self.pos = self.pos + len;
                Ok(())
            },
        }
    }

    /// Reads the tag under the cursor and moves past it.
    pub fn read_tag(&mut self) -> (r: Result<Tag, Error>)
        requires
            old(self).wf(),
        ensures
            final(self).wf(),
            r == tag_at(old(self).buf@, old(self).pos as int),
            Self::stepped(*old(self), *final(self), r, 1),
    {
        match self.peek_tag() {
            Err(e) => Err(e),
            Ok(t) => {
                self.pos = self.pos + 1;
                Ok(t)
            },
        }
    }

    /// The tag under the cursor; the cursor stays.
    pub fn peek_tag(&self) -> (r: Result<Tag, Error>)
        requires
            self.wf(),
        ensures
            r == tag_at(self.buf@, self.pos as int),
    {
        match self.need(1) {
            Err(e) => Err(e),
            Ok(_) => {
                let byte: u8 = self.buf[self.pos];
                match Tag::from_u8(byte) {
                    Some(t) => Ok(t),
                    None => Err(Error::InvalidTag(byte)),
                }
            },
        }
    }

    /// Reads the length prefix under the cursor.
    fn read_len(&mut self) -> (r: Result<usize, Error>)
        requires
            old(self).wf(),
        ensures
            final(self).wf(),
            match take(old(self).buf@, old(self).pos as int, LEN_WIDTH as int) {
                Ok(l) => r == Ok::<usize, Error>(spec_u32_from_le_bytes(l) as usize),
                Err(e) => r == Err::<usize, Error>(e),
            },
            Self::stepped(*old(self), *final(self), r, LEN_WIDTH as int),
    {
        match self.read_bytes(LEN_WIDTH) {
            Err(e) => Err(e),
            Ok(l) => {
                let n: u32 = u32_from_le_bytes(l);
                Ok(n as usize)
            },
        }
    }

    /// Reads the payload that follows a tag which has just been read.
    fn read_payload(&mut self, tag: Tag) -> (r: Result<&'a [u8], Error>)
        requires
            old(self).wf(),
            old(self).pos >= 1,
        ensures
            final(self).wf(),
            final(self).buf == old(self).buf,
            seen(r) == payload_after(old(self).buf@, old(self).pos - 1, tag),
            r matches Ok(p) ==> final(self).pos == old(self).pos - 1 + framed_len(tag, p@),
            r is Err ==> final(self).pos == old(self).pos,
    {
        let start: usize = self.pos;
        match tag.fixed_width() {
            Some(w) => self.read_bytes(w),
            None => {
                match self.read_len() {
                    Err(e) => Err(e),
                    Ok(len) => match self.read_bytes(len) {
                        Err(e) => {
                            self.pos = start;
                            Err(e)
                        },
                        Ok(p) => Ok(p),
                    },
                }
            },
        }
    }

    /// Reads the tag, which must be `expected`, and the payload behind it.
    fn expect_payload(&mut self, expected: Tag) -> (r: Result<&'a [u8], Error>)
        requires
            old(self).wf(),
        ensures
            final(self).wf(),
            seen(r) == payload_at(old(self).buf@, old(self).pos as int, expected),
            r matches Ok(p) ==> Self::moved(*old(self), *final(self), framed_len(expected, p@)),
            r is Err ==> Self::moved(*old(self), *final(self), 0),
    {
        let start: usize = self.pos;
        match self.read_tag() {
            Err(e) => Err(e),
            Ok(tag) => {
                if tag != expected {
                    self.pos = start;
                    return Err(Error::TypeMismatch);
                }
                match self.read_payload(expected) {
                    Err(e) => {
                        self.pos = start;
                        Err(e)
                    },
                    Ok(p) => Ok(p),
                }
            },
        }
    }

    /// Reads a `Bool`.
    pub fn bool(&mut self) -> (r: Result<bool, Error>)
        requires
            old(self).wf(),
        ensures
            final(self).wf(),
            Self::read_as(
                *old(self),
                *final(self),
                Tag::Bool,
                match r {
                    Ok(v) => Ok(Value::Bool(v)),
                    Err(e) => Err(e),
                },
            ),
    {
        match self.expect_payload(Tag::Bool) {
            Err(e) => Err(e),
            Ok(p) => {
                proof {
                    assert(p@.subrange(0, p@.len() as int) == p@);
                }
                Ok(p[0] != 0)
            },
        }
    }

    /// Reads a `U8`.
    pub fn u8(&mut self) -> (r: Result<u8, Error>)
        requires
            old(self).wf(),
        ensures
            final(self).wf(),
            Self::read_as(
                *old(self),
                *final(self),
                Tag::U8,
                match r {
                    Ok(v) => Ok(Value::U8(v)),
                    Err(e) => Err(e),
                },
            ),
    {
        match self.expect_payload(Tag::U8) {
            Err(e) => Err(e),
            Ok(p) => {
                proof {
                    assert(p@.subrange(0, p@.len() as int) == p@);
                }
                Ok(p[0])
            },
        }
    }

    /// Reads an `S8`.
    pub fn i8(&mut self) -> (r: Result<i8, Error>)
        requires
            old(self).wf(),
        ensures
            final(self).wf(),
            Self::read_as(
                *old(self),
                *final(self),
                Tag::S8,
                match r {
                    Ok(v) => Ok(Value::S8(v)),
                    Err(e) => Err(e),
                },
            ),
    {
        match self.expect_payload(Tag::S8) {
            Err(e) => Err(e),
            Ok(p) => {
                proof {
                    assert(p@.subrange(0, p@.len() as int) == p@);
                }
                Ok(p[0] as i8)
            },
        }
    }

    /// Reads a `U16`.
    pub fn u16(&mut self) -> (r: Result<u16, Error>)
        requires
            old(self).wf(),
        ensures
            final(self).wf(),
            Self::read_as(
                *old(self),
                *final(self),
                Tag::U16,
                match r {
                    Ok(v) => Ok(Value::U16(v)),
                    Err(e) => Err(e),
                },
            ),
    {
        match self.expect_payload(Tag::U16) {
            Err(e) => Err(e),
            Ok(p) => {
                proof {
                    assert(p@.subrange(0, p@.len() as int) == p@);
                }
                Ok(u16_from_le_bytes(p))
            },
        }
    }

    /// Reads an `S16`.
    pub fn i16(&mut self) -> (r: Result<i16, Error>)
        requires
            old(self).wf(),
        ensures
            final(self).wf(),
            Self::read_as(
                *old(self),
                *final(self),
                Tag::S16,
                match r {
                    Ok(v) => Ok(Value::S16(v)),
                    Err(e) => Err(e),
                },
            ),
    {
        match self.expect_payload(Tag::S16) {
            Err(e) => Err(e),
            Ok(p) => {
                proof {
                    assert(p@.subrange(0, p@.len() as int) == p@);
                }
                Ok(u16_from_le_bytes(p) as i16)
            },
        }
    }

    /// Reads a `U32`.
    pub fn u32(&mut self) -> (r: Result<u32, Error>)
        requires
            old(self).wf(),
        ensures
            final(self).wf(),
            Self::read_as(
                *old(self),
                *final(self),
                Tag::U32,
                match r {
                    Ok(v) => Ok(Value::U32(v)),
                    Err(e) => Err(e),
                },
            ),
    {
        match self.expect_payload(Tag::U32) {
            Err(e) => Err(e),
            Ok(p) => {
                proof {
                    assert(p@.subrange(0, p@.len() as int) == p@);
                }
                Ok(u32_from_le_bytes(p))
            },
        }
    }

    /// Reads an `S32`.
    pub fn i32(&mut self) -> (r: Result<i32, Error>)
        requires
            old(self).wf(),
        ensures
            final(self).wf(),
            Self::read_as(
                *old(self),
                *final(self),
                Tag::S32,
                match r {
                    Ok(v) => Ok(Value::S32(v)),
                    Err(e) => Err(e),
                },
            ),
    {
        match self.expect_payload(Tag::S32) {
            Err(e) => Err(e),
            Ok(p) => {
                proof {
                    assert(p@.subrange(0, p@.len() as int) == p@);
                }
                Ok(u32_from_le_bytes(p) as i32)
            },
        }
    }

    /// Reads a `U64`.
    pub fn u64(&mut self) -> (r: Result<u64, Error>)
        requires
            old(self).wf(),
        ensures
            final(self).wf(),
            Self::read_as(
                *old(self),
                *final(self),
                Tag::U64,
                match r {
                    Ok(v) => Ok(Value::U64(v)),
                    Err(e) => Err(e),
                },
            ),
    {
        match self.expect_payload(Tag::U64) {
            Err(e) => Err(e),
            Ok(p) => {
                proof {
                    assert(p@.subrange(0, p@.len() as int) == p@);
                }
                Ok(u64_from_le_bytes(p))
            },
        }
    }

    /// Reads an `S64`.
    pub fn i64(&mut self) -> (r: Result<i64, Error>)
        requires
            old(self).wf(),
        ensures
            final(self).wf(),
            Self::read_as(
                *old(self),
                *final(self),
                Tag::S64,
                match r {
                    Ok(v) => Ok(Value::S64(v)),
                    Err(e) => Err(e),
                },
            ),
    {
        match self.expect_payload(Tag::S64) {
            Err(e) => Err(e),
            Ok(p) => {
                proof {
                    assert(p@.subrange(0, p@.len() as int) == p@);
                }
                Ok(u64_from_le_bytes(p) as i64)
            },
        }
    }

    /// Reads an `F32` and returns its IEEE 754 bit pattern.
    pub fn f32_bits(&mut self) -> (r: Result<u32, Error>)
        requires
            old(self).wf(),
        ensures
            final(self).wf(),
            Self::read_as(
                *old(self),
                *final(self),
                Tag::F32,
                match r {
                    Ok(v) => Ok(Value::F32(v)),
                    Err(e) => Err(e),
                },
            ),
    {
        match self.expect_payload(Tag::F32) {
            Err(e) => Err(e),
            Ok(p) => {
                proof {
                    assert(p@.subrange(0, p@.len() as int) == p@);
                }
                Ok(u32_from_le_bytes(p))
            },
        }
    }

    /// Reads an `F64` and returns its IEEE 754 bit pattern.
    pub fn f64_bits(&mut self) -> (r: Result<u64, Error>)
        requires
            old(self).wf(),
        ensures
            final(self).wf(),
            Self::read_as(
                *old(self),
                *final(self),
                Tag::F64,
                match r {
                    Ok(v) => Ok(Value::F64(v)),
                    Err(e) => Err(e),
                },
            ),
    {
        match self.expect_payload(Tag::F64) {
            Err(e) => Err(e),
            Ok(p) => {
                proof {
                    assert(p@.subrange(0, p@.len() as int) == p@);
                }
                Ok(u64_from_le_bytes(p))
            },
        }
    }

    /// Reads a `String`.
    pub fn str(&mut self) -> (r: Result<&'a str, Error>)
        requires
            old(self).wf(),
        ensures
            final(self).wf(),
            Self::read_as(
                *old(self),
                *final(self),
                Tag::String,
                match r {
                    Ok(v) => Ok(Value::String(v.spec_bytes())),
                    Err(e) => Err(e),
                },
            ),
    {
        let start: usize = self.pos;
        match self.expect_payload(Tag::String) {
            Err(e) => Err(e),
            Ok(p) => match str_from_utf8(p) {
                Some(v) => Ok(v),
                None => {
                    self.pos = start;
                    Err(Error::InvalidUtf8)
                },
            },
        }
    }

    /// Reads a `Bytes` blob.
    pub fn bytes(&mut self) -> (r: Result<&'a [u8], Error>)
        requires
            old(self).wf(),
        ensures
            final(self).wf(),
            Self::read_as(
                *old(self),
                *final(self),
                Tag::Bytes,
                match r {
                    Ok(v) => Ok(Value::Bytes(v@)),
                    Err(e) => Err(e),
                },
            ),
    {
        self.expect_payload(Tag::Bytes)
    }

    /// Reads a `Struct` blob without looking into it.
    pub fn record_blob(&mut self) -> (r: Result<&'a [u8], Error>)
        requires
            old(self).wf(),
        ensures
            final(self).wf(),
            Self::read_as(
                *old(self),
                *final(self),
                Tag::Struct,
                match r {
                    Ok(v) => Ok(Value::Struct(v@)),
                    Err(e) => Err(e),
                },
            ),
    {
        self.expect_payload(Tag::Struct)
    }

    /// Moves past one value of any kind, reading only its tag and, where it
    /// has one, its length prefix.
    pub fn skip_value(&mut self) -> (r: Result<(), Error>)
        requires
            old(self).wf(),
        ensures
            final(self).wf(),
            match value_len(old(self).buf@, old(self).pos as int) {
                Ok(n) => r is Ok && n >= 1 && Self::moved(*old(self), *final(self), n),
                Err(e) => r == Err::<(), Error>(e) && Self::moved(*old(self), *final(self), 0),
            },
    {
        let start: usize = self.pos;
        match self.read_tag() {
            Err(e) => Err(e),
            Ok(tag) => match self.read_payload(tag) {
                Err(e) => {
                    self.pos = start;
                    Err(e)
                },
                Ok(_) => Ok(()),
            },
        }
    }

    /// Moves past one value of any kind and returns its bytes as they stand
    /// in the buffer, tag and length prefix included.
    pub fn raw_value(&mut self) -> (r: Result<&'a [u8], Error>)
        requires
            old(self).wf(),
        ensures
            final(self).wf(),
            match value_len(old(self).buf@, old(self).pos as int) {
                Ok(n) => r matches Ok(b) && n >= 1 && b@ == old(self).buf@.subrange(
                    old(self).pos as int,
                    old(self).pos + n,
                ) && Self::moved(*old(self), *final(self), n),
                Err(e) => r matches Err(x) && x == e && Self::moved(*old(self), *final(self), 0),
            },
    {
        let start: usize = self.pos;
        match self.skip_value() {
            Err(e) => Err(e),
            Ok(_) => Ok(slice_subrange(self.buf, start, self.pos)),
        }
    }

    /// Reads a value of any kind.
    pub fn value(&mut self) -> (r: Result<ValueReader<'a>, Error>)
        requires
            old(self).wf(),
        ensures
            final(self).wf(),
            Self::read_any(*old(self), *final(self), seen(r)),
            r matches Ok(v) ==> v.wf(),
    {
        ValueReader::read(self)
    }

    /// Reads a `List` and returns an iterator over its elements.
    pub fn list(&mut self) -> (r: Result<ListIter<'a>, Error>)
        requires
            old(self).wf(),
        ensures
            final(self).wf(),
            Self::read_as(
                *old(self),
                *final(self),
                Tag::List,
                match r {
                    Ok(it) => Ok(Value::List(it@)),
                    Err(e) => Err(e),
                },
            ),
            r matches Ok(it) ==> it.wf() && it.reader.pos == 0,
    {
        match self.expect_payload(Tag::List) {
            Err(e) => Err(e),
            Ok(p) => Ok(ListIter::over(p)),
        }
    }

    /// Reads a map and returns an iterator over its entries.
    pub fn map(&mut self) -> (r: Result<MapIter<'a>, Error>)
        requires
            old(self).wf(),
        ensures
            final(self).wf(),
            Self::read_as(
                *old(self),
                *final(self),
                Tag::Dict,
                match r {
                    Ok(it) => Ok(Value::Dict(it@)),
                    Err(e) => Err(e),
                },
            ),
            r matches Ok(it) ==> it.wf() && it.reader.pos == 0,
    {
        match self.expect_payload(Tag::Dict) {
            Err(e) => Err(e),
            Ok(p) => Ok(MapIter::over(p)),
        }
    }

    /// Reads an `Array` and returns an iterator over its items. An array
    /// whose header is cut short, whose stride is zero, that holds no item,
    /// or whose items do not fill it in whole strides is `Malformed`.
    pub fn array(&mut self) -> (r: Result<ArrayIter<'a>, Error>)
        requires
            old(self).wf(),
        ensures
            final(self).wf(),
            Self::read_as(*old(self), *final(self), Tag::Array, seen(r)),
            r matches Ok(it) ==> it.wf() && it.reader.pos == ARRAY_HEADER,
    {
        let start: usize = self.pos;
        match self.expect_payload(Tag::Array) {
            Err(e) => Err(e),
            Ok(p) => match ArrayIter::over(p) {
                Err(e) => {
                    self.pos = start;
                    Err(e)
                },
                Ok(it) => Ok(it),
            },
        }
    }

    /// Reads a `Struct` and returns a reader over its fields.
    pub fn record(&mut self) -> (r: Result<RecordReader<'a>, Error>)
        requires
            old(self).wf(),
        ensures
            final(self).wf(),
            Self::read_as(
                *old(self),
                *final(self),
                Tag::Struct,
                match r {
                    Ok(rec) => Ok(Value::Struct(rec.inner.buf@)),
                    Err(e) => Err(e),
                },
            ),
            r matches Ok(rec) ==> rec.wf() && rec.inner.pos == 0 && rec.validate,
    {
        match self.record_blob() {
            Err(e) => Err(e),
            Ok(p) => Ok(RecordReader::new(p)),
        }
    }
}

/// An iterator over the elements of a list.
#[derive(Debug, Clone, Copy)]
pub struct ListIter<'a> {
    pub reader: Reader<'a>,
    pub end_pos: usize,
}

impl<'a> View for ListIter<'a> {
    type V = Seq<u8>;

    /// The bytes of the elements that are still to come.
    open spec fn view(&self) -> Seq<u8> {
        self.reader.rest()
    }
}

impl<'a> ListIter<'a> {
    pub open spec fn wf(&self) -> bool {
        self.reader.wf() && self.end_pos == self.reader.buf@.len()
    }

    fn over(body: &'a [u8]) -> (it: Self)
        ensures
            it.wf(),
            it.reader.buf == body,
            it.reader.pos == 0,
            it@ == body@,
    {
        let end_pos: usize = body.len();
        ListIter { reader: Reader::new(body), end_pos }
    }

    /// The next element, or `None` once the body is used up.
    pub fn next(&mut self) -> (r: Result<Option<ValueReader<'a>>, Error>)
        requires
            old(self).wf(),
        ensures
            final(self).wf(),
            final(self).end_pos == old(self).end_pos,
            old(self)@.len() == 0 ==> (r matches Ok(None)) && *final(self) == *old(self),
            old(self)@.len() > 0 ==> match r {
                Ok(Some(v)) => v.wf() && Reader::read_any(
                    old(self).reader,
                    final(self).reader,
                    Ok(v@),
                ),
                Ok(None) => false,
                Err(e) => Reader::read_any(old(self).reader, final(self).reader, Err(e)),
            },
    {
        if self.reader.pos >= self.end_pos {
            return Ok(None);
        }
        match ValueReader::read(&mut self.reader) {
            Err(e) => Err(e),
            Ok(v) => Ok(Some(v)),
        }
    }
}

/// An iterator over the entries of a map, in the order they were written.
#[derive(Debug, Clone, Copy)]
pub struct MapIter<'a> {
    pub reader: Reader<'a>,
    pub end_pos: usize,
}

impl<'a> View for MapIter<'a> {
    type V = Seq<u8>;

    /// The bytes of the entries that are still to come.
    open spec fn view(&self) -> Seq<u8> {
        self.reader.rest()
    }
}

/// The entry at `pos`: its key's UTF-8 bytes, its value, and the entry's
/// length on the wire.
pub open spec fn entry_at(s: Seq<u8>, pos: int) -> Result<(Seq<u8>, Value, int), Error> {
    match payload_at(s, pos, Tag::String) {
        Err(e) => Err(e),
        Ok(k) => if !valid_utf8(k) {
            Err(Error::InvalidUtf8)
        } else {
            match parse(s, pos + framed_len(Tag::String, k)) {
                Err(e) => Err(e),
                Ok((v, n)) => Ok((k, v, framed_len(Tag::String, k) + n)),
            }
        },
    }
}

impl<'a> MapIter<'a> {
    pub open spec fn wf(&self) -> bool {
        self.reader.wf() && self.end_pos == self.reader.buf@.len()
    }

    fn over(body: &'a [u8]) -> (it: Self)
        ensures
            it.wf(),
            it.reader.buf == body,
            it.reader.pos == 0,
            it@ == body@,
    {
        let end_pos: usize = body.len();
        MapIter { reader: Reader::new(body), end_pos }
    }

    /// The next key and value, or `None` once the body is used up.
    pub fn next(&mut self) -> (r: Result<Option<(&'a str, ValueReader<'a>)>, Error>)
        requires
            old(self).wf(),
        ensures
            final(self).wf(),
            final(self).end_pos == old(self).end_pos,
            old(self)@.len() == 0 ==> (r matches Ok(None)) && *final(self) == *old(self),
            old(self)@.len() > 0 ==> match entry_at(
                old(self).reader.buf@,
                old(self).reader.pos as int,
            ) {
                Ok((k, v, n)) => r matches Ok(Some(kv)) && kv.0.spec_bytes() == k && kv.1@ == v
                    && kv.1.wf() && Reader::moved(old(self).reader, final(self).reader, n),
                Err(e) => r matches Err(x) && x == e && Reader::moved(
                    old(self).reader,
                    final(self).reader,
                    0,
                ),
            },
    {
        if self.reader.pos >= self.end_pos {
            return Ok(None);
        }
        let start: usize = self.reader.pos;
        match self.reader.str() {
            Err(e) => Err(e),
            Ok(key) => match ValueReader::read(&mut self.reader) {
                Err(e) => {
                    self.reader.pos = start;
                    Err(e)
                },
                Ok(v) => Ok(Some((key, v))),
            },
        }
    }
}

/// An iterator over the items of an array. Every item is `stride` bytes long
/// and is read under the array's item tag.
#[derive(Debug, Clone, Copy)]
pub struct ArrayIter<'a> {
    pub reader: Reader<'a>,
    pub item_tag: Tag,
    pub stride: usize,
    pub remaining: usize,
}

impl<'a> View for ArrayIter<'a> {
    type V = Value;

    /// The array of the items that are still to come.
    open spec fn view(&self) -> Value {
        Value::Array(self.item_tag, self.stride as int, self.reader.rest())
    }
}

impl<'a> ArrayIter<'a> {
    pub open spec fn wf(&self) -> bool {
        &&& self.reader.wf()
        &&& self.stride > 0
        &&& self.remaining * self.stride == self.reader.rest().len()
    }

    /// The iterator over an array's body, header included.
    fn over(body: &'a [u8]) -> (r: Result<Self, Error>)
        ensures
            seen(r) == array_value(body@),
            r matches Ok(it) ==> it.wf() && it.reader.buf == body && it.reader.pos == ARRAY_HEADER,
    {
        let len: usize = body.len();
        if len < ARRAY_HEADER {
            return Err(Error::Malformed);
        }
        let item_byte: u8 = body[0];
        let item_tag = match Tag::from_u8(item_byte) {
            Some(t) => t,
            None => {
                return Err(Error::InvalidTag(item_byte));
            },
        };
        let stride32: u32 = u32_from_le_bytes(slice_subrange(body, 1, ARRAY_HEADER));
        let stride: usize = stride32 as usize;
        let payload_len: usize = len - ARRAY_HEADER;
        if stride == 0 || payload_len == 0 || payload_len % stride != 0 {
            return Err(Error::Malformed);
        }
        let count: usize = payload_len / stride;
        proof {
            vstd::arithmetic::div_mod::lemma_fundamental_div_mod(payload_len as int, stride as int);
            assert(count * stride == payload_len) by (nonlinear_arith)
                requires
                    payload_len == stride * (payload_len as int / stride as int) + 0,
                    count == payload_len as int / stride as int,
            ;
        }
        Ok(ArrayIter { reader: Reader { buf: body, pos: ARRAY_HEADER }, item_tag, stride, remaining: count })
    }

    pub fn item_tag(&self) -> (t: Tag)
        ensures
            t == self.item_tag,
    {
        self.item_tag
    }

    pub fn stride(&self) -> (n: usize)
        ensures
            n == self.stride,
    {
        self.stride
    }

    /// Items still to come.
    pub fn remaining(&self) -> (n: usize)
        ensures
            n == self.remaining,
    {
        self.remaining
    }

    /// The next item, or `None` after the last. The item is used up even
    /// where its bytes do not hold a value of the item tag.
    pub fn next(&mut self) -> (r: Result<Option<ValueReader<'a>>, Error>)
        requires
            old(self).wf(),
        ensures
            final(self).wf(),
            final(self).item_tag == old(self).item_tag,
            final(self).stride == old(self).stride,
            old(self).remaining == 0 ==> (r matches Ok(None)) && *final(self) == *old(self),
            old(self).remaining > 0 ==> {
                &&& final(self).remaining == old(self).remaining - 1
                &&& Reader::moved(old(self).reader, final(self).reader, old(self).stride as int)
                &&& match Value::from_payload(
                    old(self).item_tag,
                    old(self).reader.rest().subrange(0, old(self).stride as int),
                ) {
                    Ok(v) => r matches Ok(Some(x)) && x@ == v && x.wf(),
                    Err(e) => r matches Err(x) && x == e,
                }
            },
    {
        if self.remaining == 0 {
            return Ok(None);
        }
        proof {
            assert(self.remaining * self.stride >= self.stride) by (nonlinear_arith)
                requires
                    self.remaining >= 1,
            ;
            assert((self.remaining - 1) * self.stride == self.remaining * self.stride
                - self.stride) by (nonlinear_arith);
        }
        self.remaining = self.remaining - 1;
        let ghost before = self.reader;
        match self.reader.read_bytes(self.stride) {
            Err(e) => Err(e),
            Ok(bytes) => {
                proof {
                    assert(bytes@ == before.rest().subrange(0, self.stride as int));
                    assert(self.reader.rest().len() == before.rest().len() - self.stride);
                }
                match ValueReader::from_untagged_bytes(self.item_tag, bytes) {
                    Err(e) => Err(e),
                    Ok(v) => Ok(Some(v)),
                }
            },
        }
    }

    /// Moves past all items that are still to come.
    pub fn skip_all(&mut self) -> (r: Result<(), Error>)
        requires
            old(self).wf(),
        ensures
            final(self).wf(),
            r is Ok,
            final(self).remaining == 0,
            final(self).item_tag == old(self).item_tag,
            final(self).stride == old(self).stride,
            Reader::moved(old(self).reader, final(self).reader, old(self).reader.rest().len() as int),
    {
        if self.remaining > 0 {
            let skip: usize = self.remaining * self.stride;
            match self.reader.skip(skip) {
                Err(e) => {
                    return Err(e);
                },
                Ok(_) => {},
            }
            self.remaining = 0;
        }
        proof {
            assert(0 * self.stride == 0) by (nonlinear_arith);
        }
        Ok(())
    }
}

/// A decoded value. Scalars are held by value, blobs and strings borrow
/// from the input, containers are iterators over their body.
#[derive(Debug, Clone, Copy)]
pub enum ValueReader<'a> {
    Bool(bool),
    U8(u8),
    S8(i8),
    U16(u16),
    S16(i16),
    U32(u32),
    S32(i32),
    U64(u64),
    S64(i64),
    /// The IEEE 754 bit pattern of a single-precision number.
    F32(u32),
    /// The IEEE 754 bit pattern of a double-precision number.
    F64(u64),
    Bytes(&'a [u8]),
    Struct(&'a [u8]),
    String(&'a str),
    List(ListIter<'a>),
    Dict(MapIter<'a>),
    Array(ArrayIter<'a>),
}

impl<'a> View for ValueReader<'a> {
    type V = Value;

    open spec fn view(&self) -> Value {
        match *self {
            ValueReader::Bool(v) => Value::Bool(v),
            ValueReader::U8(v) => Value::U8(v),
            ValueReader::S8(v) => Value::S8(v),
            ValueReader::U16(v) => Value::U16(v),
            ValueReader::S16(v) => Value::S16(v),
            ValueReader::U32(v) => Value::U32(v),
            ValueReader::S32(v) => Value::S32(v),
            ValueReader::U64(v) => Value::U64(v),
            ValueReader::S64(v) => Value::S64(v),
            ValueReader::F32(v) => Value::F32(v),
            ValueReader::F64(v) => Value::F64(v),
            ValueReader::Bytes(b) => Value::Bytes(b@),
            ValueReader::Struct(b) => Value::Struct(b@),
            ValueReader::String(s) => Value::String(s.spec_bytes()),
            ValueReader::List(it) => Value::List(it@),
            ValueReader::Dict(it) => Value::Dict(it@),
            ValueReader::Array(it) => it@,
        }
    }
}

impl<'a> ValueReader<'a> {
    /// A container's iterator is well formed and stands before the first
    /// element.
    pub open spec fn wf(&self) -> bool {
        match *self {
            ValueReader::List(it) => it.wf() && it.reader.pos == 0,
            ValueReader::Dict(it) => it.wf() && it.reader.pos == 0,
            ValueReader::Array(it) => it.wf() && it.reader.pos == ARRAY_HEADER,
            _ => true,
        }
    }

    /// The value that `bytes` hold under `tag`. A scalar is read from the
    /// first bytes; fewer bytes than the scalar is wide are `Malformed`.
    pub fn from_untagged_bytes(tag: Tag, bytes: &'a [u8]) -> (r: Result<Self, Error>)
        ensures
            seen(r) == Value::from_payload(tag, bytes@),
            r matches Ok(v) ==> v.wf(),
    {
        match tag.fixed_width() {
            Some(w) => {
                if bytes.len() < w {
                    return Err(Error::Malformed);
                }
                let p = slice_subrange(bytes, 0, w);
                Ok(
                    match tag {
                        Tag::Bool => ValueReader::Bool(p[0] != 0),
                        Tag::U8 => ValueReader::U8(p[0]),
                        Tag::S8 => ValueReader::S8(p[0] as i8),
                        Tag::U16 => ValueReader::U16(u16_from_le_bytes(p)),
                        Tag::S16 => ValueReader::S16(u16_from_le_bytes(p) as i16),
                        Tag::U32 => ValueReader::U32(u32_from_le_bytes(p)),
                        Tag::S32 => ValueReader::S32(u32_from_le_bytes(p) as i32),
                        Tag::U64 => ValueReader::U64(u64_from_le_bytes(p)),
                        Tag::S64 => ValueReader::S64(u64_from_le_bytes(p) as i64),
                        Tag::F32 => ValueReader::F32(u32_from_le_bytes(p)),
                        _ => ValueReader::F64(u64_from_le_bytes(p)),
                    },
                )
            },
            None => match tag {
                Tag::String => match str_from_utf8(bytes) {
                    Some(s) => Ok(ValueReader::String(s)),
                    None => Err(Error::InvalidUtf8),
                },
                Tag::Bytes => Ok(ValueReader::Bytes(bytes)),
                Tag::Struct => Ok(ValueReader::Struct(bytes)),
                Tag::List => Ok(ValueReader::List(ListIter::over(bytes))),
                Tag::Dict => Ok(ValueReader::Dict(MapIter::over(bytes))),
                _ => match ArrayIter::over(bytes) {
                    Ok(it) => Ok(ValueReader::Array(it)),
                    Err(e) => Err(e),
                },
            },
        }
    }

    /// Reads the value under the reader's cursor.
    pub fn read(r: &mut Reader<'a>) -> (res: Result<Self, Error>)
        requires
            old(r).wf(),
        ensures
            final(r).wf(),
            Reader::read_any(*old(r), *final(r), seen(res)),
            res matches Ok(v) ==> v.wf(),
    {
        let start: usize = r.pos;
        let tag = match r.read_tag() {
            Ok(t) => t,
            Err(e) => {
                return Err(e);
            },
        };
        let bytes = match r.read_payload(tag) {
            Ok(b) => b,
            Err(e) => {
                r.pos = start;
                return Err(e);
            },
        };
        match Self::from_untagged_bytes(tag, bytes) {
            Ok(v) => Ok(v),
            Err(e) => {
                r.pos = start;
                Err(e)
            },
        }
    }

    /// The value if it is a `Bool`.
    pub fn as_bool(&self) -> (r: Result<bool, Error>)
        ensures
            r == (match self@ {
                Value::Bool(v) => Ok(v),
                _ => Err(Error::TypeMismatch),
            }),
    {
        match self {
            ValueReader::Bool(v) => Ok(*v),
            _ => Err(Error::TypeMismatch),
        }
    }

    /// The value if it is a `U8`.
    pub fn as_u8(&self) -> (r: Result<u8, Error>)
        ensures
            r == (match self@ {
                Value::U8(v) => Ok(v),
                _ => Err(Error::TypeMismatch),
            }),
    {
        match self {
            ValueReader::U8(v) => Ok(*v),
            _ => Err(Error::TypeMismatch),
        }
    }

    /// The value if it is an `S8`.
    pub fn as_i8(&self) -> (r: Result<i8, Error>)
        ensures
            r == (match self@ {
                Value::S8(v) => Ok(v),
                _ => Err(Error::TypeMismatch),
            }),
    {
        match self {
            ValueReader::S8(v) => Ok(*v),
            _ => Err(Error::TypeMismatch),
        }
    }

    /// The value if it is a `U16`.
    pub fn as_u16(&self) -> (r: Result<u16, Error>)
        ensures
            r == (match self@ {
                Value::U16(v) => Ok(v),
                _ => Err(Error::TypeMismatch),
            }),
    {
        match self {
            ValueReader::U16(v) => Ok(*v),
            _ => Err(Error::TypeMismatch),
        }
    }

    /// The value if it is an `S16`.
    pub fn as_i16(&self) -> (r: Result<i16, Error>)
        ensures
            r == (match self@ {
                Value::S16(v) => Ok(v),
                _ => Err(Error::TypeMismatch),
            }),
    {
        match self {
            ValueReader::S16(v) => Ok(*v),
            _ => Err(Error::TypeMismatch),
        }
    }

    /// The value if it is a `U32`.
    pub fn as_u32(&self) -> (r: Result<u32, Error>)
        ensures
            r == (match self@ {
                Value::U32(v) => Ok(v),
                _ => Err(Error::TypeMismatch),
            }),
    {
        match self {
            ValueReader::U32(v) => Ok(*v),
            _ => Err(Error::TypeMismatch),
        }
    }

    /// The value if it is an `S32`.
    pub fn as_i32(&self) -> (r: Result<i32, Error>)
        ensures
            r == (match self@ {
                Value::S32(v) => Ok(v),
                _ => Err(Error::TypeMismatch),
            }),
    {
        match self {
            ValueReader::S32(v) => Ok(*v),
            _ => Err(Error::TypeMismatch),
        }
    }

    /// The value if it is a `U64`.
    pub fn as_u64(&self) -> (r: Result<u64, Error>)
        ensures
            r == (match self@ {
                Value::U64(v) => Ok(v),
                _ => Err(Error::TypeMismatch),
            }),
    {
        match self {
            ValueReader::U64(v) => Ok(*v),
            _ => Err(Error::TypeMismatch),
        }
    }

    /// The value if it is an `S64`.
    pub fn as_i64(&self) -> (r: Result<i64, Error>)
        ensures
            r == (match self@ {
                Value::S64(v) => Ok(v),
                _ => Err(Error::TypeMismatch),
            }),
    {
        match self {
            ValueReader::S64(v) => Ok(*v),
            _ => Err(Error::TypeMismatch),
        }
    }

    /// The value if it is an `F32`, as its bit pattern.
    pub fn as_f32_bits(&self) -> (r: Result<u32, Error>)
        ensures
            r == (match self@ {
                Value::F32(v) => Ok(v),
                _ => Err(Error::TypeMismatch),
            }),
    {
        match self {
            ValueReader::F32(v) => Ok(*v),
            _ => Err(Error::TypeMismatch),
        }
    }

    /// The value if it is an `F64`, as its bit pattern.
    pub fn as_f64_bits(&self) -> (r: Result<u64, Error>)
        ensures
            r == (match self@ {
                Value::F64(v) => Ok(v),
                _ => Err(Error::TypeMismatch),
            }),
    {
        match self {
            ValueReader::F64(v) => Ok(*v),
            _ => Err(Error::TypeMismatch),
        }
    }

    /// The string if the value is one.
    pub fn as_str(&self) -> (r: Result<&'a str, Error>)
        ensures
            match self@ {
                Value::String(b) => r matches Ok(s) && s.spec_bytes() == b,
                _ => r matches Err(e) && e == Error::TypeMismatch,
            },
    {
        match self {
            ValueReader::String(v) => Ok(*v),
            _ => Err(Error::TypeMismatch),
        }
    }

    /// The bytes if the value is a `Bytes` blob.
    pub fn as_bytes(&self) -> (r: Result<&'a [u8], Error>)
        ensures
            match self@ {
                Value::Bytes(b) => r matches Ok(s) && s@ == b,
                _ => r matches Err(e) && e == Error::TypeMismatch,
            },
    {
        match self {
            ValueReader::Bytes(v) => Ok(*v),
            _ => Err(Error::TypeMismatch),
        }
    }
}

/// A reader over the fields of a record. The fields carry no tags: the caller
/// knows the layout and asks for each field in turn.
#[derive(Debug, Clone, Copy)]
pub struct RecordReader<'a> {
    pub inner: Reader<'a>,
    pub end: usize,
    pub validate: bool,
}

impl<'a> RecordReader<'a> {
    pub open spec fn wf(&self) -> bool {
        self.inner.wf() && self.end == self.inner.buf@.len()
    }

    /// A reader that expects every byte of `data` to be read.
    pub fn new(data: &'a [u8]) -> (r: Self)
        ensures
            r.wf(),
            r.inner.buf == data,
            r.inner.pos == 0,
            r.validate,
    {
        let end: usize = data.len();
        RecordReader { end, inner: Reader::new(data), validate: true }
    }

    /// A reader that may be left with bytes unread.
    pub fn new_unchecked(data: &'a [u8]) -> (r: Self)
        ensures
            r.wf(),
            r.inner.buf == data,
            r.inner.pos == 0,
            !r.validate,
    {
        let end: usize = data.len();
        RecordReader { end, inner: Reader::new(data), validate: false }
    }

    /// Gives up the expectation that every byte is read.
    pub fn skip_validation(self) -> (r: Self)
        ensures
            r.inner == self.inner,
            r.end == self.end,
            !r.validate,
    {
        RecordReader { inner: self.inner, end: self.end, validate: false }
    }

    /// Bytes not yet read.
    pub fn remaining(&self) -> (n: usize)
        requires
            self.wf(),
        ensures
            n == self.inner.rest().len(),
    {
        self.inner.remaining()
    }

    /// All bytes of the record.
    pub fn raw(&self) -> (b: &'a [u8])
        ensures
            b == self.inner.buf,
    {
        self.inner.buf
    }

    /// The next `len` bytes.
    pub fn bytes(&mut self, len: usize) -> (r: Result<&'a [u8], Error>)
        requires
            old(self).wf(),
        ensures
            final(self).wf(),
            final(self).validate == old(self).validate,
            seen(r) == take(old(self).inner.buf@, old(self).inner.pos as int, len as int),
            Reader::stepped(old(self).inner, final(self).inner, r, len as int),
    {
        self.inner.read_bytes(len)
    }

    /// Whether the record has been read to its end, or need not be.
    pub fn finished(&self) -> (b: bool)
        ensures
            b == (!self.validate || self.inner.pos == self.end),
    {
        !self.validate || self.inner.pos == self.end
    }

    /// The next field as a `bool`.
    pub fn bool(&mut self) -> (r: Result<bool, Error>)
        requires
            old(self).wf(),
        ensures
            final(self).wf(),
            final(self).validate == old(self).validate,
            Reader::stepped(old(self).inner, final(self).inner, r, 1),
            match take(old(self).inner.buf@, old(self).inner.pos as int, 1) {
                Ok(p) => r matches Ok(v) && Value::Bool(v) == scalar_value(Tag::Bool, p),
                Err(e) => r matches Err(x) && x == e,
            },
    {
        match self.inner.read_bytes(1) {
            Err(e) => Err(e),
            Ok(p) => Ok(p[0] != 0),
        }
    }

    /// The next field as a `u8`.
    pub fn u8(&mut self) -> (r: Result<u8, Error>)
        requires
            old(self).wf(),
        ensures
            final(self).wf(),
            final(self).validate == old(self).validate,
            Reader::stepped(old(self).inner, final(self).inner, r, 1),
            match take(old(self).inner.buf@, old(self).inner.pos as int, 1) {
                Ok(p) => r matches Ok(v) && Value::U8(v) == scalar_value(Tag::U8, p),
                Err(e) => r matches Err(x) && x == e,
            },
    {
        match self.inner.read_bytes(1) {
            Err(e) => Err(e),
            Ok(p) => Ok(p[0]),
        }
    }

    /// The next field as an `i8`.
    pub fn i8(&mut self) -> (r: Result<i8, Error>)
        requires
            old(self).wf(),
        ensures
            final(self).wf(),
            final(self).validate == old(self).validate,
            Reader::stepped(old(self).inner, final(self).inner, r, 1),
            match take(old(self).inner.buf@, old(self).inner.pos as int, 1) {
                Ok(p) => r matches Ok(v) && Value::S8(v) == scalar_value(Tag::S8, p),
                Err(e) => r matches Err(x) && x == e,
            },
    {
        match self.inner.read_bytes(1) {
            Err(e) => Err(e),
            Ok(p) => Ok(p[0] as i8),
        }
    }

    /// The next field as a `u16`.
    pub fn u16(&mut self) -> (r: Result<u16, Error>)
        requires
            old(self).wf(),
        ensures
            final(self).wf(),
            final(self).validate == old(self).validate,
            Reader::stepped(old(self).inner, final(self).inner, r, 2),
            match take(old(self).inner.buf@, old(self).inner.pos as int, 2) {
                Ok(p) => r matches Ok(v) && Value::U16(v) == scalar_value(Tag::U16, p),
                Err(e) => r matches Err(x) && x == e,
            },
    {
        match self.inner.read_bytes(2) {
            Err(e) => Err(e),
            Ok(p) => Ok(u16_from_le_bytes(p)),
        }
    }

    /// The next field as an `i16`.
    pub fn i16(&mut self) -> (r: Result<i16, Error>)
        requires
            old(self).wf(),
        ensures
            final(self).wf(),
            final(self).validate == old(self).validate,
            Reader::stepped(old(self).inner, final(self).inner, r, 2),
            match take(old(self).inner.buf@, old(self).inner.pos as int, 2) {
                Ok(p) => r matches Ok(v) && Value::S16(v) == scalar_value(Tag::S16, p),
                Err(e) => r matches Err(x) && x == e,
            },
    {
        match self.inner.read_bytes(2) {
            Err(e) => Err(e),
            Ok(p) => Ok(u16_from_le_bytes(p) as i16),
        }
    }

    /// The next field as a `u32`.
    pub fn u32(&mut self) -> (r: Result<u32, Error>)
        requires
            old(self).wf(),
        ensures
            final(self).wf(),
            final(self).validate == old(self).validate,
            Reader::stepped(old(self).inner, final(self).inner, r, 4),
            match take(old(self).inner.buf@, old(self).inner.pos as int, 4) {
                Ok(p) => r matches Ok(v) && Value::U32(v) == scalar_value(Tag::U32, p),
                Err(e) => r matches Err(x) && x == e,
            },
    {
        match self.inner.read_bytes(4) {
            Err(e) => Err(e),
            Ok(p) => Ok(u32_from_le_bytes(p)),
        }
    }

    /// The next field as an `i32`.
    pub fn i32(&mut self) -> (r: Result<i32, Error>)
        requires
            old(self).wf(),
        ensures
            final(self).wf(),
            final(self).validate == old(self).validate,
            Reader::stepped(old(self).inner, final(self).inner, r, 4),
            match take(old(self).inner.buf@, old(self).inner.pos as int, 4) {
                Ok(p) => r matches Ok(v) && Value::S32(v) == scalar_value(Tag::S32, p),
                Err(e) => r matches Err(x) && x == e,
            },
    {
        match self.inner.read_bytes(4) {
            Err(e) => Err(e),
            Ok(p) => Ok(u32_from_le_bytes(p) as i32),
        }
    }

    /// The next field as a `u64`.
    pub fn u64(&mut self) -> (r: Result<u64, Error>)
        requires
            old(self).wf(),
        ensures
            final(self).wf(),
            final(self).validate == old(self).validate,
            Reader::stepped(old(self).inner, final(self).inner, r, 8),
            match take(old(self).inner.buf@, old(self).inner.pos as int, 8) {
                Ok(p) => r matches Ok(v) && Value::U64(v) == scalar_value(Tag::U64, p),
                Err(e) => r matches Err(x) && x == e,
            },
    {
        match self.inner.read_bytes(8) {
            Err(e) => Err(e),
            Ok(p) => Ok(u64_from_le_bytes(p)),
        }
    }

    /// The next field as an `i64`.
    pub fn i64(&mut self) -> (r: Result<i64, Error>)
        requires
            old(self).wf(),
        ensures
            final(self).wf(),
            final(self).validate == old(self).validate,
            Reader::stepped(old(self).inner, final(self).inner, r, 8),
            match take(old(self).inner.buf@, old(self).inner.pos as int, 8) {
                Ok(p) => r matches Ok(v) && Value::S64(v) == scalar_value(Tag::S64, p),
                Err(e) => r matches Err(x) && x == e,
            },
    {
        match self.inner.read_bytes(8) {
            Err(e) => Err(e),
            Ok(p) => Ok(u64_from_le_bytes(p) as i64),
        }
    }

    /// The next field as the bit pattern of a single-precision number.
    pub fn f32_bits(&mut self) -> (r: Result<u32, Error>)
        requires
            old(self).wf(),
        ensures
            final(self).wf(),
            final(self).validate == old(self).validate,
            Reader::stepped(old(self).inner, final(self).inner, r, 4),
            match take(old(self).inner.buf@, old(self).inner.pos as int, 4) {
                Ok(p) => r matches Ok(v) && Value::F32(v) == scalar_value(Tag::F32, p),
                Err(e) => r matches Err(x) && x == e,
            },
    {
        match self.inner.read_bytes(4) {
            Err(e) => Err(e),
            Ok(p) => Ok(u32_from_le_bytes(p)),
        }
    }

    /// The next field as the bit pattern of a double-precision number.
    pub fn f64_bits(&mut self) -> (r: Result<u64, Error>)
        requires
            old(self).wf(),
        ensures
            final(self).wf(),
            final(self).validate == old(self).validate,
            Reader::stepped(old(self).inner, final(self).inner, r, 8),
            match take(old(self).inner.buf@, old(self).inner.pos as int, 8) {
                Ok(p) => r matches Ok(v) && Value::F64(v) == scalar_value(Tag::F64, p),
                Err(e) => r matches Err(x) && x == e,
            },
    {
        match self.inner.read_bytes(8) {
            Err(e) => Err(e),
            Ok(p) => Ok(u64_from_le_bytes(p)),
        }
    }
}

} // verus!
