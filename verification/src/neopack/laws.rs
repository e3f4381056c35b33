//! Laws of the wire format: what the encoder writes, the decoder reads back;
//! input that ends early is reported as pending; closing a container
//! accounts for every byte of it; a container that was never closed is not
//! read as a whole one.

use vstd::prelude::*;
use vstd::bytes::{
    lemma_auto_spec_u16_to_from_le_bytes, lemma_auto_spec_u32_to_from_le_bytes,
    lemma_auto_spec_u64_to_from_le_bytes, spec_u32_from_le_bytes, spec_u32_to_le_bytes,
};
use crate::neopack::types::{Tag, Error};
use crate::neopack::wire::{
    Value, LEN_WIDTH, ARRAY_HEADER, take, tag_at, payload_after, payload_at, framed, framed_len,
    value_len, parse, array_header,
};
use crate::neopack::encoder::{patched, len_slot};

verus! {

/// A signed scalar survives the trip through its unsigned bit pattern.
pub proof fn lemma_signed_round_trip(a: i8, b: i16, c: i32, d: i64)
    ensures
        (a as u8) as i8 == a,
        (b as u16) as i16 == b,
        (c as u32) as i32 == c,
        (d as u64) as i64 == d,
{
    assert((a as u8) as i8 == a) by (bit_vector);
    assert((b as u16) as i16 == b) by (bit_vector);
    assert((c as u32) as i32 == c) by (bit_vector);
    assert((d as u64) as i64 == d) by (bit_vector);
}

/// The bytes `mid` that stand between `pre` and `rest` are what taking
/// `mid.len()` bytes behind `pre` gives.
proof fn lemma_take_mid(pre: Seq<u8>, mid: Seq<u8>, rest: Seq<u8>)
    ensures
        take(pre + mid + rest, pre.len() as int, mid.len() as int) == Ok::<Seq<u8>, Error>(mid),
{
    assert((pre + mid + rest).subrange(pre.len() as int, pre.len() + mid.len() as int) =~= mid);
}

/// A payload is as long as its tag's width, where the tag has one.
pub proof fn lemma_payload_width(v: Value)
    ensures
        v.tag().width() matches Some(w) ==> v.payload().len() == w,
        v.encoding().len() == framed_len(v.tag(), v.payload()),
{
    lemma_auto_spec_u16_to_from_le_bytes();
    lemma_auto_spec_u32_to_from_le_bytes();
    lemma_auto_spec_u64_to_from_le_bytes();
}

/// A value's payload reads back as the value.
pub proof fn lemma_payload_round_trip(v: Value)
    requires
        v.valid(),
    ensures
        Value::from_payload(v.tag(), v.payload()) == Ok::<Value, Error>(v),
{
    lemma_auto_spec_u16_to_from_le_bytes();
    lemma_auto_spec_u32_to_from_le_bytes();
    lemma_auto_spec_u64_to_from_le_bytes();
    let p = v.payload();
    assert(p.subrange(0, p.len() as int) =~= p);
    match v {
        Value::S8(x) => {
            lemma_signed_round_trip(x, 0, 0, 0);
        },
        Value::S16(x) => {
            lemma_signed_round_trip(0, x, 0, 0);
        },
        Value::S32(x) => {
            lemma_signed_round_trip(0, 0, x, 0);
        },
        Value::S64(x) => {
            lemma_signed_round_trip(0, 0, 0, x);
        },
        Value::Array(item, stride, items) => {
            let h = array_header(item, stride);
            assert(h.len() == ARRAY_HEADER);
            assert(p[0] == item.byte());
            assert(p.subrange(1, ARRAY_HEADER as int) =~= spec_u32_to_le_bytes(stride as u32));
            assert(p.subrange(ARRAY_HEADER as int, p.len() as int) =~= items);
            assert(spec_u32_from_le_bytes(spec_u32_to_le_bytes(stride as u32)) == stride);
        },
        _ => {},
    }
}

/// The payload of a written value is found behind its tag.
pub proof fn lemma_payload_found(pre: Seq<u8>, v: Value, rest: Seq<u8>)
    requires
        v.payload().len() <= u32::MAX,
    ensures
        tag_at(pre + v.encoding() + rest, pre.len() as int) == Ok::<Tag, Error>(v.tag()),
        payload_after(pre + v.encoding() + rest, pre.len() as int, v.tag()) == Ok::<
            Seq<u8>,
            Error,
        >(v.payload()),
{
    lemma_auto_spec_u32_to_from_le_bytes();
    lemma_payload_width(v);
    let t = v.tag();
    let p = v.payload();
    let s = pre + v.encoding() + rest;
    let head = pre.push(t.byte());
    assert(s[pre.len() as int] == t.byte());
    if t.width() is Some {
        assert(s =~= head + p + rest);
        lemma_take_mid(head, p, rest);
    } else {
        let l = spec_u32_to_le_bytes(p.len() as u32);
        assert(s =~= head + l + (p + rest));
        lemma_take_mid(head, l, p + rest);
        assert(s =~= (head + l) + p + rest);
        lemma_take_mid(head + l, p, rest);
        assert(spec_u32_from_le_bytes(l) == p.len());
    }
}

/// Round trip: wherever the encoding of a valid value stands, the decoder
/// finds that value there, and finds it as long as its encoding.
pub proof fn lemma_round_trip(pre: Seq<u8>, v: Value, rest: Seq<u8>)
    requires
        v.valid(),
    ensures
        parse(pre + v.encoding() + rest, pre.len() as int) == Ok::<(Value, int), Error>(
            (v, v.encoding().len() as int),
        ),
        value_len(pre + v.encoding() + rest, pre.len() as int) == Ok::<int, Error>(
            v.encoding().len() as int,
        ),
        payload_at(pre + v.encoding() + rest, pre.len() as int, v.tag()) == Ok::<Seq<u8>, Error>(
            v.payload(),
        ),
{
    lemma_payload_found(pre, v, rest);
    lemma_payload_round_trip(v);
    lemma_payload_width(v);
}

/// Streaming: of a valid value's encoding, every proper prefix is reported
/// as pending, by at least one byte.
pub proof fn lemma_prefix_pending(v: Value, k: int)
    requires
        v.valid(),
        0 <= k < v.encoding().len(),
    ensures
        parse(v.encoding().subrange(0, k), 0) matches Err(Error::Pending(n)) && n > 0,
        value_len(v.encoding().subrange(0, k), 0) == Err::<int, Error>(
            parse(v.encoding().subrange(0, k), 0)->Err_0,
        ),
        payload_at(v.encoding().subrange(0, k), 0, v.tag()) == Err::<Seq<u8>, Error>(
            parse(v.encoding().subrange(0, k), 0)->Err_0,
        ),
{
    lemma_auto_spec_u32_to_from_le_bytes();
    lemma_payload_width(v);
    let t = v.tag();
    let p = v.payload();
    let e = v.encoding();
    let s = e.subrange(0, k);
    if k > 0 {
        assert(s[0] == t.byte());
        if t.width() is None {
            let l = spec_u32_to_le_bytes(p.len() as u32);
            if k >= 1 + LEN_WIDTH {
                assert(s.subrange(1, 1 + LEN_WIDTH as int) =~= l);
                assert(spec_u32_from_le_bytes(l) == p.len());
            }
        }
    }
}

/// Closing a container accounts for every byte: behind what stood in the
/// buffer before it was opened stand its tag, the length of its body in four
/// bytes, and its body.
pub proof fn lemma_finish_frames_body(before: Seq<u8>, tag: Tag, body: Seq<u8>)
    requires
        tag.width() is None,
    ensures
        patched(before.push(tag.byte()) + len_slot() + body, before.len() as int + 1) == before + framed(
            tag,
            body,
        ),
        (before + framed(tag, body)).len() == before.len() + 1 + LEN_WIDTH + body.len(),
{
    lemma_auto_spec_u32_to_from_le_bytes();
    let open = before.push(tag.byte()) + len_slot() + body;
    let off: int = before.len() as int + 1;
    assert(open.subrange(0, off) =~= before.push(tag.byte()));
    assert(open.subrange(off + LEN_WIDTH, open.len() as int) =~= body);
    assert(open.len() - off - LEN_WIDTH == body.len());
    assert(patched(open, off) =~= before + framed(tag, body));
}

/// A container that was opened and never closed is not read as a whole
/// value: its length prefix asks for more bytes than stand behind it, and
/// a read is pending by the bytes that are wanting.
pub proof fn lemma_open_container_pending(before: Seq<u8>, tag: Tag, body: Seq<u8>, rest: Seq<u8>)
    requires
        tag.width() is None,
        body.len() + rest.len() < u32::MAX,
    ensures
        ({
            let open = before.push(tag.byte()) + len_slot() + body + rest;
            let short = Error::Pending((u32::MAX - body.len() - rest.len()) as usize);
            &&& value_len(open, before.len() as int) == Err::<int, Error>(short)
            &&& parse(open, before.len() as int) == Err::<(Value, int), Error>(short)
            &&& payload_at(open, before.len() as int, tag) == Err::<Seq<u8>, Error>(short)
        }),
{
    lemma_auto_spec_u32_to_from_le_bytes();
    let open = before.push(tag.byte()) + len_slot() + body + rest;
    let pos = before.len() as int;
    assert(open[pos] == tag.byte());
    crate::neopack::types::lemma_tag_byte_round_trip(tag);
    assert(open.subrange(pos + 1, pos + 1 + LEN_WIDTH) =~= len_slot());
    assert(open.len() == pos + 1 + LEN_WIDTH + body.len() + rest.len());
}

/// What stands before a value does not matter to its length: only the
/// bytes from the position on are looked at.
pub proof fn lemma_value_len_shift(pre: Seq<u8>, s: Seq<u8>, k: int)
    requires
        0 <= k,
    ensures
        value_len(pre + s, pre.len() + k) == value_len(s, k),
{
    let t = pre + s;
    let pos = pre.len() + k;
    if k < s.len() {
        assert(t[pos] == s[k]);
        match Tag::of_byte(s[k]) {
            Some(tag) => {
                match tag.width() {
                    Some(w) => {
                        if s.len() - (k + 1) >= w {
                            assert(t.subrange(pos + 1, pos + 1 + w) =~= s.subrange(k + 1, k + 1 + w));
                        }
                    },
                    None => {
                        if s.len() - (k + 1) >= LEN_WIDTH {
                            let l = s.subrange(k + 1, k + 1 + LEN_WIDTH as int);
                            assert(t.subrange(pos + 1, pos + 1 + LEN_WIDTH as int) =~= l);
                            let n = spec_u32_from_le_bytes(l) as int;
                            if s.len() - (k + 1 + LEN_WIDTH) >= n {
                                assert(t.subrange(
                                    pos + 1 + LEN_WIDTH as int,
                                    pos + 1 + LEN_WIDTH as int + n,
                                ) =~= s.subrange(
                                    k + 1 + LEN_WIDTH as int,
                                    k + 1 + LEN_WIDTH as int + n,
                                ));
                            }
                        }
                    },
                }
            },
            None => {},
        }
    }
}

/// What stands behind a whole value does not matter to its length, and a
/// whole value is at least one byte long and ends within the bytes.
pub proof fn lemma_value_len_extend(s: Seq<u8>, rest: Seq<u8>, k: int)
    requires
        0 <= k,
        value_len(s, k) is Ok,
    ensures
        value_len(s + rest, k) == value_len(s, k),
        value_len(s, k)->Ok_0 >= 1,
        k + value_len(s, k)->Ok_0 <= s.len(),
{
    let t = s + rest;
    assert(k < s.len());
    assert(t[k] == s[k]);
    let tag = Tag::of_byte(s[k])->Some_0;
    match tag.width() {
        Some(w) => {
            assert(t.subrange(k + 1, k + 1 + w) =~= s.subrange(k + 1, k + 1 + w));
        },
        None => {
            let l = s.subrange(k + 1, k + 1 + LEN_WIDTH as int);
            assert(t.subrange(k + 1, k + 1 + LEN_WIDTH as int) =~= l);
            let n = spec_u32_from_le_bytes(l) as int;
            assert(t.subrange(k + 1 + LEN_WIDTH as int, k + 1 + LEN_WIDTH as int + n) =~= s.subrange(
                k + 1 + LEN_WIDTH as int,
                k + 1 + LEN_WIDTH as int + n,
            ));
        },
    }
}

/// A whole value that ends within the first bytes is found in them alone.
pub proof fn lemma_value_len_restrict(s: Seq<u8>, rest: Seq<u8>, k: int)
    requires
        0 <= k,
        value_len(s + rest, k) is Ok,
        k + value_len(s + rest, k)->Ok_0 <= s.len(),
    ensures
        value_len(s, k) == value_len(s + rest, k),
{
    let t = s + rest;
    assert(k < t.len());
    let tag = Tag::of_byte(t[k])->Some_0;
    assert(framed_len(tag, payload_after(t, k, tag)->Ok_0) >= 1);
    assert(t[k] == s[k]);
    match tag.width() {
        Some(w) => {
            assert(t.subrange(k + 1, k + 1 + w) =~= s.subrange(k + 1, k + 1 + w));
        },
        None => {
            let l = t.subrange(k + 1, k + 1 + LEN_WIDTH as int);
            assert(s.subrange(k + 1, k + 1 + LEN_WIDTH as int) =~= l);
            let n = spec_u32_from_le_bytes(l) as int;
            assert(t.subrange(k + 1 + LEN_WIDTH as int, k + 1 + LEN_WIDTH as int + n) =~= s.subrange(
                k + 1 + LEN_WIDTH as int,
                k + 1 + LEN_WIDTH as int + n,
            ));
        },
    }
}

} // verus!
