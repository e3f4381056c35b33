use isocore::neopack::decoder::{Reader, ValueReader};
use isocore::neopack::encoder::Encoder;
use isocore::neopack::stream::StreamBuffer;
use isocore::neopack::types::{Error, Tag};

type R<T> = Result<T, Error>;

/// One value of every kind, each in its own buffer.
fn samples() -> R<Vec<Vec<u8>>> {
    let mut all = Vec::new();
    let mut one = |fill: &dyn Fn(&mut Encoder) -> R<()>| -> R<()> {
        let mut enc = Encoder::new();
        fill(&mut enc)?;
        all.push(enc.into_bytes());
        Ok(())
    };
    one(&|e| {
        e.bool(true);
        Ok(())
    })?;
    one(&|e| {
        e.u8(200);
        Ok(())
    })?;
    one(&|e| {
        e.i8(-7);
        Ok(())
    })?;
    one(&|e| {
        e.u16(0xBEEF);
        Ok(())
    })?;
    one(&|e| {
        e.i16(-12345);
        Ok(())
    })?;
    one(&|e| {
        e.u32(0xDEADBEEF);
        Ok(())
    })?;
    one(&|e| {
        e.i32(-1);
        Ok(())
    })?;
    one(&|e| {
        e.u64(u64::MAX - 1);
        Ok(())
    })?;
    one(&|e| {
        e.i64(i64::MIN + 1);
        Ok(())
    })?;
    one(&|e| {
        e.f32_bits(1.25f32.to_bits());
        Ok(())
    })?;
    one(&|e| {
        e.f64_bits((-0.5f64).to_bits());
        Ok(())
    })?;
    one(&|e| e.str("héllo").map(|_| ()))?;
    one(&|e| e.bytes(&[0, 1, 2, 255]).map(|_| ()))?;
    one(&|e| e.record_blob(&[9, 8, 7]).map(|_| ()))?;
    one(&|e| {
        let mut l = e.list();
        l.u8(1)?.str("two")?;
        l.finish().map(|_| ())
    })?;
    one(&|e| {
        let mut m = e.map();
        m.key("k")?.u16(3)?;
        m.finish().map(|_| ())
    })?;
    one(&|e| {
        let mut a = e.array(Tag::U16, 2)?;
        a.u16(1)?;
        a.u16(2)?;
        a.finish().map(|_| ())
    })?;
    Ok(all)
}

fn tag_of(v: &ValueReader<'_>) -> Tag {
    match v {
        ValueReader::Bool(_) => Tag::Bool,
        ValueReader::U8(_) => Tag::U8,
        ValueReader::S8(_) => Tag::S8,
        ValueReader::U16(_) => Tag::U16,
        ValueReader::S16(_) => Tag::S16,
        ValueReader::U32(_) => Tag::U32,
        ValueReader::S32(_) => Tag::S32,
        ValueReader::U64(_) => Tag::U64,
        ValueReader::S64(_) => Tag::S64,
        ValueReader::F32(_) => Tag::F32,
        ValueReader::F64(_) => Tag::F64,
        ValueReader::String(_) => Tag::String,
        ValueReader::Bytes(_) => Tag::Bytes,
        ValueReader::Struct(_) => Tag::Struct,
        ValueReader::List(_) => Tag::List,
        ValueReader::Dict(_) => Tag::Dict,
        ValueReader::Array(_) => Tag::Array,
    }
}

#[test]
fn every_kind_of_value_reads_back() -> R<()> {
    let all = samples()?;
    assert_eq!(all.len(), 17);
    let mut seen = Vec::new();
    for bytes in &all {
        let mut r = Reader::new(bytes);
        let v = r.value()?;
        assert_eq!(r.pos(), bytes.len());
        assert_eq!(r.remaining(), 0);
        assert_eq!(Tag::from_u8(bytes[0]), Some(tag_of(&v)));
        seen.push(tag_of(&v));
    }
    assert_eq!(seen[0], Tag::Bool);
    assert_eq!(seen[16], Tag::Array);
    let mut r = Reader::new(&all[3]);
    assert_eq!(r.value()?.as_u16()?, 0xBEEF);
    let mut r = Reader::new(&all[6]);
    assert_eq!(r.value()?.as_i32()?, -1);
    let mut r = Reader::new(&all[8]);
    assert_eq!(r.value()?.as_i64()?, i64::MIN + 1);
    let mut r = Reader::new(&all[11]);
    assert_eq!(r.value()?.as_str()?, "héllo");
    let mut r = Reader::new(&all[12]);
    assert_eq!(r.value()?.as_bytes()?, &[0, 1, 2, 255]);
    let mut r = Reader::new(&all[12]);
    assert!(matches!(r.value()?.as_str(), Err(Error::TypeMismatch)));
    Ok(())
}

#[test]
fn every_proper_prefix_is_pending_and_leaves_the_cursor() -> R<()> {
    for bytes in &samples()? {
        for cut in 0..bytes.len() {
            let mut r = Reader::new(&bytes[..cut]);
            match r.value() {
                Err(Error::Pending(k)) => assert!(k > 0),
                _ => panic!("expected Pending for {} of {} bytes", cut, bytes.len()),
            }
            assert_eq!(r.pos(), 0);
            match r.skip_value() {
                Err(Error::Pending(k)) => assert!(k > 0),
                _ => panic!("expected Pending"),
            }
            assert_eq!(r.pos(), 0);
            match r.raw_value() {
                Err(Error::Pending(k)) => assert!(k > 0),
                _ => panic!("expected Pending"),
            }
            assert_eq!(r.pos(), 0);
        }
        let mut r = Reader::new(bytes);
        r.skip_value()?;
        assert_eq!(r.pos(), bytes.len());
        let mut r = Reader::new(bytes);
        assert_eq!(r.raw_value()?, &bytes[..]);
    }
    Ok(())
}

#[test]
fn a_scalar_is_its_tag_and_its_bytes_in_little_endian() -> R<()> {
    let mut enc = Encoder::new();
    enc.u32(1234);
    assert_eq!(enc.as_bytes(), &[Tag::U32.to_u8(), 0xD2, 0x04, 0x00, 0x00]);
    let bytes = enc.into_bytes();
    let mut r = Reader::new(&bytes[..2]);
    assert!(matches!(r.u32(), Err(Error::Pending(3))));
    assert_eq!(r.pos(), 0);
    let mut r = Reader::new(&bytes);
    assert_eq!(r.peek_tag()?, Tag::U32);
    assert_eq!(r.pos(), 0);
    assert_eq!(r.u32()?, 1234);
    assert_eq!(r.pos(), 5);
    assert!(matches!(r.peek_tag(), Err(Error::Pending(1))));

    let mut enc = Encoder::with_capacity(16);
    enc.i16(-2).bool(true).i8(-1);
    assert_eq!(
        enc.as_bytes(),
        &[Tag::S16.to_u8(), 0xFE, 0xFF, Tag::Bool.to_u8(), 1, Tag::S8.to_u8(), 0xFF]
    );
    Ok(())
}

#[test]
fn tags_have_their_bytes_and_widths() {
    let all = [
        (Tag::Bool, 0x02u8, Some(1usize)),
        (Tag::U8, 0x03, Some(1)),
        (Tag::S8, 0x04, Some(1)),
        (Tag::U16, 0x05, Some(2)),
        (Tag::S16, 0x06, Some(2)),
        (Tag::U32, 0x07, Some(4)),
        (Tag::S32, 0x08, Some(4)),
        (Tag::U64, 0x09, Some(8)),
        (Tag::S64, 0x0A, Some(8)),
        (Tag::F32, 0x0B, Some(4)),
        (Tag::F64, 0x0C, Some(8)),
        (Tag::String, 0x10, None),
        (Tag::Bytes, 0x11, None),
        (Tag::Struct, 0x12, None),
        (Tag::List, 0x20, None),
        (Tag::Dict, 0x21, None),
        (Tag::Array, 0x22, None),
    ];
    for (tag, byte, width) in all {
        assert_eq!(tag.to_u8(), byte);
        assert_eq!(Tag::from_u8(byte), Some(tag));
        assert_eq!(tag.fixed_width(), width);
    }
    let known: Vec<u8> = all.iter().map(|t| t.1).collect();
    for b in 0..=255u8 {
        if !known.contains(&b) {
            assert_eq!(Tag::from_u8(b), None);
        }
    }
}

#[test]
fn closing_a_container_accounts_for_tag_length_and_body() -> R<()> {
    let mut enc = Encoder::new();
    enc.u8(7);
    let before = enc.as_bytes().len();
    let mut list = enc.list();
    list.u32(1)?.u32(2)?;
    let parent = list.finish()?;
    assert_eq!(parent.as_bytes().len(), before + 1 + 4 + 10);
    assert_eq!(&parent.as_bytes()[before + 1..before + 5], &10u32.to_le_bytes());

    let mut enc = Encoder::new();
    let mut map = enc.map();
    map.key("a")?.bool(false)?;
    assert_eq!(map.finish()?.as_bytes().len(), 1 + 4 + (1 + 4 + 1) + 2);

    let mut enc = Encoder::new();
    let mut arr = enc.array(Tag::U64, 8)?;
    arr.u64(5)?;
    arr.push(&[0; 8])?;
    let bytes = arr.finish()?.as_bytes().to_vec();
    assert_eq!(bytes.len(), 1 + 4 + 5 + 16);
    assert_eq!(&bytes[1..5], &21u32.to_le_bytes());
    assert_eq!(bytes[5], Tag::U64.to_u8());
    assert_eq!(&bytes[6..10], &8u32.to_le_bytes());

    let mut enc = Encoder::new();
    let mut rec = enc.record();
    rec.u16(0x0102)?.bool(true)?.push(&[9, 9])?.i32(-1)?;
    let bytes = rec.finish()?.as_bytes().to_vec();
    assert_eq!(bytes, vec![Tag::Struct.to_u8(), 9, 0, 0, 0, 2, 1, 1, 9, 9, 255, 255, 255, 255]);
    let mut r = Reader::new(&bytes);
    let mut fields = r.record()?;
    assert_eq!(fields.u16()?, 0x0102);
    assert_eq!(fields.bool()?, true);
    assert_eq!(fields.bytes(2)?, &[9, 9]);
    assert!(!fields.finished());
    assert_eq!(fields.i32()?, -1);
    assert!(fields.finished());
    assert!(matches!(fields.u8(), Err(Error::Pending(1))));
    Ok(())
}

#[test]
fn a_builder_that_is_not_finished_leaves_a_container_that_is_not_whole() -> R<()> {
    let mut enc = Encoder::new();
    {
        let mut list = enc.list();
        list.u8(1)?;
    }
    enc.u8(2);
    let bytes = enc.as_bytes();
    assert_eq!(
        bytes,
        &[Tag::List.to_u8(), 0xFF, 0xFF, 0xFF, 0xFF, Tag::U8.to_u8(), 1, Tag::U8.to_u8(), 2]
    );
    // a reader does not take it for a list: it waits for the rest
    let short = u32::MAX as usize - 4;
    let mut r = Reader::new(bytes);
    assert!(matches!(r.list(), Err(Error::Pending(n)) if n == short));
    assert_eq!(r.pos(), 0);
    assert!(matches!(r.skip_value(), Err(Error::Pending(n)) if n == short));
    assert!(matches!(r.value(), Err(Error::Pending(n)) if n == short));

    // nor an array or a map or a record
    let mut enc = Encoder::new();
    {
        let mut arr = enc.array(Tag::U8, 1)?;
        arr.u8(1)?;
    }
    let mut r = Reader::new(enc.as_bytes());
    assert!(matches!(r.array(), Err(Error::Pending(n)) if n == u32::MAX as usize - 6));
    let mut enc = Encoder::new();
    {
        let _map = enc.map();
    }
    let mut r = Reader::new(enc.as_bytes());
    assert!(matches!(r.map(), Err(Error::Pending(n)) if n == u32::MAX as usize));
    let mut enc = Encoder::new();
    {
        let mut rec = enc.record();
        rec.u16(7)?;
    }
    let mut r = Reader::new(enc.as_bytes());
    assert!(matches!(r.record_blob(), Err(Error::Pending(n)) if n == u32::MAX as usize - 2));
    Ok(())
}

#[test]
fn strides_are_checked() -> R<()> {
    let mut enc = Encoder::new();
    assert!(matches!(enc.array(Tag::U32, 0), Err(Error::InvalidStride(0))));
    assert!(enc.as_bytes().is_empty());
    if usize::BITS > 32 {
        let too_wide = u32::MAX as usize + 1;
        assert!(matches!(enc.array(Tag::U32, too_wide), Err(Error::InvalidStride(n)) if n == too_wide));
    }
    let mut list = enc.list();
    assert!(matches!(list.array(Tag::U8, 0), Err(Error::InvalidStride(0))));
    list.finish()?;

    let mut enc = Encoder::new();
    let mut arr = enc.array(Tag::U32, 4)?;
    assert!(matches!(arr.u16(1), Err(Error::Malformed)));
    assert!(matches!(arr.push(&[1, 2, 3]), Err(Error::Malformed)));
    arr.u32(9)?;
    arr.i32(-9)?;
    arr.f32_bits(7)?;
    let bytes = arr.finish()?.as_bytes().to_vec();
    let mut r = Reader::new(&bytes);
    let mut items = r.array()?;
    assert_eq!(items.remaining(), 3);
    assert_eq!(items.next()?.unwrap().as_u32()?, 9);
    items.skip_all()?;
    assert_eq!(items.remaining(), 0);
    assert!(items.next()?.is_none());
    Ok(())
}

#[test]
fn a_fixed_record_fills_its_stride_exactly() -> R<()> {
    let mut enc = Encoder::new();
    let mut arr = enc.array(Tag::Struct, 4)?;
    {
        let mut rec = arr.fixed_record();
        rec.u16(1)?;
        assert!(matches!(rec.u32(2), Err(Error::ContainerFull)));
        assert!(matches!(rec.push(&[0; 3]), Err(Error::ContainerFull)));
        rec.u8(3)?;
        // one byte short: the item is refused and taken out again
        assert!(matches!(rec.finish(), Err(Error::Malformed)));
    }
    {
        let mut rec = arr.fixed_record();
        rec.u16(1)?.u8(2)?.bool(true)?;
        rec.finish()?;
    }
    let bytes = arr.finish()?.as_bytes().to_vec();
    assert_eq!(bytes.len(), 1 + 4 + 5 + 4);
    let mut r = Reader::new(&bytes);
    let mut items = r.array()?;
    assert_eq!(items.remaining(), 1);
    match items.next()?.unwrap() {
        ValueReader::Struct(b) => assert_eq!(b, &[1, 0, 2, 1]),
        _ => panic!("expected a record"),
    }
    Ok(())
}

#[test]
fn arrays_that_contradict_their_header_are_malformed() {
    // body of five bytes: item tag and stride, no items, stride zero
    let zero = [Tag::Array.to_u8(), 5, 0, 0, 0, Tag::U8.to_u8(), 0, 0, 0, 0];
    assert!(matches!(Reader::new(&zero).array(), Err(Error::Malformed)));
    // seven bytes of items at stride two
    let mut odd = vec![Tag::Array.to_u8(), 8, 0, 0, 0, Tag::U16.to_u8(), 2, 0, 0, 0];
    odd.extend_from_slice(&[1, 2, 3]);
    let mut r = Reader::new(&odd);
    assert!(matches!(r.array(), Err(Error::Malformed)));
    assert_eq!(r.pos(), 0);
    // a body that is shorter than its own header
    let short = [Tag::Array.to_u8(), 2, 0, 0, 0, Tag::U8.to_u8(), 1];
    assert!(matches!(Reader::new(&short).array(), Err(Error::Malformed)));
    // an item tag that is no tag
    let no_tag = [Tag::Array.to_u8(), 5, 0, 0, 0, 0xEE, 1, 0, 0, 0];
    assert!(matches!(Reader::new(&no_tag).value(), Err(Error::InvalidTag(0xEE))));
    // items that are too short for their tag
    let narrow = [Tag::Array.to_u8(), 6, 0, 0, 0, Tag::U32.to_u8(), 1, 0, 0, 0, 7];
    let mut items = Reader::new(&narrow).array().unwrap();
    assert!(matches!(items.next(), Err(Error::Malformed)));
    assert_eq!(items.remaining(), 0);
    assert!(matches!(
        ValueReader::from_untagged_bytes(Tag::U64, &[1, 2, 3]),
        Err(Error::Malformed)
    ));
    assert_eq!(
        ValueReader::from_untagged_bytes(Tag::U16, &[1, 2, 3]).unwrap().as_u16().unwrap(),
        0x0201
    );
}

#[test]
fn a_map_wants_strings_for_keys() -> R<()> {
    let mut enc = Encoder::new();
    let mut list = enc.list();
    list.u8(1)?.u8(2)?;
    list.finish()?;
    let mut bytes = enc.into_bytes();
    bytes[0] = Tag::Dict.to_u8();
    let mut r = Reader::new(&bytes);
    let mut map = r.map()?;
    assert!(matches!(map.next(), Err(Error::TypeMismatch)));
    // the entry is still there to be looked at
    assert!(matches!(map.next(), Err(Error::TypeMismatch)));

    // a key without a value, as a writer that is not this one may leave it
    let mut enc = Encoder::new();
    let mut list = enc.list();
    list.str("lonely")?;
    list.finish()?;
    let mut bytes = enc.into_bytes();
    bytes[0] = Tag::Dict.to_u8();
    let mut r = Reader::new(&bytes);
    let mut map = r.map()?;
    assert!(matches!(map.next(), Err(Error::Pending(1))));

    // keys may repeat and come in the order in which they were written
    let mut enc = Encoder::new();
    let mut map = enc.map();
    map.key("k")?.u8(1)?;
    map.key("k")?.u8(2)?;
    map.entry("k", |v| v.u8(3))?;
    map.finish()?;
    let bytes = enc.into_bytes();
    let mut r = Reader::new(&bytes);
    let mut map = r.map()?;
    for expected in 1..=3u8 {
        let (k, v) = map.next()?.unwrap();
        assert_eq!(k, "k");
        assert_eq!(v.as_u8()?, expected);
    }
    Ok(())
}

/// Encodes `(name, score)` as a list of two elements.
fn message(name: &str, score: u64) -> R<Vec<u8>> {
    let mut enc = Encoder::new();
    let mut list = enc.list();
    list.str(name)?.u64(score)?;
    list.finish()?;
    Ok(enc.into_bytes())
}

fn read_message(r: &mut Reader<'_>) -> R<(String, u64)> {
    let start = r.pos();
    let mut list = r.list()?;
    let name = list.next()?.ok_or(Error::Malformed)?.as_str()?.to_string();
    let score = list.next()?.ok_or(Error::Malformed)?.as_u64()?;
    assert!(r.pos() > start);
    Ok((name, score))
}

#[test]
fn values_that_arrive_in_pieces_are_read_once_they_are_whole() -> R<()> {
    let mut wire = Vec::new();
    for (name, score) in [("Alice", 100), ("Bob", 200), ("Charlie", 300)] {
        wire.extend_from_slice(&message(name, score)?);
    }
    let mut stream = StreamBuffer::new();
    let mut got = Vec::new();
    for piece in wire.chunks(7) {
        stream.extend(piece);
        loop {
            let mut r = stream.cursor();
            match read_message(&mut r) {
                Ok(m) => {
                    got.push(m);
                    let used = r.pos();
                    stream.mark_consumed(used);
                }
                Err(Error::Pending(k)) => {
                    assert!(k > 0);
                    assert_eq!(r.pos(), 0);
                    break;
                }
                Err(e) => return Err(e),
            }
        }
        let held = stream.len();
        let freed = stream.compact();
        assert_eq!(stream.len(), held - freed);
    }
    assert_eq!(
        got,
        vec![
            ("Alice".to_string(), 100),
            ("Bob".to_string(), 200),
            ("Charlie".to_string(), 300)
        ]
    );
    assert_eq!(stream.len(), 0);
    stream.extend(&[1, 2, 3]);
    stream.mark_consumed(10);
    assert_eq!(stream.cursor().remaining(), 0);
    assert_eq!(stream.compact(), 3);
    Ok(())
}

#[test]
fn a_key_without_a_value_is_reported() -> R<()> {
    // by the next key
    let mut enc = Encoder::new();
    let mut map = enc.map();
    let _ = map.key("lonely")?;
    assert!(matches!(map.key("next"), Err(Error::Malformed)));
    // by an entry, whose closure is then not called
    let mut called = false;
    assert!(matches!(
        map.entry("next", |v| {
            called = true;
            v.u8(1)
        }),
        Err(Error::Malformed)
    ));
    assert!(!called);
    // and by the end of the map
    assert!(matches!(map.finish(), Err(Error::Malformed)));

    // a closure that writes nothing leaves its key without a value
    let mut enc = Encoder::new();
    let mut map = enc.map();
    assert!(matches!(map.entry("empty", |_| Ok(())), Err(Error::Malformed)));
    assert!(matches!(map.finish(), Err(Error::Malformed)));

    // a closure that fails hands its error on
    let mut enc = Encoder::new();
    let mut map = enc.map();
    assert!(matches!(
        map.entry("z", |_| Err(Error::ContainerFull)),
        Err(Error::ContainerFull)
    ));

    // a key with its value is no such thing
    let mut enc = Encoder::new();
    let mut map = enc.map();
    map.key("a")?.bool(true)?;
    map.entry("b", |v| v.u8(7))?;
    map.finish()?;
    let bytes = enc.into_bytes();
    let mut r = Reader::new(&bytes);
    let mut map = r.map()?;
    let (k, v) = map.next()?.unwrap();
    assert_eq!(k, "a");
    assert!(v.as_bool()?);
    let (k, v) = map.next()?.unwrap();
    assert_eq!(k, "b");
    assert_eq!(v.as_u8()?, 7);
    assert!(map.next()?.is_none());
    Ok(())
}

#[test]
fn an_unchecked_push_writes_the_item_as_it_is() -> R<()> {
    let mut checked = Encoder::new();
    let mut arr = checked.array(Tag::U16, 2)?;
    arr.push(&[1, 2])?;
    arr.push(&[3, 4])?;
    arr.finish()?;

    let mut unchecked = Encoder::new();
    let mut arr = unchecked.array(Tag::U16, 2)?;
    arr.push_unchecked(&[1, 2])?;
    arr.push_unchecked(&[3, 4])?;
    arr.finish()?;

    assert_eq!(checked.as_bytes(), unchecked.as_bytes());
    let bytes = unchecked.into_bytes();
    let mut r = Reader::new(&bytes);
    let mut arr = r.array()?;
    assert_eq!(arr.remaining(), 2);
    assert_eq!(arr.next()?.unwrap().as_u16()?, 0x0201);
    assert_eq!(arr.next()?.unwrap().as_u16()?, 0x0403);
    assert!(arr.next()?.is_none());
    Ok(())
}
