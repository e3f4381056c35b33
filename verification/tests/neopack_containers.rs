use isocore::neopack::decoder::{Reader, ValueReader};
use isocore::neopack::encoder::Encoder;
use isocore::neopack::types::{Error, Tag};

type R<T> = Result<T, Error>;

#[test]
fn test_list_scalars() -> R<()> {
    let mut enc = Encoder::new();
    {
        let mut list = enc.list();
        list.u32(1)?;
        list.u32(2)?;
        list.u32(3)?;
        list.finish()?;
    }
    let bytes = enc.as_bytes();

    let mut r = Reader::new(bytes);
    let mut list = r.list()?;

    assert_eq!(list.next()?.unwrap().as_u32()?, 1);
    assert_eq!(list.next()?.unwrap().as_u32()?, 2);
    assert_eq!(list.next()?.unwrap().as_u32()?, 3);
    assert!(list.next()?.is_none());
    Ok(())
}

#[test]
fn test_list_mixed_types() -> R<()> {
    let mut enc = Encoder::new();
    {
        let mut list = enc.list();
        list.bool(true)?;
        list.str("test")?;
        list.u64(999)?;
        list.finish()?;
    }
    let bytes = enc.as_bytes();

    let mut r = Reader::new(bytes);
    let mut list = r.list()?;

    assert_eq!(list.next()?.unwrap().as_bool()?, true);
    assert_eq!(list.next()?.unwrap().as_str()?, "test");
    assert_eq!(list.next()?.unwrap().as_u64()?, 999);
    assert!(list.next()?.is_none());
    Ok(())
}

#[test]
fn test_list_nested() -> R<()> {
    let mut enc = Encoder::new();
    {
        let mut outer = enc.list();
        outer.u16(1)?;
        {
            let mut inner = outer.list();
            inner.u16(2)?;
            inner.u16(3)?;
            inner.finish()?;
        }
        outer.u16(4)?;
        outer.finish()?;
    }
    let bytes = enc.as_bytes();

    let mut r = Reader::new(bytes);
    let mut outer = r.list()?;

    assert_eq!(outer.next()?.unwrap().as_u16()?, 1);

    if let ValueReader::List(mut inner) = outer.next()?.unwrap() {
        assert_eq!(inner.next()?.unwrap().as_u16()?, 2);
        assert_eq!(inner.next()?.unwrap().as_u16()?, 3);
    } else {
        panic!("Expected nested list");
    }

    assert_eq!(outer.next()?.unwrap().as_u16()?, 4);
    Ok(())
}

#[test]
fn test_list_empty() -> R<()> {
    let mut enc = Encoder::new();
    {
        let list = enc.list();
        list.finish()?;
    }
    let bytes = enc.as_bytes();

    let mut r = Reader::new(bytes);
    let mut list = r.list()?;
    assert!(list.next()?.is_none());
    Ok(())
}

#[test]
fn test_map_basic() -> R<()> {
    let mut enc = Encoder::new();
    {
        let mut map = enc.map();
        map.entry("name", |e| e.str("Alice"))?;
        map.key("age")?.u32(30)?;
        map.key("active")?.bool(true)?;
        map.finish()?;
    }

    let bytes = enc.as_bytes();
    let mut r = Reader::new(bytes);
    let mut map = r.map()?;

    let (k, v) = map.next()?.unwrap();
    assert_eq!(k, "name");
    assert_eq!(v.as_str()?, "Alice");

    let (k, v) = map.next()?.unwrap();
    assert_eq!(k, "age");
    assert_eq!(v.as_u32()?, 30);

    let (k, v) = map.next()?.unwrap();
    assert_eq!(k, "active");
    assert_eq!(v.as_bool()?, true);

    assert!(map.next()?.is_none());
    Ok(())
}

#[test]
fn test_map_nested() -> R<()> {
    let mut enc = Encoder::new();
    {
        let mut map = enc.map();
        map.key("outer")?.u32(1)?;
        {
            let mut inner = map.key("inner")?.map();
            inner.key("nested")?.u32(2)?;
            inner.finish()?;
        }
        map.finish()?;
    }

    let bytes = enc.as_bytes();
    let mut r = Reader::new(bytes);
    let mut outer = r.map()?;

    let (k, v) = outer.next()?.unwrap();
    assert_eq!(k, "outer");
    assert_eq!(v.as_u32()?, 1);

    let (k, v) = outer.next()?.unwrap();
    assert_eq!(k, "inner");
    if let ValueReader::Dict(mut inner) = v {
        let (k2, v2) = inner.next()?.unwrap();
        assert_eq!(k2, "nested");
        assert_eq!(v2.as_u32()?, 2);
    } else {
        panic!("Expected nested map");
    }
    Ok(())
}

#[test]
fn test_map_empty() -> R<()> {
    let mut enc = Encoder::new();
    {
        let map = enc.map();
        map.finish()?;
    }
    let bytes = enc.as_bytes();

    let mut r = Reader::new(bytes);
    let mut map = r.map()?;
    assert!(map.next()?.is_none());
    Ok(())
}

#[test]
fn test_array_u32() -> R<()> {
    let mut enc = Encoder::new();
    {
        let mut arr = enc.array(Tag::U32, 4)?;
        arr.push(&[1, 0, 0, 0])?;
        arr.push(&[2, 0, 0, 0])?;
        arr.push(&[3, 0, 0, 0])?;
        arr.finish()?;
    }

    let bytes = enc.as_bytes();
    let mut r = Reader::new(bytes);
    let mut arr = r.array()?;

    assert_eq!(arr.item_tag(), Tag::U32);
    assert_eq!(arr.stride(), 4);
    assert_eq!(arr.remaining(), 3);

    assert_eq!(arr.next()?.unwrap().as_u32()?, u32::from_le_bytes([1, 0, 0, 0]));
    assert_eq!(arr.next()?.unwrap().as_u32()?, u32::from_le_bytes([2, 0, 0, 0]));
    assert_eq!(arr.next()?.unwrap().as_u32()?, u32::from_le_bytes([3, 0, 0, 0]));
    assert!(arr.next()?.is_none());
    Ok(())
}

#[test]
fn test_array_empty() -> R<()> {
    // an array holds at least one item: the builder does not close one
    // that holds none
    let mut enc = Encoder::new();
    {
        let arr = enc.array(Tag::U16, 2)?;
        assert!(matches!(arr.finish(), Err(Error::Malformed)));
    }

    // and the reader does not take the bytes of one
    let bytes = [Tag::Array.to_u8(), 5, 0, 0, 0, Tag::U16.to_u8(), 2, 0, 0, 0];
    let mut r = Reader::new(&bytes);
    assert!(matches!(r.array(), Err(Error::Malformed)));
    assert_eq!(r.pos(), 0);
    assert!(matches!(r.value(), Err(Error::Malformed)));
    Ok(())
}

#[test]
fn test_complex_structure() -> R<()> {
    let mut enc = Encoder::new();

    {
        let mut root_map = enc.map();
        root_map.key("id")?.u64(12345)?;
        root_map.key("name")?.str("test")?;
        {
            let mut tags = root_map.key("tags")?.list();
            tags.str("rust")?;
            tags.str("binary")?;
            tags.str("serialization")?;
            tags.finish()?;
        }
        {
            let mut meta = root_map.key("metadata")?.map();
            meta.key("version")?.u32(1)?;
            meta.key("active")?.bool(true)?;
            meta.finish()?;
        }
        root_map.finish()?;
    }

    let bytes = enc.as_bytes();

    let mut r = Reader::new(&bytes);
    let mut root = r.map()?;

    let (k, v) = root.next()?.unwrap();
    assert_eq!(k, "id");
    assert_eq!(v.as_u64()?, 12345);

    let (k, v) = root.next()?.unwrap();
    assert_eq!(k, "name");
    assert_eq!(v.as_str()?, "test");

    let (k, v) = root.next()?.unwrap();
    assert_eq!(k, "tags");
    if let ValueReader::List(mut tags) = v {
        assert_eq!(tags.next()?.unwrap().as_str()?, "rust");
        assert_eq!(tags.next()?.unwrap().as_str()?, "binary");
        assert_eq!(tags.next()?.unwrap().as_str()?, "serialization");
    } else {
        panic!("Expected list");
    }

    let (k, v) = root.next()?.unwrap();
    assert_eq!(k, "metadata");
    if let ValueReader::Dict(mut meta) = v {
        let (k2, v2) = meta.next()?.unwrap();
        assert_eq!(k2, "version");
        assert_eq!(v2.as_u32()?, 1);

        let (k2, v2) = meta.next()?.unwrap();
        assert_eq!(k2, "active");
        assert_eq!(v2.as_bool()?, true);
    } else {
        panic!("Expected map");
    }
    Ok(())
}

#[test]
fn test_list_drop_patches_len() -> R<()> {
    let mut enc = Encoder::new();
    {
        let mut list = enc.list();
        list.u32(1)?;
        list.u32(2)?;
        list.finish()?;
    }

    let bytes = enc.as_bytes();
    // the length prefix holds the length of the two elements
    assert_eq!(&bytes[1..5], &10u32.to_le_bytes());
    assert_eq!(bytes.len(), 1 + 4 + 10);
    let mut r = Reader::new(&bytes);
    let mut list = r.list()?;
    assert!(list.next()?.is_some());
    assert!(list.next()?.is_some());
    assert!(list.next()?.is_none());
    Ok(())
}

#[test]
fn test_round_trip_random_ints() -> R<()> {
    let mut enc = Encoder::new();
    let values: Vec<i32> = (0..100).map(|i| (i * 7919) % 1000 - 500).collect();

    {
        let mut list = enc.list();
        for &v in &values {
            list.i32(v)?;
        }
        list.finish()?;
    }

    let bytes = enc.as_bytes();
    let mut r = Reader::new(&bytes);
    let mut list = r.list()?;

    for &expected in &values {
        assert_eq!(list.next()?.unwrap().as_i32()?, expected);
    }
    Ok(())
}

#[test]
fn test_deeply_nested_lists() -> R<()> {
    let mut enc = Encoder::new();

    {
        let mut l1 = enc.list();
        {
            let mut l2 = l1.list();
            {
                let mut l3 = l2.list();
                {
                    let mut l4 = l3.list();
                    l4.u32(42)?;
                    l4.finish()?;
                }
                l3.finish()?;
            }
            l2.finish()?;
        }
        l1.finish()?;
    }

    let bytes = enc.as_bytes();
    let mut r = Reader::new(&bytes);
    let mut l1 = r.list()?;

    if let ValueReader::List(mut l2) = l1.next()?.unwrap() {
        if let ValueReader::List(mut l3) = l2.next()?.unwrap() {
            if let ValueReader::List(mut l4) = l3.next()?.unwrap() {
                assert_eq!(l4.next()?.unwrap().as_u32()?, 42);
            } else {
                panic!();
            }
        } else {
            panic!();
        }
    } else {
        panic!();
    }
    Ok(())
}

#[test]
fn test_mixed_container_types() -> R<()> {
    let mut enc = Encoder::new();

    {
        let mut list = enc.list();
        {
            let mut map = list.map();
            {
                let mut coords = map.key("coords")?.list();
                coords.u16(100)?.u16(200)?;
                coords.finish()?;
            }
            map.finish()?;
        }
        {
            let mut arr = list.array(Tag::U8, 1)?;
            arr.push(&[1])?;
            arr.push(&[2])?;
            arr.push(&[3])?;
            arr.finish()?;
        }
        list.finish()?;
    }

    let bytes = enc.as_bytes();
    let mut r = Reader::new(&bytes);
    let mut list = r.list()?;

    if let ValueReader::Dict(mut map) = list.next()?.unwrap() {
        let (k, v) = map.next()?.unwrap();
        assert_eq!(k, "coords");
        if let ValueReader::List(mut coords) = v {
            assert_eq!(coords.next()?.unwrap().as_u16()?, 100);
            assert_eq!(coords.next()?.unwrap().as_u16()?, 200);
        } else {
            panic!();
        }
    } else {
        panic!();
    }

    if let ValueReader::Array(mut arr) = list.next()?.unwrap() {
        assert_eq!(arr.next()?.unwrap().as_u8()?, 1);
        assert_eq!(arr.next()?.unwrap().as_u8()?, 2);
        assert_eq!(arr.next()?.unwrap().as_u8()?, 3);
    } else {
        panic!();
    }
    Ok(())
}

#[test]
fn test_all_numeric_types_in_list() -> R<()> {
    let mut enc = Encoder::new();
    {
        let mut list = enc.list();
        list.bool(true)?;
        list.u8(255)?;
        list.i8(-128)?;
        list.u16(65535)?;
        list.i16(-32768)?;
        list.u32(4000000)?;
        list.i32(-2000000)?;
        list.u64(1000000000000)?;
        list.i64(-500000000000)?;
        list.f32_bits(3.14f32.to_bits())?;
        list.f64_bits(2.71828f64.to_bits())?;
        list.finish()?;
    }

    let bytes = enc.as_bytes();
    let mut r = Reader::new(&bytes);
    let mut list = r.list()?;

    assert_eq!(list.next()?.unwrap().as_bool()?, true);
    assert_eq!(list.next()?.unwrap().as_u8()?, 255);
    assert_eq!(list.next()?.unwrap().as_i8()?, -128);
    assert_eq!(list.next()?.unwrap().as_u16()?, 65535);
    assert_eq!(list.next()?.unwrap().as_i16()?, -32768);
    assert_eq!(list.next()?.unwrap().as_u32()?, 4000000);
    assert_eq!(list.next()?.unwrap().as_i32()?, -2000000);
    assert_eq!(list.next()?.unwrap().as_u64()?, 1000000000000);
    assert_eq!(list.next()?.unwrap().as_i64()?, -500000000000);
    assert_eq!(f32::from_bits(list.next()?.unwrap().as_f32_bits()?), 3.14);
    assert_eq!(f64::from_bits(list.next()?.unwrap().as_f64_bits()?), 2.71828);
    Ok(())
}

#[test]
fn test_sparse_array_as_map() -> R<()> {
    let mut enc = Encoder::new();
    {
        let mut map = enc.map();
        map.key("0")?.u32(100)?;
        map.key("1000")?.u32(200)?;
        map.key("1000000")?.u32(300)?;
        map.finish()?;
    }

    let bytes = enc.as_bytes();
    let mut r = Reader::new(&bytes);
    let mut map = r.map()?;

    let (k, v) = map.next()?.unwrap();
    assert_eq!(k, "0");
    assert_eq!(v.as_u32()?, 100);

    let (k, v) = map.next()?.unwrap();
    assert_eq!(k, "1000");
    assert_eq!(v.as_u32()?, 200);

    let (k, v) = map.next()?.unwrap();
    assert_eq!(k, "1000000");
    assert_eq!(v.as_u32()?, 300);
    Ok(())
}

#[test]
fn test_empty_everything() -> R<()> {
    let mut enc = Encoder::new();
    enc.str("")?;
    enc.bytes(&[])?;
    enc.record_blob(&[])?;
    {
        let list = enc.list();
        list.finish()?;
    }
    {
        let map = enc.map();
        map.finish()?;
    }
    let mut bytes = enc.into_bytes();
    // an array without items, as a writer that is not this one may leave it
    bytes.extend_from_slice(&[Tag::Array.to_u8(), 5, 0, 0, 0, Tag::U8.to_u8(), 1, 0, 0, 0]);

    let mut r = Reader::new(&bytes);
    assert_eq!(r.str()?, "");
    assert_eq!(r.bytes()?, &[] as &[u8]);
    assert_eq!(r.record_blob()?, &[] as &[u8]);
    assert!(r.list()?.next()?.is_none());
    assert!(r.map()?.next()?.is_none());
    assert!(matches!(r.array(), Err(Error::Malformed)));

    let mut enc = Encoder::new();
    let arr = enc.array(Tag::U8, 1)?;
    assert!(matches!(arr.finish(), Err(Error::Malformed)));
    Ok(())
}
