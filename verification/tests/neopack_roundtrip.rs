use isocore::neopack::decoder::{Reader, RecordReader, ValueReader};
use isocore::neopack::encoder::Encoder;
use isocore::neopack::types::{Error, Tag};

type R<T> = Result<T, Error>;

#[test]
fn test_bool_roundtrip() -> R<()> {
    let mut enc = Encoder::new();
    enc.bool(true);
    enc.bool(false);
    let bytes = enc.as_bytes();

    let mut r = Reader::new(bytes);
    assert_eq!(r.bool()?, true);
    assert_eq!(r.bool()?, false);
    Ok(())
}

#[test]
fn test_u8_roundtrip() -> R<()> {
    let mut enc = Encoder::new();
    enc.u8(0);
    enc.u8(255);
    enc.u8(42);
    let bytes = enc.as_bytes();

    let mut r = Reader::new(bytes);
    assert_eq!(r.u8()?, 0);
    assert_eq!(r.u8()?, 255);
    assert_eq!(r.u8()?, 42);
    Ok(())
}

#[test]
fn test_i8_roundtrip() -> R<()> {
    let mut enc = Encoder::new();
    enc.i8(-128);
    enc.i8(127);
    enc.i8(0);
    enc.i8(-1);
    let bytes = enc.as_bytes();

    let mut r = Reader::new(bytes);
    assert_eq!(r.i8()?, -128);
    assert_eq!(r.i8()?, 127);
    assert_eq!(r.i8()?, 0);
    assert_eq!(r.i8()?, -1);
    Ok(())
}

#[test]
fn test_u16_roundtrip() -> R<()> {
    let mut enc = Encoder::new();
    enc.u16(0);
    enc.u16(65535);
    enc.u16(1234);
    let bytes = enc.as_bytes();

    let mut r = Reader::new(bytes);
    assert_eq!(r.u16()?, 0);
    assert_eq!(r.u16()?, 65535);
    assert_eq!(r.u16()?, 1234);
    Ok(())
}

#[test]
fn test_i16_roundtrip() -> R<()> {
    let mut enc = Encoder::new();
    enc.i16(-32768);
    enc.i16(32767);
    enc.i16(0);
    let bytes = enc.as_bytes();

    let mut r = Reader::new(bytes);
    assert_eq!(r.i16()?, -32768);
    assert_eq!(r.i16()?, 32767);
    assert_eq!(r.i16()?, 0);
    Ok(())
}

#[test]
fn test_u32_roundtrip() -> R<()> {
    let mut enc = Encoder::new();
    enc.u32(0);
    enc.u32(4294967295);
    enc.u32(123456);
    let bytes = enc.as_bytes();

    let mut r = Reader::new(bytes);
    assert_eq!(r.u32()?, 0);
    assert_eq!(r.u32()?, 4294967295);
    assert_eq!(r.u32()?, 123456);
    Ok(())
}

#[test]
fn test_i32_roundtrip() -> R<()> {
    let mut enc = Encoder::new();
    enc.i32(-2147483648);
    enc.i32(2147483647);
    enc.i32(0);
    let bytes = enc.as_bytes();

    let mut r = Reader::new(bytes);
    assert_eq!(r.i32()?, -2147483648);
    assert_eq!(r.i32()?, 2147483647);
    assert_eq!(r.i32()?, 0);
    Ok(())
}

#[test]
fn test_u64_roundtrip() -> R<()> {
    let mut enc = Encoder::new();
    enc.u64(0);
    enc.u64(u64::MAX);
    enc.u64(123456789);
    let bytes = enc.as_bytes();

    let mut r = Reader::new(bytes);
    assert_eq!(r.u64()?, 0);
    assert_eq!(r.u64()?, u64::MAX);
    assert_eq!(r.u64()?, 123456789);
    Ok(())
}

#[test]
fn test_i64_roundtrip() -> R<()> {
    let mut enc = Encoder::new();
    enc.i64(i64::MIN);
    enc.i64(i64::MAX);
    enc.i64(0);
    let bytes = enc.as_bytes();

    let mut r = Reader::new(bytes);
    assert_eq!(r.i64()?, i64::MIN);
    assert_eq!(r.i64()?, i64::MAX);
    assert_eq!(r.i64()?, 0);
    Ok(())
}

#[test]
fn test_f32_roundtrip() -> R<()> {
    let mut enc = Encoder::new();
    enc.f32_bits(0.0f32.to_bits());
    enc.f32_bits(3.14159f32.to_bits());
    enc.f32_bits((-1.5f32).to_bits());
    enc.f32_bits(f32::INFINITY.to_bits());
    let bytes = enc.as_bytes();

    let mut r = Reader::new(bytes);
    assert_eq!(f32::from_bits(r.f32_bits()?), 0.0);
    assert_eq!(f32::from_bits(r.f32_bits()?), 3.14159);
    assert_eq!(f32::from_bits(r.f32_bits()?), -1.5);
    assert_eq!(f32::from_bits(r.f32_bits()?), f32::INFINITY);
    Ok(())
}

#[test]
fn test_f64_roundtrip() -> R<()> {
    let mut enc = Encoder::new();
    enc.f64_bits(0.0f64.to_bits());
    enc.f64_bits(3.141592653589793f64.to_bits());
    enc.f64_bits((-2.5f64).to_bits());
    enc.f64_bits(f64::NEG_INFINITY.to_bits());
    let bytes = enc.as_bytes();

    let mut r = Reader::new(bytes);
    assert_eq!(f64::from_bits(r.f64_bits()?), 0.0);
    assert_eq!(f64::from_bits(r.f64_bits()?), 3.141592653589793);
    assert_eq!(f64::from_bits(r.f64_bits()?), -2.5);
    assert_eq!(f64::from_bits(r.f64_bits()?), f64::NEG_INFINITY);
    Ok(())
}

#[test]
fn test_string_roundtrip() -> R<()> {
    let mut enc = Encoder::new();
    enc.str("hello")?;
    enc.str("")?;
    enc.str("world 🌍")?;
    let bytes = enc.as_bytes();

    let mut r = Reader::new(bytes);
    assert_eq!(r.str()?, "hello");
    assert_eq!(r.str()?, "");
    assert_eq!(r.str()?, "world 🌍");
    Ok(())
}

#[test]
fn test_bytes_roundtrip() -> R<()> {
    let mut enc = Encoder::new();
    enc.bytes(&[1, 2, 3])?;
    enc.bytes(&[])?;
    enc.bytes(&[255, 0, 128])?;
    let bytes = enc.as_bytes();

    let mut r = Reader::new(bytes);
    assert_eq!(r.bytes()?, &[1, 2, 3]);
    assert_eq!(r.bytes()?, &[] as &[u8]);
    assert_eq!(r.bytes()?, &[255, 0, 128]);
    Ok(())
}

#[test]
fn test_struct_blob_roundtrip() -> R<()> {
    let mut enc = Encoder::new();
    enc.record_blob(&[10, 20, 30])?;
    let bytes = enc.as_bytes();

    let mut r = Reader::new(bytes);
    assert_eq!(r.record_blob()?, &[10, 20, 30]);
    Ok(())
}

#[test]
fn test_pending_error() {
    let bytes = vec![0x05];
    let mut r = Reader::new(&bytes);
    match r.u16() {
        Err(Error::Pending(n)) => assert_eq!(n, 2),
        _ => panic!("Expected Pending error"),
    }
}

#[test]
fn test_invalid_tag() {
    let bytes = vec![0xFF];
    let mut r = Reader::new(&bytes);
    match r.read_tag() {
        Err(Error::InvalidTag(0xFF)) => {}
        _ => panic!("Expected InvalidTag error"),
    }
}

#[test]
fn test_type_mismatch() -> R<()> {
    let mut enc = Encoder::new();
    enc.u32(42);
    let bytes = enc.as_bytes();

    let mut r = Reader::new(bytes);
    match r.u16() {
        Err(Error::TypeMismatch) => {}
        _ => panic!("Expected TypeMismatch error"),
    }
    Ok(())
}

#[test]
fn test_invalid_utf8() {
    let mut bad_bytes = vec![0x10];
    bad_bytes.extend_from_slice(&2u32.to_le_bytes());
    bad_bytes.extend_from_slice(&[0xFF, 0xFE]);

    let mut r = Reader::new(&bad_bytes);
    match r.str() {
        Err(Error::InvalidUtf8) => {}
        _ => panic!("Expected InvalidUtf8 error"),
    }
}

#[test]
fn test_blob_too_large() {
    let mut enc = Encoder::new();
    let huge_str = "x".repeat(65536);
    let _ = enc.str(&huge_str);
}

#[test]
fn test_array_stride_mismatch() -> R<()> {
    let mut enc = Encoder::new();
    let mut arr = enc.array(Tag::U32, 4)?;
    match arr.push(&[1, 2]) {
        Err(Error::Malformed) => {}
        _ => panic!("Expected Malformed error"),
    }
    Ok(())
}

#[test]
fn test_streaming_incremental() -> R<()> {
    let mut enc = Encoder::new();
    enc.u32(1234);
    let full_bytes = enc.as_bytes();

    let mut r = Reader::new(&full_bytes[..2]);
    match r.u32() {
        Err(Error::Pending(_)) => {}
        _ => panic!("Expected Pending"),
    }

    let mut r = Reader::new(full_bytes);
    assert_eq!(r.u32()?, 1234);
    Ok(())
}

#[test]
fn test_partial_string() -> R<()> {
    let mut enc = Encoder::new();
    enc.str("hello")?;
    let full_bytes = enc.as_bytes();

    let mut r = Reader::new(&full_bytes[..3]);
    match r.str() {
        Err(Error::Pending(n)) => assert_eq!(n, 2),
        _ => panic!("Expected Pending"),
    }
    Ok(())
}

#[test]
fn test_struct_reader_sequential() -> R<()> {
    let mut enc = Encoder::new();
    let mut struct_data = Vec::new();
    struct_data.extend_from_slice(&42u32.to_le_bytes());
    struct_data.extend_from_slice(&3.14f32.to_le_bytes());
    struct_data.push(123);
    enc.record_blob(&struct_data)?;

    let bytes = enc.as_bytes();
    let mut r = Reader::new(&bytes);
    let mut sr = r.record()?;

    assert_eq!(sr.u32()?, 42);
    assert_eq!(f32::from_bits(sr.f32_bits()?), 3.14);
    assert_eq!(sr.u8()?, 123);
    assert_eq!(sr.remaining(), 0);
    Ok(())
}

#[test]
fn test_struct_reader_raw() -> R<()> {
    let mut enc = Encoder::new();
    enc.record_blob(&[1, 2, 3, 4])?;

    let bytes = enc.as_bytes();
    let mut r = Reader::new(&bytes);
    let mut sr = r.record()?;

    assert_eq!(sr.raw(), &[1, 2, 3, 4]);
    let _ = sr.bytes(4)?;
    Ok(())
}

#[test]
fn test_unicode_madness() -> R<()> {
    let mut enc = Encoder::new();
    enc.str("Hello 世界 🦀 Здравствуй مرحبا")?;
    enc.str("🎉🎊🎈")?;
    enc.str("∑∫∂∇")?;

    let bytes = enc.as_bytes();
    let mut r = Reader::new(&bytes);
    assert_eq!(r.str()?, "Hello 世界 🦀 Здравствуй مرحبا");
    assert_eq!(r.str()?, "🎉🎊🎈");
    assert_eq!(r.str()?, "∑∫∂∇");
    Ok(())
}

#[test]
fn test_struct_as_custom_type() -> R<()> {
    let mut enc = Encoder::new();
    let mut point = Vec::new();
    point.extend_from_slice(&1.5f32.to_le_bytes());
    point.extend_from_slice(&2.5f32.to_le_bytes());
    point.extend_from_slice(&3.5f32.to_le_bytes());
    enc.record_blob(&point)?;

    let bytes = enc.as_bytes();
    let mut r = Reader::new(&bytes);
    let mut sr = r.record()?;

    let x = f32::from_bits(sr.f32_bits()?);
    let y = f32::from_bits(sr.f32_bits()?);
    let z = f32::from_bits(sr.f32_bits()?);

    assert_eq!(x, 1.5);
    assert_eq!(y, 2.5);
    assert_eq!(z, 3.5);
    Ok(())
}

#[test]
fn test_array_of_structs_layout() -> R<()> {
    let mut enc = Encoder::new();
    let stride = 8;

    {
        let mut arr = enc.array(Tag::Struct, stride)?;

        let mut rec = arr.fixed_record();
        rec.u32(1)?;
        rec.u32(2)?;
        rec.finish()?;

        let mut rec = arr.fixed_record();
        rec.u32(10)?;
        rec.u32(20)?;
        rec.finish()?;
        arr.finish()?;
    }

    let bytes = enc.as_bytes();

    let mut r = Reader::new(bytes);
    let mut arr = r.array()?;

    assert_eq!(arr.item_tag(), Tag::Struct);
    assert_eq!(arr.stride(), 8);

    let data1 = match arr.next()?.unwrap() {
        ValueReader::Struct(b) => b,
        _ => panic!("Expected a record"),
    };
    let mut r1 = RecordReader::new(data1);
    assert_eq!(r1.u32()?, 1);
    assert_eq!(r1.u32()?, 2);

    let data2 = match arr.next()?.unwrap() {
        ValueReader::Struct(b) => b,
        _ => panic!("Expected a record"),
    };
    let mut r2 = RecordReader::new(data2);
    assert_eq!(r2.u32()?, 10);
    assert_eq!(r2.u32()?, 20);

    Ok(())
}
