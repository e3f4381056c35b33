use isocore::neodisk::{Error, MessageId, NeoDiskReader, NeoDiskWriter};
use isocore::neopack::decoder::Reader;
use isocore::neopack::encoder::Encoder;

#[test]
fn test_write_and_read() -> Result<(), Error> {
    // Write
    let mut writer = NeoDiskWriter::create();

    for i in 0..10 {
        let mut enc = Encoder::new();
        enc.u64(i);
        writer.append(enc.as_bytes())?;
    }

    writer.flush()?;

    // Read
    let reader = NeoDiskReader::open(&writer.output)?;
    assert_eq!(reader.len(), 10);

    for i in 0..10 {
        let msg = reader.read(MessageId(i))?;
        let mut dec = Reader::new(&msg);
        assert_eq!(dec.u64().unwrap(), i);
    }
    Ok(())
}

#[test]
fn test_multiple_frames() -> Result<(), Error> {
    let mut writer = NeoDiskWriter::create_with_frame_size(100);

    // Write enough to create multiple frames
    for i in 0..50 {
        let mut enc = Encoder::new();
        enc.str(&format!("message_{}", i)).unwrap();
        writer.append(enc.as_bytes())?;
    }

    writer.flush()?;

    let reader = NeoDiskReader::open(&writer.output)?;
    assert_eq!(reader.len(), 50);

    // Read from different frames
    let msg0 = reader.read(MessageId(0))?;
    let msg25 = reader.read(MessageId(25))?;
    let msg49 = reader.read(MessageId(49))?;

    let mut dec = Reader::new(&msg0);
    assert_eq!(dec.str().unwrap(), "message_0");

    let mut dec = Reader::new(&msg25);
    assert_eq!(dec.str().unwrap(), "message_25");

    let mut dec = Reader::new(&msg49);
    assert_eq!(dec.str().unwrap(), "message_49");
    Ok(())
}

#[test]
fn test_jump_headers() -> Result<(), Error> {
    let mut writer = NeoDiskWriter::create_with_frame_size(50);

    // Write enough to create many frames (test logarithmic jumps)
    for i in 0..100 {
        let mut enc = Encoder::new();
        enc.u64(i);
        writer.append(enc.as_bytes())?;
    }

    writer.flush()?;

    // Verify jump offsets were computed
    assert!(writer.frames.len() > 5, "Should have multiple frames");

    let reader = NeoDiskReader::open(&writer.output)?;
    assert_eq!(reader.len(), 100);

    // Verify we can read all messages
    for i in 0..100 {
        let msg = reader.read(MessageId(i))?;
        let mut dec = Reader::new(&msg);
        assert_eq!(dec.u64().unwrap(), i);
    }
    Ok(())
}

#[test]
fn headers_point_back_at_the_headers_of_their_jump_frames() {
    use_headers();
}

fn use_headers() {
    let mut writer = NeoDiskWriter::create_with_frame_size(9);
    for i in 0..30u64 {
        let mut enc = Encoder::new();
        enc.u64(i);
        writer.append(enc.as_bytes()).unwrap();
    }
    writer.flush().unwrap();
    assert_eq!(writer.frames.len(), 30);
    let file = &writer.output;
    for (n, frame) in writer.frames.iter().enumerate() {
        assert_eq!(frame.frame_number, n as u64);
        assert_eq!(frame.message_count, 1);
        assert_eq!(frame.first_message_id, n as u64);
        let header =
            isocore::jumpheader::FrameHeader::decode(&file[frame.header_offset as usize..]).unwrap();
        assert_eq!(header.frame_number, n as u64);
        assert_eq!(header.decompressed_size, 9);
        assert_eq!(header.compressed_size, frame.compressed_size);
        let jumps = isocore::jumpheader::compute_jump_indices(n as u64);
        let offsets: Vec<u64> =
            jumps.iter().map(|j| writer.frames[*j as usize].header_offset).collect();
        assert_eq!(header.jump_offsets, offsets);
    }
    // the footer: offset of the last header, then the magic bytes
    let footer = &file[file.len() - 16..];
    assert_eq!(&footer[..8], &writer.frames[29].header_offset.to_le_bytes());
    assert_eq!(&footer[8..], b"NEODISK\0");
}

#[test]
fn a_file_without_footer_is_refused() {
    assert!(matches!(NeoDiskReader::open(&[]), Err(Error::InvalidFormat)));
    assert!(matches!(NeoDiskReader::open(&[0u8; 15]), Err(Error::InvalidFormat)));
    assert!(matches!(NeoDiskReader::open(&[0u8; 16]), Err(Error::InvalidFormat)));
    let mut only_footer = vec![0u8; 8];
    only_footer.extend_from_slice(b"NEODISK\0");
    let reader = NeoDiskReader::open(&only_footer).unwrap();
    assert_eq!(reader.len(), 0);
    assert!(matches!(reader.decompress_frame(0), Err(Error::FrameNotFound(0))));
    assert!(matches!(reader.read(MessageId(0)), Err(Error::MessageNotFound(0))));
}

#[test]
fn a_damaged_file_is_reported() {
    let mut writer = NeoDiskWriter::create();
    for i in 0..5u64 {
        let mut enc = Encoder::new();
        enc.u64(i);
        writer.append(enc.as_bytes()).unwrap();
    }
    writer.flush().unwrap();
    let good = writer.output.clone();
    assert!(matches!(
        NeoDiskReader::open(&good).unwrap().read(MessageId(5)),
        Err(Error::MessageNotFound(5))
    ));

    // a header that claims a body beyond the footer
    let header = isocore::jumpheader::FrameHeader::new(0, 1000, 45, vec![]).encode().unwrap();
    let mut overrun = header.clone();
    overrun.extend_from_slice(&good[header.len()..]);
    assert!(matches!(NeoDiskReader::open(&overrun), Err(Error::InvalidFormat)));

    // a body that is no zstd frame
    let mut garbled = good.clone();
    let body_start = header.len();
    for b in &mut garbled[body_start..body_start + 4] {
        *b = 0;
    }
    assert!(matches!(NeoDiskReader::open(&garbled), Err(Error::Compression(_))));

    // a header that is no list
    let mut no_header = good.clone();
    no_header[0] = 0xFF;
    assert!(matches!(
        NeoDiskReader::open(&no_header),
        Err(Error::Neopack(isocore::neopack::types::Error::InvalidTag(0xFF)))
    ));
}

#[test]
fn a_log_is_taken_up_where_its_footer_stood() {
    let mut first = NeoDiskWriter::create_with_frame_size(20);
    for i in 0..7u64 {
        let mut enc = Encoder::new();
        enc.u64(i);
        first.append(enc.as_bytes()).unwrap();
    }
    first.flush().unwrap();
    let file = first.output.clone();

    let mut second = NeoDiskWriter::open(&file).unwrap();
    assert_eq!(second.len(), 7);
    assert_eq!(second.base as usize, file.len() - 16);
    for i in 7..12u64 {
        let mut enc = Encoder::new();
        enc.u64(i);
        assert_eq!(second.append(enc.as_bytes()).unwrap(), MessageId(i));
    }
    second.flush().unwrap();
    let mut grown = file[..second.base as usize].to_vec();
    grown.extend_from_slice(&second.output);

    let reader = NeoDiskReader::open(&grown).unwrap();
    assert_eq!(reader.len(), 12);
    for i in 0..12u64 {
        let msg = reader.read(MessageId(i)).unwrap();
        assert_eq!(Reader::new(&msg).u64().unwrap(), i);
    }

    // flushing twice writes one footer, and appending after a flush moves it
    second.flush().unwrap();
    let mut same = file[..second.base as usize].to_vec();
    same.extend_from_slice(&second.output);
    assert_eq!(same, grown);
    let mut enc = Encoder::new();
    enc.u64(12);
    second.append(enc.as_bytes()).unwrap();
    second.flush().unwrap();
    let mut more = file[..second.base as usize].to_vec();
    more.extend_from_slice(&second.output);
    let reader = NeoDiskReader::open(&more).unwrap();
    assert_eq!(reader.len(), 13);
    assert_eq!(Reader::new(&reader.read(MessageId(12)).unwrap()).u64().unwrap(), 12);
}

#[test]
fn an_empty_log_has_no_footer() {
    let mut writer = NeoDiskWriter::create();
    writer.flush().unwrap();
    assert!(writer.output.is_empty());
    assert_eq!(writer.len(), 0);
}

#[test]
fn the_body_of_a_frame_is_the_zstd_frame_of_its_records() {
    let mut writer = NeoDiskWriter::create();
    let mut records: Vec<u8> = Vec::new();
    for _ in 0..200 {
        let mut enc = Encoder::new();
        enc.u64(7);
        writer.append(enc.as_bytes()).unwrap();
        records.extend_from_slice(enc.as_bytes());
    }
    writer.flush().unwrap();
    let file = writer.output.clone();

    let reader = NeoDiskReader::open(&file).unwrap();
    assert_eq!(reader.frames.len(), 1);
    let frame = reader.frames[0];
    assert_eq!(frame.decompressed_size as usize, records.len());
    let body_end = file.len() - 16;
    let body_start = body_end - frame.compressed_size as usize;
    let body = &file[body_start..body_end];
    // the magic number of a zstd frame, and fewer bytes than went in
    assert_eq!(&body[..4], &[0x28, 0xb5, 0x2f, 0xfd]);
    assert!(body.len() < records.len());
    assert_eq!(zstd::decode_all(body).unwrap(), records);
    assert_eq!(reader.decompress_frame(0).unwrap(), records);
}

#[test]
fn a_closed_log_ends_in_the_footer_of_its_last_frame() {
    let mut writer = NeoDiskWriter::create_with_frame_size(20);
    for i in 0..9u64 {
        let mut enc = Encoder::new();
        enc.u64(i);
        writer.append(enc.as_bytes()).unwrap();
    }
    writer.flush().unwrap();
    let file = writer.output.clone();
    let frames = NeoDiskReader::scan_frames(&file).unwrap();
    assert!(frames.len() > 1);
    // every frame holds a message, and the frames follow on each other
    assert_eq!(frames[0].header_offset, 0);
    assert_eq!(frames[0].first_message_id, 0);
    for k in 0..frames.len() {
        assert!(frames[k].message_count >= 1);
        if k + 1 < frames.len() {
            assert_eq!(
                frames[k + 1].first_message_id,
                frames[k].first_message_id + frames[k].message_count
            );
            assert!(frames[k].header_offset < frames[k + 1].header_offset);
        }
    }
    // the footer: the offset of the last header, and the magic bytes
    let mut footer = frames.last().unwrap().header_offset.to_le_bytes().to_vec();
    footer.extend_from_slice(b"NEODISK\0");
    assert_eq!(&file[file.len() - 16..], &footer[..]);

    // a second flush leaves the file as it is
    writer.flush().unwrap();
    assert_eq!(writer.output, file);

    // and after one more message the footer names the new last frame
    let mut enc = Encoder::new();
    enc.u64(9);
    writer.append(enc.as_bytes()).unwrap();
    writer.flush().unwrap();
    let grown = writer.output.clone();
    let frames = NeoDiskReader::scan_frames(&grown).unwrap();
    let mut footer = frames.last().unwrap().header_offset.to_le_bytes().to_vec();
    footer.extend_from_slice(b"NEODISK\0");
    assert_eq!(&grown[grown.len() - 16..], &footer[..]);
    assert_eq!(NeoDiskReader::open(&grown).unwrap().len(), 10);
}
