use isocore::message_core::{hex_digits, Core, CoreError, MessageId, FULL};

#[test]
fn names_are_four_hex_digits_and_bin() {
    assert_eq!(MessageId(0).to_file_name(), "0000.bin");
    assert_eq!(MessageId(0x1f).to_file_name(), "001f.bin");
    assert_eq!(MessageId(0xffff).to_file_name(), "ffff.bin");
    assert_eq!(MessageId(0x12345).to_file_name(), "12345.bin");
    assert_eq!(MessageId(u64::MAX).to_file_name(), "ffffffffffffffff.bin");
    assert_eq!(hex_digits(0, 0), b"0".to_vec());
    assert_eq!(hex_digits(255, 1), b"ff".to_vec());
    assert_eq!(hex_digits(255, 6), b"0000ff".to_vec());
    assert!(!MessageId(0).is_full());
    assert!(!MessageId(FULL - 1).is_full());
    assert!(MessageId(FULL).is_full());
}

#[test]
fn a_core_in_memory_gives_back_what_was_appended() {
    let mut core = Core::create_mem();
    assert_eq!(core.len(), MessageId(0));
    assert_eq!(core.add_message(b"one").unwrap(), MessageId(0));
    assert_eq!(core.add_message(b"").unwrap(), MessageId(1));
    assert_eq!(core.add_message(b"three").unwrap(), MessageId(2));
    assert_eq!(core.len(), MessageId(3));
    assert_eq!(core.get_contents(MessageId(0)).unwrap(), b"one");
    assert_eq!(core.get_contents(MessageId(1)).unwrap(), b"");
    assert_eq!(core.get_contents(MessageId(2)).unwrap(), b"three");
    assert!(matches!(core.get_contents(MessageId(3)), Err(CoreError::FutureMessage)));
    assert!(matches!(core.load_message(MessageId(9)), Err(CoreError::FutureMessage)));
    core.flush().unwrap();
    assert!(core.image().is_empty());
}

#[test]
fn a_core_is_full_after_its_last_number() {
    let mut core = Core::create_mem();
    for i in 0..FULL {
        assert_eq!(core.add_message(&[1]).unwrap(), MessageId(i));
    }
    assert!(matches!(core.add_message(&[1]), Err(CoreError::CoreFull)));
    assert_eq!(core.len(), MessageId(FULL));
}

#[test]
fn a_core_is_written_loaded_and_appended_to() {
    let mut core = Core::create();
    for i in 0..100u8 {
        core.add_message(&[i; 7]).unwrap();
    }
    core.flush().unwrap();
    let file = core.image();
    assert_eq!(&file[file.len() - 8..], b"NEODISK\0");

    let mut loaded = Core::load(file.clone()).unwrap();
    assert_eq!(loaded.len(), MessageId(100));
    assert_eq!(loaded.get_contents(MessageId(99)).unwrap(), &[99u8; 7]);
    assert_eq!(loaded.get_contents(MessageId(0)).unwrap(), &[0u8; 7]);
    assert_eq!(loaded.get_contents(MessageId(0)).unwrap(), &[0u8; 7]);
    assert_eq!(loaded.add_message(b"new").unwrap(), MessageId(100));
    assert_eq!(loaded.get_contents(MessageId(100)).unwrap(), b"new");
    loaded.flush().unwrap();
    let grown = loaded.image();
    assert_eq!(&grown[..file.len() - 16], &file[..file.len() - 16]);

    let mut again = Core::load(grown).unwrap();
    assert_eq!(again.len(), MessageId(101));
    assert_eq!(again.get_contents(MessageId(100)).unwrap(), b"new");
    assert_eq!(again.get_contents(MessageId(50)).unwrap(), &[50u8; 7]);

    assert!(matches!(Core::load(vec![1, 2, 3]), Err(CoreError::Disk(_))));
}

#[test]
fn a_record_that_is_no_bytes_value_is_reported() {
    use_wrong_record();
}

fn use_wrong_record() {
    let mut writer = isocore::neodisk::NeoDiskWriter::create();
    let mut enc = isocore::neopack::encoder::Encoder::new();
    enc.u64(5);
    writer.append(enc.as_bytes()).unwrap();
    writer.flush().unwrap();
    let mut core = Core::load(writer.output.clone()).unwrap();
    assert_eq!(core.len(), MessageId(1));
    assert!(matches!(
        core.get_contents(MessageId(0)),
        Err(CoreError::Neopack(isocore::neopack::types::Error::TypeMismatch))
    ));
}
