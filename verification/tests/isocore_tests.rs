use isocore::covering::{get_peaks, ItemId};
use isocore::isocore::{
    parse_child_line, IsoCore, IsoCoreError, NodeChild, NodeType, SignatureBlock, VerkleNode, WIDTH,
};
use isocore::key::{hash, KeyPair, Signature};
use isocore::message_core::{Core, CoreError, MessageId};

#[test]
fn isocore_create_and_add_message() {
    let signer = KeyPair::ephemeral();
    let mut isocore = IsoCore::create_mem(&signer);

    let msg1 = b"hello world";
    let hash1 = isocore.add_message(msg1, &signer).unwrap();

    assert_eq!(isocore.len().0, 1);

    let retrieved = isocore.get_message(ItemId(0)).unwrap();
    assert_eq!(retrieved, msg1);

    // Verify global root is stored in sig_core
    assert_eq!(isocore.sig_core.len().0, 1);

    // The global root should be deterministic for the same message
    assert!(!hash1.0.iter().all(|&b| b == 0));
}

#[test]
fn isocore_multiple_messages() {
    let signer = KeyPair::ephemeral();
    let mut isocore = IsoCore::create_mem(&signer);

    let messages = vec![b"message 1", b"message 2", b"message 3", b"message 4"];

    for msg in &messages {
        isocore.add_message(*msg, &signer).unwrap();
    }

    assert_eq!(isocore.len().0, 4);

    for (i, msg) in messages.iter().enumerate() {
        let retrieved = isocore.get_message(ItemId(i as u64)).unwrap();
        assert_eq!(retrieved, *msg);
    }
}

#[test]
fn isocore_lazy_loading() {
    let signer = KeyPair::ephemeral();
    let mut isocore = IsoCore::create_mem(&signer);

    isocore.add_message(b"test message", &signer).unwrap();
    isocore.add_message(b"another message", &signer).unwrap();

    let msg = isocore.get_message(ItemId(0)).unwrap();
    assert_eq!(msg, b"test message");

    let msg = isocore.get_message(ItemId(1)).unwrap();
    assert_eq!(msg, b"another message");
}

#[test]
fn isocore_empty_len() {
    let signer = KeyPair::ephemeral();
    let isocore = IsoCore::create_mem(&signer);
    assert_eq!(isocore.len().0, 0);
}

#[test]
fn verkle_node_serialization() {
    let node = VerkleNode {
        children: vec![NodeChild {
            node_type: NodeType::Leaf,
            hash: hash(b"test"),
            index: MessageId(0),
        }],
    };

    let bytes = node.to_bytes();
    let parsed = VerkleNode::from_bytes(&bytes).unwrap();

    assert_eq!(parsed.children.len(), 1);
    assert_eq!(parsed.children[0].node_type, NodeType::Leaf);
    assert_eq!(parsed.children[0].index, MessageId(0));
}

#[test]
fn a_node_is_lines_of_kind_hash_and_name() {
    let node = VerkleNode {
        children: vec![
            NodeChild { node_type: NodeType::Branch, hash: hash(b"a"), index: MessageId(0x1f) },
            NodeChild { node_type: NodeType::Leaf, hash: hash(b"b"), index: MessageId(0x12345) },
        ],
    };
    let text = String::from_utf8(node.to_bytes()).unwrap();
    let lines: Vec<&str> = text.split('\n').collect();
    assert_eq!(lines.len(), 4);
    assert_eq!(lines[3], "");
    let mut joined = Vec::new();
    joined.extend_from_slice(&hash(b"a").0);
    joined.extend_from_slice(&hash(b"b").0);
    assert_eq!(lines[0].as_bytes(), &hash(&joined).to_hex()[..]);
    assert_eq!(
        lines[1],
        format!("branch {} 001f.bin", String::from_utf8(hash(b"a").to_hex()).unwrap())
    );
    assert_eq!(
        lines[2],
        format!("leaf {} 12345.bin", String::from_utf8(hash(b"b").to_hex()).unwrap())
    );
    let back = VerkleNode::from_bytes(text.as_bytes()).unwrap();
    assert_eq!(back.children.len(), 2);
    assert_eq!(back.children[0].node_type, NodeType::Branch);
    assert_eq!(back.children[0].hash, hash(b"a"));
    assert_eq!(back.children[0].index, MessageId(0x1f));
    assert_eq!(back.children[1].index, MessageId(0x12345));
    assert_eq!(back.compute_hash(), node.compute_hash());
}

#[test]
fn lines_that_are_no_children_are_refused() {
    let good = String::from_utf8(hash(b"x").to_hex()).unwrap();
    assert!(matches!(parse_child_line(b"leaf"), Err(IsoCoreError::NodeFormat)));
    assert!(matches!(
        parse_child_line(format!("leaf {} 0001.bin extra", good).as_bytes()),
        Err(IsoCoreError::NodeFormat)
    ));
    assert!(matches!(
        parse_child_line(format!("twig {} 0001.bin", good).as_bytes()),
        Err(IsoCoreError::NodeType)
    ));
    assert!(matches!(
        parse_child_line(b"leaf 1234 0001.bin"),
        Err(IsoCoreError::HexEncoding)
    ));
    assert!(matches!(
        parse_child_line(format!("leaf {} 00x1.bin", good).as_bytes()),
        Err(IsoCoreError::MessageIdParse)
    ));
    assert!(matches!(
        parse_child_line(format!("leaf {} 10000000000000000.bin", good).as_bytes()),
        Err(IsoCoreError::MessageIdParse)
    ));
    let child = parse_child_line(format!("branch {} ffff", good.to_uppercase()).as_bytes()).unwrap();
    assert_eq!(child.index, MessageId(0xffff));
    assert_eq!(child.hash, hash(b"x"));
    assert!(matches!(VerkleNode::from_bytes(&[0xff, 0xfe]), Err(IsoCoreError::Utf8)));
    assert_eq!(VerkleNode::from_bytes(b"anything\n\n  \n").unwrap().children.len(), 0);
}

#[test]
fn a_signature_block_is_the_root_in_hex_and_the_signature() {
    let block = SignatureBlock { global_root: hash(b"root"), signature: Signature([7u8; 64]) };
    let bytes = block.to_bytes();
    assert_eq!(bytes.len(), 64 + 1 + 64);
    assert_eq!(&bytes[..64], &hash(b"root").to_hex()[..]);
    assert_eq!(bytes[64], b'\n');
    assert_eq!(&bytes[65..], &[7u8; 64][..]);
}

#[test]
fn another_signer_is_refused() {
    let owner = KeyPair::ephemeral();
    let other = KeyPair::ephemeral();
    let mut isocore = IsoCore::create_mem(&owner);
    assert!(matches!(isocore.add_message(b"m", &other), Err(IsoCoreError::SignerMismatch)));
    assert_eq!(isocore.len().0, 0);
    assert_eq!(isocore.verkle_core.len().0, 0);
}

#[test]
fn reading_past_the_end_is_a_future_message() {
    let signer = KeyPair::ephemeral();
    let mut isocore = IsoCore::create_mem(&signer);
    isocore.add_message(b"only", &signer).unwrap();
    assert!(matches!(
        isocore.get_message(ItemId(1)),
        Err(IsoCoreError::Core(CoreError::FutureMessage))
    ));
    assert!(matches!(
        isocore.get_message(ItemId(u64::MAX)),
        Err(IsoCoreError::Core(CoreError::FutureMessage))
    ));
}

fn root_of(isocore: &mut IsoCore, len: u64) -> isocore::key::Hash {
    let mut joined = Vec::new();
    for peak in get_peaks(len, WIDTH) {
        let text = isocore.verkle_core.get_contents(MessageId(peak.0)).unwrap().to_vec();
        let node = VerkleNode::from_bytes(&text).unwrap();
        joined.extend_from_slice(&node.compute_hash().0);
    }
    hash(&joined)
}

#[test]
fn every_prefix_is_signed_over_its_peaks() {
    let signer = KeyPair::ephemeral();
    let mut isocore = IsoCore::create_mem(&signer);
    let mut roots = Vec::new();
    for i in 0..70u64 {
        roots.push(isocore.add_message(format!("message {}", i).as_bytes(), &signer).unwrap());
    }
    assert_eq!(isocore.len().0, 70);
    assert_eq!(isocore.sig_core.len().0, 70);
    // 70 items complete 70 leaves, 8 nodes of height one and 1 of height two
    assert_eq!(isocore.verkle_core.len().0, 70 + 8 + 1);
    for i in 0..70u64 {
        let block = isocore.sig_core.get_contents(MessageId(i)).unwrap().to_vec();
        assert_eq!(block.len(), 129);
        assert_eq!(block[64], b'\n');
        assert_eq!(&block[..64], &roots[i as usize].to_hex()[..]);
        let mut sig = [0u8; 64];
        sig.copy_from_slice(&block[65..]);
        let root = root_of(&mut isocore, i + 1);
        assert_eq!(root, roots[i as usize]);
        assert!(isocore.signer.verify(&root.0, &Signature(sig)));
        assert!(!isocore.signer.verify(b"something else", &Signature(sig)));
    }
    for i in 0..70u64 {
        assert_eq!(isocore.get_message(ItemId(i)).unwrap(), format!("message {}", i).as_bytes());
    }
}

#[test]
fn every_branch_holds_the_hashes_of_its_children() {
    let signer = KeyPair::ephemeral();
    let mut isocore = IsoCore::create_mem(&signer);
    for i in 0..64u64 {
        isocore.add_message(&[i as u8; 3], &signer).unwrap();
    }
    let nodes = isocore.verkle_core.len().0;
    assert_eq!(nodes, 64 + 8 + 1);
    for y in 0..nodes {
        let text = isocore.verkle_core.get_contents(MessageId(y)).unwrap().to_vec();
        let node = VerkleNode::from_bytes(&text).unwrap();
        assert_eq!(&text[..64], &node.compute_hash().to_hex()[..]);
        for child in &node.children {
            if child.node_type == NodeType::Branch {
                let below = isocore.verkle_core.get_contents(child.index).unwrap().to_vec();
                let below = VerkleNode::from_bytes(&below).unwrap();
                assert_eq!(below.compute_hash(), child.hash);
            } else {
                let data = isocore.data_core.get_contents(child.index).unwrap().to_vec();
                assert_eq!(hash(&data), child.hash);
            }
        }
    }
}

#[test]
fn a_changed_message_fails_the_integrity_check() {
    let signer = KeyPair::ephemeral();
    let mut isocore = IsoCore::create(&signer);
    for i in 0..10u8 {
        isocore.add_message(format!("message {}", i).as_bytes(), &signer).unwrap();
    }
    isocore.data_core.flush().unwrap();
    isocore.verkle_core.flush().unwrap();
    isocore.sig_core.flush().unwrap();
    let info = isocore.info();
    let verkle = isocore.verkle_core.image();
    let sig = isocore.sig_core.image();

    // the same messages but for the sixth, written as the data log would write them
    let mut forged = Core::create();
    for i in 0..10u8 {
        let text = if i == 5 { "massage 5".to_string() } else { format!("message {}", i) };
        forged.add_message(text.as_bytes()).unwrap();
    }
    forged.flush().unwrap();

    let mut loaded = IsoCore::load(&info, forged.image(), verkle, sig).unwrap();
    assert_eq!(loaded.len().0, 10);
    assert!(matches!(loaded.get_message(ItemId(5)), Err(IsoCoreError::IntegrityError)));
    assert_eq!(loaded.get_message(ItemId(4)).unwrap(), b"message 4");
    assert_eq!(loaded.get_message(ItemId(6)).unwrap(), b"message 6");
}

#[test]
fn a_log_is_loaded_from_its_files_and_taken_up_again() {
    let signer = KeyPair::ephemeral();
    let mut isocore = IsoCore::create(&signer);
    for i in 0..20u8 {
        isocore.add_message(&[i; 5], &signer).unwrap();
    }
    isocore.data_core.flush().unwrap();
    isocore.verkle_core.flush().unwrap();
    isocore.sig_core.flush().unwrap();

    let mut loaded = IsoCore::load(
        &isocore.info(),
        isocore.data_core.image(),
        isocore.verkle_core.image(),
        isocore.sig_core.image(),
    )
    .unwrap();
    assert_eq!(loaded.signer, signer.key_pub);
    assert_eq!(loaded.len().0, 20);
    for i in 0..20u8 {
        assert_eq!(loaded.get_message(ItemId(i as u64)).unwrap(), &[i; 5]);
    }
    for i in 20..30u8 {
        loaded.add_message(&[i; 5], &signer).unwrap();
    }
    loaded.data_core.flush().unwrap();
    loaded.verkle_core.flush().unwrap();
    loaded.sig_core.flush().unwrap();
    let mut again = IsoCore::load(
        &loaded.info(),
        loaded.data_core.image(),
        loaded.verkle_core.image(),
        loaded.sig_core.image(),
    )
    .unwrap();
    assert_eq!(again.len().0, 30);
    for i in 0..30u8 {
        assert_eq!(again.get_message(ItemId(i as u64)).unwrap(), &[i; 5]);
    }
    assert!(matches!(
        IsoCore::load(&[1, 2, 3], Vec::new(), Vec::new(), Vec::new()),
        Err(IsoCoreError::NodeFormat)
    ));
    assert!(matches!(
        IsoCore::load(&[0u8; 32], Vec::new(), Vec::new(), Vec::new()),
        Err(IsoCoreError::Core(CoreError::Disk(_)))
    ));
}
