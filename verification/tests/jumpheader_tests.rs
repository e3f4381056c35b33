use isocore::jumpheader::{compute_jump_indices, find_jump_path, FrameHeader};
use isocore::neopack::encoder::Encoder;
use isocore::neopack::types::Error;

#[test]
fn test_compute_jump_indices() {
    // Frame 0: no jumps
    assert_eq!(compute_jump_indices(0), vec![]);

    // Frame 1: 0 = (nothing), no back pointers
    assert_eq!(compute_jump_indices(1), vec![]);

    // Frame 2: 1 = 2^0, cumulative: 1
    assert_eq!(compute_jump_indices(2), vec![1]);

    // Frame 8: 7 = 4 + 2 + 1 = 2^2 + 2^1 + 2^0
    // Cumulative (high to low): 4, 4+2=6, 6+1=7
    assert_eq!(compute_jump_indices(8), vec![4, 6, 7]);

    // Frame 24: 23 = 16 + 4 + 2 + 1
    // Cumulative (high to low): 16, 16+4=20, 20+2=22, 22+1=23
    assert_eq!(compute_jump_indices(24), vec![16, 20, 22, 23]);
}

#[test]
fn show_all_jumps_0_to_255() {
    for i in 0..=255 {
        let jumps = compute_jump_indices(i);
        println!("{}: {:?}", i, jumps);
    }
}

#[test]
fn test_find_jump_path() {
    // Jump from 24 to 17
    let path = find_jump_path(24, 17).unwrap();
    assert_eq!(path[0], 24);
    assert_eq!(path[path.len() - 1], 17);

    // Verify each jump is valid
    for i in 1..path.len() {
        let jumps = compute_jump_indices(path[i - 1]);
        assert!(
            jumps.contains(&path[i]),
            "Frame {} cannot jump to frame {}",
            path[i - 1],
            path[i]
        );
    }

    // Jump from 100 to 50
    let path = find_jump_path(100, 50).unwrap();
    assert_eq!(path[0], 100);
    assert_eq!(path[path.len() - 1], 50);
    assert!(path.len() <= 7, "Path should be logarithmic: {} steps", path.len());
}

#[test]
fn test_jump_path_bounds() {
    // Cannot jump forward
    assert_eq!(find_jump_path(10, 20), None);

    // Cannot jump to same frame
    assert_eq!(find_jump_path(10, 10), None);
}

#[test]
fn test_frame_header_encode_decode() {
    let header = FrameHeader::new(42, 12345, 1048576, vec![0, 1000, 2000, 3000]);

    let encoded = header.encode().unwrap();
    let decoded = FrameHeader::decode(&encoded).unwrap();

    assert_eq!(decoded.frame_number, header.frame_number);
    assert_eq!(decoded.compressed_size, header.compressed_size);
    assert_eq!(decoded.decompressed_size, header.decompressed_size);
    assert_eq!(decoded.jump_offsets, header.jump_offsets);
}

#[test]
fn jump_indices_count_the_ones_and_grow() {
    for n in 0..2000u64 {
        let jumps = compute_jump_indices(n);
        let ones = if n == 0 { 0 } else { (n - 1).count_ones() as usize };
        assert_eq!(jumps.len(), ones);
        for i in 1..jumps.len() {
            assert!(jumps[i - 1] < jumps[i]);
        }
        if n >= 2 {
            assert_eq!(*jumps.last().unwrap(), n - 1);
        }
    }
    assert_eq!(compute_jump_indices(u64::MAX).len(), 63);
}

#[test]
fn jump_paths_go_back_along_pointers_in_few_steps() {
    assert_eq!(find_jump_path(24, 17), Some(vec![24, 20, 18, 17]));
    assert_eq!(find_jump_path(2, 0), Some(vec![2, 1, 0]));
    assert_eq!(find_jump_path(1, 0), Some(vec![1, 0]));
    for from in 2..300u64 {
        for to in 1..from {
            let path = find_jump_path(from, to).unwrap();
            assert_eq!(path[0], from);
            assert_eq!(*path.last().unwrap(), to);
            for i in 1..path.len() {
                assert!(path[i] < path[i - 1]);
                assert!(compute_jump_indices(path[i - 1]).contains(&path[i]));
            }
            let bits = 64 - (from - 1).leading_zeros() as usize;
            assert!(path.len() <= 1 + bits);
        }
    }
}

#[test]
fn a_header_that_is_cut_short_is_pending() {
    let header = FrameHeader::new(1, 2, 3, vec![4, 5]);
    let encoded = header.encode().unwrap();
    assert_eq!(encoded.len(), 5 + 27 + 5 + 18);
    for cut in 0..encoded.len() {
        match FrameHeader::decode(&encoded[..cut]) {
            Err(Error::Pending(n)) => assert!(n > 0),
            other => panic!("expected Pending, got {:?}", other.map(|h| h.frame_number)),
        }
    }
}

#[test]
fn a_header_of_the_wrong_shape_is_refused() {
    let mut enc = Encoder::new();
    enc.u64(7);
    assert!(matches!(FrameHeader::decode(enc.as_bytes()), Err(Error::TypeMismatch)));

    let mut enc = Encoder::new();
    let mut list = enc.list();
    list.u64(1).unwrap();
    list.u64(2).unwrap();
    list.finish().unwrap();
    assert!(matches!(FrameHeader::decode(enc.as_bytes()), Err(Error::Malformed)));

    let mut enc = Encoder::new();
    let mut list = enc.list();
    list.u64(1).unwrap().u64(2).unwrap().u64(3).unwrap().u64(4).unwrap();
    list.finish().unwrap();
    assert!(matches!(FrameHeader::decode(enc.as_bytes()), Err(Error::TypeMismatch)));
}
