use isocore::covering::{
    children_for_covering, covering_range, coverings_for_item, get_peaks, map_item_to_covering,
    CoveringId, ItemId,
};

#[test]
fn binary_tree() {
    assert_eq!(covering_range(CoveringId(7), 2), ItemId(4)..ItemId(5));
    assert_eq!(covering_range(CoveringId(8), 2), ItemId(5)..ItemId(6));
}

#[test]
fn quad_tree() {
    assert_eq!(covering_range(CoveringId(3), 4), ItemId(3)..ItemId(4));
    assert_eq!(covering_range(CoveringId(4), 4), ItemId(0)..ItemId(4));
}

#[test]
fn item_coverings() {
    assert_eq!(coverings_for_item(ItemId(3), 4), CoveringId(3)..CoveringId(5));
    assert_eq!(coverings_for_item(ItemId(4), 4), CoveringId(5)..CoveringId(6));
}

#[test]
fn children() {
    let c0 = children_for_covering(CoveringId(20), 4);
    assert_eq!(c0, vec![CoveringId(4), CoveringId(9), CoveringId(14), CoveringId(19)]);

    let c1 = children_for_covering(CoveringId(4), 4);
    assert_eq!(c1, vec![CoveringId(0), CoveringId(1), CoveringId(2), CoveringId(3)]);
}

#[test]
fn an_item_is_covered_by_its_own_index() {
    for w in [2u64, 4, 8, 16] {
        for n in 0..500u64 {
            let y = coverings_for_item(ItemId(n), w).start;
            assert_eq!(covering_range(y, w), ItemId(n)..ItemId(n + 1));
        }
    }
}

#[test]
fn a_node_follows_its_last_child() {
    for w in [2u64, 4, 8] {
        for y in 0..600u64 {
            let kids = children_for_covering(CoveringId(y), w);
            if !kids.is_empty() {
                assert_eq!(kids.len() as u64, w);
                assert_eq!(kids[kids.len() - 1], CoveringId(y - 1));
                let whole = covering_range(CoveringId(y), w);
                assert_eq!(covering_range(kids[0], w).start, whole.start);
                assert_eq!(covering_range(kids[kids.len() - 1], w).end, whole.end);
            }
        }
    }
}

#[test]
fn the_nodes_of_an_item_end_where_the_next_item_starts() {
    for n in 0..300u64 {
        let this = coverings_for_item(ItemId(n), 8);
        let next = coverings_for_item(ItemId(n + 1), 8);
        assert_eq!(this.end, next.start);
        assert!(this.start < this.end);
    }
}

#[test]
fn peaks_cover_all_items_from_left_to_right() {
    for len in 0..200u64 {
        let peaks = get_peaks(len, 8);
        let mut at = 0u64;
        for p in &peaks {
            let range = covering_range(*p, 8);
            assert_eq!(range.start, ItemId(at));
            at = range.end.0;
        }
        assert_eq!(at, len);
    }
    assert_eq!(get_peaks(0, 8), vec![]);
    assert_eq!(get_peaks(1, 8), vec![CoveringId(0)]);
    assert_eq!(get_peaks(8, 8), vec![CoveringId(8)]);
    assert_eq!(get_peaks(9, 8), vec![CoveringId(8), CoveringId(9)]);
    assert_eq!(get_peaks(17, 8), vec![CoveringId(8), CoveringId(17), CoveringId(18)]);
}

#[test]
fn the_range_of_a_node_leads_back_to_the_node() {
    for width in [2u64, 4, 8] {
        for y in 0..400u64 {
            let r = covering_range(CoveringId(y), width);
            let size = r.end.0 - r.start.0;
            // the size is a power of the width and divides the end
            let mut h = 0u64;
            let mut p = 1u64;
            while p < size {
                p *= width;
                h += 1;
            }
            assert_eq!(p, size);
            assert_eq!(r.end.0 % size, 0);
            assert_eq!(map_item_to_covering(r.end.0 - 1, width) + h, y);
        }
        for n in 0..200u64 {
            let y = map_item_to_covering(n, width);
            let r = covering_range(CoveringId(y), width);
            assert_eq!((r.start.0, r.end.0), (n, n + 1));
        }
    }
    assert_eq!(map_item_to_covering(0, 4), 0);
    assert_eq!(map_item_to_covering(4, 4), 5);
    assert_eq!(map_item_to_covering(16, 4), 21);
}
