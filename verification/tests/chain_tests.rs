use chainscan::chain::{
    build_chain_index, find_genesis, get_block_height, BlockHeight, BlockIndex, BlockLocation,
    ChainError, DiscoveredBlock,
};
use chainscan::hash::Hash256;

fn h(n: u64) -> Hash256 {
    Hash256 { w0: n, w1: 0, w2: 0, w3: 0 }
}

fn zero() -> Hash256 {
    Hash256 { w0: 0, w1: 0, w2: 0, w3: 0 }
}

fn block(hash: Hash256, prev: Hash256, offset: u64) -> DiscoveredBlock {
    DiscoveredBlock {
        hash,
        prev_hash: prev,
        location: BlockLocation {
            file_path: String::from("blk00000.dat"),
            file_offset: offset,
            block_hash: hash,
            block_size: 285,
        },
    }
}

fn linear_chain() -> Vec<DiscoveredBlock> {
    vec![block(h(1), zero(), 0), block(h(2), h(1), 293), block(h(3), h(2), 586)]
}

#[test]
fn genesis_is_last_zero_predecessor() {
    assert_eq!(find_genesis(&linear_chain()), Some(h(1)));
    assert_eq!(find_genesis(&Vec::new()), None);
}

#[test]
fn heights_equal_distance_from_genesis() {
    let recs = linear_chain();
    let gen = h(1);
    assert_eq!(get_block_height(&recs, &gen, &h(1)), BlockHeight::Known(0));
    assert_eq!(get_block_height(&recs, &gen, &h(2)), BlockHeight::Known(1));
    assert_eq!(get_block_height(&recs, &gen, &h(3)), BlockHeight::Known(2));
}

#[test]
fn resolution_is_order_independent() {
    let recs = linear_chain();
    let mut shuffled = linear_chain();
    shuffled.reverse();
    let gen = h(1);
    for target in [h(1), h(2), h(3)] {
        assert_eq!(
            get_block_height(&recs, &gen, &target),
            get_block_height(&shuffled, &gen, &target)
        );
    }
}

#[test]
fn missing_predecessor_orphans_descendants() {
    let mut recs = linear_chain();
    // A side branch hanging off an undiscovered block: both are orphans.
    recs.push(block(h(10), h(99), 1000));
    recs.push(block(h(11), h(10), 1300));
    let gen = h(1);
    assert_eq!(get_block_height(&recs, &gen, &h(10)), BlockHeight::Orphaned);
    assert_eq!(get_block_height(&recs, &gen, &h(11)), BlockHeight::Orphaned);
    // The orphans do not keep the main chain from indexing, nor enter it.
    let idx = build_chain_index(&recs).unwrap();
    assert_eq!(idx.tip_height, 2);
    for q in 0..=2u32 {
        let loc = idx.get_block_location(q).unwrap();
        assert_ne!(loc.block_hash, h(10));
        assert_ne!(loc.block_hash, h(11));
    }
}

#[test]
fn predecessor_cycle_is_orphaned() {
    let mut recs = linear_chain();
    recs.push(block(h(20), h(21), 2000));
    recs.push(block(h(21), h(20), 2300));
    let gen = h(1);
    assert_eq!(get_block_height(&recs, &gen, &h(20)), BlockHeight::Orphaned);
    assert_eq!(get_block_height(&recs, &gen, &h(21)), BlockHeight::Orphaned);
}

#[test]
fn build_produces_dense_index() {
    let idx = build_chain_index(&linear_chain()).unwrap();
    assert_eq!(idx.tip_height, 2);
    assert_eq!(idx.get_block_location(0).unwrap().block_hash, h(1));
    assert_eq!(idx.get_block_location(1).unwrap().block_hash, h(2));
    assert_eq!(idx.get_block_location(2).unwrap().block_hash, h(3));
    assert_eq!(idx.get_block_location(2).unwrap().file_offset, 586);
    assert!(idx.get_block_location(3).is_none());
}

#[test]
fn fork_at_tip_is_fatal() {
    let mut recs = linear_chain();
    recs.push(block(h(4), h(2), 900));
    // h(3) and h(4) both resolve to height 2: the tip is ambiguous.
    assert_eq!(build_chain_index(&recs).unwrap_err(), ChainError::ForkAtTip);
}

#[test]
fn fork_below_tip_is_tolerated() {
    let mut recs = linear_chain();
    // A stale branch off genesis that stays lower than the tip.
    recs.push(block(h(5), h(1), 1200));
    let idx = build_chain_index(&recs).unwrap();
    assert_eq!(idx.tip_height, 2);
    assert_eq!(idx.get_block_location(1).unwrap().block_hash, h(2));
}

#[test]
fn missing_genesis_is_fatal() {
    let recs = vec![block(h(2), h(1), 0), block(h(3), h(2), 293)];
    assert_eq!(build_chain_index(&recs).unwrap_err(), ChainError::MissingGenesis);
}

#[test]
fn duplicate_discovery_keeps_later_record() {
    let mut recs = linear_chain();
    let mut replacement = block(h(3), h(2), 9999);
    replacement.location.file_path = String::from("blk00001.dat");
    recs.push(replacement);
    let idx = build_chain_index(&recs).unwrap();
    assert_eq!(idx.get_block_location(2).unwrap().file_offset, 9999);
}

#[test]
fn index_add_and_lookup() {
    let mut idx = BlockIndex::new();
    assert_eq!(idx.tip_height, 0);
    let rec = block(h(7), zero(), 70);
    idx.add_block(7, rec.location.clone());
    assert_eq!(idx.tip_height, 7);
    idx.add_block(3, rec.location.clone());
    assert_eq!(idx.tip_height, 7);
    assert!(idx.get_block_location(7).is_some());
    assert!(idx.get_block_location(6).is_none());
}

#[test]
fn iter_reverse_descends_from_tip() {
    let idx = build_chain_index(&linear_chain()).unwrap();
    let items = idx.iter_reverse();
    let heights: Vec<u32> = items.iter().map(|p| p.0).collect();
    assert_eq!(heights, vec![2, 1, 0]);
    assert_eq!(items[0].1.block_hash, h(3));
}

#[test]
fn iter_reverse_of_empty_index_holds_height_zero_only_if_present() {
    let idx = BlockIndex::new();
    assert!(idx.iter_reverse().is_empty());
}

#[test]
fn single_block_chain_has_tip_zero() {
    let recs = vec![block(h(1), zero(), 0)];
    let idx = build_chain_index(&recs).unwrap();
    assert_eq!(idx.tip_height, 0);
    assert_eq!(idx.get_block_location(0).unwrap().block_hash, h(1));
}
