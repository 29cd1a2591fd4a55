use mmr_forest::bit::TrueBitPositionIterator;
use mmr_forest::digest::RpoDigest;
use mmr_forest::field::Felt;
use mmr_forest::forest::{high_bitmask, leaf_to_corresponding_tree, nodes_in_forest};
use mmr_forest::hasher::Rpo256;
use mmr_forest::mmr::{Mmr, MmrError};
use mmr_forest::nodes::InnerNodeInfo;
use mmr_forest::path::MerklePath;
use mmr_forest::peaks::MmrPeaks;

fn int_to_node(value: u64) -> RpoDigest {
    RpoDigest::new([Felt::new(value), Felt::zero(), Felt::zero(), Felt::zero()])
}

fn leaves() -> Vec<RpoDigest> {
    (0..7).map(int_to_node).collect()
}

fn bits_ascending(value: usize) -> Vec<u32> {
    let mut it = TrueBitPositionIterator::new(value);
    let mut out = Vec::new();
    while let Some(b) = it.next() {
        out.push(b);
    }
    out
}

fn bits_descending(value: usize) -> Vec<u32> {
    let mut it = TrueBitPositionIterator::new(value);
    let mut out = Vec::new();
    while let Some(b) = it.next_back() {
        out.push(b);
    }
    out
}

fn digests_to_elements(digests: &[RpoDigest]) -> Vec<Felt> {
    RpoDigest::digests_as_elements(digests)
}

#[test]
fn test_position_equal_or_higher_than_leafs_is_never_contained() {
    let empty_forest = 0;
    for pos in 1..1024 {
        // pos is index, 0 based
        // tree is a length counter, 1 based
        // so a valid pos is always smaller, not equal, to tree
        assert_eq!(leaf_to_corresponding_tree(pos, pos), None);
        assert_eq!(leaf_to_corresponding_tree(pos, pos - 1), None);
        // and empty forest has no trees, so no position is valid
        assert_eq!(leaf_to_corresponding_tree(pos, empty_forest), None);
    }
}

#[test]
fn test_position_zero_is_always_contained_by_the_highest_tree() {
    for leaves in 1..1024usize {
        let tree = leaves.ilog2();
        assert_eq!(leaf_to_corresponding_tree(0, leaves), Some(tree));
    }
}

#[test]
fn test_leaf_to_corresponding_tree() {
    assert_eq!(leaf_to_corresponding_tree(0, 0b0001), Some(0));
    assert_eq!(leaf_to_corresponding_tree(0, 0b0010), Some(1));
    assert_eq!(leaf_to_corresponding_tree(0, 0b0011), Some(1));
    assert_eq!(leaf_to_corresponding_tree(0, 0b1011), Some(3));

    // position one is always owned by the left-most tree
    assert_eq!(leaf_to_corresponding_tree(1, 0b0010), Some(1));
    assert_eq!(leaf_to_corresponding_tree(1, 0b0011), Some(1));
    assert_eq!(leaf_to_corresponding_tree(1, 0b1011), Some(3));

    // position two starts as its own root, and then it is merged with the left-most tree
    assert_eq!(leaf_to_corresponding_tree(2, 0b0011), Some(0));
    assert_eq!(leaf_to_corresponding_tree(2, 0b0100), Some(2));
    assert_eq!(leaf_to_corresponding_tree(2, 0b1011), Some(3));

    // position tree is merged on the left-most tree
    assert_eq!(leaf_to_corresponding_tree(3, 0b0011), None);
    assert_eq!(leaf_to_corresponding_tree(3, 0b0100), Some(2));
    assert_eq!(leaf_to_corresponding_tree(3, 0b1011), Some(3));

    assert_eq!(leaf_to_corresponding_tree(4, 0b0101), Some(0));
    assert_eq!(leaf_to_corresponding_tree(4, 0b0110), Some(1));
    assert_eq!(leaf_to_corresponding_tree(4, 0b0111), Some(1));
    assert_eq!(leaf_to_corresponding_tree(4, 0b1000), Some(3));

    assert_eq!(leaf_to_corresponding_tree(12, 0b01101), Some(0));
    assert_eq!(leaf_to_corresponding_tree(12, 0b01110), Some(1));
    assert_eq!(leaf_to_corresponding_tree(12, 0b01111), Some(1));
    assert_eq!(leaf_to_corresponding_tree(12, 0b10000), Some(4));
}

#[test]
fn test_high_bitmask() {
    assert_eq!(high_bitmask(0), usize::MAX);
    assert_eq!(high_bitmask(1), usize::MAX << 1);
    assert_eq!(high_bitmask(usize::BITS - 2), 0b11usize.rotate_right(2));
    assert_eq!(high_bitmask(usize::BITS - 1), 0b1usize.rotate_right(1));
    assert_eq!(high_bitmask(usize::BITS), 0, "overflow should be handled");
}

#[test]
fn test_nodes_in_forest() {
    assert_eq!(nodes_in_forest(0b0000), 0);
    assert_eq!(nodes_in_forest(0b0001), 1);
    assert_eq!(nodes_in_forest(0b0010), 3);
    assert_eq!(nodes_in_forest(0b0011), 4);
    assert_eq!(nodes_in_forest(0b0100), 7);
    assert_eq!(nodes_in_forest(0b0101), 8);
    assert_eq!(nodes_in_forest(0b0110), 10);
    assert_eq!(nodes_in_forest(0b0111), 11);
    assert_eq!(nodes_in_forest(0b1000), 15);
    assert_eq!(nodes_in_forest(0b1001), 16);
    assert_eq!(nodes_in_forest(0b1010), 18);
    assert_eq!(nodes_in_forest(0b1011), 19);
}

#[test]
fn test_nodes_in_forest_single_bit() {
    assert_eq!(nodes_in_forest(2usize.pow(0)), 2usize.pow(1) - 1);
    assert_eq!(nodes_in_forest(2usize.pow(1)), 2usize.pow(2) - 1);
    assert_eq!(nodes_in_forest(2usize.pow(2)), 2usize.pow(3) - 1);
    assert_eq!(nodes_in_forest(2usize.pow(3)), 2usize.pow(4) - 1);

    for bit in 0..(usize::BITS - 1) {
        let size = 2usize.pow(bit + 1) - 1;
        assert_eq!(nodes_in_forest(1usize << bit), size);
    }
}

#[test]
fn test_mmr_simple() {
    let leaves = leaves();
    let mut postorder = Vec::new();
    postorder.push(leaves[0]);
    postorder.push(leaves[1]);
    postorder.push(Rpo256::merge(&[leaves[0], leaves[1]]));
    postorder.push(leaves[2]);
    postorder.push(leaves[3]);
    postorder.push(Rpo256::merge(&[leaves[2], leaves[3]]));
    postorder.push(Rpo256::merge(&[postorder[2], postorder[5]]));
    postorder.push(leaves[4]);
    postorder.push(leaves[5]);
    postorder.push(Rpo256::merge(&[leaves[4], leaves[5]]));
    postorder.push(leaves[6]);

    let mut mmr = Mmr::new();
    assert_eq!(mmr.forest(), 0);
    assert_eq!(mmr.nodes.len(), 0);

    mmr.add(leaves[0]);
    assert_eq!(mmr.forest(), 1);
    assert_eq!(mmr.nodes.len(), 1);
    assert_eq!(mmr.nodes.as_slice(), &postorder[0..mmr.nodes.len()]);

    let acc = mmr.accumulator();
    assert_eq!(acc.num_leaves, 1);
    assert_eq!(acc.peaks, vec![postorder[0]]);

    mmr.add(leaves[1]);
    assert_eq!(mmr.forest(), 2);
    assert_eq!(mmr.nodes.len(), 3);
    assert_eq!(mmr.nodes.as_slice(), &postorder[0..mmr.nodes.len()]);

    let acc = mmr.accumulator();
    assert_eq!(acc.num_leaves, 2);
    assert_eq!(acc.peaks, vec![postorder[2]]);

    mmr.add(leaves[2]);
    assert_eq!(mmr.forest(), 3);
    assert_eq!(mmr.nodes.len(), 4);
    assert_eq!(mmr.nodes.as_slice(), &postorder[0..mmr.nodes.len()]);

    let acc = mmr.accumulator();
    assert_eq!(acc.num_leaves, 3);
    assert_eq!(acc.peaks, vec![postorder[2], postorder[3]]);

    mmr.add(leaves[3]);
    assert_eq!(mmr.forest(), 4);
    assert_eq!(mmr.nodes.len(), 7);
    assert_eq!(mmr.nodes.as_slice(), &postorder[0..mmr.nodes.len()]);

    let acc = mmr.accumulator();
    assert_eq!(acc.num_leaves, 4);
    assert_eq!(acc.peaks, vec![postorder[6]]);

    mmr.add(leaves[4]);
    assert_eq!(mmr.forest(), 5);
    assert_eq!(mmr.nodes.len(), 8);
    assert_eq!(mmr.nodes.as_slice(), &postorder[0..mmr.nodes.len()]);

    let acc = mmr.accumulator();
    assert_eq!(acc.num_leaves, 5);
    assert_eq!(acc.peaks, vec![postorder[6], postorder[7]]);

    mmr.add(leaves[5]);
    assert_eq!(mmr.forest(), 6);
    assert_eq!(mmr.nodes.len(), 10);
    assert_eq!(mmr.nodes.as_slice(), &postorder[0..mmr.nodes.len()]);

    let acc = mmr.accumulator();
    assert_eq!(acc.num_leaves, 6);
    assert_eq!(acc.peaks, vec![postorder[6], postorder[9]]);

    mmr.add(leaves[6]);
    assert_eq!(mmr.forest(), 7);
    assert_eq!(mmr.nodes.len(), 11);
    assert_eq!(mmr.nodes.as_slice(), &postorder[0..mmr.nodes.len()]);

    let acc = mmr.accumulator();
    assert_eq!(acc.num_leaves, 7);
    assert_eq!(acc.peaks, vec![postorder[6], postorder[9], postorder[10]]);
}

#[test]
fn test_mmr_open() {
    let leaves = leaves();
    let mmr = Mmr::from_digests(&leaves);
    let h01 = Rpo256::merge(&[leaves[0], leaves[1]]);
    let h23 = Rpo256::merge(&[leaves[2], leaves[3]]);

    // node at pos 7 is the root
    assert!(mmr.open(7).is_err(), "Element 7 is not in the tree, result should be None");

    // node at pos 6 is the root
    let empty: MerklePath = MerklePath::new(vec![]);
    let opening = mmr
        .open(6)
        .expect("Element 6 is contained in the tree, expected an opening result.");
    assert_eq!(opening.merkle_path, empty);
    assert_eq!(opening.forest, mmr.forest);
    assert_eq!(opening.position, 6);
    assert!(
        mmr.accumulator().verify(leaves[6], opening),
        "MmrProof should be valid for the current accumulator."
    );

    // nodes 4,5 are depth 1
    let root_to_path = MerklePath::new(vec![leaves[4]]);
    let opening = mmr
        .open(5)
        .expect("Element 5 is contained in the tree, expected an opening result.");
    assert_eq!(opening.merkle_path, root_to_path);
    assert_eq!(opening.forest, mmr.forest);
    assert_eq!(opening.position, 5);
    assert!(
        mmr.accumulator().verify(leaves[5], opening),
        "MmrProof should be valid for the current accumulator."
    );

    let root_to_path = MerklePath::new(vec![leaves[5]]);
    let opening = mmr
        .open(4)
        .expect("Element 4 is contained in the tree, expected an opening result.");
    assert_eq!(opening.merkle_path, root_to_path);
    assert_eq!(opening.forest, mmr.forest);
    assert_eq!(opening.position, 4);
    assert!(
        mmr.accumulator().verify(leaves[4], opening),
        "MmrProof should be valid for the current accumulator."
    );

    // nodes 0,1,2,3 are depth 2
    let root_to_path = MerklePath::new(vec![leaves[2], h01]);
    let opening = mmr
        .open(3)
        .expect("Element 3 is contained in the tree, expected an opening result.");
    assert_eq!(opening.merkle_path, root_to_path);
    assert_eq!(opening.forest, mmr.forest);
    assert_eq!(opening.position, 3);
    assert!(
        mmr.accumulator().verify(leaves[3], opening),
        "MmrProof should be valid for the current accumulator."
    );

    let root_to_path = MerklePath::new(vec![leaves[3], h01]);
    let opening = mmr
        .open(2)
        .expect("Element 2 is contained in the tree, expected an opening result.");
    assert_eq!(opening.merkle_path, root_to_path);
    assert_eq!(opening.forest, mmr.forest);
    assert_eq!(opening.position, 2);
    assert!(
        mmr.accumulator().verify(leaves[2], opening),
        "MmrProof should be valid for the current accumulator."
    );

    let root_to_path = MerklePath::new(vec![leaves[0], h23]);
    let opening = mmr
        .open(1)
        .expect("Element 1 is contained in the tree, expected an opening result.");
    assert_eq!(opening.merkle_path, root_to_path);
    assert_eq!(opening.forest, mmr.forest);
    assert_eq!(opening.position, 1);
    assert!(
        mmr.accumulator().verify(leaves[1], opening),
        "MmrProof should be valid for the current accumulator."
    );

    let root_to_path = MerklePath::new(vec![leaves[1], h23]);
    let opening = mmr
        .open(0)
        .expect("Element 0 is contained in the tree, expected an opening result.");
    assert_eq!(opening.merkle_path, root_to_path);
    assert_eq!(opening.forest, mmr.forest);
    assert_eq!(opening.position, 0);
    assert!(
        mmr.accumulator().verify(leaves[0], opening),
        "MmrProof should be valid for the current accumulator."
    );
}

#[test]
fn test_mmr_get() {
    let leaves = leaves();
    let mmr = Mmr::from_digests(&leaves);
    assert_eq!(mmr.get(0).unwrap(), leaves[0], "value at pos 0 must correspond");
    assert_eq!(mmr.get(1).unwrap(), leaves[1], "value at pos 1 must correspond");
    assert_eq!(mmr.get(2).unwrap(), leaves[2], "value at pos 2 must correspond");
    assert_eq!(mmr.get(3).unwrap(), leaves[3], "value at pos 3 must correspond");
    assert_eq!(mmr.get(4).unwrap(), leaves[4], "value at pos 4 must correspond");
    assert_eq!(mmr.get(5).unwrap(), leaves[5], "value at pos 5 must correspond");
    assert_eq!(mmr.get(6).unwrap(), leaves[6], "value at pos 6 must correspond");
    assert!(mmr.get(7).is_err());
}

#[test]
fn test_mmr_invariants() {
    let mut mmr = Mmr::new();
    for v in 1..=1028 {
        mmr.add(int_to_node(v));
        let accumulator = mmr.accumulator();
        assert_eq!(v as usize, mmr.forest(), "MMR leaf count must increase by one on every add");
        assert_eq!(
            v as usize, accumulator.num_leaves,
            "MMR and its accumulator must match leaves count"
        );
        assert_eq!(
            accumulator.num_leaves.count_ones() as usize,
            accumulator.peaks.len(),
            "bits on leaves must match the number of peaks"
        );

        let mut expected_nodes: usize = 0;
        for bit_pos in bits_ascending(mmr.forest()) {
            expected_nodes += nodes_in_forest(1 << bit_pos);
        }

        assert_eq!(
            expected_nodes,
            mmr.nodes.len(),
            "the sum of every tree size must be equal to the number of nodes in the MMR (forest: {:b})",
            mmr.forest(),
        );
    }
}

#[test]
fn test_bit_position_iterator() {
    assert_eq!(bits_ascending(0).len(), 0);
    assert_eq!(bits_descending(0).len(), 0);

    assert_eq!(bits_ascending(1), vec![0]);
    assert_eq!(bits_descending(1), vec![0]);

    assert_eq!(bits_ascending(2), vec![1]);
    assert_eq!(bits_descending(2), vec![1]);

    assert_eq!(bits_ascending(3), vec![0, 1]);
    assert_eq!(bits_descending(3), vec![1, 0]);

    assert_eq!(bits_ascending(0b11010101), vec![0, 2, 4, 6, 7]);
    assert_eq!(bits_descending(0b11010101), vec![7, 6, 4, 2, 0]);
}

#[test]
fn test_mmr_inner_nodes() {
    let leaves = leaves();
    let mmr = Mmr::from_digests(&leaves);
    let mut it = mmr.inner_nodes();
    let mut nodes: Vec<InnerNodeInfo> = Vec::new();
    while let Some(info) = it.next() {
        nodes.push(info);
    }

    let h01 = Rpo256::merge(&[leaves[0], leaves[1]]);
    let h23 = Rpo256::merge(&[leaves[2], leaves[3]]);
    let h0123 = Rpo256::merge(&[h01, h23]);
    let h45 = Rpo256::merge(&[leaves[4], leaves[5]]);
    let postorder = vec![
        InnerNodeInfo {
            value: h01,
            left: leaves[0],
            right: leaves[1],
        },
        InnerNodeInfo {
            value: h23,
            left: leaves[2],
            right: leaves[3],
        },
        InnerNodeInfo { value: h0123, left: h01, right: h23 },
        InnerNodeInfo {
            value: h45,
            left: leaves[4],
            right: leaves[5],
        },
    ];

    assert_eq!(postorder, nodes);
}

#[test]
fn test_mmr_hash_peaks() {
    let leaves = leaves();
    let mmr = Mmr::from_digests(&leaves);
    let peaks = mmr.accumulator();

    let first_peak = Rpo256::merge(&[
        Rpo256::merge(&[leaves[0], leaves[1]]),
        Rpo256::merge(&[leaves[2], leaves[3]]),
    ]);
    let second_peak = Rpo256::merge(&[leaves[4], leaves[5]]);
    let third_peak = leaves[6];

    // minimum length is 16
    let mut expected_peaks = [first_peak, second_peak, third_peak].to_vec();
    expected_peaks.resize(16, RpoDigest::default());
    assert_eq!(
        peaks.hash_peaks(),
        Rpo256::hash_elements(&digests_to_elements(&expected_peaks))
    );
}

#[test]
fn test_mmr_peaks_hash_less_than_16() {
    let mut peaks = Vec::new();

    for i in 0..16 {
        peaks.push(int_to_node(i));
        let accumulator = MmrPeaks {
            num_leaves: (1 << peaks.len()) - 1,
            peaks: peaks.clone(),
        };

        // minimum length is 16
        let mut expected_peaks = peaks.clone();
        expected_peaks.resize(16, RpoDigest::default());
        assert_eq!(
            accumulator.hash_peaks(),
            Rpo256::hash_elements(&digests_to_elements(&expected_peaks))
        );
    }
}

#[test]
fn test_mmr_peaks_hash_odd() {
    let peaks: Vec<_> = (0..=17).map(int_to_node).collect();

    let accumulator = MmrPeaks {
        num_leaves: (1 << peaks.len()) - 1,
        peaks: peaks.clone(),
    };

    // odd length bigger than 16 is padded to the next even number
    let mut expected_peaks = peaks;
    expected_peaks.resize(18, RpoDigest::default());
    assert_eq!(
        accumulator.hash_peaks(),
        Rpo256::hash_elements(&digests_to_elements(&expected_peaks))
    );
}

#[test]
fn test_out_of_range_positions_report_the_bounds_error() {
    for k in 0..10usize {
        let digests: Vec<RpoDigest> = (0..k as u64).map(int_to_node).collect();
        let mmr = Mmr::from_digests(&digests);
        match mmr.get(k) {
            Err(MmrError::InvalidPosition(p)) => assert_eq!(p, k),
            _ => panic!("get must reject a position equal to the leaf count"),
        }
        match mmr.open(k) {
            Err(MmrError::InvalidPosition(p)) => assert_eq!(p, k),
            _ => panic!("open must reject a position equal to the leaf count"),
        }
    }
}

#[test]
fn test_empty_mmr_has_empty_accumulator() {
    let mmr = Mmr::new();
    let acc = mmr.accumulator();
    assert_eq!(acc.num_leaves, 0);
    assert!(acc.peaks.is_empty());
}

#[test]
fn test_proofs_verify_after_every_append() {
    let mut mmr = Mmr::new();
    for v in 0..32u64 {
        mmr.add(int_to_node(v));
        let acc = mmr.accumulator();
        for pos in 0..mmr.forest() {
            let value = mmr.get(pos).unwrap();
            let opening = mmr.open(pos).unwrap();
            assert!(acc.verify(value, opening), "round trip must verify at every position");
        }
    }
}

#[test]
fn test_verify_rejects_other_forest_or_value() {
    let leaves = leaves();
    let mmr = Mmr::from_digests(&leaves);
    let acc = mmr.accumulator();

    // a proof for another forest value is rejected
    let mut opening = mmr.open(0).unwrap();
    opening.forest = opening.forest + 1;
    assert!(!acc.verify(leaves[0], opening));

    // a proof folded from the wrong value is rejected
    let opening = mmr.open(0).unwrap();
    assert!(!acc.verify(leaves[1], opening));
}

#[test]
fn test_merge_depends_on_both_inputs() {
    let d0 = int_to_node(0);
    let d1 = int_to_node(1);
    let merged = Rpo256::merge(&[d0, d1]);
    assert_eq!(merged, Rpo256::merge(&[d0, d1]), "merging is deterministic");
    assert_ne!(merged, d0);
    assert_ne!(merged, d1);
    assert_ne!(merged, Rpo256::merge(&[d1, d0]));
}

#[test]
fn test_last_position_is_always_contained_in_the_last_tree() {
    for leaves in 1..1024usize {
        let last_pos = leaves - 1;
        let lowest_bit = leaves.trailing_zeros();

        assert_eq!(leaf_to_corresponding_tree(last_pos, leaves), Some(lowest_bit));
    }
}

#[test]
fn test_contained_tree_is_always_power_of_two() {
    for leaves in 1..512usize {
        for pos in 0..leaves {
            let tree = leaf_to_corresponding_tree(pos, leaves)
                .expect("pos is smaller than leaves, there should always be a corresponding tree");
            let mask = 1usize << tree;

            assert!(tree < usize::BITS, "the result must be a bit in usize");
            assert!(mask & leaves != 0, "the result should be a tree in leaves");
        }
    }
}

#[test]
fn test_hash_elements_mixes_input() {
    let a = vec![Felt::new(1), Felt::new(2)];
    let b = vec![Felt::new(2), Felt::new(1)];
    assert_eq!(Rpo256::hash_elements(&a), Rpo256::hash_elements(&a));
    assert_ne!(Rpo256::hash_elements(&a), Rpo256::hash_elements(&b));
    assert_ne!(Rpo256::hash_elements(&a), Rpo256::hash_elements(&a[..1]));
}

#[test]
fn test_error_messages_are_not_empty() {
    let err = MmrError::InvalidPosition(3);
    assert!(!err.message().is_empty());
    assert!(!mmr_forest::errors::InputError::NotFieldElement(0, "test").message().is_empty());
    assert!(!mmr_forest::errors::InputError::DuplicateAdviceRoot([0u8; 32]).message().is_empty());
    assert!(!mmr_forest::errors::OutputError::InvalidOverflowAddress(0).message().is_empty());
    assert!(!mmr_forest::errors::OutputError::InvalidOverflowAddressLength(1, 2)
        .message()
        .is_empty());
    assert!(!mmr_forest::errors::OutputError::InvalidStackElement(0).message().is_empty());
}
