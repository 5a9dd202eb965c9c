use mt_leaf_batches::{append_leaves, build_merkle_tree_map, ChangelogEvent, Changelogs, MyError};

fn leaf(b: u8) -> [u8; 32] {
    [b; 32]
}

fn leaves_range(from: u8, to: u8) -> Vec<[u8; 32]> {
    (from..to).map(leaf).collect()
}

fn batch_total(b: &Changelogs) -> usize {
    b.changelogs.iter().map(|e| e.leaves.len()).sum()
}

#[test]
fn test_append_leaves() {
    let leaves = vec![
        // MT 0
        [0_u8; 32],
        [1_u8; 32],
        [2_u8; 32],
        [3_u8; 32],
        [4_u8; 32],
        [5_u8; 32],
        [6_u8; 32],
        [7_u8; 32],
        [8_u8; 32],
        [9_u8; 32],
        [10_u8; 32],
        [11_u8; 32],
        // MT 1
        [12_u8; 32],
        [13_u8; 32],
        [14_u8; 32],
        // MT 2
        [15_u8; 32],
        [16_u8; 32],
        [17_u8; 32],
        [18_u8; 32],
        // MT 3
        [19_u8; 32],
        [20_u8; 32],
        [21_u8; 32],
        [22_u8; 32],
        [23_u8; 32],
        [24_u8; 32],
    ];
    let merkle_trees = vec![
        // MT 0
        [0_u8; 32], [0_u8; 32], [0_u8; 32], [0_u8; 32], [0_u8; 32], [0_u8; 32], [0_u8; 32],
        [0_u8; 32], [0_u8; 32], [0_u8; 32], [0_u8; 32], [0_u8; 32], // MT 1
        [1_u8; 32], [1_u8; 32], [1_u8; 32], // MT 2
        [2_u8; 32], [2_u8; 32], [2_u8; 32], [2_u8; 32], // MT 3
        [3_u8; 32], [3_u8; 32], [3_u8; 32], [3_u8; 32], [3_u8; 32], [3_u8; 32],
    ];

    let merkle_tree_map = build_merkle_tree_map(&leaves, &merkle_trees).unwrap();
    assert_eq!(
        merkle_tree_map,
        vec![
            (
                [0_u8; 32],
                vec![
                    [0_u8; 32],
                    [1_u8; 32],
                    [2_u8; 32],
                    [3_u8; 32],
                    [4_u8; 32],
                    [5_u8; 32],
                    [6_u8; 32],
                    [7_u8; 32],
                    [8_u8; 32],
                    [9_u8; 32],
                    [10_u8; 32],
                    [11_u8; 32]
                ]
            ),
            ([1_u8; 32], vec![[12_u8; 32], [13_u8; 32], [14_u8; 32]]),
            (
                [2_u8; 32],
                vec![[15_u8; 32], [16_u8; 32], [17_u8; 32], [18_u8; 32]]
            ),
            (
                [3_u8; 32],
                vec![
                    [19_u8; 32],
                    [20_u8; 32],
                    [21_u8; 32],
                    [22_u8; 32],
                    [23_u8; 32],
                    [24_u8; 32]
                ]
            )
        ]
    );

    let mut changelogs = append_leaves(leaves, merkle_trees, 10).unwrap();
    for changelogs in changelogs.iter_mut() {
        changelogs.changelogs.sort();
    }
    changelogs.sort();
    assert_eq!(
        changelogs,
        vec![
            // This set of changelogs contains 10 leaves from MT 0.
            Changelogs {
                changelogs: vec![ChangelogEvent {
                    merkle_tree_pubkey: [0_u8; 32],
                    leaves: vec![
                        [0_u8; 32], [1_u8; 32], [2_u8; 32], [3_u8; 32], [4_u8; 32], [5_u8; 32],
                        [6_u8; 32], [7_u8; 32], [8_u8; 32], [9_u8; 32],
                    ]
                }]
            },
            // Remaining leaves from MT 0, all leaves from MT 1 and MT 2 and
            // one leaf from MT 3: 10 leaves in all.
            Changelogs {
                changelogs: vec![
                    ChangelogEvent {
                        merkle_tree_pubkey: [0_u8; 32],
                        leaves: vec![[10_u8; 32], [11_u8; 32]]
                    },
                    ChangelogEvent {
                        merkle_tree_pubkey: [1_u8; 32],
                        leaves: vec![[12_u8; 32], [13_u8; 32], [14_u8; 32]]
                    },
                    ChangelogEvent {
                        merkle_tree_pubkey: [2_u8; 32],
                        leaves: vec![[15_u8; 32], [16_u8; 32], [17_u8; 32], [18_u8; 32]]
                    },
                    ChangelogEvent {
                        merkle_tree_pubkey: [3_u8; 32],
                        leaves: vec![[19_u8; 32]]
                    }
                ]
            },
            // Remaining leaves from MT 3.
            Changelogs {
                changelogs: vec![ChangelogEvent {
                    merkle_tree_pubkey: [3_u8; 32],
                    leaves: vec![
                        [20_u8; 32],
                        [21_u8; 32],
                        [22_u8; 32],
                        [23_u8; 32],
                        [24_u8; 32]
                    ]
                }]
            }
        ]
    );
}

#[test]
fn reference_scenario_in_output_order() {
    let leaves = leaves_range(0, 25);
    let mut trees = vec![leaf(0); 12];
    trees.extend(vec![leaf(1); 3]);
    trees.extend(vec![leaf(2); 4]);
    trees.extend(vec![leaf(3); 6]);
    let batches = append_leaves(leaves, trees, 10).unwrap();
    assert_eq!(batches.len(), 3);
    assert_eq!(
        batches[0].changelogs,
        vec![ChangelogEvent { merkle_tree_pubkey: leaf(0), leaves: leaves_range(0, 10) }]
    );
    assert_eq!(
        batches[1].changelogs,
        vec![
            ChangelogEvent { merkle_tree_pubkey: leaf(0), leaves: leaves_range(10, 12) },
            ChangelogEvent { merkle_tree_pubkey: leaf(1), leaves: leaves_range(12, 15) },
            ChangelogEvent { merkle_tree_pubkey: leaf(2), leaves: leaves_range(15, 19) },
            ChangelogEvent { merkle_tree_pubkey: leaf(3), leaves: leaves_range(19, 20) },
        ]
    );
    assert_eq!(
        batches[2].changelogs,
        vec![ChangelogEvent { merkle_tree_pubkey: leaf(3), leaves: leaves_range(20, 25) }]
    );
}

#[test]
fn mismatched_lengths_are_rejected() {
    let r = append_leaves(leaves_range(0, 3), vec![leaf(0); 2], 10);
    assert_eq!(r, Err(MyError::LeavesTreesNotEqual(3, 2)));
    let g = build_merkle_tree_map(&leaves_range(0, 1), &vec![leaf(0); 4]);
    assert_eq!(g, Err(MyError::LeavesTreesNotEqual(1, 4)));
}

#[test]
fn mismatch_is_reported_before_batch_size() {
    let r = append_leaves(leaves_range(0, 3), vec![leaf(0); 2], 0);
    assert_eq!(r, Err(MyError::LeavesTreesNotEqual(3, 2)));
}

#[test]
fn zero_batch_size_is_rejected() {
    let r = append_leaves(leaves_range(0, 3), vec![leaf(0); 3], 0);
    assert_eq!(r, Err(MyError::InvalidBatchSize));
}

#[test]
fn empty_input_gives_no_batches() {
    assert_eq!(append_leaves(vec![], vec![], 4), Ok(vec![]));
    assert_eq!(build_merkle_tree_map(&vec![], &vec![]), Ok(vec![]));
}

#[test]
fn exact_multiple_has_no_trailing_empty_batch() {
    let leaves = leaves_range(0, 20);
    let mut trees = vec![leaf(7); 5];
    trees.extend(vec![leaf(9); 15]);
    let batches = append_leaves(leaves, trees, 10).unwrap();
    assert_eq!(batches.len(), 2);
    assert!(batches.iter().all(|b| batch_total(b) == 10));
    assert_eq!(
        batches[1].changelogs,
        vec![ChangelogEvent { merkle_tree_pubkey: leaf(9), leaves: leaves_range(10, 20) }]
    );
}

#[test]
fn large_batch_size_gives_one_batch_with_one_event_per_tree() {
    let leaves = leaves_range(0, 6);
    let trees = vec![leaf(5), leaf(1), leaf(5), leaf(3), leaf(1), leaf(5)];
    let batches = append_leaves(leaves, trees, 100).unwrap();
    assert_eq!(batches.len(), 1);
    assert_eq!(
        batches[0].changelogs,
        vec![
            ChangelogEvent { merkle_tree_pubkey: leaf(1), leaves: vec![leaf(1), leaf(4)] },
            ChangelogEvent { merkle_tree_pubkey: leaf(3), leaves: vec![leaf(3)] },
            ChangelogEvent { merkle_tree_pubkey: leaf(5), leaves: vec![leaf(0), leaf(2), leaf(5)] },
        ]
    );
}

#[test]
fn grouping_sorts_trees_and_keeps_leaf_order() {
    let mut late = [0_u8; 32];
    late[31] = 1;
    let mut early = [0_u8; 32];
    early[0] = 1;
    // `late` < `early` byte-wise, although it appears second.
    let leaves = vec![leaf(10), leaf(11), leaf(12), leaf(13)];
    let trees = vec![early, late, early, late];
    let g = build_merkle_tree_map(&leaves, &trees).unwrap();
    assert_eq!(
        g,
        vec![(late, vec![leaf(11), leaf(13)]), (early, vec![leaf(10), leaf(12)])]
    );
}

#[test]
fn batches_respect_capacity_and_keep_every_leaf() {
    let leaves: Vec<[u8; 32]> = (0..23).map(leaf).collect();
    let trees: Vec<[u8; 32]> = (0..23).map(|i: u8| leaf(i % 4)).collect();
    let batches = append_leaves(leaves.clone(), trees.clone(), 5).unwrap();
    assert_eq!(batches.len(), 5);
    for (i, b) in batches.iter().enumerate() {
        assert!(!b.changelogs.is_empty());
        assert!(b.changelogs.iter().all(|e| !e.leaves.is_empty()));
        if i + 1 < batches.len() {
            assert_eq!(batch_total(b), 5);
        } else {
            assert_eq!(batch_total(b), 3);
        }
    }
    for t in 0..4_u8 {
        let got: Vec<[u8; 32]> = batches
            .iter()
            .flat_map(|b| b.changelogs.iter())
            .filter(|e| e.merkle_tree_pubkey == leaf(t))
            .flat_map(|e| e.leaves.iter().copied())
            .collect();
        let want: Vec<[u8; 32]> =
            (0..23).filter(|i: &u8| i % 4 == t).map(leaf).collect();
        assert_eq!(got, want);
    }
    let mut all: Vec<[u8; 32]> = batches
        .iter()
        .flat_map(|b| b.changelogs.iter())
        .flat_map(|e| e.leaves.iter().copied())
        .collect();
    all.sort();
    assert_eq!(all, leaves);
}

#[test]
fn repeated_calls_give_identical_output() {
    let leaves: Vec<[u8; 32]> = (0..17).map(leaf).collect();
    let trees: Vec<[u8; 32]> = (0..17).map(|i: u8| leaf((i * 7) % 3)).collect();
    let a = append_leaves(leaves.clone(), trees.clone(), 4).unwrap();
    let b = append_leaves(leaves, trees, 4).unwrap();
    assert_eq!(a, b);
}

#[test]
fn single_tree_spanning_many_batches() {
    let batches = append_leaves(leaves_range(0, 7), vec![leaf(2); 7], 3).unwrap();
    assert_eq!(batches.len(), 3);
    assert_eq!(batches[0].changelogs[0].leaves, leaves_range(0, 3));
    assert_eq!(batches[1].changelogs[0].leaves, leaves_range(3, 6));
    assert_eq!(batches[2].changelogs[0].leaves, leaves_range(6, 7));
    assert!(batches.iter().all(|b| b.changelogs.len() == 1));
}
