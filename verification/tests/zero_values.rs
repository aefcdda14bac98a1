use std::collections::HashMap;

use stacks_metrics::blocks::{
    block_entry, block_step, is_extrapolated, scan_block, select_blocks, BlobSource, BlockEntry,
    BlockStep,
};
use stacks_metrics::none_value::{compute_none_marf_value, marf_value_for};
use stacks_metrics::queries::{
    inline_blocks_query, inline_scan_goal, EXTERNAL_BLOCKS_QUERY, INLINE_BLOCK_COUNT_QUERY,
};
use stacks_metrics::report::{none_value_line, path_length_lines, sorted_path_lengths};
use stacks_metrics::stats::ZeroValueStats;
use stacks_metrics::trie::{
    scan_trie_blob, MARF_VALUE_SIZE, TRIE_HASH_SIZE, TRIE_NODE_ID_LEAF,
};

/// A leaf with a path of `path_len` bytes.
fn leaf(id: u8, path_len: u8, value: &[u8]) -> Vec<u8> {
    let mut bytes: Vec<u8> = vec![id, path_len];
    bytes.extend(vec![0x77u8; path_len as usize]);
    bytes.extend_from_slice(value);
    bytes
}

/// A trie blob with a root hash in front of `nodes`.
fn blob(nodes: &[u8]) -> Vec<u8> {
    let mut bytes: Vec<u8> = vec![0x01u8; 32];
    bytes.extend_from_slice(nodes);
    bytes
}

/// A MARF value that is not the none-value.
fn other_value() -> [u8; MARF_VALUE_SIZE] {
    [0x22u8; MARF_VALUE_SIZE]
}

#[test]
fn sizes() {
    assert_eq!(MARF_VALUE_SIZE, 40);
    assert_eq!(TRIE_HASH_SIZE, 32);
    assert_eq!(TRIE_NODE_ID_LEAF, 1);
}

#[test]
fn none_value_is_the_digest_of_09() {
    let value = compute_none_marf_value();
    assert_eq!(
        none_value_line(&value),
        "None-value MARFValue (SHA512_256 of \"09\"): 0x795c165105ac2e5c09cc7a734a82c95b7ce8f870a48e419737150a2eb8c0520b"
    );
    assert_eq!(&value[32..], &[0u8; 8]);
}

#[test]
fn marf_value_is_hash_and_zeros() {
    let mut hash = [0u8; 32];
    for i in 0..32usize {
        hash[i] = 100 + i as u8;
    }
    let value = marf_value_for(&hash);
    assert_eq!(&value[..32], &hash);
    assert_eq!(&value[32..], &[0u8; 8]);
}

#[test]
fn hex_digits_are_lowercase() {
    let mut value = [0u8; MARF_VALUE_SIZE];
    value[0] = 0xab;
    value[1] = 0x0f;
    value[31] = 0xf0;
    value[32] = 0xff;
    let line = none_value_line(&value);
    assert!(line.contains(": 0xab0f00"));
    assert!(line.ends_with("00f0"));
    assert_eq!(line.len(), "None-value MARFValue (SHA512_256 of \"09\"): 0x".len() + 64);
}

#[test]
fn none_leaf_is_counted() {
    let none = compute_none_marf_value();
    let data = blob(&leaf(1, 3, &none));
    let mut stats = ZeroValueStats::default();
    let lines = scan_trie_blob(&data, &none, &mut stats, true);
    assert_eq!(stats.total_leaves, 1);
    assert_eq!(stats.none_leaves, 1);
    assert_eq!(stats.none_bytes, 77);
    assert_eq!(stats.none_path_lengths, HashMap::from([(3usize, 1u64)]));
    assert_eq!(stats.blocks_scanned, 0);
    assert_eq!(stats.bytes_scanned, 0);
    assert_eq!(lines, vec!["  Found none-leaf at offset 32, path_len=3, size=77".to_string()]);
}

#[test]
fn nothing_is_reported_unless_asked_for() {
    let none = compute_none_marf_value();
    let data = blob(&leaf(1, 3, &none));
    let mut stats = ZeroValueStats::default();
    assert!(scan_trie_blob(&data, &none, &mut stats, false).is_empty());
    assert_eq!(stats.none_leaves, 1);
}

#[test]
fn back_pointer_flag_is_cleared() {
    let none = compute_none_marf_value();
    let mut stats = ZeroValueStats::default();
    scan_trie_blob(&blob(&leaf(0x81, 0, &none)), &none, &mut stats, false);
    assert_eq!(stats.none_leaves, 1);
    assert_eq!(stats.none_bytes, 74);
    let mut stats = ZeroValueStats::default();
    scan_trie_blob(&blob(&leaf(0x41, 0, &[0u8; 40])), &none, &mut stats, false);
    assert_eq!(stats.total_leaves, 0);
}

#[test]
fn other_leaf_is_no_none_leaf() {
    let none = compute_none_marf_value();
    let mut stats = ZeroValueStats::default();
    let lines = scan_trie_blob(&blob(&leaf(1, 5, &other_value())), &none, &mut stats, true);
    assert_eq!(stats.total_leaves, 1);
    assert_eq!(stats.none_leaves, 0);
    assert_eq!(stats.none_bytes, 0);
    assert!(stats.none_path_lengths.is_empty());
    assert!(lines.is_empty());

    // The last byte of the value counts, too
    let mut near = none;
    near[39] = 1;
    scan_trie_blob(&blob(&leaf(1, 5, &near)), &none, &mut stats, true);
    assert_eq!(stats.total_leaves, 2);
    assert_eq!(stats.none_leaves, 0);
}

#[test]
fn short_blobs_hold_nothing() {
    let none = compute_none_marf_value();
    let mut stats = ZeroValueStats::default();
    for len in [0usize, 1, 31, 32, 33] {
        let data: Vec<u8> = vec![0x01u8; len];
        assert!(scan_trie_blob(&data, &none, &mut stats, true).is_empty());
    }
    assert_eq!(stats.total_leaves, 0);
}

#[test]
fn leaf_that_is_cut_off_is_passed_over() {
    let none = compute_none_marf_value();
    let mut data = blob(&leaf(1, 2, &none));
    data.pop();
    let mut stats = ZeroValueStats::default();
    scan_trie_blob(&data, &none, &mut stats, false);
    assert_eq!(stats.total_leaves, 0);

    // The search goes on one byte further: the second leaf is found, though the
    // first ID announces more bytes than there are.
    let mut nodes: Vec<u8> = vec![1, 255];
    nodes.extend(leaf(1, 0, &none));
    let mut stats = ZeroValueStats::default();
    let lines = scan_trie_blob(&blob(&nodes), &none, &mut stats, true);
    assert_eq!(stats.total_leaves, 1);
    assert_eq!(lines, vec!["  Found none-leaf at offset 34, path_len=0, size=74".to_string()]);
}

#[test]
fn written_leaves_are_found() {
    let none = compute_none_marf_value();
    let mut nodes: Vec<u8> = vec![0, 2, 3];
    nodes.extend(leaf(1, 4, &none));
    nodes.extend(leaf(0x81, 0, &other_value()));
    nodes.extend(vec![9u8; 32]);
    nodes.extend(leaf(1, 4, &none));
    nodes.extend(leaf(1, 255, &none));
    nodes.push(0);
    let mut stats = ZeroValueStats::default();
    let lines = scan_trie_blob(&blob(&nodes), &none, &mut stats, true);
    assert_eq!(stats.total_leaves, 4);
    assert_eq!(stats.none_leaves, 3);
    assert_eq!(stats.none_bytes, 78 + 78 + 329);
    assert_eq!(stats.none_path_lengths, HashMap::from([(4usize, 2u64), (255usize, 1u64)]));
    assert_eq!(
        lines,
        vec![
            "  Found none-leaf at offset 35, path_len=4, size=78".to_string(),
            "  Found none-leaf at offset 155, path_len=4, size=78".to_string(),
            "  Found none-leaf at offset 201, path_len=255, size=329".to_string(),
        ]
    );
    // The figures agree: 74 bytes for each none-leaf, and its path
    assert_eq!(stats.none_bytes, 74 * 3 + 4 * 2 + 255);
}

#[test]
fn root_hash_plays_no_part() {
    let none = compute_none_marf_value();
    let nodes = leaf(1, 1, &none);
    let mut a: Vec<u8> = vec![0u8; 32];
    let mut b: Vec<u8> = vec![1u8; 32];
    a.extend_from_slice(&nodes);
    b.extend_from_slice(&nodes);
    let mut of_a = ZeroValueStats::default();
    let mut of_b = ZeroValueStats::default();
    assert_eq!(
        scan_trie_blob(&a, &none, &mut of_a, true),
        scan_trie_blob(&b, &none, &mut of_b, true)
    );
    assert_eq!(of_a.none_bytes, of_b.none_bytes);
    assert_eq!(of_a.none_bytes, 75);
}

#[test]
fn none_bytes_can_exceed_bytes_scanned() {
    let none = compute_none_marf_value();
    let mut nodes: Vec<u8> = Vec::new();
    for _ in 0..5u8 {
        nodes.extend(leaf(1, 0, &none));
    }
    let data = blob(&nodes);
    let mut stats = ZeroValueStats::default();
    scan_block(&data, &none, &mut stats, false);
    assert_eq!(stats.bytes_scanned, 242);
    assert_eq!(stats.none_bytes, 370);
    assert!(stats.none_bytes <= stats.bytes_scanned + 32 * stats.none_leaves);
    assert!(42 * stats.total_leaves <= stats.bytes_scanned);
}

#[test]
fn order_of_blocks_does_not_matter() {
    let none = compute_none_marf_value();
    let blobs: Vec<Vec<u8>> = vec![
        blob(&leaf(1, 2, &none)),
        blob(&leaf(1, 9, &other_value())),
        blob(&leaf(1, 7, &none)),
        vec![0u8; 3],
    ];
    let mut forward = ZeroValueStats::default();
    let mut backward = ZeroValueStats::default();
    for data in blobs.iter() {
        scan_block(data, &none, &mut forward, false);
    }
    for data in blobs.iter().rev() {
        scan_block(data, &none, &mut backward, false);
    }
    assert_eq!(forward.blocks_scanned, 4);
    assert_eq!(forward.bytes_scanned, 76 + 83 + 81 + 3);
    assert_eq!(forward.total_leaves, 3);
    assert_eq!(forward.none_leaves, 2);
    assert_eq!(backward.blocks_scanned, forward.blocks_scanned);
    assert_eq!(backward.bytes_scanned, forward.bytes_scanned);
    assert_eq!(backward.total_leaves, forward.total_leaves);
    assert_eq!(backward.none_leaves, forward.none_leaves);
    assert_eq!(backward.none_bytes, forward.none_bytes);
    assert_eq!(backward.none_path_lengths, forward.none_path_lengths);
}

#[test]
fn room_in_the_counters() {
    let mut stats = ZeroValueStats::default();
    assert!(stats.has_room_for(0));
    assert!(stats.has_room_for(u64::MAX / 2));
    assert!(!stats.has_room_for(u64::MAX / 2 + 1));
    stats.bytes_scanned = u64::MAX - 5;
    assert!(stats.has_room_for(5));
    assert!(!stats.has_room_for(6));
    stats.blocks_scanned = u64::MAX;
    assert!(!stats.has_room_for(0));
}

fn entries(n: u32) -> Vec<BlockEntry> {
    (0..n).map(|i| BlockEntry { block_id: i, offset: 100 * i as u64, length: 100 }).collect()
}

fn ids(blocks: &[BlockEntry]) -> Vec<u32> {
    blocks.iter().map(|b| b.block_id).collect()
}

#[test]
fn all_blocks_without_a_sample_size() {
    assert_eq!(ids(&select_blocks(entries(4), None)), vec![0, 1, 2, 3]);
    assert_eq!(ids(&select_blocks(entries(4), Some(4))), vec![0, 1, 2, 3]);
    assert_eq!(ids(&select_blocks(entries(4), Some(9))), vec![0, 1, 2, 3]);
    assert!(select_blocks(entries(0), Some(0)).is_empty());
}

#[test]
fn sample_is_spread_evenly() {
    assert_eq!(ids(&select_blocks(entries(10), Some(3))), vec![0, 3, 6]);
    assert_eq!(ids(&select_blocks(entries(10), Some(5))), vec![0, 2, 4, 6, 8]);
    assert_eq!(ids(&select_blocks(entries(10), Some(1))), vec![0]);
    assert_eq!(ids(&select_blocks(entries(10), Some(9))), vec![0, 1, 2, 3, 4, 5, 6, 7, 8]);
}

#[test]
fn negative_columns_wrap() {
    assert_eq!(block_entry(5, 10, 20), BlockEntry { block_id: 5, offset: 10, length: 20 });
    let wrapped = block_entry(5, -1, i64::MIN);
    assert_eq!(wrapped.offset, u64::MAX);
    assert_eq!(wrapped.length, 1u64 << 63);
}

#[test]
fn block_in_the_file_is_read() {
    let entry = BlockEntry { block_id: 7, offset: 10, length: 20 };
    for verbose in [false, true] {
        match block_step(&entry, 30, verbose) {
            BlockStep::Read { offset, length } => assert_eq!((offset, length), (10, 20)),
            BlockStep::Skip { .. } => panic!("the block lies in the file"),
        }
    }
}

#[test]
fn block_outside_the_file_is_passed_over() {
    let entry = BlockEntry { block_id: 7, offset: 10, length: 20 };
    match block_step(&entry, 29, true) {
        BlockStep::Skip { warning } => assert_eq!(
            warning,
            Some("Warning: Block 7 has invalid offset/length (10/20), skipping".to_string())
        ),
        BlockStep::Read { .. } => panic!("the block does not lie in the file"),
    }
    assert!(matches!(block_step(&entry, 29, false), BlockStep::Skip { warning: None }));
}

#[test]
fn blocks_are_scanned_one_by_one() {
    let none = compute_none_marf_value();
    let mut file: Vec<u8> = blob(&leaf(1, 2, &none));
    let first = file.len() as u64;
    file.extend(blob(&leaf(1, 6, &none)));
    let size = file.len() as u64;
    let blocks: Vec<BlockEntry> = vec![
        BlockEntry { block_id: 1, offset: 0, length: first },
        BlockEntry { block_id: 2, offset: first, length: size },
        BlockEntry { block_id: 3, offset: first, length: size - first },
    ];
    let mut stats = ZeroValueStats::default();
    for entry in blocks.iter() {
        if let BlockStep::Read { offset, length } = block_step(entry, size, false) {
            let data = &file[offset as usize..(offset + length) as usize];
            scan_block(data, &none, &mut stats, false);
        }
    }
    assert_eq!(stats.blocks_scanned, 2);
    assert_eq!(stats.bytes_scanned, size);
    assert_eq!(stats.none_path_lengths, HashMap::from([(2usize, 1u64), (6usize, 1u64)]));
}

#[test]
fn samples_are_extrapolated() {
    assert!(is_extrapolated(BlobSource::External, Some(4), 0));
    assert!(is_extrapolated(BlobSource::External, Some(4), 3));
    assert!(!is_extrapolated(BlobSource::External, None, 3));
    assert!(!is_extrapolated(BlobSource::Inline, Some(4), 0));
    assert!(is_extrapolated(BlobSource::Inline, Some(4), 3));
    assert!(!is_extrapolated(BlobSource::Inline, None, 3));
}

#[test]
fn queries() {
    assert_eq!(
        EXTERNAL_BLOCKS_QUERY,
        "SELECT block_id, external_offset, external_length FROM marf_data\n         WHERE external_length > 0 AND unconfirmed = 0\n         ORDER BY block_id"
    );
    assert_eq!(
        INLINE_BLOCK_COUNT_QUERY,
        "SELECT COUNT(*) FROM marf_data WHERE unconfirmed = 0 AND LENGTH(data) > 0"
    );
    assert_eq!(
        inline_blocks_query(None),
        "SELECT block_id, data FROM marf_data\n         WHERE unconfirmed = 0 AND LENGTH(data) > 0\n         ORDER BY block_id "
    );
    assert_eq!(
        inline_blocks_query(Some(250)),
        "SELECT block_id, data FROM marf_data\n         WHERE unconfirmed = 0 AND LENGTH(data) > 0\n         ORDER BY RANDOM() LIMIT 250"
    );
}

#[test]
fn goal_of_a_scan_of_the_database() {
    assert_eq!(inline_scan_goal(Some(3), 9), 3);
    assert_eq!(inline_scan_goal(Some(30), 9), 30);
    assert_eq!(inline_scan_goal(None, 9), 9);
}

#[test]
fn distribution_is_listed_by_path_length() {
    let counts: HashMap<usize, u64> =
        HashMap::from([(30usize, 1u64), (2usize, 12u64), (255usize, 3u64), (0usize, 7u64)]);
    let sorted = sorted_path_lengths(&counts);
    assert_eq!(sorted, vec![(0, 7), (2, 12), (30, 1), (255, 3)]);
    assert_eq!(
        path_length_lines(&sorted),
        vec![
            "\nNone-leaf path length distribution:".to_string(),
            "  Path length 0: 7 leaves".to_string(),
            "  Path length 2: 12 leaves".to_string(),
            "  Path length 30: 1 leaves".to_string(),
            "  Path length 255: 3 leaves".to_string(),
        ]
    );
}

#[test]
fn empty_distribution_is_not_shown() {
    let counts: HashMap<usize, u64> = HashMap::new();
    assert!(sorted_path_lengths(&counts).is_empty());
    assert!(path_length_lines(&sorted_path_lengths(&counts)).is_empty());
}
