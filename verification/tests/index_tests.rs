use loader::{build_index, decode, merge_all, Fill, Pixel, Timestamp, UserIndex, NUM_FILES};

use flate2::write::GzEncoder;
use flate2::Compression;
use std::io::Write;

fn gzip(text: &str) -> Vec<u8> {
    let mut enc = GzEncoder::new(Vec::new(), Compression::default());
    enc.write_all(text.as_bytes()).unwrap();
    enc.finish().unwrap()
}

fn pixel(label: &str, id: u64) -> Pixel {
    Pixel {
        timestamp: Timestamp {
            year: 2022,
            month: 4,
            day: 4,
            hour: 0,
            minute: 0,
            second: 0,
            micros: 0,
        },
        user_hash: label.to_string(),
        user_id: id,
        color: [0, 0, 0],
        fill: Fill::One { x: 0, y: 0 },
    }
}

#[test]
fn num_files_is_fixed() {
    assert_eq!(NUM_FILES, 78);
}

#[test]
fn build_index_no_collision() {
    let pixels = vec![pixel("alice", 1), pixel("bob", 2), pixel("carol", 3)];
    let (idx, reports) = build_index(&pixels);
    assert_eq!(idx.len(), 3);
    assert!(reports.is_empty());
    assert_eq!(idx.get(1).unwrap().as_str(), "alice");
    assert_eq!(idx.get(2).unwrap().as_str(), "bob");
    assert_eq!(idx.get(3).unwrap().as_str(), "carol");
    assert!(idx.get(4).is_none());
}

#[test]
fn build_index_same_label_twice_is_no_collision() {
    let pixels = vec![pixel("alice", 1), pixel("alice", 1)];
    let (idx, reports) = build_index(&pixels);
    assert_eq!(idx.len(), 1);
    assert!(reports.is_empty());
}

#[test]
fn build_index_forced_collision_last_write_wins() {
    // Two distinct labels forced onto one digest: the report fires once and
    // the later label overwrites the earlier one.
    let pixels = vec![pixel("alice", 7), pixel("bob", 8), pixel("mallory", 7)];
    let (idx, reports) = build_index(&pixels);
    assert_eq!(reports.len(), 1);
    assert_eq!(reports[0].0, "mallory");
    assert_eq!(reports[0].1, "alice");
    assert_eq!(idx.len(), 2);
    assert_eq!(idx.get(7).unwrap().as_str(), "mallory");
    assert_eq!(idx.get(8).unwrap().as_str(), "bob");
}

#[test]
fn insert_reports_only_differing_labels() {
    let mut idx = UserIndex::new();
    assert!(idx.insert(1, "alice".to_string()).is_none());
    assert!(idx.insert(1, "alice".to_string()).is_none());
    let prev = idx.insert(1, "eve".to_string());
    assert_eq!(prev.unwrap(), "alice");
    assert_eq!(idx.len(), 1);
    assert_eq!(idx.get(1).unwrap().as_str(), "eve");
}

#[test]
fn merge_disjoint_sizes_add_in_any_order() {
    let make = |labels: &[(&str, u64)]| {
        let mut idx = UserIndex::new();
        for (l, d) in labels {
            idx.insert(*d, l.to_string());
        }
        idx
    };
    let shards =
        vec![make(&[("a", 1), ("b", 2)]), make(&[("c", 3)]), make(&[("d", 4), ("e", 5)])];
    let (global, reports) = merge_all(&shards);
    assert_eq!(global.len(), 5);
    assert!(reports.is_empty());

    // The reverse merge order yields the same mapping.
    let reversed =
        vec![make(&[("d", 4), ("e", 5)]), make(&[("c", 3)]), make(&[("a", 1), ("b", 2)])];
    let (global2, reports2) = merge_all(&reversed);
    assert_eq!(global2.len(), 5);
    assert!(reports2.is_empty());
    for d in 1..=5u64 {
        assert_eq!(global.get(d).unwrap().as_str(), global2.get(d).unwrap().as_str());
    }
}

#[test]
fn end_to_end_two_shards() {
    let shard0 = gzip(
        "header\n\
         2022-04-04 00:53:51.577123 UTC,alice,#FF3881,[1,2]\n\
         2022-04-04 00:53:52.000000 UTC,bob,#000000,[3,4,5,6]\n",
    );
    let shard1 = gzip(
        "header\n\
         2022-04-04 00:53:53.000000 UTC,carol,#ABCDEF,[9,9]\n",
    );
    let mut parts: Vec<UserIndex> = Vec::new();
    let mut all_reports = 0;
    for data in [shard0, shard1] {
        let pixels = decode(&data).unwrap();
        let (idx, reports) = build_index(&pixels);
        all_reports += reports.len();
        parts.push(idx);
    }
    let (global, cross_reports) = merge_all(&parts);
    assert_eq!(all_reports, 0);
    assert!(cross_reports.is_empty());
    assert_eq!(global.len(), 3);
}

#[test]
fn cross_shard_collision_reported_once() {
    // Shard 0 maps digest 7 to "alice" (and 9 to "bob"); shard 1 forces
    // "mallory" onto digest 7. Exactly one cross-shard report fires and the
    // final count follows last-write-wins.
    let mut shard0 = UserIndex::new();
    shard0.insert(7, "alice".to_string());
    shard0.insert(9, "bob".to_string());
    let mut shard1 = UserIndex::new();
    shard1.insert(7, "mallory".to_string());
    let (global, reports) = merge_all(&vec![shard0, shard1]);
    assert_eq!(reports.len(), 1);
    assert_eq!(reports[0].0, "mallory");
    assert_eq!(reports[0].1, "alice");
    assert_eq!(global.len(), 2);
    assert_eq!(global.get(7).unwrap().as_str(), "mallory");
    assert_eq!(global.get(9).unwrap().as_str(), "bob");
}
