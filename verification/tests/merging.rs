//! Statistics and aggregate maps: exact values, merge order independence,
//! and the counter-overflow refusals.

use chunkscan::aggregate::{AggEntry, AggMap};
use chunkscan::error::ScanError;
use chunkscan::stats::Stats;

fn observe(m: &mut AggMap, key: &[u8], v: i64) {
    m.observe(key.to_vec(), v).unwrap();
}

fn pairs(m: &AggMap) -> Vec<(Vec<u8>, u64, i128, i64, i64)> {
    let mut v: Vec<(Vec<u8>, u64, i128, i64, i64)> = m
        .entries
        .iter()
        .map(|e| {
            (
                e.key.clone(),
                e.stats.count,
                e.stats.sum,
                e.stats.min,
                e.stats.max,
            )
        })
        .collect();
    v.sort();
    v
}

#[test]
fn stats_track_count_sum_min_max() {
    let mut s = Stats::new(30);
    assert_eq!((s.count, s.sum, s.min, s.max), (1, 30, 30, 30));
    s.observe(-10);
    assert_eq!((s.count, s.sum, s.min, s.max), (2, 20, -10, 30));
    s.observe(50);
    assert_eq!((s.count, s.sum, s.min, s.max), (3, 70, -10, 50));
    let t = Stats::new(0);
    let m = s.merged(t);
    assert_eq!((m.count, m.sum, m.min, m.max), (4, 70, -10, 50));
}

#[test]
fn map_observes_per_key() {
    let mut m = AggMap::new();
    observe(&mut m, b"a", 10);
    observe(&mut m, b"b", 20);
    observe(&mut m, b"a", -30);
    assert_eq!(m.len(), 2);
    assert_eq!(
        pairs(&m),
        vec![
            (b"a".to_vec(), 2, -20, -30, 10),
            (b"b".to_vec(), 1, 20, 20, 20),
        ]
    );
}

#[test]
fn merge_any_permutation_of_three_locals() {
    let mut a = AggMap::new();
    observe(&mut a, b"x", 10);
    observe(&mut a, b"y", 20);
    let mut b = AggMap::new();
    observe(&mut b, b"y", -5);
    observe(&mut b, b"z", 7);
    let mut c = AggMap::new();
    observe(&mut c, b"x", 1);
    observe(&mut c, b"z", 2);
    observe(&mut c, b"z", 3);

    let locals = [&a, &b, &c];
    let orders: [[usize; 3]; 6] = [
        [0, 1, 2],
        [0, 2, 1],
        [1, 0, 2],
        [1, 2, 0],
        [2, 0, 1],
        [2, 1, 0],
    ];
    let mut results = Vec::new();
    for order in orders.iter() {
        let mut g = AggMap::new();
        for &i in order.iter() {
            g.merge_in(locals[i]).unwrap();
        }
        results.push(pairs(&g));
    }
    for r in results.iter() {
        assert_eq!(r, &results[0]);
    }
    assert_eq!(
        results[0],
        vec![
            (b"x".to_vec(), 2, 11, 1, 10),
            (b"y".to_vec(), 2, 15, -5, 20),
            (b"z".to_vec(), 3, 12, 2, 7),
        ]
    );
}

#[test]
fn observe_refuses_a_full_counter() {
    let mut m = AggMap {
        entries: vec![AggEntry {
            key: b"k".to_vec(),
            stats: Stats {
                count: u64::MAX,
                sum: 0,
                min: 0,
                max: 0,
            },
        }],
    };
    assert_eq!(
        m.observe(b"k".to_vec(), 1).unwrap_err(),
        ScanError::CountOverflow
    );
    // the map is left as it was
    assert_eq!(m.entries[0].stats.count, u64::MAX);
    // another key is still fine
    m.observe(b"other".to_vec(), 1).unwrap();
    assert_eq!(m.len(), 2);
}

#[test]
fn merge_refuses_counters_that_no_longer_fit() {
    let big = AggMap {
        entries: vec![AggEntry {
            key: b"k".to_vec(),
            stats: Stats {
                count: u64::MAX,
                sum: 0,
                min: 0,
                max: 0,
            },
        }],
    };
    let mut g = AggMap::new();
    g.observe(b"k".to_vec(), 5).unwrap();
    let before = pairs(&g);
    assert_eq!(g.merge_in(&big).unwrap_err(), ScanError::CountOverflow);
    // refused merges leave the global map unchanged
    assert_eq!(pairs(&g), before);
    // disjoint keys still merge
    let other = AggMap {
        entries: vec![AggEntry {
            key: b"j".to_vec(),
            stats: Stats {
                count: u64::MAX,
                sum: 0,
                min: 0,
                max: 0,
            },
        }],
    };
    g.merge_in(&other).unwrap();
    assert_eq!(g.len(), 2);
}
