//! End-to-end scans over in-memory files: the scan pipeline driven the way
//! the program drives it, with every chunk size, so that every possible
//! split point inside the byte range is exercised.

use chunkscan::aggregate::AggMap;
use chunkscan::chunk::read_window;
use chunkscan::distribute::WorkDistributor;
use chunkscan::error::ScanError;
use chunkscan::scan::process_window;
use chunkscan::stats::Stats;

/// Runs the whole pipeline over an in-memory file: claims chunk offsets,
/// realigns, parses, aggregates per worker (round-robin over claims), and
/// merges the worker-local maps into one global map.
fn scan(file: &[u8], chunk_size: u64, margin: u64, workers: usize) -> Result<AggMap, ScanError> {
    let file_len = file.len() as u64;
    let mut dist = WorkDistributor::new(file_len, chunk_size);
    let mut offsets = Vec::new();
    while let Some(s) = dist.next_chunk_start() {
        offsets.push(s);
    }
    let mut global = AggMap::new();
    for w in 0..workers {
        let mut local = AggMap::new();
        for (i, &s) in offsets.iter().enumerate() {
            if i % workers != w {
                continue;
            }
            let (lo, hi) = read_window(s, chunk_size, margin, file_len);
            let window: Vec<u8> = file[lo as usize..hi as usize].to_vec();
            let m = (s - lo) as usize;
            process_window(&window, m, lo == 0, &mut local)?;
        }
        global.merge_in(&local)?;
    }
    Ok(global)
}

fn get(m: &AggMap, key: &[u8]) -> Option<Stats> {
    m.entries
        .iter()
        .find(|e| e.key.as_slice() == key)
        .map(|e| e.stats)
}

fn as_sorted_pairs(m: &AggMap) -> Vec<(Vec<u8>, u64, i128, i64, i64)> {
    let mut v: Vec<(Vec<u8>, u64, i128, i64, i64)> = m
        .entries
        .iter()
        .map(|e| {
            (
                e.key.clone(),
                e.stats.count,
                e.stats.sum,
                e.stats.min,
                e.stats.max,
            )
        })
        .collect();
    v.sort();
    v
}

#[test]
fn two_chunk_split_anywhere() {
    let file = b"AA;3.0\nBB;4.0\nAA;1.0\n";
    for chunk_size in 1..=(file.len() as u64 + 4) {
        let r = scan(file, chunk_size, 64, 1).unwrap();
        assert_eq!(r.len(), 2);
        let aa = get(&r, b"AA").unwrap();
        assert_eq!(aa.count, 2);
        assert_eq!(aa.sum, 40);
        assert_eq!(aa.min, 10);
        assert_eq!(aa.max, 30);
        // mean 2.0 at the reported precision
        let mean = (aa.sum as f64 / 10.0) / aa.count as f64;
        assert_eq!(format!("{:.1}", mean), "2.0");
        let bb = get(&r, b"BB").unwrap();
        assert_eq!(bb.count, 1);
        assert_eq!(bb.sum, 40);
        assert_eq!(bb.min, 40);
        assert_eq!(bb.max, 40);
        let mean = (bb.sum as f64 / 10.0) / bb.count as f64;
        assert_eq!(format!("{:.1}", mean), "4.0");
    }
}

#[test]
fn empty_file_gives_empty_map() {
    let r = scan(b"", 8, 64, 1).unwrap();
    assert_eq!(r.len(), 0);
    let r = scan(b"", 8, 64, 4).unwrap();
    assert_eq!(r.len(), 0);
}

#[test]
fn single_record() {
    let r = scan(b"K;5\n", 16, 64, 1).unwrap();
    assert_eq!(r.len(), 1);
    let k = get(&r, b"K").unwrap();
    assert_eq!(k.count, 1);
    assert_eq!(k.sum, 50);
    assert_eq!(k.min, 50);
    assert_eq!(k.max, 50);
}

#[test]
fn record_boundary_on_chunk_multiple_counted_once() {
    // The first record ends exactly at the chunk-size multiple 7.
    let file = b"AA;3.0\nBB;4.0\n";
    let r = scan(file, 7, 64, 1).unwrap();
    assert_eq!(r.len(), 2);
    assert_eq!(get(&r, b"AA").unwrap().count, 1);
    assert_eq!(get(&r, b"BB").unwrap().count, 1);
}

#[test]
fn single_and_multi_worker_agree() {
    let file = b"AA;3.0\nBB;4.0\nAA;1.0\nCC;-2.5\nBB;0.5\nAA;3.0\n";
    for chunk_size in [1u64, 3, 5, 7, 11, 64] {
        let one = scan(file, chunk_size, 64, 1).unwrap();
        for workers in [2usize, 3, 5, 8] {
            let many = scan(file, chunk_size, 64, workers).unwrap();
            assert_eq!(as_sorted_pairs(&one), as_sorted_pairs(&many));
        }
    }
}

#[test]
fn chunk_sizes_agree_with_each_other() {
    let file = b"x;1.0\nyy;2.0\nx;-3.5\nzzz;0.0\nyy;2.0\n";
    let reference = scan(file, 1024, 64, 1).unwrap();
    for chunk_size in 1..=(file.len() as u64 + 2) {
        let r = scan(file, chunk_size, 64, 3).unwrap();
        assert_eq!(as_sorted_pairs(&reference), as_sorted_pairs(&r));
    }
}

#[test]
fn unterminated_tail_is_no_record() {
    // Bytes after the last terminator belong to no record and are dropped.
    let r = scan(b"AA;3.0\nBB;4", 64, 64, 1).unwrap();
    assert_eq!(r.len(), 1);
    assert_eq!(get(&r, b"AA").unwrap().count, 1);
    assert!(get(&r, b"BB").is_none());
}

#[test]
fn margin_too_small_is_alignment_error() {
    // A record longer than the margin straddles a chunk boundary.
    let file = b"AAAAAAAAAA;1.0\nBB;2.0\n";
    let err = scan(file, 4, 2, 1).unwrap_err();
    assert_eq!(err, ScanError::Alignment);
}

#[test]
fn bad_record_aborts_scan() {
    let err = scan(b"AA;3.0\nBBnosep\n", 64, 64, 1).unwrap_err();
    assert_eq!(err, ScanError::MissingSeparator);
    let err = scan(b"AA;x\n", 64, 64, 1).unwrap_err();
    assert_eq!(err, ScanError::BadValue);
    let err = scan(b"AA;99999999999999999999.0\n", 64, 64, 1).unwrap_err();
    assert_eq!(err, ScanError::ValueOutOfRange);
}
