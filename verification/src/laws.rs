//! The laws of the scan, proved over the spec-level model: merging is
//! commutative and associative, so worker completion order cannot change
//! the result; a key's final statistics are exactly the count, sum,
//! minimum and maximum of the values observed for it; aggregating chunk by
//! chunk and merging equals aggregating the whole file in one pass; and
//! the realigned chunks tile the file's records exactly, with no byte
//! counted twice and none dropped.

use vstd::prelude::*;
use crate::aggregate::{agg_fold, agg_of, map_merge, observe_map};
use crate::error::ScanError;
use crate::records::{
    chunk_records, find_byte, lemma_find_byte, parse_fragment, parse_fragments, records_of,
};
use crate::chunk::{
    TERMINATOR, chunk_range, last_term, lemma_last_term, lemma_last_term_shrink_lo, window_hi,
    window_lo,
};
use crate::stats::{
    GStats, gstats_add, gstats_of, gstats_one, lemma_gstats_merge_associative,
    lemma_gstats_of_one, lemma_gstats_of_push,
};

verus! {

/// The aligned bounds of a chunk known to align.
pub open spec fn chunk_bounds(f: Seq<u8>, s: int, c: int, e: int) -> (int, int) {
    match chunk_range(f, s, c, e) {
        Some(r) => r,
        None => (0, 0),
    }
}

/// An aligned chunk sits inside the file, and each of its ends is either
/// the head of the file or right after a terminator.
pub proof fn lemma_chunk_range_bounds(f: Seq<u8>, s: int, c: int, e: int)
    requires
        c >= 1,
        e >= 0,
        0 <= s <= f.len(),
        chunk_range(f, s, c, e) is Some,
    ensures
        ({
            let (a, b) = chunk_bounds(f, s, c, e);
            &&& 0 <= a <= b <= f.len()
            &&& (a == 0 || f[a - 1] == TERMINATOR)
            &&& (b == 0 || f[b - 1] == TERMINATOR)
        }),
{
    let flen = f.len() as int;
    let lo = window_lo(s, e);
    let hi = window_hi(s, c, flen);
    lemma_last_term(f, lo, s);
    lemma_last_term(f, lo, hi);
    let ts = last_term(f, lo, s);
    let te = last_term(f, lo, hi);
    if ts >= lo {
        assert(f[ts] == TERMINATOR);
        assert(te >= ts);
    }
    if te >= lo {
        assert(f[te] == TERMINATOR);
    }
}

/// Consecutive nominal ranges realign to consecutive chunks: the chunk at
/// `s` ends exactly where the chunk at `s + c` begins. No record is seen
/// by both, and none falls between them.
pub proof fn lemma_chunks_consecutive(f: Seq<u8>, s: int, c: int, e: int)
    requires
        c >= 1,
        e >= 0,
        0 <= s,
        s + c <= f.len(),
        chunk_range(f, s, c, e) is Some,
        chunk_range(f, s + c, c, e) is Some,
    ensures
        chunk_bounds(f, s, c, e).1 == chunk_bounds(f, s + c, c, e).0,
{
    let flen = f.len() as int;
    let s2 = s + c;
    let lo = window_lo(s, e);
    let hi = window_hi(s, c, flen);
    assert(hi == s2);
    let lo2 = window_lo(s2, e);
    assert(0 <= lo <= lo2 <= s2);
    lemma_last_term(f, lo, s);
    lemma_last_term(f, lo, s2);
    lemma_last_term(f, lo2, s2);
    let t = last_term(f, lo, s2);
    let t2 = last_term(f, lo2, s2);
    if t2 >= lo2 {
        // The lookback margin of the second chunk holds a terminator; the
        // first chunk's end scan settles on the same one.
        assert(f[t2] == TERMINATOR);
        assert(t >= t2);
        lemma_last_term_shrink_lo(f, lo, lo2, s2);
        assert(t >= lo);
    } else {
        // No terminator in the margin: the second chunk aligned only
        // because its window reaches the head of the file, so neither
        // window holds any terminator at all.
        assert(lo2 == 0);
        assert(lo == 0);
        assert(t2 == -1);
        if t >= 0 {
            assert(f[t] == TERMINATOR);
            assert(false);
        }
        let ts = last_term(f, 0, s);
        if ts >= 0 {
            assert(f[ts] == TERMINATOR);
            assert(false);
        }
    }
}

/// The chunk whose nominal range passes the end of the file ends right
/// after the last terminator of the whole file.
pub proof fn lemma_last_chunk_ends_at_tail(f: Seq<u8>, s: int, c: int, e: int)
    requires
        c >= 1,
        e >= 0,
        0 <= s <= f.len(),
        f.len() < s + c,
        chunk_range(f, s, c, e) is Some,
    ensures
        chunk_bounds(f, s, c, e).1 == last_term(f, 0, f.len() as int) + 1,
{
    let flen = f.len() as int;
    let lo = window_lo(s, e);
    let hi = window_hi(s, c, flen);
    assert(hi == flen);
    lemma_last_term(f, 0, flen);
    lemma_last_term(f, lo, flen);
    lemma_last_term(f, lo, s);
    let bigt = last_term(f, 0, flen);
    let t = last_term(f, lo, flen);
    let ts = last_term(f, lo, s);
    if bigt >= lo {
        lemma_last_term_shrink_lo(f, 0, lo, flen);
    } else {
        // Every terminator of the file, if any, lies before the window.
        if t >= lo {
            assert(f[t] == TERMINATOR);
            assert(false);
        }
        if ts >= lo {
            assert(f[ts] == TERMINATOR);
            assert(false);
        }
        assert(lo == 0);
    }
}

/// The nominal start of the k-th chunk.
pub open spec fn chunk_nominal(c: int, k: int) -> int {
    k * c
}

/// The k-th chunk's alignment outcome.
pub open spec fn chunk_k(f: Seq<u8>, c: int, e: int, k: int) -> Option<(int, int)> {
    chunk_range(f, chunk_nominal(c, k), c, e)
}

/// The k-th chunk's aligned bounds.
pub open spec fn chunk_bounds_k(f: Seq<u8>, c: int, e: int, k: int) -> (int, int) {
    chunk_bounds(f, chunk_nominal(c, k), c, e)
}

/// Coverage: over the nominal starts 0, c, 2c, ... that the distributor
/// hands out, the realigned chunks are consecutive — each begins exactly
/// where the previous one ends — the first begins at byte 0, and the last
/// ends right after the file's last record terminator. So the chunks
/// together hold every byte of the file's records exactly once: no
/// overlap, no gap, and only the bytes after the last terminator (which
/// belong to no record) are left to none.
pub proof fn lemma_chunk_coverage(f: Seq<u8>, c: int, e: int, kmax: int)
    requires
        c >= 1,
        e >= 0,
        kmax >= 0,
        kmax * c <= f.len() < (kmax + 1) * c,
        forall|k: int| 0 <= k <= kmax ==> (#[trigger] chunk_k(f, c, e, k)) is Some,
    ensures
        chunk_bounds_k(f, c, e, 0).0 == 0,
        forall|k: int|
            0 <= k < kmax ==> (#[trigger] chunk_bounds_k(f, c, e, k)).1 == chunk_bounds_k(
                f,
                c,
                e,
                k + 1,
            ).0,
        chunk_bounds_k(f, c, e, kmax).1 == last_term(f, 0, f.len() as int) + 1,
{
    let flen = f.len() as int;
    // The first chunk starts at the head of the file.
    assert(chunk_nominal(c, 0) == 0);
    assert(chunk_k(f, c, e, 0) is Some);
    assert(last_term(f, 0, 0) == -1);
    assert(window_lo(0, e) == 0);
    assert(chunk_bounds_k(f, c, e, 0).0 == 0);

    // Each chunk ends where the next begins.
    assert forall|k: int|
        0 <= k < kmax implies (#[trigger] chunk_bounds_k(f, c, e, k)).1 == chunk_bounds_k(
        f,
        c,
        e,
        k + 1,
    ).0 by {
        let s = chunk_nominal(c, k);
        assert((k + 1) * c == k * c + c) by (nonlinear_arith);
        assert(chunk_nominal(c, k + 1) == s + c);
        assert(0 <= s && s + c <= kmax * c) by (nonlinear_arith)
            requires
                0 <= k < kmax,
                c >= 1,
                s == k * c,
        ;
        assert(chunk_k(f, c, e, k) is Some);
        assert(chunk_k(f, c, e, k + 1) is Some);
        lemma_chunks_consecutive(f, s, c, e);
    }

    // The last chunk reaches the last terminator.
    let slast = chunk_nominal(c, kmax);
    assert((kmax + 1) * c == kmax * c + c) by (nonlinear_arith);
    assert(slast + c == (kmax + 1) * c);
    assert(0 <= slast) by (nonlinear_arith)
        requires
            kmax >= 0,
            c >= 1,
            slast == kmax * c,
    ;
    assert(chunk_k(f, c, e, kmax) is Some);
    lemma_last_chunk_ends_at_tail(f, slast, c, e);
}

/// Merging two aggregate maps does not depend on their order: workers may
/// finish in any order.
pub proof fn lemma_map_merge_commutative(a: Map<Seq<u8>, GStats>, b: Map<Seq<u8>, GStats>)
    ensures
        map_merge(a, b) == map_merge(b, a),
{
    assert(map_merge(a, b) =~= map_merge(b, a));
}

/// Merging aggregate maps does not depend on grouping: together with
/// commutativity, any permutation of worker-local maps merges to the same
/// global map.
pub proof fn lemma_map_merge_associative(
    a: Map<Seq<u8>, GStats>,
    b: Map<Seq<u8>, GStats>,
    c: Map<Seq<u8>, GStats>,
)
    ensures
        map_merge(map_merge(a, b), c) == map_merge(a, map_merge(b, c)),
{
    assert forall|k: Seq<u8>|
        map_merge(map_merge(a, b), c).dom().contains(k) implies map_merge(map_merge(a, b), c)[k]
        == map_merge(a, map_merge(b, c))[k] by {
        if a.dom().contains(k) && b.dom().contains(k) && c.dom().contains(k) {
            lemma_gstats_merge_associative(a[k], b[k], c[k]);
        }
    }
    assert(map_merge(map_merge(a, b), c) =~= map_merge(a, map_merge(b, c)));
}

/// The empty aggregate map is the unit of merging.
pub proof fn lemma_map_merge_empty(a: Map<Seq<u8>, GStats>)
    ensures
        map_merge(a, Map::empty()) == a,
        map_merge(Map::empty(), a) == a,
{
    assert(map_merge(a, Map::empty()) =~= a);
    assert(map_merge(Map::empty(), a) =~= a);
}

/// One observation commutes with a merge on its right side.
proof fn lemma_merge_observe(a: Map<Seq<u8>, GStats>, b: Map<Seq<u8>, GStats>, k: Seq<u8>, v: int)
    ensures
        observe_map(map_merge(a, b), k, v) == map_merge(a, observe_map(b, k, v)),
{
    if a.dom().contains(k) && b.dom().contains(k) {
        lemma_gstats_merge_associative(a[k], b[k], gstats_one(v));
    }
    assert(observe_map(map_merge(a, b), k, v) =~= map_merge(a, observe_map(b, k, v)));
}

/// Folding records into a map is merging the records' own aggregate in.
pub proof fn lemma_agg_fold_is_merge(m: Map<Seq<u8>, GStats>, rs: Seq<(Seq<u8>, int)>)
    ensures
        agg_fold(m, rs) == map_merge(m, agg_of(rs)),
    decreases rs.len(),
{
    if rs.len() == 0 {
        lemma_map_merge_empty(m);
    } else {
        let rs0 = rs.drop_last();
        let r = rs.last();
        assert(rs0.push(r) =~= rs);
        crate::aggregate::lemma_agg_fold_push(m, rs0, r);
        crate::aggregate::lemma_agg_fold_push(Map::empty(), rs0, r);
        lemma_agg_fold_is_merge(m, rs0);
        lemma_merge_observe(m, agg_of(rs0), r.0, r.1);
    }
}

/// Aggregating two record sequences side by side and merging is
/// aggregating their concatenation: the heart of single-pass /
/// chunked-pass equivalence.
pub proof fn lemma_agg_of_concat(r1: Seq<(Seq<u8>, int)>, r2: Seq<(Seq<u8>, int)>)
    ensures
        agg_of(r1 + r2) == map_merge(agg_of(r1), agg_of(r2)),
    decreases r1.len(),
{
    lemma_agg_fold_concat(Map::empty(), r1, r2);
    lemma_agg_fold_is_merge(agg_of(r1), r2);
}

/// Folding a concatenation is folding one sequence after the other.
pub proof fn lemma_agg_fold_concat(
    m: Map<Seq<u8>, GStats>,
    r1: Seq<(Seq<u8>, int)>,
    r2: Seq<(Seq<u8>, int)>,
)
    ensures
        agg_fold(m, r1 + r2) == agg_fold(agg_fold(m, r1), r2),
    decreases r1.len(),
{
    if r1.len() == 0 {
        assert(r1 + r2 =~= r2);
    } else {
        assert((r1 + r2)[0] == r1[0]);
        assert((r1 + r2).drop_first() =~= r1.drop_first() + r2);
        lemma_agg_fold_concat(observe_map(m, r1[0].0, r1[0].1), r1.drop_first(), r2);
    }
}

/// Chunks that come later in the file never reach back: a chunk ends at
/// or before the start of every later chunk.
proof fn lemma_chunks_ordered(f: Seq<u8>, c: int, e: int, kmax: int, k1: int, k2: int)
    requires
        c >= 1,
        e >= 0,
        kmax >= 0,
        kmax * c <= f.len() < (kmax + 1) * c,
        forall|k: int| 0 <= k <= kmax ==> (#[trigger] chunk_k(f, c, e, k)) is Some,
        0 <= k1 < k2 <= kmax,
    ensures
        chunk_bounds_k(f, c, e, k1).1 <= chunk_bounds_k(f, c, e, k2).0,
    decreases k2 - k1,
{
    lemma_chunk_coverage(f, c, e, kmax);
    if k2 == k1 + 1 {
        assert(chunk_bounds_k(f, c, e, k1).1 == chunk_bounds_k(f, c, e, k2).0);
    } else {
        lemma_chunks_ordered(f, c, e, kmax, k1, k2 - 1);
        assert(0 <= (k2 - 1) * c && (k2 - 1) * c <= kmax * c) by (nonlinear_arith)
            requires
                0 <= k2 - 1 <= kmax,
                c >= 1,
        ;
        assert(chunk_k(f, c, e, k2 - 1) is Some);
        lemma_chunk_range_bounds(f, chunk_nominal(c, k2 - 1), c, e);
        assert(chunk_bounds_k(f, c, e, k2 - 1).1 == chunk_bounds_k(f, c, e, k2).0);
    }
}

/// Every record byte belongs to some chunk: existence half of exact
/// coverage.
proof fn lemma_coverage_exists(f: Seq<u8>, c: int, e: int, kmax: int, p: int, k: int)
    requires
        c >= 1,
        e >= 0,
        kmax >= 0,
        kmax * c <= f.len() < (kmax + 1) * c,
        forall|j: int| 0 <= j <= kmax ==> (#[trigger] chunk_k(f, c, e, j)) is Some,
        0 <= k <= kmax,
        chunk_bounds_k(f, c, e, k).0 <= p < chunk_bounds_k(f, c, e, kmax).1,
    ensures
        exists|j: int|
            0 <= j <= kmax && (#[trigger] chunk_bounds_k(f, c, e, j)).0 <= p < chunk_bounds_k(
                f,
                c,
                e,
                j,
            ).1,
    decreases kmax - k,
{
    lemma_chunk_coverage(f, c, e, kmax);
    if p < chunk_bounds_k(f, c, e, k).1 {
        assert(chunk_bounds_k(f, c, e, k).0 <= p < chunk_bounds_k(f, c, e, k).1);
    } else {
        assert(k < kmax);
        assert(chunk_bounds_k(f, c, e, k + 1).0 == chunk_bounds_k(f, c, e, k).1);
        lemma_coverage_exists(f, c, e, kmax, p, k + 1);
    }
}

/// Exact coverage, byte by byte: every byte of the file's records — every
/// position up to and including the last terminator — lies inside exactly
/// one realigned chunk. No byte is scanned twice and none is dropped.
pub proof fn lemma_coverage_exact(f: Seq<u8>, c: int, e: int, kmax: int, p: int)
    requires
        c >= 1,
        e >= 0,
        kmax >= 0,
        kmax * c <= f.len() < (kmax + 1) * c,
        forall|k: int| 0 <= k <= kmax ==> (#[trigger] chunk_k(f, c, e, k)) is Some,
        0 <= p <= last_term(f, 0, f.len() as int),
    ensures
        exists|k: int|
            0 <= k <= kmax && (#[trigger] chunk_bounds_k(f, c, e, k)).0 <= p < chunk_bounds_k(
                f,
                c,
                e,
                k,
            ).1,
        forall|k1: int, k2: int|
            (0 <= k1 <= kmax && (#[trigger] chunk_bounds_k(f, c, e, k1)).0 <= p < chunk_bounds_k(
                f,
                c,
                e,
                k1,
            ).1 && 0 <= k2 <= kmax && (#[trigger] chunk_bounds_k(f, c, e, k2)).0 <= p
                < chunk_bounds_k(f, c, e, k2).1) ==> k1 == k2,
{
    lemma_chunk_coverage(f, c, e, kmax);
    lemma_coverage_exists(f, c, e, kmax, p, 0);
    assert forall|k1: int, k2: int|
        (0 <= k1 <= kmax && (#[trigger] chunk_bounds_k(f, c, e, k1)).0 <= p < chunk_bounds_k(
            f,
            c,
            e,
            k1,
        ).1 && 0 <= k2 <= kmax && (#[trigger] chunk_bounds_k(f, c, e, k2)).0 <= p < chunk_bounds_k(
            f,
            c,
            e,
            k2,
        ).1) implies k1 == k2 by {
        if k1 < k2 {
            lemma_chunks_ordered(f, c, e, kmax, k1, k2);
        }
        if k2 < k1 {
            lemma_chunks_ordered(f, c, e, kmax, k2, k1);
        }
    }
}

/// Splitting respects concatenation at a record boundary: when one byte
/// range ends with a terminator (or is empty), the records of the two
/// ranges laid end to end are the records of the one and then the other.
pub proof fn lemma_records_of_concat(x: Seq<u8>, y: Seq<u8>)
    requires
        x.len() == 0 || x.last() == TERMINATOR,
    ensures
        records_of(x + y) == records_of(x) + records_of(y),
    decreases x.len(),
{
    if x.len() == 0 {
        assert(x + y =~= y);
        assert(records_of(x).len() == 0);
        assert(records_of(x) + records_of(y) =~= records_of(y));
    } else {
        lemma_find_byte(x, TERMINATOR, 0);
        let z = x + y;
        lemma_find_byte(z, TERMINATOR, 0);
        match find_byte(x, TERMINATOR, 0) {
            None => {
                assert(x[x.len() - 1] == TERMINATOR);
                assert(false);
            },
            Some(i) => {
                assert(z[i] == x[i]);
                match find_byte(z, TERMINATOR, 0) {
                    None => {
                        assert(false);
                    },
                    Some(j) => {
                        if j < i {
                            assert(z[j] == x[j]);
                            assert(false);
                        }
                        if j > i {
                            assert(false);
                        }
                        assert(z.subrange(0, i) =~= x.subrange(0, i));
                        let xt = x.subrange(i + 1, x.len() as int);
                        assert(z.subrange(i + 1, z.len() as int) =~= xt + y);
                        if xt.len() > 0 {
                            assert(xt.last() == x.last());
                        }
                        lemma_records_of_concat(xt, y);
                        let head = if i == 0 {
                            Seq::<Seq<u8>>::empty()
                        } else {
                            seq![x.subrange(0, i)]
                        };
                        assert(records_of(z) == head + (records_of(xt) + records_of(y)));
                        assert(records_of(x) == head + records_of(xt));
                        assert(head + (records_of(xt) + records_of(y)) =~= (head + records_of(xt))
                            + records_of(y));
                    },
                }
            },
        }
    }
}

/// Parsing respects concatenation: the fragments of two ranges parse
/// together exactly when each side parses, the left side's first error
/// winning.
pub proof fn lemma_parse_fragments_concat(a: Seq<Seq<u8>>, b: Seq<Seq<u8>>)
    ensures
        parse_fragments(a + b) == (match parse_fragments(a) {
            Err(e) => Err::<Seq<(Seq<u8>, int)>, ScanError>(e),
            Ok(pa) => match parse_fragments(b) {
                Err(e) => Err(e),
                Ok(pb) => Ok(pa + pb),
            },
        }),
    decreases a.len(),
{
    if a.len() == 0 {
        assert(a + b =~= b);
        match parse_fragments(b) {
            Ok(pb) => {
                assert(Seq::<(Seq<u8>, int)>::empty() + pb =~= pb);
            },
            Err(_) => {},
        }
    } else {
        assert((a + b)[0] == a[0]);
        assert((a + b).drop_first() =~= a.drop_first() + b);
        lemma_parse_fragments_concat(a.drop_first(), b);
        match parse_fragment(a[0]) {
            Err(_) => {},
            Ok(p) => {
                match parse_fragments(a.drop_first()) {
                    Ok(pa1) => {
                        match parse_fragments(b) {
                            Ok(pb) => {
                                assert(seq![p] + (pa1 + pb) =~= (seq![p] + pa1) + pb);
                            },
                            Err(_) => {},
                        }
                    },
                    Err(_) => {},
                }
            },
        }
    }
}

/// The bytes of the k-th aligned chunk.
pub open spec fn chunk_content(f: Seq<u8>, c: int, e: int, k: int) -> Seq<u8> {
    let r = chunk_bounds_k(f, c, e, k);
    f.subrange(r.0, r.1)
}

/// The records of an aligned range whose parse succeeded.
pub open spec fn ok_records(b: Seq<u8>) -> Seq<(Seq<u8>, int)> {
    match chunk_records(b) {
        Ok(rs) => rs,
        Err(_) => Seq::empty(),
    }
}

/// The global map after the first n chunks, each scanned on its own and
/// merged in order.
pub open spec fn chunks_agg(f: Seq<u8>, c: int, e: int, n: int) -> Map<Seq<u8>, GStats>
    decreases n,
{
    if n <= 0 {
        Map::empty()
    } else {
        map_merge(chunks_agg(f, c, e, n - 1), agg_of(ok_records(chunk_content(f, c, e, n - 1))))
    }
}

/// One more chunk folded onto a prefix that ends on a record boundary:
/// parsing still succeeds and the merged aggregate is the aggregate of the
/// longer prefix.
proof fn lemma_scan_step(f: Seq<u8>, b0: int, a1: int, b1: int)
    requires
        0 <= b0 <= f.len(),
        b0 == a1,
        a1 <= b1 <= f.len(),
        b0 == 0 || f[b0 - 1] == TERMINATOR,
        chunk_records(f.subrange(0, b0)) is Ok,
        chunk_records(f.subrange(a1, b1)) is Ok,
    ensures
        chunk_records(f.subrange(0, b1)) is Ok,
        map_merge(
            agg_of(ok_records(f.subrange(0, b0))),
            agg_of(ok_records(f.subrange(a1, b1))),
        ) == agg_of(ok_records(f.subrange(0, b1))),
{
    let x = f.subrange(0, b0);
    let y = f.subrange(a1, b1);
    assert(x + y =~= f.subrange(0, b1));
    if x.len() > 0 {
        assert(x.last() == f[b0 - 1]);
    }
    lemma_records_of_concat(x, y);
    lemma_parse_fragments_concat(records_of(x), records_of(y));
    lemma_agg_of_concat(ok_records(x), ok_records(y));
    assert(ok_records(x + y) =~= ok_records(x) + ok_records(y));
}

/// After the first n chunks, the merged aggregates equal one pass over the
/// file's bytes up to the end of chunk n-1.
proof fn lemma_scan_prefix(f: Seq<u8>, c: int, e: int, kmax: int, n: int)
    requires
        c >= 1,
        e >= 0,
        kmax >= 0,
        kmax * c <= f.len() < (kmax + 1) * c,
        forall|k: int| 0 <= k <= kmax ==> (#[trigger] chunk_k(f, c, e, k)) is Some,
        forall|k: int|
            0 <= k <= kmax ==> chunk_records(#[trigger] chunk_content(f, c, e, k)) is Ok,
        1 <= n <= kmax + 1,
    ensures
        chunk_records(f.subrange(0, chunk_bounds_k(f, c, e, n - 1).1)) is Ok,
        chunks_agg(f, c, e, n) == agg_of(
            ok_records(f.subrange(0, chunk_bounds_k(f, c, e, n - 1).1)),
        ),
    decreases n,
{
    let flen = f.len() as int;
    lemma_chunk_coverage(f, c, e, kmax);
    assert(0 <= (n - 1) * c && (n - 1) * c <= kmax * c) by (nonlinear_arith)
        requires
            0 <= n - 1 <= kmax,
            c >= 1,
    ;
    assert(chunk_k(f, c, e, n - 1) is Some);
    lemma_chunk_range_bounds(f, chunk_nominal(c, n - 1), c, e);
    let (a1, b1) = chunk_bounds_k(f, c, e, n - 1);
    if n == 1 {
        assert(a1 == 0);
        assert(chunk_content(f, c, e, 0) == f.subrange(0, b1));
        assert(chunks_agg(f, c, e, 0) == Map::<Seq<u8>, GStats>::empty());
        assert(chunks_agg(f, c, e, 1) == map_merge(
            chunks_agg(f, c, e, 0),
            agg_of(ok_records(chunk_content(f, c, e, 0))),
        ));
        lemma_map_merge_empty(agg_of(ok_records(chunk_content(f, c, e, 0))));
    } else {
        lemma_scan_prefix(f, c, e, kmax, n - 1);
        assert(0 <= (n - 2) * c && (n - 2) * c <= kmax * c) by (nonlinear_arith)
            requires
                0 <= n - 2 <= kmax,
                c >= 1,
        ;
        assert(chunk_k(f, c, e, n - 2) is Some);
        lemma_chunk_range_bounds(f, chunk_nominal(c, n - 2), c, e);
        let (a0, b0) = chunk_bounds_k(f, c, e, n - 2);
        // consecutive: the previous prefix ends where this chunk begins
        assert(b0 == a1);
        assert(f.subrange(a1, b1) == chunk_content(f, c, e, n - 1));
        assert(chunk_records(f.subrange(a1, b1)) is Ok);
        assert(chunks_agg(f, c, e, n) == map_merge(
            chunks_agg(f, c, e, n - 1),
            agg_of(ok_records(chunk_content(f, c, e, n - 1))),
        ));
        lemma_scan_step(f, b0, a1, b1);
    }
}

/// Single-pass / chunked-pass equivalence: scanning the file chunk by
/// chunk and merging the chunk aggregates in claim order yields exactly
/// the aggregate of the whole file's records — what one worker computes in
/// a single pass over everything up to the last terminator. With
/// commutativity and associativity of merging, any assignment of chunks to
/// workers and any completion order give that same map.
pub proof fn lemma_scan_equivalence(f: Seq<u8>, c: int, e: int, kmax: int)
    requires
        c >= 1,
        e >= 0,
        kmax >= 0,
        kmax * c <= f.len() < (kmax + 1) * c,
        forall|k: int| 0 <= k <= kmax ==> (#[trigger] chunk_k(f, c, e, k)) is Some,
        forall|k: int|
            0 <= k <= kmax ==> chunk_records(#[trigger] chunk_content(f, c, e, k)) is Ok,
    ensures
        ({
            let whole = f.subrange(0, last_term(f, 0, f.len() as int) + 1);
            &&& chunk_records(whole) is Ok
            &&& chunks_agg(f, c, e, kmax + 1) == agg_of(ok_records(whole))
        }),
{
    lemma_chunk_coverage(f, c, e, kmax);
    lemma_scan_prefix(f, c, e, kmax, kmax + 1);
}

/// The values observed for one key, in record order.
pub open spec fn values_of(rs: Seq<(Seq<u8>, int)>, k: Seq<u8>) -> Seq<int> {
    rs.filter(|r: (Seq<u8>, int)| r.0 == k).map_values(|r: (Seq<u8>, int)| r.1)
}

/// Aggregation correctness: a key is in the aggregate map exactly when it
/// was observed, and its final statistics are exactly the count, sum,
/// minimum and maximum of the values observed for it.
pub proof fn lemma_agg_of_key(rs: Seq<(Seq<u8>, int)>, k: Seq<u8>)
    ensures
        agg_of(rs).dom().contains(k) <==> values_of(rs, k).len() >= 1,
        agg_of(rs).dom().contains(k) ==> agg_of(rs)[k] == gstats_of(values_of(rs, k)),
    decreases rs.len(),
{
    reveal(Seq::filter);
    let pred = |r: (Seq<u8>, int)| r.0 == k;
    let proj = |r: (Seq<u8>, int)| r.1;
    if rs.len() == 0 {
        assert(rs.filter(pred).len() == 0);
    } else {
        let rs0 = rs.drop_last();
        let r = rs.last();
        lemma_agg_of_key(rs0, k);
        assert(rs0.push(r) =~= rs);
        crate::aggregate::lemma_agg_fold_push(Map::empty(), rs0, r);
        assert(agg_of(rs) == observe_map(agg_of(rs0), r.0, r.1));
        assert(rs.filter(pred) == if pred(r) {
            rs0.filter(pred).push(r)
        } else {
            rs0.filter(pred)
        });
        if r.0 == k {
            let vs0 = values_of(rs0, k);
            assert(values_of(rs, k) =~= vs0.push(r.1));
            if vs0.len() == 0 {
                assert(!agg_of(rs0).dom().contains(k));
                assert(agg_of(rs)[k] == gstats_one(r.1));
                lemma_gstats_of_one(r.1);
                assert(vs0.push(r.1) =~= seq![r.1]);
            } else {
                assert(agg_of(rs0).dom().contains(k));
                assert(agg_of(rs)[k] == gstats_add(agg_of(rs0)[k], r.1));
                lemma_gstats_of_push(vs0, r.1);
            }
        } else {
            assert(values_of(rs, k) == values_of(rs0, k));
            assert(agg_of(rs).dom().contains(k) <==> agg_of(rs0).dom().contains(k));
            if agg_of(rs0).dom().contains(k) {
                assert(agg_of(rs)[k] == agg_of(rs0)[k]);
            }
        }
    }
}

} // verus!
