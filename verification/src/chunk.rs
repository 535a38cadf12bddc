//! Chunk realignment. A worker claims the nominal byte range
//! `[start, start + size)` of the file, reads a window that steps back up to
//! a fixed margin before `start` and never past the end of the file, and
//! realigns both ends of its range to record terminators: the chunk begins
//! right after the last terminator before its nominal start and ends right
//! after the last terminator inside its window. A chunk so aligned holds
//! only whole records, and the chunks of consecutive nominal ranges tile
//! the file's records exactly (see `crate::laws`).

use vstd::prelude::*;
use crate::error::ScanError;

verus! {

/// The record terminator byte: line feed.
pub const TERMINATOR: u8 = 10;

/// The index of the last terminator byte in `w[lo..hi)`, or `lo - 1` when
/// that range holds none.
pub open spec fn last_term(w: Seq<u8>, lo: int, hi: int) -> int
    recommends
        0 <= lo,
        hi <= w.len(),
    decreases hi - lo,
{
    if hi <= lo {
        lo - 1
    } else if w[hi - 1] == TERMINATOR {
        hi - 1
    } else {
        last_term(w, lo, hi - 1)
    }
}

/// What `last_term` returns: an index below `hi`, a terminator when it is
/// at or above `lo`, and nothing but non-terminators above it.
pub proof fn lemma_last_term(w: Seq<u8>, lo: int, hi: int)
    requires
        0 <= lo <= hi,
        hi <= w.len(),
    ensures
        lo - 1 <= last_term(w, lo, hi) < hi,
        last_term(w, lo, hi) >= lo ==> w[last_term(w, lo, hi)] == TERMINATOR,
        forall|j: int| last_term(w, lo, hi) < j < hi ==> w[j] != TERMINATOR,
    decreases hi - lo,
{
    if hi <= lo {
    } else if w[hi - 1] == TERMINATOR {
    } else {
        lemma_last_term(w, lo, hi - 1);
    }
}

/// Widening the left end of the range does not move the last terminator,
/// as long as the narrower range still holds it.
pub proof fn lemma_last_term_shrink_lo(w: Seq<u8>, lo: int, lo2: int, hi: int)
    requires
        0 <= lo <= lo2 <= hi,
        hi <= w.len(),
        lo2 <= last_term(w, lo, hi),
    ensures
        last_term(w, lo2, hi) == last_term(w, lo, hi),
{
    let t = last_term(w, lo, hi);
    let t2 = last_term(w, lo2, hi);
    lemma_last_term(w, lo, hi);
    lemma_last_term(w, lo2, hi);
    if t2 < t {
        assert(w[t] == TERMINATOR);
        assert(false);
    }
    if t2 > t {
        assert(w[t2] == TERMINATOR);
        assert(false);
    }
}

/// `last_term` over a subrange is `last_term` over the whole, shifted.
pub proof fn lemma_last_term_subrange(w: Seq<u8>, x: int, y: int, lo: int, hi: int)
    requires
        0 <= x <= y <= w.len(),
        0 <= lo <= hi,
        hi <= y - x,
    ensures
        last_term(w.subrange(x, y), lo, hi) == last_term(w, x + lo, x + hi) - x,
    decreases hi - lo,
{
    if hi <= lo {
    } else {
        assert(w.subrange(x, y)[hi - 1] == w[x + hi - 1]);
        if w[x + hi - 1] == TERMINATOR {
        } else {
            lemma_last_term_subrange(w, x, y, lo, hi - 1);
        }
    }
}

/// The outcome of realigning one window `w`, whose first `margin` bytes
/// precede the chunk's nominal start: `Some((start, end))`, indexes into
/// the window with `end` exclusive, so that `w[start..end)` holds exactly
/// the whole records of the chunk; or `None` when the margin holds no
/// terminator and does not reach the head of the file.
pub open spec fn win_align(w: Seq<u8>, margin: int, at_file_start: bool) -> Option<(int, int)>
    recommends
        0 <= margin <= w.len(),
{
    let ts = last_term(w, 0, margin);
    if ts >= 0 || at_file_start {
        let a = ts + 1;
        let te = last_term(w, 0, w.len() as int);
        Some((a, if te >= 0 {
            te + 1
        } else {
            a
        }))
    } else {
        None
    }
}

/// Realigns a window to record boundaries: scans backward from the end of
/// the margin for the terminator before the chunk's nominal start, and
/// backward from the end of the window for the terminator that ends the
/// chunk. Fails when the margin holds no terminator and the window does
/// not begin at the head of the file.
pub fn align_chunk(w: &Vec<u8>, margin: usize, at_file_start: bool) -> (r: Result<
    (usize, usize),
    ScanError,
>)
    requires
        margin <= w@.len(),
    ensures
        match r {
            Ok((a, b)) => {
                &&& win_align(w@, margin as int, at_file_start) == Some((a as int, b as int))
                &&& a <= b <= w@.len()
            },
            Err(e) => {
                &&& win_align(w@, margin as int, at_file_start) is None
                &&& e == ScanError::Alignment
            },
        },
{
    proof {
        lemma_last_term(w@, 0, margin as int);
        lemma_last_term(w@, 0, w@.len() as int);
    }
    let ghost ts = last_term(w@, 0, margin as int);
    let ghost te = last_term(w@, 0, w@.len() as int);

    let mut head: usize = margin;
    while head > 0 && w[head - 1] != TERMINATOR
        invariant
            head <= margin <= w@.len(),
            forall|j: int| head <= j < margin ==> w@[j] != TERMINATOR,
        decreases head,
    {
        head = head - 1;
    }
    // head - 1 is the last terminator in the margin, or head == 0 and the
    // margin holds none.
    proof {
        if head == 0 {
            if ts >= 0 {
                assert(w@[ts] == TERMINATOR);
                assert(false);
            }
        } else {
            assert(w@[head - 1] == TERMINATOR);
            if ts > head - 1 {
                assert(w@[ts] != TERMINATOR);
                assert(false);
            }
            if ts < head - 1 {
                assert(false);
            }
        }
    }
    if head == 0 && !at_file_start {
        return Err(ScanError::Alignment);
    }

    let mut tail: usize = w.len();
    while tail > 0 && w[tail - 1] != TERMINATOR
        invariant
            tail <= w@.len(),
            forall|j: int| tail <= j < w@.len() ==> w@[j] != TERMINATOR,
        decreases tail,
    {
        tail = tail - 1;
    }
    proof {
        if tail == 0 {
            if te >= 0 {
                assert(w@[te] == TERMINATOR);
                assert(false);
            }
        } else {
            assert(w@[tail - 1] == TERMINATOR);
            if te > tail - 1 {
                assert(w@[te] != TERMINATOR);
                assert(false);
            }
            if te < tail - 1 {
                assert(false);
            }
        }
        if head > 0 {
            // The terminator that starts the chunk is also in the whole
            // window, so the end scan cannot stop short of it.
            assert(w@[head - 1] == TERMINATOR);
            if te < head - 1 {
                assert(false);
            }
        }
    }
    let b = if tail == 0 {
        head
    } else {
        tail
    };
    Ok((head, b))
}

/// Where the window of the chunk with nominal start `start` begins: up to
/// `margin` bytes of lookback, clamped at the head of the file.
pub open spec fn window_lo(start: int, margin: int) -> int {
    if start > margin {
        start - margin
    } else {
        0
    }
}

/// Where that window ends: at the nominal end of the chunk, clamped at the
/// end of the file.
pub open spec fn window_hi(start: int, size: int, file_len: int) -> int {
    if start + size < file_len {
        start + size
    } else {
        file_len
    }
}

/// Computes the window `[r.0, r.1)` of file bytes to read for the chunk
/// with nominal range `[start, start + size)`.
pub fn read_window(start: u64, size: u64, margin: u64, file_len: u64) -> (r: (u64, u64))
    requires
        start <= file_len,
    ensures
        r.0 == window_lo(start as int, margin as int),
        r.1 == window_hi(start as int, size as int, file_len as int),
        r.0 <= start <= r.1 <= file_len,
{
    let lo = if start > margin {
        start - margin
    } else {
        0
    };
    let hi = if size <= u64::MAX - start {
        if start + size < file_len {
            start + size
        } else {
            file_len
        }
    } else {
        file_len
    };
    (lo, hi)
}

/// The aligned byte range of the chunk with nominal range `[s, s + c)` of
/// a file of bytes `f`, realigned with lookback margin `e`: the range
/// `[start, end)` of file bytes holding exactly that chunk's whole
/// records, or `None` when the margin holds no terminator and does not
/// reach the head of the file. A nominal start beyond the end of the file
/// yields an empty range: that worker has no more work.
pub open spec fn chunk_range(f: Seq<u8>, s: int, c: int, e: int) -> Option<(int, int)>
    recommends
        0 <= s,
        0 <= c,
        0 <= e,
{
    if s > f.len() {
        Some((f.len() as int, f.len() as int))
    } else {
        let lo = window_lo(s, e);
        let hi = window_hi(s, c, f.len() as int);
        let ts = last_term(f, lo, s);
        if ts >= lo || lo == 0 {
            let a = if ts >= lo {
                ts + 1
            } else {
                0
            };
            let te = last_term(f, lo, hi);
            Some((a, if te >= lo {
                te + 1
            } else {
                a
            }))
        } else {
            None
        }
    }
}

/// Realigning the window read for a chunk gives exactly the chunk's
/// aligned file range, shifted by where the window begins. This ties the
/// outcome of `align_chunk` on the bytes `f[window_lo..window_hi)` to the
/// chunk's place in the whole file.
pub proof fn lemma_chunk_range_window(f: Seq<u8>, s: int, c: int, e: int)
    requires
        0 <= s <= f.len(),
        0 <= c,
        0 <= e,
    ensures
        ({
            let lo = window_lo(s, e);
            let hi = window_hi(s, c, f.len() as int);
            match (chunk_range(f, s, c, e), win_align(f.subrange(lo, hi), s - lo, lo == 0)) {
                (Some((a, b)), Some((aw, bw))) => a == aw + lo && b == bw + lo,
                (None, None) => true,
                _ => false,
            }
        }),
{
    let lo = window_lo(s, e);
    let hi = window_hi(s, c, f.len() as int);
    let w = f.subrange(lo, hi);
    assert(w.len() == hi - lo);
    lemma_last_term(f, lo, s);
    lemma_last_term(f, lo, hi);
    lemma_last_term_subrange(f, lo, hi, 0, s - lo);
    lemma_last_term_subrange(f, lo, hi, 0, hi - lo);
    assert(last_term(w, 0, s - lo) == last_term(f, lo, s) - lo);
    assert(last_term(w, 0, w.len() as int) == last_term(f, lo, hi) - lo);
}

} // verus!
