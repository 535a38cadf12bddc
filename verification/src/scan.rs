//! One worker's pass over one chunk, as a single step: realign the window
//! to record boundaries, parse the whole records inside it, and fold them
//! into the worker's local aggregate map.

use vstd::prelude::*;
use crate::aggregate::{AggMap, agg_run};
use crate::chunk::{align_chunk, win_align};
use crate::error::ScanError;
use crate::records::{chunk_records, parse_chunk};
use crate::stats::GStats;

verus! {

/// What one pass over a window leaves in a local map that held `m0`: the
/// alignment outcome, then the parse outcome of the aligned range, then
/// the machine fold of its records.
pub open spec fn window_outcome(
    w: Seq<u8>,
    margin: int,
    at_file_start: bool,
    m0: Map<Seq<u8>, GStats>,
) -> Result<Map<Seq<u8>, GStats>, ScanError> {
    match win_align(w, margin, at_file_start) {
        None => Err(ScanError::Alignment),
        Some((a, b)) => match chunk_records(w.subrange(a, b)) {
            Err(e) => Err(e),
            Ok(rs) => agg_run(m0, rs),
        },
    }
}

/// Scans one window: the records of the realigned chunk inside it are
/// folded into the worker's local map. On any refusal the error says which
/// step refused; only a full counter can leave part of the chunk absorbed,
/// the other refusals leave the map untouched.
pub fn process_window(
    w: &Vec<u8>,
    margin: usize,
    at_file_start: bool,
    local: &mut AggMap,
) -> (r: Result<(), ScanError>)
    requires
        margin <= w@.len(),
        old(local).wf(),
    ensures
        final(local).wf(),
        match r {
            Ok(()) => window_outcome(w@, margin as int, at_file_start, old(local)@) == Ok::<
                Map<Seq<u8>, GStats>,
                ScanError,
            >(final(local)@),
            Err(e) => {
                &&& window_outcome(w@, margin as int, at_file_start, old(local)@) == Err::<
                    Map<Seq<u8>, GStats>,
                    ScanError,
                >(e)
                &&& (e != ScanError::CountOverflow ==> final(local)@ == old(local)@)
            },
        },
{
    let (a, b) = match align_chunk(w, margin, at_file_start) {
        Ok(r) => r,
        Err(e) => {
            return Err(e);
        },
    };
    let recs = match parse_chunk(w, a, b) {
        Ok(recs) => recs,
        Err(e) => {
            return Err(e);
        },
    };
    match local.observe_all(&recs) {
        Ok(()) => Ok(()),
        Err(e) => {
            proof {
                crate::aggregate::lemma_agg_run_err(
                    old(local)@,
                    crate::records::rec_views(recs@),
                );
            }
            Err(e)
        },
    }
}

} // verus!
