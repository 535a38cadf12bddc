//! Per-key aggregation. An `AggMap` maps owned key bytes to running
//! `Stats`; a worker holds a private one and feeds it record by record, and
//! the shared global one absorbs each worker's map once, at the end of that
//! worker's run. Both are the same structure: a vector of entries with
//! pairwise distinct keys, seen in contracts as a `Map` from key bytes to
//! the mathematical statistics of the values observed for that key.

use vstd::prelude::*;
use crate::error::ScanError;
use crate::records::Record;
use crate::stats::{GStats, Stats, gstats_add, gstats_merge, gstats_one};

verus! {

/// One more observation folded into an aggregate map.
pub open spec fn observe_map(m: Map<Seq<u8>, GStats>, k: Seq<u8>, v: int) -> Map<Seq<u8>, GStats> {
    if m.dom().contains(k) {
        m.insert(k, gstats_add(m[k], v))
    } else {
        m.insert(k, gstats_one(v))
    }
}

/// A record sequence folded into an aggregate map, first record first.
pub open spec fn agg_fold(m: Map<Seq<u8>, GStats>, rs: Seq<(Seq<u8>, int)>) -> Map<
    Seq<u8>,
    GStats,
>
    decreases rs.len(),
{
    if rs.len() == 0 {
        m
    } else {
        agg_fold(observe_map(m, rs[0].0, rs[0].1), rs.drop_first())
    }
}

/// The aggregate map of a record sequence.
pub open spec fn agg_of(rs: Seq<(Seq<u8>, int)>) -> Map<Seq<u8>, GStats> {
    agg_fold(Map::empty(), rs)
}

/// A record sequence folded into an aggregate map as the machine runs it:
/// refused at the first record whose key's counter is already full.
pub open spec fn agg_run(m: Map<Seq<u8>, GStats>, rs: Seq<(Seq<u8>, int)>) -> Result<
    Map<Seq<u8>, GStats>,
    crate::error::ScanError,
>
    decreases rs.len(),
{
    if rs.len() == 0 {
        Ok(m)
    } else if m.dom().contains(rs[0].0) && m[rs[0].0].count == u64::MAX as int {
        Err(ScanError::CountOverflow)
    } else {
        agg_run(observe_map(m, rs[0].0, rs[0].1), rs.drop_first())
    }
}

/// When the machine fold is not refused, it is the mathematical fold.
pub proof fn lemma_agg_run_ok(m: Map<Seq<u8>, GStats>, rs: Seq<(Seq<u8>, int)>)
    requires
        agg_run(m, rs) is Ok,
    ensures
        agg_run(m, rs) == Ok::<Map<Seq<u8>, GStats>, ScanError>(agg_fold(m, rs)),
    decreases rs.len(),
{
    if rs.len() != 0 {
        lemma_agg_run_ok(observe_map(m, rs[0].0, rs[0].1), rs.drop_first());
    }
}

/// The machine fold is refused only for a full counter.
pub proof fn lemma_agg_run_err(m: Map<Seq<u8>, GStats>, rs: Seq<(Seq<u8>, int)>)
    requires
        agg_run(m, rs) is Err,
    ensures
        agg_run(m, rs) == Err::<Map<Seq<u8>, GStats>, ScanError>(ScanError::CountOverflow),
    decreases rs.len(),
{
    if rs.len() != 0 && !(m.dom().contains(rs[0].0) && m[rs[0].0].count == u64::MAX as int) {
        lemma_agg_run_err(observe_map(m, rs[0].0, rs[0].1), rs.drop_first());
    }
}

/// Folding one more record is one more observation.
pub proof fn lemma_agg_fold_push(m: Map<Seq<u8>, GStats>, rs: Seq<(Seq<u8>, int)>, r: (Seq<u8>, int))
    ensures
        agg_fold(m, rs.push(r)) == observe_map(agg_fold(m, rs), r.0, r.1),
    decreases rs.len(),
{
    if rs.len() == 0 {
        let e = Seq::<(Seq<u8>, int)>::empty();
        assert(rs.push(r)[0] == r);
        assert(rs.push(r).drop_first() =~= e);
        assert(agg_fold(m, rs.push(r)) == agg_fold(observe_map(m, r.0, r.1), e));
        assert(agg_fold(observe_map(m, r.0, r.1), e) == observe_map(m, r.0, r.1));
        assert(agg_fold(m, rs) == m);
    } else {
        assert(rs.push(r)[0] == rs[0]);
        assert(rs.push(r).drop_first() =~= rs.drop_first().push(r));
        lemma_agg_fold_push(observe_map(m, rs[0].0, rs[0].1), rs.drop_first(), r);
    }
}

/// Two aggregate maps merged: keys of either side, statistics combined
/// where a key is on both.
pub open spec fn map_merge(a: Map<Seq<u8>, GStats>, b: Map<Seq<u8>, GStats>) -> Map<
    Seq<u8>,
    GStats,
> {
    Map::new(
        |k: Seq<u8>| a.dom().contains(k) || b.dom().contains(k),
        |k: Seq<u8>|
            if a.dom().contains(k) && b.dom().contains(k) {
                gstats_merge(a[k], b[k])
            } else if b.dom().contains(k) {
                b[k]
            } else {
                a[k]
            },
    )
}

/// Whether every key on both sides still has room in its counter: the one
/// machine limit a merge can hit.
pub open spec fn counts_fit(a: Map<Seq<u8>, GStats>, b: Map<Seq<u8>, GStats>) -> bool {
    forall|k: Seq<u8>|
        a.dom().contains(k) && b.dom().contains(k) ==> (#[trigger] a[k]).count + b[k].count
            <= u64::MAX as int
}

/// One key with its running statistics.
#[derive(Debug)]
pub struct AggEntry {
    pub key: Vec<u8>,
    pub stats: Stats,
}

/// The aggregate map that the entries spell out, last entry winning —
/// though entries with equal keys never arise.
pub open spec fn map_of(s: Seq<AggEntry>) -> Map<Seq<u8>, GStats>
    decreases s.len(),
{
    if s.len() == 0 {
        Map::empty()
    } else {
        map_of(s.drop_last()).insert(s.last().key@, s.last().stats@)
    }
}

/// Pairwise distinct keys, each entry's statistics well formed.
pub open spec fn entries_wf(s: Seq<AggEntry>) -> bool {
    &&& forall|i: int, j: int| 0 <= i < j < s.len() ==> s[i].key@ != s[j].key@
    &&& forall|i: int| 0 <= i < s.len() ==> (#[trigger] s[i]).stats.wf()
}

/// Each entry is in the spelled-out map with its own statistics, and the
/// map holds no key beyond the entries' keys.
pub proof fn lemma_map_of_entries(s: Seq<AggEntry>)
    requires
        entries_wf(s),
    ensures
        forall|i: int|
            0 <= i < s.len() ==> map_of(s).dom().contains((#[trigger] s[i]).key@)
                && map_of(s)[s[i].key@] == s[i].stats@,
        forall|k: Seq<u8>|
            map_of(s).dom().contains(k) ==> exists|i: int|
                0 <= i < s.len() && (#[trigger] s[i]).key@ == k,
    decreases s.len(),
{
    if s.len() > 0 {
        let s0 = s.drop_last();
        assert(entries_wf(s0)) by {
            assert(forall|i: int| 0 <= i < s0.len() ==> s0[i] == s[i]);
        }
        lemma_map_of_entries(s0);
        assert(forall|i: int| 0 <= i < s.len() - 1 ==> s0[i] == s[i]);
        assert(forall|i: int|
            0 <= i < s.len() - 1 ==> (#[trigger] s[i]).key@ != s[s.len() - 1].key@);
        assert forall|k: Seq<u8>| map_of(s).dom().contains(k) implies exists|i: int|
            0 <= i < s.len() && (#[trigger] s[i]).key@ == k by {
            if k == s.last().key@ {
                assert(s[s.len() - 1].key@ == k);
            } else {
                assert(map_of(s0).dom().contains(k));
                let i = choose|i: int| 0 <= i < s0.len() && (#[trigger] s0[i]).key@ == k;
                assert(s[i].key@ == k);
            }
        }
    }
}

/// Replacing one entry's statistics updates the spelled-out map at that
/// entry's key alone.
pub proof fn lemma_map_of_update(s: Seq<AggEntry>, i: int, e: AggEntry)
    requires
        entries_wf(s),
        0 <= i < s.len(),
        e.key@ == s[i].key@,
    ensures
        map_of(s.update(i, e)) == map_of(s).insert(e.key@, e.stats@),
    decreases s.len(),
{
    let su = s.update(i, e);
    if i == s.len() - 1 {
        assert(su.drop_last() =~= s.drop_last());
        assert(su.last() == e);
        assert(map_of(s).insert(e.key@, e.stats@) =~= map_of(s.drop_last()).insert(
            e.key@,
            e.stats@,
        ));
    } else {
        let s0 = s.drop_last();
        assert(entries_wf(s0)) by {
            assert(forall|j: int| 0 <= j < s0.len() ==> s0[j] == s[j]);
        }
        lemma_map_of_update(s0, i, e);
        assert(su.drop_last() =~= s0.update(i, e));
        assert(su.last() == s.last());
        assert(s.last().key@ != e.key@);
        assert(map_of(s0).insert(e.key@, e.stats@).insert(s.last().key@, s.last().stats@)
            =~= map_of(s0).insert(s.last().key@, s.last().stats@).insert(e.key@, e.stats@));
    }
}

/// Whether two byte vectors hold the same bytes.
fn bytes_eq(a: &Vec<u8>, b: &Vec<u8>) -> (r: bool)
    ensures
        r <==> a@ == b@,
{
    if a.len() != b.len() {
        return false;
    }
    let mut i: usize = 0;
    while i < a.len()
        invariant
            i <= a.len() == b.len(),
            forall|j: int| 0 <= j < i ==> a@[j] == b@[j],
        decreases a.len() - i,
    {
        if a[i] != b[i] {
            return false;
        }
        i = i + 1;
    }
    proof {
        assert(a@ =~= b@);
    }
    true
}

/// An owned copy of a byte vector.
fn clone_bytes(v: &Vec<u8>) -> (r: Vec<u8>)
    ensures
        r@ == v@,
{
    let mut r: Vec<u8> = Vec::new();
    let mut i: usize = 0;
    while i < v.len()
        invariant
            i <= v.len(),
            r@ == v@.subrange(0, i as int),
        decreases v.len() - i,
    {
        r.push(v[i]);
        proof {
            assert(v@.subrange(0, i as int + 1) =~= v@.subrange(0, i as int).push(v@[i as int]));
        }
        i = i + 1;
    }
    proof {
        assert(v@.subrange(0, v@.len() as int) =~= v@);
    }
    r
}

/// A mapping from key bytes to the running statistics of the values seen
/// for that key.
#[derive(Debug)]
pub struct AggMap {
    pub entries: Vec<AggEntry>,
}

impl View for AggMap {
    type V = Map<Seq<u8>, GStats>;

    open spec fn view(&self) -> Map<Seq<u8>, GStats> {
        map_of(self.entries@)
    }
}

impl AggMap {
    pub open spec fn wf(self) -> bool {
        entries_wf(self.entries@)
    }

    /// An empty aggregate map.
    pub fn new() -> (r: AggMap)
        ensures
            r.wf(),
            r@ == Map::<Seq<u8>, GStats>::empty(),
    {
        AggMap { entries: Vec::new() }
    }

    /// The position of a key's entry, if the key has been seen.
    fn find(&self, key: &Vec<u8>) -> (r: Option<usize>)
        ensures
            match r {
                Some(i) => i < self.entries@.len() && self.entries@[i as int].key@ == key@,
                None => forall|i: int|
                    0 <= i < self.entries@.len() ==> (#[trigger] self.entries@[i]).key@ != key@,
            },
    {
        let mut i: usize = 0;
        while i < self.entries.len()
            invariant
                i <= self.entries@.len(),
                forall|j: int| 0 <= j < i ==> (#[trigger] self.entries@[j]).key@ != key@,
            decreases self.entries@.len() - i,
        {
            if bytes_eq(&self.entries[i].key, key) {
                return Some(i);
            }
            i = i + 1;
        }
        None
    }

    /// One record folded in: the key's statistics start at the value or
    /// absorb it. Refused only when the key's counter is already full.
    pub fn observe(&mut self, key: Vec<u8>, v: i64) -> (r: Result<(), ScanError>)
        requires
            old(self).wf(),
        ensures
            final(self).wf(),
            match r {
                Ok(()) => {
                    &&& final(self)@ == observe_map(old(self)@, key@, v as int)
                    &&& !(old(self)@.dom().contains(key@) && old(self)@[key@].count
                        == u64::MAX as int)
                },
                Err(e) => {
                    &&& e == ScanError::CountOverflow
                    &&& final(self)@ == old(self)@
                    &&& old(self)@.dom().contains(key@)
                    &&& old(self)@[key@].count == u64::MAX as int
                },
            },
    {
        proof {
            lemma_map_of_entries(self.entries@);
        }
        match self.find(&key) {
            None => {
                let st = Stats::new(v);
                let ghost before = self.entries@;
                self.entries.push(AggEntry { key, stats: st });
                proof {
                    assert(self.entries@.drop_last() =~= before);
                    assert(entries_wf(self.entries@)) by {
                        assert(forall|i: int|
                            0 <= i < before.len() ==> self.entries@[i] == before[i]);
                    }
                    if old(self)@.dom().contains(key@) {
                        assert(false);
                    }
                }
                Ok(())
            },
            Some(i) => {
                if self.entries[i].stats.count == u64::MAX {
                    return Err(ScanError::CountOverflow);
                }
                let mut st = self.entries[i].stats;
                st.observe(v);
                let kc = clone_bytes(&key);
                let ghost before = self.entries@;
                let e = AggEntry { key: kc, stats: st };
                proof {
                    lemma_map_of_update(before, i as int, e);
                }
                self.entries[i] = e;
                proof {
                    assert(entries_wf(self.entries@)) by {
                        assert(forall|j: int|
                            0 <= j < before.len() && j != i ==> self.entries@[j] == before[j]);
                    }
                }
                Ok(())
            },
        }
    }

    /// Absorbs a worker-local aggregate map into this one: the merge of
    /// the two maps, key by key. Refused, and left unchanged, exactly when
    /// some key's counters no longer fit together.
    pub fn merge_in(&mut self, local: &AggMap) -> (r: Result<(), ScanError>)
        requires
            old(self).wf(),
            local.wf(),
        ensures
            final(self).wf(),
            match r {
                Ok(()) => {
                    &&& counts_fit(old(self)@, local@)
                    &&& final(self)@ == map_merge(old(self)@, local@)
                },
                Err(e) => {
                    &&& e == ScanError::CountOverflow
                    &&& final(self)@ == old(self)@
                    &&& !counts_fit(old(self)@, local@)
                },
            },
    {
        proof {
            lemma_map_of_entries(self.entries@);
            lemma_map_of_entries(local.entries@);
        }
        // First pass: no mutation until every counter is known to fit.
        let mut i: usize = 0;
        while i < local.entries.len()
            invariant
                old(self).wf(),
                local.wf(),
                *self == *old(self),
                i <= local.entries@.len(),
                forall|j: int|
                    0 <= j < i && old(self)@.dom().contains(
                        (#[trigger] local.entries@[j]).key@,
                    ) ==> old(self)@[local.entries@[j].key@].count + local.entries@[j].stats@.count
                        <= u64::MAX as int,
            decreases local.entries@.len() - i,
        {
            let le = &local.entries[i];
            proof {
                lemma_map_of_entries(self.entries@);
                lemma_map_of_entries(local.entries@);
            }
            match self.find(&le.key) {
                Some(x) => {
                    if self.entries[x].stats.count > u64::MAX - le.stats.count {
                        proof {
                            assert(!counts_fit(old(self)@, local@)) by {
                                assert(old(self)@[le.key@].count + local@[le.key@].count
                                    > u64::MAX as int);
                            }
                        }
                        return Err(ScanError::CountOverflow);
                    }
                },
                None => {},
            }
            i = i + 1;
        }
        proof {
            assert(counts_fit(old(self)@, local@)) by {
                assert(forall|k: Seq<u8>|
                    old(self)@.dom().contains(k) && local@.dom().contains(k)
                        ==> #[trigger] old(self)@[k].count + local@[k].count <= u64::MAX as int) by {
                    lemma_map_of_entries(local.entries@);
                }
            }
        }

        // Second pass: fold each local entry in.
        let mut i: usize = 0;
        while i < local.entries.len()
            invariant
                local.wf(),
                self.wf(),
                counts_fit(old(self)@, local@),
                i <= local.entries@.len(),
                self@ == map_merge(old(self)@, map_of(local.entries@.subrange(0, i as int))),
            decreases local.entries@.len() - i,
        {
            let ghost partial = map_of(local.entries@.subrange(0, i as int));
            proof {
                lemma_map_of_entries(self.entries@);
                lemma_map_of_entries(local.entries@);
                lemma_map_of_entries(local.entries@.subrange(0, i as int));
                // The key of entry i is new to the partial local map.
                assert(forall|j: int|
                    0 <= j < i ==> (#[trigger] local.entries@.subrange(0, i as int)[j]).key@
                        == local.entries@[j].key@);
                assert(local.entries@.subrange(0, i as int + 1) =~= local.entries@.subrange(
                    0,
                    i as int,
                ).push(local.entries@[i as int]));
            }
            let le = &local.entries[i];
            let ghost k = le.key@;
            proof {
                if partial.dom().contains(k) {
                    assert(false);
                }
                let pseq = local.entries@.subrange(0, i as int);
                let pseq1 = local.entries@.subrange(0, i as int + 1);
                assert(pseq1.drop_last() =~= pseq);
                assert(pseq1.last() == local.entries@[i as int]);
                assert(map_of(pseq1) == map_of(pseq).insert(k, le.stats@));
            }
            match self.find(&le.key) {
                Some(x) => {
                    proof {
                        assert(self@[k] == self.entries@[x as int].stats@);
                        assert(!partial.dom().contains(k));
                        assert(self@[k] == old(self)@[k]);
                        assert(old(self)@.dom().contains(k) && local@.dom().contains(k));
                        assert(local@[k] == le.stats@);
                    }
                    let st = self.entries[x].stats.merged(le.stats);
                    let kc = clone_bytes(&le.key);
                    let e = AggEntry { key: kc, stats: st };
                    let ghost before = self.entries@;
                    proof {
                        lemma_map_of_update(before, x as int, e);
                    }
                    self.entries[x] = e;
                    proof {
                        assert(entries_wf(self.entries@)) by {
                            assert(forall|j: int|
                                0 <= j < before.len() && j != x ==> self.entries@[j] == before[j]);
                        }
                        assert(self@ =~= map_merge(
                            old(self)@,
                            map_of(local.entries@.subrange(0, i as int + 1)),
                        ));
                    }
                },
                None => {
                    proof {
                        if self@.dom().contains(k) {
                            assert(false);
                        }
                    }
                    let kc = clone_bytes(&le.key);
                    let ghost before = self.entries@;
                    self.entries.push(AggEntry { key: kc, stats: le.stats });
                    proof {
                        assert(self.entries@.drop_last() =~= before);
                        assert(entries_wf(self.entries@)) by {
                            assert(forall|j: int|
                                0 <= j < before.len() ==> self.entries@[j] == before[j]);
                        }
                        assert(self@ =~= map_merge(
                            old(self)@,
                            map_of(local.entries@.subrange(0, i as int + 1)),
                        ));
                    }
                },
            }
            i = i + 1;
        }
        proof {
            assert(local.entries@.subrange(0, local.entries@.len() as int) =~= local.entries@);
        }
        Ok(())
    }

    /// One chunk's parsed records folded in, first to last. Refused, at
    /// the record where it happens, exactly when a key's counter fills up;
    /// what came before that record stays absorbed.
    pub fn observe_all(&mut self, recs: &Vec<Record>) -> (r: Result<(), ScanError>)
        requires
            old(self).wf(),
        ensures
            final(self).wf(),
            ({
                let rsv = crate::records::rec_views(recs@);
                match r {
                    Ok(()) => agg_run(old(self)@, rsv) == Ok::<Map<Seq<u8>, GStats>, ScanError>(
                        final(self)@,
                    ),
                    Err(e) => {
                        &&& agg_run(old(self)@, rsv) == Err::<Map<Seq<u8>, GStats>, ScanError>(e)
                        &&& exists|j: int|
                            0 <= j <= rsv.len() && final(self)@ == agg_fold(
                                old(self)@,
                                #[trigger] rsv.take(j),
                            )
                    },
                }
            }),
    {
        let ghost rsv = crate::records::rec_views(recs@);
        proof {
            assert(rsv.skip(0) =~= rsv);
            assert(rsv.take(0).len() == 0);
        }
        let mut i: usize = 0;
        while i < recs.len()
            invariant
                old(self).wf(),
                self.wf(),
                i <= recs@.len(),
                rsv == crate::records::rec_views(recs@),
                self@ == agg_fold(old(self)@, rsv.take(i as int)),
                ({
                    let rest = rsv.skip(i as int);
                    match agg_run(self@, rest) {
                        Ok(m) => agg_run(old(self)@, rsv) == Ok::<Map<Seq<u8>, GStats>, ScanError>(
                            m,
                        ),
                        Err(e) => agg_run(old(self)@, rsv) == Err::<
                            Map<Seq<u8>, GStats>,
                            ScanError,
                        >(e),
                    }
                }),
            decreases recs@.len() - i,
        {
            let ghost rest = rsv.skip(i as int);
            proof {
                assert(rest[0] == rsv[i as int]);
                assert(rest.drop_first() =~= rsv.skip(i as int + 1));
                assert(rsv.take(i as int + 1) =~= rsv.take(i as int).push(rsv[i as int]));
                lemma_agg_fold_push(old(self)@, rsv.take(i as int), rsv[i as int]);
            }
            let key = clone_bytes(&recs[i].key);
            let v = recs[i].value;
            proof {
                assert((key@, v as int) == rsv[i as int]);
            }
            match self.observe(key, v) {
                Ok(()) => {},
                Err(e) => {
                    proof {
                        assert(agg_run(self@, rest) == Err::<Map<Seq<u8>, GStats>, ScanError>(e));
                        assert(self@ == agg_fold(old(self)@, rsv.take(i as int)));
                    }
                    return Err(e);
                },
            }
            i = i + 1;
        }
        proof {
            assert(rsv.take(rsv.len() as int) =~= rsv);
            assert(rsv.skip(rsv.len() as int).len() == 0);
        }
        Ok(())
    }

    /// How many keys have been seen.
    pub fn len(&self) -> (r: usize)
        ensures
            r == self.entries@.len(),
    {
        self.entries.len()
    }
}

} // verus!
