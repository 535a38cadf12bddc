//! Running statistics for one key: count, sum, minimum and maximum of the
//! values observed for it. Values are fixed-point integers (see
//! `crate::records` for how a decimal literal becomes one), so every
//! aggregate here is exact and merging is commutative and associative.

use vstd::prelude::*;

verus! {

/// The mathematical statistics of a non-empty collection of values.
pub ghost struct GStats {
    pub count: int,
    pub sum: int,
    pub min: int,
    pub max: int,
}

pub open spec fn min_int(a: int, b: int) -> int {
    if a <= b {
        a
    } else {
        b
    }
}

pub open spec fn max_int(a: int, b: int) -> int {
    if a >= b {
        a
    } else {
        b
    }
}

/// The statistics of a single observation.
pub open spec fn gstats_one(v: int) -> GStats {
    GStats { count: 1, sum: v, min: v, max: v }
}

/// Entrywise combination of the statistics of two collections: the
/// statistics of their union.
pub open spec fn gstats_merge(a: GStats, b: GStats) -> GStats {
    GStats {
        count: a.count + b.count,
        sum: a.sum + b.sum,
        min: min_int(a.min, b.min),
        max: max_int(a.max, b.max),
    }
}

/// One more observation added to existing statistics.
pub open spec fn gstats_add(s: GStats, v: int) -> GStats {
    gstats_merge(s, gstats_one(v))
}

pub open spec fn seq_sum(vs: Seq<int>) -> int
    decreases vs.len(),
{
    if vs.len() == 0 {
        0
    } else {
        seq_sum(vs.drop_last()) + vs.last()
    }
}

pub open spec fn seq_min(vs: Seq<int>) -> int
    recommends
        vs.len() >= 1,
    decreases vs.len(),
{
    if vs.len() <= 1 {
        vs[0]
    } else {
        min_int(seq_min(vs.drop_last()), vs.last())
    }
}

pub open spec fn seq_max(vs: Seq<int>) -> int
    recommends
        vs.len() >= 1,
    decreases vs.len(),
{
    if vs.len() <= 1 {
        vs[0]
    } else {
        max_int(seq_max(vs.drop_last()), vs.last())
    }
}

/// The statistics of a non-empty sequence of values, stated directly:
/// the count is the length, the sum is the sum, and the extrema are the
/// least and greatest element.
pub open spec fn gstats_of(vs: Seq<int>) -> GStats
    recommends
        vs.len() >= 1,
{
    GStats { count: vs.len() as int, sum: seq_sum(vs), min: seq_min(vs), max: seq_max(vs) }
}

/// Merging statistics does not depend on the order of the two sides.
pub proof fn lemma_gstats_merge_commutative(a: GStats, b: GStats)
    ensures
        gstats_merge(a, b) == gstats_merge(b, a),
{
}

/// Merging statistics does not depend on grouping.
pub proof fn lemma_gstats_merge_associative(a: GStats, b: GStats, c: GStats)
    ensures
        gstats_merge(gstats_merge(a, b), c) == gstats_merge(a, gstats_merge(b, c)),
{
}

/// The statistics of a single value.
pub proof fn lemma_gstats_of_one(v: int)
    ensures
        gstats_of(seq![v]) == gstats_one(v),
{
    let vs = seq![v];
    assert(seq_sum(vs) == seq_sum(vs.drop_last()) + vs.last());
    assert(vs.drop_last().len() == 0);
}

/// Appending one observation to a non-empty collection.
pub proof fn lemma_gstats_of_push(vs: Seq<int>, v: int)
    requires
        vs.len() >= 1,
    ensures
        gstats_of(vs.push(v)) == gstats_add(gstats_of(vs), v),
{
    assert(vs.push(v).drop_last() =~= vs);
    assert(vs.push(v).last() == v);
}

/// The statistics of two collections side by side are the merge of their
/// statistics.
pub proof fn lemma_gstats_of_concat(xs: Seq<int>, ys: Seq<int>)
    requires
        xs.len() >= 1,
        ys.len() >= 1,
    ensures
        gstats_of(xs + ys) == gstats_merge(gstats_of(xs), gstats_of(ys)),
    decreases ys.len(),
{
    if ys.len() == 1 {
        assert(xs + ys =~= xs.push(ys[0]));
        lemma_gstats_of_push(xs, ys[0]);
        lemma_gstats_of_one(ys[0]);
        assert(gstats_of(seq![ys[0]]) == gstats_of(ys)) by {
            assert(seq![ys[0]] =~= ys);
        }
    } else {
        let ys0 = ys.drop_last();
        lemma_gstats_of_concat(xs, ys0);
        assert((xs + ys0).push(ys.last()) =~= xs + ys);
        lemma_gstats_of_push(xs + ys0, ys.last());
        lemma_gstats_of_push(ys0, ys.last());
        assert(ys0.push(ys.last()) =~= ys);
        lemma_gstats_merge_associative(gstats_of(xs), gstats_of(ys0), gstats_one(ys.last()));
    }
}

/// Exact running statistics for one key, as a worker carries them: the
/// count in a machine word, the sum widened enough that a full count of
/// extreme values still fits.
#[derive(Clone, Copy, Debug)]
pub struct Stats {
    pub count: u64,
    pub sum: i128,
    pub min: i64,
    pub max: i64,
}

impl View for Stats {
    type V = GStats;

    open spec fn view(&self) -> GStats {
        GStats { count: self.count as int, sum: self.sum as int, min: self.min as int, max: self.max as int }
    }
}

impl Stats {
    /// The representation invariant: at least one observation, ordered
    /// extrema, and a sum small enough that one more observation cannot
    /// overflow the wide accumulator.
    pub open spec fn wf(self) -> bool {
        &&& 1 <= self.count
        &&& self.min <= self.max
        &&& -(self.count as int) * 0x8000_0000_0000_0000 <= self.sum as int
        &&& self.sum as int <= (self.count as int) * 0x7fff_ffff_ffff_ffff
    }

    /// Statistics created from the first observation of a key.
    pub fn new(v: i64) -> (r: Stats)
        ensures
            r.wf(),
            r@ == gstats_one(v as int),
    {
        Stats { count: 1, sum: v as i128, min: v, max: v }
    }

    /// One further observation of the same key.
    pub fn observe(&mut self, v: i64)
        requires
            old(self).wf(),
            old(self).count < u64::MAX,
        ensures
            final(self).wf(),
            final(self)@ == gstats_add(old(self)@, v as int),
    {
        proof {
            assert(self.sum as int + v as int >= -((self.count + 1) as int) * 0x8000_0000_0000_0000);
            assert(self.sum as int + v as int <= ((self.count + 1) as int) * 0x7fff_ffff_ffff_ffff);
        }
        self.sum = self.sum + (v as i128);
        self.count = self.count + 1;
        if v < self.min {
            self.min = v;
        }
        if v > self.max {
            self.max = v;
        }
    }

    /// The combination of the statistics of two disjoint collections of
    /// observations of the same key.
    pub fn merged(self, other: Stats) -> (r: Stats)
        requires
            self.wf(),
            other.wf(),
            self.count as int + other.count as int <= u64::MAX as int,
        ensures
            r.wf(),
            r@ == gstats_merge(self@, other@),
    {
        proof {
            assert(self.sum as int + other.sum as int
                >= -((self.count + other.count) as int) * 0x8000_0000_0000_0000);
            assert(self.sum as int + other.sum as int
                <= ((self.count + other.count) as int) * 0x7fff_ffff_ffff_ffff);
        }
        Stats {
            count: self.count + other.count,
            sum: self.sum + other.sum,
            min: if self.min <= other.min {
                self.min
            } else {
                other.min
            },
            max: if self.max >= other.max {
                self.max
            } else {
                other.max
            },
        }
    }
}

} // verus!
