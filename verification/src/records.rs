//! Record parsing. An aligned chunk is split on the record terminator into
//! fragments; empty fragments (a trailing terminator leaves one) are
//! dropped; each remaining fragment is split at its first separator byte
//! into key bytes and value bytes, and the value bytes are read as a
//! decimal literal — an optional sign, integer digits, and optionally a
//! dot with one fractional digit — into a fixed-point count of tenths.

use vstd::prelude::*;
use crate::chunk::TERMINATOR;
use crate::error::ScanError;

verus! {

/// The byte dividing a record's key from its value.
pub const SEPARATOR: u8 = 59;

/// The index of the first occurrence of `x` in `b` at or after `i`.
pub open spec fn find_byte(b: Seq<u8>, x: u8, i: int) -> Option<int>
    recommends
        0 <= i,
    decreases b.len() - i,
{
    if i < 0 || i >= b.len() {
        None
    } else if b[i] == x {
        Some(i)
    } else {
        find_byte(b, x, i + 1)
    }
}

/// What `find_byte` returns: the first occurrence, or none at all.
pub proof fn lemma_find_byte(b: Seq<u8>, x: u8, i: int)
    requires
        0 <= i <= b.len(),
    ensures
        match find_byte(b, x, i) {
            Some(j) => i <= j < b.len() && b[j] == x && (forall|k: int| i <= k < j ==> b[k] != x),
            None => forall|k: int| i <= k < b.len() ==> b[k] != x,
        },
    decreases b.len() - i,
{
    if i < b.len() && b[i] != x {
        lemma_find_byte(b, x, i + 1);
    }
}

/// The records of a byte range: the non-empty fragments between
/// terminators, in order. A fragment cut short by the end of the range
/// counts; empty fragments do not.
pub open spec fn records_of(b: Seq<u8>) -> Seq<Seq<u8>>
    decreases b.len(),
    via records_of_decreases
{
    match find_byte(b, TERMINATOR, 0) {
        None => if b.len() == 0 {
            Seq::empty()
        } else {
            seq![b]
        },
        Some(i) => (if i == 0 {
            Seq::empty()
        } else {
            seq![b.subrange(0, i)]
        }) + records_of(b.subrange(i + 1, b.len() as int)),
    }
}

#[via_fn]
proof fn records_of_decreases(b: Seq<u8>) {
    lemma_find_byte(b, TERMINATOR, 0);
}

pub open spec fn is_digit(b: u8) -> bool {
    48 <= b && b <= 57
}

pub open spec fn all_digits(s: Seq<u8>) -> bool {
    forall|k: int| 0 <= k < s.len() ==> is_digit(#[trigger] s[k])
}

/// The number written by a sequence of digit bytes, most significant
/// first.
pub open spec fn digits_val(s: Seq<u8>) -> int
    recommends
        all_digits(s),
    decreases s.len(),
{
    if s.len() == 0 {
        0
    } else {
        digits_val(s.drop_last()) * 10 + (s.last() - 48)
    }
}

pub proof fn lemma_digits_val_nonneg(s: Seq<u8>)
    requires
        all_digits(s),
    ensures
        digits_val(s) >= 0,
    decreases s.len(),
{
    if s.len() > 0 {
        assert(all_digits(s.drop_last())) by {
            assert(forall|k: int| 0 <= k < s.len() - 1 ==> s.drop_last()[k] == s[k]);
        }
        lemma_digits_val_nonneg(s.drop_last());
    }
}

/// The magnitude of an unsigned value text, in tenths: integer digits,
/// optionally followed by a dot and exactly one fractional digit.
pub open spec fn magnitude_of(s: Seq<u8>) -> Option<int> {
    match find_byte(s, 46, 0) {
        None => if s.len() >= 1 && all_digits(s) {
            Some(digits_val(s) * 10)
        } else {
            None
        },
        Some(i) => {
            let ip = s.subrange(0, i);
            let fp = s.subrange(i + 1, s.len() as int);
            if ip.len() >= 1 && all_digits(ip) && fp.len() == 1 && is_digit(fp[0]) {
                Some(digits_val(ip) * 10 + (fp[0] - 48))
            } else {
                None
            }
        },
    }
}

/// The fixed-point reading of a value text: an optional leading minus
/// sign, then a magnitude. `None` when the text is not of that form.
pub open spec fn value_of(s: Seq<u8>) -> Option<int> {
    if s.len() >= 1 && s[0] == 45 {
        match magnitude_of(s.subrange(1, s.len() as int)) {
            Some(m) => Some(-m),
            None => None,
        }
    } else {
        magnitude_of(s)
    }
}

/// The key/value reading of one record fragment: the bytes before the
/// first separator are the key, the bytes after it must read as a value
/// that fits the machine representation.
pub open spec fn parse_fragment(fr: Seq<u8>) -> Result<(Seq<u8>, int), ScanError> {
    match find_byte(fr, SEPARATOR, 0) {
        None => Err(ScanError::MissingSeparator),
        Some(i) => {
            let key = fr.subrange(0, i);
            match value_of(fr.subrange(i + 1, fr.len() as int)) {
                None => Err(ScanError::BadValue),
                Some(n) => if i64::MIN as int <= n <= i64::MAX as int {
                    Ok((key, n))
                } else {
                    Err(ScanError::ValueOutOfRange)
                },
            }
        },
    }
}

/// All fragments of a chunk parsed in order; the first refused fragment
/// decides the error.
pub open spec fn parse_fragments(frs: Seq<Seq<u8>>) -> Result<Seq<(Seq<u8>, int)>, ScanError>
    decreases frs.len(),
{
    if frs.len() == 0 {
        Ok(Seq::empty())
    } else {
        match parse_fragment(frs[0]) {
            Err(e) => Err(e),
            Ok(p) => match parse_fragments(frs.drop_first()) {
                Err(e) => Err(e),
                Ok(rest) => Ok(seq![p] + rest),
            },
        }
    }
}

/// The parsed records of an aligned byte range.
pub open spec fn chunk_records(b: Seq<u8>) -> Result<Seq<(Seq<u8>, int)>, ScanError> {
    parse_fragments(records_of(b))
}

/// Reads the value bytes `w[lo..hi)` as a fixed-point decimal literal.
/// Succeeds exactly on texts of the accepted form whose value fits the
/// machine word; tells a malformed text apart from one merely too large.
pub fn parse_value(w: &Vec<u8>, lo: usize, hi: usize) -> (r: Result<i64, ScanError>)
    requires
        lo <= hi <= w@.len(),
    ensures
        ({
            let s = w@.subrange(lo as int, hi as int);
            match r {
                Ok(v) => value_of(s) == Some(v as int),
                Err(e) => match value_of(s) {
                    None => e == ScanError::BadValue,
                    Some(n) => {
                        &&& e == ScanError::ValueOutOfRange
                        &&& !(i64::MIN as int <= n <= i64::MAX as int)
                    },
                },
            }
        }),
{
    let ghost s = w@.subrange(lo as int, hi as int);
    let mut pos: usize = lo;
    let neg: bool = pos < hi && *w.get(pos).unwrap() == 45;
    if neg {
        pos = pos + 1;
    }
    let ghost vstart = pos as int;
    let ghost sv = w@.subrange(vstart, hi as int);
    proof {
        if neg {
            assert(s.subrange(1, s.len() as int) =~= sv);
        } else {
            assert(s =~= sv);
        }
    }

    let ds: usize = pos;
    let mut acc: i128 = 0;
    while pos < hi && w[pos] >= 48 && w[pos] <= 57
        invariant
            lo <= ds <= pos <= hi <= w@.len(),
            ds == vstart,
            all_digits(w@.subrange(ds as int, pos as int)),
            0 <= acc <= 0x1_0000_0000_0000_0000i128,
            acc < 0x1_0000_0000_0000_0000i128 ==> acc as int == digits_val(
                w@.subrange(ds as int, pos as int),
            ),
            acc == 0x1_0000_0000_0000_0000i128 ==> digits_val(w@.subrange(ds as int, pos as int))
                >= 0x1_0000_0000_0000_0000,
        decreases hi - pos,
    {
        let d: u8 = w[pos] - 48;
        proof {
            let before = w@.subrange(ds as int, pos as int);
            let after = w@.subrange(ds as int, pos as int + 1);
            assert(after.drop_last() =~= before);
            assert(after.last() == w@[pos as int]);
            assert(all_digits(after)) by {
                assert(forall|k: int| 0 <= k < before.len() ==> after[k] == before[k]);
            }
            lemma_digits_val_nonneg(before);
        }
        if acc < 0x1_0000_0000_0000_0000i128 {
            acc = acc * 10 + (d as i128);
            if acc > 0x1_0000_0000_0000_0000i128 {
                acc = 0x1_0000_0000_0000_0000i128;
            }
        }
        pos = pos + 1;
    }
    let ghost digits = w@.subrange(ds as int, pos as int);

    if pos == ds {
        // No integer digits: not a value, whatever follows.
        proof {
            lemma_find_byte(sv, 46, 0);
            if sv.len() > 0 {
                assert(sv[0] == w@[ds as int]);
                match find_byte(sv, 46, 0) {
                    None => {
                        assert(!is_digit(sv[0]));
                    },
                    Some(i) => {
                        if i > 0 {
                            assert(!is_digit(sv.subrange(0, i)[0]));
                        }
                    },
                }
            }
        }
        return Err(ScanError::BadValue);
    }

    let m: i128;
    let ghost mspec: int;
    if pos == hi {
        // The whole text is integer digits.
        proof {
            assert(sv =~= digits);
            lemma_find_byte(sv, 46, 0);
            match find_byte(sv, 46, 0) {
                None => {},
                Some(j) => {
                    assert(is_digit(sv[j]));
                    assert(false);
                },
            }
            lemma_digits_val_nonneg(digits);
        }
        m = acc * 10;
        proof {
            mspec = digits_val(digits) * 10;
            assert(magnitude_of(sv) == Some(mspec));
        }
    } else if w[pos] == 46 {
        // A dot: exactly one fractional digit must follow.
        proof {
            lemma_find_byte(sv, 46, 0);
            let j0 = pos as int - vstart;
            assert(sv[j0] == 46);
            match find_byte(sv, 46, 0) {
                None => {
                    assert(false);
                },
                Some(j) => {
                    if j < j0 {
                        assert(is_digit(sv[j]));
                        assert(false);
                    }
                    if j > j0 {
                        assert(sv[j0] != 46);
                        assert(false);
                    }
                    assert(sv.subrange(0, j0) =~= digits);
                },
            }
        }
        if hi - pos != 2 {
            proof {
                let fp = sv.subrange(pos as int - vstart + 1, sv.len() as int);
                assert(fp.len() != 1);
            }
            return Err(ScanError::BadValue);
        }
        let fd: u8 = w[pos + 1];
        proof {
            let fp = sv.subrange(pos as int - vstart + 1, sv.len() as int);
            assert(fp.len() == 1);
            assert(fp[0] == w@[pos as int + 1]);
        }
        if !(fd >= 48 && fd <= 57) {
            return Err(ScanError::BadValue);
        }
        proof {
            lemma_digits_val_nonneg(digits);
        }
        m = acc * 10 + ((fd - 48) as i128);
        proof {
            mspec = digits_val(digits) * 10 + (fd - 48);
            assert(magnitude_of(sv) == Some(mspec));
        }
    } else {
        // A byte that is neither digit, dot nor end: not a value.
        proof {
            lemma_find_byte(sv, 46, 0);
            let j0 = pos as int - vstart;
            assert(sv[j0] == w@[pos as int]);
            match find_byte(sv, 46, 0) {
                None => {
                    assert(!is_digit(sv[j0]));
                },
                Some(j) => {
                    if j < j0 {
                        assert(is_digit(sv[j]));
                        assert(false);
                    }
                    assert(j > j0);
                    assert(!is_digit(sv.subrange(0, j)[j0]));
                },
            }
        }
        return Err(ScanError::BadValue);
    }

    // Here magnitude_of(sv) == Some(mspec); m is exact below the cap and
    // both are far out of range at or above it.
    proof {
        assert(acc < 0x1_0000_0000_0000_0000i128 ==> m as int == mspec);
        assert(acc == 0x1_0000_0000_0000_0000i128 ==> m as int >= 0xa0000000000000000 && mspec
            >= 0xa0000000000000000);
    }
    if neg {
        if m > 0x8000_0000_0000_0000i128 {
            return Err(ScanError::ValueOutOfRange);
        }
        Ok((-m) as i64)
    } else {
        if m > 0x7fff_ffff_ffff_ffffi128 {
            return Err(ScanError::ValueOutOfRange);
        }
        Ok(m as i64)
    }
}

/// One parsed record: owned key bytes and the fixed-point value in tenths.
#[derive(Debug)]
pub struct Record {
    pub key: Vec<u8>,
    pub value: i64,
}

impl View for Record {
    type V = (Seq<u8>, int);

    open spec fn view(&self) -> (Seq<u8>, int) {
        (self.key@, self.value as int)
    }
}

/// The mathematical reading of a sequence of parsed records.
pub open spec fn rec_views(recs: Seq<Record>) -> Seq<(Seq<u8>, int)> {
    recs.map_values(|rec: Record| rec@)
}

/// Splits the fragment `w[lo..hi)` at its first separator byte into an
/// owned key and a parsed value.
pub fn parse_record(w: &Vec<u8>, lo: usize, hi: usize) -> (r: Result<Record, ScanError>)
    requires
        lo <= hi <= w@.len(),
    ensures
        ({
            let fr = w@.subrange(lo as int, hi as int);
            match r {
                Ok(rec) => parse_fragment(fr) == Ok::<(Seq<u8>, int), ScanError>(rec@),
                Err(e) => parse_fragment(fr) == Err::<(Seq<u8>, int), ScanError>(e),
            }
        }),
{
    let ghost fr = w@.subrange(lo as int, hi as int);
    let mut m: usize = lo;
    while m < hi && w[m] != SEPARATOR
        invariant
            lo <= m <= hi <= w@.len(),
            forall|k: int| lo <= k < m ==> w@[k] != SEPARATOR,
        decreases hi - m,
    {
        m = m + 1;
    }
    proof {
        lemma_find_byte(fr, SEPARATOR, 0);
        if m == hi {
            match find_byte(fr, SEPARATOR, 0) {
                None => {},
                Some(j) => {
                    assert(fr[j] == w@[lo + j]);
                    assert(false);
                },
            }
        } else {
            assert(fr[m - lo] == w@[m as int]);
            match find_byte(fr, SEPARATOR, 0) {
                None => {
                    assert(false);
                },
                Some(j) => {
                    if j < m - lo {
                        assert(fr[j] == w@[lo + j]);
                        assert(false);
                    }
                    if j > m - lo {
                        assert(false);
                    }
                },
            }
        }
    }
    if m == hi {
        return Err(ScanError::MissingSeparator);
    }

    let mut key: Vec<u8> = Vec::new();
    let mut i: usize = lo;
    while i < m
        invariant
            lo <= i <= m <= hi <= w@.len(),
            key@ == w@.subrange(lo as int, i as int),
        decreases m - i,
    {
        let bi: u8 = w[i];
        key.push(bi);
        proof {
            assert(w@.subrange(lo as int, i as int + 1) =~= w@.subrange(
                lo as int,
                i as int,
            ).push(w@[i as int]));
        }
        i = i + 1;
    }

    proof {
        assert(fr.subrange(0, m - lo) =~= w@.subrange(lo as int, m as int));
        assert(fr.subrange(m - lo + 1, fr.len() as int) =~= w@.subrange(m as int + 1, hi as int));
    }
    match parse_value(w, m + 1, hi) {
        Ok(v) => Ok(Record { key, value: v }),
        Err(e) => Err(e),
    }
}

/// Parses every whole record of the aligned range `w[lo..hi)`: one
/// worker's pass over one chunk. Succeeds exactly when every fragment
/// parses, and then yields the records in file order.
pub fn parse_chunk(w: &Vec<u8>, lo: usize, hi: usize) -> (r: Result<Vec<Record>, ScanError>)
    requires
        lo <= hi <= w@.len(),
    ensures
        ({
            let b = w@.subrange(lo as int, hi as int);
            match r {
                Ok(recs) => chunk_records(b) == Ok::<Seq<(Seq<u8>, int)>, ScanError>(
                    rec_views(recs@),
                ),
                Err(e) => chunk_records(b) == Err::<Seq<(Seq<u8>, int)>, ScanError>(e),
            }
        }),
{
    let ghost b = w@.subrange(lo as int, hi as int);
    let mut out: Vec<Record> = Vec::new();
    let mut p: usize = lo;
    while p < hi
        invariant
            lo <= p <= hi <= w@.len(),
            b == w@.subrange(lo as int, hi as int),
            ({
                let rem = w@.subrange(p as int, hi as int);
                match parse_fragments(records_of(rem)) {
                    Ok(rest) => parse_fragments(records_of(b)) == Ok::<
                        Seq<(Seq<u8>, int)>,
                        ScanError,
                    >(rec_views(out@) + rest),
                    Err(e) => parse_fragments(records_of(b)) == Err::<
                        Seq<(Seq<u8>, int)>,
                        ScanError,
                    >(e),
                }
            }),
        decreases hi - p,
    {
        let ghost rem = w@.subrange(p as int, hi as int);
        let mut q: usize = p;
        while q < hi && w[q] != TERMINATOR
            invariant
                p <= q <= hi <= w@.len(),
                forall|k: int| p <= k < q ==> w@[k] != TERMINATOR,
            decreases hi - q,
        {
            q = q + 1;
        }
        proof {
            lemma_find_byte(rem, TERMINATOR, 0);
            if q == hi {
                match find_byte(rem, TERMINATOR, 0) {
                    None => {},
                    Some(j) => {
                        assert(rem[j] == w@[p + j]);
                        assert(false);
                    },
                }
            } else {
                assert(rem[q - p] == w@[q as int]);
                match find_byte(rem, TERMINATOR, 0) {
                    None => {
                        assert(false);
                    },
                    Some(j) => {
                        if j < q - p {
                            assert(rem[j] == w@[p + j]);
                            assert(false);
                        }
                        if j > q - p {
                            assert(false);
                        }
                    },
                }
            }
        }
        if q == p {
            // An empty fragment: a terminator right away. Skip it.
            proof {
                assert(rem.subrange(1, rem.len() as int) =~= w@.subrange(p as int + 1, hi as int));
                assert(records_of(rem) =~= Seq::<Seq<u8>>::empty() + records_of(
                    w@.subrange(p as int + 1, hi as int),
                ));
                assert(Seq::<Seq<u8>>::empty() + records_of(w@.subrange(p as int + 1, hi as int))
                    =~= records_of(w@.subrange(p as int + 1, hi as int)));
            }
            p = p + 1;
        } else {
            let ghost frag = w@.subrange(p as int, q as int);
            let ghost pnext = if q < hi {
                q + 1
            } else {
                hi as int
            };
            let ghost remnext = w@.subrange(pnext, hi as int);
            proof {
                if q < hi {
                    assert(rem.subrange(0, q - p) =~= frag);
                    assert(rem.subrange(q - p + 1, rem.len() as int) =~= remnext);
                    assert(records_of(rem) == seq![frag] + records_of(remnext));
                } else {
                    assert(rem =~= frag);
                    assert(remnext.len() == 0);
                    assert(records_of(rem) == seq![frag]);
                    assert(seq![frag] =~= seq![frag] + records_of(remnext));
                }
                let frs = records_of(rem);
                assert(frs[0] == frag);
                assert(frs.drop_first() =~= records_of(remnext));
            }
            let rec = match parse_record(w, p, q) {
                Ok(rec) => rec,
                Err(e) => {
                    return Err(e);
                },
            };
            let ghost out_old = out@;
            out.push(rec);
            proof {
                assert(rec_views(out@) =~= rec_views(out_old).push(rec@));
                match parse_fragments(records_of(remnext)) {
                    Ok(rest) => {
                        assert(rec_views(out_old) + (seq![rec@] + rest) =~= rec_views(out@)
                            + rest);
                    },
                    Err(_) => {},
                }
            }
            p = if q < hi {
                q + 1
            } else {
                hi
            };
        }
    }
    proof {
        let rem = w@.subrange(p as int, hi as int);
        assert(rem.len() == 0);
        assert(rec_views(out@) + Seq::<(Seq<u8>, int)>::empty() =~= rec_views(out@));
    }
    Ok(out)
}

} // verus!
