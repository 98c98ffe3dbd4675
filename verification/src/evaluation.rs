//! Measuring how well and how hard an index works.

use vstd::prelude::*;
use crate::index::stats::QueryStats;
use crate::references::places;
use crate::DIM;

verus! {

/// A request with the answer that is expected.
#[derive(Debug)]
pub struct Labelled {
    pub request: Vec<u8>,
    pub expected_approved: bool,
}

/// Why test data cannot be used.
#[derive(Clone, Copy, Debug, PartialEq, Eq, Structural)]
pub enum TestDataError {
    /// They are no JSON document with a list of entries.
    Entries,
    /// An entry does not say whether approval is expected.
    Expected,
}

/// What `serde_json` finds in a document: the rows of the list that is its member `list`; of each
/// row its member `text`, written as JSON, and its member `truth` where that is a truth value.
/// Nothing where the document is no JSON or the member is no list.
pub uninterp spec fn rows_in(
    document: Seq<u8>,
    list: Seq<char>,
    text: Seq<char>,
    truth: Seq<char>,
) -> Option<Seq<(Seq<u8>, Option<bool>)>>;

/// Rows as values.
pub open spec fn row_texts(rows: Seq<(Vec<u8>, Option<bool>)>) -> Seq<(Seq<u8>, Option<bool>)> {
    rows.map_values(|r: (Vec<u8>, Option<bool>)| (r.0@, r.1))
}

/// Takes a document apart with `serde_json::from_slice`, and writes members with
/// `serde_json::to_vec`. The contract claims that the outcome depends on the document and the names
/// alone.
#[verifier::external_body]
fn json_rows(document: &[u8], list: &str, text: &str, truth: &str) -> (r: Option<
    Vec<(Vec<u8>, Option<bool>)>,
>)
    ensures
        match r {
            Some(rows) => rows_in(document@, list@, text@, truth@) == Some(row_texts(rows@)),
            None => rows_in(document@, list@, text@, truth@) is None,
        },
{
    let value: serde_json::Value = serde_json::from_slice(document).ok()?;
    let rows = value[list].as_array()?;
    let mut out: Vec<(Vec<u8>, Option<bool>)> = Vec::new();
    for row in rows {
        out.push((serde_json::to_vec(&row[text]).ok()?, row[truth].as_bool()));
    }
    Some(out)
}

/// The labelled requests in rows, unless a row lacks its label.
pub open spec fn labelled_in(rows: Seq<(Seq<u8>, Option<bool>)>) -> Option<Seq<(Seq<u8>, bool)>>
    decreases rows.len(),
{
    if rows.len() == 0 {
        Some(Seq::empty())
    } else {
        match (labelled_in(rows.drop_last()), rows.last().1) {
            (Some(before), Some(expected)) => Some(before.push((rows.last().0, expected))),
            _ => None,
        }
    }
}

/// Labelled requests as values.
pub open spec fn labelled_texts(list: Seq<Labelled>) -> Seq<(Seq<u8>, bool)> {
    list.map_values(|l: Labelled| (l.request@, l.expected_approved))
}

proof fn lemma_labelled_prefix(rows: Seq<(Seq<u8>, Option<bool>)>, k: int)
    requires
        0 <= k <= rows.len(),
        labelled_in(rows.take(k)) is None,
    ensures
        labelled_in(rows) is None,
    decreases rows.len() - k,
{
    if k == rows.len() {
        assert(rows.take(k) =~= rows);
    } else {
        assert(rows.take(k + 1).drop_last() =~= rows.take(k));
        lemma_labelled_prefix(rows, k + 1);
    }
}

/// Makes labelled requests of rows.
pub fn label_rows(rows: Vec<(Vec<u8>, Option<bool>)>) -> (r: Result<Vec<Labelled>, TestDataError>)
    ensures
        match r {
            Ok(list) => labelled_in(row_texts(rows@)) == Some(labelled_texts(list@)),
            Err(e) => e == TestDataError::Expected && labelled_in(row_texts(rows@)) is None,
        },
{
    let ghost all = row_texts(rows@);
    let mut out: Vec<Labelled> = Vec::new();
    let mut k: usize = 0;
    assert(labelled_texts(out@) =~= Seq::empty());
    while k < rows.len()
        invariant
            k <= rows@.len(),
            all == row_texts(rows@),
            labelled_in(all.take(k as int)) == Some(labelled_texts(out@)),
        decreases rows@.len() - k,
    {
        proof {
            assert(all.take(k + 1).drop_last() =~= all.take(k as int));
            assert(all.take(k + 1).last() == (rows@[k as int].0@, rows@[k as int].1));
        }
        let row = &rows[k];
        let expected: bool = match row.1 {
            Some(b) => b,
            None => {
                proof {
                    lemma_labelled_prefix(all, k + 1);
                }
                return Err(TestDataError::Expected);
            },
        };
        let mut request: Vec<u8> = Vec::new();
        request.extend_from_slice(row.0.as_slice());
        assert(request@ =~= row.0@);
        let ghost before = labelled_texts(out@);
        out.push(Labelled { request, expected_approved: expected });
        assert(labelled_texts(out@) =~= before.push((row.0@, expected)));
        k += 1;
    }
    assert(all.take(all.len() as int) =~= all);
    Ok(out)
}

/// Reads the labelled requests of test data.
pub fn labelled_requests(document: &[u8]) -> (r: Result<Vec<Labelled>, TestDataError>)
    ensures
        match rows_in(document@, "entries"@, "request"@, "expected_approved"@) {
            None => r == Err::<Vec<Labelled>, _>(TestDataError::Entries),
            Some(rows) => match r {
                Ok(list) => labelled_in(rows) == Some(labelled_texts(list@)),
                Err(e) => e == TestDataError::Expected && labelled_in(rows) is None,
            },
        },
{
    match json_rows(document, "entries", "request", "expected_approved") {
        Some(rows) => label_rows(rows),
        None => Err(TestDataError::Entries),
    }
}

/// Whether a transaction with so many fraudulent neighbours of five is approved.
pub open spec fn approves(fraud_count: u8) -> bool {
    fraud_count < 3
}

/// Whether a transaction with so many fraudulent neighbours of five is approved.
pub fn is_approved(fraud_count: u8) -> (r: bool)
    ensures
        r == approves(fraud_count),
        r == (fraud_count < 3),
{
    fraud_count < 3
}

/// How often answers were right and wrong.
#[derive(Clone, Copy, Debug, PartialEq, Eq, Structural)]
pub struct Tally {
    /// Rightly refused.
    pub tp: u64,
    /// Rightly approved.
    pub tn: u64,
    /// Wrongly refused.
    pub fp: u64,
    /// Wrongly approved.
    pub fn_: u64,
}

impl Tally {
    /// All answers counted.
    pub open spec fn total(self) -> int {
        self.tp + self.tn + self.fp + self.fn_
    }

    /// The counts after one more answer.
    pub open spec fn counted(self, approved: bool, expected: bool) -> Tally {
        if approved {
            if expected {
                Tally { tn: (self.tn + 1) as u64, ..self }
            } else {
                Tally { fn_: (self.fn_ + 1) as u64, ..self }
            }
        } else if expected {
            Tally { fp: (self.fp + 1) as u64, ..self }
        } else {
            Tally { tp: (self.tp + 1) as u64, ..self }
        }
    }

    pub fn new() -> (t: Tally)
        ensures
            t == (Tally { tp: 0, tn: 0, fp: 0, fn_: 0 }),
    {
        Tally { tp: 0, tn: 0, fp: 0, fn_: 0 }
    }

    /// Counts an answer.
    pub fn record(&mut self, approved: bool, expected: bool)
        requires
            old(self).total() < u64::MAX,
        ensures
            *final(self) == old(self).counted(approved, expected),
            *final(self) == (if approved == expected {
                if approved {
                    Tally { tn: (old(self).tn + 1) as u64, ..*old(self) }
                } else {
                    Tally { tp: (old(self).tp + 1) as u64, ..*old(self) }
                }
            } else if approved {
                Tally { fn_: (old(self).fn_ + 1) as u64, ..*old(self) }
            } else {
                Tally { fp: (old(self).fp + 1) as u64, ..*old(self) }
            }),
            final(self).total() == old(self).total() + 1,
    {
        if approved == expected {
            if approved {
                self.tn = self.tn + 1;
            } else {
                self.tp = self.tp + 1;
            }
        } else if approved {
            self.fn_ = self.fn_ + 1;
        } else {
            self.fp = self.fp + 1;
        }
    }

    /// How many answers were wrong.
    pub fn failures(&self) -> (r: u64)
        requires
            self.total() <= u64::MAX,
        ensures
            r == self.fp + self.fn_,
    {
        self.fp + self.fn_
    }
}

/// How searches ended.
#[derive(Clone, Copy, Debug, PartialEq, Eq, Structural)]
pub struct Endings {
    /// In the query's own partition.
    pub primary: u64,
    /// Early, in another partition.
    pub early: u64,
    /// With everything seen.
    pub full: u64,
}

impl Endings {
    pub open spec fn total(self) -> int {
        self.primary + self.early + self.full
    }

    /// The counts after one more search.
    pub open spec fn counted(self, stats: QueryStats) -> Endings {
        if stats.primary_hit {
            Endings { primary: (self.primary + 1) as u64, ..self }
        } else if stats.early_hit {
            Endings { early: (self.early + 1) as u64, ..self }
        } else {
            Endings { full: (self.full + 1) as u64, ..self }
        }
    }

    pub fn new() -> (e: Endings)
        ensures
            e == (Endings { primary: 0, early: 0, full: 0 }),
    {
        Endings { primary: 0, early: 0, full: 0 }
    }

    /// Counts a search.
    pub fn record(&mut self, stats: &QueryStats)
        requires
            old(self).total() < u64::MAX,
        ensures
            *final(self) == old(self).counted(*stats),
            *final(self) == (if stats.primary_hit {
                Endings { primary: (old(self).primary + 1) as u64, ..*old(self) }
            } else if stats.early_hit {
                Endings { early: (old(self).early + 1) as u64, ..*old(self) }
            } else {
                Endings { full: (old(self).full + 1) as u64, ..*old(self) }
            }),
            final(self).total() == old(self).total() + 1,
    {
        if stats.primary_hit {
            self.primary = self.primary + 1;
        } else if stats.early_hit {
            self.early = self.early + 1;
        } else {
            self.full = self.full + 1;
        }
    }
}

/// Whether numbers do not fall.
pub open spec fn is_sorted(s: Seq<u64>) -> bool {
    forall|i: int, j: int| 0 <= i <= j < s.len() ==> s[i] <= s[j]
}

/// How many of the numbers, which do not fall, are below a value.
pub fn count_below(sorted: &[u64], v: u64) -> (r: usize)
    requires
        is_sorted(sorted@),
    ensures
        r <= sorted.len(),
        forall|i: int| 0 <= i < r ==> sorted@[i] < v,
        forall|i: int| r <= i < sorted.len() ==> sorted@[i] >= v,
{
    let mut lo: usize = 0;
    let mut hi: usize = sorted.len();
    while lo < hi
        invariant
            is_sorted(sorted@),
            lo <= hi <= sorted.len(),
            forall|i: int| 0 <= i < lo ==> sorted@[i] < v,
            forall|i: int| hi <= i < sorted.len() ==> sorted@[i] >= v,
        decreases hi - lo,
    {
        let mid: usize = lo + (hi - lo) / 2;
        if sorted[mid] < v {
            lo = mid + 1;
        } else {
            hi = mid;
        }
    }
    lo
}

/// The place of a percentile, given in thousandths, among `n` numbers: the nearest one, halves up.
pub open spec fn percentile_place(n: int, permille: int) -> int {
    (2 * permille * (n - 1) + 1000) / 2000
}

/// A percentile, given in thousandths, of numbers that do not fall.
pub fn percentile(sorted: &[u64], permille: u64) -> (r: u64)
    requires
        permille <= 1000,
    ensures
        sorted@.len() == 0 ==> r == 0,
        sorted@.len() > 0 ==> 0 <= percentile_place(sorted@.len() as int, permille as int)
            < sorted@.len() && r == sorted@[percentile_place(
            sorted@.len() as int,
            permille as int,
        )],
{
    if sorted.len() == 0 {
        return 0;
    }
    let last: u128 = (sorted.len() - 1) as u128;
    proof {
        assert(permille * last <= 1000 * last) by (nonlinear_arith)
            requires
                permille <= 1000,
        ;
        assert(permille * last >= 0) by (nonlinear_arith);
        assert(2 * permille * (sorted@.len() - 1) == 2 * (permille * last)) by (nonlinear_arith)
            requires
                last == sorted@.len() - 1,
        ;
    }
    let place: u128 = (2 * (permille as u128 * last) + 1000) / 2000;
    sorted[place as usize]
}

/// Whether a query takes more work than nine tenths of a sample.
pub open spec fn outweighs(below: int, sample: int) -> bool {
    sample > 0 && 10 * below >= 9 * sample
}

/// Whether a query takes more work than nine tenths of a sample.
pub fn is_heavy(below: usize, sample: usize) -> (r: bool)
    ensures
        r == outweighs(below as int, sample as int),
        r == (sample > 0 && 10 * below >= 9 * sample),
{
    sample > 0 && 10 * (below as u128) >= 9 * (sample as u128)
}

/// The shortest and the longest of some times.
#[derive(Clone, Copy, Debug, PartialEq, Eq, Structural)]
pub struct Times {
    pub min_ns: u64,
    pub max_ns: u64,
}

impl Times {
    /// The shortest and the longest after one more time.
    pub open spec fn widened(self, ns: u64) -> Times {
        Times {
            min_ns: if ns < self.min_ns {
                ns
            } else {
                self.min_ns
            },
            max_ns: if ns > self.max_ns {
                ns
            } else {
                self.max_ns
            },
        }
    }

    /// No time yet.
    pub fn new() -> (t: Times)
        ensures
            t == (Times { min_ns: u64::MAX, max_ns: 0 }),
    {
        Times { min_ns: u64::MAX, max_ns: 0 }
    }

    /// Takes in one more time.
    pub fn record(&mut self, ns: u64)
        ensures
            *final(self) == old(self).widened(ns),
            final(self).min_ns == (if ns < old(self).min_ns {
                ns
            } else {
                old(self).min_ns
            }),
            final(self).max_ns == (if ns > old(self).max_ns {
                ns
            } else {
                old(self).max_ns
            }),
    {
        if ns < self.min_ns {
            self.min_ns = ns;
        }
        if ns > self.max_ns {
            self.max_ns = ns;
        }
    }
}

/// Whether a byte separates the numbers of a line.
pub open spec fn splits_line(c: u8) -> bool {
    c == 0x2c || c == 0x20 || c == 0x09 || c == 0x3b
}

/// The end of separators from `i` on.
pub open spec fn gap_end(b: Seq<u8>, i: int) -> int
    decreases b.len() - i,
{
    if i < b.len() && splits_line(b[i]) {
        gap_end(b, i + 1)
    } else {
        i
    }
}

/// The end of a word from `i` on.
pub open spec fn word_end(b: Seq<u8>, i: int) -> int
    decreases b.len() - i,
{
    if i < b.len() && !splits_line(b[i]) {
        word_end(b, i + 1)
    } else {
        i
    }
}

/// The first `n` words of a line from `i` on, if there are so many.
pub open spec fn words_from(b: Seq<u8>, i: int, n: nat) -> Option<Seq<(int, int)>>
    decreases n,
{
    if n == 0 {
        Some(Seq::empty())
    } else {
        let s = gap_end(b, i);
        let e = word_end(b, s);
        if s >= b.len() {
            None
        } else {
            match words_from(b, e, (n - 1) as nat) {
                Some(rest) => Some(seq![(s, e)] + rest),
                None => None,
            }
        }
    }
}

/// Finds the numbers of a vector in a line: its first fourteen words.
pub fn split_vector(line: &[u8]) -> (r: Option<Vec<(usize, usize)>>)
    ensures
        match r {
            Some(list) => words_from(line@, 0, DIM as nat) == Some(places(list@)),
            None => words_from(line@, 0, DIM as nat) is None,
        },
{
    let ghost b = line@;
    let ghost goal = words_from(b, 0, DIM as nat);
    let mut out: Vec<(usize, usize)> = Vec::new();
    let mut i: usize = 0;
    assert(places(out@) =~= Seq::empty());
    proof {
        if let Some(rest) = goal {
            assert(Seq::<(int, int)>::empty() + rest =~= rest);
        }
    }
    while out.len() < DIM
        invariant
            b == line@,
            i <= line.len(),
            out@.len() <= DIM,
            goal == words_from(b, 0, DIM as nat),
            match words_from(b, i as int, (DIM - out@.len()) as nat) {
                Some(rest) => goal == Some(places(out@) + rest),
                None => goal is None,
            },
        decreases DIM - out@.len(),
    {
        let mut s: usize = i;
        while s < line.len() && (line[s] == 0x2c || line[s] == 0x20 || line[s] == 0x09 || line[s]
            == 0x3b)
            invariant
                i <= s <= line.len(),
                gap_end(line@, i as int) == gap_end(line@, s as int),
            decreases line.len() - s,
        {
            s += 1;
        }
        if s >= line.len() {
            return None;
        }
        let mut e: usize = s;
        while e < line.len() && !(line[e] == 0x2c || line[e] == 0x20 || line[e] == 0x09 || line[e]
            == 0x3b)
            invariant
                s <= e <= line.len(),
                word_end(line@, s as int) == word_end(line@, e as int),
            decreases line.len() - e,
        {
            e += 1;
        }
        let ghost before = places(out@);
        out.push((s, e));
        proof {
            assert(places(out@) =~= before.push((s as int, e as int)));
            if let Some(rest) = words_from(b, e as int, (DIM - out@.len()) as nat) {
                assert(before + (seq![(s as int, e as int)] + rest) =~= places(out@) + rest);
            }
        }
        i = e;
    }
    assert(places(out@) + Seq::<(int, int)>::empty() =~= places(out@));
    Some(out)
}

} // verus!
