//! What is counted and reported.

use vstd::prelude::*;
use crate::evaluation::{
    approves, gap_end, is_sorted, labelled_in, outweighs, percentile_place, word_end, words_from,
    Endings, Tally, Times,
};
use crate::index::build::leaf_size_of;
use crate::index::stats::{bump, QueryStats};
use crate::laws::stand::{lemma_byte_of, lemma_split};
use crate::references::{fraud_total, Reference};
use crate::report::{
    ended, fields_of, heavy_total, is_slowest, joined, leaves_of, lemma_ordered, lines, lower_count,
    ordered, percentile_of, primary_hits, rank_of, spread_of, sum_of, table_head, times_of, Rank,
    Row,
};
use crate::response::digits_of;
use crate::text::{word, word_at};

verus! {

/// A transaction is approved where less than six tenths of its five neighbours are fraudulent.
pub proof fn approval_goes_by_the_share(count: u8)
    ensures
        approves(count) <==> 10 * count < 6 * 5,
{
}

/// The counts of some answers, each given by whether it approved and whether it should have.
pub open spec fn tally_of(answers: Seq<(bool, bool)>) -> Tally
    decreases answers.len(),
{
    if answers.len() == 0 {
        Tally { tp: 0, tn: 0, fp: 0, fn_: 0 }
    } else {
        tally_of(answers.drop_last()).counted(answers.last().0, answers.last().1)
    }
}

/// How often an answer is among some.
pub open spec fn how_often(answers: Seq<(bool, bool)>, a: (bool, bool)) -> nat
    decreases answers.len(),
{
    if answers.len() == 0 {
        0
    } else {
        how_often(answers.drop_last(), a) + (if answers.last() == a {
            1nat
        } else {
            0nat
        })
    }
}

/// Right refusals, right approvals, wrong refusals and wrong approvals are counted apart, and all
/// answers are counted.
pub proof fn answers_are_tallied(answers: Seq<(bool, bool)>)
    requires
        answers.len() <= u64::MAX,
    ensures
        tally_of(answers).tp == how_often(answers, (false, false)),
        tally_of(answers).tn == how_often(answers, (true, true)),
        tally_of(answers).fp == how_often(answers, (false, true)),
        tally_of(answers).fn_ == how_often(answers, (true, false)),
        tally_of(answers).total() == answers.len(),
    decreases answers.len(),
{
    if answers.len() > 0 {
        answers_are_tallied(answers.drop_last());
    }
}

/// A search is counted by where it ended: in its own partition whatever else is noted, early, or
/// with everything seen.
pub proof fn searches_are_tallied(e: Endings, stats: QueryStats)
    requires
        e.total() < u64::MAX,
    ensures
        ({
            let f = e.counted(stats);
            &&& f.primary - e.primary == (if stats.primary_hit {
                1int
            } else {
                0
            })
            &&& f.early - e.early == (if !stats.primary_hit && stats.early_hit {
                1int
            } else {
                0
            })
            &&& f.full - e.full == (if !stats.primary_hit && !stats.early_hit {
                1int
            } else {
                0
            })
        }),
{
}

/// The shortest and the longest of some times.
pub open spec fn times_from(list: Seq<u64>) -> Times
    decreases list.len(),
{
    if list.len() == 0 {
        Times { min_ns: u64::MAX, max_ns: 0 }
    } else {
        times_from(list.drop_last()).widened(list.last())
    }
}

/// The shortest and the longest time bound all times and are among them.
pub proof fn times_are_bounds(list: Seq<u64>)
    ensures
        forall|k: int|
            0 <= k < list.len() ==> times_from(list).min_ns <= #[trigger] list[k] <= times_from(
                list,
            ).max_ns,
        list.len() > 0 ==> list.contains(times_from(list).min_ns) && list.contains(
            times_from(list).max_ns,
        ),
    decreases list.len(),
{
    if list.len() > 0 {
        let rest = list.drop_last();
        let n = list.len() - 1;
        times_are_bounds(rest);
        let t = times_from(rest);
        assert forall|k: int| 0 <= k < list.len() implies times_from(list).min_ns
            <= #[trigger] list[k] <= times_from(list).max_ns by {
            if k < n {
                assert(rest[k] == list[k]);
            }
        }
        assert(list[n] == list.last());
        if rest.len() > 0 {
            let i = choose|i: int| 0 <= i < rest.len() && rest[i] == t.min_ns;
            let j = choose|j: int| 0 <= j < rest.len() && rest[j] == t.max_ns;
            assert(list[i] == t.min_ns);
            assert(list[j] == t.max_ns);
        }
    }
}

/// Counters wrap around at 2 to the 32.
pub proof fn counters_wrap_around(n: u32)
    ensures
        bump(n) == (n + 1) % 0x1_0000_0000,
{
}

/// Leaf sizes from 8 to 1024 are taken as wanted; 256 is taken in place of any other.
pub proof fn leaf_sizes_are_reasonable(n: usize)
    ensures
        leaf_size_of(None) == 256,
        8 <= n <= 1024 ==> leaf_size_of(Some(n)) == n,
        n < 8 || n > 1024 ==> leaf_size_of(Some(n)) == 256,
{
}

/// A percentile stands where its share of the way to the last number ends: at the nearest place, and
/// of two at the later one.
pub proof fn percentiles_are_nearest(n: int, permille: int)
    requires
        n >= 1,
        0 <= permille <= 1000,
    ensures
        ({
            let place = percentile_place(n, permille);
            &&& 0 <= place < n
            &&& -500 < 1000 * place - permille * (n - 1) <= 500
        }),
        percentile_place(n, 0) == 0,
        percentile_place(n, 1000) == n - 1,
{
    let way = permille * (n - 1);
    assert(0 <= way <= 1000 * (n - 1)) by (nonlinear_arith)
        requires
            0 <= permille <= 1000,
            n >= 1,
            way == permille * (n - 1),
    ;
    assert(2 * permille * (n - 1) == 2 * way) by (nonlinear_arith)
        requires
            way == permille * (n - 1),
    ;
    assert(2 * 0 * (n - 1) == 0) by (nonlinear_arith);
    assert(2 * 1000 * (n - 1) == 2000 * (n - 1));
    assert((2000 * (n - 1) + 1000) / 2000 == n - 1);
}

/// Percentiles are among the numbers. The last is the greatest of them.
pub proof fn percentiles_are_numbers(s: Seq<u64>, permille: int)
    requires
        s.len() > 0,
        0 <= permille <= 1000,
    ensures
        s.contains(percentile_of(s, permille)),
        forall|k: int| 0 <= k < s.len() ==> #[trigger] s[k] <= percentile_of(s, 1000),
        forall|k: int| 0 <= k < s.len() ==> percentile_of(s, 0) <= #[trigger] s[k],
        percentile_of(s, 0) <= percentile_of(s, permille) <= percentile_of(s, 1000),
{
    let n = s.len() as int;
    percentiles_are_nearest(n, permille);
    percentiles_are_nearest(n, 0);
    percentiles_are_nearest(n, 1000);
    let t = ordered(s);
    let leq = |a: u64, b: u64| a <= b;
    assert(vstd::relations::total_ordering(leq));
    s.lemma_sort_by_ensures(leq);
    assert(is_sorted(t)) by {
        assert forall|i: int, j: int| 0 <= i <= j < t.len() implies t[i] <= t[j] by {
            if i < j {
                assert(leq(t[i], t[j]));
            }
        }
    }
    lemma_ordered(s, t);
    s.to_multiset_ensures();
    t.to_multiset_ensures();
    let v = t[percentile_place(n, permille)];
    assert(t.contains(v));
    assert(s.to_multiset().count(v) > 0);
    assert forall|k: int| 0 <= k < s.len() implies t[0] <= #[trigger] s[k] <= t[n - 1] by {
        assert(s.contains(s[k]));
        assert(t.to_multiset().count(s[k]) > 0);
        assert(t.contains(s[k]));
        let j = choose|j: int| 0 <= j < t.len() && t[j] == s[k];
        assert(t[0] <= t[j] <= t[n - 1]);
    }
}

/// Sums add up over numbers.
pub proof fn totals_add_up(a: Seq<u64>, b: Seq<u64>, x: u64)
    ensures
        sum_of(Seq::empty()) == 0,
        sum_of(seq![x]) == x,
        sum_of(a + b) == sum_of(a) + sum_of(b),
    decreases b.len(),
{
    let one = seq![x];
    assert(one.drop_last() =~= Seq::empty());
    assert(sum_of(one.drop_last()) == 0);
    if b.len() == 0 {
        assert(a + b =~= a);
    } else {
        totals_add_up(a, b.drop_last(), x);
        assert((a + b).drop_last() =~= a + b.drop_last());
    }
}

/// What is told of how numbers are spread.
pub proof fn spreads_read(s: Seq<u64>)
    requires
        s.len() <= usize::MAX,
        sum_of(s) <= u128::MAX,
        0 <= sum_of(s),
    ensures
        ({
            let x = spread_of(s);
            &&& x.count == s.len()
            &&& x.total == sum_of(s)
            &&& x.p50 == percentile_of(s, 500)
            &&& x.p90 == percentile_of(s, 900)
            &&& x.p99 == percentile_of(s, 990)
            &&& x.p999 == percentile_of(s, 999)
            &&& x.max == percentile_of(s, 1000)
        }),
        s.len() == 0 ==> spread_of(s).max == 0,
{
}

/// The slowest are listed with the greatest number first and of equal ones the first; none that is
/// left out is greater than one that is listed.
pub proof fn slowest_come_first(xs: Seq<u64>, top: int, list: Seq<usize>)
    requires
        is_slowest(xs, top, list),
        0 <= top,
    ensures
        list.len() <= top,
        list.len() == top || list.len() == xs.len(),
        forall|j: int, k: int|
            0 <= j < k < list.len() ==> xs[(#[trigger] list[j]) as int] >= xs[(
            #[trigger] list[k]) as int],
        forall|j: int, k: int|
            0 <= j < k < list.len() && xs[(#[trigger] list[j]) as int] == xs[(
            #[trigger] list[k]) as int] ==> list[j] < list[k],
        forall|i: int, k: int|
            0 <= i < xs.len() && 0 <= k < list.len() && !list.contains(i as usize) ==> #[trigger] xs[i]
                <= xs[(#[trigger] list[k]) as int],
{
    assert forall|i: int, k: int|
        0 <= i < xs.len() && 0 <= k < list.len() && !list.contains(
            i as usize,
        ) implies #[trigger] xs[i] <= xs[(#[trigger] list[k]) as int] by {
        assert(crate::report::slower(xs, list[k] as int, i));
    }
}

/// The rows that ended early, or did not, are those of all rows, in their order.
pub proof fn endings_are_sorted_out(rows: Seq<Row>, early: bool)
    ensures
        ended(rows, early) == rows.filter(|r: Row| r.work.early_hit == early),
        primary_hits(rows) == rows.filter(|r: Row| r.work.primary_hit).len(),
    decreases rows.len(),
{
    reveal(Seq::filter);
    if rows.len() > 0 {
        endings_are_sorted_out(rows.drop_last(), early);
    } else {
        assert(ended(rows, early) =~= rows.filter(|r: Row| r.work.early_hit == early));
    }
}

/// The numbers below a value are those that are smaller.
pub proof fn smaller_numbers_are_below(s: Seq<u64>, v: u64)
    ensures
        lower_count(s, v) == s.filter(|x: u64| x < v).len(),
        lower_count(s, v) <= s.len(),
    decreases s.len(),
{
    reveal(Seq::filter);
    if s.len() > 0 {
        smaller_numbers_are_below(s.drop_last(), v);
    }
}

/// The references that are counted are those with the label one.
pub proof fn frauds_are_counted(list: Seq<Reference>)
    ensures
        fraud_total(list) == list.filter(|r: Reference| r.label == 1).len(),
    decreases list.len(),
{
    reveal(Seq::filter);
    if list.len() > 0 {
        frauds_are_counted(list.drop_last());
    }
}

/// The heavy ones are counted.
pub proof fn heavy_ranks_are_counted(ranks: Seq<Rank>)
    ensures
        heavy_total(ranks) == ranks.filter(|r: Rank| r.heavy).len(),
    decreases ranks.len(),
{
    reveal(Seq::filter);
    if ranks.len() > 0 {
        heavy_ranks_are_counted(ranks.drop_last());
    }
}

/// A row is ranked by how many of a sample visited fewer leaves and took less time, and is heavy
/// where at least nine tenths of the sample visited fewer leaves.
pub proof fn rows_are_ranked(row: Row, base: Seq<Row>)
    requires
        base.len() <= usize::MAX,
    ensures
        ({
            let leaves = Seq::new(base.len(), |i: int| base[i].work.leaves as u64);
            let times = Seq::new(base.len(), |i: int| base[i].times.min_ns);
            let r = rank_of(row, base);
            &&& r.leaves_below == lower_count(leaves, row.work.leaves as u64)
            &&& r.times_below == lower_count(times, row.times.min_ns)
            &&& r.heavy <==> base.len() > 0 && 10 * r.leaves_below >= 9 * base.len()
            &&& r.heavy == outweighs(r.leaves_below as int, base.len() as int)
        }),
{
    let leaves = Seq::new(base.len(), |i: int| base[i].work.leaves as u64);
    let times = Seq::new(base.len(), |i: int| base[i].times.min_ns);
    assert(leaves =~= leaves_of(base));
    assert(times =~= times_of(base));
    smaller_numbers_are_below(leaves, row.work.leaves as u64);
    smaller_numbers_are_below(times, row.times.min_ns);
}

/// Fields are written with commas between them, and none before the first or behind the last.
pub proof fn fields_are_joined(a: Seq<u64>, b: Seq<u64>, x: u64)
    ensures
        joined(seq![x]) == digits_of(x as int),
        a.len() > 0 && b.len() > 0 ==> joined(a + b) == joined(a) + (seq![0x2cu8] + joined(b)),
    decreases b.len(),
{
    if a.len() > 0 && b.len() == 1 {
        assert((a + b).drop_last() =~= a);
        assert(joined(a + b) =~= joined(a) + (seq![0x2cu8] + joined(b)));
    } else if a.len() > 0 && b.len() > 1 {
        fields_are_joined(a, b.drop_last(), x);
        assert((a + b).drop_last() =~= a + b.drop_last());
        assert(joined(a + b) =~= joined(a) + (seq![0x2cu8] + joined(b)));
    }
}

/// The fields of a row of a table, in the order of its head.
pub proof fn rows_are_written(i: u64, row: Row)
    ensures
        ({
            let f = fields_of(i, row);
            &&& f.len() == 10
            &&& f[0] == i
            &&& f[1] == row.times.min_ns
            &&& f[2] == row.times.max_ns
            &&& f[3] == row.work.nodes
            &&& f[4] == row.work.leaves
            &&& f[5] == row.work.blocks
            &&& f[6] == row.work.partitions
            &&& f[7] == 1 <==> row.work.primary_hit
            &&& f[7] <= 1
            &&& f[8] == 1 <==> row.work.early_hit
            &&& f[8] <= 1
            &&& f[9] == row.count
        }),
{
}

/// A table has its head, and a line for each row, numbered from nothing on.
pub proof fn tables_grow_by_lines(rows: Seq<Row>, n: int)
    requires
        0 <= n < rows.len(),
        n <= u64::MAX,
    ensures
        table_head() == word("idx,min_ns,max_ns,nodes,leaves,blocks,parts,primary,early,count\n"),
        lines(rows, 0) == Seq::<u8>::empty(),
        lines(rows, n + 1) == lines(rows, n) + (joined(fields_of(n as u64, rows[n]))
            + seq![0x0au8]),
{
}

/// Rows become labelled requests just where each of them has a label; requests and labels keep their
/// places.
pub proof fn rows_are_labelled(rows: Seq<(Seq<u8>, Option<bool>)>)
    ensures
        labelled_in(rows) is Some <==> forall|k: int|
            0 <= k < rows.len() ==> (#[trigger] rows[k]).1 is Some,
        labelled_in(rows) matches Some(list) ==> list.len() == rows.len() && forall|k: int|
            0 <= k < rows.len() ==> (#[trigger] list[k]).0 == rows[k].0 && Some(list[k].1)
                == rows[k].1,
    decreases rows.len(),
{
    if rows.len() > 0 {
        let before = rows.drop_last();
        let n = rows.len() - 1;
        rows_are_labelled(before);
        if labelled_in(before) is Some && rows.last().1 is Some {
            assert forall|k: int| 0 <= k < rows.len() implies (#[trigger] rows[k]).1 is Some by {
                if k < n {
                    assert(before[k] == rows[k]);
                }
            }
            let list = labelled_in(rows)->Some_0;
            let first = labelled_in(before)->Some_0;
            assert forall|k: int| 0 <= k < rows.len() implies (#[trigger] list[k]).0 == rows[k].0
                && Some(list[k].1) == rows[k].1 by {
                if k < n {
                    assert(list[k] == first[k]);
                    assert(before[k] == rows[k]);
                }
            }
        } else if labelled_in(before) is None {
            let k = choose|k: int| 0 <= k < before.len() && (#[trigger] before[k]).1 is None;
            assert(rows[k].1 is None);
        } else {
            assert(rows[n].1 is None);
        }
    }
}

/// Whether a text is separators: commas, blanks, tabs and semicolons.
pub open spec fn is_between(s: Seq<u8>) -> bool {
    forall|k: int|
        0 <= k < s.len() ==> {
            let c = #[trigger] s[k];
            c == 0x2c || c == 0x20 || c == 0x09 || c == 0x3b
        }
}

/// Whether a text is a word: something without separators.
pub open spec fn is_word(w: Seq<u8>) -> bool {
    w.len() > 0 && forall|k: int|
        0 <= k < w.len() ==> {
            let c = #[trigger] w[k];
            c != 0x2c && c != 0x20 && c != 0x09 && c != 0x3b
        }
}

/// Words with separators before them, and what comes behind the last.
pub open spec fn line_text(gaps: Seq<Seq<u8>>, words: Seq<Seq<u8>>, rest: Seq<u8>) -> Seq<u8>
    decreases words.len(),
{
    if words.len() == 0 {
        rest
    } else {
        gaps[0] + (words[0] + line_text(gaps.skip(1), words.skip(1), rest))
    }
}

proof fn lemma_gap(b: Seq<u8>, i: int, g: Seq<u8>)
    requires
        0 <= i,
        word_at(b, i, g),
        is_between(g),
        i + g.len() < b.len() ==> is_word(seq![b[i + g.len()]]),
    ensures
        gap_end(b, i) == i + g.len(),
    decreases g.len(),
{
    if g.len() == 0 {
        if i < b.len() {
            let one = seq![b[i]];
            assert(one[0] == b[i]);
        }
    } else {
        lemma_byte_of(b, i, g, 0);
        let rest = g.skip(1);
        assert(g =~= seq![g[0]] + rest);
        lemma_split(b, i, seq![g[0]], rest);
        assert forall|k: int| 0 <= k < rest.len() implies {
            let c = #[trigger] rest[k];
            c == 0x2c || c == 0x20 || c == 0x09 || c == 0x3b
        } by {
            assert(rest[k] == g[k + 1]);
        }
        lemma_gap(b, i + 1, rest);
    }
}

proof fn lemma_word(b: Seq<u8>, i: int, w: Seq<u8>)
    requires
        0 <= i,
        word_at(b, i, w),
        w.len() > 0 ==> is_word(w),
        i + w.len() < b.len() ==> is_between(seq![b[i + w.len()]]),
    ensures
        word_end(b, i) == i + w.len(),
    decreases w.len(),
{
    if w.len() == 0 {
        if i < b.len() {
            let one = seq![b[i]];
            assert(one[0] == b[i]);
        }
    } else {
        lemma_byte_of(b, i, w, 0);
        let rest = w.skip(1);
        assert(w =~= seq![w[0]] + rest);
        lemma_split(b, i, seq![w[0]], rest);
        if rest.len() > 0 {
            assert forall|k: int| 0 <= k < rest.len() implies {
                let c = #[trigger] rest[k];
                c != 0x2c && c != 0x20 && c != 0x09 && c != 0x3b
            } by {
                assert(rest[k] == w[k + 1]);
            }
        }
        lemma_word(b, i + 1, rest);
    }
}

/// Whether words and what stands between them make a line: each word stands behind separators, of
/// which there may be none before the first, and what follows the last is nothing or begins with a
/// separator.
pub open spec fn is_line(gaps: Seq<Seq<u8>>, words: Seq<Seq<u8>>, rest: Seq<u8>) -> bool {
    &&& gaps.len() == words.len()
    &&& forall|k: int| 0 <= k < words.len() ==> is_word(#[trigger] words[k])
    &&& forall|k: int| 0 <= k < words.len() ==> is_between(#[trigger] gaps[k])
    &&& forall|k: int| 1 <= k < words.len() ==> (#[trigger] gaps[k]).len() > 0
    &&& rest.len() > 0 ==> is_between(seq![rest[0]])
}

/// The first word of a line is found, and a line is left.
proof fn lemma_first_word(
    b: Seq<u8>,
    i: int,
    gaps: Seq<Seq<u8>>,
    words: Seq<Seq<u8>>,
    rest: Seq<u8>,
)
    requires
        0 <= i,
        b.len() == i + line_text(gaps, words, rest).len(),
        word_at(b, i, line_text(gaps, words, rest)),
        is_line(gaps, words, rest),
        words.len() > 0,
    ensures
        ({
            let s = i + gaps[0].len();
            let e = s + words[0].len();
            &&& gap_end(b, i) == s
            &&& word_end(b, s) == e
            &&& i <= s < e <= b.len()
            &&& b.subrange(s, e) == words[0]
            &&& b.len() == e + line_text(gaps.skip(1), words.skip(1), rest).len()
            &&& word_at(b, e, line_text(gaps.skip(1), words.skip(1), rest))
            &&& is_line(gaps.skip(1), words.skip(1), rest)
        }),
{
    let (g, w) = (gaps[0], words[0]);
    let (gs, ws) = (gaps.skip(1), words.skip(1));
    let t = line_text(gs, ws, rest);
    lemma_split(b, i, g, w + t);
    let s = i + g.len();
    lemma_split(b, s, w, t);
    let e = s + w.len();
    assert(is_word(w) && is_between(g));
    lemma_byte_of(b, s, w, 0);
    assert(is_word(seq![b[s]])) by {
        let one = seq![b[s]];
        assert(one[0] == w[0]);
    }
    lemma_gap(b, i, g);
    if e < b.len() {
        assert(t.len() > 0);
        lemma_byte_of(b, e, t, 0);
        let one = seq![b[e]];
        assert(is_between(one)) by {
            if ws.len() > 0 {
                assert(gs[0] == gaps[1]);
                assert(gaps[1].len() > 0 && is_between(gaps[1]));
                assert(t[0] == gaps[1][0]);
                assert(one[0] == gaps[1][0]);
            } else {
                assert(t[0] == rest[0]);
                assert(one =~= seq![rest[0]]);
            }
        }
    }
    lemma_word(b, s, w);
    assert forall|k: int| 0 <= k < ws.len() implies is_word(#[trigger] ws[k]) by {
        assert(ws[k] == words[k + 1]);
    }
    assert forall|k: int| 0 <= k < ws.len() implies is_between(#[trigger] gs[k]) by {
        assert(gs[k] == gaps[k + 1]);
    }
    assert forall|k: int| 1 <= k < ws.len() implies (#[trigger] gs[k]).len() > 0 by {
        assert(gs[k] == gaps[k + 1]);
    }
}

/// The words of a line are found in their order, whatever follows the last one that is wanted.
pub proof fn words_are_found(
    b: Seq<u8>,
    i: int,
    gaps: Seq<Seq<u8>>,
    words: Seq<Seq<u8>>,
    rest: Seq<u8>,
)
    requires
        0 <= i,
        b.len() == i + line_text(gaps, words, rest).len(),
        word_at(b, i, line_text(gaps, words, rest)),
        is_line(gaps, words, rest),
    ensures
        words_from(b, i, words.len()) matches Some(places) && places.len() == words.len()
            && forall|k: int|
            0 <= k < words.len() ==> b.subrange((#[trigger] places[k]).0, places[k].1) == words[k],
    decreases words.len(),
{
    if words.len() > 0 {
        lemma_first_word(b, i, gaps, words, rest);
        let s = i + gaps[0].len();
        let e = s + words[0].len();
        let ws = words.skip(1);
        words_are_found(b, e, gaps.skip(1), ws, rest);
        let ps = words_from(b, e, ws.len())->Some_0;
        let all = seq![(s, e)] + ps;
        assert(words_from(b, i, words.len()) == Some(all));
        assert forall|k: int| 0 <= k < words.len() implies b.subrange(
            (#[trigger] all[k]).0,
            all[k].1,
        ) == words[k] by {
            if k > 0 {
                assert(all[k] == ps[k - 1]);
                assert(ws[k - 1] == words[k]);
            }
        }
    }
}

/// A line with fewer words than wanted is none.
pub proof fn missing_words_are_noticed(
    b: Seq<u8>,
    i: int,
    gaps: Seq<Seq<u8>>,
    words: Seq<Seq<u8>>,
    rest: Seq<u8>,
    n: nat,
)
    requires
        0 <= i,
        b.len() == i + line_text(gaps, words, rest).len(),
        word_at(b, i, line_text(gaps, words, rest)),
        is_line(gaps, words, rest),
        is_between(rest),
        n > words.len(),
    ensures
        words_from(b, i, n) is None,
    decreases words.len(),
{
    if words.len() > 0 {
        lemma_first_word(b, i, gaps, words, rest);
        let e = i + gaps[0].len() + words[0].len();
        missing_words_are_noticed(b, e, gaps.skip(1), words.skip(1), rest, (n - 1) as nat);
    } else {
        lemma_gap(b, i, rest);
    }
}

} // verus!
