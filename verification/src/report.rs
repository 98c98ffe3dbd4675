//! Summing up what queries took.

use vstd::prelude::*;
use vstd::relations::{sorted_by, total_ordering};
use crate::evaluation::{count_below, is_heavy, is_sorted, percentile, percentile_place, Times};
use crate::index::stats::QueryStats;
use crate::response::{digits_of, push_decimal};
use crate::text::word;

verus! {

/// What a query took, and its count.
#[derive(Clone, Copy, Debug, PartialEq, Eq, Structural)]
pub struct Row {
    pub times: Times,
    pub work: QueryStats,
    pub count: u8,
}

/// Whether a pair comes no later than another: the first components decide, and then the second.
pub open spec fn pair_le(a: (u64, usize), b: (u64, usize)) -> bool {
    a.0 < b.0 || (a.0 == b.0 && a.1 <= b.1)
}

/// Sorts pairs as `slice::sort_unstable` does: the same pairs, none before a smaller one. Pairs are
/// ordered by their first components and, where these are equal, by their second ones.
#[verifier::external_body]
fn sort_pairs(v: &mut Vec<(u64, usize)>)
    ensures
        final(v)@.to_multiset() == old(v)@.to_multiset(),
        forall|i: int, j: int|
            0 <= i <= j < final(v)@.len() ==> pair_le(final(v)@[i], final(v)@[j]),
{
    v.sort_unstable();
}

/// The numbers in an order in which they do not fall.
pub open spec fn ordered(s: Seq<u64>) -> Seq<u64> {
    s.sort_by(|a: u64, b: u64| a <= b)
}

/// There is only one order in which numbers do not fall.
pub proof fn lemma_ordered(s: Seq<u64>, t: Seq<u64>)
    requires
        t.to_multiset() == s.to_multiset(),
        is_sorted(t),
    ensures
        t == ordered(s),
        t.len() == s.len(),
{
    let leq = |a: u64, b: u64| a <= b;
    assert(total_ordering(leq));
    s.lemma_sort_by_ensures(leq);
    assert(sorted_by(t, leq));
    vstd::seq_lib::lemma_sorted_unique(t, ordered(s), leq);
    s.to_multiset_ensures();
    t.to_multiset_ensures();
}

/// A percentile, given in thousandths, of some numbers.
pub open spec fn percentile_of(s: Seq<u64>, permille: int) -> u64 {
    if s.len() == 0 {
        0
    } else {
        ordered(s)[percentile_place(s.len() as int, permille)]
    }
}

/// The numbers with their places.
pub open spec fn numbered(s: Seq<u64>) -> Seq<(u64, usize)> {
    Seq::new(s.len(), |i: int| (s[i], i as usize))
}

/// The numbers of pairs.
pub open spec fn firsts(s: Seq<(u64, usize)>) -> Seq<u64> {
    s.map_values(|p: (u64, usize)| p.0)
}

/// Sorts numbers.
fn sorted_numbers(xs: &Vec<u64>) -> (r: Vec<u64>)
    ensures
        r@ == ordered(xs@),
        is_sorted(r@),
        r@.len() == xs@.len(),
        r@.to_multiset() == xs@.to_multiset(),
{
    let mut pairs: Vec<(u64, usize)> = Vec::new();
    let mut i: usize = 0;
    while i < xs.len()
        invariant
            i <= xs@.len(),
            pairs@ == numbered(xs@).take(i as int),
        decreases xs@.len() - i,
    {
        pairs.push((xs[i], i));
        assert(pairs@ =~= numbered(xs@).take(i + 1));
        i += 1;
    }
    assert(pairs@ =~= numbered(xs@));
    sort_pairs(&mut pairs);
    let ghost sorted = pairs@;
    proof {
        let g = |p: (u64, usize)| p.0;
        crate::index::build::grow::lemma_map_multiset(sorted, numbered(xs@), g);
        assert(firsts(numbered(xs@)) =~= xs@);
    }
    let mut out: Vec<u64> = Vec::new();
    let mut k: usize = 0;
    while k < pairs.len()
        invariant
            pairs@ == sorted,
            k <= sorted.len(),
            out@ == firsts(sorted).take(k as int),
        decreases sorted.len() - k,
    {
        out.push(pairs[k].0);
        assert(out@ =~= firsts(sorted).take(k + 1));
        k += 1;
    }
    assert(out@ =~= firsts(sorted));
    assert(is_sorted(out@)) by {
        assert forall|i: int, j: int| 0 <= i <= j < out@.len() implies out@[i] <= out@[j] by {
            assert(pair_le(sorted[i], sorted[j]));
        }
    }
    proof {
        lemma_ordered(xs@, out@);
    }
    out
}

/// The sum of some numbers.
pub open spec fn sum_of(s: Seq<u64>) -> int
    decreases s.len(),
{
    if s.len() == 0 {
        0
    } else {
        sum_of(s.drop_last()) + s.last()
    }
}

/// How numbers are spread.
#[derive(Clone, Copy, Debug, PartialEq, Eq, Structural)]
pub struct Spread {
    pub count: usize,
    pub total: u128,
    pub p50: u64,
    pub p90: u64,
    pub p99: u64,
    pub p999: u64,
    pub max: u64,
}

/// How numbers are spread.
pub open spec fn spread_of(s: Seq<u64>) -> Spread {
    Spread {
        count: s.len() as usize,
        total: sum_of(s) as u128,
        p50: percentile_of(s, 500),
        p90: percentile_of(s, 900),
        p99: percentile_of(s, 990),
        p999: percentile_of(s, 999),
        max: percentile_of(s, 1000),
    }
}

/// Finds how numbers are spread.
pub fn spread(xs: &Vec<u64>) -> (r: Spread)
    ensures
        r == spread_of(xs@),
        r.count == xs@.len(),
        r.total == sum_of(xs@),
{
    let sorted = sorted_numbers(xs);
    let mut total: u128 = 0;
    let mut i: usize = 0;
    while i < xs.len()
        invariant
            i <= xs@.len(),
            total == sum_of(xs@.take(i as int)),
            total <= i * u64::MAX,
        decreases xs@.len() - i,
    {
        assert(xs@.take(i + 1).drop_last() =~= xs@.take(i as int));
        assert(i * u64::MAX + u64::MAX == (i + 1) * u64::MAX) by (nonlinear_arith);
        assert((i + 1) * u64::MAX <= 0x1_0000_0000_0000_0000 * u64::MAX) by (nonlinear_arith)
            requires
                i + 1 <= 0x1_0000_0000_0000_0000,
        ;
        total = total + xs[i] as u128;
        i += 1;
    }
    assert(xs@.take(xs@.len() as int) =~= xs@);
    Spread {
        count: xs.len(),
        total,
        p50: percentile(sorted.as_slice(), 500),
        p90: percentile(sorted.as_slice(), 900),
        p99: percentile(sorted.as_slice(), 990),
        p999: percentile(sorted.as_slice(), 999),
        max: percentile(sorted.as_slice(), 1000),
    }
}

/// Whether number `i` comes before number `j` when the greatest come first, and of equal ones the
/// first.
pub open spec fn slower(xs: Seq<u64>, i: int, j: int) -> bool {
    xs[i] > xs[j] || (xs[i] == xs[j] && i < j)
}

/// Whether `list` names the `top` greatest numbers, the greatest first.
pub open spec fn is_slowest(xs: Seq<u64>, top: int, list: Seq<usize>) -> bool {
    &&& list.len() == (if top <= xs.len() {
        top
    } else {
        xs.len() as int
    })
    &&& forall|k: int| 0 <= k < list.len() ==> (#[trigger] list[k]) < xs.len()
    &&& forall|j: int, k: int|
        0 <= j < k < list.len() ==> slower(
            xs,
            #[trigger] list[j] as int,
            #[trigger] list[k] as int,
        )
    &&& forall|i: int, k: int|
        0 <= i < xs.len() && 0 <= k < list.len() && !list.contains(i as usize) ==> #[trigger] slower(
            xs,
            list[k] as int,
            i,
        )
}

/// Pairs that sort the greatest numbers to the front.
pub open spec fn inverted(s: Seq<u64>) -> Seq<(u64, usize)> {
    Seq::new(s.len(), |i: int| ((u64::MAX - s[i]) as u64, i as usize))
}

/// Finds the greatest numbers, the greatest first.
pub fn slowest(xs: &Vec<u64>, top: usize) -> (r: Vec<usize>)
    ensures
        is_slowest(xs@, top as int, r@),
{
    let mut pairs: Vec<(u64, usize)> = Vec::new();
    let mut i: usize = 0;
    while i < xs.len()
        invariant
            i <= xs@.len(),
            pairs@ == inverted(xs@).take(i as int),
        decreases xs@.len() - i,
    {
        pairs.push((u64::MAX - xs[i], i));
        assert(pairs@ =~= inverted(xs@).take(i + 1));
        i += 1;
    }
    let ghost all = inverted(xs@);
    assert(pairs@ =~= all);
    sort_pairs(&mut pairs);
    let ghost sorted = pairs@;
    let ghost n = xs@.len() as int;
    proof {
        all.to_multiset_ensures();
        sorted.to_multiset_ensures();
        assert(sorted.len() == n);
        assert(all.no_duplicates());
        all.lemma_multiset_has_no_duplicates();
        sorted.lemma_multiset_has_no_duplicates_conv();
        assert forall|k: int| 0 <= k < n implies (#[trigger] sorted[k]).1 < n && sorted[k].0
            == u64::MAX - xs@[sorted[k].1 as int] by {
            assert(sorted.contains(sorted[k]));
            assert(all.to_multiset().count(sorted[k]) > 0);
            assert(all.contains(sorted[k]));
        }
    }
    let mut out: Vec<usize> = Vec::new();
    let mut k: usize = 0;
    while k < pairs.len() && k < top
        invariant
            pairs@ == sorted,
            sorted.len() == n,
            k <= n,
            k <= top,
            out@.len() == k,
            forall|j: int| 0 <= j < k ==> #[trigger] out@[j] == sorted[j].1,
        decreases sorted.len() - k,
    {
        out.push(pairs[k].1);
        k += 1;
    }
    proof {
        assert forall|j: int, l: int| 0 <= j < l < n implies slower(
            xs@,
            (#[trigger] sorted[j]).1 as int,
            (#[trigger] sorted[l]).1 as int,
        ) by {
            assert(pair_le(sorted[j], sorted[l]));
            assert(sorted[j] != sorted[l]);
        }
        assert forall|j: int, l: int| 0 <= j < l < out@.len() implies slower(
            xs@,
            #[trigger] out@[j] as int,
            #[trigger] out@[l] as int,
        ) by {
            assert(out@[j] == sorted[j].1 && out@[l] == sorted[l].1);
        }
        assert forall|i: int, j: int|
            0 <= i < n && 0 <= j < out@.len() && !out@.contains(
                i as usize,
            ) implies #[trigger] slower(xs@, out@[j] as int, i) by {
            assert(all[i] == ((u64::MAX - xs@[i]) as u64, i as usize));
            assert(all.contains(all[i]));
            assert(sorted.to_multiset().count(all[i]) > 0);
            assert(sorted.contains(all[i]));
            let l = choose|l: int| 0 <= l < sorted.len() && sorted[l] == all[i];
            if l < out@.len() {
                assert(out@[l] == i);
            }
            assert(out@[j] == sorted[j].1);
            assert(j < l);
        }
    }
    out
}

/// The shortest times of rows.
pub open spec fn times_of(rows: Seq<Row>) -> Seq<u64> {
    rows.map_values(|r: Row| r.times.min_ns)
}

/// The leaves that rows visited.
pub open spec fn leaves_of(rows: Seq<Row>) -> Seq<u64> {
    rows.map_values(|r: Row| r.work.leaves as u64)
}

/// The rows whose searches ended early, or the others.
pub open spec fn ended(rows: Seq<Row>, early: bool) -> Seq<Row>
    decreases rows.len(),
{
    if rows.len() == 0 {
        Seq::empty()
    } else if rows.last().work.early_hit == early {
        ended(rows.drop_last(), early).push(rows.last())
    } else {
        ended(rows.drop_last(), early)
    }
}

/// How many searches were settled by the first partition.
pub open spec fn primary_hits(rows: Seq<Row>) -> nat
    decreases rows.len(),
{
    if rows.len() == 0 {
        0
    } else {
        primary_hits(rows.drop_last()) + (if rows.last().work.primary_hit {
            1nat
        } else {
            0nat
        })
    }
}

/// What rows add up to.
#[derive(Clone, Copy, Debug, PartialEq, Eq, Structural)]
pub struct Summary {
    pub time: Spread,
    pub leaves: Spread,
    pub primary: usize,
    pub early_time: Spread,
    pub late_time: Spread,
}

/// Sums rows up.
pub fn characterize(rows: &Vec<Row>) -> (r: Summary)
    ensures
        r.time == spread_of(times_of(rows@)),
        r.leaves == spread_of(leaves_of(rows@)),
        r.primary == primary_hits(rows@),
        r.early_time == spread_of(times_of(ended(rows@, true))),
        r.late_time == spread_of(times_of(ended(rows@, false))),
        r.early_time.count + r.late_time.count == rows@.len(),
{
    let mut times: Vec<u64> = Vec::new();
    let mut leaves: Vec<u64> = Vec::new();
    let mut early: Vec<u64> = Vec::new();
    let mut late: Vec<u64> = Vec::new();
    let mut primary: usize = 0;
    let mut k: usize = 0;
    assert(early@ =~= times_of(ended(rows@.take(0), true)));
    assert(late@ =~= times_of(ended(rows@.take(0), false)));
    while k < rows.len()
        invariant
            k <= rows@.len(),
            times@ == times_of(rows@).take(k as int),
            leaves@ == leaves_of(rows@).take(k as int),
            early@ == times_of(ended(rows@.take(k as int), true)),
            late@ == times_of(ended(rows@.take(k as int), false)),
            early@.len() + late@.len() == k,
            primary == primary_hits(rows@.take(k as int)),
            primary <= k,
        decreases rows@.len() - k,
    {
        let row: Row = rows[k];
        let ghost before = rows@.take(k as int);
        let ghost after = rows@.take(k + 1);
        assert(after.drop_last() =~= before);
        assert(after.last() == row);
        times.push(row.times.min_ns);
        leaves.push(row.work.leaves as u64);
        if row.work.early_hit {
            early.push(row.times.min_ns);
        } else {
            late.push(row.times.min_ns);
        }
        if row.work.primary_hit {
            primary += 1;
        }
        assert(times@ =~= times_of(rows@).take(k + 1));
        assert(leaves@ =~= leaves_of(rows@).take(k + 1));
        assert(early@ =~= times_of(ended(after, true)));
        assert(late@ =~= times_of(ended(after, false)));
        k += 1;
    }
    assert(rows@.take(rows@.len() as int) =~= rows@);
    assert(times@ =~= times_of(rows@));
    assert(leaves@ =~= leaves_of(rows@));
    Summary {
        time: spread(&times),
        leaves: spread(&leaves),
        primary,
        early_time: spread(&early),
        late_time: spread(&late),
    }
}

/// How many of some numbers are below a value.
pub open spec fn lower_count(s: Seq<u64>, v: u64) -> nat
    decreases s.len(),
{
    if s.len() == 0 {
        0
    } else {
        lower_count(s.drop_last(), v) + (if s.last() < v {
            1nat
        } else {
            0nat
        })
    }
}

/// Taking a number out takes it out of the count.
proof fn lemma_lower_remove(s: Seq<u64>, v: u64, i: int)
    requires
        0 <= i < s.len(),
    ensures
        lower_count(s, v) == lower_count(s.remove(i), v) + (if s[i] < v {
            1nat
        } else {
            0nat
        }),
    decreases s.len(),
{
    if i == s.len() - 1 {
        assert(s.remove(i) =~= s.drop_last());
    } else {
        assert(s.remove(i).drop_last() =~= s.drop_last().remove(i));
        assert(s.remove(i).last() == s.last());
        lemma_lower_remove(s.drop_last(), v, i);
    }
}

/// The order of numbers does not matter to the count.
proof fn lemma_lower_reordered(a: Seq<u64>, b: Seq<u64>, v: u64)
    requires
        a.to_multiset() == b.to_multiset(),
    ensures
        lower_count(a, v) == lower_count(b, v),
    decreases a.len(),
{
    a.to_multiset_ensures();
    b.to_multiset_ensures();
    assert(a.len() == a.to_multiset().len());
    assert(b.len() == b.to_multiset().len());
    if a.len() > 0 {
        let x = a.last();
        assert(a.contains(x));
        assert(b.to_multiset().count(x) > 0);
        assert(b.contains(x));
        let i = choose|i: int| 0 <= i < b.len() && b[i] == x;
        let ra = a.remove(a.len() - 1);
        let rb = b.remove(i);
        assert(ra.to_multiset() =~= rb.to_multiset());
        lemma_lower_reordered(ra, rb, v);
        lemma_lower_remove(a, v, a.len() - 1);
        lemma_lower_remove(b, v, i);
    }
}

/// Of numbers that do not fall, those below a value come first.
proof fn lemma_lower_sorted(s: Seq<u64>, v: u64, r: int, n: int)
    requires
        0 <= r <= s.len(),
        0 <= n <= s.len(),
        forall|i: int| 0 <= i < r ==> s[i] < v,
        forall|i: int| r <= i < s.len() ==> s[i] >= v,
    ensures
        lower_count(s.take(n), v) == (if n <= r {
            n
        } else {
            r
        }),
    decreases n,
{
    if n > 0 {
        lemma_lower_sorted(s, v, r, n - 1);
        assert(s.take(n).drop_last() =~= s.take(n - 1));
    }
}

/// Where a row stands in a sample: how many of the sample visited fewer leaves, how many took less
/// time, and whether it takes more work than nine tenths of them.
#[derive(Clone, Copy, Debug, PartialEq, Eq, Structural)]
pub struct Rank {
    pub leaves_below: usize,
    pub times_below: usize,
    pub heavy: bool,
}

/// Where a row stands in a sample.
pub open spec fn rank_of(row: Row, base: Seq<Row>) -> Rank {
    let below = lower_count(leaves_of(base), row.work.leaves as u64);
    Rank {
        leaves_below: below as usize,
        times_below: lower_count(times_of(base), row.times.min_ns) as usize,
        heavy: base.len() > 0 && 10 * below >= 9 * base.len(),
    }
}

/// Counts the numbers below a value; `sorted` holds them in order.
fn below_in(xs: &Vec<u64>, sorted: &Vec<u64>, v: u64) -> (r: usize)
    requires
        is_sorted(sorted@),
        sorted@.to_multiset() == xs@.to_multiset(),
    ensures
        r == lower_count(xs@, v),
        r <= sorted@.len(),
{
    let r = count_below(sorted.as_slice(), v);
    proof {
        lemma_lower_sorted(sorted@, v, r as int, sorted@.len() as int);
        assert(sorted@.take(sorted@.len() as int) =~= sorted@);
        lemma_lower_reordered(sorted@, xs@, v);
    }
    r
}

/// Finds where rows stand in a sample.
pub fn classify(suspects: &Vec<Row>, base: &Vec<Row>) -> (r: Vec<Rank>)
    ensures
        r@ == suspects@.map_values(|row: Row| rank_of(row, base@)),
{
    let mut times: Vec<u64> = Vec::new();
    let mut leaves: Vec<u64> = Vec::new();
    let mut k: usize = 0;
    while k < base.len()
        invariant
            k <= base@.len(),
            times@ == times_of(base@).take(k as int),
            leaves@ == leaves_of(base@).take(k as int),
        decreases base@.len() - k,
    {
        let row: Row = base[k];
        times.push(row.times.min_ns);
        leaves.push(row.work.leaves as u64);
        assert(times@ =~= times_of(base@).take(k + 1));
        assert(leaves@ =~= leaves_of(base@).take(k + 1));
        k += 1;
    }
    assert(times@ =~= times_of(base@));
    assert(leaves@ =~= leaves_of(base@));
    let sorted_times = sorted_numbers(&times);
    let sorted_leaves = sorted_numbers(&leaves);
    let ghost ranks = suspects@.map_values(|row: Row| rank_of(row, base@));
    let mut out: Vec<Rank> = Vec::new();
    let mut k: usize = 0;
    while k < suspects.len()
        invariant
            k <= suspects@.len(),
            ranks == suspects@.map_values(|row: Row| rank_of(row, base@)),
            times@ == times_of(base@),
            leaves@ == leaves_of(base@),
            is_sorted(sorted_times@),
            is_sorted(sorted_leaves@),
            sorted_times@.to_multiset() == times@.to_multiset(),
            sorted_leaves@.to_multiset() == leaves@.to_multiset(),
            out@ == ranks.take(k as int),
        decreases suspects@.len() - k,
    {
        let row: Row = suspects[k];
        let leaves_below = below_in(&leaves, &sorted_leaves, row.work.leaves as u64);
        let times_below = below_in(&times, &sorted_times, row.times.min_ns);
        let heavy = is_heavy(leaves_below, base.len());
        out.push(Rank { leaves_below, times_below, heavy });
        assert(out@ =~= ranks.take(k + 1));
        k += 1;
    }
    assert(ranks.take(ranks.len() as int) =~= ranks);
    out
}

/// How many ranks are heavy.
pub open spec fn heavy_total(ranks: Seq<Rank>) -> nat
    decreases ranks.len(),
{
    if ranks.len() == 0 {
        0
    } else {
        heavy_total(ranks.drop_last()) + (if ranks.last().heavy {
            1nat
        } else {
            0nat
        })
    }
}

/// Counts the heavy ranks.
pub fn count_heavy(ranks: &Vec<Rank>) -> (r: usize)
    ensures
        r == heavy_total(ranks@),
        r <= ranks@.len(),
{
    let mut n: usize = 0;
    let mut k: usize = 0;
    while k < ranks.len()
        invariant
            k <= ranks@.len(),
            n <= k,
            n == heavy_total(ranks@.take(k as int)),
        decreases ranks@.len() - k,
    {
        assert(ranks@.take(k + 1).drop_last() =~= ranks@.take(k as int));
        if ranks[k].heavy {
            n += 1;
        }
        k += 1;
    }
    assert(ranks@.take(ranks@.len() as int) =~= ranks@);
    n
}

/// Numbers in decimal digits, with commas between them.
pub open spec fn joined(fields: Seq<u64>) -> Seq<u8>
    decreases fields.len(),
{
    if fields.len() == 0 {
        Seq::empty()
    } else if fields.len() == 1 {
        digits_of(fields[0] as int)
    } else {
        joined(fields.drop_last()) + seq![0x2cu8] + digits_of(fields.last() as int)
    }
}

/// A truth value as a number.
pub open spec fn truth(b: bool) -> u64 {
    if b {
        1
    } else {
        0
    }
}

/// The fields of a row in a table.
pub open spec fn fields_of(i: u64, row: Row) -> Seq<u64> {
    seq![
        i,
        row.times.min_ns,
        row.times.max_ns,
        row.work.nodes as u64,
        row.work.leaves as u64,
        row.work.blocks as u64,
        row.work.partitions as u64,
        truth(row.work.primary_hit),
        truth(row.work.early_hit),
        row.count as u64,
    ]
}

/// The first line of a table of rows.
pub open spec fn table_head() -> Seq<u8> {
    word("idx,min_ns,max_ns,nodes,leaves,blocks,parts,primary,early,count\n")
}

fn truth_of(b: bool) -> (r: u64)
    ensures
        r == truth(b),
{
    if b {
        1
    } else {
        0
    }
}

/// Makes the line of a row in a table.
fn push_line(out: &mut Vec<u8>, i: u64, row: &Row)
    ensures
        final(out)@ == old(out)@ + joined(fields_of(i, *row)) + seq![0x0au8],
{
    let fields: [u64; 10] = [
        i,
        row.times.min_ns,
        row.times.max_ns,
        row.work.nodes as u64,
        row.work.leaves as u64,
        row.work.blocks as u64,
        row.work.partitions as u64,
        truth_of(row.work.primary_hit),
        truth_of(row.work.early_hit),
        row.count as u64,
    ];
    let ghost all = fields_of(i, *row);
    assert(fields@ =~= all);
    let ghost start = out@;
    let mut k: usize = 0;
    assert(out@ =~= start + joined(all.take(0)));
    while k < 10
        invariant
            k <= 10,
            all.len() == 10,
            fields@ == all,
            out@ == start + joined(all.take(k as int)),
        decreases 10 - k,
    {
        let ghost before = out@;
        if k > 0 {
            out.push(0x2c);
        }
        push_decimal(out, fields[k]);
        assert(all.take(k + 1).drop_last() =~= all.take(k as int));
        assert(out@ =~= start + joined(all.take(k + 1)));
        k += 1;
    }
    assert(all.take(10) =~= all);
    out.push(0x0a);
    assert(out@ =~= start + joined(all) + seq![0x0au8]);
}

/// The lines of the first `n` rows.
pub open spec fn lines(rows: Seq<Row>, n: int) -> Seq<u8>
    decreases n,
{
    if n <= 0 {
        Seq::empty()
    } else {
        lines(rows, n - 1) + (joined(fields_of((n - 1) as u64, rows[n - 1])) + seq![0x0au8])
    }
}

/// Writes rows as a table of comma-separated values.
pub fn table(rows: &Vec<Row>) -> (r: Vec<u8>)
    ensures
        r@ == table_head() + lines(rows@, rows@.len() as int),
{
    let mut out: Vec<u8> = Vec::new();
    out.extend_from_slice(
        "idx,min_ns,max_ns,nodes,leaves,blocks,parts,primary,early,count\n".as_bytes(),
    );
    assert(out@ =~= table_head() + lines(rows@, 0));
    let mut k: usize = 0;
    while k < rows.len()
        invariant
            k <= rows@.len(),
            out@ == table_head() + lines(rows@, k as int),
        decreases rows@.len() - k,
    {
        push_line(&mut out, k as u64, &rows[k]);
        assert(out@ =~= table_head() + lines(rows@, k + 1));
        k += 1;
    }
    out
}

} // verus!
