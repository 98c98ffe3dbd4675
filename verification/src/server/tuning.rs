//! Small computations behind the settings of a server.

use vstd::prelude::*;
use crate::index::reader::{is_searchable, IndexReader};
use crate::index::search::fraud_result;
use crate::{SCALE, STORE_DIM};

verus! {

/// A time in microseconds as seconds and nanoseconds.
pub fn idle_timeout(idle_us: u64) -> (r: (u64, u64))
    ensures
        r.0 * 1_000_000 + r.1 / 1000 == idle_us,
        r.1 % 1000 == 0,
        r.1 < 1_000_000_000,
{
    (idle_us / 1_000_000, (idle_us % 1_000_000) * 1000)
}

/// How a server polls before it sleeps.
#[derive(Clone, Copy, Debug, PartialEq, Eq, Structural)]
pub struct BusyPoll {
    pub usecs: u32,
    pub budget: u16,
    pub prefer: u8,
}

/// The low bits of a number.
pub open spec fn low_bits(n: u32, modulus: int) -> int {
    n as int % modulus
}

/// How to poll, if at all.
pub open spec fn busy_poll_of(usecs: u32, prefer: u32, budget: u32) -> Option<BusyPoll> {
    if usecs == 0 && low_bits(prefer, 256) == 0 {
        None
    } else {
        Some(
            BusyPoll {
                usecs,
                budget: low_bits(budget, 65_536) as u16,
                prefer: low_bits(prefer, 256) as u8,
            },
        )
    }
}

/// How to poll, if at all. Numbers that are too large lose their high bits.
pub fn busy_poll(usecs: u32, prefer: u32, budget: u32) -> (r: Option<BusyPoll>)
    ensures
        r == busy_poll_of(usecs, prefer, budget),
        usecs == 0 && low_bits(prefer, 256) == 0 ==> r is None,
        !(usecs == 0 && low_bits(prefer, 256) == 0) ==> r == Some(
            BusyPoll {
                usecs,
                budget: low_bits(budget, 65_536) as u16,
                prefer: low_bits(prefer, 256) as u8,
            },
        ),
{
    let prefer8: u8 = (prefer % 256) as u8;
    if usecs == 0 && prefer8 == 0 {
        return None;
    }
    Some(BusyPoll { usecs, budget: (budget % 65_536) as u16, prefer: prefer8 })
}

/// The number of a device request that hands `size` bytes to the kernel.
pub fn iow(ty: u32, nr: u32, size: u32) -> (r: u32)
    ensures
        r == 0x4000_0000u32 | (size << 16) | (ty << 8) | nr,
        ty < 256 && nr < 256 && size < 0x4000 ==> r == 0x4000_0000 + size * 0x1_0000 + ty * 0x100
            + nr,
{
    assert(ty < 256 && nr < 256 && size < 0x4000 ==> 0x4000_0000u32 | (size << 16) | (ty << 8) | nr
        == 0x4000_0000 + size * 0x1_0000 + ty * 0x100 + nr) by (bit_vector);
    0x4000_0000u32 | (size << 16) | (ty << 8) | nr
}

/// The next multiple of the size of a machine word.
pub fn cmsg_align(n: usize) -> (r: usize)
    requires
        n + usize::BITS / 8 <= usize::MAX,
    ensures
        n <= r < n + usize::BITS / 8,
        r % ((usize::BITS / 8) as usize) == 0,
{
    let w: usize = (usize::BITS / 8) as usize;
    let q: usize = (n + w - 1) / w;
    proof {
        vstd::arithmetic::div_mod::lemma_fundamental_div_mod((n + w - 1) as int, w as int);
        vstd::arithmetic::mul::lemma_mul_is_commutative(q as int, w as int);
        vstd::arithmetic::div_mod::lemma_mod_multiples_basic(q as int, w as int);
        vstd::arithmetic::div_mod::lemma_mod_bound((n + w - 1) as int, w as int);
    }
    q * w
}

/// Whether a bit of a number is set.
pub open spec fn has_bit(i: usize, weight: int) -> bool {
    (i as int / weight) % 2 == 1
}

/// A coordinate of a query that warms an index up.
pub open spec fn warm_coordinate(i: usize, d: int) -> i16 {
    if (d == 5 || d == 6) && i as int % 4 == 0 {
        (-10_000) as i16
    } else if (d == 9 && has_bit(i, 1)) || (d == 10 && has_bit(i, 2)) || (d == 11 && has_bit(i, 4)) {
        SCALE
    } else if d < 14 {
        ((i * 313 + d * 1009) % 10_001) as i16
    } else {
        0
    }
}

/// A query that warms an index up: number `i` of a spread of queries.
pub fn warm_query(i: usize) -> (q: [i16; STORE_DIM])
    requires
        i * 313 + 14_126 <= usize::MAX,
    ensures
        forall|d: int| 0 <= d < STORE_DIM ==> #[trigger] q@[d] == warm_coordinate(i, d),
{
    let mut q: [i16; STORE_DIM] = [0i16; STORE_DIM];
    let mut d: usize = 0;
    while d < 14
        invariant
            d <= 14,
            i * 313 + 14_126 <= usize::MAX,
            q@.len() == STORE_DIM,
            forall|j: int|
                0 <= j < d ==> #[trigger] q@[j] == ((i * 313 + j * 1009) % 10_001) as i16,
            forall|j: int| d <= j < STORE_DIM ==> #[trigger] q@[j] == 0,
        decreases 14 - d,
    {
        q[d] = ((i * 313 + d * 1009) % 10_001) as i16;
        d += 1;
    }
    if i % 4 == 0 {
        q[5] = -SCALE;
        q[6] = -SCALE;
    }
    if i % 2 == 1 {
        q[9] = SCALE;
    }
    if (i / 2) % 2 == 1 {
        q[10] = SCALE;
    }
    if (i / 4) % 2 == 1 {
        q[11] = SCALE;
    }
    q
}

/// Query number `i` of those that warm an index up.
pub open spec fn warm_vector(i: usize) -> Seq<i16> {
    Seq::new(STORE_DIM as nat, |d: int| warm_coordinate(i, d))
}

/// Whether `counts` can be what an index gives for the queries that warm it up.
pub open spec fn are_warm_counts(b: Seq<u8>, wide: bool, counts: Seq<u8>) -> bool {
    forall|i: int|
        0 <= i < counts.len() ==> fraud_result(
            b,
            wide,
            warm_vector(i as usize),
            (#[trigger] counts[i]) as int,
        )
}

/// The exclusive or of counts.
pub open spec fn folded(counts: Seq<u8>) -> u8
    decreases counts.len(),
{
    if counts.len() == 0 {
        0
    } else {
        folded(counts.drop_last()) ^ counts.last()
    }
}

/// Warms an index up with some queries. Their counts are folded into one number, so that they are
/// used.
pub fn warm_up_index(index: &IndexReader, count: usize) -> (sum: u8)
    requires
        index.wf(),
        is_searchable(index.bytes()),
        count * 313 + 14_126 <= usize::MAX,
    ensures
        exists|counts: Seq<u8>| #[trigger]
            are_warm_counts(index.bytes(), index.is_wide(), counts) && counts.len() == count && sum
                == folded(counts),
{
    let ghost mut counts: Seq<u8> = Seq::empty();
    let mut sum: u8 = 0;
    let mut i: usize = 0;
    while i < count
        invariant
            index.wf(),
            is_searchable(index.bytes()),
            i <= count,
            count * 313 + 14_126 <= usize::MAX,
            counts.len() == i,
            are_warm_counts(index.bytes(), index.is_wide(), counts),
            sum == folded(counts),
        decreases count - i,
    {
        let q = warm_query(i);
        assert(q@ =~= warm_vector(i));
        let n = index.fraud_count(&q);
        sum = sum ^ n;
        proof {
            let before = counts;
            counts = counts.push(n);
            assert(counts.drop_last() =~= before);
        }
        i += 1;
    }
    sum
}

} // verus!
