//! Turning a payload into a feature vector.

use vstd::prelude::*;
use crate::consts::{mcc_risk_lookup, risk_of};
use crate::parse::{merchant_in_known, strings_from, Payload, RawPayload};
use crate::{DIM, SCALE, STORE_DIM};

verus! {

/// Number of instalments that counts as the most.
pub const MAX_INSTALLMENTS: u32 = 12;

/// Number of minutes since the last transaction that counts as the most.
pub const MAX_MINUTES: i64 = 1_440;

/// Number of transactions within a day that counts as the most.
pub const MAX_TX_COUNT_24H: u32 = 20;

/// Features that are measured in real numbers, quantized.
#[derive(Clone, Copy, Debug, PartialEq, Eq, Structural)]
pub struct Measures {
    /// The amount.
    pub amount: i16,
    /// The amount as against the customer's average.
    pub ratio: i16,
    /// Kilometres from the last transaction.
    pub last_km: i16,
    /// Kilometres from home.
    pub home_km: i16,
    /// The merchant's average amount.
    pub merchant_amount: i16,
}

/// A share `n / most`, cut off at nothing and everything, in units of the scale: rounded to the
/// nearest, halves up.
pub open spec fn share(n: int, most: int) -> i16 {
    if n <= 0 {
        0
    } else if n >= most {
        SCALE
    } else {
        ((20_000 * n + most) / (2 * most)) as i16
    }
}

/// A share of at most `most`.
fn quantize_share(n: i128, most: u32) -> (r: i16)
    requires
        0 < most <= 0xffff,
    ensures
        r == share(n as int, most as int),
        0 <= r <= SCALE,
{
    if n <= 0 {
        0
    } else if n >= most as i128 {
        SCALE
    } else {
        let m: u64 = most as u64;
        let v: u64 = (20_000 * (n as u64) + m) / (2 * m);
        proof {
            lemma_share_range(n as int, m as int);
        }
        v as i16
    }
}

proof fn lemma_share_range(n: int, most: int)
    requires
        0 < n < most,
    ensures
        0 <= (20_000 * n + most) / (2 * most) <= 10_000,
{
    assert((20_000 * n + most) / (2 * most) <= 10_000) by (nonlinear_arith)
        requires
            0 < n < most,
    ;
    assert((20_000 * n + most) / (2 * most) >= 0) by (nonlinear_arith)
        requires
            0 < n < most,
    ;
}

/// Everything or nothing.
pub open spec fn flag(on: bool) -> i16 {
    if on {
        SCALE
    } else {
        0
    }
}

/// The vector of a payload. The two features of the last transaction are minus one where there is
/// none.
pub open spec fn features(p: Payload, m: Measures) -> Seq<i16> {
    let none = (-10_000) as i16;
    seq![
        m.amount,
        share(p.installments as int, MAX_INSTALLMENTS as int),
        m.ratio,
        share(p.requested_at.hour as int, 23),
        share(p.requested_at.weekday as int, 6),
        if p.has_last_tx {
            share(
                p.requested_at.epoch_minutes - p.last_tx_stamp.epoch_minutes,
                MAX_MINUTES as int,
            )
        } else {
            none
        },
        if p.has_last_tx {
            m.last_km
        } else {
            none
        },
        m.home_km,
        share(p.tx_count_24h as int, MAX_TX_COUNT_24H as int),
        flag(p.is_online),
        flag(p.card_present),
        flag(
            !(p.merchant_id.len() > 0 && strings_from(p.known_merchants, 0).contains(
                p.merchant_id,
            )),
        ),
        risk_of(p.merchant_mcc),
        m.merchant_amount,
        0i16,
        0i16,
    ]
}

/// Makes the vector of a payload.
pub fn vectorize_q(p: &RawPayload, m: &Measures) -> (q: [i16; STORE_DIM])
    ensures
        q@ == features(p@, *m),
{
    let mut q: [i16; STORE_DIM] = [0i16; STORE_DIM];
    q[0] = m.amount;
    q[1] = quantize_share(p.installments as i128, MAX_INSTALLMENTS);
    q[2] = m.ratio;
    q[3] = quantize_share(p.requested_at.hour as i128, 23);
    q[4] = quantize_share(p.requested_at.weekday as i128, 6);
    if p.has_last_tx {
        let minutes: i128 = p.requested_at.epoch_minutes as i128
            - p.last_tx_stamp.epoch_minutes as i128;
        q[5] = quantize_share(minutes, 1_440);
        q[6] = m.last_km;
    } else {
        q[5] = -SCALE;
        q[6] = -SCALE;
    }
    q[7] = m.home_km;
    q[8] = quantize_share(p.tx_count_24h as i128, MAX_TX_COUNT_24H);
    q[9] = if p.is_online {
        SCALE
    } else {
        0
    };
    q[10] = if p.card_present {
        SCALE
    } else {
        0
    };
    q[11] = if merchant_in_known(p.known_merchants_buf, p.merchant_id) {
        0
    } else {
        SCALE
    };
    q[12] = mcc_risk_lookup(p.merchant_mcc);
    q[13] = m.merchant_amount;
    assert(q@ =~= features(p@, *m));
    q
}

/// Features stay between nothing and everything, but for those of a last transaction that is not
/// there.
pub proof fn features_are_in_range(p: Payload, m: Measures, d: int)
    requires
        0 <= d < DIM,
        0 <= m.amount <= SCALE,
        0 <= m.ratio <= SCALE,
        0 <= m.last_km <= SCALE,
        0 <= m.home_km <= SCALE,
        0 <= m.merchant_amount <= SCALE,
    ensures
        0 <= features(p, m)[d] <= SCALE || (!p.has_last_tx && (d == 5 || d == 6) && features(
            p,
            m,
        )[d] == -SCALE),
{
    lemma_share(p.installments as int, 12);
    lemma_share(p.requested_at.hour as int, 23);
    lemma_share(p.requested_at.weekday as int, 6);
    lemma_share(p.requested_at.epoch_minutes - p.last_tx_stamp.epoch_minutes, 1_440);
    lemma_share(p.tx_count_24h as int, 20);
}

proof fn lemma_share(n: int, most: int)
    requires
        0 < most,
    ensures
        0 <= share(n, most) <= SCALE,
{
    if 0 < n < most {
        lemma_share_range(n, most);
    }
}

} // verus!
