//! Merchant risk.

use vstd::prelude::*;
use crate::text::is_digit;

verus! {

/// Risk of a merchant code that is not listed, in ten-thousandths.
pub const DEFAULT_MCC_RISK: i16 = 5000;

/// The listed merchant codes with their risks in ten-thousandths.
pub open spec fn listed_risk(code: int) -> Option<i16> {
    if code == 5411 {
        Some(1500)
    } else if code == 5812 {
        Some(3000)
    } else if code == 5912 {
        Some(2000)
    } else if code == 5944 {
        Some(4500)
    } else if code == 7801 {
        Some(8000)
    } else if code == 7802 {
        Some(7500)
    } else if code == 7995 {
        Some(8500)
    } else if code == 4511 {
        Some(3500)
    } else if code == 5311 {
        Some(2500)
    } else if code == 5999 {
        Some(5000)
    } else {
        None
    }
}

/// The merchant code that four decimal digits write.
pub open spec fn code_of(s: Seq<u8>) -> Option<int> {
    if s.len() == 4 && is_digit(s[0]) && is_digit(s[1]) && is_digit(s[2]) && is_digit(s[3]) {
        Some(1000 * (s[0] - 0x30) + 100 * (s[1] - 0x30) + 10 * (s[2] - 0x30) + (s[3] - 0x30))
    } else {
        None
    }
}

/// The risk of a merchant code as it is written in a payload, in ten-thousandths.
pub open spec fn risk_of(mcc: Seq<u8>) -> i16 {
    match code_of(mcc) {
        Some(code) => match listed_risk(code) {
            Some(risk) => risk,
            None => DEFAULT_MCC_RISK,
        },
        None => DEFAULT_MCC_RISK,
    }
}

/// The risk of a listed code.
pub fn listed_mcc_risk(code: u32) -> (r: Option<i16>)
    ensures
        r == listed_risk(code as int),
{
    match code {
        5411 => Some(1500),
        5812 => Some(3000),
        5912 => Some(2000),
        5944 => Some(4500),
        7801 => Some(8000),
        7802 => Some(7500),
        7995 => Some(8500),
        4511 => Some(3500),
        5311 => Some(2500),
        5999 => Some(5000),
        _ => None,
    }
}

fn digit(b: u8) -> (r: Option<u32>)
    ensures
        r == (if is_digit(b) {
            Some((b - 0x30) as u32)
        } else {
            None
        }),
{
    if b >= 0x30 && b <= 0x39 {
        Some((b - 0x30) as u32)
    } else {
        None
    }
}

/// The risk of a merchant code, in ten-thousandths.
pub fn mcc_risk_lookup(mcc: &[u8]) -> (r: i16)
    ensures
        r == risk_of(mcc@),
{
    if mcc.len() != 4 {
        return DEFAULT_MCC_RISK;
    }
    match (digit(mcc[0]), digit(mcc[1]), digit(mcc[2]), digit(mcc[3])) {
        (Some(a), Some(b), Some(c), Some(d)) => match listed_mcc_risk(
            1000 * a + 100 * b + 10 * c + d,
        ) {
            Some(risk) => risk,
            None => DEFAULT_MCC_RISK,
        },
        _ => DEFAULT_MCC_RISK,
    }
}

} // verus!
