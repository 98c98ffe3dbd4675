//! What the features of a payload say.

use vstd::prelude::*;
use crate::consts::{code_of, risk_of};
use crate::parse::{
    name_list, plain_names, strings_from, written_names_are_found, Payload,
};
use crate::text::word;
use crate::vectorize::{features, share, Measures};

verus! {

/// Whether `r` is a share `n / most` in ten-thousandths, rounded to the nearest, halves up, and cut
/// off at nothing and everything.
pub open spec fn rounds(r: i16, n: int, most: int) -> bool {
    if n <= 0 {
        r == 0
    } else if n >= most {
        r == 10_000
    } else {
        2 * most * r <= 20_000 * n + most < 2 * most * (r + 1)
    }
}

proof fn lemma_rounds(n: int, most: int)
    requires
        0 < most <= 1440,
    ensures
        rounds(share(n, most), n, most),
{
    if 0 < n < most {
        let a = 20_000 * n + most;
        let m = 2 * most;
        let q = a / m;
        vstd::arithmetic::div_mod::lemma_fundamental_div_mod(a, m);
        vstd::arithmetic::div_mod::lemma_mod_bound(a, m);
        assert(0 <= q <= 10_000) by (nonlinear_arith)
            requires
                a == m * q + a % m,
                0 <= a % m < m,
                a == 20_000 * n + most,
                m == 2 * most,
                0 < n < most,
        ;
        assert(m * (q + 1) == m * q + m) by (nonlinear_arith);
    }
}

/// The features of a payload, one by one. `m` holds those that are measured in real numbers.
pub proof fn features_read(p: Payload, m: Measures)
    ensures
        features(p, m).len() == 16,
        features(p, m)[0] == m.amount,
        rounds(features(p, m)[1], p.installments as int, 12),
        features(p, m)[2] == m.ratio,
        rounds(features(p, m)[3], p.requested_at.hour as int, 23),
        rounds(features(p, m)[4], p.requested_at.weekday as int, 6),
        p.has_last_tx ==> rounds(
            features(p, m)[5],
            p.requested_at.epoch_minutes - p.last_tx_stamp.epoch_minutes,
            1440,
        ),
        p.has_last_tx ==> features(p, m)[6] == m.last_km,
        !p.has_last_tx ==> features(p, m)[5] == -10_000 && features(p, m)[6] == -10_000,
        features(p, m)[7] == m.home_km,
        rounds(features(p, m)[8], p.tx_count_24h as int, 20),
        p.is_online ==> features(p, m)[9] == 10_000,
        !p.is_online ==> features(p, m)[9] == 0,
        p.card_present ==> features(p, m)[10] == 10_000,
        !p.card_present ==> features(p, m)[10] == 0,
        features(p, m)[11] == 0 || features(p, m)[11] == 10_000,
        features(p, m)[11] == 0 <==> p.merchant_id.len() > 0 && exists|k: int|
            0 <= k < strings_from(p.known_merchants, 0).len() && strings_from(
                p.known_merchants,
                0,
            )[k] == p.merchant_id,
        features(p, m)[12] == risk_of(p.merchant_mcc),
        features(p, m)[13] == m.merchant_amount,
        features(p, m)[14] == 0,
        features(p, m)[15] == 0,
{
    lemma_rounds(p.installments as int, 12);
    lemma_rounds(p.requested_at.hour as int, 23);
    lemma_rounds(p.requested_at.weekday as int, 6);
    lemma_rounds(p.requested_at.epoch_minutes - p.last_tx_stamp.epoch_minutes, 1440);
    lemma_rounds(p.tx_count_24h as int, 20);
}

/// Whether a purchase is online shows in feature 9 alone, by the whole scale.
pub proof fn online_shows_in_one_feature(p: Payload, m: Measures)
    ensures
        features(Payload { is_online: true, ..p }, m) == features(
            Payload { is_online: false, ..p },
            m,
        ).update(9, 10_000),
        features(Payload { is_online: false, ..p }, m)[9] == 0,
{
    assert(features(Payload { is_online: true, ..p }, m) =~= features(
        Payload { is_online: false, ..p },
        m,
    ).update(9, 10_000));
}

/// Whether the card is present shows in feature 10 alone, by the whole scale.
pub proof fn card_shows_in_one_feature(p: Payload, m: Measures)
    ensures
        features(Payload { card_present: true, ..p }, m) == features(
            Payload { card_present: false, ..p },
            m,
        ).update(10, 10_000),
        features(Payload { card_present: false, ..p }, m)[10] == 0,
{
    assert(features(Payload { card_present: true, ..p }, m) =~= features(
        Payload { card_present: false, ..p },
        m,
    ).update(10, 10_000));
}

/// A merchant counts as known exactly where it has a name and the name is on the customer's list.
pub proof fn known_merchants_are_those_listed(p: Payload, m: Measures, names: Seq<Seq<u8>>)
    requires
        plain_names(names),
        p.known_merchants == name_list(names),
    ensures
        features(p, m)[11] == 0 <==> p.merchant_id.len() > 0 && names.contains(p.merchant_id),
        features(p, m)[11] == 10_000 <==> !(p.merchant_id.len() > 0 && names.contains(
            p.merchant_id,
        )),
{
    written_names_are_found(names);
    features_read(p, m);
}

/// Later transactions of a day are not nearer to its start, and more instalments and transactions do
/// not count for less.
pub proof fn shares_do_not_fall(n: int, k: int, most: int)
    requires
        0 < most <= 1440,
        n <= k,
    ensures
        share(n, most) <= share(k, most),
{
    lemma_rounds(n, most);
    lemma_rounds(k, most);
    let a = share(n, most);
    let b = share(k, most);
    if 0 < n && k < most && a > b {
        assert(2 * most * (b + 1) <= 2 * most * a) by (nonlinear_arith)
            requires
                b + 1 <= a,
                most > 0,
        ;
    }
    if 0 < n < most && k >= most {
        assert(a <= 10_000) by (nonlinear_arith)
            requires
                2 * most * a <= 20_000 * n + most,
                n < most,
                most > 0,
        ;
    }
    if n <= 0 && 0 < k < most {
        assert(b >= 0) by (nonlinear_arith)
            requires
                20_000 * k + most < 2 * most * (b + 1),
                k > 0,
                most > 0,
        ;
    }
}

/// The four digits of a merchant code.
proof fn lemma_code(mcc: Seq<u8>, w: Seq<u8>, a: u8, b: u8, c: u8, d: u8)
    requires
        w.len() == 4,
        w[0] == 0x30 + a && w[1] == 0x30 + b && w[2] == 0x30 + c && w[3] == 0x30 + d,
        a <= 9 && b <= 9 && c <= 9 && d <= 9,
    ensures
        mcc == w <==> code_of(mcc) == Some(1000 * a + 100 * b + 10 * c + d),
{
    if code_of(mcc) == Some(1000 * a + 100 * b + 10 * c + d) {
        assert(mcc =~= w);
    }
}

/// The risk of each merchant code as a payload writes it, in ten-thousandths. Every other code has a
/// risk of one half.
pub proof fn merchant_risks(mcc: Seq<u8>)
    ensures
        mcc == word("5411") ==> risk_of(mcc) == 1500,
        mcc == word("5812") ==> risk_of(mcc) == 3000,
        mcc == word("5912") ==> risk_of(mcc) == 2000,
        mcc == word("5944") ==> risk_of(mcc) == 4500,
        mcc == word("7801") ==> risk_of(mcc) == 8000,
        mcc == word("7802") ==> risk_of(mcc) == 7500,
        mcc == word("7995") ==> risk_of(mcc) == 8500,
        mcc == word("4511") ==> risk_of(mcc) == 3500,
        mcc == word("5311") ==> risk_of(mcc) == 2500,
        mcc == word("5999") ==> risk_of(mcc) == 5000,
        mcc != word("5411") && mcc != word("5812") && mcc != word("5912") && mcc != word("5944")
            && mcc != word("7801") && mcc != word("7802") && mcc != word("7995") && mcc != word(
            "4511",
        ) && mcc != word("5311") ==> risk_of(mcc) == 5000,
{
    reveal_strlit("5411");
    reveal_strlit("5812");
    reveal_strlit("5912");
    reveal_strlit("5944");
    reveal_strlit("7801");
    reveal_strlit("7802");
    reveal_strlit("7995");
    reveal_strlit("4511");
    reveal_strlit("5311");
    reveal_strlit("5999");
    vstd::utf8::is_ascii_chars_encode_utf8("5411"@);
    vstd::utf8::is_ascii_chars_encode_utf8("5812"@);
    vstd::utf8::is_ascii_chars_encode_utf8("5912"@);
    vstd::utf8::is_ascii_chars_encode_utf8("5944"@);
    vstd::utf8::is_ascii_chars_encode_utf8("7801"@);
    vstd::utf8::is_ascii_chars_encode_utf8("7802"@);
    vstd::utf8::is_ascii_chars_encode_utf8("7995"@);
    vstd::utf8::is_ascii_chars_encode_utf8("4511"@);
    vstd::utf8::is_ascii_chars_encode_utf8("5311"@);
    vstd::utf8::is_ascii_chars_encode_utf8("5999"@);
    lemma_code(mcc, word("5411"), 5, 4, 1, 1);
    lemma_code(mcc, word("5812"), 5, 8, 1, 2);
    lemma_code(mcc, word("5912"), 5, 9, 1, 2);
    lemma_code(mcc, word("5944"), 5, 9, 4, 4);
    lemma_code(mcc, word("7801"), 7, 8, 0, 1);
    lemma_code(mcc, word("7802"), 7, 8, 0, 2);
    lemma_code(mcc, word("7995"), 7, 9, 9, 5);
    lemma_code(mcc, word("4511"), 4, 5, 1, 1);
    lemma_code(mcc, word("5311"), 5, 3, 1, 1);
    lemma_code(mcc, word("5999"), 5, 9, 9, 9);
}

} // verus!
