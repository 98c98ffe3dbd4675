//! A payload that is written out is read back.

use vstd::prelude::*;
use vstd::utf8::is_ascii_chars_encode_utf8;
use crate::laws::stand::{
    all_digits, free_of, lemma_byte_of, lemma_digits_stand, lemma_free_stands, lemma_one,
    lemma_split,
};
use crate::parse::{
    array_at, bool_at, count_at, exponent_at, field_at, name_list, nested_end, number_at,
    plain_names, quoted, string_at, ws_end, NumberText, Payload, Section,
};
use crate::response::{digits_of, digits_write_number};
use crate::text::{word, word_at};
use crate::time::stamp_of;

verus! {

/// Whether a byte is a blank, a tab or a line end.
pub open spec fn is_blank(c: u8) -> bool {
    c == 0x20 || c == 0x09 || c == 0x0a || c == 0x0d
}

/// Whether a text is white space.
pub open spec fn is_gap(g: Seq<u8>) -> bool {
    forall|k: int| 0 <= k < g.len() ==> is_blank(#[trigger] g[k])
}

/// Whether a value ends at `e`: a comma, a closing brace or white space follows.
pub open spec fn value_stops(b: Seq<u8>, e: int) -> bool {
    0 <= e < b.len() && (b[e] == 0x2c || b[e] == 0x7d || is_blank(b[e]))
}

pub proof fn lemma_ws_none(b: Seq<u8>, i: int)
    requires
        i >= b.len() || !is_blank(b[i]),
    ensures
        ws_end(b, i) == i,
{
}

pub proof fn lemma_ws_stands(b: Seq<u8>, i: int, g: Seq<u8>)
    requires
        0 <= i,
        word_at(b, i, g),
        is_gap(g),
        i + g.len() >= b.len() || !is_blank(b[i + g.len()]),
    ensures
        ws_end(b, i) == i + g.len(),
    decreases g.len(),
{
    if g.len() > 0 {
        lemma_byte_of(b, i, g, 0);
        assert(is_blank(g[0]));
        let h = g.skip(1);
        assert(g =~= seq![g[0]] + h);
        lemma_split(b, i, seq![g[0]], h);
        assert forall|k: int| 0 <= k < h.len() implies is_blank(#[trigger] h[k]) by {
            assert(h[k] == g[k + 1]);
        }
        lemma_ws_stands(b, i + 1, h);
    }
}

/// A number as it is written: the sign, the digits, and an exponent where there is one.
pub open spec fn numeral(n: NumberText) -> Seq<u8> {
    sign_text(n.neg) + (n.int_digits + (fraction_text(n.frac_digits) + exponent_text(n.exp)))
}

pub open spec fn sign_text(neg: bool) -> Seq<u8> {
    if neg {
        seq![0x2du8]
    } else {
        Seq::empty()
    }
}

pub open spec fn fraction_text(frac: Seq<u8>) -> Seq<u8> {
    if frac.len() > 0 {
        seq![0x2eu8] + frac
    } else {
        Seq::empty()
    }
}

pub open spec fn exponent_text(exp: int) -> Seq<u8> {
    if exp > 0 {
        seq![0x65u8] + digits_of(exp)
    } else if exp < 0 {
        seq![0x65u8, 0x2du8] + digits_of(-exp)
    } else {
        Seq::empty()
    }
}

/// Whether a number can be written out: it has digits, and its exponent is not out of range.
pub open spec fn is_numeral(n: NumberText) -> bool {
    &&& all_digits(n.int_digits)
    &&& all_digits(n.frac_digits)
    &&& n.int_digits.len() + n.frac_digits.len() > 0
    &&& -0x7fff_ffff <= n.exp <= 0x7fff_ffff
}

proof fn lemma_exponent_read(b: Seq<u8>, i: int, exp: int)
    requires
        0 <= i,
        word_at(b, i, exponent_text(exp)),
        -0x7fff_ffff <= exp <= 0x7fff_ffff,
        value_stops(b, i + exponent_text(exp).len()),
    ensures
        exponent_at(b, i) == Some((exp, i + exponent_text(exp).len())),
{
    let t = exponent_text(exp);
    let e = i + t.len();
    if exp == 0 {
    } else {
        let n = if exp > 0 {
            exp
        } else {
            -exp
        };
        let head = if exp > 0 {
            seq![0x65u8]
        } else {
            seq![0x65u8, 0x2du8]
        };
        let d = digits_of(n);
        digits_write_number(n);
        lemma_split(b, i, head, d);
        let s = i + head.len();
        lemma_byte_of(b, i, head, 0);
        assert(all_digits(d));
        lemma_digits_stand(b, s, d);
        lemma_byte_of(b, s, d, 0);
        if exp < 0 {
            lemma_byte_of(b, i, head, 1);
        }
        assert(b.subrange(s, e) == d);
    }
}

proof fn lemma_number_read(b: Seq<u8>, i: int, n: NumberText)
    requires
        0 <= i,
        is_numeral(n),
        word_at(b, i, numeral(n)),
        value_stops(b, i + numeral(n).len()),
    ensures
        number_at(b, i) == Some((n, i + numeral(n).len())),
{
    let s = sign_text(n.neg);
    let f = fraction_text(n.frac_digits);
    let x = exponent_text(n.exp);
    let e = i + numeral(n).len();
    lemma_split(b, i, s, n.int_digits + (f + x));
    let i1 = i + s.len();
    lemma_split(b, i1, n.int_digits, f + x);
    let i2 = i1 + n.int_digits.len();
    lemma_split(b, i2, f, x);
    let i3 = i2 + f.len();
    // What stands at i, at i2 and at i3.
    if x.len() > 0 {
        lemma_byte_of(b, i3, x, 0);
        assert(b[i3] == 0x65);
    }
    if f.len() > 0 {
        lemma_split(b, i2, seq![0x2eu8], n.frac_digits);
        lemma_one(b, i2, 0x2e);
        lemma_byte_of(b, i2 + 1, n.frac_digits, 0);
    }
    if n.int_digits.len() > 0 {
        lemma_byte_of(b, i1, n.int_digits, 0);
        assert(0x30 <= n.int_digits[0] <= 0x39);
    }
    if s.len() > 0 {
        lemma_one(b, i, 0x2d);
    }
    assert(i < b.len());
    assert(b[i] == 0x2d <==> n.neg);
    assert(b[i] != 0x2b && !is_blank(b[i]));
    lemma_ws_none(b, i);
    assert(i2 < b.len() && !(0x30 <= b[i2] <= 0x39));
    lemma_digits_stand(b, i1, n.int_digits);
    assert(b.subrange(i1, i2) == n.int_digits);
    if f.len() > 0 {
        assert(i3 < b.len() && !(0x30 <= b[i3] <= 0x39));
        lemma_digits_stand(b, i2 + 1, n.frac_digits);
        assert(b.subrange(i2 + 1, i3) == n.frac_digits);
    } else {
        assert(b[i2] != 0x2e);
        assert(b.subrange(i2, i2) =~= n.frac_digits);
    }
    lemma_exponent_read(b, i3, n.exp);
    let got = number_at(b, i);
    assert(got matches Some((m, end)) && end == e && m.neg == n.neg && m.int_digits == n.int_digits
        && m.frac_digits == n.frac_digits && m.exp == n.exp);
}

proof fn lemma_count_read(b: Seq<u8>, i: int, n: u32)
    requires
        0 <= i,
        word_at(b, i, digits_of(n as int)),
        value_stops(b, i + digits_of(n as int).len()),
    ensures
        count_at(b, i) == Some((n, i + digits_of(n as int).len())),
{
    let d = digits_of(n as int);
    digits_write_number(n as int);
    lemma_byte_of(b, i, d, 0);
    lemma_ws_none(b, i);
    lemma_digits_stand(b, i, d);
    assert(b.subrange(i, i + d.len()) == d);
}

/// A truth value as it is written.
pub open spec fn truth_text(x: bool) -> Seq<u8> {
    if x {
        word("true")
    } else {
        word("false")
    }
}

pub proof fn lemma_truth_words()
    ensures
        word("true") == seq![0x74u8, 0x72u8, 0x75u8, 0x65u8],
        word("false") == seq![0x66u8, 0x61u8, 0x6cu8, 0x73u8, 0x65u8],
        word("null") == seq![0x6eu8, 0x75u8, 0x6cu8, 0x6cu8],
{
    reveal_strlit("true");
    reveal_strlit("false");
    reveal_strlit("null");
    is_ascii_chars_encode_utf8("true"@);
    is_ascii_chars_encode_utf8("false"@);
    is_ascii_chars_encode_utf8("null"@);
    assert(word("true") =~= seq![0x74u8, 0x72u8, 0x75u8, 0x65u8]);
    assert(word("false") =~= seq![0x66u8, 0x61u8, 0x6cu8, 0x73u8, 0x65u8]);
    assert(word("null") =~= seq![0x6eu8, 0x75u8, 0x6cu8, 0x6cu8]);
}

proof fn lemma_bool_read(b: Seq<u8>, i: int, x: bool)
    requires
        0 <= i,
        word_at(b, i, truth_text(x)),
    ensures
        bool_at(b, i) == Some((x, i + truth_text(x).len())),
{
    lemma_truth_words();
    lemma_byte_of(b, i, truth_text(x), 0);
    lemma_ws_none(b, i);
    if !x && word_at(b, i, word("true")) {
        lemma_byte_of(b, i, word("true"), 0);
    }
}

/// A string as it is written.
pub open spec fn string_text(s: Seq<u8>) -> Seq<u8> {
    seq![0x22u8] + (s + seq![0x22u8])
}

pub proof fn lemma_string_read(b: Seq<u8>, i: int, s: Seq<u8>)
    requires
        0 <= i,
        word_at(b, i, string_text(s)),
        free_of(s, 0x22),
    ensures
        string_at(b, i) == Some((s, i + s.len() + 2)),
        b[i] == 0x22,
{
    lemma_split(b, i, seq![0x22u8], s + seq![0x22u8]);
    lemma_one(b, i, 0x22);
    lemma_split(b, i + 1, s, seq![0x22u8]);
    lemma_one(b, i + 1 + s.len(), 0x22);
    lemma_ws_none(b, i);
    lemma_free_stands(b, i + 1, s, 0x22);
}

/// The end of a list of quoted names that stands somewhere.
proof fn lemma_names_end(b: Seq<u8>, i: int, names: Seq<Seq<u8>>, others: bool)
    requires
        0 <= i,
        plain_names(names),
        word_at(b, i, quoted(names, others)),
    ensures
        nested_end(b, i, 0x5b, 0x5d, 1) == Some(i + quoted(names, others).len()),
    decreases names.len(),
{
    let t = quoted(names, others);
    if names.len() == 0 {
        lemma_one(b, i, 0x5d);
        assert(nested_end(b, i + 1, 0x5b, 0x5d, 0) == Some(i + 1));
    } else {
        let name = names[0];
        let rest = names.skip(1);
        let mark = if others {
            seq![0x2cu8, 0x22u8]
        } else {
            seq![0x22u8]
        };
        let tail = quoted(rest, true);
        assert(t =~= mark + (name + (seq![0x22u8] + tail)));
        lemma_split(b, i, mark, name + (seq![0x22u8] + tail));
        let s = i + mark.len();
        lemma_split(b, s, name, seq![0x22u8] + tail);
        let e = s + name.len();
        lemma_split(b, e, seq![0x22u8], tail);
        lemma_one(b, e, 0x22);
        lemma_byte_of(b, i, mark, mark.len() - 1);
        assert(b[s - 1] == 0x22);
        assert(free_of(name, 0x22)) by {
            reveal(free_of);
            assert forall|k: int| 0 <= k < name.len() implies #[trigger] name[k] != 0x22 by {
                assert(names[0][k] != 0x22);
            }
        }
        lemma_free_stands(b, s, name, 0x22);
        assert forall|k: int, j: int|
            0 <= k < rest.len() && 0 <= j < rest[k].len() implies #[trigger] rest[k][j] != 0x22 by {
            assert(rest[k] == names[k + 1]);
            assert(names[k + 1][j] != 0x22);
        }
        lemma_names_end(b, e + 1, rest, true);
        assert(nested_end(b, s - 1, 0x5b, 0x5d, 1) == nested_end(b, e + 1, 0x5b, 0x5d, 1));
        if others {
            lemma_byte_of(b, i, mark, 0);
            assert(nested_end(b, i, 0x5b, 0x5d, 1) == nested_end(b, i + 1, 0x5b, 0x5d, 1));
        }
    }
}

proof fn lemma_names_read(b: Seq<u8>, i: int, names: Seq<Seq<u8>>)
    requires
        0 <= i,
        plain_names(names),
        word_at(b, i, name_list(names)),
    ensures
        array_at(b, i) == Some((name_list(names), i + name_list(names).len())),
{
    let tail = quoted(names, false);
    lemma_split(b, i, seq![0x5bu8], tail);
    lemma_one(b, i, 0x5b);
    lemma_ws_none(b, i);
    lemma_names_end(b, i + 1, names, false);
    assert(b.subrange(i, i + name_list(names).len()) == name_list(names));
}

/// Whether the member `key` with this value, wherever it stands in a section, turns what is known of
/// a payload from `p` to `q`.
#[verifier::opaque]
pub open spec fn reads(sec: Section, key: Seq<u8>, value: Seq<u8>, p: Payload, q: Payload) -> bool {
    forall|b: Seq<u8>, v: int|
        0 <= v && word_at(b, v, value) && value_stops(b, v + value.len()) ==> #[trigger] field_at(
            b,
            sec,
            key,
            v,
            p,
        ) == Some((q, v + value.len())) && !is_blank(b[v]) && value.len() > 0
}

/// The lengths and first letters of the names of members.
pub proof fn lemma_names()
    ensures
        word("amount").len() == 6,
        word("installments").len() == 12,
        word("installments")[0] == 0x69,
        word("requested_at").len() == 12,
        word("requested_at")[0] == 0x72,
        word("avg_amount").len() == 10,
        word("tx_count_24h").len() == 12,
        word("known_merchants").len() == 15,
        word("id").len() == 2,
        word("mcc").len() == 3,
        word("is_online").len() == 9,
        word("card_present").len() == 12,
        word("card_present")[0] == 0x63,
        word("km_from_home").len() == 12,
        word("km_from_home")[0] == 0x6b,
        word("timestamp").len() == 9,
        word("km_from_current").len() == 15,
        word("transaction").len() == 11,
        word("customer").len() == 8,
        word("customer")[0] == 0x63,
        word("merchant").len() == 8,
        word("merchant")[0] == 0x6d,
        word("terminal").len() == 8,
        word("terminal")[0] == 0x74,
        word("last_transaction").len() == 16,
        free_of(word("amount"), 0x22),
        free_of(word("installments"), 0x22),
        free_of(word("requested_at"), 0x22),
        free_of(word("avg_amount"), 0x22),
        free_of(word("tx_count_24h"), 0x22),
        free_of(word("known_merchants"), 0x22),
        free_of(word("id"), 0x22),
        free_of(word("mcc"), 0x22),
        free_of(word("is_online"), 0x22),
        free_of(word("card_present"), 0x22),
        free_of(word("km_from_home"), 0x22),
        free_of(word("timestamp"), 0x22),
        free_of(word("km_from_current"), 0x22),
        free_of(word("transaction"), 0x22),
        free_of(word("customer"), 0x22),
        free_of(word("merchant"), 0x22),
        free_of(word("terminal"), 0x22),
        free_of(word("last_transaction"), 0x22),
{
    reveal(free_of);
    reveal_strlit("amount");
    is_ascii_chars_encode_utf8("amount"@);
    reveal_strlit("installments");
    is_ascii_chars_encode_utf8("installments"@);
    reveal_strlit("requested_at");
    is_ascii_chars_encode_utf8("requested_at"@);
    reveal_strlit("avg_amount");
    is_ascii_chars_encode_utf8("avg_amount"@);
    reveal_strlit("tx_count_24h");
    is_ascii_chars_encode_utf8("tx_count_24h"@);
    reveal_strlit("known_merchants");
    is_ascii_chars_encode_utf8("known_merchants"@);
    reveal_strlit("id");
    is_ascii_chars_encode_utf8("id"@);
    reveal_strlit("mcc");
    is_ascii_chars_encode_utf8("mcc"@);
    reveal_strlit("is_online");
    is_ascii_chars_encode_utf8("is_online"@);
    reveal_strlit("card_present");
    is_ascii_chars_encode_utf8("card_present"@);
    reveal_strlit("km_from_home");
    is_ascii_chars_encode_utf8("km_from_home"@);
    reveal_strlit("timestamp");
    is_ascii_chars_encode_utf8("timestamp"@);
    reveal_strlit("km_from_current");
    is_ascii_chars_encode_utf8("km_from_current"@);
    reveal_strlit("transaction");
    is_ascii_chars_encode_utf8("transaction"@);
    reveal_strlit("customer");
    is_ascii_chars_encode_utf8("customer"@);
    reveal_strlit("merchant");
    is_ascii_chars_encode_utf8("merchant"@);
    reveal_strlit("terminal");
    is_ascii_chars_encode_utf8("terminal"@);
    reveal_strlit("last_transaction");
    is_ascii_chars_encode_utf8("last_transaction"@);
}

/// The names of members have no quotes.
pub proof fn lemma_keys_plain()
    ensures
        free_of(word("amount"), 0x22),
        free_of(word("installments"), 0x22),
        free_of(word("requested_at"), 0x22),
        free_of(word("avg_amount"), 0x22),
        free_of(word("tx_count_24h"), 0x22),
        free_of(word("known_merchants"), 0x22),
        free_of(word("id"), 0x22),
        free_of(word("mcc"), 0x22),
        free_of(word("is_online"), 0x22),
        free_of(word("card_present"), 0x22),
        free_of(word("km_from_home"), 0x22),
        free_of(word("timestamp"), 0x22),
        free_of(word("km_from_current"), 0x22),
        free_of(word("transaction"), 0x22),
        free_of(word("customer"), 0x22),
        free_of(word("merchant"), 0x22),
        free_of(word("terminal"), 0x22),
        free_of(word("last_transaction"), 0x22),
{
    lemma_names();
}

/// What each member of a transaction says.
pub proof fn transaction_members_are_read(p: Payload, n: NumberText, k: u32, t: Seq<u8>)
    requires
        is_numeral(n),
        free_of(t, 0x22),
        stamp_of(t) is Some,
    ensures
        reads(
            Section::Transaction,
            word("amount"),
            numeral(n),
            p,
            Payload { amount: n, ..p },
        ),
        reads(
            Section::Transaction,
            word("installments"),
            digits_of(k as int),
            p,
            Payload { installments: k, ..p },
        ),
        reads(
            Section::Transaction,
            word("requested_at"),
            string_text(t),
            p,
            Payload { requested_at: stamp_of(t).unwrap(), ..p },
        ),
{
    lemma_names();
    lemma_reads_number(Section::Transaction, word("amount"), p, n);
    lemma_reads_count(Section::Transaction, word("installments"), p, k);
    lemma_reads_string(Section::Transaction, word("requested_at"), p, t);
}

/// What each member of a customer says.
pub proof fn customer_members_are_read(p: Payload, n: NumberText, k: u32, names: Seq<Seq<u8>>)
    requires
        is_numeral(n),
        plain_names(names),
    ensures
        reads(
            Section::Customer,
            word("avg_amount"),
            numeral(n),
            p,
            Payload { customer_avg_amount: n, ..p },
        ),
        reads(
            Section::Customer,
            word("tx_count_24h"),
            digits_of(k as int),
            p,
            Payload { tx_count_24h: k, ..p },
        ),
        reads(
            Section::Customer,
            word("known_merchants"),
            name_list(names),
            p,
            Payload { known_merchants: name_list(names), ..p },
        ),
{
    reveal(reads);
    lemma_names();
    lemma_reads_number(Section::Customer, word("avg_amount"), p, n);
    lemma_reads_count(Section::Customer, word("tx_count_24h"), p, k);
    let q = Payload { known_merchants: name_list(names), ..p };
    let value = name_list(names);
    let key = word("known_merchants");
    assert forall|b: Seq<u8>, v: int|
        0 <= v && word_at(b, v, value) && value_stops(b, v + value.len()) implies #[trigger]
    field_at(b, Section::Customer, key, v, p) == Some((q, v + value.len())) && !is_blank(b[v])
        && value.len() > 0 by {
        lemma_names_read(b, v, names);
        lemma_byte_of(b, v, value, 0);
    }
}

/// What each member of a merchant says.
pub proof fn merchant_members_are_read(p: Payload, n: NumberText, id: Seq<u8>, mcc: Seq<u8>)
    requires
        is_numeral(n),
        free_of(id, 0x22),
        free_of(mcc, 0x22),
    ensures
        reads(
            Section::Merchant,
            word("id"),
            string_text(id),
            p,
            Payload { merchant_id: id, ..p },
        ),
        reads(
            Section::Merchant,
            word("mcc"),
            string_text(mcc),
            p,
            Payload { merchant_mcc: mcc, ..p },
        ),
        reads(
            Section::Merchant,
            word("avg_amount"),
            numeral(n),
            p,
            Payload { merchant_avg_amount: n, ..p },
        ),
{
    lemma_names();
    lemma_reads_string(Section::Merchant, word("id"), p, id);
    lemma_reads_string(Section::Merchant, word("mcc"), p, mcc);
    lemma_reads_number(Section::Merchant, word("avg_amount"), p, n);
}

/// What each member of a terminal says.
pub proof fn terminal_members_are_read(p: Payload, n: NumberText, x: bool)
    requires
        is_numeral(n),
    ensures
        reads(
            Section::Terminal,
            word("is_online"),
            truth_text(x),
            p,
            Payload { is_online: x, ..p },
        ),
        reads(
            Section::Terminal,
            word("card_present"),
            truth_text(x),
            p,
            Payload { card_present: x, ..p },
        ),
        reads(
            Section::Terminal,
            word("km_from_home"),
            numeral(n),
            p,
            Payload { km_from_home: n, ..p },
        ),
{
    reveal(reads);
    lemma_names();
    lemma_truth_words();
    lemma_reads_number(Section::Terminal, word("km_from_home"), p, n);
    let value = truth_text(x);
    let online = Payload { is_online: x, ..p };
    let card = Payload { card_present: x, ..p };
    assert forall|b: Seq<u8>, v: int|
        0 <= v && word_at(b, v, value) && value_stops(b, v + value.len()) implies #[trigger]
    field_at(b, Section::Terminal, word("is_online"), v, p) == Some((online, v + value.len()))
        && !is_blank(b[v]) && value.len() > 0 by {
        lemma_bool_read(b, v, x);
        lemma_byte_of(b, v, value, 0);
    }
    assert forall|b: Seq<u8>, v: int|
        0 <= v && word_at(b, v, value) && value_stops(b, v + value.len()) implies #[trigger]
    field_at(b, Section::Terminal, word("card_present"), v, p) == Some((card, v + value.len()))
        && !is_blank(b[v]) && value.len() > 0 by {
        lemma_bool_read(b, v, x);
        lemma_byte_of(b, v, value, 0);
    }
}

/// What each member of a last transaction says.
pub proof fn last_members_are_read(p: Payload, n: NumberText, t: Seq<u8>)
    requires
        is_numeral(n),
        free_of(t, 0x22),
        stamp_of(t) is Some,
    ensures
        reads(
            Section::LastTransaction,
            word("timestamp"),
            string_text(t),
            p,
            Payload { last_tx_stamp: stamp_of(t).unwrap(), ..p },
        ),
        reads(
            Section::LastTransaction,
            word("km_from_current"),
            numeral(n),
            p,
            Payload { last_tx_km: n, ..p },
        ),
{
    lemma_names();
    lemma_reads_string(Section::LastTransaction, word("timestamp"), p, t);
    lemma_reads_number(Section::LastTransaction, word("km_from_current"), p, n);
}

/// Members that are numbers.
proof fn lemma_reads_number(sec: Section, key: Seq<u8>, p: Payload, n: NumberText)
    requires
        is_numeral(n),
    ensures
        sec == Section::Transaction && key == word("amount") ==> reads(
            sec,
            key,
            numeral(n),
            p,
            Payload { amount: n, ..p },
        ),
        sec == Section::Customer && key == word("avg_amount") ==> reads(
            sec,
            key,
            numeral(n),
            p,
            Payload { customer_avg_amount: n, ..p },
        ),
        sec == Section::Merchant && key == word("avg_amount") ==> reads(
            sec,
            key,
            numeral(n),
            p,
            Payload { merchant_avg_amount: n, ..p },
        ),
        sec == Section::Terminal && key == word("km_from_home") ==> reads(
            sec,
            key,
            numeral(n),
            p,
            Payload { km_from_home: n, ..p },
        ),
        sec == Section::LastTransaction && key == word("km_from_current") ==> reads(
            sec,
            key,
            numeral(n),
            p,
            Payload { last_tx_km: n, ..p },
        ),
{
    reveal(reads);
    lemma_names();
    let value = numeral(n);
    assert(value.len() > 0);
    assert forall|b: Seq<u8>, v: int|
        0 <= v && word_at(b, v, value) && value_stops(b, v + value.len()) implies number_at(b, v)
        == Some((n, v + value.len())) && !is_blank(b[v]) && #[trigger] field_at(b, sec, key, v, p)
        == field_at(b, sec, key, v, p) by {
        lemma_number_read(b, v, n);
        lemma_number_first(b, v, n);
    }
}

/// A number does not begin with a blank.
proof fn lemma_number_first(b: Seq<u8>, i: int, n: NumberText)
    requires
        0 <= i,
        is_numeral(n),
        word_at(b, i, numeral(n)),
    ensures
        !is_blank(b[i]),
{
    let t = numeral(n);
    lemma_byte_of(b, i, t, 0);
    if n.neg {
        assert(t[0] == 0x2d);
    } else if n.int_digits.len() > 0 {
        assert(t[0] == n.int_digits[0]);
        assert(0x30 <= n.int_digits[0] <= 0x39);
    } else {
        assert(t[0] == 0x2e);
    }
}

/// Members that are counts.
proof fn lemma_reads_count(sec: Section, key: Seq<u8>, p: Payload, k: u32)
    ensures
        sec == Section::Transaction && key == word("installments") ==> reads(
            sec,
            key,
            digits_of(k as int),
            p,
            Payload { installments: k, ..p },
        ),
        sec == Section::Customer && key == word("tx_count_24h") ==> reads(
            sec,
            key,
            digits_of(k as int),
            p,
            Payload { tx_count_24h: k, ..p },
        ),
{
    reveal(reads);
    lemma_names();
    let value = digits_of(k as int);
    digits_write_number(k as int);
    assert forall|b: Seq<u8>, v: int|
        0 <= v && word_at(b, v, value) && value_stops(b, v + value.len()) implies count_at(b, v)
        == Some((k, v + value.len())) && !is_blank(b[v]) && #[trigger] field_at(b, sec, key, v, p)
        == field_at(b, sec, key, v, p) by {
        lemma_count_read(b, v, k);
        lemma_byte_of(b, v, value, 0);
    }
}

/// Members that are strings.
proof fn lemma_reads_string(sec: Section, key: Seq<u8>, p: Payload, t: Seq<u8>)
    requires
        free_of(t, 0x22),
    ensures
        sec == Section::Transaction && key == word("requested_at") && stamp_of(t) is Some ==> reads(
            sec,
            key,
            string_text(t),
            p,
            Payload { requested_at: stamp_of(t).unwrap(), ..p },
        ),
        sec == Section::LastTransaction && key == word("timestamp") && stamp_of(t) is Some ==> reads(
            sec,
            key,
            string_text(t),
            p,
            Payload { last_tx_stamp: stamp_of(t).unwrap(), ..p },
        ),
        sec == Section::Merchant && key == word("id") ==> reads(
            sec,
            key,
            string_text(t),
            p,
            Payload { merchant_id: t, ..p },
        ),
        sec == Section::Merchant && key == word("mcc") ==> reads(
            sec,
            key,
            string_text(t),
            p,
            Payload { merchant_mcc: t, ..p },
        ),
{
    reveal(reads);
    lemma_names();
    let value = string_text(t);
    assert forall|b: Seq<u8>, v: int|
        0 <= v && word_at(b, v, value) && value_stops(b, v + value.len()) implies string_at(b, v)
        == Some((t, v + value.len())) && !is_blank(b[v]) && #[trigger] field_at(b, sec, key, v, p)
        == field_at(b, sec, key, v, p) by {
        lemma_string_read(b, v, t);
    }
}

} // verus!
