//! Other ways to write a payload, and what is none.

use vstd::prelude::*;
use crate::laws::document::reads_top;
use crate::laws::payload::{
    is_blank, is_gap, lemma_names, lemma_string_read, lemma_truth_words, lemma_ws_none, reads, string_text,
    value_stops,
};
use crate::laws::stand::{
    all_digits, free_of, lemma_byte_of, lemma_digits_stand, lemma_free_stands, lemma_one,
    lemma_split,
};
use crate::parse::{
    array_at, bare_end, bool_at, count_at, expect_at, exponent_at, field_at, member_at, members_at,
    nested_end, number_at, payload_of, string_at, strings_from, top_members_at, value_end, ws_end,
    Payload, Section,
};
use crate::text::{decimal, word, word_at};

verus! {

/// Whether a text, wherever it stands in an object or list with these brackets, leaves them as deep
/// as they were.
#[verifier::opaque]
pub open spec fn passes(t: Seq<u8>, open: u8, close: u8) -> bool {
    forall|b: Seq<u8>, i: int, depth: int|
        0 <= i && 0 < depth && word_at(b, i, t) ==> #[trigger] nested_end(b, i, open, close, depth)
            == nested_end(b, i + t.len(), open, close, depth)
}

/// Text without quotes and brackets, strings with any brackets in them, and matching brackets leave
/// an object or list as deep as it was, and so do such texts one behind the other.
pub proof fn brackets_are_matched(
    plain: Seq<u8>,
    s: Seq<u8>,
    t: Seq<u8>,
    u: Seq<u8>,
    open: u8,
    close: u8,
)
    requires
        free_of(plain, 0x22),
        free_of(plain, open),
        free_of(plain, close),
        free_of(s, 0x22),
        passes(t, open, close),
        passes(u, open, close),
        open != close,
        open != 0x22,
        close != 0x22,
    ensures
        passes(plain, open, close),
        passes(string_text(s), open, close),
        passes(seq![open] + (t + seq![close]), open, close),
        passes(t + u, open, close),
{
    lemma_plain_passes(plain, open, close);
    lemma_string_passes(s, open, close);
    lemma_both_pass(t, u, open, close);
    lemma_nested_passes(t, open, close);
}

proof fn lemma_plain_at(b: Seq<u8>, i: int, depth: int, t: Seq<u8>, open: u8, close: u8)
    requires
        0 <= i,
        0 < depth,
        word_at(b, i, t),
        free_of(t, 0x22),
        free_of(t, open),
        free_of(t, close),
    ensures
        nested_end(b, i, open, close, depth) == nested_end(b, i + t.len(), open, close, depth),
    decreases t.len(),
{
    if t.len() > 0 {
        lemma_byte_of(b, i, t, 0);
        let rest = t.skip(1);
        assert(t =~= seq![t[0]] + rest);
        lemma_split(b, i, seq![t[0]], rest);
        assert(t[0] != 0x22 && t[0] != open && t[0] != close) by {
            reveal(free_of);
        }
        assert(free_of(rest, 0x22) && free_of(rest, open) && free_of(rest, close)) by {
            reveal(free_of);
            assert forall|k: int| 0 <= k < rest.len() implies #[trigger] rest[k] == t[k + 1] by {}
        }
        lemma_plain_at(b, i + 1, depth, rest, open, close);
    }
}

proof fn lemma_plain_passes(t: Seq<u8>, open: u8, close: u8)
    requires
        free_of(t, 0x22),
        free_of(t, open),
        free_of(t, close),
    ensures
        passes(t, open, close),
{
    reveal(passes);
    assert forall|b: Seq<u8>, i: int, depth: int|
        0 <= i && 0 < depth && word_at(b, i, t) implies #[trigger] nested_end(
        b,
        i,
        open,
        close,
        depth,
    ) == nested_end(b, i + t.len(), open, close, depth) by {
        lemma_plain_at(b, i, depth, t, open, close);
    }
}

proof fn lemma_string_passes(s: Seq<u8>, open: u8, close: u8)
    requires
        free_of(s, 0x22),
    ensures
        passes(string_text(s), open, close),
{
    reveal(passes);
    let t = string_text(s);
    assert forall|b: Seq<u8>, i: int, depth: int|
        0 <= i && 0 < depth && word_at(b, i, t) implies #[trigger] nested_end(
        b,
        i,
        open,
        close,
        depth,
    ) == nested_end(b, i + t.len(), open, close, depth) by {
        lemma_split(b, i, seq![0x22u8], s + seq![0x22u8]);
        lemma_one(b, i, 0x22);
        lemma_split(b, i + 1, s, seq![0x22u8]);
        lemma_one(b, i + 1 + s.len(), 0x22);
        lemma_free_stands(b, i + 1, s, 0x22);
    }
}

proof fn lemma_both_pass(t: Seq<u8>, u: Seq<u8>, open: u8, close: u8)
    requires
        passes(t, open, close),
        passes(u, open, close),
    ensures
        passes(t + u, open, close),
{
    reveal(passes);
    let w = t + u;
    assert forall|b: Seq<u8>, i: int, depth: int|
        0 <= i && 0 < depth && word_at(b, i, w) implies #[trigger] nested_end(
        b,
        i,
        open,
        close,
        depth,
    ) == nested_end(b, i + w.len(), open, close, depth) by {
        lemma_split(b, i, t, u);
        assert(nested_end(b, i, open, close, depth) == nested_end(
            b,
            i + t.len(),
            open,
            close,
            depth,
        ));
    }
}

proof fn lemma_closed_at(b: Seq<u8>, i: int, depth: int, t: Seq<u8>, open: u8, close: u8)
    requires
        0 <= i,
        0 < depth,
        word_at(b, i, t + seq![close]),
        passes(t, open, close),
        open != close,
        close != 0x22,
    ensures
        nested_end(b, i, open, close, depth) == nested_end(
            b,
            i + t.len() + 1,
            open,
            close,
            depth - 1,
        ),
{
    reveal(passes);
    lemma_split(b, i, t, seq![close]);
    lemma_one(b, i + t.len(), close);
    assert(nested_end(b, i, open, close, depth) == nested_end(b, i + t.len(), open, close, depth));
}

proof fn lemma_nested_passes(t: Seq<u8>, open: u8, close: u8)
    requires
        passes(t, open, close),
        open != close,
        open != 0x22,
        close != 0x22,
    ensures
        passes(seq![open] + (t + seq![close]), open, close),
{
    let w = seq![open] + (t + seq![close]);
    assert forall|b: Seq<u8>, i: int, depth: int|
        0 <= i && 0 < depth && word_at(b, i, w) implies #[trigger] nested_end(
        b,
        i,
        open,
        close,
        depth,
    ) == nested_end(b, i + w.len(), open, close, depth) by {
        lemma_split(b, i, seq![open], t + seq![close]);
        lemma_one(b, i, open);
        lemma_closed_at(b, i + 1, depth + 1, t, open, close);
    }
    reveal(passes);
}

/// Whether a value, wherever it stands, is skipped whole.
#[verifier::opaque]
pub open spec fn is_skipped(value: Seq<u8>) -> bool {
    forall|b: Seq<u8>, v: int|
        0 <= v && word_at(b, v, value) && value_stops(b, v + value.len()) ==> #[trigger] value_end(
            b,
            v,
        ) == Some(v + value.len()) && !is_blank(b[v]) && value.len() > 0
}

/// Objects and lists with matching brackets, strings, and the words true, false and null are skipped
/// whole.
pub proof fn values_are_skipped(t: Seq<u8>, u: Seq<u8>, s: Seq<u8>)
    requires
        passes(t, 0x7b, 0x7d),
        passes(u, 0x5b, 0x5d),
        free_of(s, 0x22),
    ensures
        is_skipped(seq![0x7bu8] + (t + seq![0x7du8])),
        is_skipped(seq![0x5bu8] + (u + seq![0x5du8])),
        is_skipped(string_text(s)),
        is_skipped(word("true")),
        is_skipped(word("false")),
        is_skipped(word("null")),
{
    lemma_object_skipped(t, 0x7b, 0x7d);
    lemma_object_skipped(u, 0x5b, 0x5d);
    lemma_truth_words();
    reveal(is_skipped);
    assert forall|b: Seq<u8>, v: int|
        0 <= v && word_at(b, v, string_text(s)) implies #[trigger] value_end(b, v) == Some(
        v + string_text(s).len(),
    ) && b[v] == 0x22 by {
        lemma_string_read(b, v, s);
        lemma_ws_none(b, v);
    }
    assert forall|b: Seq<u8>, v: int|
        0 <= v && (word_at(b, v, word("true")) || word_at(b, v, word("null"))) implies #[trigger] value_end(
        b,
        v,
    ) == Some(v + 4) && (b[v] == 0x74 || b[v] == 0x6e) by {
        if word_at(b, v, word("true")) {
            lemma_byte_of(b, v, word("true"), 0);
        } else {
            lemma_byte_of(b, v, word("null"), 0);
        }
        lemma_ws_none(b, v);
    }
    assert forall|b: Seq<u8>, v: int|
        0 <= v && word_at(b, v, word("false")) implies #[trigger] value_end(b, v) == Some(v + 5)
        && b[v] == 0x66 by {
        lemma_byte_of(b, v, word("false"), 0);
        lemma_ws_none(b, v);
    }
}

proof fn lemma_object_skipped(t: Seq<u8>, open: u8, close: u8)
    requires
        passes(t, open, close),
        (open == 0x7b && close == 0x7d) || (open == 0x5b && close == 0x5d),
    ensures
        is_skipped(seq![open] + (t + seq![close])),
{
    reveal(is_skipped);
    let w = seq![open] + (t + seq![close]);
    assert forall|b: Seq<u8>, v: int| 0 <= v && word_at(b, v, w) implies #[trigger] value_end(b, v)
        == Some(v + w.len()) && b[v] == open by {
        lemma_split(b, v, seq![open], t + seq![close]);
        lemma_one(b, v, open);
        lemma_ws_none(b, v);
        lemma_closed_at(b, v + 1, 1, t, open, close);
    }
}

/// Whether a text is a bare value, such as a number: it has no white space, comma or closing bracket,
/// and begins with none of the signs that other values begin with.
pub open spec fn is_bare(t: Seq<u8>) -> bool {
    &&& t.len() > 0
    &&& t[0] != 0x22 && t[0] != 0x7b && t[0] != 0x5b && t[0] != 0x74 && t[0] != 0x66 && t[0] != 0x6e
    &&& forall|k: int|
        0 <= k < t.len() ==> !is_blank(#[trigger] t[k]) && t[k] != 0x2c && t[k] != 0x7d && t[k]
            != 0x5d
}

proof fn lemma_bare_end(b: Seq<u8>, i: int, t: Seq<u8>)
    requires
        0 <= i,
        word_at(b, i, t),
        value_stops(b, i + t.len()),
        forall|k: int|
            0 <= k < t.len() ==> !is_blank(#[trigger] t[k]) && t[k] != 0x2c && t[k] != 0x7d && t[k]
                != 0x5d,
    ensures
        bare_end(b, i) == i + t.len(),
    decreases t.len(),
{
    if t.len() > 0 {
        lemma_byte_of(b, i, t, 0);
        let rest = t.skip(1);
        assert(t =~= seq![t[0]] + rest);
        lemma_split(b, i, seq![t[0]], rest);
        assert forall|k: int| 0 <= k < rest.len() implies !is_blank(#[trigger] rest[k]) && rest[k]
            != 0x2c && rest[k] != 0x7d && rest[k] != 0x5d by {
            assert(rest[k] == t[k + 1]);
        }
        lemma_bare_end(b, i + 1, rest);
    }
}

/// Bare values are skipped whole.
pub proof fn bare_values_are_skipped(t: Seq<u8>)
    requires
        is_bare(t),
    ensures
        is_skipped(t),
{
    reveal(is_skipped);
    assert forall|b: Seq<u8>, v: int|
        0 <= v && word_at(b, v, t) && value_stops(b, v + t.len()) implies #[trigger] value_end(b, v)
        == Some(v + t.len()) && !is_blank(b[v]) by {
        lemma_byte_of(b, v, t, 0);
        assert(!is_blank(t[0]));
        lemma_ws_none(b, v);
        lemma_bare_end(b, v, t);
    }
}

/// The names that are known in each section.
pub open spec fn is_known(sec: Section, key: Seq<u8>) -> bool {
    match sec {
        Section::Transaction => key == word("amount") || key == word("installments") || key == word(
            "requested_at",
        ),
        Section::Customer => key == word("avg_amount") || key == word("tx_count_24h") || key
            == word("known_merchants"),
        Section::Merchant => key == word("id") || key == word("mcc") || key == word("avg_amount"),
        Section::Terminal => key == word("is_online") || key == word("card_present") || key == word(
            "km_from_home",
        ),
        Section::LastTransaction => key == word("timestamp") || key == word("km_from_current"),
    }
}

/// The names of sections.
pub open spec fn is_section(key: Seq<u8>) -> bool {
    key == word("transaction") || key == word("customer") || key == word("merchant") || key == word(
        "terminal",
    ) || key == word("last_transaction")
}

/// A member that is not known where it stands, whatever its value, changes nothing.
pub proof fn unknown_members_are_skipped(sec: Section, key: Seq<u8>, value: Seq<u8>, p: Payload)
    requires
        is_skipped(value),
    ensures
        !is_known(sec, key) ==> reads(sec, key, value, p, p),
        !is_section(key) ==> reads_top(key, value, p, p),
{
    reveal(is_skipped);
    reveal(reads);
    reveal(reads_top);
    if !is_known(sec, key) {
        assert forall|b: Seq<u8>, v: int|
            0 <= v && word_at(b, v, value) && value_stops(b, v + value.len()) implies #[trigger] field_at(
            b,
            sec,
            key,
            v,
            p,
        ) == Some((p, v + value.len())) && !is_blank(b[v]) && value.len() > 0 by {
            assert(value_end(b, v) == Some(v + value.len()));
        }
    }
    if !is_section(key) {
        assert forall|b: Seq<u8>, v: int|
            0 <= v && word_at(b, v, value) && value_stops(b, v + value.len()) implies #[trigger] member_at(
            b,
            key,
            v,
            p,
        ) == Some((p, v + value.len())) by {
            assert(value_end(b, v) == Some(v + value.len()));
        }
    }
}

/// A list of known merchants with matching brackets is taken over as it is written.
pub proof fn lists_are_read(t: Seq<u8>, p: Payload)
    requires
        passes(t, 0x5b, 0x5d),
    ensures
        ({
            let list = seq![0x5bu8] + (t + seq![0x5du8]);
            reads(
                Section::Customer,
                word("known_merchants"),
                list,
                p,
                Payload { known_merchants: list, ..p },
            )
        }),
{
    reveal(reads);
    lemma_names();
    let list = seq![0x5bu8] + (t + seq![0x5du8]);
    let key = word("known_merchants");
    let q = Payload { known_merchants: list, ..p };
    assert forall|b: Seq<u8>, v: int|
        0 <= v && word_at(b, v, list) && value_stops(b, v + list.len()) implies #[trigger] field_at(
        b,
        Section::Customer,
        key,
        v,
        p,
    ) == Some((q, v + list.len())) && !is_blank(b[v]) && list.len() > 0 by {
        lemma_split(b, v, seq![0x5bu8], t + seq![0x5du8]);
        lemma_one(b, v, 0x5b);
        lemma_ws_none(b, v);
        lemma_closed_at(b, v + 1, 1, t, 0x5b, 0x5d);
        assert(b.subrange(v, v + list.len()) == list);
        assert(array_at(b, v) == Some((list, v + list.len())));
    }
}

/// Names in quotes, each with something before it, and what comes behind the last.
pub open spec fn spaced(gaps: Seq<Seq<u8>>, names: Seq<Seq<u8>>, rest: Seq<u8>) -> Seq<u8>
    decreases names.len(),
{
    if names.len() == 0 {
        rest
    } else {
        gaps[0] + (string_text(names[0]) + spaced(gaps.skip(1), names.skip(1), rest))
    }
}

proof fn lemma_no_strings(b: Seq<u8>, i: int, g: Seq<u8>)
    requires
        0 <= i,
        word_at(b, i, g),
        free_of(g, 0x22),
    ensures
        strings_from(b, i) == strings_from(b, i + g.len()),
    decreases g.len(),
{
    if g.len() > 0 {
        lemma_byte_of(b, i, g, 0);
        let rest = g.skip(1);
        assert(g =~= seq![g[0]] + rest);
        lemma_split(b, i, seq![g[0]], rest);
        assert(g[0] != 0x22 && free_of(rest, 0x22)) by {
            reveal(free_of);
            assert forall|k: int| 0 <= k < rest.len() implies #[trigger] rest[k] == g[k + 1] by {}
        }
        lemma_no_strings(b, i + 1, rest);
    }
}

/// The names on a list are found whatever stands between them, as long as it has no quotes.
pub proof fn spaced_names_are_found(
    b: Seq<u8>,
    i: int,
    gaps: Seq<Seq<u8>>,
    names: Seq<Seq<u8>>,
    rest: Seq<u8>,
)
    requires
        0 <= i,
        b.len() == i + spaced(gaps, names, rest).len(),
        word_at(b, i, spaced(gaps, names, rest)),
        gaps.len() == names.len(),
        forall|k: int| 0 <= k < names.len() ==> free_of(#[trigger] names[k], 0x22),
        forall|k: int| 0 <= k < names.len() ==> free_of(#[trigger] gaps[k], 0x22),
        free_of(rest, 0x22),
    ensures
        strings_from(b, i) == names,
    decreases names.len(),
{
    if names.len() == 0 {
        lemma_no_strings(b, i, rest);
        assert(names =~= Seq::empty());
    } else {
        let (g, n) = (gaps[0], names[0]);
        let (gs, ns) = (gaps.skip(1), names.skip(1));
        let t = spaced(gs, ns, rest);
        assert(free_of(g, 0x22) && free_of(n, 0x22));
        lemma_split(b, i, g, string_text(n) + t);
        let s = i + g.len();
        lemma_split(b, s, string_text(n), t);
        lemma_no_strings(b, i, g);
        lemma_split(b, s, seq![0x22u8], n + seq![0x22u8]);
        lemma_one(b, s, 0x22);
        lemma_split(b, s + 1, n, seq![0x22u8]);
        lemma_one(b, s + 1 + n.len(), 0x22);
        lemma_free_stands(b, s + 1, n, 0x22);
        assert forall|k: int| 0 <= k < ns.len() implies free_of(#[trigger] ns[k], 0x22) by {
            assert(ns[k] == names[k + 1]);
        }
        assert forall|k: int| 0 <= k < ns.len() implies free_of(#[trigger] gs[k], 0x22) by {
            assert(gs[k] == gaps[k + 1]);
        }
        spaced_names_are_found(b, s + n.len() + 2, gs, ns, rest);
        assert(seq![n] + ns =~= names);
    }
}

/// An exponent as it may be written: its letter, its sign and its digits.
pub struct Exponent {
    pub letter: u8,
    pub sign: Seq<u8>,
    pub digits: Seq<u8>,
}

/// Whether a text is a sign or nothing.
pub open spec fn is_sign(s: Seq<u8>) -> bool {
    s == Seq::<u8>::empty() || s == seq![0x2du8] || s == seq![0x2bu8]
}

impl Exponent {
    pub open spec fn wf(self) -> bool {
        &&& self.letter == 0x65 || self.letter == 0x45
        &&& is_sign(self.sign)
        &&& all_digits(self.digits)
        &&& self.digits.len() > 0
    }

    pub open spec fn text(self) -> Seq<u8> {
        seq![self.letter] + (self.sign + self.digits)
    }

    /// Its value, but not more than what four bytes hold.
    pub open spec fn value(self) -> int {
        let n = if decimal(self.digits) > 0x7fff_ffff {
            0x7fff_ffff
        } else {
            decimal(self.digits)
        };
        if self.sign == seq![0x2du8] {
            -n
        } else {
            n
        }
    }
}

proof fn lemma_exponent(b: Seq<u8>, i: int, x: Exponent)
    requires
        0 <= i,
        x.wf(),
        word_at(b, i, x.text()),
        value_stops(b, i + x.text().len()),
    ensures
        exponent_at(b, i) == Some((x.value(), i + x.text().len())),
        b[i] == x.letter,
{
    lemma_split(b, i, seq![x.letter], x.sign + x.digits);
    lemma_one(b, i, x.letter);
    lemma_split(b, i + 1, x.sign, x.digits);
    let s = i + 1 + x.sign.len();
    lemma_byte_of(b, s, x.digits, 0);
    if x.sign.len() > 0 {
        lemma_byte_of(b, i + 1, x.sign, 0);
    }
    lemma_digits_stand(b, s, x.digits);
    assert(b.subrange(s, s + x.digits.len()) == x.digits);
    assert(Seq::<u8>::empty() != seq![0x2du8]) by {
        assert(Seq::<u8>::empty().len() != seq![0x2du8].len());
    }
    assert(seq![0x2bu8] != seq![0x2du8]) by {
        assert(seq![0x2bu8][0] != seq![0x2du8][0]);
    }
}

/// Numbers are read in all their spellings: with either sign or none, with a point and digits on
/// either side of it or both, and with an exponent in either letter and with either sign or none.
pub proof fn numbers_are_read(
    b: Seq<u8>,
    i: int,
    sign: Seq<u8>,
    whole: Seq<u8>,
    point: Option<Seq<u8>>,
    exponent: Option<Exponent>,
)
    requires
        0 <= i,
        is_sign(sign),
        all_digits(whole),
        point matches Some(d) ==> all_digits(d),
        whole.len() > 0 || (point matches Some(d) && d.len() > 0),
        exponent matches Some(x) ==> x.wf(),
        ({
            let text = spelling(sign, whole, point, exponent);
            word_at(b, i, text) && value_stops(b, i + text.len())
        }),
    ensures
        ({
            let text = spelling(sign, whole, point, exponent);
            number_at(b, i) matches Some((n, e)) && e == i + text.len() && n.neg == (sign
                == seq![0x2du8]) && n.int_digits == whole && n.frac_digits == (match point {
                Some(d) => d,
                None => Seq::empty(),
            }) && n.exp == (match exponent {
                Some(x) => x.value(),
                None => 0,
            })
        }),
{
    let f = point_text(point);
    let x = match exponent {
        Some(x) => x.text(),
        None => Seq::empty(),
    };
    let text = spelling(sign, whole, point, exponent);
    lemma_split(b, i, sign, whole + (f + x));
    let i1 = i + sign.len();
    lemma_split(b, i1, whole, f + x);
    let i2 = i1 + whole.len();
    lemma_split(b, i2, f, x);
    let i3 = i2 + f.len();
    assert(i3 < b.len() && !(0x30 <= b[i3] <= 0x39) && b[i3] != 0x2e) by {
        if let Some(y) = exponent {
            lemma_exponent(b, i3, y);
        }
    }
    if sign.len() > 0 {
        lemma_byte_of(b, i, sign, 0);
    }
    if whole.len() > 0 {
        lemma_byte_of(b, i1, whole, 0);
        assert(0x30 <= whole[0] <= 0x39);
    }
    assert(Seq::<u8>::empty() != seq![0x2du8]) by {
        assert(Seq::<u8>::empty().len() != seq![0x2du8].len());
    }
    assert(seq![0x2bu8] != seq![0x2du8]) by {
        assert(seq![0x2bu8][0] != seq![0x2du8][0]);
    }
    match point {
        Some(d) => {
            lemma_split(b, i2, seq![0x2eu8], d);
            lemma_one(b, i2, 0x2e);
            lemma_digits_stand(b, i2 + 1, d);
            assert(b.subrange(i2 + 1, i3) == d);
        },
        None => {
            assert(b.subrange(i2, i2) =~= Seq::empty());
        },
    }
    lemma_digits_stand(b, i1, whole);
    assert(b.subrange(i1, i2) == whole);
    assert(!is_blank(b[i]));
    lemma_ws_none(b, i);
    if let Some(y) = exponent {
        lemma_exponent(b, i3, y);
    }
}

/// A point with the digits behind it.
pub open spec fn point_text(point: Option<Seq<u8>>) -> Seq<u8> {
    match point {
        Some(d) => seq![0x2eu8] + d,
        None => Seq::empty(),
    }
}

/// A number as it may be written.
pub open spec fn spelling(
    sign: Seq<u8>,
    whole: Seq<u8>,
    point: Option<Seq<u8>>,
    exponent: Option<Exponent>,
) -> Seq<u8> {
    sign + (whole + (point_text(point) + match exponent {
        Some(x) => x.text(),
        None => Seq::empty(),
    }))
}

proof fn lemma_not_negative(d: Seq<u8>)
    requires
        all_digits(d),
    ensures
        0 <= decimal(d),
    decreases d.len(),
{
    if d.len() > 0 {
        let rest = d.drop_last();
        assert forall|k: int| 0 <= k < rest.len() implies 0x30 <= #[trigger] rest[k] <= 0x39 by {
            assert(rest[k] == d[k]);
        }
        lemma_not_negative(rest);
        assert(0x30 <= d[d.len() - 1] <= 0x39);
    }
}

/// Counts are read in any number of digits; one that is greater than four bytes hold counts as the
/// greatest.
pub proof fn counts_are_read(b: Seq<u8>, i: int, d: Seq<u8>)
    requires
        0 <= i,
        all_digits(d),
        d.len() > 0,
        word_at(b, i, d),
        i + d.len() < b.len() ==> !(0x30 <= b[i + d.len()] <= 0x39),
    ensures
        count_at(b, i) matches Some((n, e)) && e == i + d.len() && n == (if decimal(d)
            > 0xffff_ffff {
            0xffff_ffff
        } else {
            decimal(d)
        }),
{
    lemma_not_negative(d);
    lemma_byte_of(b, i, d, 0);
    lemma_ws_none(b, i);
    lemma_digits_stand(b, i, d);
    assert(b.subrange(i, i + d.len()) == d);
}

/// What a payload says of what it does not hold.
pub proof fn missing_members_say_nothing()
    ensures
        ({
            let p = Payload::empty();
            &&& p.amount.int_digits.len() == 0 && p.amount.frac_digits.len() == 0
            &&& p.amount == p.customer_avg_amount && p.amount == p.merchant_avg_amount
            &&& p.amount == p.km_from_home && p.amount == p.last_tx_km
            &&& !p.amount.neg && p.amount.exp == 0
            &&& p.installments == 0 && p.tx_count_24h == 0
            &&& p.requested_at.epoch_minutes == 0 && p.requested_at.hour == 0
            &&& p.requested_at.weekday == 0 && p.last_tx_stamp == p.requested_at
            &&& p.known_merchants.len() == 0 && p.merchant_id.len() == 0
            &&& p.merchant_mcc.len() == 0
            &&& !p.is_online && !p.card_present && !p.has_last_tx
        }),
{
}

proof fn lemma_first_sign(b: Seq<u8>, i: int)
    requires
        0 <= i,
    ensures
        i <= ws_end(b, i),
        ws_end(b, i) < b.len() ==> !is_blank(b[ws_end(b, i)]),
        forall|j: int| i <= j < ws_end(b, i) ==> is_blank(#[trigger] b[j]),
    decreases b.len() - i,
{
    if i < b.len() && is_blank(b[i]) {
        lemma_first_sign(b, i + 1);
    }
}

proof fn lemma_blanks(b: Seq<u8>, i: int, g: Seq<u8>)
    requires
        0 <= i,
        word_at(b, i, g),
        is_gap(g),
    ensures
        ws_end(b, i) == ws_end(b, i + g.len()),
    decreases g.len(),
{
    if g.len() > 0 {
        lemma_byte_of(b, i, g, 0);
        assert(is_blank(g[0]));
        let rest = g.skip(1);
        assert(g =~= seq![g[0]] + rest);
        lemma_split(b, i, seq![g[0]], rest);
        assert forall|k: int| 0 <= k < rest.len() implies is_blank(#[trigger] rest[k]) by {
            assert(rest[k] == g[k + 1]);
        }
        lemma_blanks(b, i + 1, rest);
    }
}

/// White space before a value does not matter.
pub proof fn blanks_come_first(b: Seq<u8>, i: int, g: Seq<u8>, c: u8)
    requires
        0 <= i,
        word_at(b, i, g),
        is_gap(g),
    ensures
        ({
            let j = i + g.len();
            &&& string_at(b, i) == string_at(b, j)
            &&& array_at(b, i) == array_at(b, j)
            &&& bool_at(b, i) == bool_at(b, j)
            &&& number_at(b, i) == number_at(b, j)
            &&& count_at(b, i) == count_at(b, j)
            &&& expect_at(b, i, c) == expect_at(b, j, c)
            &&& value_end(b, i) == value_end(b, j)
        }),
{
    lemma_blanks(b, i, g);
}

/// Values of another kind than wanted are refused: what is wanted goes by the first sign that is no
/// blank.
pub proof fn other_values_are_refused(b: Seq<u8>, i: int)
    requires
        0 <= i,
    ensures
        ({
            let j = ws_end(b, i);
            let c = b[j];
            &&& string_at(b, i) is Some ==> j < b.len() && c == 0x22
            &&& array_at(b, i) is Some ==> j < b.len() && c == 0x5b
            &&& bool_at(b, i) is Some ==> word_at(b, j, word("true")) || word_at(b, j, word("false"))
            &&& number_at(b, i) is Some ==> j < b.len() && (0x30 <= c <= 0x39 || c == 0x2e || c
                == 0x2d || c == 0x2b)
            &&& count_at(b, i) is Some ==> j < b.len() && 0x30 <= c <= 0x39
            &&& expect_at(b, i, 0x3a) is Some ==> j < b.len() && c == 0x3a
            &&& value_end(b, i) is Some ==> j < b.len()
            &&& j < b.len() ==> !is_blank(c)
            &&& forall|k: int| i <= k < j ==> is_blank(#[trigger] b[k])
        }),
{
    lemma_first_sign(b, i);
}

/// A payload begins with an opening brace, with nothing but white space before it.
pub proof fn payloads_begin_with_a_brace(b: Seq<u8>)
    requires
        payload_of(b) is Some,
    ensures
        exists|j: int|
            0 <= j < b.len() && b[j] == 0x7b && forall|k: int|
                0 <= k < j ==> is_blank(#[trigger] b[k]),
{
    lemma_first_sign(b, 0);
    let j = ws_end(b, 0);
    assert(b[j] == 0x7b);
}

/// Members are refused where a name, a colon or a readable value is missing, and where neither a
/// comma nor a closing brace follows.
pub proof fn broken_members_are_refused(b: Seq<u8>, sec: Section, i: int, p: Payload)
    requires
        0 <= i,
        ({
            let j = ws_end(b, i);
            !(j < b.len() && b[j] == 0x7d)
        }),
    ensures
        ({
            let j = ws_end(b, i);
            match string_at(b, j) {
                None => members_at(b, sec, i, p) is None && top_members_at(b, i, p) is None,
                Some((key, n)) => match expect_at(b, n, 0x3a) {
                    None => members_at(b, sec, i, p) is None && top_members_at(b, i, p) is None,
                    Some(k) => {
                        let v = ws_end(b, k);
                        let x = field_at(b, sec, key, v, p);
                        let y = member_at(b, key, v, p);
                        &&& x is None ==> members_at(b, sec, i, p) is None
                        &&& y is None ==> top_members_at(b, i, p) is None
                        &&& x matches Some((_, e)) ==> {
                            let s = ws_end(b, e);
                            (s >= b.len() || (b[s] != 0x2c && b[s] != 0x7d)) ==> members_at(
                                b,
                                sec,
                                i,
                                p,
                            ) is None
                        }
                        &&& y matches Some((_, e)) ==> {
                            let s = ws_end(b, e);
                            (s >= b.len() || (b[s] != 0x2c && b[s] != 0x7d)) ==> top_members_at(
                                b,
                                i,
                                p,
                            ) is None
                        }
                    },
                },
            }
        }),
{
}

} // verus!
