//! What stands behind the closing brace of a payload does not matter.

use vstd::prelude::*;
use crate::parse::{
    array_at, bare_end, bool_at, count_at, ends_bare, expect_at, exponent_at, field_at, is_ws,
    lemma_field_end, lemma_key_end, lemma_member_end, lemma_nested_end, lemma_word_lengths,
    lemma_ws_end, member_at, members_at, nested_end, number_at, object_at, payload_of, sign_end,
    stamp_at, string_at, top_members_at, value_end, ws_end, Payload, Section,
};
use crate::text::{byte_end, digits_end, is_digit, lemma_byte_end, lemma_digits_end, word, word_at};

verus! {

/// Whether `w` goes on where `b` ends.
pub open spec fn goes_on(b: Seq<u8>, w: Seq<u8>) -> bool {
    b.len() <= w.len() && forall|k: int| 0 <= k < b.len() ==> #[trigger] w[k] == b[k]
}

proof fn lemma_ws(b: Seq<u8>, w: Seq<u8>, i: int)
    requires
        goes_on(b, w),
        0 <= i,
        ws_end(b, i) < b.len(),
    ensures
        ws_end(w, i) == ws_end(b, i),
    decreases b.len() - i,
{
    lemma_ws_end(b, i);
    if is_ws(b[i]) {
        lemma_ws(b, w, i + 1);
    }
}

proof fn lemma_byte(b: Seq<u8>, w: Seq<u8>, i: int, c: u8)
    requires
        goes_on(b, w),
        0 <= i <= b.len(),
        byte_end(b, i, c) < b.len(),
    ensures
        byte_end(w, i, c) == byte_end(b, i, c),
    decreases b.len() - i,
{
    lemma_byte_end(b, i, c);
    if b[i] != c {
        lemma_byte(b, w, i + 1, c);
    }
}

proof fn lemma_digits(b: Seq<u8>, w: Seq<u8>, i: int)
    requires
        goes_on(b, w),
        0 <= i <= b.len(),
        digits_end(b, i) < b.len(),
    ensures
        digits_end(w, i) == digits_end(b, i),
    decreases b.len() - i,
{
    lemma_digits_end(b, i);
    if is_digit(b[i]) {
        lemma_digits(b, w, i + 1);
    }
}

proof fn lemma_bare(b: Seq<u8>, w: Seq<u8>, i: int)
    requires
        goes_on(b, w),
        0 <= i,
        bare_end(b, i) < b.len(),
    ensures
        bare_end(w, i) == bare_end(b, i),
    decreases b.len() - i,
{
    if i < b.len() && !ends_bare(b[i]) {
        lemma_bare(b, w, i + 1);
    }
}

proof fn lemma_nested(b: Seq<u8>, w: Seq<u8>, i: int, open: u8, close: u8, depth: int)
    requires
        goes_on(b, w),
        0 <= i,
        nested_end(b, i, open, close, depth) is Some,
    ensures
        nested_end(w, i, open, close, depth) == nested_end(b, i, open, close, depth),
    decreases b.len() + 1 - i,
{
    if depth != 0 {
        if b[i] == 0x22 {
            lemma_byte_end(b, i + 1, 0x22);
            let e = byte_end(b, i + 1, 0x22);
            if e >= b.len() {
                assert(nested_end(b, e + 1, open, close, depth) is None);
            }
            lemma_byte(b, w, i + 1, 0x22);
            lemma_nested(b, w, e + 1, open, close, depth);
        } else if b[i] == open {
            lemma_nested(b, w, i + 1, open, close, depth + 1);
        } else if b[i] == close {
            lemma_nested(b, w, i + 1, open, close, depth - 1);
        } else {
            lemma_nested(b, w, i + 1, open, close, depth);
        }
    }
}

proof fn lemma_expect(b: Seq<u8>, w: Seq<u8>, i: int, c: u8)
    requires
        goes_on(b, w),
        0 <= i,
        expect_at(b, i, c) is Some,
    ensures
        expect_at(w, i, c) == expect_at(b, i, c),
{
    lemma_ws_end(b, i);
    lemma_ws(b, w, i);
}

proof fn lemma_string(b: Seq<u8>, w: Seq<u8>, i: int)
    requires
        goes_on(b, w),
        0 <= i,
        string_at(b, i) is Some,
    ensures
        string_at(w, i) == string_at(b, i),
{
    let j = ws_end(b, i);
    lemma_ws_end(b, i);
    lemma_ws(b, w, i);
    lemma_byte_end(b, j + 1, 0x22);
    let e = byte_end(b, j + 1, 0x22);
    lemma_byte(b, w, j + 1, 0x22);
    assert(w.subrange(j + 1, e) =~= b.subrange(j + 1, e));
}

proof fn lemma_exponent(b: Seq<u8>, w: Seq<u8>, i: int)
    requires
        goes_on(b, w),
        0 <= i <= b.len(),
        exponent_at(b, i) matches Some((_, e)) && e < b.len(),
    ensures
        exponent_at(w, i) == exponent_at(b, i),
{
    if i < b.len() && (b[i] == 0x65 || b[i] == 0x45) {
        let s = sign_end(b, i + 1);
        lemma_digits_end(b, s);
        let e = digits_end(b, s);
        assert(s < e);
        assert(sign_end(w, i + 1) == s);
        lemma_digits(b, w, s);
        assert(w.subrange(s, e) =~= b.subrange(s, e));
    }
}

proof fn lemma_number(b: Seq<u8>, w: Seq<u8>, i: int)
    requires
        goes_on(b, w),
        0 <= i,
        number_at(b, i) matches Some((_, e)) && e < b.len(),
    ensures
        number_at(w, i) == number_at(b, i),
{
    let i0 = ws_end(b, i);
    lemma_ws_end(b, i);
    lemma_ws(b, w, i);
    let i1 = sign_end(b, i0);
    lemma_digits_end(b, i1);
    let i2 = digits_end(b, i1);
    let f0 = if i2 < b.len() && b[i2] == 0x2e {
        i2 + 1
    } else {
        i2
    };
    if f0 > i2 {
        lemma_digits_end(b, f0);
    }
    let f1 = if f0 > i2 {
        digits_end(b, f0)
    } else {
        f0
    };
    if f1 < b.len() && (b[f1] == 0x65 || b[f1] == 0x45) {
        lemma_digits_end(b, sign_end(b, f1 + 1));
    }
    assert(f1 < b.len());
    lemma_digits(b, w, i1);
    if f0 > i2 {
        lemma_digits(b, w, f0);
    }
    lemma_exponent(b, w, f1);
    assert(w.subrange(i1, i2) =~= b.subrange(i1, i2));
    assert(w.subrange(f0, f1) =~= b.subrange(f0, f1));
}

proof fn lemma_count(b: Seq<u8>, w: Seq<u8>, i: int)
    requires
        goes_on(b, w),
        0 <= i,
        count_at(b, i) matches Some((_, e)) && e < b.len(),
    ensures
        count_at(w, i) == count_at(b, i),
{
    let s = ws_end(b, i);
    lemma_ws_end(b, i);
    if s >= b.len() {
        assert(digits_end(b, s) == s);
    }
    lemma_digits_end(b, s);
    let e = digits_end(b, s);
    lemma_ws(b, w, i);
    lemma_digits(b, w, s);
    assert(w.subrange(s, e) =~= b.subrange(s, e));
}

proof fn lemma_word(b: Seq<u8>, w: Seq<u8>, i: int, t: Seq<u8>)
    requires
        goes_on(b, w),
        0 <= i,
        word_at(b, i, t),
    ensures
        word_at(w, i, t),
{
    assert(w.subrange(i, i + t.len()) =~= b.subrange(i, i + t.len()));
}

/// The first letters of the words.
proof fn lemma_first_letters()
    ensures
        word("true").len() == 4,
        word("true")[0] == 0x74,
        word("false").len() == 5,
        word("false")[0] == 0x66,
        word("null").len() == 4,
        word("null")[0] == 0x6e,
{
    lemma_word_lengths();
    reveal_strlit("true");
    reveal_strlit("false");
    reveal_strlit("null");
    vstd::utf8::is_ascii_chars_encode_utf8("true"@);
    vstd::utf8::is_ascii_chars_encode_utf8("false"@);
    vstd::utf8::is_ascii_chars_encode_utf8("null"@);
}

proof fn lemma_bool(b: Seq<u8>, w: Seq<u8>, i: int)
    requires
        goes_on(b, w),
        0 <= i,
        bool_at(b, i) is Some,
    ensures
        bool_at(w, i) == bool_at(b, i),
{
    let j = ws_end(b, i);
    lemma_first_letters();
    lemma_ws_end(b, i);
    lemma_ws(b, w, i);
    if word_at(b, j, word("true")) {
        lemma_word(b, w, j, word("true"));
    } else {
        lemma_word(b, w, j, word("false"));
        assert(b.subrange(j, j + 5)[0] == b[j]);
        if word_at(w, j, word("true")) {
            assert(w.subrange(j, j + 4)[0] == w[j]);
        }
    }
}

proof fn lemma_value(b: Seq<u8>, w: Seq<u8>, i: int)
    requires
        goes_on(b, w),
        0 <= i,
        value_end(b, i) matches Some(e) && e < b.len(),
    ensures
        value_end(w, i) == value_end(b, i),
{
    let j = ws_end(b, i);
    lemma_ws_end(b, i);
    lemma_ws(b, w, i);
    if b[j] == 0x22 {
        lemma_byte(b, w, j + 1, 0x22);
    } else if b[j] == 0x7b {
        lemma_nested(b, w, j + 1, 0x7b, 0x7d, 1);
    } else if b[j] == 0x5b {
        lemma_nested(b, w, j + 1, 0x5b, 0x5d, 1);
    } else if b[j] == 0x74 || b[j] == 0x6e || b[j] == 0x66 {
    } else {
        lemma_bare(b, w, j);
    }
}

proof fn lemma_array(b: Seq<u8>, w: Seq<u8>, i: int)
    requires
        goes_on(b, w),
        0 <= i,
        array_at(b, i) matches Some((_, e)) && e < b.len(),
    ensures
        array_at(w, i) == array_at(b, i),
{
    let j = ws_end(b, i);
    lemma_ws_end(b, i);
    lemma_ws(b, w, i);
    lemma_nested(b, w, j + 1, 0x5b, 0x5d, 1);
    let e = nested_end(b, j + 1, 0x5b, 0x5d, 1).unwrap();
    lemma_nested_end(b, j + 1, 0x5b, 0x5d, 1);
    assert(w.subrange(j, e) =~= b.subrange(j, e));
}

proof fn lemma_stamp(b: Seq<u8>, w: Seq<u8>, i: int)
    requires
        goes_on(b, w),
        0 <= i,
        stamp_at(b, i) is Some,
    ensures
        stamp_at(w, i) == stamp_at(b, i),
{
    lemma_string(b, w, i);
}

proof fn lemma_field(b: Seq<u8>, w: Seq<u8>, sec: Section, key: Seq<u8>, v: int, p: Payload)
    requires
        goes_on(b, w),
        0 <= v,
        field_at(b, sec, key, v, p) matches Some((_, e)) && e < b.len(),
    ensures
        field_at(w, sec, key, v, p) == field_at(b, sec, key, v, p),
{
    if number_at(b, v) matches Some((_, e)) && e < b.len() {
        lemma_number(b, w, v);
    }
    if count_at(b, v) matches Some((_, e)) && e < b.len() {
        lemma_count(b, w, v);
    }
    if stamp_at(b, v) is Some {
        lemma_stamp(b, w, v);
    }
    if array_at(b, v) matches Some((_, e)) && e < b.len() {
        lemma_array(b, w, v);
    }
    if string_at(b, v) is Some {
        lemma_string(b, w, v);
    }
    if bool_at(b, v) is Some {
        lemma_bool(b, w, v);
    }
    if value_end(b, v) matches Some(e) && e < b.len() {
        lemma_value(b, w, v);
    }
}

proof fn lemma_members(b: Seq<u8>, w: Seq<u8>, sec: Section, i: int, p: Payload)
    requires
        goes_on(b, w),
        0 <= i,
        members_at(b, sec, i, p) is Some,
    ensures
        members_at(w, sec, i, p) == members_at(b, sec, i, p),
    decreases b.len() - i,
{
    let i0 = ws_end(b, i);
    lemma_ws_end(b, i);
    if i0 < b.len() {
        lemma_ws(b, w, i);
    }
    if i0 < b.len() && b[i0] == 0x7d {
    } else {
        let (key, n) = string_at(b, i0).unwrap();
        let j = ws_end(b, i0);
        lemma_ws_end(b, i0);
        assert(i0 < b.len());
        lemma_string(b, w, i0);
        let k = expect_at(b, n, 0x3a).unwrap();
        lemma_key_end(b, i0, n, k);
        lemma_expect(b, w, n, 0x3a);
        let v = ws_end(b, k);
        lemma_ws_end(b, k);
        lemma_field_end(b, sec, key, v, p);
        let (q, e0) = field_at(b, sec, key, v, p).unwrap();
        let e = ws_end(b, e0);
        lemma_ws_end(b, e0);
        assert(e < b.len());
        lemma_ws(b, w, k);
        lemma_field(b, w, sec, key, v, p);
        lemma_ws(b, w, e0);
        if b[e] == 0x2c {
            lemma_members(b, w, sec, e + 1, q);
        }
    }
}

proof fn lemma_object(b: Seq<u8>, w: Seq<u8>, sec: Section, i: int, p: Payload)
    requires
        goes_on(b, w),
        0 <= i,
        object_at(b, sec, i, p) is Some,
    ensures
        object_at(w, sec, i, p) == object_at(b, sec, i, p),
{
    lemma_ws_end(b, i);
    lemma_expect(b, w, i, 0x7b);
    lemma_members(b, w, sec, expect_at(b, i, 0x7b).unwrap(), p);
}

proof fn lemma_last(b: Seq<u8>, w: Seq<u8>, v: int, p: Payload)
    requires
        goes_on(b, w),
        0 <= v,
        member_at(b, word("last_transaction"), v, p) is Some,
        ws_end(b, v) < b.len(),
        word_at(b, ws_end(b, v), word("null")) || object_at(
            b,
            Section::LastTransaction,
            v,
            Payload { has_last_tx: true, ..p },
        ) is Some,
    ensures
        word_at(w, ws_end(w, v), word("null")) == word_at(b, ws_end(b, v), word("null")),
        !word_at(b, ws_end(b, v), word("null")) ==> object_at(
            w,
            Section::LastTransaction,
            v,
            Payload { has_last_tx: true, ..p },
        ) == object_at(b, Section::LastTransaction, v, Payload { has_last_tx: true, ..p }),
{
    let j = ws_end(b, v);
    let q = Payload { has_last_tx: true, ..p };
    lemma_ws_end(b, v);
    lemma_ws(b, w, v);
    lemma_first_letters();
    if word_at(b, j, word("null")) {
        lemma_word(b, w, j, word("null"));
    } else {
        lemma_object(b, w, Section::LastTransaction, v, q);
        assert(b[j] == 0x7b);
        if word_at(w, j, word("null")) {
            assert(w.subrange(j, j + 4)[0] == w[j]);
        }
    }
}

proof fn lemma_member(b: Seq<u8>, w: Seq<u8>, key: Seq<u8>, v: int, p: Payload)
    requires
        goes_on(b, w),
        0 <= v,
        member_at(b, key, v, p) matches Some((_, e)) && e < b.len(),
    ensures
        member_at(w, key, v, p) == member_at(b, key, v, p),
{
    if key == word("transaction") {
        lemma_object(b, w, Section::Transaction, v, p);
    } else if key == word("customer") {
        lemma_object(b, w, Section::Customer, v, p);
    } else if key == word("merchant") {
        lemma_object(b, w, Section::Merchant, v, p);
    } else if key == word("terminal") {
        lemma_object(b, w, Section::Terminal, v, p);
    } else if key == word("last_transaction") {
        lemma_first_letters();
        lemma_ws_end(b, v);
        lemma_last(b, w, v, p);
    } else {
        lemma_value(b, w, v);
    }
}

proof fn lemma_top(b: Seq<u8>, w: Seq<u8>, i: int, p: Payload)
    requires
        goes_on(b, w),
        0 <= i,
        top_members_at(b, i, p) is Some,
    ensures
        top_members_at(w, i, p) == top_members_at(b, i, p),
    decreases b.len() - i,
{
    let i0 = ws_end(b, i);
    lemma_ws_end(b, i);
    if i0 < b.len() {
        lemma_ws(b, w, i);
    }
    if i0 < b.len() && b[i0] == 0x7d {
    } else {
        let (key, n) = string_at(b, i0).unwrap();
        lemma_ws_end(b, i0);
        assert(i0 < b.len());
        lemma_string(b, w, i0);
        let k = expect_at(b, n, 0x3a).unwrap();
        lemma_key_end(b, i0, n, k);
        lemma_expect(b, w, n, 0x3a);
        let v = ws_end(b, k);
        lemma_ws_end(b, k);
        lemma_member_end(b, key, v, p);
        let (q, e0) = member_at(b, key, v, p).unwrap();
        let e = ws_end(b, e0);
        lemma_ws_end(b, e0);
        assert(e < b.len());
        lemma_ws(b, w, k);
        lemma_member(b, w, key, v, p);
        lemma_ws(b, w, e0);
        if b[e] == 0x2c {
            lemma_top(b, w, e + 1, q);
        }
    }
}

/// A payload says the same whatever bytes stand behind it.
pub proof fn trailing_bytes_do_not_matter(b: Seq<u8>, more: Seq<u8>)
    requires
        payload_of(b) is Some,
    ensures
        payload_of(b + more) == payload_of(b),
{
    let w = b + more;
    assert(goes_on(b, w));
    lemma_ws_end(b, 0);
    lemma_expect(b, w, 0, 0x7b);
    lemma_top(b, w, expect_at(b, 0, 0x7b).unwrap(), Payload::empty());
}

} // verus!
