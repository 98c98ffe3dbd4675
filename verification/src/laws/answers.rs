//! What the answers say.

use vstd::prelude::*;
use vstd::utf8::is_ascii_chars_encode_utf8;
use crate::response::{body, digits_of, fallback_answer, ready_answer, verdict};
use crate::text::{decimal, word};

verus! {

/// What digits write goes by their places, ten times as much for each.
pub proof fn digits_count_by_place(s: Seq<u8>, c: u8)
    ensures
        decimal(Seq::<u8>::empty()) == 0,
        decimal(s.push(c)) == 10 * decimal(s) + c - 0x30,
{
    assert(s.push(c).drop_last() =~= s);
}

/// A number of two digits is written with its tens first.
pub proof fn two_digits_are_written(n: int)
    requires
        10 <= n <= 99,
    ensures
        digits_of(n) == seq![(0x30 + n / 10) as u8, (0x30 + n % 10) as u8],
{
    reveal_with_fuel(digits_of, 3);
    assert(digits_of(n) =~= seq![(0x30 + n / 10) as u8, (0x30 + n % 10) as u8]);
}

proof fn lemma_parts()
    ensures
        word("HTTP/1.1 200 OK\r\nContent-Length: ") == seq![0x48u8, 0x54u8, 0x54u8, 0x50u8, 0x2fu8, 0x31u8, 0x2eu8, 0x31u8, 0x20u8, 0x32u8, 0x30u8, 0x30u8, 0x20u8, 0x4fu8, 0x4bu8, 0x0du8, 0x0au8, 0x43u8, 0x6fu8, 0x6eu8, 0x74u8, 0x65u8, 0x6eu8, 0x74u8, 0x2du8, 0x4cu8, 0x65u8, 0x6eu8, 0x67u8, 0x74u8, 0x68u8, 0x3au8, 0x20u8],
        word("\r\n\r\n") == seq![0x0du8, 0x0au8, 0x0du8, 0x0au8],
        word("{\"approved\":") == seq![0x7bu8, 0x22u8, 0x61u8, 0x70u8, 0x70u8, 0x72u8, 0x6fu8, 0x76u8, 0x65u8, 0x64u8, 0x22u8, 0x3au8],
        word("true") == seq![0x74u8, 0x72u8, 0x75u8, 0x65u8],
        word("false") == seq![0x66u8, 0x61u8, 0x6cu8, 0x73u8, 0x65u8],
        word(",\"fraud_score\":") == seq![0x2cu8, 0x22u8, 0x66u8, 0x72u8, 0x61u8, 0x75u8, 0x64u8, 0x5fu8, 0x73u8, 0x63u8, 0x6fu8, 0x72u8, 0x65u8, 0x22u8, 0x3au8],
        word("}") == seq![0x7du8],
{
    reveal_strlit("HTTP/1.1 200 OK\r\nContent-Length: ");
    is_ascii_chars_encode_utf8("HTTP/1.1 200 OK\r\nContent-Length: "@);
    assert(word("HTTP/1.1 200 OK\r\nContent-Length: ") =~= seq![0x48u8, 0x54u8, 0x54u8, 0x50u8, 0x2fu8, 0x31u8, 0x2eu8, 0x31u8, 0x20u8, 0x32u8, 0x30u8, 0x30u8, 0x20u8, 0x4fu8, 0x4bu8, 0x0du8, 0x0au8, 0x43u8, 0x6fu8, 0x6eu8, 0x74u8, 0x65u8, 0x6eu8, 0x74u8, 0x2du8, 0x4cu8, 0x65u8, 0x6eu8, 0x67u8, 0x74u8, 0x68u8, 0x3au8, 0x20u8]);
    reveal_strlit("\r\n\r\n");
    is_ascii_chars_encode_utf8("\r\n\r\n"@);
    assert(word("\r\n\r\n") =~= seq![0x0du8, 0x0au8, 0x0du8, 0x0au8]);
    reveal_strlit("{\"approved\":");
    is_ascii_chars_encode_utf8("{\"approved\":"@);
    assert(word("{\"approved\":") =~= seq![0x7bu8, 0x22u8, 0x61u8, 0x70u8, 0x70u8, 0x72u8, 0x6fu8, 0x76u8, 0x65u8, 0x64u8, 0x22u8, 0x3au8]);
    reveal_strlit("true");
    is_ascii_chars_encode_utf8("true"@);
    assert(word("true") =~= seq![0x74u8, 0x72u8, 0x75u8, 0x65u8]);
    reveal_strlit("false");
    is_ascii_chars_encode_utf8("false"@);
    assert(word("false") =~= seq![0x66u8, 0x61u8, 0x6cu8, 0x73u8, 0x65u8]);
    reveal_strlit(",\"fraud_score\":");
    is_ascii_chars_encode_utf8(",\"fraud_score\":"@);
    assert(word(",\"fraud_score\":") =~= seq![0x2cu8, 0x22u8, 0x66u8, 0x72u8, 0x61u8, 0x75u8, 0x64u8, 0x5fu8, 0x73u8, 0x63u8, 0x6fu8, 0x72u8, 0x65u8, 0x22u8, 0x3au8]);
    reveal_strlit("}");
    is_ascii_chars_encode_utf8("}"@);
    assert(word("}") =~= seq![0x7du8]);
}

proof fn lemma_answer_no()
    ensures
        verdict(0) == word("HTTP/1.1 200 OK\r\nContent-Length: 33\r\n\r\n{\"approved\":true,\"fraud_score\":0}"),
{
    lemma_parts();
    reveal_strlit("0");
    is_ascii_chars_encode_utf8("0"@);
    assert(word("0") =~= seq![0x30u8]);
    two_digits_are_written(33);
    let text = body(word("0"), true);
    assert(text.len() == 33);
    reveal_strlit("HTTP/1.1 200 OK\r\nContent-Length: 33\r\n\r\n{\"approved\":true,\"fraud_score\":0}");
    is_ascii_chars_encode_utf8("HTTP/1.1 200 OK\r\nContent-Length: 33\r\n\r\n{\"approved\":true,\"fraud_score\":0}"@);
    assert(verdict(0) =~= word("HTTP/1.1 200 OK\r\nContent-Length: 33\r\n\r\n{\"approved\":true,\"fraud_score\":0}"));
}

proof fn lemma_answer_one()
    ensures
        verdict(1) == word("HTTP/1.1 200 OK\r\nContent-Length: 35\r\n\r\n{\"approved\":true,\"fraud_score\":0.2}"),
{
    lemma_parts();
    reveal_strlit("0.2");
    is_ascii_chars_encode_utf8("0.2"@);
    assert(word("0.2") =~= seq![0x30u8, 0x2eu8, 0x32u8]);
    two_digits_are_written(35);
    let text = body(word("0.2"), true);
    assert(text.len() == 35);
    reveal_strlit("HTTP/1.1 200 OK\r\nContent-Length: 35\r\n\r\n{\"approved\":true,\"fraud_score\":0.2}");
    is_ascii_chars_encode_utf8("HTTP/1.1 200 OK\r\nContent-Length: 35\r\n\r\n{\"approved\":true,\"fraud_score\":0.2}"@);
    assert(verdict(1) =~= word("HTTP/1.1 200 OK\r\nContent-Length: 35\r\n\r\n{\"approved\":true,\"fraud_score\":0.2}"));
}

proof fn lemma_answer_two()
    ensures
        verdict(2) == word("HTTP/1.1 200 OK\r\nContent-Length: 35\r\n\r\n{\"approved\":true,\"fraud_score\":0.4}"),
{
    lemma_parts();
    reveal_strlit("0.4");
    is_ascii_chars_encode_utf8("0.4"@);
    assert(word("0.4") =~= seq![0x30u8, 0x2eu8, 0x34u8]);
    two_digits_are_written(35);
    let text = body(word("0.4"), true);
    assert(text.len() == 35);
    reveal_strlit("HTTP/1.1 200 OK\r\nContent-Length: 35\r\n\r\n{\"approved\":true,\"fraud_score\":0.4}");
    is_ascii_chars_encode_utf8("HTTP/1.1 200 OK\r\nContent-Length: 35\r\n\r\n{\"approved\":true,\"fraud_score\":0.4}"@);
    assert(verdict(2) =~= word("HTTP/1.1 200 OK\r\nContent-Length: 35\r\n\r\n{\"approved\":true,\"fraud_score\":0.4}"));
}

proof fn lemma_answer_three()
    ensures
        verdict(3) == word("HTTP/1.1 200 OK\r\nContent-Length: 36\r\n\r\n{\"approved\":false,\"fraud_score\":0.6}"),
{
    lemma_parts();
    reveal_strlit("0.6");
    is_ascii_chars_encode_utf8("0.6"@);
    assert(word("0.6") =~= seq![0x30u8, 0x2eu8, 0x36u8]);
    two_digits_are_written(36);
    let text = body(word("0.6"), false);
    assert(text.len() == 36);
    reveal_strlit("HTTP/1.1 200 OK\r\nContent-Length: 36\r\n\r\n{\"approved\":false,\"fraud_score\":0.6}");
    is_ascii_chars_encode_utf8("HTTP/1.1 200 OK\r\nContent-Length: 36\r\n\r\n{\"approved\":false,\"fraud_score\":0.6}"@);
    assert(verdict(3) =~= word("HTTP/1.1 200 OK\r\nContent-Length: 36\r\n\r\n{\"approved\":false,\"fraud_score\":0.6}"));
}

proof fn lemma_answer_four()
    ensures
        verdict(4) == word("HTTP/1.1 200 OK\r\nContent-Length: 36\r\n\r\n{\"approved\":false,\"fraud_score\":0.8}"),
{
    lemma_parts();
    reveal_strlit("0.8");
    is_ascii_chars_encode_utf8("0.8"@);
    assert(word("0.8") =~= seq![0x30u8, 0x2eu8, 0x38u8]);
    two_digits_are_written(36);
    let text = body(word("0.8"), false);
    assert(text.len() == 36);
    reveal_strlit("HTTP/1.1 200 OK\r\nContent-Length: 36\r\n\r\n{\"approved\":false,\"fraud_score\":0.8}");
    is_ascii_chars_encode_utf8("HTTP/1.1 200 OK\r\nContent-Length: 36\r\n\r\n{\"approved\":false,\"fraud_score\":0.8}"@);
    assert(verdict(4) =~= word("HTTP/1.1 200 OK\r\nContent-Length: 36\r\n\r\n{\"approved\":false,\"fraud_score\":0.8}"));
}

proof fn lemma_answer_five()
    ensures
        verdict(5) == word("HTTP/1.1 200 OK\r\nContent-Length: 34\r\n\r\n{\"approved\":false,\"fraud_score\":1}"),
{
    lemma_parts();
    reveal_strlit("1");
    is_ascii_chars_encode_utf8("1"@);
    assert(word("1") =~= seq![0x31u8]);
    two_digits_are_written(34);
    let text = body(word("1"), false);
    assert(text.len() == 34);
    reveal_strlit("HTTP/1.1 200 OK\r\nContent-Length: 34\r\n\r\n{\"approved\":false,\"fraud_score\":1}");
    is_ascii_chars_encode_utf8("HTTP/1.1 200 OK\r\nContent-Length: 34\r\n\r\n{\"approved\":false,\"fraud_score\":1}"@);
    assert(verdict(5) =~= word("HTTP/1.1 200 OK\r\nContent-Length: 34\r\n\r\n{\"approved\":false,\"fraud_score\":1}"));
}

proof fn lemma_answer_fallback()
    ensures
        fallback_answer() == word("HTTP/1.1 200 OK\r\nContent-Length: 35\r\n\r\n{\"approved\":true,\"fraud_score\":0.0}"),
{
    lemma_parts();
    reveal_strlit("0.0");
    is_ascii_chars_encode_utf8("0.0"@);
    assert(word("0.0") =~= seq![0x30u8, 0x2eu8, 0x30u8]);
    two_digits_are_written(35);
    let text = body(word("0.0"), true);
    assert(text.len() == 35);
    reveal_strlit("HTTP/1.1 200 OK\r\nContent-Length: 35\r\n\r\n{\"approved\":true,\"fraud_score\":0.0}");
    is_ascii_chars_encode_utf8("HTTP/1.1 200 OK\r\nContent-Length: 35\r\n\r\n{\"approved\":true,\"fraud_score\":0.0}"@);
    assert(fallback_answer() =~= word("HTTP/1.1 200 OK\r\nContent-Length: 35\r\n\r\n{\"approved\":true,\"fraud_score\":0.0}"));
}

/// The answers to the counts of fraudulent neighbours, letter for letter. Less than three are approved,
/// and each neighbour adds a fifth to the score.
pub proof fn answers_read()
    ensures
        verdict(0) == word("HTTP/1.1 200 OK\r\nContent-Length: 33\r\n\r\n{\"approved\":true,\"fraud_score\":0}"),
        verdict(1) == word("HTTP/1.1 200 OK\r\nContent-Length: 35\r\n\r\n{\"approved\":true,\"fraud_score\":0.2}"),
        verdict(2) == word("HTTP/1.1 200 OK\r\nContent-Length: 35\r\n\r\n{\"approved\":true,\"fraud_score\":0.4}"),
        verdict(3) == word("HTTP/1.1 200 OK\r\nContent-Length: 36\r\n\r\n{\"approved\":false,\"fraud_score\":0.6}"),
        verdict(4) == word("HTTP/1.1 200 OK\r\nContent-Length: 36\r\n\r\n{\"approved\":false,\"fraud_score\":0.8}"),
        verdict(5) == word("HTTP/1.1 200 OK\r\nContent-Length: 34\r\n\r\n{\"approved\":false,\"fraud_score\":1}"),
        fallback_answer() == word("HTTP/1.1 200 OK\r\nContent-Length: 35\r\n\r\n{\"approved\":true,\"fraud_score\":0.0}"),
        ready_answer() == word("HTTP/1.1 200 OK\r\nContent-Length: 2\r\n\r\nok"),
{
    lemma_answer_no();
    lemma_answer_one();
    lemma_answer_two();
    lemma_answer_three();
    lemma_answer_four();
    lemma_answer_five();
    lemma_answer_fallback();
}

/// Counts beyond five are answered like five.
pub proof fn greater_counts_are_answered_alike(count: int)
    requires
        5 <= count,
    ensures
        verdict(count) == verdict(5),
{
}

} // verus!
