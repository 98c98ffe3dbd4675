//! The answers, made once and for all.

use vstd::prelude::*;
use vstd::utf8::is_ascii_chars_encode_utf8;
use crate::server::conn::WRITE_BUF_CAP;
use crate::text::{decimal, is_digit, word};

verus! {

/// A number in decimal digits.
pub open spec fn digits_of(n: int) -> Seq<u8>
    decreases n,
{
    if n < 10 {
        seq![(n + 0x30) as u8]
    } else {
        digits_of(n / 10).push((n % 10 + 0x30) as u8)
    }
}

/// The digits of a number write the number.
pub proof fn digits_write_number(n: int)
    requires
        0 <= n,
    ensures
        decimal(digits_of(n)) == n,
        digits_of(n).len() > 0,
        forall|k: int| 0 <= k < digits_of(n).len() ==> is_digit(#[trigger] digits_of(n)[k]),
    decreases n,
{
    let s = digits_of(n);
    if n < 10 {
        assert(s.drop_last() =~= Seq::empty());
        assert(s.last() == n + 0x30);
        assert(decimal(s) == decimal(s.drop_last()) * 10 + (s.last() - 0x30));
    } else {
        digits_write_number(n / 10);
        assert(s.drop_last() =~= digits_of(n / 10));
        assert(s.last() == n % 10 + 0x30);
    }
}

/// Appends a number in decimal digits.
pub fn push_decimal(out: &mut Vec<u8>, n: u64)
    ensures
        final(out)@ == old(out)@ + digits_of(n as int),
    decreases n,
{
    if n < 10 {
        out.push((n as u8) + 0x30);
    } else {
        push_decimal(out, n / 10);
        out.push(((n % 10) as u8) + 0x30);
    }
    assert(out@ =~= old(out)@ + digits_of(n as int));
}

/// The body of an answer.
pub open spec fn body(score: Seq<u8>, approved: bool) -> Seq<u8> {
    word("{\"approved\":") + (if approved {
        word("true")
    } else {
        word("false")
    }) + word(",\"fraud_score\":") + score + word("}")
}

/// An answer with the length of its body.
pub open spec fn answer(text: Seq<u8>) -> Seq<u8> {
    word("HTTP/1.1 200 OK\r\nContent-Length: ") + digits_of(text.len() as int) + word("\r\n\r\n")
        + text
}

/// Makes an answer.
pub fn build_response(score: &[u8], approved: bool) -> (r: Vec<u8>)
    ensures
        r@ == answer(body(score@, approved)),
{
    let mut text: Vec<u8> = Vec::new();
    text.extend_from_slice("{\"approved\":".as_bytes());
    if approved {
        text.extend_from_slice("true".as_bytes());
    } else {
        text.extend_from_slice("false".as_bytes());
    }
    text.extend_from_slice(",\"fraud_score\":".as_bytes());
    text.extend_from_slice(score);
    text.extend_from_slice("}".as_bytes());
    assert(text@ =~= body(score@, approved));
    let mut v: Vec<u8> = Vec::new();
    v.extend_from_slice("HTTP/1.1 200 OK\r\nContent-Length: ".as_bytes());
    push_decimal(&mut v, text.len() as u64);
    v.extend_from_slice("\r\n\r\n".as_bytes());
    v.extend_from_slice(text.as_slice());
    assert(v@ =~= answer(body(score@, approved)));
    v
}

/// The answers to all requests.
pub struct Responses {
    pub by_count: [Vec<u8>; 6],
    pub ready: Vec<u8>,
    pub fallback: Vec<u8>,
}

/// The share of fraudulent neighbours, written out.
pub open spec fn score_text(count: int) -> Seq<u8> {
    if count <= 0 {
        word("0")
    } else if count == 1 {
        word("0.2")
    } else if count == 2 {
        word("0.4")
    } else if count == 3 {
        word("0.6")
    } else if count == 4 {
        word("0.8")
    } else {
        word("1")
    }
}

/// The answer to a count: approved where less than three of five neighbours are fraudulent.
pub open spec fn verdict(count: int) -> Seq<u8> {
    answer(body(score_text(count), count < 3))
}

/// The answer to a request that cannot be scored.
pub open spec fn fallback_answer() -> Seq<u8> {
    answer(body(word("0.0"), true))
}

/// The answer to a request whether the service is ready.
pub open spec fn ready_answer() -> Seq<u8> {
    word("HTTP/1.1 200 OK\r\nContent-Length: 2\r\n\r\nok")
}

impl Responses {
    /// Whether these are the answers.
    pub open spec fn wf(&self) -> bool {
        &&& forall|i: int| 0 <= i < 6 ==> (#[trigger] self.by_count@[i])@ == verdict(i)
        &&& self.ready@ == ready_answer()
        &&& self.fallback@ == fallback_answer()
    }

    pub fn new() -> (r: Responses)
        ensures
            r.wf(),
    {
        let by_count: [Vec<u8>; 6] = [
            build_response("0".as_bytes(), true),
            build_response("0.2".as_bytes(), true),
            build_response("0.4".as_bytes(), true),
            build_response("0.6".as_bytes(), false),
            build_response("0.8".as_bytes(), false),
            build_response("1".as_bytes(), false),
        ];
        let mut ready: Vec<u8> = Vec::new();
        ready.extend_from_slice("HTTP/1.1 200 OK\r\nContent-Length: 2\r\n\r\nok".as_bytes());
        assert(ready@ =~= ready_answer());
        let fallback = build_response("0.0".as_bytes(), true);
        Responses { by_count, ready, fallback }
    }

    /// The answer to a count.
    pub fn for_count(&self, fraud_count: u8) -> (r: &[u8])
        ensures
            r@ == self.by_count@[if fraud_count < 5 {
                fraud_count as int
            } else {
                5
            }]@,
            self.wf() ==> r@ == verdict(fraud_count as int),
    {
        let i: usize = if fraud_count < 5 {
            fraud_count as usize
        } else {
            5
        };
        self.by_count[i].as_slice()
    }
}

impl Default for Responses {
    fn default() -> (r: Responses)
        ensures
            r.wf(),
    {
        Responses::new()
    }
}

/// A length below a thousand takes at most three digits.
proof fn lemma_digits_short(n: int)
    requires
        0 <= n < 1000,
    ensures
        digits_of(n).len() <= 3,
{
    reveal_with_fuel(digits_of, 4);
}

/// No answer is longer than a quarter of what can wait on a connection to be sent, so that an
/// answer that could not be sent at once can always wait.
pub proof fn answers_can_wait(count: int)
    ensures
        4 * verdict(count).len() <= WRITE_BUF_CAP,
        4 * fallback_answer().len() <= WRITE_BUF_CAP,
        4 * ready_answer().len() <= WRITE_BUF_CAP,
{
    lemma_words();
    let text = body(score_text(count), count < 3);
    lemma_digits_short(text.len() as int);
    lemma_digits_short(body(word("0.0"), true).len() as int);
}

/// The lengths of the words that answers are made of.
proof fn lemma_words()
    ensures
        word("HTTP/1.1 200 OK\r\nContent-Length: ").len() == 33,
        word("HTTP/1.1 200 OK\r\nContent-Length: 2\r\n\r\nok").len() == 40,
        word("\r\n\r\n").len() == 4,
        word("{\"approved\":").len() == 12,
        word(",\"fraud_score\":").len() == 15,
        word("true").len() == 4,
        word("false").len() == 5,
        word("}").len() == 1,
        word("0").len() == 1,
        word("0.0").len() == 3,
        word("0.2").len() == 3,
        word("0.4").len() == 3,
        word("0.6").len() == 3,
        word("0.8").len() == 3,
        word("1").len() == 1,
{
    reveal_strlit("HTTP/1.1 200 OK\r\nContent-Length: ");
    reveal_strlit("HTTP/1.1 200 OK\r\nContent-Length: 2\r\n\r\nok");
    reveal_strlit("\r\n\r\n");
    reveal_strlit("{\"approved\":");
    reveal_strlit(",\"fraud_score\":");
    reveal_strlit("true");
    reveal_strlit("false");
    reveal_strlit("}");
    reveal_strlit("0");
    reveal_strlit("0.0");
    reveal_strlit("0.2");
    reveal_strlit("0.4");
    reveal_strlit("0.6");
    reveal_strlit("0.8");
    reveal_strlit("1");
    is_ascii_chars_encode_utf8("HTTP/1.1 200 OK\r\nContent-Length: "@);
    is_ascii_chars_encode_utf8("HTTP/1.1 200 OK\r\nContent-Length: 2\r\n\r\nok"@);
    is_ascii_chars_encode_utf8("\r\n\r\n"@);
    is_ascii_chars_encode_utf8("{\"approved\":"@);
    is_ascii_chars_encode_utf8(",\"fraud_score\":"@);
    is_ascii_chars_encode_utf8("true"@);
    is_ascii_chars_encode_utf8("false"@);
    is_ascii_chars_encode_utf8("}"@);
    is_ascii_chars_encode_utf8("0"@);
    is_ascii_chars_encode_utf8("0.0"@);
    is_ascii_chars_encode_utf8("0.2"@);
    is_ascii_chars_encode_utf8("0.4"@);
    is_ascii_chars_encode_utf8("0.6"@);
    is_ascii_chars_encode_utf8("0.8"@);
    is_ascii_chars_encode_utf8("1"@);
}

/// Every answer states the length of its body: the digits behind `Content-Length:` write it, and
/// the body comes behind the blank line.
pub proof fn answer_states_length(text: Seq<u8>)
    ensures
        ({
            let r = answer(text);
            let end = r.len() - text.len();
            &&& decimal(r.subrange(33, end - 4)) == text.len()
            &&& r.subrange(end as int, r.len() as int) == text
        }),
{
    let head = word("HTTP/1.1 200 OK\r\nContent-Length: ");
    let blank = word("\r\n\r\n");
    lemma_words();
    let digits = digits_of(text.len() as int);
    let r = answer(text);
    digits_write_number(text.len() as int);
    assert(head.len() == 33);
    assert(blank.len() == 4);
    assert(r.subrange(33, r.len() - text.len() - 4) =~= digits);
    assert(r.subrange(r.len() - text.len(), r.len() as int) =~= text);
}

} // verus!
