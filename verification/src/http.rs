//! Requests: finding one in the bytes received, and answering it.

use vstd::prelude::*;
use crate::index::build::grow::Input;
use crate::index::build::is_index_file;
use crate::index::build::laws::{built_file_finds_neighbours, labels_known};
use crate::index::nearest::is_nearest_count;
use crate::index::reader::{is_searchable, IndexReader};
use crate::index::search::fraud_result;
use crate::parse::{parse_payload, payload_of, Payload, RawPayload};
use crate::response::{
    answer, body, fallback_answer, ready_answer, score_text, verdict, Responses,
};
use crate::text::{
    byte_end, bytes_eq, decimal, decimal_usize, digits_end, find_byte_from, is_digit,
    lemma_byte_end, lemma_digits_end, skip_digits, word,
};
use crate::vectorize::{features, vectorize_q, Measures};
use crate::K;

verus! {

/// Longest head of a request.
pub const MAX_REQ_HEAD: usize = 4096;

/// Longest body of a request.
pub const MAX_BODY: usize = 4096;

/// What the bytes received so far hold.
#[derive(Clone, Copy, Debug)]
pub enum ParseStatus<'a> {
    /// Not yet a whole request.
    Need,
    /// No request.
    Bad,
    /// A request, whose body stands between two places.
    Got { method: &'a [u8], path: &'a [u8], body_start: usize, body_end: usize },
}

/// What the bytes received so far hold, as a value.
#[verifier::ext_equal]
pub enum Status {
    Need,
    Bad,
    Got { method: Seq<u8>, path: Seq<u8>, body_start: int, body_end: int },
}

impl<'a> View for ParseStatus<'a> {
    type V = Status;

    open spec fn view(&self) -> Status {
        match self {
            ParseStatus::Need => Status::Need,
            ParseStatus::Bad => Status::Bad,
            ParseStatus::Got { method, path, body_start, body_end } => Status::Got {
                method: method@,
                path: path@,
                body_start: *body_start as int,
                body_end: *body_end as int,
            },
        }
    }
}

/// Whether two line ends stand at `i`.
pub open spec fn blank_at(b: Seq<u8>, i: int) -> bool {
    i + 4 <= b.len() && b[i] == 0x0d && b[i + 1] == 0x0a && b[i + 2] == 0x0d && b[i + 3] == 0x0a
}

/// The first two line ends from `i` on.
pub open spec fn blank_from(b: Seq<u8>, i: int) -> Option<int>
    decreases b.len() - i,
{
    if i + 4 > b.len() {
        None
    } else if blank_at(b, i) {
        Some(i)
    } else {
        blank_from(b, i + 1)
    }
}

pub proof fn lemma_blank_from(b: Seq<u8>, i: int)
    requires
        0 <= i,
    ensures
        match blank_from(b, i) {
            Some(p) => i <= p && blank_at(b, p) && forall|j: int| i <= j < p ==> !blank_at(b, j),
            None => forall|j: int| i <= j ==> !blank_at(b, j),
        },
    decreases b.len() - i,
{
    if i + 4 <= b.len() && !blank_at(b, i) {
        lemma_blank_from(b, i + 1);
    }
}

/// Finds the first two line ends.
pub fn find_double_crlf(buf: &[u8]) -> (r: Option<usize>)
    ensures
        match r {
            Some(p) => blank_from(buf@, 0) == Some(p as int) && p + 4 <= buf.len(),
            None => blank_from(buf@, 0) is None,
        },
{
    if buf.len() < 4 {
        return None;
    }
    let mut i: usize = 0;
    while i <= buf.len() - 4
        invariant
            4 <= buf.len(),
            i <= buf.len() - 3,
            blank_from(buf@, 0) == blank_from(buf@, i as int),
        decreases buf.len() - i,
    {
        if buf[i + 3] == 0x0a && buf[i + 2] == 0x0d && buf[i + 1] == 0x0a && buf[i] == 0x0d {
            return Some(i);
        }
        i += 1;
    }
    None
}

/// The lower case of a letter.
pub open spec fn lower(c: u8) -> u8 {
    if 0x41 <= c <= 0x5a {
        (c + 32) as u8
    } else {
        c
    }
}

/// Whether the name of the length field stands at `i`, in any case.
pub open spec fn length_name_at(h: Seq<u8>, i: int) -> bool {
    let name = word("content-length:");
    i + name.len() <= h.len() && forall|k: int|
        0 <= k < name.len() ==> lower(#[trigger] h[i + k]) == name[k]
}

/// The end of blanks from `i` on.
pub open spec fn blanks_end(h: Seq<u8>, i: int) -> int
    decreases h.len() - i,
{
    if i < h.len() && (h[i] == 0x20 || h[i] == 0x09) {
        blanks_end(h, i + 1)
    } else {
        i
    }
}

/// The body length that a head states: the digits behind the first name of the length field from
/// `i` on. There is none where no digit follows or the number is too large.
pub open spec fn length_from(h: Seq<u8>, i: int) -> Option<int>
    decreases h.len() - i,
{
    let name = word("content-length:");
    if i + name.len() > h.len() {
        None
    } else if length_name_at(h, i) {
        let s = blanks_end(h, i + name.len());
        let e = digits_end(h, s);
        if e == s || decimal(h.subrange(s, e)) > usize::MAX {
            None
        } else {
            Some(decimal(h.subrange(s, e)))
        }
    } else {
        length_from(h, i + 1)
    }
}

fn has_length_name(h: &[u8], i: usize) -> (r: bool)
    requires
        i + word("content-length:").len() <= h.len(),
    ensures
        r == length_name_at(h@, i as int),
{
    let name: &[u8] = "content-length:".as_bytes();
    let mut k: usize = 0;
    while k < name.len()
        invariant
            name@ == word("content-length:"),
            k <= name.len(),
            i + name.len() <= h.len(),
            forall|j: int| 0 <= j < k ==> lower(#[trigger] h@[i + j]) == name@[j],
        decreases name.len() - k,
    {
        let c: u8 = h[i + k];
        let l: u8 = if c >= 0x41 && c <= 0x5a {
            c + 32
        } else {
            c
        };
        if l != name[k] {
            assert(lower(h@[i + k]) != name@[k as int]);
            return false;
        }
        k += 1;
    }
    true
}

fn skip_blanks(h: &[u8], i: usize) -> (r: usize)
    requires
        i <= h.len(),
    ensures
        r == blanks_end(h@, i as int),
        i <= r <= h.len(),
{
    let mut j: usize = i;
    while j < h.len() && (h[j] == 0x20 || h[j] == 0x09)
        invariant
            i <= j <= h.len(),
            blanks_end(h@, i as int) == blanks_end(h@, j as int),
        decreases h.len() - j,
    {
        j += 1;
    }
    j
}

/// Finds the body length that a head states.
pub fn find_content_length(headers: &[u8]) -> (r: Option<usize>)
    ensures
        match r {
            Some(n) => length_from(headers@, 0) == Some(n as int),
            None => length_from(headers@, 0) is None,
        },
{
    let name: &[u8] = "content-length:".as_bytes();
    proof {
        reveal_strlit("content-length:");
        vstd::utf8::is_ascii_chars_encode_utf8("content-length:"@);
    }
    let mut i: usize = 0;
    while i <= headers.len() && headers.len() - i >= name.len()
        invariant
            name@ == word("content-length:"),
            name@.len() > 0,
            i <= headers.len(),
            length_from(headers@, 0) == length_from(headers@, i as int),
        decreases headers.len() - i,
    {
        if has_length_name(headers, i) {
            let start = skip_blanks(headers, i + name.len());
            let j = skip_digits(headers, start);
            if j == start {
                return None;
            }
            let digits = &headers[start..j];
            assert forall|k: int| 0 <= k < digits@.len() implies is_digit(
                #[trigger] digits@[k],
            ) by {
                assert(digits@[k] == headers@[start + k]);
            }
            return decimal_usize(digits);
        }
        i += 1;
    }
    None
}

/// What the bytes received so far hold.
pub open spec fn status_of(b: Seq<u8>) -> Status {
    match blank_from(b, 0) {
        None => if b.len() > MAX_REQ_HEAD {
            Status::Bad
        } else {
            Status::Need
        },
        Some(head_end) => {
            let line = b.take(byte_end(b, 0, 0x0d));
            let sp1 = byte_end(line, 0, 0x20);
            let after = line.skip(sp1 + 1);
            let sp2 = byte_end(after, 0, 0x20);
            let method = line.take(sp1);
            let path = after.take(sp2);
            let body_start = head_end + 4;
            if sp1 >= line.len() || sp2 >= after.len() {
                Status::Bad
            } else if method == word("GET") {
                Status::Got { method, path, body_start, body_end: body_start }
            } else {
                match length_from(b.take(head_end), 0) {
                    None => Status::Bad,
                    Some(n) => if n > MAX_BODY {
                        Status::Bad
                    } else if b.len() < body_start + n {
                        Status::Need
                    } else {
                        Status::Got { method, path, body_start, body_end: body_start + n }
                    },
                }
            }
        },
    }
}

/// Looks for a request in the bytes received so far.
pub fn parse_request<'a>(buf: &'a [u8]) -> (r: ParseStatus<'a>)
    ensures
        r@ == status_of(buf@),
        r matches ParseStatus::Got { body_start, body_end, .. } ==> 4 <= body_start <= body_end
            <= buf.len() && body_end - body_start <= MAX_BODY,
{
    let head_end: usize = match find_double_crlf(buf) {
        Some(p) => p,
        None => {
            if buf.len() > MAX_REQ_HEAD {
                return ParseStatus::Bad;
            }
            return ParseStatus::Need;
        },
    };
    let line_end = find_byte_from(buf, 0, 0x0d);
    let line = &buf[0..line_end];
    assert(line@ =~= buf@.take(line_end as int));
    let sp1 = find_byte_from(line, 0, 0x20);
    if sp1 >= line.len() {
        return ParseStatus::Bad;
    }
    let after_method = &line[sp1 + 1..line.len()];
    assert(after_method@ =~= line@.skip(sp1 + 1));
    let sp2 = find_byte_from(after_method, 0, 0x20);
    if sp2 >= after_method.len() {
        return ParseStatus::Bad;
    }
    let method = &line[0..sp1];
    let path = &after_method[0..sp2];
    assert(method@ =~= line@.take(sp1 as int));
    assert(path@ =~= after_method@.take(sp2 as int));
    let body_start: usize = head_end + 4;
    if bytes_eq(method, "GET".as_bytes()) {
        return ParseStatus::Got { method, path, body_start, body_end: body_start };
    }
    let head = &buf[0..head_end];
    assert(head@ =~= buf@.take(head_end as int));
    let cl: usize = match find_content_length(head) {
        Some(n) => n,
        None => return ParseStatus::Bad,
    };
    if cl > MAX_BODY {
        return ParseStatus::Bad;
    }
    if buf.len() - body_start < cl {
        return ParseStatus::Need;
    }
    ParseStatus::Got { method, path, body_start, body_end: body_start + cl }
}

/// What a request asks for.
#[derive(Clone, Copy, Debug)]
pub enum Task<'a> {
    /// To score a payload.
    Score(RawPayload<'a>),
    /// To say whether the service is ready.
    Ready,
    /// Nothing that is known.
    Fallback,
}

/// What a request asks for, as a value.
#[verifier::ext_equal]
pub enum Job {
    Score(Payload),
    Ready,
    Fallback,
}

impl<'a> View for Task<'a> {
    type V = Job;

    open spec fn view(&self) -> Job {
        match self {
            Task::Score(p) => Job::Score(p@),
            Task::Ready => Job::Ready,
            Task::Fallback => Job::Fallback,
        }
    }
}

/// What a request asks for.
pub open spec fn job_of(method: Seq<u8>, path: Seq<u8>, body: Seq<u8>) -> Job {
    if method == word("POST") && path == word("/fraud-score") {
        match payload_of(body) {
            Some(p) => Job::Score(p),
            None => Job::Fallback,
        }
    } else if method == word("GET") && path == word("/ready") {
        Job::Ready
    } else {
        Job::Fallback
    }
}

/// Finds out what a request asks for.
pub fn route<'a>(method: &[u8], path: &[u8], body: &'a [u8]) -> (r: Task<'a>)
    requires
        body.len() <= isize::MAX,
    ensures
        r@ == job_of(method@, path@, body@),
{
    if bytes_eq(method, "POST".as_bytes()) && bytes_eq(path, "/fraud-score".as_bytes()) {
        return match parse_payload(body) {
            Ok(p) => Task::Score(p),
            Err(_) => Task::Fallback,
        };
    }
    if bytes_eq(method, "GET".as_bytes()) && bytes_eq(path, "/ready".as_bytes()) {
        return Task::Ready;
    }
    Task::Fallback
}

/// Whether `r` is the answer for a vector whose count can be `count`.
pub open spec fn scores(q: Seq<i16>, b: Seq<u8>, wide: bool, count: int, r: Seq<u8>) -> bool {
    fraud_result(b, wide, q, count) && 0 <= count <= K && r == verdict(count)
}

/// Whether `r` is the answer for a vector.
pub open spec fn is_score(q: Seq<i16>, b: Seq<u8>, wide: bool, r: Seq<u8>) -> bool {
    exists|count: int| #[trigger] scores(q, b, wide, count, r)
}

/// Whether `r` answers what was asked for.
pub open spec fn answers(job: Job, m: Measures, b: Seq<u8>, wide: bool, r: Seq<u8>) -> bool {
    match job {
        Job::Score(p) => is_score(features(p, m), b, wide, r),
        Job::Ready => r == ready_answer(),
        Job::Fallback => r == fallback_answer(),
    }
}

/// Answers a request. `m` holds the features of a payload that are measured in real numbers.
pub fn handle_request<'a>(
    task: &Task,
    m: &Measures,
    index: &IndexReader,
    responses: &'a Responses,
) -> (r: &'a [u8])
    requires
        index.wf(),
        is_searchable(index.bytes()),
        responses.wf(),
    ensures
        answers(task@, *m, index.bytes(), index.is_wide(), r@),
{
    match task {
        Task::Score(p) => {
            let q = vectorize_q(p, m);
            let count = index.fraud_count(&q);
            let r = responses.for_count(count);
            assert(scores(q@, index.bytes(), index.is_wide(), count as int, r@));
            r
        },
        Task::Ready => responses.ready.as_slice(),
        Task::Fallback => responses.fallback.as_slice(),
    }
}

/// A payload that is scored against a file that was built is approved exactly where less than three
/// of the five nearest of the vectors that the file was built from are fraudulent.
pub proof fn scores_follow_nearest(
    inp: Input,
    leaf: int,
    b: Seq<u8>,
    wide: bool,
    p: Payload,
    m: Measures,
    r: Seq<u8>,
)
    requires
        leaf >= 1,
        labels_known(inp),
        is_index_file(inp, leaf, b),
        answers(Job::Score(p), m, b, wide, r),
    ensures
        exists|count: int| #[trigger]
            is_nearest_count(inp.slots(), features(p, m), count) && r == answer(
                body(score_text(count), count < 3),
            ),
{
    let q = features(p, m);
    let count = choose|count: int| #[trigger] scores(q, b, wide, count, r);
    built_file_finds_neighbours(inp, leaf, b, wide, q, count);
}

/// Bytes that follow a text do not move the first place of a byte in it.
proof fn lemma_byte_end_more(b: Seq<u8>, more: Seq<u8>, i: int, c: u8)
    requires
        0 <= i <= b.len(),
        byte_end(b, i, c) < b.len(),
    ensures
        byte_end(b + more, i, c) == byte_end(b, i, c),
    decreases b.len() - i,
{
    assert((b + more)[i] == b[i]);
    if b[i] != c {
        lemma_byte_end_more(b, more, i + 1, c);
    }
}

proof fn lemma_blank_more(b: Seq<u8>, more: Seq<u8>, i: int)
    requires
        0 <= i,
        blank_from(b, i) is Some,
    ensures
        blank_from(b + more, i) == blank_from(b, i),
    decreases b.len() - i,
{
    let w = b + more;
    assert(w[i] == b[i] && w[i + 1] == b[i + 1] && w[i + 2] == b[i + 2] && w[i + 3] == b[i + 3]);
    if !blank_at(b, i) {
        lemma_blank_more(b, more, i + 1);
    }
}

/// A whole request is found whatever bytes follow it: the next request may already be there.
pub proof fn request_stands_alone(b: Seq<u8>, more: Seq<u8>)
    requires
        status_of(b) is Got,
    ensures
        status_of(b + more) == status_of(b),
{
    let w = b + more;
    lemma_blank_from(b, 0);
    lemma_blank_more(b, more, 0);
    let head_end = blank_from(b, 0).unwrap();
    lemma_byte_end(b, 0, 0x0d);
    if byte_end(b, 0, 0x0d) >= b.len() {
        assert(b[head_end] != 0x0d);
    }
    lemma_byte_end_more(b, more, 0, 0x0d);
    let e = byte_end(b, 0, 0x0d);
    assert(w.take(e) =~= b.take(e));
    assert(w.take(head_end) =~= b.take(head_end));
}

/// The request line comes before the body, and the body is within the bytes received.
pub proof fn request_is_within(b: Seq<u8>)
    requires
        status_of(b) is Got,
    ensures
        4 <= status_of(b)->body_start <= status_of(b)->body_end <= b.len(),
        status_of(b)->body_end - status_of(b)->body_start <= MAX_BODY,
{
    lemma_blank_from(b, 0);
    let head_end = blank_from(b, 0).unwrap();
    lemma_length_nonneg(b.take(head_end), 0);
}

proof fn lemma_length_nonneg(h: Seq<u8>, i: int)
    requires
        0 <= i,
    ensures
        length_from(h, i) matches Some(n) ==> n >= 0,
    decreases h.len() - i,
{
    let name = word("content-length:");
    if i + name.len() <= h.len() {
        if length_name_at(h, i) {
            let s = blanks_end(h, i + name.len());
            lemma_blanks_end(h, i + name.len());
            let e = digits_end(h, s);
            lemma_digits_end(h, s);
            lemma_decimal_nonneg(h.subrange(s, e));
        } else {
            lemma_length_nonneg(h, i + 1);
        }
    }
}

proof fn lemma_blanks_end(h: Seq<u8>, i: int)
    requires
        0 <= i <= h.len(),
    ensures
        i <= blanks_end(h, i) <= h.len(),
    decreases h.len() - i,
{
    if i < h.len() && (h[i] == 0x20 || h[i] == 0x09) {
        lemma_blanks_end(h, i + 1);
    }
}

proof fn lemma_decimal_nonneg(s: Seq<u8>)
    requires
        forall|j: int| 0 <= j < s.len() ==> is_digit(#[trigger] s[j]),
    ensures
        decimal(s) >= 0,
    decreases s.len(),
{
    if s.len() > 0 {
        lemma_decimal_nonneg(s.drop_last());
    }
}

} // verus!
