//! Reading the labelled references that an index is built from.

use vstd::prelude::*;
use crate::index::format::{LABEL_FRAUD, LABEL_LEGIT};
use crate::text::{byte_end, bytes_eq, find_byte_from, lemma_byte_end, word, word_at};
use crate::DIM;

verus! {

/// Why references cannot be read.
#[derive(Clone, Copy, Debug, PartialEq, Eq, Structural)]
pub enum ReferenceError {
    /// The data are not what was packed.
    Unpack,
    /// An object has no vector.
    VectorKey,
    /// A vector has no opening bracket.
    VectorBracket,
    /// Something in a vector is not a number.
    Number,
    /// A vector has the wrong number of numbers.
    Dimensions(usize),
    /// An object has no label.
    LabelKey,
    /// A label has no opening quote.
    LabelQuote,
    /// A label has no closing quote.
    LabelEnd,
}

/// A labelled reference: where the numbers of its vector stand in the text, and its label.
#[derive(Debug)]
pub struct Reference {
    pub numbers: Vec<(usize, usize)>,
    pub label: u8,
}

/// A labelled reference as a value.
#[verifier::ext_equal]
pub struct ReferenceText {
    pub numbers: Seq<(int, int)>,
    pub label: u8,
}

/// Places as mathematical numbers.
pub open spec fn places(list: Seq<(usize, usize)>) -> Seq<(int, int)> {
    list.map_values(|p: (usize, usize)| (p.0 as int, p.1 as int))
}

impl View for Reference {
    type V = ReferenceText;

    open spec fn view(&self) -> ReferenceText {
        ReferenceText { numbers: places(self.numbers@), label: self.label }
    }
}

/// The first place from `i` on where a word stands.
pub open spec fn first_at(b: Seq<u8>, i: int, w: Seq<u8>) -> Option<int>
    decreases b.len() - i,
{
    if i + w.len() > b.len() || w.len() == 0 {
        None
    } else if word_at(b, i, w) {
        Some(i)
    } else {
        first_at(b, i + 1, w)
    }
}

proof fn lemma_first_at(b: Seq<u8>, i: int, w: Seq<u8>)
    ensures
        first_at(b, i, w) matches Some(p) ==> i <= p && p + w.len() <= b.len() && w.len() > 0,
    decreases b.len() - i,
{
    if i + w.len() <= b.len() && w.len() > 0 && !word_at(b, i, w) {
        lemma_first_at(b, i + 1, w);
    }
}

/// Finds a word from a place on.
pub fn find(buf: &[u8], from: usize, needle: &[u8]) -> (r: Option<usize>)
    ensures
        match r {
            Some(p) => first_at(buf@, from as int, needle@) == Some(p as int) && from <= p && p
                + needle.len() <= buf.len() && needle.len() > 0,
            None => first_at(buf@, from as int, needle@) is None,
        },
{
    if needle.len() == 0 || from > buf.len() || buf.len() - from < needle.len() {
        return None;
    }
    let end: usize = buf.len() - needle.len();
    let mut i: usize = from;
    while i <= end
        invariant
            needle.len() > 0,
            end + needle.len() == buf.len(),
            from <= i <= end + 1,
            first_at(buf@, from as int, needle@) == first_at(buf@, i as int, needle@),
        decreases end + 1 - i,
    {
        if bytes_eq(&buf[i..i + needle.len()], needle) {
            return Some(i);
        }
        i += 1;
    }
    None
}

/// Finds a byte from a place on.
pub fn find_byte(buf: &[u8], from: usize, byte: u8) -> (r: Option<usize>)
    requires
        from <= buf.len(),
    ensures
        match r {
            Some(p) => p == byte_end(buf@, from as int, byte) && from <= p < buf.len(),
            None => byte_end(buf@, from as int, byte) >= buf.len(),
        },
{
    let p = find_byte_from(buf, from, byte);
    if p < buf.len() {
        Some(p)
    } else {
        None
    }
}

/// Whether a byte separates numbers.
pub open spec fn separates(c: u8) -> bool {
    c == 0x20 || c == 0x09 || c == 0x0a || c == 0x0c || c == 0x0d || c == 0x2c
}

/// Whether a byte can be part of a number.
pub open spec fn is_numeric(c: u8) -> bool {
    0x30 <= c <= 0x39 || c == 0x2e || c == 0x2d || c == 0x2b || c == 0x65 || c == 0x45
}

/// The end of separators from `i` on.
pub open spec fn separators_end(b: Seq<u8>, i: int) -> int
    decreases b.len() - i,
{
    if i < b.len() && separates(b[i]) {
        separators_end(b, i + 1)
    } else {
        i
    }
}

/// The end of a number from `i` on.
pub open spec fn number_end(b: Seq<u8>, i: int) -> int
    decreases b.len() - i,
{
    if i < b.len() && is_numeric(b[i]) {
        number_end(b, i + 1)
    } else {
        i
    }
}

pub proof fn lemma_separators_end(b: Seq<u8>, i: int)
    ensures
        i <= separators_end(b, i),
        i <= b.len() ==> separators_end(b, i) <= b.len(),
    decreases b.len() - i,
{
    if i < b.len() && separates(b[i]) {
        lemma_separators_end(b, i + 1);
    }
}

pub proof fn lemma_number_end(b: Seq<u8>, i: int)
    ensures
        i <= number_end(b, i),
        i <= b.len() ==> number_end(b, i) <= b.len(),
    decreases b.len() - i,
{
    if i < b.len() && is_numeric(b[i]) {
        lemma_number_end(b, i + 1);
    }
}

fn skip_separators(buf: &[u8], i: usize) -> (r: usize)
    requires
        i <= buf.len(),
    ensures
        r == separators_end(buf@, i as int),
        i <= r <= buf.len(),
{
    let mut j: usize = i;
    while j < buf.len() && (buf[j] == 0x20 || buf[j] == 0x09 || buf[j] == 0x0a || buf[j] == 0x0c
        || buf[j] == 0x0d || buf[j] == 0x2c)
        invariant
            i <= j <= buf.len(),
            separators_end(buf@, i as int) == separators_end(buf@, j as int),
        decreases buf.len() - j,
    {
        j += 1;
    }
    j
}

fn skip_number(buf: &[u8], i: usize) -> (r: usize)
    requires
        i <= buf.len(),
    ensures
        r == number_end(buf@, i as int),
        i <= r <= buf.len(),
{
    let mut j: usize = i;
    while j < buf.len() && ((buf[j] >= 0x30 && buf[j] <= 0x39) || buf[j] == 0x2e || buf[j] == 0x2d
        || buf[j] == 0x2b || buf[j] == 0x65 || buf[j] == 0x45)
        invariant
            i <= j <= buf.len(),
            number_end(buf@, i as int) == number_end(buf@, j as int),
        decreases buf.len() - j,
    {
        j += 1;
    }
    j
}

/// The numbers of a list from `i` on, up to the closing bracket, and what comes behind it. Nothing
/// where something else stands in the list or the bracket is missing.
pub open spec fn numbers_from(b: Seq<u8>, i: int) -> Option<(Seq<(int, int)>, int)>
    decreases b.len() - i,
{
    let s = separators_end(b, i);
    if s < b.len() && b[s] == 0x5d {
        Some((Seq::empty(), s + 1))
    } else {
        let e = number_end(b, s);
        if e <= s || e > b.len() {
            None
        } else {
            proof {
                lemma_separators_end(b, i);
            }
            match numbers_from(b, e) {
                Some((rest, end)) => Some((seq![(s, e)] + rest, end)),
                None => None,
            }
        }
    }
}

/// Reads the numbers of a list.
pub fn parse_float_array(buf: &[u8], start: usize) -> (r: Option<(Vec<(usize, usize)>, usize)>)
    requires
        start <= buf.len(),
    ensures
        match r {
            Some((list, end)) => numbers_from(buf@, start as int) == Some(
                (places(list@), end as int),
            ) && start < end <= buf.len(),
            None => numbers_from(buf@, start as int) is None,
        },
{
    let ghost b = buf@;
    let ghost goal = numbers_from(b, start as int);
    let mut out: Vec<(usize, usize)> = Vec::new();
    let mut i: usize = start;
    assert(places(out@) =~= Seq::empty());
    proof {
        if let Some((rest, end)) = numbers_from(b, i as int) {
            assert(Seq::<(int, int)>::empty() + rest =~= rest);
        }
    }
    loop
        invariant
            b == buf@,
            start <= i <= buf.len(),
            goal == numbers_from(b, start as int),
            match numbers_from(b, i as int) {
                Some((rest, end)) => goal == Some((places(out@) + rest, end)),
                None => goal is None,
            },
        decreases buf.len() - i,
    {
        let s = skip_separators(buf, i);
        if s < buf.len() && buf[s] == 0x5d {
            assert(places(out@) + Seq::<(int, int)>::empty() =~= places(out@));
            return Some((out, s + 1));
        }
        let e = skip_number(buf, s);
        if e == s {
            return None;
        }
        let ghost before = places(out@);
        out.push((s, e));
        proof {
            assert(places(out@) =~= before.push((s as int, e as int)));
            if let Some((rest, end)) = numbers_from(b, e as int) {
                assert(before + (seq![(s as int, e as int)] + rest) =~= places(out@) + rest);
            }
        }
        i = e;
    }
}

/// The end of an object whose brackets are open `depth` times at `i`, or the end of the text.
pub open spec fn object_end(b: Seq<u8>, i: int, depth: int) -> int
    decreases b.len() - i,
{
    if i >= b.len() || depth <= 0 {
        i
    } else if b[i] == 0x7b || b[i] == 0x5b {
        object_end(b, i + 1, depth + 1)
    } else if b[i] == 0x7d || b[i] == 0x5d {
        object_end(b, i + 1, depth - 1)
    } else {
        object_end(b, i + 1, depth)
    }
}

proof fn lemma_object_end(b: Seq<u8>, i: int, depth: int)
    ensures
        i <= object_end(b, i, depth),
        i <= b.len() ==> object_end(b, i, depth) <= b.len(),
    decreases b.len() - i,
{
    if i < b.len() && depth > 0 {
        if b[i] == 0x7b || b[i] == 0x5b {
            lemma_object_end(b, i + 1, depth + 1);
        } else if b[i] == 0x7d || b[i] == 0x5d {
            lemma_object_end(b, i + 1, depth - 1);
        } else {
            lemma_object_end(b, i + 1, depth);
        }
    }
}

fn skip_object(buf: &[u8], i: usize) -> (r: usize)
    requires
        i <= buf.len(),
    ensures
        r == object_end(buf@, i as int, 1),
        i <= r <= buf.len(),
{
    let mut j: usize = i;
    let mut depth: u128 = 1;
    while j < buf.len() && depth > 0
        invariant
            i <= j <= buf.len(),
            depth <= 1 + (j - i),
            object_end(buf@, i as int, 1) == object_end(buf@, j as int, depth as int),
        decreases buf.len() - j,
    {
        let c: u8 = buf[j];
        if c == 0x7b || c == 0x5b {
            depth += 1;
        } else if c == 0x7d || c == 0x5d {
            depth -= 1;
        }
        j += 1;
    }
    j
}

/// The label that a name stands for.
pub open spec fn label_named(name: Seq<u8>) -> u8 {
    if name == word("fraud") {
        LABEL_FRAUD
    } else {
        LABEL_LEGIT
    }
}

/// The reference in the object that begins at `i`, and the end of the object.
pub open spec fn reference_at(b: Seq<u8>, i: int) -> Result<(ReferenceText, int), ReferenceError> {
    match first_at(b, i, word("\"vector\"")) {
        None => Err(ReferenceError::VectorKey),
        Some(v) => {
            let open = byte_end(b, v, 0x5b);
            if open >= b.len() {
                Err(ReferenceError::VectorBracket)
            } else {
                match numbers_from(b, open + 1) {
                    None => Err(ReferenceError::Number),
                    Some((numbers, after)) => if numbers.len() != DIM {
                        Err(ReferenceError::Dimensions(numbers.len() as usize))
                    } else {
                        labelled_at(b, numbers, after)
                    },
                }
            }
        },
    }
}

/// The label behind a vector.
pub open spec fn labelled_at(b: Seq<u8>, numbers: Seq<(int, int)>, after: int) -> Result<
    (ReferenceText, int),
    ReferenceError,
> {
    match first_at(b, after, word("\"label\"")) {
        None => Err(ReferenceError::LabelKey),
        Some(l) => {
            let q1 = byte_end(b, l + 7, 0x22);
            let q2 = byte_end(b, q1 + 1, 0x22);
            if q1 >= b.len() {
                Err(ReferenceError::LabelQuote)
            } else if q2 >= b.len() {
                Err(ReferenceError::LabelEnd)
            } else {
                Ok(
                    (
                        ReferenceText { numbers, label: label_named(b.subrange(q1 + 1, q2)) },
                        object_end(b, q2 + 1, 1),
                    ),
                )
            }
        },
    }
}

pub proof fn lemma_reference_end(b: Seq<u8>, i: int)
    requires
        0 <= i <= b.len(),
    ensures
        reference_at(b, i) matches Ok((_, e)) ==> i < e <= b.len(),
{
    lemma_first_at(b, i, word("\"vector\""));
    if let Some(v) = first_at(b, i, word("\"vector\"")) {
        lemma_byte_end(b, v, 0x5b);
        let open = byte_end(b, v, 0x5b);
        if open < b.len() {
            lemma_numbers_end(b, open + 1);
            if let Some((numbers, after)) = numbers_from(b, open + 1) {
                lemma_first_at(b, after, word("\"label\""));
                lemma_label_word();
                if let Some(l) = first_at(b, after, word("\"label\"")) {
                    lemma_byte_end(b, l + 7, 0x22);
                    let q1 = byte_end(b, l + 7, 0x22);
                    if q1 < b.len() {
                        lemma_byte_end(b, q1 + 1, 0x22);
                        let q2 = byte_end(b, q1 + 1, 0x22);
                        lemma_object_end(b, q2 + 1, 1);
                    }
                }
            }
        }
    }
}

proof fn lemma_label_word()
    ensures
        word("\"label\"").len() == 7,
{
    reveal_strlit("\"label\"");
    vstd::utf8::is_ascii_chars_encode_utf8("\"label\""@);
}

proof fn lemma_numbers_end(b: Seq<u8>, i: int)
    requires
        0 <= i <= b.len(),
    ensures
        numbers_from(b, i) matches Some((_, e)) ==> i < e <= b.len(),
    decreases b.len() - i,
{
    let s = separators_end(b, i);
    lemma_separators_end(b, i);
    if !(s < b.len() && b[s] == 0x5d) {
        let e = number_end(b, s);
        lemma_number_end(b, s);
        if e > s {
            lemma_numbers_end(b, e);
        }
    }
}

/// The references from `i` on.
pub open spec fn references_from(b: Seq<u8>, i: int) -> Result<Seq<ReferenceText>, ReferenceError>
    decreases b.len() - i,
{
    let open = byte_end(b, i, 0x7b);
    if i < 0 || i > b.len() || open >= b.len() {
        Ok(Seq::empty())
    } else {
        match reference_at(b, open) {
            Err(e) => Err(e),
            Ok((first, end)) => {
                proof {
                    lemma_byte_end(b, i, 0x7b);
                    lemma_reference_end(b, open);
                }
                match references_from(b, end) {
                    Err(e) => Err(e),
                    Ok(rest) => Ok(seq![first] + rest),
                }
            },
        }
    }
}

/// References as values.
pub open spec fn texts(list: Seq<Reference>) -> Seq<ReferenceText> {
    list.map_values(|r: Reference| r@)
}

fn read_reference(buf: &[u8], i: usize) -> (r: Result<(Reference, usize), ReferenceError>)
    requires
        i <= buf.len(),
    ensures
        match r {
            Ok((x, e)) => reference_at(buf@, i as int) == Ok::<_, ReferenceError>((x@, e as int))
                && i < e <= buf.len(),
            Err(e) => reference_at(buf@, i as int) == Err::<(ReferenceText, int), _>(e),
        },
{
    proof {
        lemma_reference_end(buf@, i as int);
        lemma_label_word();
    }
    let v: usize = match find(buf, i, "\"vector\"".as_bytes()) {
        Some(p) => p,
        None => return Err(ReferenceError::VectorKey),
    };
    let open: usize = match find_byte(buf, v, 0x5b) {
        Some(p) => p,
        None => return Err(ReferenceError::VectorBracket),
    };
    let (numbers, after) = match parse_float_array(buf, open + 1) {
        Some(x) => x,
        None => return Err(ReferenceError::Number),
    };
    assert(places(numbers@).len() == numbers@.len());
    if numbers.len() != DIM {
        return Err(ReferenceError::Dimensions(numbers.len()));
    }
    let l: usize = match find(buf, after, "\"label\"".as_bytes()) {
        Some(p) => p,
        None => return Err(ReferenceError::LabelKey),
    };
    let q1: usize = match find_byte(buf, l + 7, 0x22) {
        Some(p) => p,
        None => return Err(ReferenceError::LabelQuote),
    };
    let q2: usize = match find_byte(buf, q1 + 1, 0x22) {
        Some(p) => p,
        None => return Err(ReferenceError::LabelEnd),
    };
    let label: u8 = if bytes_eq(&buf[q1 + 1..q2], "fraud".as_bytes()) {
        LABEL_FRAUD
    } else {
        LABEL_LEGIT
    };
    let end = skip_object(buf, q2 + 1);
    Ok((Reference { numbers, label }, end))
}

/// Reads the references of a text.
pub fn parse_references(buf: &[u8]) -> (r: Result<Vec<Reference>, ReferenceError>)
    ensures
        match r {
            Ok(list) => references_from(buf@, 0) == Ok::<_, ReferenceError>(texts(list@)),
            Err(e) => references_from(buf@, 0) == Err::<Seq<ReferenceText>, _>(e),
        },
{
    let ghost b = buf@;
    let ghost goal = references_from(b, 0);
    let mut out: Vec<Reference> = Vec::new();
    let mut i: usize = 0;
    assert(texts(out@) =~= Seq::empty());
    proof {
        if let Ok(rest) = references_from(b, 0) {
            assert(Seq::<ReferenceText>::empty() + rest =~= rest);
        }
    }
    loop
        invariant
            b == buf@,
            i <= buf.len(),
            goal == references_from(b, 0),
            match references_from(b, i as int) {
                Ok(rest) => goal == Ok::<_, ReferenceError>(texts(out@) + rest),
                Err(e) => goal == Err::<Seq<ReferenceText>, _>(e),
            },
        decreases buf.len() - i,
    {
        let open = find_byte_from(buf, i, 0x7b);
        if open >= buf.len() {
            assert(texts(out@) + Seq::<ReferenceText>::empty() =~= texts(out@));
            return Ok(out);
        }
        let (first, end) = match read_reference(buf, open) {
            Ok(x) => x,
            Err(e) => return Err(e),
        };
        let ghost before = texts(out@);
        let ghost text = first@;
        out.push(first);
        proof {
            assert(texts(out@) =~= before.push(text));
            if let Ok(rest) = references_from(b, end as int) {
                assert(before + (seq![text] + rest) =~= texts(out@) + rest);
            }
        }
        i = end;
    }
}

/// How many references are labelled fraudulent.
pub open spec fn fraud_total(list: Seq<Reference>) -> int
    decreases list.len(),
{
    if list.len() == 0 {
        0
    } else {
        fraud_total(list.drop_last()) + (if list.last().label == LABEL_FRAUD {
            1int
        } else {
            0int
        })
    }
}

/// Counts the references that are labelled fraudulent.
pub fn count_fraud(list: &Vec<Reference>) -> (r: usize)
    ensures
        r == fraud_total(list@),
{
    let mut n: usize = 0;
    let mut k: usize = 0;
    while k < list.len()
        invariant
            k <= list@.len(),
            n <= k,
            n == fraud_total(list@.take(k as int)),
        decreases list@.len() - k,
    {
        assert(list@.take(k + 1).drop_last() =~= list@.take(k as int));
        if list[k].label == LABEL_FRAUD {
            n += 1;
        }
        k += 1;
    }
    assert(list@.take(list@.len() as int) =~= list@);
    n
}

/// What `flate2` unpacks from gzip data, if they are sound.
pub uninterp spec fn unpacked(packed: Seq<u8>) -> Option<Seq<u8>>;

/// Unpacks gzip data with `flate2::read::GzDecoder`, read to the end. The contract claims that the
/// outcome depends on the data alone: the bytes that the first gzip member holds, or nothing where
/// the decoder reports an error.
#[verifier::external_body]
fn gunzip(packed: &[u8]) -> (r: Option<Vec<u8>>)
    ensures
        match r {
            Some(data) => unpacked(packed@) == Some(data@),
            None => unpacked(packed@) is None,
        },
{
    let mut data: Vec<u8> = Vec::new();
    let mut decoder = flate2::read::GzDecoder::new(packed);
    match std::io::Read::read_to_end(&mut decoder, &mut data) {
        Ok(_) => Some(data),
        Err(_) => None,
    }
}

/// Unpacks a text and reads its references.
pub fn load_references(packed: &[u8]) -> (r: Result<(Vec<u8>, Vec<Reference>), ReferenceError>)
    ensures
        match (r, unpacked(packed@)) {
            (Ok((text, list)), Some(data)) => text@ == data && references_from(data, 0) == Ok::<
                _,
                ReferenceError,
            >(texts(list@)),
            (Ok(_), None) => false,
            (Err(e), Some(data)) => references_from(data, 0) == Err::<Seq<ReferenceText>, _>(e),
            (Err(e), None) => e == ReferenceError::Unpack,
        },
{
    let text = match gunzip(packed) {
        Some(data) => data,
        None => return Err(ReferenceError::Unpack),
    };
    match parse_references(text.as_slice()) {
        Ok(list) => Ok((text, list)),
        Err(e) => Err(e),
    }
}

} // verus!
