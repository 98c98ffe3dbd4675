//! Reading the JSON payload of a request.

use vstd::prelude::*;
use crate::text::{
    byte_end, bytes_eq, capped, capped_decimal, decimal, digits_end, find_byte_from, has_word,
    is_digit, lemma_byte_end, lemma_digits_end, skip_digits, word, word_at,
};
use crate::time::{parse_iso8601, stamp_of, Stamp};

verus! {

/// A number as it is written: sign, digits before and behind the point, and the exponent.
#[derive(Clone, Copy, Debug)]
pub struct Number<'a> {
    pub neg: bool,
    pub int_digits: &'a [u8],
    pub frac_digits: &'a [u8],
    pub exp: i32,
}

/// A written number as a value.
#[verifier::ext_equal]
pub struct NumberText {
    pub neg: bool,
    pub int_digits: Seq<u8>,
    pub frac_digits: Seq<u8>,
    pub exp: int,
}

impl<'a> View for Number<'a> {
    type V = NumberText;

    open spec fn view(&self) -> NumberText {
        NumberText {
            neg: self.neg,
            int_digits: self.int_digits@,
            frac_digits: self.frac_digits@,
            exp: self.exp as int,
        }
    }
}

impl NumberText {
    /// Zero, with nothing written.
    pub open spec fn none() -> NumberText {
        NumberText { neg: false, int_digits: Seq::empty(), frac_digits: Seq::empty(), exp: 0 }
    }
}

/// What a payload says. Text is given as the bytes of the payload, list brackets and quotes of the
/// known merchants included.
#[derive(Clone, Copy, Debug)]
pub struct RawPayload<'a> {
    pub amount: Number<'a>,
    pub installments: u32,
    pub requested_at: Stamp,
    pub customer_avg_amount: Number<'a>,
    pub tx_count_24h: u32,
    pub known_merchants_buf: &'a [u8],
    pub merchant_id: &'a [u8],
    pub merchant_mcc: &'a [u8],
    pub merchant_avg_amount: Number<'a>,
    pub is_online: bool,
    pub card_present: bool,
    pub km_from_home: Number<'a>,
    pub has_last_tx: bool,
    pub last_tx_stamp: Stamp,
    pub last_tx_km: Number<'a>,
}

/// What a payload says, as a value.
#[verifier::ext_equal]
pub struct Payload {
    pub amount: NumberText,
    pub installments: u32,
    pub requested_at: Stamp,
    pub customer_avg_amount: NumberText,
    pub tx_count_24h: u32,
    pub known_merchants: Seq<u8>,
    pub merchant_id: Seq<u8>,
    pub merchant_mcc: Seq<u8>,
    pub merchant_avg_amount: NumberText,
    pub is_online: bool,
    pub card_present: bool,
    pub km_from_home: NumberText,
    pub has_last_tx: bool,
    pub last_tx_stamp: Stamp,
    pub last_tx_km: NumberText,
}

impl<'a> View for RawPayload<'a> {
    type V = Payload;

    open spec fn view(&self) -> Payload {
        Payload {
            amount: self.amount@,
            installments: self.installments,
            requested_at: self.requested_at,
            customer_avg_amount: self.customer_avg_amount@,
            tx_count_24h: self.tx_count_24h,
            known_merchants: self.known_merchants_buf@,
            merchant_id: self.merchant_id@,
            merchant_mcc: self.merchant_mcc@,
            merchant_avg_amount: self.merchant_avg_amount@,
            is_online: self.is_online,
            card_present: self.card_present,
            km_from_home: self.km_from_home@,
            has_last_tx: self.has_last_tx,
            last_tx_stamp: self.last_tx_stamp,
            last_tx_km: self.last_tx_km@,
        }
    }
}

impl Payload {
    /// A payload that says nothing.
    pub open spec fn empty() -> Payload {
        let stamp = Stamp { epoch_minutes: 0, hour: 0, weekday: 0 };
        Payload {
            amount: NumberText::none(),
            installments: 0,
            requested_at: stamp,
            customer_avg_amount: NumberText::none(),
            tx_count_24h: 0,
            known_merchants: Seq::empty(),
            merchant_id: Seq::empty(),
            merchant_mcc: Seq::empty(),
            merchant_avg_amount: NumberText::none(),
            is_online: false,
            card_present: false,
            km_from_home: NumberText::none(),
            has_last_tx: false,
            last_tx_stamp: stamp,
            last_tx_km: NumberText::none(),
        }
    }
}

/// The payload is not what it should be.
#[derive(Clone, Copy, Debug, PartialEq, Eq, Structural)]
pub struct ParseError;

/// Whether a byte is white space.
pub open spec fn is_ws(c: u8) -> bool {
    c == 0x20 || c == 0x09 || c == 0x0a || c == 0x0d
}

/// The end of the white space from `i` on.
pub open spec fn ws_end(b: Seq<u8>, i: int) -> int
    decreases b.len() - i,
{
    if i < b.len() && is_ws(b[i]) {
        ws_end(b, i + 1)
    } else {
        i
    }
}

pub proof fn lemma_ws_end(b: Seq<u8>, i: int)
    ensures
        i <= ws_end(b, i),
        i <= b.len() ==> ws_end(b, i) <= b.len(),
    decreases b.len() - i,
{
    if i < b.len() && is_ws(b[i]) {
        lemma_ws_end(b, i + 1);
    }
}

/// Skips white space.
pub fn skip_ws(buf: &[u8], i: usize) -> (r: usize)
    ensures
        r == ws_end(buf@, i as int),
        i <= r,
        i <= buf.len() ==> r <= buf.len(),
{
    let mut j: usize = i;
    while j < buf.len() && (buf[j] == 0x20 || buf[j] == 0x09 || buf[j] == 0x0a || buf[j] == 0x0d)
        invariant
            i <= j,
            i <= buf.len() ==> j <= buf.len(),
            ws_end(buf@, i as int) == ws_end(buf@, j as int),
        decreases buf.len() - j,
    {
        j += 1;
    }
    j
}

/// Where a byte that must come next ends.
pub open spec fn expect_at(b: Seq<u8>, i: int, c: u8) -> Option<int> {
    let j = ws_end(b, i);
    if j < b.len() && b[j] == c {
        Some(j + 1)
    } else {
        None
    }
}

/// Skips white space and the byte that must come next.
pub fn expect(buf: &[u8], i: usize, c: u8) -> (r: Result<usize, ParseError>)
    ensures
        match r {
            Ok(j) => expect_at(buf@, i as int, c) == Some(j as int) && i < j <= buf.len(),
            Err(_) => expect_at(buf@, i as int, c) is None,
        },
{
    let j = skip_ws(buf, i);
    if j >= buf.len() || buf[j] != c {
        return Err(ParseError);
    }
    Ok(j + 1)
}

/// The string that must come next, and its end. A string ends at the next quote.
pub open spec fn string_at(b: Seq<u8>, i: int) -> Option<(Seq<u8>, int)> {
    let j = ws_end(b, i);
    if j < b.len() && b[j] == 0x22 {
        let e = byte_end(b, j + 1, 0x22);
        if e < b.len() {
            Some((b.subrange(j + 1, e), e + 1))
        } else {
            None
        }
    } else {
        None
    }
}

/// Reads a string.
pub fn read_string<'a>(buf: &'a [u8], i: usize) -> (r: Result<(&'a [u8], usize), ParseError>)
    ensures
        match r {
            Ok((s, e)) => string_at(buf@, i as int) == Some((s@, e as int)) && i < e <= buf.len(),
            Err(_) => string_at(buf@, i as int) is None,
        },
{
    let i0 = skip_ws(buf, i);
    if i0 >= buf.len() || buf[i0] != 0x22 {
        return Err(ParseError);
    }
    let start: usize = i0 + 1;
    let j = find_byte_from(buf, start, 0x22);
    if j >= buf.len() {
        return Err(ParseError);
    }
    Ok((&buf[start..j], j + 1))
}

/// Where the sign that may stand at `i` ends.
pub open spec fn sign_end(b: Seq<u8>, i: int) -> int {
    if i < b.len() && (b[i] == 0x2d || b[i] == 0x2b) {
        i + 1
    } else {
        i
    }
}

/// The exponent that may stand at `i`, and its end.
pub open spec fn exponent_at(b: Seq<u8>, i: int) -> Option<(int, int)> {
    if i < b.len() && (b[i] == 0x65 || b[i] == 0x45) {
        let s = sign_end(b, i + 1);
        let e = digits_end(b, s);
        if e == s {
            None
        } else {
            let n = capped(decimal(b.subrange(s, e)), i32::MAX as int);
            if i + 1 < b.len() && b[i + 1] == 0x2d {
                Some((-n, e))
            } else {
                Some((n, e))
            }
        }
    } else {
        Some((0, i))
    }
}

/// The number that must come next, and its end.
pub open spec fn number_at(b: Seq<u8>, i: int) -> Option<(NumberText, int)> {
    let i0 = ws_end(b, i);
    if i0 >= b.len() {
        None
    } else {
        let i1 = sign_end(b, i0);
        let i2 = digits_end(b, i1);
        let f0 = if i2 < b.len() && b[i2] == 0x2e {
            i2 + 1
        } else {
            i2
        };
        let f1 = if f0 > i2 {
            digits_end(b, f0)
        } else {
            f0
        };
        if i2 == i1 && f1 == f0 {
            None
        } else {
            match exponent_at(b, f1) {
                None => None,
                Some((exp, e)) => Some(
                    (
                        NumberText {
                            neg: b[i0] == 0x2d,
                            int_digits: b.subrange(i1, i2),
                            frac_digits: b.subrange(f0, f1),
                            exp,
                        },
                        e,
                    ),
                ),
            }
        }
    }
}

fn read_exponent(buf: &[u8], i: usize) -> (r: Result<(i32, usize), ParseError>)
    requires
        i <= buf.len(),
    ensures
        match r {
            Ok((n, e)) => exponent_at(buf@, i as int) == Some((n as int, e as int)) && i <= e
                <= buf.len(),
            Err(_) => exponent_at(buf@, i as int) is None,
        },
{
    if i < buf.len() && (buf[i] == 0x65 || buf[i] == 0x45) {
        let mut j: usize = i + 1;
        let mut neg = false;
        if j < buf.len() && buf[j] == 0x2d {
            neg = true;
            j += 1;
        } else if j < buf.len() && buf[j] == 0x2b {
            j += 1;
        }
        let e = skip_digits(buf, j);
        if e == j {
            return Err(ParseError);
        }
        let digits = &buf[j..e];
        assert forall|k: int| 0 <= k < digits@.len() implies is_digit(#[trigger] digits@[k]) by {
            assert(digits@[k] == buf@[j + k]);
        }
        let n: u64 = capped_decimal(digits, 0x7fff_ffff);
        let exp: i32 = if neg {
            -(n as i32)
        } else {
            n as i32
        };
        Ok((exp, e))
    } else {
        Ok((0, i))
    }
}

/// Reads a number.
pub fn read_number<'a>(buf: &'a [u8], i: usize) -> (r: Result<(Number<'a>, usize), ParseError>)
    ensures
        match r {
            Ok((n, e)) => number_at(buf@, i as int) == Some((n@, e as int)) && i < e <= buf.len(),
            Err(_) => number_at(buf@, i as int) is None,
        },
{
    let i0 = skip_ws(buf, i);
    if i0 >= buf.len() {
        return Err(ParseError);
    }
    let neg: bool = buf[i0] == 0x2d;
    let i1: usize = if buf[i0] == 0x2d || buf[i0] == 0x2b {
        i0 + 1
    } else {
        i0
    };
    let i2 = skip_digits(buf, i1);
    let mut f0: usize = i2;
    let mut f1: usize = i2;
    if i2 < buf.len() && buf[i2] == 0x2e {
        f0 = i2 + 1;
        f1 = skip_digits(buf, f0);
    }
    if i2 == i1 && f1 == f0 {
        return Err(ParseError);
    }
    let (exp, e) = match read_exponent(buf, f1) {
        Ok(x) => x,
        Err(_) => return Err(ParseError),
    };
    let n = Number { neg, int_digits: &buf[i1..i2], frac_digits: &buf[f0..f1], exp };
    assert(n@ =~= number_at(buf@, i as int).unwrap().0);
    Ok((n, e))
}

/// The unsigned number that must come next, and its end. Greater ones count as the greatest.
pub open spec fn count_at(b: Seq<u8>, i: int) -> Option<(u32, int)> {
    let s = ws_end(b, i);
    let e = digits_end(b, s);
    if e == s {
        None
    } else {
        Some((capped(decimal(b.subrange(s, e)), u32::MAX as int) as u32, e))
    }
}

/// Reads an unsigned number.
pub fn read_number_u32(buf: &[u8], i: usize) -> (r: Result<(u32, usize), ParseError>)
    ensures
        match r {
            Ok((n, e)) => count_at(buf@, i as int) == Some((n, e as int)) && i < e <= buf.len(),
            Err(_) => count_at(buf@, i as int) is None,
        },
{
    let start = skip_ws(buf, i);
    if start >= buf.len() {
        return Err(ParseError);
    }
    let j = skip_digits(buf, start);
    if j == start {
        return Err(ParseError);
    }
    let digits = &buf[start..j];
    assert forall|k: int| 0 <= k < digits@.len() implies is_digit(#[trigger] digits@[k]) by {
        assert(digits@[k] == buf@[start + k]);
    }
    let n: u64 = capped_decimal(digits, 0xffff_ffff);
    Ok((n as u32, j))
}

/// The truth value that must come next, and its end.
pub open spec fn bool_at(b: Seq<u8>, i: int) -> Option<(bool, int)> {
    let j = ws_end(b, i);
    if word_at(b, j, word("true")) {
        Some((true, j + 4))
    } else if word_at(b, j, word("false")) {
        Some((false, j + 5))
    } else {
        None
    }
}

pub proof fn lemma_word_lengths()
    ensures
        word("true").len() == 4,
        word("false").len() == 5,
        word("null").len() == 4,
{
    reveal_strlit("true");
    reveal_strlit("false");
    reveal_strlit("null");
    vstd::utf8::is_ascii_chars_encode_utf8("true"@);
    vstd::utf8::is_ascii_chars_encode_utf8("false"@);
    vstd::utf8::is_ascii_chars_encode_utf8("null"@);
}

/// Reads a truth value.
pub fn read_bool(buf: &[u8], i: usize) -> (r: Result<(bool, usize), ParseError>)
    ensures
        match r {
            Ok((v, e)) => bool_at(buf@, i as int) == Some((v, e as int)) && i < e <= buf.len(),
            Err(_) => bool_at(buf@, i as int) is None,
        },
{
    proof {
        lemma_word_lengths();
    }
    let j = skip_ws(buf, i);
    if has_word(buf, j, "true".as_bytes()) {
        Ok((true, j + 4))
    } else if has_word(buf, j, "false".as_bytes()) {
        Ok((false, j + 5))
    } else {
        Err(ParseError)
    }
}

/// Whether `null` comes next.
pub fn is_null(buf: &[u8], i: usize) -> (r: bool)
    ensures
        r == word_at(buf@, ws_end(buf@, i as int), word("null")),
{
    let j = skip_ws(buf, i);
    has_word(buf, j, "null".as_bytes())
}

/// Where an object or list ends whose brackets are open `depth` times at `i`. Brackets in strings
/// do not count.
pub open spec fn nested_end(b: Seq<u8>, i: int, open: u8, close: u8, depth: int) -> Option<int>
    decreases b.len() + 1 - i,
{
    if depth == 0 {
        Some(i)
    } else if i < 0 || i >= b.len() {
        None
    } else if b[i] == 0x22 {
        proof {
            lemma_byte_end(b, i + 1, 0x22);
        }
        nested_end(b, byte_end(b, i + 1, 0x22) + 1, open, close, depth)
    } else if b[i] == open {
        nested_end(b, i + 1, open, close, depth + 1)
    } else if b[i] == close {
        nested_end(b, i + 1, open, close, depth - 1)
    } else {
        nested_end(b, i + 1, open, close, depth)
    }
}

/// Whether a byte ends a bare value.
pub open spec fn ends_bare(c: u8) -> bool {
    c == 0x2c || c == 0x7d || c == 0x5d || is_ws(c)
}

/// The end of a bare value.
pub open spec fn bare_end(b: Seq<u8>, i: int) -> int
    decreases b.len() - i,
{
    if i < b.len() && !ends_bare(b[i]) {
        bare_end(b, i + 1)
    } else {
        i
    }
}

/// Where the value that must come next ends, whatever it is.
pub open spec fn value_end(b: Seq<u8>, i: int) -> Option<int> {
    let j = ws_end(b, i);
    if j >= b.len() {
        None
    } else if b[j] == 0x22 {
        let e = byte_end(b, j + 1, 0x22);
        if e < b.len() {
            Some(e + 1)
        } else {
            None
        }
    } else if b[j] == 0x7b {
        nested_end(b, j + 1, 0x7b, 0x7d, 1)
    } else if b[j] == 0x5b {
        nested_end(b, j + 1, 0x5b, 0x5d, 1)
    } else if b[j] == 0x74 || b[j] == 0x6e {
        Some(j + 4)
    } else if b[j] == 0x66 {
        Some(j + 5)
    } else {
        Some(bare_end(b, j))
    }
}

/// An object or list does not end before it begins.
pub proof fn lemma_nested_end(b: Seq<u8>, i: int, open: u8, close: u8, depth: int)
    requires
        0 <= i,
        0 <= depth,
        depth == 0 ==> i <= b.len(),
    ensures
        nested_end(b, i, open, close, depth) matches Some(e) ==> i <= e <= b.len(),
    decreases b.len() + 1 - i,
{
    if depth != 0 && i < b.len() {
        if b[i] == 0x22 {
            lemma_byte_end(b, i + 1, 0x22);
            lemma_nested_end(b, byte_end(b, i + 1, 0x22) + 1, open, close, depth);
        } else if b[i] == open {
            lemma_nested_end(b, i + 1, open, close, depth + 1);
        } else if b[i] == close {
            lemma_nested_end(b, i + 1, open, close, depth - 1);
        } else {
            lemma_nested_end(b, i + 1, open, close, depth);
        }
    }
}

proof fn lemma_bare_end(b: Seq<u8>, i: int)
    ensures
        i <= bare_end(b, i),
        i <= b.len() ==> bare_end(b, i) <= b.len(),
    decreases b.len() - i,
{
    if i < b.len() && !ends_bare(b[i]) {
        lemma_bare_end(b, i + 1);
    }
}

/// A value does not end before it begins.
pub proof fn lemma_value_end(b: Seq<u8>, i: int)
    requires
        0 <= i,
    ensures
        value_end(b, i) matches Some(e) ==> i <= e <= b.len() + 4,
{
    let j = ws_end(b, i);
    lemma_ws_end(b, i);
    if j < b.len() {
        lemma_byte_end(b, j + 1, 0x22);
        lemma_nested_end(b, j + 1, 0x7b, 0x7d, 1);
        lemma_nested_end(b, j + 1, 0x5b, 0x5d, 1);
        lemma_bare_end(b, j);
    }
}

fn skip_nested(buf: &[u8], i: usize, open: u8, close: u8) -> (r: Result<usize, ParseError>)
    requires
        i <= buf.len(),
        buf.len() <= isize::MAX,
    ensures
        match r {
            Ok(e) => nested_end(buf@, i as int, open, close, 1) == Some(e as int) && i <= e
                <= buf.len(),
            Err(_) => nested_end(buf@, i as int, open, close, 1) is None,
        },
{
    let mut depth: usize = 1;
    let mut j: usize = i;
    proof {
        lemma_nested_end(buf@, i as int, open, close, 1);
    }
    while j < buf.len() && depth > 0
        invariant
            i <= j <= buf.len() + 1,
            buf.len() <= isize::MAX,
            depth <= 1 + (j - i),
            nested_end(buf@, i as int, open, close, 1) == nested_end(
                buf@,
                j as int,
                open,
                close,
                depth as int,
            ),
        decreases buf.len() + 1 - j,
    {
        let c: u8 = buf[j];
        if c == 0x22 {
            j = find_byte_from(buf, j + 1, 0x22);
        } else if c == open {
            depth += 1;
        } else if c == close {
            depth -= 1;
        }
        j += 1;
    }
    if depth != 0 {
        return Err(ParseError);
    }
    Ok(j)
}

/// Skips a value, whatever it is.
pub fn skip_value(buf: &[u8], i: usize) -> (r: Result<usize, ParseError>)
    requires
        buf.len() <= isize::MAX,
    ensures
        match r {
            Ok(e) => value_end(buf@, i as int) == Some(e as int),
            Err(_) => value_end(buf@, i as int) is None,
        },
{
    let j = skip_ws(buf, i);
    if j >= buf.len() {
        return Err(ParseError);
    }
    let c: u8 = buf[j];
    if c == 0x22 {
        let e = find_byte_from(buf, j + 1, 0x22);
        if e >= buf.len() {
            return Err(ParseError);
        }
        Ok(e + 1)
    } else if c == 0x7b {
        skip_nested(buf, j + 1, 0x7b, 0x7d)
    } else if c == 0x5b {
        skip_nested(buf, j + 1, 0x5b, 0x5d)
    } else if c == 0x74 || c == 0x6e {
        Ok(j + 4)
    } else if c == 0x66 {
        Ok(j + 5)
    } else {
        let mut k: usize = j;
        while k < buf.len() && !(buf[k] == 0x2c || buf[k] == 0x7d || buf[k] == 0x5d || buf[k] == 0x20
            || buf[k] == 0x09 || buf[k] == 0x0a || buf[k] == 0x0d)
            invariant
                j <= k <= buf.len(),
                bare_end(buf@, j as int) == bare_end(buf@, k as int),
            decreases buf.len() - k,
        {
            k += 1;
        }
        Ok(k)
    }
}

/// The list that must come next, brackets included, and its end.
pub open spec fn array_at(b: Seq<u8>, i: int) -> Option<(Seq<u8>, int)> {
    let j = ws_end(b, i);
    if j < b.len() && b[j] == 0x5b {
        match nested_end(b, j + 1, 0x5b, 0x5d, 1) {
            Some(e) => Some((b.subrange(j, e), e)),
            None => None,
        }
    } else {
        None
    }
}

/// Reads a list without looking into it.
pub fn read_array_raw<'a>(buf: &'a [u8], i: usize) -> (r: Result<(&'a [u8], usize), ParseError>)
    requires
        buf.len() <= isize::MAX,
    ensures
        match r {
            Ok((s, e)) => array_at(buf@, i as int) == Some((s@, e as int)) && i < e <= buf.len(),
            Err(_) => array_at(buf@, i as int) is None,
        },
{
    let start = skip_ws(buf, i);
    if start >= buf.len() || buf[start] != 0x5b {
        return Err(ParseError);
    }
    assert(ws_end(buf@, start as int) == start);
    let end = match skip_value(buf, start) {
        Ok(e) => e,
        Err(_) => return Err(ParseError),
    };
    proof {
        lemma_nested_end(buf@, start + 1, 0x5b, 0x5d, 1);
    }
    Ok((&buf[start..end], end))
}

/// The parts of a payload.
#[derive(Clone, Copy, Debug, PartialEq, Eq, Structural)]
pub enum Section {
    Transaction,
    Customer,
    Merchant,
    Terminal,
    LastTransaction,
}

/// A field of a payload after its value was read, and the end of the value. A field that is not
/// known is skipped.
pub open spec fn field_at(b: Seq<u8>, sec: Section, key: Seq<u8>, v: int, p: Payload) -> Option<
    (Payload, int),
> {
    if sec == Section::Transaction && key == word("amount") {
        match number_at(b, v) {
            Some((n, e)) => Some((Payload { amount: n, ..p }, e)),
            None => None,
        }
    } else if sec == Section::Transaction && key == word("installments") {
        match count_at(b, v) {
            Some((n, e)) => Some((Payload { installments: n, ..p }, e)),
            None => None,
        }
    } else if sec == Section::Transaction && key == word("requested_at") {
        match stamp_at(b, v) {
            Some((t, e)) => Some((Payload { requested_at: t, ..p }, e)),
            None => None,
        }
    } else if sec == Section::Customer && key == word("avg_amount") {
        match number_at(b, v) {
            Some((n, e)) => Some((Payload { customer_avg_amount: n, ..p }, e)),
            None => None,
        }
    } else if sec == Section::Customer && key == word("tx_count_24h") {
        match count_at(b, v) {
            Some((n, e)) => Some((Payload { tx_count_24h: n, ..p }, e)),
            None => None,
        }
    } else if sec == Section::Customer && key == word("known_merchants") {
        match array_at(b, v) {
            Some((s, e)) => Some((Payload { known_merchants: s, ..p }, e)),
            None => None,
        }
    } else if sec == Section::Merchant && key == word("id") {
        match string_at(b, v) {
            Some((s, e)) => Some((Payload { merchant_id: s, ..p }, e)),
            None => None,
        }
    } else if sec == Section::Merchant && key == word("mcc") {
        match string_at(b, v) {
            Some((s, e)) => Some((Payload { merchant_mcc: s, ..p }, e)),
            None => None,
        }
    } else if sec == Section::Merchant && key == word("avg_amount") {
        match number_at(b, v) {
            Some((n, e)) => Some((Payload { merchant_avg_amount: n, ..p }, e)),
            None => None,
        }
    } else if sec == Section::Terminal && key == word("is_online") {
        match bool_at(b, v) {
            Some((x, e)) => Some((Payload { is_online: x, ..p }, e)),
            None => None,
        }
    } else if sec == Section::Terminal && key == word("card_present") {
        match bool_at(b, v) {
            Some((x, e)) => Some((Payload { card_present: x, ..p }, e)),
            None => None,
        }
    } else if sec == Section::Terminal && key == word("km_from_home") {
        match number_at(b, v) {
            Some((n, e)) => Some((Payload { km_from_home: n, ..p }, e)),
            None => None,
        }
    } else if sec == Section::LastTransaction && key == word("timestamp") {
        match stamp_at(b, v) {
            Some((t, e)) => Some((Payload { last_tx_stamp: t, ..p }, e)),
            None => None,
        }
    } else if sec == Section::LastTransaction && key == word("km_from_current") {
        match number_at(b, v) {
            Some((n, e)) => Some((Payload { last_tx_km: n, ..p }, e)),
            None => None,
        }
    } else {
        match value_end(b, v) {
            Some(e) => Some((p, e)),
            None => None,
        }
    }
}

/// The timestamp that must come next, and its end.
pub open spec fn stamp_at(b: Seq<u8>, i: int) -> Option<(Stamp, int)> {
    match string_at(b, i) {
        Some((s, e)) => match stamp_of(s) {
            Some(t) => Some((t, e)),
            None => None,
        },
        None => None,
    }
}

fn read_stamp(buf: &[u8], i: usize) -> (r: Result<(Stamp, usize), ParseError>)
    ensures
        match r {
            Ok((t, e)) => stamp_at(buf@, i as int) == Some((t, e as int)) && i < e <= buf.len(),
            Err(_) => stamp_at(buf@, i as int) is None,
        },
{
    match read_string(buf, i) {
        Ok((s, e)) => match parse_iso8601(s) {
            Some(t) => Ok((t, e)),
            None => Err(ParseError),
        },
        Err(_) => Err(ParseError),
    }
}

/// A field does not end before it begins.
pub proof fn lemma_field_end(b: Seq<u8>, sec: Section, key: Seq<u8>, v: int, p: Payload)
    requires
        0 <= v,
    ensures
        field_at(b, sec, key, v, p) matches Some((_, e)) ==> v <= e,
{
    let j = ws_end(b, v);
    lemma_ws_end(b, v);
    lemma_value_end(b, v);
    if j < b.len() {
        lemma_byte_end(b, j + 1, 0x22);
        lemma_nested_end(b, j + 1, 0x5b, 0x5d, 1);
        lemma_digits_end(b, j);
        let i1 = sign_end(b, j);
        lemma_digits_end(b, i1);
        let i2 = digits_end(b, i1);
        let f1 = if i2 < b.len() && b[i2] == 0x2e {
            lemma_digits_end(b, i2 + 1);
            digits_end(b, i2 + 1)
        } else {
            i2
        };
        if f1 < b.len() {
            lemma_digits_end(b, sign_end(b, f1 + 1));
        }
    }
}

/// The members of a section from `i` on, up to the closing brace.
pub open spec fn members_at(b: Seq<u8>, sec: Section, i: int, p: Payload) -> Option<(Payload, int)>
    decreases b.len() - i,
{
    let i0 = ws_end(b, i);
    if i < 0 {
        None
    } else if i0 < b.len() && b[i0] == 0x7d {
        Some((p, i0 + 1))
    } else {
        match string_at(b, i0) {
            None => None,
            Some((key, n)) => match expect_at(b, n, 0x3a) {
                None => None,
                Some(k) => {
                    let v = ws_end(b, k);
                    match field_at(b, sec, key, v, p) {
                        None => None,
                        Some((q, e0)) => {
                            let e = ws_end(b, e0);
                            if e < b.len() && b[e] == 0x2c {
                                proof {
                                    lemma_ws_end(b, i);
                                    lemma_key_end(b, i0, n, k);
                                    lemma_ws_end(b, k);
                                    lemma_field_end(b, sec, key, v, p);
                                    lemma_ws_end(b, e0);
                                }
                                members_at(b, sec, e + 1, q)
                            } else if e < b.len() && b[e] == 0x7d {
                                Some((q, e + 1))
                            } else {
                                None
                            }
                        },
                    }
                },
            },
        }
    }
}

/// A key takes up room.
pub proof fn lemma_key_end(b: Seq<u8>, i: int, n: int, k: int)
    requires
        0 <= i,
        string_at(b, i) matches Some((_, m)) && m == n,
        expect_at(b, n, 0x3a) == Some(k),
    ensures
        i < n < k <= b.len(),
{
    let j = ws_end(b, i);
    lemma_ws_end(b, i);
    lemma_byte_end(b, j + 1, 0x22);
    lemma_ws_end(b, n);
}

/// A section, braces included, and its end.
pub open spec fn object_at(b: Seq<u8>, sec: Section, i: int, p: Payload) -> Option<(Payload, int)> {
    match expect_at(b, i, 0x7b) {
        None => None,
        Some(j) => members_at(b, sec, j, p),
    }
}

/// A member of the payload after it was read, and its end.
pub open spec fn member_at(b: Seq<u8>, key: Seq<u8>, v: int, p: Payload) -> Option<(Payload, int)> {
    if key == word("transaction") {
        object_at(b, Section::Transaction, v, p)
    } else if key == word("customer") {
        object_at(b, Section::Customer, v, p)
    } else if key == word("merchant") {
        object_at(b, Section::Merchant, v, p)
    } else if key == word("terminal") {
        object_at(b, Section::Terminal, v, p)
    } else if key == word("last_transaction") {
        if word_at(b, ws_end(b, v), word("null")) {
            Some((Payload { has_last_tx: false, ..p }, v + 4))
        } else {
            object_at(b, Section::LastTransaction, v, Payload { has_last_tx: true, ..p })
        }
    } else {
        match value_end(b, v) {
            Some(e) => Some((p, e)),
            None => None,
        }
    }
}

/// Sections do not end before they begin.
proof fn lemma_members_end(b: Seq<u8>, sec: Section, i: int, p: Payload)
    requires
        0 <= i,
    ensures
        members_at(b, sec, i, p) matches Some((_, e)) ==> i < e,
    decreases b.len() - i,
{
    let i0 = ws_end(b, i);
    lemma_ws_end(b, i);
    if !(i0 < b.len() && b[i0] == 0x7d) {
        if let Some((key, n)) = string_at(b, i0) {
            if let Some(k) = expect_at(b, n, 0x3a) {
                let v = ws_end(b, k);
                lemma_key_end(b, i0, n, k);
                lemma_ws_end(b, k);
                lemma_field_end(b, sec, key, v, p);
                if let Some((q, e0)) = field_at(b, sec, key, v, p) {
                    let e = ws_end(b, e0);
                    lemma_ws_end(b, e0);
                    if e < b.len() && b[e] == 0x2c {
                        lemma_members_end(b, sec, e + 1, q);
                    }
                }
            }
        }
    }
}

pub proof fn lemma_member_end(b: Seq<u8>, key: Seq<u8>, v: int, p: Payload)
    requires
        0 <= v,
    ensures
        member_at(b, key, v, p) matches Some((_, e)) ==> v <= e,
{
    lemma_value_end(b, v);
    lemma_ws_end(b, v);
    if let Some(j) = expect_at(b, v, 0x7b) {
        lemma_members_end(b, Section::Transaction, j, p);
        lemma_members_end(b, Section::Customer, j, p);
        lemma_members_end(b, Section::Merchant, j, p);
        lemma_members_end(b, Section::Terminal, j, p);
        lemma_members_end(b, Section::LastTransaction, j, Payload { has_last_tx: true, ..p });
    }
}

/// The members of the payload from `i` on, up to the closing brace.
pub open spec fn top_members_at(b: Seq<u8>, i: int, p: Payload) -> Option<(Payload, int)>
    decreases b.len() - i,
{
    let i0 = ws_end(b, i);
    if i < 0 {
        None
    } else if i0 < b.len() && b[i0] == 0x7d {
        Some((p, i0 + 1))
    } else {
        match string_at(b, i0) {
            None => None,
            Some((key, n)) => match expect_at(b, n, 0x3a) {
                None => None,
                Some(k) => {
                    let v = ws_end(b, k);
                    match member_at(b, key, v, p) {
                        None => None,
                        Some((q, e0)) => {
                            let e = ws_end(b, e0);
                            if e < b.len() && b[e] == 0x2c {
                                proof {
                                    lemma_ws_end(b, i);
                                    lemma_key_end(b, i0, n, k);
                                    lemma_ws_end(b, k);
                                    lemma_member_end(b, key, v, p);
                                    lemma_ws_end(b, e0);
                                }
                                top_members_at(b, e + 1, q)
                            } else if e < b.len() && b[e] == 0x7d {
                                Some((q, e + 1))
                            } else {
                                None
                            }
                        },
                    }
                },
            },
        }
    }
}

/// What a payload says, if it is one. What follows the closing brace does not matter.
pub open spec fn payload_of(b: Seq<u8>) -> Option<Payload> {
    match expect_at(b, 0, 0x7b) {
        None => None,
        Some(j) => match top_members_at(b, j, Payload::empty()) {
            Some((p, _)) => Some(p),
            None => None,
        },
    }
}

/// Reads the value of a field.
#[verifier::rlimit(60)]
fn read_field<'a>(
    buf: &'a [u8],
    sec: Section,
    key: &[u8],
    v: usize,
    p: &mut RawPayload<'a>,
) -> (r: Result<usize, ParseError>)
    requires
        buf.len() <= isize::MAX,
    ensures
        match r {
            Ok(e) => field_at(buf@, sec, key@, v as int, old(p)@) == Some(
                (final(p)@, e as int),
            ),
            Err(_) => field_at(buf@, sec, key@, v as int, old(p)@) is None,
        },
{
    match sec {
        Section::Transaction => {
            if bytes_eq(key, "amount".as_bytes()) {
                match read_number(buf, v) {
                    Ok((x, e)) => {
                        p.amount = x;
                        return Ok(e);
                    },
                    Err(_) => return Err(ParseError),
                }
            } else if bytes_eq(key, "installments".as_bytes()) {
                match read_number_u32(buf, v) {
                    Ok((x, e)) => {
                        p.installments = x;
                        return Ok(e);
                    },
                    Err(_) => return Err(ParseError),
                }
            } else if bytes_eq(key, "requested_at".as_bytes()) {
                match read_stamp(buf, v) {
                    Ok((x, e)) => {
                        p.requested_at = x;
                        return Ok(e);
                    },
                    Err(_) => return Err(ParseError),
                }
            }
        },
        Section::Customer => {
            if bytes_eq(key, "avg_amount".as_bytes()) {
                match read_number(buf, v) {
                    Ok((x, e)) => {
                        p.customer_avg_amount = x;
                        return Ok(e);
                    },
                    Err(_) => return Err(ParseError),
                }
            } else if bytes_eq(key, "tx_count_24h".as_bytes()) {
                match read_number_u32(buf, v) {
                    Ok((x, e)) => {
                        p.tx_count_24h = x;
                        return Ok(e);
                    },
                    Err(_) => return Err(ParseError),
                }
            } else if bytes_eq(key, "known_merchants".as_bytes()) {
                match read_array_raw(buf, v) {
                    Ok((x, e)) => {
                        p.known_merchants_buf = x;
                        return Ok(e);
                    },
                    Err(_) => return Err(ParseError),
                }
            }
        },
        Section::Merchant => {
            if bytes_eq(key, "id".as_bytes()) {
                match read_string(buf, v) {
                    Ok((x, e)) => {
                        p.merchant_id = x;
                        return Ok(e);
                    },
                    Err(_) => return Err(ParseError),
                }
            } else if bytes_eq(key, "mcc".as_bytes()) {
                match read_string(buf, v) {
                    Ok((x, e)) => {
                        p.merchant_mcc = x;
                        return Ok(e);
                    },
                    Err(_) => return Err(ParseError),
                }
            } else if bytes_eq(key, "avg_amount".as_bytes()) {
                match read_number(buf, v) {
                    Ok((x, e)) => {
                        p.merchant_avg_amount = x;
                        return Ok(e);
                    },
                    Err(_) => return Err(ParseError),
                }
            }
        },
        Section::Terminal => {
            if bytes_eq(key, "is_online".as_bytes()) {
                match read_bool(buf, v) {
                    Ok((x, e)) => {
                        p.is_online = x;
                        return Ok(e);
                    },
                    Err(_) => return Err(ParseError),
                }
            } else if bytes_eq(key, "card_present".as_bytes()) {
                match read_bool(buf, v) {
                    Ok((x, e)) => {
                        p.card_present = x;
                        return Ok(e);
                    },
                    Err(_) => return Err(ParseError),
                }
            } else if bytes_eq(key, "km_from_home".as_bytes()) {
                match read_number(buf, v) {
                    Ok((x, e)) => {
                        p.km_from_home = x;
                        return Ok(e);
                    },
                    Err(_) => return Err(ParseError),
                }
            }
        },
        Section::LastTransaction => {
            if bytes_eq(key, "timestamp".as_bytes()) {
                match read_stamp(buf, v) {
                    Ok((x, e)) => {
                        p.last_tx_stamp = x;
                        return Ok(e);
                    },
                    Err(_) => return Err(ParseError),
                }
            } else if bytes_eq(key, "km_from_current".as_bytes()) {
                match read_number(buf, v) {
                    Ok((x, e)) => {
                        p.last_tx_km = x;
                        return Ok(e);
                    },
                    Err(_) => return Err(ParseError),
                }
            }
        },
    }
    skip_value(buf, v)
}

/// Reads the members of a section.
fn for_each_kv<'a>(buf: &'a [u8], start: usize, sec: Section, p: &mut RawPayload<'a>) -> (r: Result<
    usize,
    ParseError,
>)
    requires
        buf.len() <= isize::MAX,
    ensures
        match r {
            Ok(e) => object_at(buf@, sec, start as int, old(p)@) == Some((final(p)@, e as int)),
            Err(_) => object_at(buf@, sec, start as int, old(p)@) is None,
        },
{
    let ghost b = buf@;
    let mut i: usize = match expect(buf, start, 0x7b) {
        Ok(j) => j,
        Err(_) => return Err(ParseError),
    };
    let ghost goal = members_at(b, sec, i as int, p@);
    loop
        invariant
            b == buf@,
            buf.len() <= isize::MAX,
            i <= buf.len(),
            goal == members_at(b, sec, i as int, p@),
            goal == object_at(b, sec, start as int, old(p)@),
        decreases buf.len() - i,
    {
        let i0 = skip_ws(buf, i);
        if i0 < buf.len() && buf[i0] == 0x7d {
            return Ok(i0 + 1);
        }
        let (key, next) = match read_string(buf, i0) {
            Ok(x) => x,
            Err(_) => return Err(ParseError),
        };
        let k: usize = match expect(buf, next, 0x3a) {
            Ok(j) => j,
            Err(_) => return Err(ParseError),
        };
        let v = skip_ws(buf, k);
        let ghost before = p@;
        let e0: usize = match read_field(buf, sec, key, v, p) {
            Ok(e) => e,
            Err(_) => return Err(ParseError),
        };
        proof {
            lemma_field_end(b, sec, key@, v as int, before);
        }
        let e = skip_ws(buf, e0);
        if e < buf.len() && buf[e] == 0x2c {
            i = e + 1;
            continue;
        }
        if e < buf.len() && buf[e] == 0x7d {
            return Ok(e + 1);
        }
        return Err(ParseError);
    }
}

impl<'a> Default for RawPayload<'a> {
    fn default() -> (r: RawPayload<'a>)
        ensures
            r@ == Payload::empty(),
    {
        let none: &'a [u8] = &[];
        let zero = Number { neg: false, int_digits: none, frac_digits: none, exp: 0 };
        let r = RawPayload {
            amount: zero,
            installments: 0,
            requested_at: Stamp::default(),
            customer_avg_amount: zero,
            tx_count_24h: 0,
            known_merchants_buf: none,
            merchant_id: none,
            merchant_mcc: none,
            merchant_avg_amount: zero,
            is_online: false,
            card_present: false,
            km_from_home: zero,
            has_last_tx: false,
            last_tx_stamp: Stamp::default(),
            last_tx_km: zero,
        };
        assert(zero@ =~= NumberText::none());
        assert(r@ =~= Payload::empty());
        r
    }
}

/// Reads a member of the payload.
fn read_member<'a>(buf: &'a [u8], key: &[u8], v: usize, p: &mut RawPayload<'a>) -> (r: Result<
    usize,
    ParseError,
>)
    requires
        buf.len() <= isize::MAX,
        v <= buf.len(),
    ensures
        match r {
            Ok(e) => member_at(buf@, key@, v as int, old(p)@) == Some((final(p)@, e as int)),
            Err(_) => member_at(buf@, key@, v as int, old(p)@) is None,
        },
{
    if bytes_eq(key, "transaction".as_bytes()) {
        return for_each_kv(buf, v, Section::Transaction, p);
    }
    if bytes_eq(key, "customer".as_bytes()) {
        return for_each_kv(buf, v, Section::Customer, p);
    }
    if bytes_eq(key, "merchant".as_bytes()) {
        return for_each_kv(buf, v, Section::Merchant, p);
    }
    if bytes_eq(key, "terminal".as_bytes()) {
        return for_each_kv(buf, v, Section::Terminal, p);
    }
    if bytes_eq(key, "last_transaction".as_bytes()) {
        if is_null(buf, v) {
            p.has_last_tx = false;
            return Ok(v + 4);
        }
        p.has_last_tx = true;
        return for_each_kv(buf, v, Section::LastTransaction, p);
    }
    skip_value(buf, v)
}

/// Reads a payload.
pub fn parse_payload<'a>(buf: &'a [u8]) -> (r: Result<RawPayload<'a>, ParseError>)
    requires
        buf.len() <= isize::MAX,
    ensures
        match r {
            Ok(p) => payload_of(buf@) == Some(p@),
            Err(_) => payload_of(buf@) is None,
        },
{
    let ghost b = buf@;
    let mut p: RawPayload<'a> = RawPayload::default();
    let mut i: usize = match expect(buf, 0, 0x7b) {
        Ok(j) => j,
        Err(_) => return Err(ParseError),
    };
    let ghost start = i as int;
    let ghost goal = top_members_at(b, start, Payload::empty());
    loop
        invariant
            b == buf@,
            buf.len() <= isize::MAX,
            i <= buf.len(),
            goal == top_members_at(b, i as int, p@),
            goal == top_members_at(b, start, Payload::empty()),
            expect_at(b, 0, 0x7b) == Some(start),
        decreases buf.len() - i,
    {
        let i0 = skip_ws(buf, i);
        if i0 < buf.len() && buf[i0] == 0x7d {
            return Ok(p);
        }
        let (key, next) = match read_string(buf, i0) {
            Ok(x) => x,
            Err(_) => return Err(ParseError),
        };
        let k: usize = match expect(buf, next, 0x3a) {
            Ok(j) => j,
            Err(_) => return Err(ParseError),
        };
        let v = skip_ws(buf, k);
        let ghost before = p@;
        let e0: usize = match read_member(buf, key, v, &mut p) {
            Ok(e) => e,
            Err(_) => return Err(ParseError),
        };
        proof {
            lemma_member_end(b, key@, v as int, before);
        }
        let e = skip_ws(buf, e0);
        if e < buf.len() && buf[e] == 0x2c {
            i = e + 1;
            continue;
        }
        if e < buf.len() && buf[e] == 0x7d {
            return Ok(p);
        }
        return Err(ParseError);
    }
}

/// The quoted strings from `i` on. The last one need not be closed.
pub open spec fn strings_from(b: Seq<u8>, i: int) -> Seq<Seq<u8>>
    decreases b.len() + 1 - i,
{
    if i < 0 || i >= b.len() {
        Seq::empty()
    } else if b[i] == 0x22 {
        proof {
            lemma_byte_end(b, i + 1, 0x22);
        }
        let e = byte_end(b, i + 1, 0x22);
        seq![b.subrange(i + 1, e)] + strings_from(b, e + 1)
    } else {
        strings_from(b, i + 1)
    }
}

/// Names in quotes with commas between them, and a closing bracket. A comma comes first where other
/// names stand before.
pub open spec fn quoted(names: Seq<Seq<u8>>, others: bool) -> Seq<u8>
    decreases names.len(),
{
    if names.len() == 0 {
        seq![0x5du8]
    } else {
        (if others {
            seq![0x2cu8, 0x22u8]
        } else {
            seq![0x22u8]
        }) + names[0] + seq![0x22u8] + quoted(names.skip(1), true)
    }
}

/// A list of names.
pub open spec fn name_list(names: Seq<Seq<u8>>) -> Seq<u8> {
    seq![0x5bu8] + quoted(names, false)
}

/// Whether no name holds a quote.
pub open spec fn plain_names(names: Seq<Seq<u8>>) -> bool {
    forall|k: int, j: int|
        0 <= k < names.len() && 0 <= j < names[k].len() ==> #[trigger] names[k][j] != 0x22
}

proof fn lemma_byte_end_is(b: Seq<u8>, i: int, c: u8, e: int)
    requires
        0 <= i <= e < b.len(),
        b[e] == c,
        forall|j: int| i <= j < e ==> b[j] != c,
    ensures
        byte_end(b, i, c) == e,
    decreases e - i,
{
    if i < e {
        lemma_byte_end_is(b, i + 1, c, e);
    }
}

proof fn lemma_quoted(before: Seq<u8>, names: Seq<Seq<u8>>, others: bool)
    requires
        plain_names(names),
    ensures
        strings_from(before + quoted(names, others), before.len() as int) == names,
    decreases names.len(),
{
    let b = before + quoted(names, others);
    let at = before.len() as int;
    if names.len() == 0 {
        assert(b[at] == 0x5d);
        assert(strings_from(b, at + 1) =~= Seq::empty());
        assert(names =~= Seq::empty());
    } else {
        let name = names[0];
        let rest = names.skip(1);
        let mark = if others {
            seq![0x2cu8, 0x22u8]
        } else {
            seq![0x22u8]
        };
        let q = at + mark.len() - 1;
        let e = q + 1 + name.len();
        let head = before + mark + name + seq![0x22u8];
        assert(b =~= head + quoted(rest, true));
        assert(b[q] == 0x22);
        assert(b.subrange(q + 1, e) =~= name);
        assert(b[e] == 0x22);
        assert forall|j: int| q + 1 <= j < e implies b[j] != 0x22 by {
            assert(b[j] == names[0][j - q - 1]);
        }
        lemma_byte_end_is(b, q + 1, 0x22, e);
        assert forall|k: int, j: int|
            0 <= k < rest.len() && 0 <= j < rest[k].len() implies #[trigger] rest[k][j] != 0x22 by {
            assert(rest[k] == names[k + 1]);
            assert(names[k + 1][j] != 0x22);
        }
        lemma_quoted(head, rest, true);
        assert(strings_from(b, q) == seq![name] + strings_from(b, e + 1));
        if others {
            assert(b[at] == 0x2c);
            assert(strings_from(b, at) == strings_from(b, at + 1));
        }
        assert(seq![name] + rest =~= names);
    }
}

/// The names on a written list are those that are found on it.
pub proof fn written_names_are_found(names: Seq<Seq<u8>>)
    requires
        plain_names(names),
    ensures
        strings_from(name_list(names), 0) == names,
{
    lemma_quoted(seq![0x5bu8], names, false);
    let b = name_list(names);
    assert(b[0] == 0x5b);
    assert(strings_from(b, 0) == strings_from(b, 1));
}

/// Whether a merchant is on a list of quoted names.
pub fn merchant_in_known(known_raw: &[u8], merchant_id: &[u8]) -> (r: bool)
    ensures
        r == (merchant_id@.len() > 0 && strings_from(known_raw@, 0).contains(merchant_id@)),
{
    if merchant_id.len() == 0 {
        return false;
    }
    let ghost b = known_raw@;
    let ghost id = merchant_id@;
    let mut i: usize = 0;
    while i < known_raw.len()
        invariant
            b == known_raw@,
            id == merchant_id@,
            id.len() > 0,
            i <= known_raw.len() || strings_from(b, i as int).len() == 0,
            strings_from(b, 0).contains(id) == strings_from(b, i as int).contains(id),
        decreases known_raw.len() - i,
    {
        if known_raw[i] == 0x22 {
            let start: usize = i + 1;
            let j = find_byte_from(known_raw, start, 0x22);
            let ghost name = b.subrange(start as int, j as int);
            let ghost rest = strings_from(b, j + 1);
            let ghost here = strings_from(b, i as int);
            proof {
                assert(here == seq![name] + rest);
                assert(here[0] == name);
                if rest.contains(id) {
                    let k = choose|k: int| 0 <= k < rest.len() && rest[k] == id;
                    assert(here[k + 1] == id);
                }
                if here.contains(id) && name != id {
                    let k = choose|k: int| 0 <= k < here.len() && here[k] == id;
                    assert(rest[k - 1] == id);
                }
            }
            if bytes_eq(&known_raw[start..j], merchant_id) {
                return true;
            }
            if j >= known_raw.len() {
                return false;
            }
            i = j + 1;
        } else {
            i += 1;
        }
    }
    false
}

} // verus!
