//! Bytes of text.

use vstd::prelude::*;

verus! {

/// The bytes of a word.
pub open spec fn word(s: &str) -> Seq<u8> {
    vstd::utf8::encode_utf8(s@)
}

/// Whether two byte strings are the same.
pub fn bytes_eq(a: &[u8], b: &[u8]) -> (r: bool)
    ensures
        r == (a@ == b@),
{
    if a.len() != b.len() {
        return false;
    }
    let mut i: usize = 0;
    while i < a.len()
        invariant
            i <= a.len(),
            a.len() == b.len(),
            forall|j: int| 0 <= j < i ==> a@[j] == b@[j],
        decreases a.len() - i,
    {
        if a[i] != b[i] {
            return false;
        }
        i += 1;
    }
    assert(a@ =~= b@);
    true
}

/// Whether a word stands at `i`.
pub open spec fn word_at(b: Seq<u8>, i: int, w: Seq<u8>) -> bool {
    i + w.len() <= b.len() && b.subrange(i, i + w.len()) == w
}

/// Looks whether a word stands at a place.
pub fn has_word(buf: &[u8], i: usize, w: &[u8]) -> (r: bool)
    ensures
        r == word_at(buf@, i as int, w@),
{
    if i > buf.len() || buf.len() - i < w.len() {
        return false;
    }
    bytes_eq(&buf[i..i + w.len()], w)
}

/// The first place from `i` on where a byte stands, or the end of the text.
pub open spec fn byte_end(b: Seq<u8>, i: int, c: u8) -> int
    decreases b.len() - i,
{
    if i < b.len() && b[i] != c {
        byte_end(b, i + 1, c)
    } else {
        i
    }
}

pub proof fn lemma_byte_end(b: Seq<u8>, i: int, c: u8)
    requires
        0 <= i <= b.len(),
    ensures
        i <= byte_end(b, i, c) <= b.len(),
        byte_end(b, i, c) < b.len() ==> b[byte_end(b, i, c)] == c,
        forall|j: int| i <= j < byte_end(b, i, c) ==> b[j] != c,
    decreases b.len() - i,
{
    if i < b.len() && b[i] != c {
        lemma_byte_end(b, i + 1, c);
    }
}

/// Finds a byte from a place on.
pub fn find_byte_from(buf: &[u8], i: usize, c: u8) -> (r: usize)
    requires
        i <= buf.len(),
    ensures
        r == byte_end(buf@, i as int, c),
        i <= r <= buf.len(),
        r < buf.len() ==> buf@[r as int] == c,
{
    let mut j: usize = i;
    while j < buf.len() && buf[j] != c
        invariant
            i <= j <= buf.len(),
            byte_end(buf@, i as int, c) == byte_end(buf@, j as int, c),
        decreases buf.len() - j,
    {
        j += 1;
    }
    j
}

/// Whether a byte is a decimal digit.
pub open spec fn is_digit(b: u8) -> bool {
    0x30 <= b <= 0x39
}

/// The end of the run of digits from `i` on.
pub open spec fn digits_end(b: Seq<u8>, i: int) -> int
    decreases b.len() - i,
{
    if i < b.len() && is_digit(b[i]) {
        digits_end(b, i + 1)
    } else {
        i
    }
}

pub proof fn lemma_digits_end(b: Seq<u8>, i: int)
    requires
        0 <= i <= b.len(),
    ensures
        i <= digits_end(b, i) <= b.len(),
        forall|j: int| i <= j < digits_end(b, i) ==> is_digit(#[trigger] b[j]),
    decreases b.len() - i,
{
    if i < b.len() && is_digit(b[i]) {
        lemma_digits_end(b, i + 1);
    }
}

/// Skips digits.
pub fn skip_digits(buf: &[u8], i: usize) -> (r: usize)
    requires
        i <= buf.len(),
    ensures
        r == digits_end(buf@, i as int),
        i <= r <= buf.len(),
        forall|j: int| i <= j < r ==> is_digit(#[trigger] buf@[j]),
{
    let mut j: usize = i;
    while j < buf.len() && buf[j] >= 0x30 && buf[j] <= 0x39
        invariant
            i <= j <= buf.len(),
            digits_end(buf@, i as int) == digits_end(buf@, j as int),
            forall|k: int| i <= k < j ==> is_digit(#[trigger] buf@[k]),
        decreases buf.len() - j,
    {
        j += 1;
    }
    j
}

/// The number that digits write.
pub open spec fn decimal(s: Seq<u8>) -> int
    decreases s.len(),
{
    if s.len() == 0 {
        0
    } else {
        decimal(s.drop_last()) * 10 + (s.last() - 0x30)
    }
}

/// A number, or the greatest one allowed.
pub open spec fn capped(n: int, cap: int) -> int {
    if n <= cap {
        n
    } else {
        cap
    }
}

/// Reads the number that digits write, up to a greatest one.
pub fn capped_decimal(digits: &[u8], cap: u64) -> (r: u64)
    requires
        cap <= 0xffff_ffff_ffff,
        forall|j: int| 0 <= j < digits@.len() ==> is_digit(#[trigger] digits@[j]),
    ensures
        r == capped(decimal(digits@), cap as int),
        decimal(digits@) >= 0,
{
    let mut v: u64 = 0;
    let mut k: usize = 0;
    while k < digits.len()
        invariant
            cap <= 0xffff_ffff_ffff,
            forall|j: int| 0 <= j < digits@.len() ==> is_digit(#[trigger] digits@[j]),
            k <= digits.len(),
            v == capped(decimal(digits@.take(k as int)), cap as int),
            v <= cap,
            decimal(digits@.take(k as int)) >= 0,
        decreases digits.len() - k,
    {
        assert(digits@.take(k + 1).drop_last() =~= digits@.take(k as int));
        let next: u64 = v * 10 + (digits[k] - 0x30) as u64;
        v = if next <= cap {
            next
        } else {
            cap
        };
        k += 1;
    }
    assert(digits@.take(digits@.len() as int) =~= digits@);
    v
}

/// More digits do not write a smaller number.
proof fn lemma_decimal_grows(s: Seq<u8>, k: int)
    requires
        0 <= k <= s.len(),
        forall|j: int| 0 <= j < s.len() ==> is_digit(#[trigger] s[j]),
    ensures
        0 <= decimal(s.take(k)) <= decimal(s),
    decreases s.len(), s.len() - k,
{
    if k == s.len() {
        assert(s.take(k) =~= s);
        if k > 0 {
            lemma_decimal_grows(s.drop_last(), 0);
        }
    } else {
        assert(s.drop_last().take(k) =~= s.take(k));
        lemma_decimal_grows(s.drop_last(), k);
    }
}

/// Reads the number that digits write, unless it is too large.
pub fn decimal_usize(digits: &[u8]) -> (r: Option<usize>)
    requires
        forall|j: int| 0 <= j < digits@.len() ==> is_digit(#[trigger] digits@[j]),
    ensures
        match r {
            Some(n) => n == decimal(digits@),
            None => decimal(digits@) > usize::MAX,
        },
{
    let mut v: usize = 0;
    let mut k: usize = 0;
    while k < digits.len()
        invariant
            forall|j: int| 0 <= j < digits@.len() ==> is_digit(#[trigger] digits@[j]),
            k <= digits.len(),
            v == decimal(digits@.take(k as int)),
        decreases digits.len() - k,
    {
        assert(digits@.take(k + 1).drop_last() =~= digits@.take(k as int));
        proof {
            lemma_decimal_grows(digits@, k + 1);
        }
        let d: usize = (digits[k] - 0x30) as usize;
        if v > (usize::MAX - d) / 10 {
            return None;
        }
        v = v * 10 + d;
        k += 1;
    }
    assert(digits@.take(digits@.len() as int) =~= digits@);
    Some(v)
}

} // verus!
