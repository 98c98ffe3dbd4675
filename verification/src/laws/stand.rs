//! Texts that stand in other texts.

use vstd::prelude::*;
use crate::text::{byte_end, digits_end, word_at};

verus! {

/// Two texts one behind the other stand where each of them stands.
pub proof fn lemma_split(b: Seq<u8>, i: int, s: Seq<u8>, t: Seq<u8>)
    requires
        0 <= i,
    ensures
        word_at(b, i, s + t) <==> word_at(b, i, s) && word_at(b, i + s.len(), t),
{
    if word_at(b, i, s + t) {
        assert(b.subrange(i, i + s.len()) =~= (s + t).subrange(0, s.len() as int));
        assert((s + t).subrange(0, s.len() as int) =~= s);
        assert(b.subrange(i + s.len(), i + s.len() + t.len()) =~= (s + t).subrange(
            s.len() as int,
            (s + t).len() as int,
        ));
        assert((s + t).subrange(s.len() as int, (s + t).len() as int) =~= t);
    }
    if word_at(b, i, s) && word_at(b, i + s.len(), t) {
        assert forall|k: int| 0 <= k < s.len() + t.len() implies b[i + k] == #[trigger] (s
            + t)[k] by {
            if k < s.len() {
                assert(b.subrange(i, i + s.len())[k] == s[k]);
            } else {
                let j = k - s.len();
                assert(b.subrange(i + s.len(), i + s.len() + t.len())[j] == t[j]);
            }
        }
        assert(b.subrange(i, i + s.len() + t.len()) =~= s + t);
    }
}

/// A text that stands somewhere is there byte for byte.
pub proof fn lemma_byte_of(b: Seq<u8>, i: int, s: Seq<u8>, k: int)
    requires
        0 <= i,
        word_at(b, i, s),
        0 <= k < s.len(),
    ensures
        b[i + k] == s[k],
        i + k < b.len(),
{
    assert(b.subrange(i, i + s.len())[k] == s[k]);
}

/// A text of one byte stands where the byte is.
pub proof fn lemma_one(b: Seq<u8>, i: int, c: u8)
    requires
        0 <= i,
    ensures
        word_at(b, i, seq![c]) <==> i < b.len() && b[i] == c,
{
    if i < b.len() && b[i] == c {
        assert(b.subrange(i, i + 1) =~= seq![c]);
    }
    if word_at(b, i, seq![c]) {
        lemma_byte_of(b, i, seq![c], 0);
    }
}

/// The first place of a byte.
pub proof fn lemma_byte_end_at(b: Seq<u8>, i: int, c: u8, e: int)
    requires
        0 <= i <= e,
        e <= b.len(),
        e < b.len() ==> b[e] == c,
        forall|j: int| i <= j < e ==> b[j] != c,
    ensures
        byte_end(b, i, c) == e,
    decreases e - i,
{
    if i < e {
        lemma_byte_end_at(b, i + 1, c, e);
    }
}

/// The end of a run of digits.
pub proof fn lemma_digits_end_at(b: Seq<u8>, i: int, e: int)
    requires
        0 <= i <= e <= b.len(),
        e < b.len() ==> !(0x30 <= b[e] <= 0x39),
        forall|j: int| i <= j < e ==> 0x30 <= #[trigger] b[j] <= 0x39,
    ensures
        digits_end(b, i) == e,
    decreases e - i,
{
    if i < e {
        assert(0x30 <= b[i] <= 0x39);
        lemma_digits_end_at(b, i + 1, e);
    }
}

/// Whether all bytes of a text are decimal digits.
pub open spec fn all_digits(s: Seq<u8>) -> bool {
    forall|k: int| 0 <= k < s.len() ==> 0x30 <= #[trigger] s[k] <= 0x39
}

/// A run of digits that stands somewhere ends behind it.
pub proof fn lemma_digits_stand(b: Seq<u8>, i: int, s: Seq<u8>)
    requires
        0 <= i,
        word_at(b, i, s),
        all_digits(s),
        i + s.len() < b.len() ==> !(0x30 <= b[i + s.len()] <= 0x39),
    ensures
        digits_end(b, i) == i + s.len(),
{
    assert forall|j: int| i <= j < i + s.len() implies 0x30 <= #[trigger] b[j] <= 0x39 by {
        lemma_byte_of(b, i, s, j - i);
        assert(0x30 <= s[j - i] <= 0x39);
    }
    lemma_digits_end_at(b, i, i + s.len());
}

/// Whether a text holds no such byte.
#[verifier::opaque]
pub open spec fn free_of(s: Seq<u8>, c: u8) -> bool {
    forall|k: int| 0 <= k < s.len() ==> #[trigger] s[k] != c
}

/// A text without a byte, followed by the byte.
pub proof fn lemma_free_stands(b: Seq<u8>, i: int, s: Seq<u8>, c: u8)
    requires
        0 <= i,
        word_at(b, i, s),
        free_of(s, c),
        i + s.len() < b.len(),
        b[i + s.len()] == c,
    ensures
        byte_end(b, i, c) == i + s.len(),
        b.subrange(i, i + s.len()) == s,
{
    reveal(free_of);
    assert forall|j: int| i <= j < i + s.len() implies b[j] != c by {
        lemma_byte_of(b, i, s, j - i);
        assert(s[j - i] != c);
    }
    lemma_byte_end_at(b, i, c, i + s.len());
}

} // verus!
