//! References that are written out are read back.

use vstd::prelude::*;
use vstd::utf8::is_ascii_chars_encode_utf8;
use crate::laws::stand::{
    free_of, lemma_byte_end_at, lemma_byte_of, lemma_free_stands, lemma_one, lemma_split,
};
use crate::references::{
    first_at, labelled_at, number_end, numbers_from, object_end, reference_at, references_from,
    separators_end, ReferenceError, ReferenceText,
};
use crate::text::{word, word_at};

verus! {

/// A reference to be written: its numbers, its label, and what else stands behind the label.
pub struct Labelled {
    pub numbers: Seq<Seq<u8>>,
    pub label: Seq<u8>,
    pub tail: Seq<u8>,
}

/// Whether a text is a decimal number: digits, and perhaps signs, a point and an exponent.
pub open spec fn is_decimal(n: Seq<u8>) -> bool {
    n.len() > 0 && forall|k: int|
        0 <= k < n.len() ==> {
            let c = #[trigger] n[k];
            0x30 <= c <= 0x39 || c == 0x2e || c == 0x2d || c == 0x2b || c == 0x65 || c == 0x45
        }
}

/// Whether a text is white space.
pub open spec fn is_white(g: Seq<u8>) -> bool {
    forall|k: int|
        0 <= k < g.len() ==> {
            let c = #[trigger] g[k];
            c == 0x20 || c == 0x09 || c == 0x0a || c == 0x0c || c == 0x0d
        }
}

/// Whether a text has no brackets.
pub open spec fn is_flat(t: Seq<u8>) -> bool {
    forall|k: int|
        0 <= k < t.len() ==> {
            let c = #[trigger] t[k];
            c != 0x7b && c != 0x7d && c != 0x5b && c != 0x5d
        }
}

impl Labelled {
    /// Whether the reference can be written.
    pub open spec fn wf(self) -> bool {
        &&& forall|k: int| 0 <= k < self.numbers.len() ==> is_decimal(#[trigger] self.numbers[k])
        &&& free_of(self.label, 0x22)
        &&& is_flat(self.tail)
    }

    /// Whether the label is fraud.
    pub open spec fn is_fraud(self) -> bool {
        self.label == seq![0x66u8, 0x72u8, 0x61u8, 0x75u8, 0x64u8]
    }

    /// The object up to the end of the vector.
    pub open spec fn vector_text(self, g: Seq<u8>) -> Seq<u8> {
        (seq![0x7bu8] + g) + (vector_name() + (colon(g) + (seq![0x5bu8] + numbers_text(
            g,
            self.numbers,
            g,
        ))))
    }

    /// The object behind the vector.
    pub open spec fn label_text(self, g: Seq<u8>) -> Seq<u8> {
        comma(g) + (label_name() + (colon(g) + (seq![0x22u8] + (self.label + (seq![0x22u8] + (
        self.tail + seq![0x7du8]))))))
    }

    /// The whole object.
    pub open spec fn text(self, g: Seq<u8>) -> Seq<u8> {
        self.vector_text(g) + self.label_text(g)
    }

    /// Whether what was read of a text is this reference.
    pub open spec fn is_read(self, b: Seq<u8>, r: ReferenceText) -> bool {
        &&& are_read(b, r.numbers, self.numbers)
        &&& r.label == if self.is_fraud() {
            1u8
        } else {
            0u8
        }
    }
}

/// Whether places in a text are those of some numbers.
pub open spec fn are_read(b: Seq<u8>, places: Seq<(int, int)>, numbers: Seq<Seq<u8>>) -> bool {
    places.len() == numbers.len() && forall|k: int|
        0 <= k < places.len() ==> b.subrange((#[trigger] places[k]).0, places[k].1) == numbers[k]
}

/// The name of the vector, quoted.
pub open spec fn vector_name() -> Seq<u8> {
    seq![0x22u8, 0x76u8, 0x65u8, 0x63u8, 0x74u8, 0x6fu8, 0x72u8, 0x22u8]
}

/// The name of the label, quoted.
pub open spec fn label_name() -> Seq<u8> {
    seq![0x22u8, 0x6cu8, 0x61u8, 0x62u8, 0x65u8, 0x6cu8, 0x22u8]
}

/// A colon with white space round it.
pub open spec fn colon(g: Seq<u8>) -> Seq<u8> {
    g + (seq![0x3au8] + g)
}

/// A comma with white space round it.
pub open spec fn comma(g: Seq<u8>) -> Seq<u8> {
    g + (seq![0x2cu8] + g)
}

/// Numbers of a list with what stands before the first, and the end of the list.
pub open spec fn numbers_text(lead: Seq<u8>, ns: Seq<Seq<u8>>, g: Seq<u8>) -> Seq<u8>
    decreases ns.len(),
{
    if ns.len() == 0 {
        g + seq![0x5du8]
    } else {
        lead + (ns[0] + numbers_text(comma(g), ns.skip(1), g))
    }
}

/// References of a list with what stands before the first, and the end of the list.
pub open spec fn items_text(lead: Seq<u8>, rs: Seq<Labelled>, g: Seq<u8>) -> Seq<u8>
    decreases rs.len(),
{
    if rs.len() == 0 {
        g + seq![0x5du8]
    } else {
        lead + (rs[0].text(g) + items_text(comma(g), rs.skip(1), g))
    }
}

/// A list of references.
pub open spec fn list_text(rs: Seq<Labelled>, g: Seq<u8>) -> Seq<u8> {
    seq![0x5bu8] + items_text(g, rs, g)
}

proof fn lemma_words()
    ensures
        word("\"vector\"") == vector_name(),
        word("\"label\"") == label_name(),
        word("fraud") == seq![0x66u8, 0x72u8, 0x61u8, 0x75u8, 0x64u8],
{
    reveal_strlit("\"vector\"");
    reveal_strlit("\"label\"");
    reveal_strlit("fraud");
    is_ascii_chars_encode_utf8("\"vector\""@);
    is_ascii_chars_encode_utf8("\"label\""@);
    is_ascii_chars_encode_utf8("fraud"@);
    assert(word("\"vector\"") =~= vector_name());
    assert(word("\"label\"") =~= label_name());
    assert(word("fraud") =~= seq![0x66u8, 0x72u8, 0x61u8, 0x75u8, 0x64u8]);
}

/// White space, colons and commas hold no other signs.
proof fn lemma_plain(g: Seq<u8>)
    requires
        is_white(g),
    ensures
        free_of(seq![0x7bu8] + g, 0x22),
        free_of(colon(g), 0x22),
        free_of(colon(g), 0x5b),
        free_of(comma(g), 0x22),
        free_of(comma(g), 0x7b),
        free_of(g, 0x7b),
        free_of(vector_name(), 0x5b),
{
    reveal(free_of);
    let a = seq![0x7bu8] + g;
    let c = colon(g);
    let d = comma(g);
    assert forall|k: int| 0 <= k < a.len() implies #[trigger] a[k] != 0x22 by {
        if k > 0 {
            assert(a[k] == g[k - 1]);
        }
    }
    assert forall|k: int| 0 <= k < c.len() implies #[trigger] c[k] != 0x22 && c[k] != 0x5b by {
        if k < g.len() {
            assert(c[k] == g[k]);
        } else if k > g.len() {
            assert(c[k] == g[k - g.len() - 1]);
        }
    }
    assert forall|k: int| 0 <= k < d.len() implies #[trigger] d[k] != 0x22 && d[k] != 0x7b by {
        if k < g.len() {
            assert(d[k] == g[k]);
        } else if k > g.len() {
            assert(d[k] == g[k - g.len() - 1]);
        }
    }
}

/// A word is found behind a text without its first byte.
proof fn lemma_found(b: Seq<u8>, i: int, s: Seq<u8>, w: Seq<u8>)
    requires
        0 <= i,
        w.len() > 0,
        word_at(b, i, s),
        word_at(b, i + s.len(), w),
        free_of(s, w[0]),
    ensures
        first_at(b, i, w) == Some(i + s.len()),
    decreases s.len(),
{
    if s.len() > 0 {
        reveal(free_of);
        lemma_byte_of(b, i, s, 0);
        assert(s[0] != w[0]);
        if word_at(b, i, w) {
            lemma_byte_of(b, i, w, 0);
        }
        let rest = s.skip(1);
        assert(s =~= seq![s[0]] + rest);
        lemma_split(b, i, seq![s[0]], rest);
        assert forall|k: int| 0 <= k < rest.len() implies #[trigger] rest[k] != w[0] by {
            assert(rest[k] == s[k + 1]);
        }
        lemma_found(b, i + 1, rest, w);
    }
}

/// Whether all bytes of a text separate numbers: white space and commas.
pub open spec fn all_between(s: Seq<u8>) -> bool {
    forall|k: int|
        0 <= k < s.len() ==> {
            let c = #[trigger] s[k];
            c == 0x20 || c == 0x09 || c == 0x0a || c == 0x0c || c == 0x0d || c == 0x2c
        }
}

proof fn lemma_separators(b: Seq<u8>, i: int, s: Seq<u8>)
    requires
        0 <= i,
        word_at(b, i, s),
        all_between(s),
        i + s.len() < b.len(),
        is_decimal(seq![b[i + s.len()]]) || b[i + s.len()] == 0x5d,
    ensures
        separators_end(b, i) == i + s.len(),
    decreases s.len(),
{
    if s.len() == 0 {
        let one = seq![b[i]];
        if is_decimal(one) {
            assert(one[0] == b[i]);
        }
    } else {
        lemma_byte_of(b, i, s, 0);
        let rest = s.skip(1);
        assert(s =~= seq![s[0]] + rest);
        lemma_split(b, i, seq![s[0]], rest);
        assert(all_between(rest)) by {
            assert forall|k: int| 0 <= k < rest.len() implies {
                let c = #[trigger] rest[k];
                c == 0x20 || c == 0x09 || c == 0x0a || c == 0x0c || c == 0x0d || c == 0x2c
            } by {
                assert(rest[k] == s[k + 1]);
            }
        }
        lemma_separators(b, i + 1, rest);
    }
}

proof fn lemma_number(b: Seq<u8>, i: int, n: Seq<u8>)
    requires
        0 <= i,
        word_at(b, i, n),
        n.len() > 0 ==> is_decimal(n),
        i + n.len() < b.len(),
        ({
            let c = b[i + n.len()];
            c == 0x20 || c == 0x09 || c == 0x0a || c == 0x0c || c == 0x0d || c == 0x2c || c == 0x5d
        }),
    ensures
        number_end(b, i) == i + n.len(),
    decreases n.len(),
{
    if n.len() > 0 {
        lemma_byte_of(b, i, n, 0);
        let rest = n.skip(1);
        assert(n =~= seq![n[0]] + rest);
        lemma_split(b, i, seq![n[0]], rest);
        if rest.len() > 0 {
            assert(is_decimal(rest)) by {
                assert forall|k: int| 0 <= k < rest.len() implies {
                    let c = #[trigger] rest[k];
                    0x30 <= c <= 0x39 || c == 0x2e || c == 0x2d || c == 0x2b || c == 0x65 || c
                        == 0x45
                } by {
                    assert(rest[k] == n[k + 1]);
                }
            }
        }
        lemma_number(b, i + 1, rest);
    }
}

proof fn lemma_between(g: Seq<u8>)
    requires
        is_white(g),
    ensures
        all_between(g),
        all_between(comma(g)),
{
    let d = comma(g);
    assert forall|k: int| 0 <= k < d.len() implies {
        let c = #[trigger] d[k];
        c == 0x20 || c == 0x09 || c == 0x0a || c == 0x0c || c == 0x0d || c == 0x2c
    } by {
        if k < g.len() {
            assert(d[k] == g[k]);
        } else if k > g.len() {
            assert(d[k] == g[k - g.len() - 1]);
        }
    }
}

/// What comes behind a number is white space, a comma or the end of the list.
proof fn lemma_behind(b: Seq<u8>, i: int, ns: Seq<Seq<u8>>, g: Seq<u8>)
    requires
        0 <= i,
        is_white(g),
        word_at(b, i, numbers_text(comma(g), ns, g)),
    ensures
        i < b.len(),
        ({
            let c = b[i];
            c == 0x20 || c == 0x09 || c == 0x0a || c == 0x0c || c == 0x0d || c == 0x2c || c == 0x5d
        }),
{
    let t = numbers_text(comma(g), ns, g);
    lemma_byte_of(b, i, t, 0);
    if g.len() > 0 {
        assert(t[0] == g[0]);
    } else if ns.len() == 0 {
        assert(t[0] == 0x5d);
    } else {
        assert(t[0] == 0x2c);
    }
}

/// Numbers that are written one behind the other are read in their order.
proof fn lemma_numbers(b: Seq<u8>, i: int, lead: Seq<u8>, ns: Seq<Seq<u8>>, g: Seq<u8>)
    requires
        0 <= i,
        is_white(g),
        lead == g || lead == comma(g),
        forall|k: int| 0 <= k < ns.len() ==> is_decimal(#[trigger] ns[k]),
        word_at(b, i, numbers_text(lead, ns, g)),
    ensures
        numbers_from(b, i) matches Some((places, end)) && end == i + numbers_text(
            lead,
            ns,
            g,
        ).len() && are_read(b, places, ns),
    decreases ns.len(),
{
    lemma_between(g);
    if ns.len() == 0 {
        lemma_split(b, i, g, seq![0x5du8]);
        lemma_one(b, i + g.len(), 0x5d);
        lemma_separators(b, i, g);
    } else {
        let n = ns[0];
        let rest = ns.skip(1);
        let t = numbers_text(comma(g), rest, g);
        lemma_split(b, i, lead, n + t);
        let s = i + lead.len();
        lemma_split(b, s, n, t);
        let e = s + n.len();
        assert(is_decimal(n));
        lemma_byte_of(b, s, n, 0);
        assert(is_decimal(seq![b[s]])) by {
            let one = seq![b[s]];
            assert(one[0] == n[0]);
        }
        lemma_separators(b, i, lead);
        assert(b[s] != 0x5d) by {
            assert(n[0] != 0x5d);
        }
        lemma_behind(b, e, rest, g);
        lemma_number(b, s, n);
        assert forall|k: int| 0 <= k < rest.len() implies is_decimal(#[trigger] rest[k]) by {
            assert(rest[k] == ns[k + 1]);
        }
        lemma_numbers(b, e, comma(g), rest, g);
        let (ps, end) = numbers_from(b, e)->Some_0;
        let all = seq![(s, e)] + ps;
        assert(numbers_from(b, i) == Some((all, end)));
        assert forall|k: int| 0 <= k < all.len() implies b.subrange(
            (#[trigger] all[k]).0,
            all[k].1,
        ) == ns[k] by {
            if k > 0 {
                assert(all[k] == ps[k - 1]);
                assert(rest[k - 1] == ns[k]);
            }
        }
    }
}

proof fn lemma_object_end(b: Seq<u8>, i: int, t: Seq<u8>)
    requires
        0 <= i,
        is_flat(t),
        word_at(b, i, t + seq![0x7du8]),
    ensures
        object_end(b, i, 1) == i + t.len() + 1,
    decreases t.len(),
{
    if t.len() == 0 {
        assert(t + seq![0x7du8] =~= seq![0x7du8]);
        lemma_one(b, i, 0x7d);
        reveal_with_fuel(object_end, 2);
    } else {
        let rest = t.skip(1);
        assert(t + seq![0x7du8] =~= seq![t[0]] + (rest + seq![0x7du8]));
        lemma_split(b, i, seq![t[0]], rest + seq![0x7du8]);
        lemma_one(b, i, t[0]);
        assert forall|k: int| 0 <= k < rest.len() implies {
            let c = #[trigger] rest[k];
            c != 0x7b && c != 0x7d && c != 0x5b && c != 0x5d
        } by {
            assert(rest[k] == t[k + 1]);
        }
        lemma_object_end(b, i + 1, rest);
    }
}

/// The label behind a vector is read.
proof fn lemma_label(b: Seq<u8>, i: int, r: Labelled, g: Seq<u8>, numbers: Seq<(int, int)>)
    requires
        0 <= i,
        is_white(g),
        r.wf(),
        word_at(b, i, r.label_text(g)),
    ensures
        labelled_at(b, numbers, i) matches Ok((x, e)) && x.numbers == numbers && x.label == (
        if r.is_fraud() {
            1u8
        } else {
            0u8
        }) && e == i + r.label_text(g).len(),
{
    lemma_words();
    lemma_plain(g);
    let t4 = r.tail + seq![0x7du8];
    let t3 = r.label + (seq![0x22u8] + t4);
    let t2 = colon(g) + (seq![0x22u8] + t3);
    lemma_split(b, i, comma(g), label_name() + t2);
    let l = i + comma(g).len();
    lemma_split(b, l, label_name(), t2);
    lemma_found(b, i, comma(g), label_name());
    lemma_split(b, l + 7, colon(g), seq![0x22u8] + t3);
    let q1 = l + 7 + colon(g).len();
    lemma_split(b, q1, seq![0x22u8], t3);
    lemma_one(b, q1, 0x22);
    lemma_free_stands(b, l + 7, colon(g), 0x22);
    lemma_split(b, q1 + 1, r.label, seq![0x22u8] + t4);
    let q2 = q1 + 1 + r.label.len();
    lemma_split(b, q2, seq![0x22u8], t4);
    lemma_one(b, q2, 0x22);
    lemma_free_stands(b, q1 + 1, r.label, 0x22);
    lemma_object_end(b, q2 + 1, r.tail);
}

/// The numbers of an object are read.
proof fn lemma_vector(b: Seq<u8>, i: int, r: Labelled, g: Seq<u8>) -> (numbers: Seq<(int, int)>)
    requires
        0 <= i,
        is_white(g),
        r.wf(),
        word_at(b, i, r.vector_text(g)),
    ensures
        are_read(b, numbers, r.numbers),
        reference_at(b, i) == (if r.numbers.len() == 14 {
            labelled_at(b, numbers, i + r.vector_text(g).len())
        } else {
            Err(ReferenceError::Dimensions(r.numbers.len() as usize))
        }),
{
    lemma_words();
    lemma_plain(g);
    let a = seq![0x7bu8] + g;
    let n = numbers_text(g, r.numbers, g);
    lemma_split(b, i, a, vector_name() + (colon(g) + (seq![0x5bu8] + n)));
    let v = i + a.len();
    lemma_split(b, v, vector_name(), colon(g) + (seq![0x5bu8] + n));
    lemma_found(b, i, a, vector_name());
    lemma_split(b, v + 8, colon(g), seq![0x5bu8] + n);
    let open = v + 8 + colon(g).len();
    lemma_split(b, open, seq![0x5bu8], n);
    lemma_one(b, open, 0x5b);
    let s = vector_name() + colon(g);
    lemma_split(b, v, vector_name(), colon(g));
    assert(free_of(s, 0x5b)) by {
        reveal(free_of);
    }
    lemma_free_stands(b, v, s, 0x5b);
    lemma_numbers(b, open + 1, g, r.numbers, g);
    numbers_from(b, open + 1)->Some_0.0
}

/// References behind each other are read in their order.
proof fn lemma_items(b: Seq<u8>, i: int, lead: Seq<u8>, rs: Seq<Labelled>, g: Seq<u8>)
    requires
        0 <= i,
        is_white(g),
        lead == g || lead == comma(g),
        forall|k: int| 0 <= k < rs.len() ==> (#[trigger] rs[k]).wf() && rs[k].numbers.len() == 14,
        word_at(b, i, items_text(lead, rs, g)),
        b.len() == i + items_text(lead, rs, g).len(),
    ensures
        references_from(b, i) matches Ok(list) && list.len() == rs.len() && forall|k: int|
            0 <= k < rs.len() ==> rs[k].is_read(b, #[trigger] list[k]),
    decreases rs.len(),
{
    lemma_plain(g);
    if rs.len() == 0 {
        lemma_split(b, i, g, seq![0x5du8]);
        lemma_one(b, i + g.len(), 0x5d);
        assert forall|j: int| i <= j < b.len() implies b[j] != 0x7b by {
            reveal(free_of);
            if j < i + g.len() {
                lemma_byte_of(b, i, g, j - i);
            }
        }
        lemma_byte_end_at(b, i, 0x7b, b.len() as int);
    } else {
        let r = rs[0];
        let rest = rs.skip(1);
        let t = items_text(comma(g), rest, g);
        lemma_split(b, i, lead, r.text(g) + t);
        let open = i + lead.len();
        lemma_split(b, open, r.text(g), t);
        lemma_split(b, open, r.vector_text(g), r.label_text(g));
        lemma_byte_of(b, open, r.vector_text(g), 0);
        lemma_free_stands(b, i, lead, 0x7b);
        let numbers = lemma_vector(b, open, r, g);
        lemma_label(b, open + r.vector_text(g).len(), r, g, numbers);
        let end = open + r.text(g).len();
        assert forall|k: int| 0 <= k < rest.len() implies (#[trigger] rest[k]).wf()
            && rest[k].numbers.len() == 14 by {
            assert(rest[k] == rs[k + 1]);
        }
        lemma_items(b, end, comma(g), rest, g);
        let first = reference_at(b, open)->Ok_0.0;
        let others = references_from(b, end)->Ok_0;
        let list = seq![first] + others;
        assert(references_from(b, i) == Ok::<Seq<ReferenceText>, ReferenceError>(list));
        assert forall|k: int| 0 <= k < rs.len() implies rs[k].is_read(b, #[trigger] list[k]) by {
            if k > 0 {
                assert(list[k] == others[k - 1]);
                assert(rest[k - 1] == rs[k]);
            }
        }
    }
}

/// A list of references that is written out, each with fourteen decimal numbers, a label and perhaps
/// more behind it, and with any white space between, is read back: as many references, each with its
/// numbers in their order, and fraudulent just where that was written.
pub proof fn references_are_read_back(rs: Seq<Labelled>, g: Seq<u8>)
    requires
        is_white(g),
        forall|k: int| 0 <= k < rs.len() ==> (#[trigger] rs[k]).wf() && rs[k].numbers.len() == 14,
    ensures
        references_from(list_text(rs, g), 0) matches Ok(list) && list.len() == rs.len() && forall|
            k: int,
        |
            0 <= k < rs.len() ==> rs[k].is_read(list_text(rs, g), #[trigger] list[k]),
{
    let b = list_text(rs, g);
    let t = items_text(g, rs, g);
    assert(b.subrange(0, b.len() as int) =~= b);
    lemma_split(b, 0, seq![0x5bu8], t);
    lemma_one(b, 0, 0x5b);
    lemma_items(b, 1, g, rs, g);
}

/// A list whose first reference has some other count of numbers is refused, with that count.
pub proof fn vectors_have_fourteen_numbers(rs: Seq<Labelled>, g: Seq<u8>)
    requires
        is_white(g),
        rs.len() > 0,
        rs[0].wf(),
        rs[0].numbers.len() != 14,
    ensures
        references_from(list_text(rs, g), 0) == Err::<Seq<ReferenceText>, _>(
            ReferenceError::Dimensions(rs[0].numbers.len() as usize),
        ),
{
    let b = list_text(rs, g);
    let r = rs[0];
    let t = items_text(comma(g), rs.skip(1), g);
    lemma_plain(g);
    assert(b.subrange(0, b.len() as int) =~= b);
    lemma_split(b, 0, seq![0x5bu8], g + (r.text(g) + t));
    lemma_one(b, 0, 0x5b);
    lemma_split(b, 1, g, r.text(g) + t);
    let open = 1 + g.len() as int;
    lemma_split(b, open, r.text(g), t);
    lemma_split(b, open, r.vector_text(g), r.label_text(g));
    lemma_byte_of(b, open, r.vector_text(g), 0);
    lemma_free_stands(b, 1, g, 0x7b);
    let numbers = lemma_vector(b, open, r, g);
}

proof fn lemma_not_found(b: Seq<u8>, i: int, w: Seq<u8>)
    requires
        forall|j: int| i <= j ==> !#[trigger] word_at(b, j, w),
    ensures
        first_at(b, i, w) is None,
    decreases b.len() - i,
{
    if i + w.len() <= b.len() && w.len() > 0 {
        assert(!word_at(b, i, w));
        lemma_not_found(b, i + 1, w);
    }
}

/// A word is found at the first place from `i` on where it stands, and nowhere where it stands nowhere
/// or has no letters.
pub proof fn words_are_found_first(b: Seq<u8>, i: int, w: Seq<u8>)
    requires
        0 <= i,
    ensures
        first_at(b, i, w) matches Some(p) ==> i <= p && w.len() > 0 && word_at(b, p, w) && forall|
            j: int,
        |
            i <= j < p ==> !#[trigger] word_at(b, j, w),
        first_at(b, i, w) is None ==> w.len() == 0 || forall|j: int|
            i <= j ==> !#[trigger] word_at(b, j, w),
    decreases b.len() - i,
{
    if i + w.len() <= b.len() && w.len() > 0 && !word_at(b, i, w) {
        words_are_found_first(b, i + 1, w);
    }
}

/// What is missing in a reference is told: the name of the vector, its opening bracket, the name of
/// the label, and the quotes round the label.
pub proof fn missing_parts_are_told(
    b: Seq<u8>,
    i: int,
    v: int,
    numbers: Seq<(int, int)>,
    after: int,
    l: int,
)
    requires
        0 <= i,
        0 <= after,
    ensures
        (forall|j: int| i <= j ==> !#[trigger] word_at(b, j, vector_name())) ==> reference_at(b, i)
            == Err::<(ReferenceText, int), _>(ReferenceError::VectorKey),
        first_at(b, i, vector_name()) == Some(v) && 0 <= v <= b.len() && (forall|j: int|
            v <= j < b.len() ==> #[trigger] b[j] != 0x5b) ==> reference_at(b, i) == Err::<
            (ReferenceText, int),
            _,
        >(ReferenceError::VectorBracket),
        (forall|j: int| after <= j ==> !#[trigger] word_at(b, j, label_name())) ==> labelled_at(
            b,
            numbers,
            after,
        ) == Err::<(ReferenceText, int), _>(ReferenceError::LabelKey),
        first_at(b, after, label_name()) == Some(l) && 0 <= l && l + 7 <= b.len() && (forall|j: int|
            l + 7 <= j < b.len() ==> #[trigger] b[j] != 0x22) ==> labelled_at(b, numbers, after)
            == Err::<(ReferenceText, int), _>(ReferenceError::LabelQuote),
{
    lemma_words();
    if forall|j: int| i <= j ==> !#[trigger] word_at(b, j, vector_name()) {
        lemma_not_found(b, i, vector_name());
    }
    if forall|j: int| after <= j ==> !#[trigger] word_at(b, j, label_name()) {
        lemma_not_found(b, after, label_name());
    }
    if 0 <= v <= b.len() && (forall|j: int| v <= j < b.len() ==> #[trigger] b[j] != 0x5b) {
        lemma_byte_end_at(b, v, 0x5b, b.len() as int);
    }
    if 0 <= l && l + 7 <= b.len() && (forall|j: int|
        l + 7 <= j < b.len() ==> #[trigger] b[j] != 0x22) {
        lemma_byte_end_at(b, l + 7, 0x22, b.len() as int);
    }
}

/// A list of numbers is refused where something stands in it that is neither white space, a comma, a
/// number nor its end, and where it has no end.
pub proof fn other_signs_are_refused(b: Seq<u8>, i: int, s: Seq<u8>)
    requires
        0 <= i,
        word_at(b, i, s),
        all_between(s),
        i + s.len() < b.len() ==> ({
            let c = b[i + s.len()];
            !is_decimal(seq![c]) && c != 0x5d && !is_white(seq![c]) && c != 0x2c
        }),
    ensures
        numbers_from(b, i) is None,
{
    let at = i + s.len();
    if at < b.len() {
        let c = b[at];
        let one = seq![c];
        assert(!is_white(one) ==> exists|k: int|
            0 <= k < one.len() && {
                let x = #[trigger] one[k];
                !(x == 0x20 || x == 0x09 || x == 0x0a || x == 0x0c || x == 0x0d)
            });
        assert(one[0] == c);
    }
    lemma_between_end(b, i, s);
}

proof fn lemma_between_end(b: Seq<u8>, i: int, s: Seq<u8>)
    requires
        0 <= i,
        word_at(b, i, s),
        all_between(s),
        i + s.len() < b.len() ==> !all_between(seq![b[i + s.len()]]),
    ensures
        separators_end(b, i) == i + s.len(),
    decreases s.len(),
{
    if s.len() == 0 {
        if i < b.len() {
            let one = seq![b[i]];
            assert(one[0] == b[i]);
        }
    } else {
        lemma_byte_of(b, i, s, 0);
        let rest = s.skip(1);
        assert(s =~= seq![s[0]] + rest);
        lemma_split(b, i, seq![s[0]], rest);
        assert forall|k: int| 0 <= k < rest.len() implies {
            let c = #[trigger] rest[k];
            c == 0x20 || c == 0x09 || c == 0x0a || c == 0x0c || c == 0x0d || c == 0x2c
        } by {
            assert(rest[k] == s[k + 1]);
        }
        lemma_between_end(b, i + 1, rest);
    }
}

/// What stands behind a label is passed over up to the brace that closes the object: brackets of
/// either kind that are opened are closed first.
pub proof fn tails_are_passed_over(b: Seq<u8>, i: int, depth: int)
    requires
        0 <= i < b.len(),
        depth > 0,
    ensures
        b[i] == 0x7b || b[i] == 0x5b ==> object_end(b, i, depth) == object_end(b, i + 1, depth + 1),
        (b[i] == 0x7d || b[i] == 0x5d) && depth > 1 ==> object_end(b, i, depth) == object_end(
            b,
            i + 1,
            depth - 1,
        ),
        (b[i] == 0x7d || b[i] == 0x5d) && depth == 1 ==> object_end(b, i, depth) == i + 1,
        b[i] != 0x7b && b[i] != 0x5b && b[i] != 0x7d && b[i] != 0x5d ==> object_end(b, i, depth)
            == object_end(b, i + 1, depth),
        object_end(b, b.len() as int, depth) == b.len(),
{
    reveal_with_fuel(object_end, 2);
}

} // verus!
