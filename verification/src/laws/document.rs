//! A whole payload that is written out is read back, field by field.

use vstd::prelude::*;
use crate::laws::payload::{
    customer_members_are_read, is_blank, is_gap, is_numeral, last_members_are_read, lemma_keys_plain, lemma_names,
    lemma_string_read, lemma_truth_words, lemma_ws_none, lemma_ws_stands,
    merchant_members_are_read, numeral, reads, string_text, terminal_members_are_read,
    transaction_members_are_read, truth_text, value_stops,
};
use crate::laws::stand::{free_of, lemma_byte_of, lemma_one, lemma_split};
use crate::parse::{
    expect_at, field_at, member_at, members_at, name_list, object_at, payload_of, plain_names,
    string_at, strings_from, top_members_at, value_end, written_names_are_found, ws_end, NumberText,
    Payload, Section,
};
use crate::response::digits_of;
use crate::text::{word, word_at};
use crate::time::stamp_of;

verus! {

/// A member of an object: its name, a colon and its value, with white space around each.
pub open spec fn member_text(g: Seq<u8>, key: Seq<u8>, value: Seq<u8>) -> Seq<u8> {
    g + (string_text(key) + (g + (seq![0x3au8] + (g + (value + g)))))
}

/// The members of an object with commas between them, and the closing brace.
pub open spec fn members_text(g: Seq<u8>, ms: Seq<(Seq<u8>, Seq<u8>)>) -> Seq<u8>
    decreases ms.len(),
{
    if ms.len() == 0 {
        g + seq![0x7du8]
    } else if ms.len() == 1 {
        member_text(g, ms[0].0, ms[0].1) + seq![0x7du8]
    } else {
        member_text(g, ms[0].0, ms[0].1) + (seq![0x2cu8] + members_text(g, ms.skip(1)))
    }
}

/// An object.
#[verifier::opaque]
pub open spec fn object_text(g: Seq<u8>, ms: Seq<(Seq<u8>, Seq<u8>)>) -> Seq<u8> {
    seq![0x7bu8] + members_text(g, ms)
}

/// Where the parts of a member stand, and that they are found there.
proof fn lemma_member_parts(b: Seq<u8>, i: int, g: Seq<u8>, key: Seq<u8>, value: Seq<u8>, stop: u8)
    requires
        0 <= i,
        is_gap(g),
        free_of(key, 0x22),
        value.len() > 0,
        !is_blank(value[0]),
        stop == 0x2c || stop == 0x7d,
        word_at(b, i, member_text(g, key, value) + seq![stop]),
    ensures
        ({
            let i0 = i + g.len();
            let n = i0 + key.len() + 2;
            let k = n + g.len() + 1;
            let v = k + g.len();
            let e0 = v + value.len();
            let e = e0 + g.len();
            &&& e == i + member_text(g, key, value).len()
            &&& e < b.len() && b[e] == stop
            &&& ws_end(b, i) == i0
            &&& i0 < b.len() && b[i0] == 0x22
            &&& string_at(b, i0) == Some((key, n))
            &&& expect_at(b, n, 0x3a) == Some(k)
            &&& ws_end(b, k) == v
            &&& word_at(b, v, value)
            &&& value_stops(b, e0)
            &&& ws_end(b, e0) == e
        }),
{
    let t5 = value + g;
    let t4 = g + t5;
    let t3 = seq![0x3au8] + t4;
    let t2 = g + t3;
    let t1 = string_text(key) + t2;
    let i0 = i + g.len();
    let n = i0 + key.len() + 2;
    let c = n + g.len();
    let k = c + 1;
    let v = k + g.len();
    let e0 = v + value.len();
    let e = e0 + g.len();
    lemma_split(b, i, member_text(g, key, value), seq![stop]);
    lemma_one(b, e, stop);
    lemma_split(b, i, g, t1);
    lemma_split(b, i0, string_text(key), t2);
    lemma_split(b, n, g, t3);
    lemma_split(b, c, seq![0x3au8], t4);
    lemma_one(b, c, 0x3a);
    lemma_split(b, k, g, t5);
    lemma_split(b, v, value, g);
    lemma_string_read(b, i0, key);
    lemma_byte_of(b, v, value, 0);
    lemma_ws_stands(b, i, g);
    lemma_ws_stands(b, n, g);
    lemma_ws_stands(b, k, g);
    lemma_ws_stands(b, e0, g);
    if g.len() > 0 {
        lemma_byte_of(b, e0, g, 0);
        assert(is_blank(g[0]));
    }
}

/// Whether a member can be written out: its name has no quotes, and its value does not begin with a
/// blank.
#[verifier::opaque]
pub open spec fn can_stand(key: Seq<u8>, value: Seq<u8>) -> bool {
    free_of(key, 0x22) && value.len() > 0 && !is_blank(value[0])
}

/// Whether members, one behind the other, turn what is known of a payload from each state to the
/// next.
pub open spec fn reads_all(
    sec: Section,
    ms: Seq<(Seq<u8>, Seq<u8>)>,
    ps: Seq<Payload>,
) -> bool {
    &&& ps.len() == ms.len() + 1
    &&& forall|k: int|
        0 <= k < ms.len() ==> can_stand((#[trigger] ms[k]).0, ms[k].1) && reads(sec, ms[k].0, ms[k].1, ps[k], ps[k + 1])
}

proof fn lemma_section(
    b: Seq<u8>,
    sec: Section,
    i: int,
    g: Seq<u8>,
    ms: Seq<(Seq<u8>, Seq<u8>)>,
    ps: Seq<Payload>,
)
    requires
        0 <= i,
        is_gap(g),
        reads_all(sec, ms, ps),
        word_at(b, i, members_text(g, ms)),
    ensures
        members_at(b, sec, i, ps[0]) == Some((ps.last(), i + members_text(g, ms).len())),
    decreases ms.len(),
{
    reveal(can_stand);
    reveal(reads);
    if ms.len() == 0 {
        lemma_split(b, i, g, seq![0x7du8]);
        lemma_one(b, i + g.len(), 0x7d);
        lemma_ws_stands(b, i, g);
    } else {
        let (key, value) = ms[0];
        let m = member_text(g, key, value);
        assert(reads(sec, ms[0].0, ms[0].1, ps[0], ps[1]));
        if ms.len() == 1 {
            lemma_member_parts(b, i, g, key, value, 0x7d);
            let v = i + g.len() + key.len() + 2 + g.len() + 1 + g.len();
            assert(field_at(b, sec, key, v, ps[0]) == Some((ps[1], v + value.len())));
        } else {
            let rest = ms.skip(1);
            let tail = members_text(g, rest);
            assert(m + (seq![0x2cu8] + tail) =~= (m + seq![0x2cu8]) + tail);
            lemma_split(b, i, m + seq![0x2cu8], tail);
            lemma_member_parts(b, i, g, key, value, 0x2c);
            let v = i + g.len() + key.len() + 2 + g.len() + 1 + g.len();
            assert(field_at(b, sec, key, v, ps[0]) == Some((ps[1], v + value.len())));
            let qs = ps.skip(1);
            assert forall|k: int| 0 <= k < rest.len() implies can_stand(
                (#[trigger] rest[k]).0,
                rest[k].1,
            ) && reads(
                sec,
                rest[k].0,
                rest[k].1,
                qs[k],
                qs[k + 1],
            ) by {
                assert(rest[k] == ms[k + 1]);
                assert(qs[k] == ps[k + 1] && qs[k + 1] == ps[k + 1 + 1]);
            }
            lemma_section(b, sec, i + m.len() + 1, g, rest, qs);
            assert(qs.last() == ps.last());
            assert(qs[0] == ps[1]);
        }
    }
}

/// Whether a section or other member `key` with this value, wherever it stands in a payload, turns
/// what is known of the payload from `p` to `q`.
#[verifier::opaque]
pub open spec fn reads_top(key: Seq<u8>, value: Seq<u8>, p: Payload, q: Payload) -> bool {
    forall|b: Seq<u8>, v: int|
        0 <= v && word_at(b, v, value) && value_stops(b, v + value.len()) ==> #[trigger] member_at(
            b,
            key,
            v,
            p,
        ) == Some((q, v + value.len()))
}

/// A section with members, in whatever order, is read member by member.
pub proof fn sections_are_read(
    sec: Section,
    g: Seq<u8>,
    ms: Seq<(Seq<u8>, Seq<u8>)>,
    ps: Seq<Payload>,
)
    requires
        is_gap(g),
        reads_all(sec, ms, ps),
    ensures
        sec == Section::Transaction ==> reads_top(
            word("transaction"),
            object_text(g, ms),
            ps[0],
            ps.last(),
        ),
        sec == Section::Customer ==> reads_top(
            word("customer"),
            object_text(g, ms),
            ps[0],
            ps.last(),
        ),
        sec == Section::Merchant ==> reads_top(
            word("merchant"),
            object_text(g, ms),
            ps[0],
            ps.last(),
        ),
        sec == Section::Terminal ==> reads_top(
            word("terminal"),
            object_text(g, ms),
            ps[0],
            ps.last(),
        ),
{
    reveal(reads_top);
    lemma_names();
    let value = object_text(g, ms);
    let p = ps[0];
    let q = ps.last();
    assert forall|b: Seq<u8>, v: int|
        0 <= v && word_at(b, v, value) implies #[trigger] object_at(b, sec, v, p) == Some(
        (q, v + value.len()),
    ) by {
        lemma_object_read(b, sec, v, g, ms, ps);
    }
    assert forall|b: Seq<u8>, v: int, key: Seq<u8>|
        0 <= v && word_at(b, v, value) && ((sec == Section::Transaction && key == word(
            "transaction",
        )) || (sec == Section::Customer && key == word("customer")) || (sec == Section::Merchant
            && key == word("merchant")) || (sec == Section::Terminal && key == word(
            "terminal",
        ))) implies #[trigger] member_at(b, key, v, p) == Some((q, v + value.len())) by {
        assert(object_at(b, sec, v, p) == Some((q, v + value.len())));
    }
}

proof fn lemma_object_read(
    b: Seq<u8>,
    sec: Section,
    v: int,
    g: Seq<u8>,
    ms: Seq<(Seq<u8>, Seq<u8>)>,
    ps: Seq<Payload>,
)
    requires
        0 <= v,
        is_gap(g),
        reads_all(sec, ms, ps),
        word_at(b, v, object_text(g, ms)),
    ensures
        object_at(b, sec, v, ps[0]) == Some((ps.last(), v + object_text(g, ms).len())),
        b[v] == 0x7b,
{
    reveal(object_text);
    lemma_split(b, v, seq![0x7bu8], members_text(g, ms));
    lemma_one(b, v, 0x7b);
    lemma_ws_none(b, v);
    lemma_section(b, sec, v + 1, g, ms, ps);
}

/// A last transaction, or none, is read.
pub proof fn last_transactions_are_read(
    g: Seq<u8>,
    ms: Seq<(Seq<u8>, Seq<u8>)>,
    ps: Seq<Payload>,
    p: Payload,
)
    requires
        is_gap(g),
        reads_all(Section::LastTransaction, ms, ps),
        ps[0] == (Payload { has_last_tx: true, ..p }),
    ensures
        reads_top(word("last_transaction"), object_text(g, ms), p, ps.last()),
        reads_top(word("last_transaction"), word("null"), p, Payload { has_last_tx: false, ..p }),
{
    reveal(reads_top);
    lemma_names();
    lemma_truth_words();
    let key = word("last_transaction");
    let value = object_text(g, ms);
    assert forall|b: Seq<u8>, v: int|
        0 <= v && word_at(b, v, value) && value_stops(b, v + value.len()) implies #[trigger]
    member_at(b, key, v, p) == Some((ps.last(), v + value.len())) by {
        lemma_object_read(b, Section::LastTransaction, v, g, ms, ps);
        lemma_ws_none(b, v);
        if word_at(b, v, word("null")) {
            lemma_byte_of(b, v, word("null"), 0);
        }
    }
    assert forall|b: Seq<u8>, v: int|
        0 <= v && word_at(b, v, word("null")) && value_stops(
            b,
            v + word("null").len(),
        ) implies #[trigger] member_at(b, key, v, p) == Some(
        (Payload { has_last_tx: false, ..p }, v + word("null").len()),
    ) by {
        lemma_byte_of(b, v, word("null"), 0);
        lemma_ws_none(b, v);
    }
}

/// A member that is not known and whose value is a string is skipped.
pub proof fn unknown_strings_are_skipped(sec: Section, key: Seq<u8>, s: Seq<u8>, p: Payload)
    requires
        free_of(s, 0x22),
    ensures
        key != word("transaction") && key != word("customer") && key != word("merchant") && key
            != word("terminal") && key != word("last_transaction") ==> reads_top(
            key,
            string_text(s),
            p,
            p,
        ),
        key != word("amount") && key != word("installments") && key != word("requested_at") && key
            != word("avg_amount") && key != word("tx_count_24h") && key != word("known_merchants")
            && key != word("id") && key != word("mcc") && key != word("is_online") && key != word(
            "card_present",
        ) && key != word("km_from_home") && key != word("timestamp") && key != word(
            "km_from_current",
        ) ==> reads(sec, key, string_text(s), p, p),
{
    reveal(reads);
    reveal(reads_top);
    let value = string_text(s);
    assert forall|b: Seq<u8>, v: int| 0 <= v && word_at(b, v, value) implies #[trigger] value_end(
        b,
        v,
    ) == Some(v + value.len()) && b[v] == 0x22 by {
        lemma_string_read(b, v, s);
        lemma_ws_none(b, v);
    }
    if key != word("transaction") && key != word("customer") && key != word("merchant") && key
        != word("terminal") && key != word("last_transaction") {
        assert forall|b: Seq<u8>, v: int|
            0 <= v && word_at(b, v, value) && value_stops(b, v + value.len()) implies #[trigger]
        member_at(b, key, v, p) == Some((p, v + value.len())) by {
            assert(value_end(b, v) == Some(v + value.len()));
        }
    }
    if key != word("amount") && key != word("installments") && key != word("requested_at") && key
        != word("avg_amount") && key != word("tx_count_24h") && key != word("known_merchants")
        && key != word("id") && key != word("mcc") && key != word("is_online") && key != word(
        "card_present",
    ) && key != word("km_from_home") && key != word("timestamp") && key != word(
        "km_from_current",
    ) {
        assert forall|b: Seq<u8>, v: int|
            0 <= v && word_at(b, v, value) && value_stops(b, v + value.len()) implies #[trigger]
        field_at(b, sec, key, v, p) == Some((p, v + value.len())) && !is_blank(b[v]) && value.len()
            > 0 by {
            assert(value_end(b, v) == Some(v + value.len()));
        }
    }
}

/// Whether the members of a payload, one behind the other, turn what is known of it from each state
/// to the next.
pub open spec fn reads_all_top(ms: Seq<(Seq<u8>, Seq<u8>)>, ps: Seq<Payload>) -> bool {
    &&& ps.len() == ms.len() + 1
    &&& forall|k: int|
        0 <= k < ms.len() ==> can_stand((#[trigger] ms[k]).0, ms[k].1) && reads_top(ms[k].0, ms[k].1, ps[k], ps[k + 1])
}

proof fn lemma_top(
    b: Seq<u8>,
    i: int,
    g: Seq<u8>,
    ms: Seq<(Seq<u8>, Seq<u8>)>,
    ps: Seq<Payload>,
)
    requires
        0 <= i,
        is_gap(g),
        reads_all_top(ms, ps),
        word_at(b, i, members_text(g, ms)),
    ensures
        top_members_at(b, i, ps[0]) == Some((ps.last(), i + members_text(g, ms).len())),
    decreases ms.len(),
{
    reveal(can_stand);
    reveal(reads_top);
    if ms.len() == 0 {
        lemma_split(b, i, g, seq![0x7du8]);
        lemma_one(b, i + g.len(), 0x7d);
        lemma_ws_stands(b, i, g);
    } else {
        let (key, value) = ms[0];
        let m = member_text(g, key, value);
        assert(reads_top(ms[0].0, ms[0].1, ps[0], ps[1]));
        if ms.len() == 1 {
            lemma_member_parts(b, i, g, key, value, 0x7d);
            let v = i + g.len() + key.len() + 2 + g.len() + 1 + g.len();
            assert(member_at(b, key, v, ps[0]) == Some((ps[1], v + value.len())));
        } else {
            let rest = ms.skip(1);
            let tail = members_text(g, rest);
            assert(m + (seq![0x2cu8] + tail) =~= (m + seq![0x2cu8]) + tail);
            lemma_split(b, i, m + seq![0x2cu8], tail);
            lemma_member_parts(b, i, g, key, value, 0x2c);
            let v = i + g.len() + key.len() + 2 + g.len() + 1 + g.len();
            assert(member_at(b, key, v, ps[0]) == Some((ps[1], v + value.len())));
            let qs = ps.skip(1);
            assert forall|k: int| 0 <= k < rest.len() implies can_stand(
                (#[trigger] rest[k]).0,
                rest[k].1,
            ) && reads_top(
                rest[k].0,
                rest[k].1,
                qs[k],
                qs[k + 1],
            ) by {
                assert(rest[k] == ms[k + 1]);
                assert(qs[k] == ps[k + 1] && qs[k + 1] == ps[k + 1 + 1]);
            }
            lemma_top(b, i + m.len() + 1, g, rest, qs);
            assert(qs.last() == ps.last());
            assert(qs[0] == ps[1]);
        }
    }
}

/// A payload with members, in whatever order and with whatever white space, is read member by
/// member.
pub proof fn documents_are_read(g: Seq<u8>, ms: Seq<(Seq<u8>, Seq<u8>)>, ps: Seq<Payload>)
    requires
        is_gap(g),
        reads_all_top(ms, ps),
        ps[0] == Payload::empty(),
    ensures
        payload_of(g + object_text(g, ms)) == Some(ps.last()),
{
    reveal(object_text);
    let b = g + object_text(g, ms);
    assert(b.subrange(0, b.len() as int) =~= b);
    assert(word_at(b, 0, b));
    lemma_split(b, 0, g, object_text(g, ms));
    lemma_split(b, g.len() as int, seq![0x7bu8], members_text(g, ms));
    lemma_one(b, g.len() as int, 0x7b);
    lemma_ws_stands(b, 0, g);
    lemma_top(b, g.len() as int + 1, g, ms, ps);
}

/// A last transaction: its timestamp and how many kilometres away it was.
pub struct Earlier {
    pub timestamp: Seq<u8>,
    pub km: NumberText,
}

impl Earlier {
    pub open spec fn members(self) -> Seq<(Seq<u8>, Seq<u8>)> {
        seq![
            (word("timestamp"), string_text(self.timestamp)),
            (word("km_from_current"), numeral(self.km)),
        ]
    }
}

/// The values that a payload is written from.
pub struct Purchase {
    pub id: Seq<u8>,
    pub amount: NumberText,
    pub installments: u32,
    pub requested_at: Seq<u8>,
    pub customer_avg_amount: NumberText,
    pub tx_count_24h: u32,
    pub known_merchants: Seq<Seq<u8>>,
    pub merchant_id: Seq<u8>,
    pub merchant_mcc: Seq<u8>,
    pub merchant_avg_amount: NumberText,
    pub is_online: bool,
    pub card_present: bool,
    pub km_from_home: NumberText,
    pub last: Option<Earlier>,
}

impl Purchase {
    /// Whether the values can be written out: numbers have digits, texts no quotes, and timestamps
    /// are timestamps.
    pub open spec fn wf(self) -> bool {
        &&& free_of(self.id, 0x22)
        &&& is_numeral(self.amount)
        &&& free_of(self.requested_at, 0x22)
        &&& stamp_of(self.requested_at) is Some
        &&& is_numeral(self.customer_avg_amount)
        &&& plain_names(self.known_merchants)
        &&& free_of(self.merchant_id, 0x22)
        &&& free_of(self.merchant_mcc, 0x22)
        &&& is_numeral(self.merchant_avg_amount)
        &&& is_numeral(self.km_from_home)
        &&& self.last matches Some(e) ==> free_of(e.timestamp, 0x22) && stamp_of(
            e.timestamp,
        ) is Some && is_numeral(e.km)
    }

    pub open spec fn transaction(self) -> Seq<(Seq<u8>, Seq<u8>)> {
        seq![
            (word("amount"), numeral(self.amount)),
            (word("installments"), digits_of(self.installments as int)),
            (word("requested_at"), string_text(self.requested_at)),
        ]
    }

    pub open spec fn customer(self) -> Seq<(Seq<u8>, Seq<u8>)> {
        seq![
            (word("avg_amount"), numeral(self.customer_avg_amount)),
            (word("tx_count_24h"), digits_of(self.tx_count_24h as int)),
            (word("known_merchants"), name_list(self.known_merchants)),
        ]
    }

    pub open spec fn merchant(self) -> Seq<(Seq<u8>, Seq<u8>)> {
        seq![
            (word("id"), string_text(self.merchant_id)),
            (word("mcc"), string_text(self.merchant_mcc)),
            (word("avg_amount"), numeral(self.merchant_avg_amount)),
        ]
    }

    pub open spec fn terminal(self) -> Seq<(Seq<u8>, Seq<u8>)> {
        seq![
            (word("is_online"), truth_text(self.is_online)),
            (word("card_present"), truth_text(self.card_present)),
            (word("km_from_home"), numeral(self.km_from_home)),
        ]
    }

    /// The last transaction as it is written.
    pub open spec fn last_text(self, g: Seq<u8>) -> Seq<u8> {
        match self.last {
            None => word("null"),
            Some(e) => object_text(g, e.members()),
        }
    }

    /// The members of the payload.
    pub open spec fn members(self, g: Seq<u8>) -> Seq<(Seq<u8>, Seq<u8>)> {
        seq![
            (word("id"), string_text(self.id)),
            (word("transaction"), object_text(g, self.transaction())),
            (word("customer"), object_text(g, self.customer())),
            (word("merchant"), object_text(g, self.merchant())),
            (word("terminal"), object_text(g, self.terminal())),
            (word("last_transaction"), self.last_text(g)),
        ]
    }

    /// The purchase as a JSON object, with white space `g` wherever it may stand.
    pub open spec fn text(self, g: Seq<u8>) -> Seq<u8> {
        g + object_text(g, self.members(g))
    }
}

/// Values do not begin with a blank.
proof fn lemma_stands(key: Seq<u8>, s: Seq<u8>, n: NumberText, k: u32, x: bool)
    requires
        free_of(key, 0x22),
        is_numeral(n),
    ensures
        can_stand(key, string_text(s)),
        can_stand(key, numeral(n)),
        can_stand(key, digits_of(k as int)),
        can_stand(key, truth_text(x)),
        can_stand(key, word("null")),
{
    reveal(can_stand);
    lemma_truth_words();
    crate::response::digits_write_number(k as int);
    let t = numeral(n);
    if n.neg {
        assert(t[0] == 0x2d);
    } else if n.int_digits.len() > 0 {
        assert(t[0] == n.int_digits[0]);
        assert(0x30 <= n.int_digits[0] <= 0x39);
    } else {
        assert(t[0] == 0x2e);
    }
}

proof fn lemma_lists_stand(key: Seq<u8>, names: Seq<Seq<u8>>)
    requires
        free_of(key, 0x22),
    ensures
        can_stand(key, name_list(names)),
{
    reveal(can_stand);
}

proof fn lemma_objects_stand(key: Seq<u8>, g: Seq<u8>, ms: Seq<(Seq<u8>, Seq<u8>)>)
    requires
        free_of(key, 0x22),
    ensures
        can_stand(key, object_text(g, ms)),
{
    reveal(object_text);
    reveal(can_stand);
}

/// Three members of a section, one behind the other.
proof fn lemma_three(
    sec: Section,
    g: Seq<u8>,
    a: (Seq<u8>, Seq<u8>),
    b: (Seq<u8>, Seq<u8>),
    c: (Seq<u8>, Seq<u8>),
    p: Payload,
    pa: Payload,
    pb: Payload,
    pc: Payload,
)
    requires
        is_gap(g),
        can_stand(a.0, a.1),
        can_stand(b.0, b.1),
        can_stand(c.0, c.1),
        reads(sec, a.0, a.1, p, pa),
        reads(sec, b.0, b.1, pa, pb),
        reads(sec, c.0, c.1, pb, pc),
    ensures
        sec == Section::Transaction ==> reads_top(
            word("transaction"),
            object_text(g, seq![a, b, c]),
            p,
            pc,
        ),
        sec == Section::Customer ==> reads_top(
            word("customer"),
            object_text(g, seq![a, b, c]),
            p,
            pc,
        ),
        sec == Section::Merchant ==> reads_top(
            word("merchant"),
            object_text(g, seq![a, b, c]),
            p,
            pc,
        ),
        sec == Section::Terminal ==> reads_top(
            word("terminal"),
            object_text(g, seq![a, b, c]),
            p,
            pc,
        ),
{
    let ms = seq![a, b, c];
    let ps = seq![p, pa, pb, pc];
    assert forall|k: int| 0 <= k < ms.len() implies can_stand((#[trigger] ms[k]).0, ms[k].1)
        && reads(sec, ms[k].0, ms[k].1, ps[k], ps[k + 1]) by {
        if k == 0 {
        } else if k == 1 {
        }
    }
    sections_are_read(sec, g, ms, ps);
}

proof fn lemma_transaction(s: Purchase, g: Seq<u8>, p: Payload) -> (q: Payload)
    requires
        s.wf(),
        is_gap(g),
    ensures
        q == (Payload {
            amount: s.amount,
            installments: s.installments,
            requested_at: stamp_of(s.requested_at).unwrap(),
            ..p
        }),
        reads_top(word("transaction"), object_text(g, s.transaction()), p, q),
{
    let p1 = Payload { amount: s.amount, ..p };
    let p2 = Payload { installments: s.installments, ..p1 };
    let p3 = Payload { requested_at: stamp_of(s.requested_at).unwrap(), ..p2 };
    lemma_keys_plain();
    lemma_stands(word("amount"), s.requested_at, s.amount, s.installments, true);
    lemma_stands(word("installments"), s.requested_at, s.amount, s.installments, true);
    lemma_stands(word("requested_at"), s.requested_at, s.amount, s.installments, true);
    transaction_members_are_read(p, s.amount, s.installments, s.requested_at);
    transaction_members_are_read(p1, s.amount, s.installments, s.requested_at);
    transaction_members_are_read(p2, s.amount, s.installments, s.requested_at);
    let ms = s.transaction();
    lemma_three(Section::Transaction, g, ms[0], ms[1], ms[2], p, p1, p2, p3);
    assert(seq![ms[0], ms[1], ms[2]] =~= ms);
    p3
}

proof fn lemma_customer(s: Purchase, g: Seq<u8>, p: Payload) -> (q: Payload)
    requires
        s.wf(),
        is_gap(g),
    ensures
        q == (Payload {
            customer_avg_amount: s.customer_avg_amount,
            tx_count_24h: s.tx_count_24h,
            known_merchants: name_list(s.known_merchants),
            ..p
        }),
        reads_top(word("customer"), object_text(g, s.customer()), p, q),
{
    let n = s.customer_avg_amount;
    let k = s.tx_count_24h;
    let p1 = Payload { customer_avg_amount: n, ..p };
    let p2 = Payload { tx_count_24h: k, ..p1 };
    let p3 = Payload { known_merchants: name_list(s.known_merchants), ..p2 };
    lemma_keys_plain();
    lemma_stands(word("avg_amount"), s.id, n, k, true);
    lemma_stands(word("tx_count_24h"), s.id, n, k, true);
    lemma_lists_stand(word("known_merchants"), s.known_merchants);
    customer_members_are_read(p, n, k, s.known_merchants);
    customer_members_are_read(p1, n, k, s.known_merchants);
    customer_members_are_read(p2, n, k, s.known_merchants);
    let ms = s.customer();
    lemma_three(Section::Customer, g, ms[0], ms[1], ms[2], p, p1, p2, p3);
    assert(seq![ms[0], ms[1], ms[2]] =~= ms);
    p3
}

proof fn lemma_merchant(s: Purchase, g: Seq<u8>, p: Payload) -> (q: Payload)
    requires
        s.wf(),
        is_gap(g),
    ensures
        q == (Payload {
            merchant_id: s.merchant_id,
            merchant_mcc: s.merchant_mcc,
            merchant_avg_amount: s.merchant_avg_amount,
            ..p
        }),
        reads_top(word("merchant"), object_text(g, s.merchant()), p, q),
{
    let n = s.merchant_avg_amount;
    let p1 = Payload { merchant_id: s.merchant_id, ..p };
    let p2 = Payload { merchant_mcc: s.merchant_mcc, ..p1 };
    let p3 = Payload { merchant_avg_amount: n, ..p2 };
    lemma_keys_plain();
    lemma_stands(word("id"), s.merchant_id, n, 0, true);
    lemma_stands(word("mcc"), s.merchant_mcc, n, 0, true);
    lemma_stands(word("avg_amount"), s.merchant_id, n, 0, true);
    merchant_members_are_read(p, n, s.merchant_id, s.merchant_mcc);
    merchant_members_are_read(p1, n, s.merchant_id, s.merchant_mcc);
    merchant_members_are_read(p2, n, s.merchant_id, s.merchant_mcc);
    let ms = s.merchant();
    lemma_three(Section::Merchant, g, ms[0], ms[1], ms[2], p, p1, p2, p3);
    assert(seq![ms[0], ms[1], ms[2]] =~= ms);
    p3
}

proof fn lemma_terminal(s: Purchase, g: Seq<u8>, p: Payload) -> (q: Payload)
    requires
        s.wf(),
        is_gap(g),
    ensures
        q == (Payload {
            is_online: s.is_online,
            card_present: s.card_present,
            km_from_home: s.km_from_home,
            ..p
        }),
        reads_top(word("terminal"), object_text(g, s.terminal()), p, q),
{
    let n = s.km_from_home;
    let p1 = Payload { is_online: s.is_online, ..p };
    let p2 = Payload { card_present: s.card_present, ..p1 };
    let p3 = Payload { km_from_home: n, ..p2 };
    lemma_keys_plain();
    lemma_stands(word("is_online"), s.id, n, 0, s.is_online);
    lemma_stands(word("card_present"), s.id, n, 0, s.card_present);
    lemma_stands(word("km_from_home"), s.id, n, 0, true);
    terminal_members_are_read(p, n, s.is_online);
    terminal_members_are_read(p1, n, s.card_present);
    terminal_members_are_read(p2, n, s.is_online);
    let ms = s.terminal();
    lemma_three(Section::Terminal, g, ms[0], ms[1], ms[2], p, p1, p2, p3);
    assert(seq![ms[0], ms[1], ms[2]] =~= ms);
    p3
}

/// What a last transaction adds.
spec fn with_last(e: Earlier, p: Payload) -> Payload {
    Payload {
        has_last_tx: true,
        last_tx_stamp: stamp_of(e.timestamp).unwrap(),
        last_tx_km: e.km,
        ..p
    }
}

proof fn lemma_earlier(e: Earlier, g: Seq<u8>, p: Payload)
    requires
        free_of(e.timestamp, 0x22),
        stamp_of(e.timestamp) is Some,
        is_numeral(e.km),
        is_gap(g),
    ensures
        reads_top(word("last_transaction"), object_text(g, e.members()), p, with_last(e, p)),
{
    let p0 = Payload { has_last_tx: true, ..p };
    let p1 = Payload { last_tx_stamp: stamp_of(e.timestamp).unwrap(), ..p0 };
    let p2 = Payload { last_tx_km: e.km, ..p1 };
    lemma_keys_plain();
    lemma_stands(word("timestamp"), e.timestamp, e.km, 0, true);
    lemma_stands(word("km_from_current"), e.timestamp, e.km, 0, true);
    last_members_are_read(p0, e.km, e.timestamp);
    last_members_are_read(p1, e.km, e.timestamp);
    let ps = seq![p0, p1, p2];
    let ms = e.members();
    assert(reads(Section::LastTransaction, ms[0].0, ms[0].1, ps[0], ps[1]));
    assert(reads(Section::LastTransaction, ms[1].0, ms[1].1, ps[1], ps[2]));
    assert(reads_all(Section::LastTransaction, ms, ps));
    last_transactions_are_read(g, ms, ps, p);
    assert(p2 == with_last(e, p));
}

proof fn lemma_last(s: Purchase, g: Seq<u8>, p: Payload) -> (q: Payload)
    requires
        s.wf(),
        is_gap(g),
    ensures
        q == (match s.last {
            None => Payload { has_last_tx: false, ..p },
            Some(e) => with_last(e, p),
        }),
        reads_top(word("last_transaction"), s.last_text(g), p, q),
        can_stand(word("last_transaction"), s.last_text(g)),
{
    lemma_keys_plain();
    match s.last {
        None => {
            let p0 = Payload { has_last_tx: true, ..p };
            let ms: Seq<(Seq<u8>, Seq<u8>)> = Seq::empty();
            assert(reads_all(Section::LastTransaction, ms, seq![p0]));
            last_transactions_are_read(g, ms, seq![p0], p);
            lemma_stands(word("last_transaction"), s.id, s.amount, 0, true);
            Payload { has_last_tx: false, ..p }
        },
        Some(e) => {
            lemma_earlier(e, g, p);
            lemma_objects_stand(word("last_transaction"), g, e.members());
            with_last(e, p)
        },
    }
}

proof fn lemma_id_skipped(s: Purchase, p: Payload)
    requires
        s.wf(),
    ensures
        reads_top(word("id"), string_text(s.id), p, p),
        can_stand(word("id"), string_text(s.id)),
{
    lemma_names();
    unknown_strings_are_skipped(Section::Transaction, word("id"), s.id, p);
    lemma_stands(word("id"), s.id, s.amount, 0, true);
}

proof fn lemma_sections_stand(s: Purchase, g: Seq<u8>)
    ensures
        can_stand(word("transaction"), object_text(g, s.transaction())),
        can_stand(word("customer"), object_text(g, s.customer())),
        can_stand(word("merchant"), object_text(g, s.merchant())),
        can_stand(word("terminal"), object_text(g, s.terminal())),
{
    lemma_keys_plain();
    lemma_objects_stand(word("transaction"), g, s.transaction());
    lemma_objects_stand(word("customer"), g, s.customer());
    lemma_objects_stand(word("merchant"), g, s.merchant());
    lemma_objects_stand(word("terminal"), g, s.terminal());
}

/// What the payload of a purchase says.
spec fn said(s: Purchase) -> Payload {
    let p = Payload {
        amount: s.amount,
        installments: s.installments,
        requested_at: stamp_of(s.requested_at).unwrap(),
        customer_avg_amount: s.customer_avg_amount,
        tx_count_24h: s.tx_count_24h,
        known_merchants: name_list(s.known_merchants),
        merchant_id: s.merchant_id,
        merchant_mcc: s.merchant_mcc,
        merchant_avg_amount: s.merchant_avg_amount,
        is_online: s.is_online,
        card_present: s.card_present,
        km_from_home: s.km_from_home,
        ..Payload::empty()
    };
    match s.last {
        None => Payload { has_last_tx: false, ..p },
        Some(e) => with_last(e, p),
    }
}

/// The six members of a payload, one behind the other.
proof fn lemma_six(
    g: Seq<u8>,
    ms: Seq<(Seq<u8>, Seq<u8>)>,
    p0: Payload,
    p2: Payload,
    p3: Payload,
    p4: Payload,
    p5: Payload,
    p6: Payload,
)
    requires
        is_gap(g),
        ms.len() == 6,
        p0 == Payload::empty(),
        can_stand(ms[0].0, ms[0].1) && reads_top(ms[0].0, ms[0].1, p0, p0),
        can_stand(ms[1].0, ms[1].1) && reads_top(ms[1].0, ms[1].1, p0, p2),
        can_stand(ms[2].0, ms[2].1) && reads_top(ms[2].0, ms[2].1, p2, p3),
        can_stand(ms[3].0, ms[3].1) && reads_top(ms[3].0, ms[3].1, p3, p4),
        can_stand(ms[4].0, ms[4].1) && reads_top(ms[4].0, ms[4].1, p4, p5),
        can_stand(ms[5].0, ms[5].1) && reads_top(ms[5].0, ms[5].1, p5, p6),
    ensures
        payload_of(g + object_text(g, ms)) == Some(p6),
{
    let ps = seq![p0, p0, p2, p3, p4, p5, p6];
    assert forall|k: int| 0 <= k < ms.len() implies can_stand((#[trigger] ms[k]).0, ms[k].1)
        && reads_top(ms[k].0, ms[k].1, ps[k], ps[k + 1]) by {
        if k == 0 {
        } else if k == 1 {
        } else if k == 2 {
        } else if k == 3 {
        } else if k == 4 {
        }
    }
    documents_are_read(g, ms, ps);
}

proof fn lemma_purchase(s: Purchase, g: Seq<u8>) -> (p: Payload)
    requires
        s.wf(),
        is_gap(g),
    ensures
        p == said(s),
        payload_of(s.text(g)) == Some(p),
{
    let p0 = Payload::empty();
    lemma_id_skipped(s, p0);
    lemma_sections_stand(s, g);
    let p2 = lemma_transaction(s, g, p0);
    let p3 = lemma_customer(s, g, p2);
    let p4 = lemma_merchant(s, g, p3);
    let p5 = lemma_terminal(s, g, p4);
    let p6 = lemma_last(s, g, p5);
    let ms = s.members(g);
    assert(ms[0] == (word("id"), string_text(s.id)));
    assert(ms[1] == (word("transaction"), object_text(g, s.transaction())));
    assert(ms[2] == (word("customer"), object_text(g, s.customer())));
    assert(ms[3] == (word("merchant"), object_text(g, s.merchant())));
    assert(ms[4] == (word("terminal"), object_text(g, s.terminal())));
    assert(ms[5] == (word("last_transaction"), s.last_text(g)));
    lemma_six(g, ms, p0, p2, p3, p4, p5, p6);
    p6
}

/// A payload that is written out from its values, with whatever white space, is read back: each value
/// is found in the field of its name.
pub proof fn payloads_are_read_back(s: Purchase, g: Seq<u8>)
    requires
        s.wf(),
        is_gap(g),
    ensures
        payload_of(s.text(g)) matches Some(p) && {
            &&& p.amount == s.amount
            &&& p.installments == s.installments
            &&& Some(p.requested_at) == stamp_of(s.requested_at)
            &&& p.customer_avg_amount == s.customer_avg_amount
            &&& p.tx_count_24h == s.tx_count_24h
            &&& strings_from(p.known_merchants, 0) == s.known_merchants
            &&& p.merchant_id == s.merchant_id
            &&& p.merchant_mcc == s.merchant_mcc
            &&& p.merchant_avg_amount == s.merchant_avg_amount
            &&& p.is_online == s.is_online
            &&& p.card_present == s.card_present
            &&& p.km_from_home == s.km_from_home
            &&& p.has_last_tx == (s.last is Some)
            &&& s.last matches Some(e) ==> Some(p.last_tx_stamp) == stamp_of(e.timestamp)
                && p.last_tx_km == e.km
        },
{
    let p = lemma_purchase(s, g);
    written_names_are_found(s.known_merchants);
}

} // verus!
