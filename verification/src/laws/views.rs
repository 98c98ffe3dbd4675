//! What the values of the library stand for.

use vstd::prelude::*;
use crate::evaluation::{labelled_texts, row_texts, Labelled};
use crate::http::{Job, ParseStatus, Status, Task};
use crate::index::early::walk_of;
use crate::index::hunt::Hunt;
use crate::index::search::fraud_result;
use crate::index::shortlist::best_of;
use crate::index::stats::QueryStats;
use crate::parse::{Number, RawPayload};
use crate::references::{places, texts, Reference};
use crate::server::steps::{reply_text, Need, Turn, WriteResult, Written};
use crate::server::tuning::{are_warm_counts, warm_coordinate, warm_vector};

verus! {

/// A payload stands for what its fields hold, each under its own name.
pub proof fn payloads_show_their_fields(p: RawPayload, n: Number)
    ensures
        p@.amount == p.amount@,
        p@.installments == p.installments,
        p@.requested_at == p.requested_at,
        p@.customer_avg_amount == p.customer_avg_amount@,
        p@.tx_count_24h == p.tx_count_24h,
        p@.known_merchants == p.known_merchants_buf@,
        p@.merchant_id == p.merchant_id@,
        p@.merchant_mcc == p.merchant_mcc@,
        p@.merchant_avg_amount == p.merchant_avg_amount@,
        p@.is_online == p.is_online,
        p@.card_present == p.card_present,
        p@.km_from_home == p.km_from_home@,
        p@.has_last_tx == p.has_last_tx,
        p@.last_tx_stamp == p.last_tx_stamp,
        p@.last_tx_km == p.last_tx_km@,
        n@.neg == n.neg,
        n@.int_digits == n.int_digits@,
        n@.frac_digits == n.frac_digits@,
        n@.exp == n.exp,
{
}

/// Requests and what they ask for stand for what they hold.
pub proof fn requests_show_their_parts(s: ParseStatus, t: Task)
    ensures
        s is Need <==> s@ is Need,
        s is Bad <==> s@ is Bad,
        s matches ParseStatus::Got { method, path, body_start, body_end } ==> s@ == (Status::Got {
            method: method@,
            path: path@,
            body_start: body_start as int,
            body_end: body_end as int,
        }),
        t is Ready <==> t@ is Ready,
        t is Fallback <==> t@ is Fallback,
        t matches Task::Score(p) ==> t@ == Job::Score(p@),
{
}

/// Turns and writes stand for what they hold.
pub proof fn turns_show_their_parts(t: Turn, w: WriteResult, r: Option<(&[u8], usize)>)
    ensures
        t is Flush <==> t@ is Flush,
        t is Wait <==> t@ is Wait,
        t is Refuse <==> t@ is Refuse,
        t matches Turn::Serve { task, used } ==> t@ == (Need::Serve {
            job: task@,
            used: used as int,
        }),
        w is Done <==> w@ is Done,
        w is Closed <==> w@ is Closed,
        w matches WriteResult::More(b) ==> w@ == Written::More(b@),
        w matches WriteResult::Pending(b) ==> w@ == Written::Pending(b@),
        r is None <==> reply_text(r) is None,
        r matches Some((text, n)) ==> reply_text(r) == Some((text@, n as int)),
{
}

/// References and labelled requests stand for what they hold, in their order.
pub proof fn lists_show_their_items(
    ps: Seq<(usize, usize)>,
    rs: Seq<Reference>,
    ls: Seq<Labelled>,
    rows: Seq<(Vec<u8>, Option<bool>)>,
    k: int,
)
    ensures
        places(ps).len() == ps.len(),
        texts(rs).len() == rs.len(),
        labelled_texts(ls).len() == ls.len(),
        row_texts(rows).len() == rows.len(),
        0 <= k < ps.len() ==> places(ps)[k].0 == ps[k].0 && places(ps)[k].1 == ps[k].1,
        0 <= k < rs.len() ==> texts(rs)[k].numbers == places(rs[k].numbers@) && texts(rs)[k].label
            == rs[k].label,
        0 <= k < ls.len() ==> labelled_texts(ls)[k].0 == ls[k].request@ && labelled_texts(ls)[k].1
            == ls[k].expected_approved,
        0 <= k < rows.len() ==> row_texts(rows)[k].0 == rows[k].0@ && row_texts(rows)[k].1
            == rows[k].1,
{
}

/// A search under way stands for its short list, and for what else it has noted.
pub proof fn searches_show_their_lists(
    dists: [i64; 5],
    labels: [u8; 5],
    done: bool,
    stats: QueryStats,
    h: Hunt,
)
    ensures
        best_of(dists, labels).dists == dists@,
        best_of(dists, labels).labels == labels@,
        walk_of(dists, labels, done, stats).best == best_of(dists, labels),
        walk_of(dists, labels, done, stats).done == done,
        walk_of(dists, labels, done, stats).stats == stats,
        h@.best == best_of(h.dist, h.tag),
        h@.parked.len() == h.parked@.len(),
        forall|k: int|
            0 <= k < h.parked@.len() ==> (#[trigger] h@.parked[k]).0 == h.parked@[k].0
                && h@.parked[k].1 == h.parked@[k].1,
        h@.anchor == h.anchor,
        h@.pinned == h.pinned,
        h@.draining == h.draining,
{
}

/// Counts of a warm-up are those of its queries, each with its own number.
pub proof fn warm_counts_are_those_of_queries(b: Seq<u8>, wide: bool, counts: Seq<u8>, i: usize, d: int)
    requires
        are_warm_counts(b, wide, counts),
        i < counts.len(),
        0 <= d < 16,
    ensures
        fraud_result(b, wide, warm_vector(i), counts[i as int] as int),
        warm_vector(i).len() == 16,
        warm_vector(i)[d] == warm_coordinate(i, d),
{
    assert(fraud_result(b, wide, warm_vector((i as int) as usize), counts[i as int] as int));
}

} // verus!
