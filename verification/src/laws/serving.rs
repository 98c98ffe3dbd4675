//! What a server does about its connections.

use vstd::prelude::*;
use crate::http::{answers, status_of, Job, Status};
use crate::index::early::is_early_count;
use crate::index::format::{clusters_of, forest_of, is_clusters, is_pairs};
use crate::index::hunt::hunt_result;
use crate::parse::Payload;
use crate::response::{fallback_answer, ready_answer, verdict};
use crate::server::conn::can_wait;
use crate::server::steps::{
    after_flush_of, after_receive_of, is_reply, need_of, passing_of, wait_of, wake_of, written_of,
    Need, Outcome, Tried, Wait, Written,
};
use crate::server::table::{kept_states, pool_cap_of, ready_states, serves};
use crate::server::tuning::{busy_poll_of, folded, low_bits, warm_coordinate};
use crate::vectorize::{features, Measures};

verus! {

/// A socket that can be read is read while its connection has room and closed where it has none. Any
/// other is closed where it failed or hung up, and otherwise looked at again; one without a
/// connection is left alone or closed.
pub proof fn ready_sockets_are_dealt_with(events: u32, room: Option<int>)
    ensures
        ({
            let readable = events % 2 == 1;
            let broken = (events / 8) % 2 == 1 || (events / 16) % 2 == 1;
            let w = wake_of(events, room);
            &&& w is Receive <==> readable && room is Some && room != Some(0int)
            &&& w is Ignore <==> readable && room is None
            &&& w is Process <==> !readable && !broken && room is Some
            &&& w is Close <==> (readable && room == Some(0int)) || (!readable && (broken
                || room is None))
        }),
{
    assert(events & 1 != 0 <==> events % 2 == 1) by (bit_vector);
    assert(events & 24 != 0 <==> ((events / 8) % 2 == 1 || (events / 16) % 2 == 1))
        by (bit_vector);
}

/// Requests are looked for when bytes came in or none can come now, reading is tried again after a
/// signal, and a connection that ended or failed is closed.
pub proof fn receiving_goes_on(o: Outcome)
    ensures
        after_receive_of(o) is Process <==> o is Moved || o is WouldBlock,
        after_receive_of(o) is Again <==> o is Interrupted,
        after_receive_of(o) is Close <==> o is Ended || o is Failed,
{
}

/// Bytes that wait go out before anything else. Without such bytes, a connection is served where a
/// whole request is there, refused where none can come, and waits for more bytes otherwise.
pub proof fn waiting_bytes_go_first(input: Seq<u8>, pending: Seq<u8>)
    ensures
        need_of(input, pending) is Flush <==> pending.len() > 0,
        need_of(input, pending) is Wait <==> pending.len() == 0 && status_of(input) is Need,
        need_of(input, pending) is Refuse <==> pending.len() == 0 && status_of(input) is Bad,
        need_of(input, pending) matches Need::Serve { used, .. } ==> (status_of(
            input,
        ) matches Status::Got { body_end, .. } && used == body_end),
{
}

/// What cannot be a request is answered with the fallback answer and dropped whole. Nothing is
/// answered while bytes wait or are missing.
pub proof fn bad_requests_are_refused(
    m: Measures,
    b: Seq<u8>,
    wide: bool,
    received: int,
    r: Option<(Seq<u8>, int)>,
)
    ensures
        is_reply(Need::Refuse, m, b, wide, received, r) <==> r == Some(
            (fallback_answer(), received),
        ),
        is_reply(Need::Wait, m, b, wide, received, r) <==> r is None,
        is_reply(Need::Flush, m, b, wide, received, r) <==> r is None,
{
}

/// Sending an answer ends when its last byte is out, goes on behind the bytes that went out or after
/// a signal, waits where the socket takes no more, and is given up where the connection is gone.
pub proof fn sending_goes_on(rest: Seq<u8>, o: Outcome)
    requires
        o matches Outcome::Moved(n) ==> n <= rest.len(),
    ensures
        o matches Outcome::Moved(n) ==> {
            &&& n == rest.len() ==> written_of(rest, o) is Done
            &&& n < rest.len() ==> (written_of(rest, o) matches Written::More(left) && rest.take(
                n as int,
            ) + left == rest)
        },
        o is Interrupted ==> written_of(rest, o) == Written::More(rest),
        o is WouldBlock ==> written_of(rest, o) == Written::Pending(rest),
        o is Ended || o is Failed ==> written_of(rest, o) is Closed,
{
    if let Outcome::Moved(n) = o {
        assert(rest.take(n as int) + rest.skip(n as int) =~= rest);
    }
}

/// Bytes that wait are all sent just when as many went out as there were. The rest is tried again at
/// once after some went out or a signal came, and else when the socket is ready.
pub proof fn flushing_goes_on(waiting: int, o: Outcome)
    ensures
        after_flush_of(waiting, o) is Done <==> (o matches Outcome::Moved(n) && n
            == waiting),
        after_flush_of(waiting, o) is Blocked <==> o is Ended || o is WouldBlock || o is Failed,
{
}

/// A socket is passed on just where a message came with a control message of level one and kind one.
pub proof fn sockets_are_passed_on(o: Outcome, control: Option<(i32, i32)>)
    ensures
        passing_of(o, control) is Socket <==> (o is Moved || o is Ended) && control == Some(
            (1i32, 1i32),
        ),
        passing_of(o, control) is Failed <==> o is Failed,
{
}

/// A server that may spin looks for ready sockets without waiting until its time is up, and only
/// then waits. Ready sockets are dealt with, a signal begins a new round, and a failure ends it.
pub proof fn waiting_goes_on(spin_us: u64, elapsed_us: u64, n: i32, interrupted: bool)
    ensures
        wait_of(spin_us, elapsed_us, Tried::Nothing, interrupted) == (if spin_us == 0 {
            Wait::Idle
        } else {
            Wait::Poll
        }),
        n > 0 ==> wait_of(spin_us, elapsed_us, Tried::Polled(n), interrupted) == Wait::Handle(n)
            && wait_of(spin_us, elapsed_us, Tried::Idled(n), interrupted) == Wait::Handle(n),
        n < 0 && interrupted ==> wait_of(spin_us, elapsed_us, Tried::Polled(n), interrupted)
            is Again && wait_of(spin_us, elapsed_us, Tried::Idled(n), interrupted) is Again,
        n < 0 && !interrupted ==> wait_of(spin_us, elapsed_us, Tried::Polled(n), interrupted)
            is Fail && wait_of(spin_us, elapsed_us, Tried::Idled(n), interrupted) is Fail,
        wait_of(spin_us, elapsed_us, Tried::Idled(0), interrupted) is Again,
        elapsed_us < spin_us <==> wait_of(spin_us, elapsed_us, Tried::Polled(0), interrupted)
            is Poll,
        elapsed_us >= spin_us <==> wait_of(spin_us, elapsed_us, Tried::Polled(0), interrupted)
            is Idle,
{
}

/// Sockets are served by number up to 65535, and the states that are kept are as many as wanted.
pub proof fn sockets_are_served(fd: i32, n: usize)
    ensures
        serves(fd) <==> 0 <= fd <= 65_535,
        pool_cap_of(Some(n)) == n,
        pool_cap_of(None) == 128,
{
}

/// Answers of up to 512 bytes can wait. Up to 128 states are ready from the start, and the state of a
/// connection that was closed is kept while there are fewer than wanted.
pub proof fn states_are_kept(n: int, waiting: int, limit: int)
    ensures
        can_wait(n) <==> n <= 512,
        n <= 128 ==> ready_states(n) == n,
        n >= 128 ==> ready_states(n) == 128,
        waiting < limit ==> kept_states(waiting, limit) == waiting + 1,
        waiting >= limit ==> kept_states(waiting, limit) == waiting,
{
}

/// A payload is answered with the verdict on a count from zero to five that the index gives for its
/// features: a cluster index by its cluster search, one of coordinate pairs by the exact search, and
/// any other by the early one.
pub proof fn payloads_are_answered(
    p: Payload,
    m: Measures,
    b: Seq<u8>,
    wide: bool,
    r: Seq<u8>,
) -> (count: int)
    requires
        answers(Job::Score(p), m, b, wide, r),
    ensures
        0 <= count <= 5,
        r == verdict(count),
        is_clusters(b) ==> count == clusters_of(b).count(features(p, m), wide),
        !is_clusters(b) && is_pairs(b) ==> hunt_result(forest_of(b), features(p, m), count),
        !is_clusters(b) && !is_pairs(b) ==> is_early_count(forest_of(b), features(p, m), count),
{
    choose|count: int| #[trigger] crate::http::scores(features(p, m), b, wide, count, r)
}

/// Whoever asks whether the service is ready is told so, and what is not known gets the fallback
/// answer.
pub proof fn other_requests_are_answered(m: Measures, b: Seq<u8>, wide: bool, r: Seq<u8>)
    ensures
        answers(Job::Ready, m, b, wide, r) <==> r == ready_answer(),
        answers(Job::Fallback, m, b, wide, r) <==> r == fallback_answer(),
{
}

/// A server polls unless it is told no time and no preference; numbers that are too large for their
/// field lose what does not fit.
pub proof fn polling_is_set(usecs: u32, prefer: u32, budget: u32)
    ensures
        busy_poll_of(usecs, prefer, budget) is None <==> usecs == 0 && prefer % 256 == 0,
        busy_poll_of(usecs, prefer, budget) matches Some(x) ==> x.usecs == usecs && x.prefer
            == prefer % 256 && x.budget == budget % 65_536,
        low_bits(prefer, 256) + 256 * (prefer / 256) == prefer,
{
}

/// The queries that warm an index up stay within the scale, leave the last two coordinates out, and
/// run through it in steps.
pub proof fn warm_queries_are_spread(i: usize, d: int)
    requires
        0 <= d < 16,
        i < usize::MAX,
    ensures
        -10_000 <= warm_coordinate(i, d) <= 10_000,
        d >= 14 ==> warm_coordinate(i, d) == 0,
        (d == 5 || d == 6) && i % 4 == 0 <==> warm_coordinate(i, d) < 0,
        d == 9 && i % 2 == 1 ==> warm_coordinate(i, d) == 10_000,
        d == 10 && (i / 2) % 2 == 1 ==> warm_coordinate(i, d) == 10_000,
        d == 11 && (i / 4) % 2 == 1 ==> warm_coordinate(i, d) == 10_000,
        d < 5 || d == 7 || d == 8 || d == 12 || d == 13 ==> warm_coordinate(i, d) == (313 * i + 1009
            * d) % 10_001,
{
}

/// A count that comes twice drops out of the fold of counts.
pub proof fn folds_cancel_out(counts: Seq<u8>, x: u8)
    ensures
        folded(Seq::empty()) == 0,
        folded(counts.push(x)) == folded(counts) ^ x,
        folded(counts.push(x).push(x)) == folded(counts),
{
    let once = counts.push(x);
    let twice = once.push(x);
    assert(once.drop_last() =~= counts);
    assert(twice.drop_last() =~= once);
    let f = folded(counts);
    assert(folded(once) == f ^ x);
    assert(folded(twice) == folded(once) ^ x);
    assert((f ^ x) ^ x == f) by (bit_vector);
}

} // verus!
