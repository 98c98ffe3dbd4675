//! The decisions on a connection, one at a time: what to do next, given what the sockets reported.

use vstd::prelude::*;
use crate::http::{
    answers, handle_request, job_of, parse_request, request_is_within, request_stands_alone, route,
    status_of, Job, ParseStatus, Status, Task,
};
use crate::index::reader::{is_searchable, IndexReader};
use crate::response::{fallback_answer, Responses};
use crate::vectorize::Measures;
use crate::server::conn::{Conn, CONN_BUF_CAP};

verus! {

/// Readiness bits.
pub const READABLE: u32 = 1;

pub const ERROR: u32 = 8;

pub const HANGUP: u32 = 16;

/// What to do about a socket that has become ready.
#[derive(Clone, Copy, Debug, PartialEq, Eq, Structural)]
pub enum Wake {
    /// Nothing: it has no connection.
    Ignore,
    /// Receive bytes, then look for requests.
    Receive,
    /// Look for requests.
    Process,
    /// Close it.
    Close,
}

/// What to do about a socket that has become ready: one that can be read is read while there is
/// room, one that failed or has no connection is closed. `room` is how many bytes its connection
/// can take.
pub open spec fn wake_of(events: u32, room: Option<int>) -> Wake {
    if events & READABLE != 0 {
        match room {
            None => Wake::Ignore,
            Some(n) => if n == 0 {
                Wake::Close
            } else {
                Wake::Receive
            },
        }
    } else if events & 24 != 0 || room is None {
        Wake::Close
    } else {
        Wake::Process
    }
}

/// Decides what to do about a socket that has become ready.
pub fn wake(conn: Option<&Conn>, events: u32) -> (r: Wake)
    requires
        conn matches Some(c) ==> c.wf(),
    ensures
        r == wake_of(
            events,
            match conn {
                Some(c) => Some(CONN_BUF_CAP - c.input().len()),
                None => None,
            },
        ),
{
    if events & READABLE != 0 {
        match conn {
            None => Wake::Ignore,
            Some(c) => {
                if c.room() == 0 {
                    Wake::Close
                } else {
                    Wake::Receive
                }
            },
        }
    } else if events & (ERROR + HANGUP) != 0 {
        Wake::Close
    } else {
        match conn {
            None => Wake::Close,
            Some(_) => Wake::Process,
        }
    }
}

/// What became of an attempt to receive or send.
#[derive(Clone, Copy, Debug, PartialEq, Eq, Structural)]
pub enum Outcome {
    /// So many bytes went through.
    Moved(usize),
    /// The other side is gone.
    Ended,
    /// Not now.
    WouldBlock,
    /// A signal came in between.
    Interrupted,
    /// It failed.
    Failed,
}

/// What to do after an attempt to receive.
#[derive(Clone, Copy, Debug, PartialEq, Eq, Structural)]
pub enum AfterReceive {
    /// Try again.
    Again,
    /// Look for requests.
    Process,
    /// Close the connection.
    Close,
}

/// What to do after an attempt to receive.
pub open spec fn after_receive_of(o: Outcome) -> AfterReceive {
    match o {
        Outcome::Moved(_) => AfterReceive::Process,
        Outcome::WouldBlock => AfterReceive::Process,
        Outcome::Interrupted => AfterReceive::Again,
        Outcome::Ended => AfterReceive::Close,
        Outcome::Failed => AfterReceive::Close,
    }
}

/// Takes in what was received and decides what to do next. `buf` is what the bytes went into.
pub fn after_receive(conn: &mut Conn, buf: &[u8], o: Outcome) -> (r: AfterReceive)
    requires
        old(conn).wf(),
        o matches Outcome::Moved(n) ==> n <= buf@.len() && old(conn).input().len() + n
            <= CONN_BUF_CAP,
    ensures
        r == after_receive_of(o),
        final(conn).wf(),
        final(conn).pending() == old(conn).pending(),
        final(conn).input() == (match o {
            Outcome::Moved(n) => old(conn).input() + buf@.take(n as int),
            _ => old(conn).input(),
        }),
{
    match o {
        Outcome::Moved(n) => {
            let bytes = &buf[0..n];
            assert(bytes@ =~= buf@.take(n as int));
            conn.receive(bytes);
            AfterReceive::Process
        },
        Outcome::WouldBlock => AfterReceive::Process,
        Outcome::Interrupted => AfterReceive::Again,
        Outcome::Ended => AfterReceive::Close,
        Outcome::Failed => AfterReceive::Close,
    }
}

/// What a connection needs next.
#[derive(Clone, Copy, Debug)]
pub enum Turn<'a> {
    /// To send the bytes that wait.
    Flush,
    /// More bytes.
    Wait,
    /// The fallback answer; all bytes received are dropped.
    Refuse,
    /// An answer; the first `used` bytes received are dropped.
    Serve { task: Task<'a>, used: usize },
}

/// What a connection needs next, as a value.
#[verifier::ext_equal]
pub enum Need {
    Flush,
    Wait,
    Refuse,
    Serve { job: Job, used: int },
}

impl<'a> View for Turn<'a> {
    type V = Need;

    open spec fn view(&self) -> Need {
        match self {
            Turn::Flush => Need::Flush,
            Turn::Wait => Need::Wait,
            Turn::Refuse => Need::Refuse,
            Turn::Serve { task, used } => Need::Serve { job: task@, used: *used as int },
        }
    }
}

/// What a connection needs next: what waits is sent first, and requests are served in turn.
pub open spec fn need_of(input: Seq<u8>, pending: Seq<u8>) -> Need {
    if pending.len() > 0 {
        Need::Flush
    } else {
        match status_of(input) {
            Status::Need => Need::Wait,
            Status::Bad => Need::Refuse,
            Status::Got { method, path, body_start, body_end } => Need::Serve {
                job: job_of(method, path, input.subrange(body_start, body_end)),
                used: body_end,
            },
        }
    }
}

/// Decides what a connection needs next.
pub fn next_turn(conn: &Conn) -> (r: Turn)
    requires
        conn.wf(),
    ensures
        r@ == need_of(conn.input(), conn.pending()),
        r matches Turn::Serve { used, .. } ==> used <= conn.input().len(),
{
    if conn.has_pending_write() {
        return Turn::Flush;
    }
    let input = conn.received();
    match parse_request(input) {
        ParseStatus::Need => Turn::Wait,
        ParseStatus::Bad => Turn::Refuse,
        ParseStatus::Got { method, path, body_start, body_end } => {
            let body = &input[body_start..body_end];
            Turn::Serve { task: route(method, path, body), used: body_end }
        },
    }
}

/// Whether `r` is the answer that a connection with so many bytes received needs, and how many of
/// the bytes it uses up. What cannot be a request is answered with the fallback answer and dropped
/// whole.
pub open spec fn is_reply(
    need: Need,
    m: Measures,
    b: Seq<u8>,
    wide: bool,
    received: int,
    r: Option<(Seq<u8>, int)>,
) -> bool {
    match need {
        Need::Flush => r is None,
        Need::Wait => r is None,
        Need::Refuse => r == Some((fallback_answer(), received)),
        Need::Serve { job, used } => r matches Some((text, n)) && answers(job, m, b, wide, text) && n
            == used,
    }
}

/// An answer as a value.
pub open spec fn reply_text(r: Option<(&[u8], usize)>) -> Option<(Seq<u8>, int)> {
    match r {
        Some((text, n)) => Some((text@, n as int)),
        None => None,
    }
}

/// Makes the answer that a connection needs next, if any, and tells how many of the bytes received
/// it uses up.
pub fn reply<'a>(
    turn: &Turn,
    m: &Measures,
    index: &IndexReader,
    responses: &'a Responses,
    received: usize,
) -> (r: Option<(&'a [u8], usize)>)
    requires
        index.wf(),
        is_searchable(index.bytes()),
        responses.wf(),
    ensures
        is_reply(turn@, *m, index.bytes(), index.is_wide(), received as int, reply_text(r)),
{
    match turn {
        Turn::Flush => None,
        Turn::Wait => None,
        Turn::Refuse => Some((responses.fallback.as_slice(), received)),
        Turn::Serve { task, used } => Some((handle_request(task, m, index, responses), *used)),
    }
}

/// What to do after an attempt to send bytes that wait.
#[derive(Clone, Copy, Debug, PartialEq, Eq, Structural)]
pub enum AfterFlush {
    /// All are sent.
    Done,
    /// Send the rest.
    More,
    /// Wait until the connection can be written.
    Blocked,
}

/// What to do after an attempt to send bytes that wait, of which there are so many.
pub open spec fn after_flush_of(waiting: int, o: Outcome) -> AfterFlush {
    match o {
        Outcome::Moved(n) => if n == waiting {
            AfterFlush::Done
        } else {
            AfterFlush::More
        },
        Outcome::Interrupted => AfterFlush::More,
        _ => AfterFlush::Blocked,
    }
}

/// Notes what was sent of the bytes that wait, and decides what to do next.
pub fn after_flush(conn: &mut Conn, o: Outcome) -> (r: AfterFlush)
    requires
        old(conn).wf(),
        o matches Outcome::Moved(n) ==> n <= old(conn).pending().len(),
    ensures
        final(conn).wf(),
        final(conn).input() == old(conn).input(),
        final(conn).pending() == (match o {
            Outcome::Moved(n) => old(conn).pending().skip(n as int),
            _ => old(conn).pending(),
        }),
        r == after_flush_of(old(conn).pending().len() as int, o),
        r == (match o {
            Outcome::Moved(n) => if n == old(conn).pending().len() {
                AfterFlush::Done
            } else {
                AfterFlush::More
            },
            Outcome::Interrupted => AfterFlush::More,
            _ => AfterFlush::Blocked,
        }),
{
    match o {
        Outcome::Moved(n) => {
            conn.sent(n);
            if conn.has_pending_write() {
                AfterFlush::More
            } else {
                AfterFlush::Done
            }
        },
        Outcome::Interrupted => AfterFlush::More,
        Outcome::Ended => AfterFlush::Blocked,
        Outcome::WouldBlock => AfterFlush::Blocked,
        Outcome::Failed => AfterFlush::Blocked,
    }
}

/// What to do after an attempt to send an answer.
#[derive(Clone, Copy, Debug)]
pub enum WriteResult<'a> {
    /// The answer is sent.
    Done,
    /// Send the rest now.
    More(&'a [u8]),
    /// Send the rest later.
    Pending(&'a [u8]),
    /// Close the connection.
    Closed,
}

/// What to do after an attempt to send, as a value.
#[verifier::ext_equal]
pub enum Written {
    Done,
    More(Seq<u8>),
    Pending(Seq<u8>),
    Closed,
}

impl<'a> View for WriteResult<'a> {
    type V = Written;

    open spec fn view(&self) -> Written {
        match self {
            WriteResult::Done => Written::Done,
            WriteResult::More(b) => Written::More(b@),
            WriteResult::Pending(b) => Written::Pending(b@),
            WriteResult::Closed => Written::Closed,
        }
    }
}

/// What to do after an attempt to send `rest`.
pub open spec fn written_of(rest: Seq<u8>, o: Outcome) -> Written {
    match o {
        Outcome::Moved(n) => if n == rest.len() {
            Written::Done
        } else {
            Written::More(rest.skip(n as int))
        },
        Outcome::Interrupted => Written::More(rest),
        Outcome::WouldBlock => Written::Pending(rest),
        Outcome::Ended => Written::Closed,
        Outcome::Failed => Written::Closed,
    }
}

/// Decides what to do after an attempt to send `rest`.
pub fn after_write<'a>(rest: &'a [u8], o: Outcome) -> (r: WriteResult<'a>)
    requires
        o matches Outcome::Moved(n) ==> n <= rest@.len(),
    ensures
        r@ == written_of(rest@, o),
{
    match o {
        Outcome::Moved(n) => {
            if n == rest.len() {
                WriteResult::Done
            } else {
                let left = &rest[n..rest.len()];
                assert(left@ =~= rest@.skip(n as int));
                WriteResult::More(left)
            }
        },
        Outcome::Interrupted => WriteResult::More(rest),
        Outcome::WouldBlock => WriteResult::Pending(rest),
        Outcome::Ended => WriteResult::Closed,
        Outcome::Failed => WriteResult::Closed,
    }
}

/// The bytes sent of an answer in a run of attempts.
pub open spec fn sent_of(rest: Seq<u8>, run: Seq<Outcome>) -> Seq<u8>
    decreases run.len(),
{
    if run.len() == 0 {
        Seq::empty()
    } else {
        match written_of(rest, run[0]) {
            Written::Done => rest,
            Written::More(left) => rest.take(rest.len() - left.len()) + sent_of(left, run.skip(1)),
            Written::Pending(_) => Seq::empty(),
            Written::Closed => Seq::empty(),
        }
    }
}

/// The bytes left of an answer after a run of attempts. None are left where the connection is
/// closed.
pub open spec fn left_of(rest: Seq<u8>, run: Seq<Outcome>) -> Option<Seq<u8>>
    decreases run.len(),
{
    if run.len() == 0 {
        Some(rest)
    } else {
        match written_of(rest, run[0]) {
            Written::Done => Some(Seq::empty()),
            Written::More(left) => left_of(left, run.skip(1)),
            Written::Pending(left) => Some(left),
            Written::Closed => None,
        }
    }
}

/// Whether the numbers of bytes sent are possible ones.
pub open spec fn run_ok(rest: Seq<u8>, run: Seq<Outcome>) -> bool
    decreases run.len(),
{
    run.len() > 0 ==> {
        &&& run[0] matches Outcome::Moved(n) ==> n <= rest.len()
        &&& written_of(rest, run[0]) matches Written::More(left) ==> run_ok(left, run.skip(1))
    }
}

/// An answer is sent in order, and no byte is lost or sent twice: what was sent and what is left
/// make up the answer.
pub proof fn answers_are_sent_in_order(rest: Seq<u8>, run: Seq<Outcome>)
    requires
        run_ok(rest, run),
    ensures
        left_of(rest, run) matches Some(left) ==> sent_of(rest, run) + left == rest,
    decreases run.len(),
{
    if run.len() > 0 {
        match written_of(rest, run[0]) {
            Written::More(left) => {
                answers_are_sent_in_order(left, run.skip(1));
                if let Some(end) = left_of(left, run.skip(1)) {
                    assert(sent_of(rest, run) + end =~= rest.take(rest.len() - left.len()) + (
                    sent_of(left, run.skip(1)) + end));
                    assert(rest.take(rest.len() - left.len()) + left =~= rest);
                }
            },
            Written::Done => {
                assert(rest + Seq::<u8>::empty() =~= rest);
            },
            Written::Pending(left) => {
                assert(Seq::<u8>::empty() + left =~= rest);
            },
            Written::Closed => {},
        }
    } else {
        assert(Seq::<u8>::empty() + rest =~= rest);
    }
}

/// Requests are served one after the other: once the first is used up, the next one is found.
pub proof fn requests_are_served_in_turn(first: Seq<u8>, next: Seq<u8>)
    requires
        status_of(first) is Got,
        status_of(first)->body_end == first.len(),
    ensures
        need_of(first + next, Seq::empty()) == need_of(first, Seq::empty()),
        (first + next).skip(status_of(first)->body_end) == next,
{
    request_stands_alone(first, next);
    request_is_within(first);
    let s = status_of(first);
    assert((first + next).subrange(s->body_start, s->body_end) =~= first.subrange(
        s->body_start,
        s->body_end,
    ));
    assert((first + next).skip(s->body_end) =~= next);
}

/// A run of answers on a connection whose bytes are all sent at once: each turn is answered, its
/// bytes are used up, and in the end more bytes are needed. `ms` holds the real-number features of
/// each turn.
pub open spec fn is_run(
    b: Seq<u8>,
    wide: bool,
    input: Seq<u8>,
    ms: Seq<Measures>,
    texts: Seq<Seq<u8>>,
    left: Seq<u8>,
) -> bool
    decreases texts.len(),
{
    let need = need_of(input, Seq::empty());
    if texts.len() == 0 {
        need is Wait && left == input
    } else {
        exists|used: int| #[trigger]
            is_reply(need, ms[0], b, wide, input.len() as int, Some((texts[0], used))) && is_run(
                b,
                wide,
                input.skip(used),
                ms.skip(1),
                texts.skip(1),
                left,
            )
    }
}

/// Texts one behind the other.
pub open spec fn flat(texts: Seq<Seq<u8>>) -> Seq<u8>
    decreases texts.len(),
{
    if texts.len() == 0 {
        Seq::empty()
    } else {
        texts[0] + flat(texts.skip(1))
    }
}

/// Whether a text is one whole request.
pub open spec fn is_whole(request: Seq<u8>) -> bool {
    status_of(request) matches Status::Got { body_end, .. } && body_end == request.len()
}

/// What a whole request asks for.
pub open spec fn asked(request: Seq<u8>) -> Job {
    match status_of(request) {
        Status::Got { method, path, body_start, body_end } => job_of(
            method,
            path,
            request.subrange(body_start, body_end),
        ),
        _ => Job::Fallback,
    }
}

/// A run, taken as a whole.
#[verifier::opaque]
spec fn runs(
    b: Seq<u8>,
    wide: bool,
    input: Seq<u8>,
    ms: Seq<Measures>,
    texts: Seq<Seq<u8>>,
    left: Seq<u8>,
) -> bool {
    is_run(b, wide, input, ms, texts, left)
}

/// Whether a request is answered so, taken as a whole.
#[verifier::opaque]
spec fn is_answered(b: Seq<u8>, wide: bool, request: Seq<u8>, m: Measures, text: Seq<u8>) -> bool {
    answers(asked(request), m, b, wide, text)
}

/// Whether a text is one whole request, taken as a whole.
#[verifier::opaque]
spec fn stands_whole(request: Seq<u8>) -> bool {
    is_whole(request)
}

/// Whether more bytes are needed, taken as a whole.
#[verifier::opaque]
spec fn needs_more(rest: Seq<u8>) -> bool {
    status_of(rest) is Need
}

/// A run on bytes that begin with a whole request answers the request and goes on behind it.
proof fn lemma_run_step(
    b: Seq<u8>,
    wide: bool,
    first: Seq<u8>,
    next: Seq<u8>,
    ms: Seq<Measures>,
    texts: Seq<Seq<u8>>,
    left: Seq<u8>,
)
    requires
        stands_whole(first),
        runs(b, wide, first + next, ms, texts, left),
    ensures
        texts.len() > 0,
        is_answered(b, wide, first, ms[0], texts[0]),
        runs(b, wide, next, ms.skip(1), texts.skip(1), left),
{
    reveal(runs);
    reveal(is_answered);
    reveal(stands_whole);
    let input = first + next;
    requests_are_served_in_turn(first, next);
    let need = need_of(input, Seq::empty());
    assert(need == (Need::Serve { job: asked(first), used: first.len() as int }));
    let used = choose|used: int| #[trigger]
        is_reply(need, ms[0], b, wide, input.len() as int, Some((texts[0], used))) && is_run(
            b,
            wide,
            input.skip(used),
            ms.skip(1),
            texts.skip(1),
            left,
        );
    assert(used == first.len());
    assert(input.skip(used) =~= next);
}

/// A run on bytes that need more answers nothing.
proof fn lemma_run_end(
    b: Seq<u8>,
    wide: bool,
    rest: Seq<u8>,
    ms: Seq<Measures>,
    texts: Seq<Seq<u8>>,
    left: Seq<u8>,
)
    requires
        needs_more(rest),
        runs(b, wide, rest, ms, texts, left),
    ensures
        texts.len() == 0,
        left == rest,
{
    reveal(runs);
    reveal(needs_more);
    let need = need_of(rest, Seq::empty());
    assert(need is Wait);
}

/// A run on whole requests answers them in order.
proof fn lemma_run(
    b: Seq<u8>,
    wide: bool,
    requests: Seq<Seq<u8>>,
    rest: Seq<u8>,
    ms: Seq<Measures>,
    texts: Seq<Seq<u8>>,
    left: Seq<u8>,
)
    requires
        forall|i: int| 0 <= i < requests.len() ==> stands_whole(#[trigger] requests[i]),
        needs_more(rest),
        ms.len() >= requests.len(),
        runs(b, wide, flat(requests) + rest, ms, texts, left),
    ensures
        texts.len() == requests.len(),
        left == rest,
        forall|i: int|
            0 <= i < requests.len() ==> is_answered(
                b,
                wide,
                #[trigger] requests[i],
                ms[i],
                texts[i],
            ),
    decreases requests.len(),
{
    let input = flat(requests) + rest;
    if requests.len() == 0 {
        assert(input =~= rest);
        lemma_run_end(b, wide, rest, ms, texts, left);
    } else {
        let first = requests[0];
        let others = requests.skip(1);
        let next = flat(others) + rest;
        assert(stands_whole(requests[0]));
        assert(input =~= first + next);
        lemma_run_step(b, wide, first, next, ms, texts, left);
        assert forall|i: int| 0 <= i < others.len() implies stands_whole(#[trigger] others[i]) by {
            assert(others[i] == requests[i + 1]);
        }
        lemma_run(b, wide, others, rest, ms.skip(1), texts.skip(1), left);
        assert forall|i: int| 0 <= i < requests.len() implies is_answered(
            b,
            wide,
            #[trigger] requests[i],
            ms[i],
            texts[i],
        ) by {
            if i > 0 {
                assert(others[i - 1] == requests[i]);
                assert(texts.skip(1)[i - 1] == texts[i]);
                assert(ms.skip(1)[i - 1] == ms[i]);
            }
        }
    }
}

/// Whole requests that have all been received are answered in order, each with an answer to what it
/// asks for, and what comes behind them is kept.
pub proof fn whole_requests_are_answered_in_order(
    b: Seq<u8>,
    wide: bool,
    requests: Seq<Seq<u8>>,
    rest: Seq<u8>,
    ms: Seq<Measures>,
    texts: Seq<Seq<u8>>,
    left: Seq<u8>,
)
    requires
        forall|i: int| 0 <= i < requests.len() ==> is_whole(#[trigger] requests[i]),
        status_of(rest) is Need,
        ms.len() >= requests.len(),
        is_run(b, wide, flat(requests) + rest, ms, texts, left),
    ensures
        texts.len() == requests.len(),
        left == rest,
        forall|i: int|
            0 <= i < requests.len() ==> answers(
                asked(#[trigger] requests[i]),
                ms[i],
                b,
                wide,
                texts[i],
            ),
{
    assert(needs_more(rest)) by {
        reveal(needs_more);
    }
    assert(runs(b, wide, flat(requests) + rest, ms, texts, left)) by {
        reveal(runs);
    }
    assert forall|i: int| 0 <= i < requests.len() implies stands_whole(#[trigger] requests[i]) by {
        reveal(stands_whole);
        assert(is_whole(requests[i]));
    }
    lemma_run(b, wide, requests, rest, ms, texts, left);
    assert forall|i: int| 0 <= i < requests.len() implies answers(
        asked(#[trigger] requests[i]),
        ms[i],
        b,
        wide,
        texts[i],
    ) by {
        reveal(is_answered);
        assert(is_answered(b, wide, requests[i], ms[i], texts[i]));
    }
}

/// An answer whose bytes are all taken at once is sent, and nothing waits.
pub proof fn answers_taken_at_once_are_sent(text: Seq<u8>, n: usize)
    requires
        n == text.len(),
    ensures
        written_of(text, Outcome::Moved(n)) is Done,
        sent_of(text, seq![Outcome::Moved(n)]) == text,
{
}

/// What came of receiving a socket that is passed on.
#[derive(Clone, Copy, Debug, PartialEq, Eq, Structural)]
pub enum Passing {
    /// There is one.
    Socket,
    /// There is none, for now.
    Nothing,
    /// It failed.
    Failed,
}

/// The level of a control message about sockets.
pub const SOCKET_LEVEL: i32 = 1;

/// The kind of a control message that passes sockets on.
pub const RIGHTS: i32 = 1;

/// What came of receiving a socket that is passed on: a message brings one where its control
/// message, given by level and kind, says so.
pub open spec fn passing_of(o: Outcome, control: Option<(i32, i32)>) -> Passing {
    match o {
        Outcome::Failed => Passing::Failed,
        Outcome::WouldBlock => Passing::Nothing,
        Outcome::Interrupted => Passing::Nothing,
        _ => if control == Some((SOCKET_LEVEL, RIGHTS)) {
            Passing::Socket
        } else {
            Passing::Nothing
        },
    }
}

/// Decides what came of receiving a socket that is passed on.
pub fn after_passing(o: Outcome, control: Option<(i32, i32)>) -> (r: Passing)
    ensures
        r == passing_of(o, control),
{
    match o {
        Outcome::Failed => Passing::Failed,
        Outcome::WouldBlock => Passing::Nothing,
        Outcome::Interrupted => Passing::Nothing,
        _ => match control {
            Some((level, kind)) => {
                if level == SOCKET_LEVEL && kind == RIGHTS {
                    Passing::Socket
                } else {
                    Passing::Nothing
                }
            },
            None => Passing::Nothing,
        },
    }
}

/// What a server has tried in this round of waiting.
#[derive(Clone, Copy, Debug, PartialEq, Eq, Structural)]
pub enum Tried {
    Nothing,
    /// Looking for ready sockets without waiting, with what it returned.
    Polled(i32),
    /// Waiting for ready sockets, with what it returned.
    Idled(i32),
}

/// What a server does next to find ready sockets.
#[derive(Clone, Copy, Debug, PartialEq, Eq, Structural)]
pub enum Wait {
    /// Look without waiting.
    Poll,
    /// Wait.
    Idle,
    /// Deal with so many ready sockets.
    Handle(i32),
    /// Begin a new round.
    Again,
    /// Give up.
    Fail,
}

/// What a server does next to find ready sockets: it looks again and again for `spin_us`
/// microseconds, of which `elapsed_us` have passed, and then waits. Where it is not to spin, it
/// waits at once.
pub open spec fn wait_of(spin_us: u64, elapsed_us: u64, tried: Tried, interrupted: bool) -> Wait {
    match tried {
        Tried::Nothing => if spin_us > 0 {
            Wait::Poll
        } else {
            Wait::Idle
        },
        Tried::Polled(n) => if n > 0 {
            Wait::Handle(n)
        } else if n < 0 {
            if interrupted {
                Wait::Again
            } else {
                Wait::Fail
            }
        } else if elapsed_us < spin_us {
            Wait::Poll
        } else {
            Wait::Idle
        },
        Tried::Idled(n) => if n > 0 {
            Wait::Handle(n)
        } else if n < 0 && !interrupted {
            Wait::Fail
        } else {
            Wait::Again
        },
    }
}

/// Decides what a server does next to find ready sockets.
pub fn next_wait(spin_us: u64, elapsed_us: u64, tried: Tried, interrupted: bool) -> (r: Wait)
    ensures
        r == wait_of(spin_us, elapsed_us, tried, interrupted),
{
    match tried {
        Tried::Nothing => {
            if spin_us > 0 {
                Wait::Poll
            } else {
                Wait::Idle
            }
        },
        Tried::Polled(n) => {
            if n > 0 {
                Wait::Handle(n)
            } else if n < 0 {
                if interrupted {
                    Wait::Again
                } else {
                    Wait::Fail
                }
            } else if elapsed_us < spin_us {
                Wait::Poll
            } else {
                Wait::Idle
            }
        },
        Tried::Idled(n) => {
            if n > 0 {
                Wait::Handle(n)
            } else if n < 0 && !interrupted {
                Wait::Fail
            } else {
                Wait::Again
            }
        },
    }
}

} // verus!
