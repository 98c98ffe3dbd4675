use detecta_fraude::http::{
    find_content_length, find_double_crlf, handle_request, parse_request, route, ParseStatus, Task,
};
use detecta_fraude::index::build::Builder;
use detecta_fraude::index::IndexReader;
use detecta_fraude::response::{build_response, Responses};
use detecta_fraude::server::conn::{Conn, CONN_BUF_CAP, WRITE_BUF_CAP};
use detecta_fraude::server::steps::{
    after_flush, after_passing, after_receive, after_write, next_turn, next_wait, reply, wake,
    AfterFlush, AfterReceive, Outcome, Passing, Tried, Turn, Wait, Wake, WriteResult, ERROR, HANGUP,
    READABLE,
};
use detecta_fraude::server::table::{accepts_fd, conn_pool_cap, ConnTable};
use detecta_fraude::server::tuning::{
    busy_poll, cmsg_align, idle_timeout, iow, warm_query, warm_up_index, BusyPoll,
};
use detecta_fraude::vectorize::Measures;
use detecta_fraude::STORE_DIM;

const NOTHING: Measures = Measures {
    amount: 0,
    ratio: 0,
    last_km: 0,
    home_km: 0,
    merchant_amount: 0,
};

#[test]
fn answers_are_written_out() {
    let r = Responses::new();
    let expected: [&str; 6] = [
        "HTTP/1.1 200 OK\r\nContent-Length: 33\r\n\r\n{\"approved\":true,\"fraud_score\":0}",
        "HTTP/1.1 200 OK\r\nContent-Length: 35\r\n\r\n{\"approved\":true,\"fraud_score\":0.2}",
        "HTTP/1.1 200 OK\r\nContent-Length: 35\r\n\r\n{\"approved\":true,\"fraud_score\":0.4}",
        "HTTP/1.1 200 OK\r\nContent-Length: 36\r\n\r\n{\"approved\":false,\"fraud_score\":0.6}",
        "HTTP/1.1 200 OK\r\nContent-Length: 36\r\n\r\n{\"approved\":false,\"fraud_score\":0.8}",
        "HTTP/1.1 200 OK\r\nContent-Length: 34\r\n\r\n{\"approved\":false,\"fraud_score\":1}",
    ];
    for count in 0..6u8 {
        assert_eq!(r.for_count(count), expected[count as usize].as_bytes());
    }
    assert_eq!(r.for_count(200), r.for_count(5));
    assert_eq!(r.ready, b"HTTP/1.1 200 OK\r\nContent-Length: 2\r\n\r\nok");
    assert_eq!(
        r.fallback,
        b"HTTP/1.1 200 OK\r\nContent-Length: 35\r\n\r\n{\"approved\":true,\"fraud_score\":0.0}"
    );
    assert_eq!(Responses::default().fallback, r.fallback);
}

#[test]
fn answers_state_the_length_of_their_body() {
    for score in ["", "0.2", "0.123456789012345678901234567890123456789012345678901234567890123456789"] {
        let r = build_response(score.as_bytes(), false);
        let head = find_double_crlf(&r).unwrap();
        assert_eq!(find_content_length(&r[..head]), Some(r.len() - head - 4));
    }
}

#[test]
fn heads_end_at_a_blank_line() {
    assert_eq!(find_double_crlf(b"ab\r\n\r\ncd\r\n\r\n"), Some(2));
    assert_eq!(find_double_crlf(b"\r\n\r\n"), Some(0));
    assert_eq!(find_double_crlf(b"\r\n\r"), None);
    assert_eq!(find_double_crlf(b"ab\r\ncd\n\r\n"), None);
}

#[test]
fn lengths_are_found_in_any_case() {
    assert_eq!(find_content_length(b"A: b\r\nContent-LENGTH: \t 42\r\nX: y"), Some(42));
    assert_eq!(find_content_length(b"content-length:7"), Some(7));
    assert_eq!(find_content_length(b"content-length: x"), None);
    assert_eq!(find_content_length(b"content-length"), None);
    assert_eq!(find_content_length(b""), None);
    assert_eq!(find_content_length(b"content-length: 99999999999999999999999999"), None);
    // The first one counts.
    assert_eq!(find_content_length(b"content-length: 1\r\ncontent-length: 2"), Some(1));
}

fn summary(b: &[u8]) -> String {
    match parse_request(b) {
        ParseStatus::Need => "need".to_string(),
        ParseStatus::Bad => "bad".to_string(),
        ParseStatus::Got { method, path, body_start, body_end } => format!(
            "{} {} {}",
            String::from_utf8_lossy(method),
            String::from_utf8_lossy(path),
            String::from_utf8_lossy(&b[body_start..body_end])
        ),
    }
}

#[test]
fn requests_are_found() {
    assert_eq!(summary(b""), "need");
    assert_eq!(summary(b"GET /ready HTTP/1.1\r\n"), "need");
    assert_eq!(summary(b"GET /ready HTTP/1.1\r\n\r\n"), "GET /ready ");
    assert_eq!(summary(b"POST /x HTTP/1.1\r\nContent-Length: 3\r\n\r\nab"), "need");
    assert_eq!(summary(b"POST /x HTTP/1.1\r\nContent-Length: 3\r\n\r\nabc"), "POST /x abc");
    assert_eq!(summary(b"POST /x HTTP/1.1\r\n\r\nabc"), "bad");
    assert_eq!(summary(b"POST /x HTTP/1.1\r\nContent-Length: 4097\r\n\r\n"), "bad");
    assert_eq!(summary(b"POST\r\n\r\n"), "bad");
    assert_eq!(summary(b"POST /x\r\n\r\n"), "bad");
    assert_eq!(summary(&[b'a'; 4096]), "need");
    assert_eq!(summary(&[b'a'; 4097]), "bad");
}

#[test]
fn a_request_stands_alone() {
    let one = b"POST /x HTTP/1.1\r\nContent-Length: 3\r\n\r\nabc";
    let mut two = one.to_vec();
    two.extend_from_slice(b"POST /y HTTP/1.1\r\n\r\n");
    assert_eq!(summary(&two), summary(one));
}

#[test]
fn requests_are_routed() {
    assert!(matches!(route(b"GET", b"/ready", b""), Task::Ready));
    assert!(matches!(route(b"POST", b"/ready", b""), Task::Fallback));
    assert!(matches!(route(b"GET", b"/fraud-score", b"{}"), Task::Fallback));
    assert!(matches!(route(b"POST", b"/fraud-score", b"{}"), Task::Score(_)));
    assert!(matches!(route(b"POST", b"/fraud-score", b"{"), Task::Fallback));
}

#[test]
fn requests_are_answered() {
    let mut b = Builder::new();
    for _ in 0..5 {
        b.add([0; STORE_DIM], 1);
    }
    let bytes = b.to_bytes(8).unwrap();
    let idx = IndexReader::from_bytes(&bytes, true).unwrap();
    let r = Responses::new();
    let score = route(b"POST", b"/fraud-score", b"{}");
    assert_eq!(handle_request(&score, &NOTHING, &idx, &r), r.for_count(5));
    assert_eq!(handle_request(&Task::Ready, &NOTHING, &idx, &r), &r.ready[..]);
    assert_eq!(handle_request(&Task::Fallback, &NOTHING, &idx, &r), &r.fallback[..]);
}

#[test]
fn a_connection_keeps_its_bytes() {
    let mut c = Conn::new();
    assert_eq!(c.room(), CONN_BUF_CAP);
    c.receive(b"hello ");
    c.receive(b"world");
    assert_eq!(c.received(), b"hello world");
    c.consume(0);
    c.consume(6);
    assert_eq!(c.received(), b"world");
    c.consume(5);
    assert_eq!(c.received(), b"");
    assert!(!c.has_pending_write());
    assert!(c.hold(b"abc"));
    assert!(c.has_pending_write());
    c.sent(1);
    assert_eq!(c.unsent(), b"bc");
    c.sent(2);
    assert!(!c.has_pending_write());
    assert!(!c.hold(&[0; 513]));
    assert!(c.hold(&[7; 512]));
    c.receive(b"x");
    c.reset();
    assert_eq!(c.received(), b"");
    assert!(!c.has_pending_write());
}

#[test]
fn sockets_are_woken() {
    let mut c = Conn::new();
    assert_eq!(wake(None, READABLE), Wake::Ignore);
    assert_eq!(wake(None, ERROR), Wake::Close);
    assert_eq!(wake(None, 4), Wake::Close);
    assert_eq!(wake(Some(&*c), READABLE | HANGUP), Wake::Receive);
    assert_eq!(wake(Some(&*c), HANGUP), Wake::Close);
    assert_eq!(wake(Some(&*c), 4), Wake::Process);
    c.receive(&[0; CONN_BUF_CAP]);
    assert_eq!(wake(Some(&*c), READABLE), Wake::Close);
}

#[test]
fn receiving_goes_on_or_ends() {
    let mut c = Conn::new();
    assert_eq!(after_receive(&mut c, b"abcdef", Outcome::Moved(3)), AfterReceive::Process);
    assert_eq!(c.received(), b"abc");
    assert_eq!(after_receive(&mut c, b"abcdef", Outcome::WouldBlock), AfterReceive::Process);
    assert_eq!(after_receive(&mut c, b"abcdef", Outcome::Interrupted), AfterReceive::Again);
    assert_eq!(after_receive(&mut c, b"abcdef", Outcome::Ended), AfterReceive::Close);
    assert_eq!(after_receive(&mut c, b"abcdef", Outcome::Failed), AfterReceive::Close);
    assert_eq!(c.received(), b"abc");
}

#[test]
fn turns_are_taken_in_order() {
    let mut c = Conn::new();
    assert!(matches!(next_turn(&c), Turn::Wait));
    c.receive(b"GET /ready HTTP/1.1\r\n\r\nGET /");
    let used = match next_turn(&c) {
        Turn::Serve { task, used } => {
            assert!(matches!(task, Task::Ready));
            used
        }
        _ => panic!("no request"),
    };
    assert_eq!(used, 23);
    c.consume(used);
    assert_eq!(c.received(), b"GET /");
    assert!(matches!(next_turn(&c), Turn::Wait));
    c.hold(b"rest");
    assert!(matches!(next_turn(&c), Turn::Flush));
    c.sent(4);
    c.receive(b"\r\n\r\n");
    assert!(matches!(next_turn(&c), Turn::Refuse));
}

#[test]
fn waiting_bytes_are_flushed() {
    let mut c = Conn::new();
    c.hold(b"abc");
    assert_eq!(after_flush(&mut c, Outcome::Moved(2)), AfterFlush::More);
    assert_eq!(after_flush(&mut c, Outcome::Interrupted), AfterFlush::More);
    assert_eq!(after_flush(&mut c, Outcome::WouldBlock), AfterFlush::Blocked);
    assert_eq!(after_flush(&mut c, Outcome::Ended), AfterFlush::Blocked);
    assert_eq!(after_flush(&mut c, Outcome::Failed), AfterFlush::Blocked);
    assert_eq!(c.unsent(), b"c");
    assert_eq!(after_flush(&mut c, Outcome::Moved(1)), AfterFlush::Done);
}

#[test]
fn an_answer_is_sent_in_order() {
    let answer = b"abcdef";
    let mut sent = Vec::new();
    let mut rest: &[u8] = answer;
    for o in [Outcome::Moved(2), Outcome::Interrupted, Outcome::Moved(1)] {
        if let Outcome::Moved(n) = o {
            sent.extend_from_slice(&rest[..n]);
        }
        rest = match after_write(rest, o) {
            WriteResult::More(r) => r,
            _ => panic!("ended"),
        };
    }
    assert_eq!(sent, b"abc");
    assert!(matches!(after_write(rest, Outcome::WouldBlock), WriteResult::Pending(b"def")));
    assert!(matches!(after_write(rest, Outcome::Moved(3)), WriteResult::Done));
    assert!(matches!(after_write(rest, Outcome::Ended), WriteResult::Closed));
    assert!(matches!(after_write(rest, Outcome::Failed), WriteResult::Closed));
}

#[test]
fn connections_are_kept_by_socket() {
    let mut t = ConnTable::new(1);
    let mut c = t.alloc_conn();
    c.receive(b"abc");
    assert!(t.put_conn(9, c));
    assert!(t.take_conn(8).is_none());
    let c = t.take_conn(9).unwrap();
    assert_eq!(c.received(), b"abc");
    assert!(t.take_conn(9).is_none());
    assert!(t.put_conn(65_535, c));
    t.close_conn(65_535);
    assert!(t.take_conn(65_535).is_none());
    // A state that is used again is empty.
    assert_eq!(t.alloc_conn().received(), b"");
    assert!(!t.put_conn(65_536, Conn::new()));
    assert!(!t.put_conn(-1, Conn::new()));
    t.close_conn(-1);
    assert!(accepts_fd(0) && accepts_fd(65_535) && !accepts_fd(-1) && !accepts_fd(65_536));
    assert_eq!(conn_pool_cap(None), 128);
    assert_eq!(conn_pool_cap(Some(3)), 3);
}

#[test]
fn settings_are_computed() {
    assert_eq!(idle_timeout(2_500_001), (2, 500_001_000));
    assert_eq!(
        busy_poll(50, 1, 8),
        Some(BusyPoll { usecs: 50, budget: 8, prefer: 1 })
    );
    assert_eq!(busy_poll(0, 256, 8), None);
    assert_eq!(
        busy_poll(0, 257, 65_537),
        Some(BusyPoll { usecs: 0, budget: 1, prefer: 1 })
    );
    assert_eq!(iow(0x8a, 1, 8), (1 << 30) | (8 << 16) | (0x8a << 8) | 1);
    assert_eq!(iow(0x1ff, 0x300, 1), (1 << 30) | (1 << 16) | (0x1ff << 8) | 0x300);
    let w = std::mem::size_of::<usize>();
    assert_eq!(cmsg_align(0), 0);
    assert_eq!(cmsg_align(1), w);
    assert_eq!(cmsg_align(2 * w), 2 * w);
}

#[test]
fn warm_up_queries_are_spread() {
    let q = warm_query(0);
    assert_eq!(q[0], 0);
    assert_eq!(q[1], 1009);
    assert_eq!(q[5], -10_000);
    assert_eq!(q[9], (9 * 1009 % 10_001) as i16);
    let q = warm_query(7);
    assert_eq!(q[0], 2191);
    assert_eq!((q[9], q[10], q[11]), (10_000, 10_000, 10_000));
    assert_eq!(q[5], ((7 * 313 + 5 * 1009) % 10_001) as i16);
    assert_eq!((q[14], q[15]), (0, 0));
}

#[test]
fn warming_up_runs_the_queries() {
    let mut b = Builder::new();
    for i in 0..40i16 {
        b.add([i * 200; STORE_DIM], (i % 3 == 0) as u8);
    }
    let bytes = b.to_bytes(8).unwrap();
    let idx = IndexReader::from_bytes(&bytes, true).unwrap();
    assert!(idx.is_searchable());
    let mut sum = 0;
    for i in 0..50 {
        sum ^= idx.fraud_count(&warm_query(i));
    }
    assert_eq!(warm_up_index(&idx, 50), sum);
    assert_eq!(warm_up_index(&idx, 0), 0);
}

#[test]
fn every_answer_can_wait() {
    let r = Responses::new();
    let mut all = r.by_count.to_vec();
    all.push(r.ready.clone());
    all.push(r.fallback.clone());
    for a in all {
        assert!(4 * a.len() <= WRITE_BUF_CAP);
        let mut c = Conn::new();
        assert!(c.hold(&a));
        assert_eq!(c.unsent(), a);
    }
    let mut c = Conn::new();
    assert!(!c.hold(&[0; WRITE_BUF_CAP + 1]));
}

#[test]
fn whole_requests_are_answered_in_order() {
    let mut b = Builder::new();
    for i in 0..10i16 {
        b.add([i * 100; STORE_DIM], 1);
    }
    let bytes = b.to_bytes(8).unwrap();
    let idx = IndexReader::from_bytes(&bytes, false).unwrap();
    assert!(idx.is_searchable());
    let r = Responses::new();
    let mut c = Conn::new();
    c.receive(b"GET /ready HTTP/1.1\r\n\r\n");
    c.receive(b"POST /fraud-score HTTP/1.1\r\nContent-Length: 2\r\n\r\n{}");
    c.receive(b"GET /other HTTP/1.1\r\n\r\n");
    c.receive(b"GET /re");
    let mut sent: Vec<Vec<u8>> = Vec::new();
    loop {
        let turn = next_turn(&c);
        let received = c.received().len();
        match reply(&turn, &NOTHING, &idx, &r, received) {
            Some((text, used)) => {
                assert!(matches!(after_write(text, Outcome::Moved(text.len())), WriteResult::Done));
                sent.push(text.to_vec());
                c.consume(used);
            }
            None => {
                assert!(matches!(turn, Turn::Wait));
                break;
            }
        }
    }
    assert_eq!(sent, vec![r.ready.clone(), r.by_count[5].clone(), r.fallback.clone()]);
    assert_eq!(c.received(), b"GET /re");
    assert!(!c.has_pending_write());
}

#[test]
fn what_is_no_request_is_refused_and_dropped() {
    let mut b = Builder::new();
    b.add([0; STORE_DIM], 0);
    let bytes = b.to_bytes(8).unwrap();
    let idx = IndexReader::from_bytes(&bytes, false).unwrap();
    assert!(idx.is_searchable());
    let r = Responses::new();
    let mut c = Conn::new();
    c.receive(b"nonsense\r\n\r\nand more");
    let received = c.received().len();
    let turn = next_turn(&c);
    let (text, used) = reply(&turn, &NOTHING, &idx, &r, received).unwrap();
    assert_eq!(text, r.fallback);
    assert_eq!(used, received);
    assert!(c.hold(b"x"));
    assert!(reply(&next_turn(&c), &NOTHING, &idx, &r, received).is_none());
}

#[test]
fn sockets_are_passed_on() {
    let rights = Some((1, 1));
    assert_eq!(after_passing(Outcome::Moved(1), rights), Passing::Socket);
    assert_eq!(after_passing(Outcome::Ended, rights), Passing::Socket);
    assert_eq!(after_passing(Outcome::Moved(1), None), Passing::Nothing);
    assert_eq!(after_passing(Outcome::Moved(1), Some((1, 2))), Passing::Nothing);
    assert_eq!(after_passing(Outcome::Moved(1), Some((6, 1))), Passing::Nothing);
    assert_eq!(after_passing(Outcome::WouldBlock, rights), Passing::Nothing);
    assert_eq!(after_passing(Outcome::Interrupted, None), Passing::Nothing);
    assert_eq!(after_passing(Outcome::Failed, None), Passing::Failed);
}

#[test]
fn waiting_spins_first() {
    assert_eq!(next_wait(50, 0, Tried::Nothing, false), Wait::Poll);
    assert_eq!(next_wait(0, 0, Tried::Nothing, false), Wait::Idle);
    assert_eq!(next_wait(50, 49, Tried::Polled(0), false), Wait::Poll);
    assert_eq!(next_wait(50, 50, Tried::Polled(0), false), Wait::Idle);
    assert_eq!(next_wait(50, 50, Tried::Polled(3), false), Wait::Handle(3));
    assert_eq!(next_wait(50, 0, Tried::Polled(-1), true), Wait::Again);
    assert_eq!(next_wait(50, 0, Tried::Polled(-1), false), Wait::Fail);
    assert_eq!(next_wait(50, 90, Tried::Idled(2), false), Wait::Handle(2));
    assert_eq!(next_wait(50, 90, Tried::Idled(0), false), Wait::Again);
    assert_eq!(next_wait(50, 90, Tried::Idled(-1), true), Wait::Again);
    assert_eq!(next_wait(50, 90, Tried::Idled(-1), false), Wait::Fail);
}
