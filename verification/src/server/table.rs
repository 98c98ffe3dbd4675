//! The connections of a server, by socket number, and a pool of states to use again.

use vstd::prelude::*;
use crate::server::conn::Conn;

verus! {

/// Sockets with this number or a greater one are not served.
pub const MAX_CLIENT_FD: usize = 65_536;

/// How many states are kept unless something else is wanted.
pub const DEFAULT_CONN_POOL_INIT: usize = 128;

/// Whether a socket can be served.
pub open spec fn serves(fd: i32) -> bool {
    0 <= fd < MAX_CLIENT_FD
}

/// Whether a socket can be served.
pub fn accepts_fd(fd: i32) -> (r: bool)
    ensures
        r == serves(fd),
{
    fd >= 0 && (fd as usize) < MAX_CLIENT_FD
}

/// How many states to keep.
pub open spec fn pool_cap_of(wanted: Option<usize>) -> usize {
    match wanted {
        Some(n) => n,
        None => DEFAULT_CONN_POOL_INIT,
    }
}

/// How many states to keep.
pub fn conn_pool_cap(wanted: Option<usize>) -> (r: usize)
    ensures
        r == pool_cap_of(wanted),
        r == (match wanted {
            Some(n) => n,
            None => DEFAULT_CONN_POOL_INIT,
        }),
{
    match wanted {
        Some(n) => n,
        None => DEFAULT_CONN_POOL_INIT,
    }
}

/// How many states are ready from the start where so many are kept.
pub open spec fn ready_states(cap: int) -> int {
    if cap < DEFAULT_CONN_POOL_INIT {
        cap
    } else {
        DEFAULT_CONN_POOL_INIT as int
    }
}

/// How many states wait after a connection was closed.
pub open spec fn kept_states(waiting: int, limit: int) -> int {
    if waiting < limit {
        waiting + 1
    } else {
        waiting
    }
}

/// The connections of a server.
pub struct ConnTable {
    conns: Vec<Option<Box<Conn>>>,
    pool: Vec<Box<Conn>>,
    cap: usize,
}

impl ConnTable {
    /// The connections by socket number.
    pub closed spec fn slots(&self) -> Seq<Option<Box<Conn>>> {
        self.conns@
    }

    /// How many states wait to be used again.
    pub closed spec fn pooled(&self) -> nat {
        self.pool@.len()
    }

    /// How many states may wait.
    pub closed spec fn limit(&self) -> nat {
        self.cap as nat
    }

    /// Whether all states are sound.
    pub closed spec fn wf(&self) -> bool {
        &&& self.conns@.len() == MAX_CLIENT_FD
        &&& forall|i: int|
            0 <= i < self.conns@.len() ==> ((#[trigger] self.conns@[i]) matches Some(c) ==> c.wf())
        &&& forall|i: int| 0 <= i < self.pool@.len() ==> (#[trigger] self.pool@[i]).wf()
    }

    /// A table without connections, with some states ready.
    pub fn new(cap: usize) -> (t: ConnTable)
        ensures
            t.wf(),
            t.limit() == cap,
            t.pooled() == ready_states(cap as int),
            t.pooled() == (if cap < DEFAULT_CONN_POOL_INIT {
                cap as nat
            } else {
                DEFAULT_CONN_POOL_INIT as nat
            }),
            forall|i: int| 0 <= i < MAX_CLIENT_FD ==> #[trigger] t.slots()[i] is None,
            t.slots().len() == MAX_CLIENT_FD,
    {
        let mut conns: Vec<Option<Box<Conn>>> = Vec::new();
        let mut i: usize = 0;
        while i < MAX_CLIENT_FD
            invariant
                i <= MAX_CLIENT_FD,
                conns@.len() == i,
                forall|j: int| 0 <= j < i ==> #[trigger] conns@[j] is None,
            decreases MAX_CLIENT_FD - i,
        {
            conns.push(None);
            i += 1;
        }
        let first: usize = if cap < DEFAULT_CONN_POOL_INIT {
            cap
        } else {
            DEFAULT_CONN_POOL_INIT
        };
        let mut pool: Vec<Box<Conn>> = Vec::new();
        let mut i: usize = 0;
        while i < first
            invariant
                i <= first,
                pool@.len() == i,
                forall|j: int| 0 <= j < i ==> (#[trigger] pool@[j]).wf(),
            decreases first - i,
        {
            pool.push(Conn::new());
            i += 1;
        }
        ConnTable { conns, pool, cap }
    }

    /// A fresh state: one that waited, or a new one.
    pub fn alloc_conn(&mut self) -> (c: Box<Conn>)
        requires
            old(self).wf(),
        ensures
            final(self).wf(),
            final(self).slots() == old(self).slots(),
            final(self).limit() == old(self).limit(),
            final(self).pooled() == (if old(self).pooled() > 0 {
                (old(self).pooled() - 1) as nat
            } else {
                0
            }),
            c.wf(),
            c.input() == Seq::<u8>::empty(),
            c.pending() == Seq::<u8>::empty(),
    {
        match self.pool.pop() {
            Some(mut c) => {
                c.reset();
                c
            },
            None => Conn::new(),
        }
    }

    /// Adds a connection. Returns whether its socket can be served.
    pub fn put_conn(&mut self, fd: i32, conn: Box<Conn>) -> (r: bool)
        requires
            old(self).wf(),
            conn.wf(),
        ensures
            final(self).wf(),
            r == serves(fd),
            final(self).pooled() == old(self).pooled(),
            final(self).limit() == old(self).limit(),
            final(self).slots() == (if r {
                old(self).slots().update(fd as int, Some(conn))
            } else {
                old(self).slots()
            }),
    {
        if !accepts_fd(fd) {
            return false;
        }
        self.conns.set(fd as usize, Some(conn));
        true
    }

    /// Takes a connection out.
    pub fn take_conn(&mut self, fd: i32) -> (r: Option<Box<Conn>>)
        requires
            old(self).wf(),
        ensures
            final(self).wf(),
            final(self).pooled() == old(self).pooled(),
            final(self).limit() == old(self).limit(),
            r == (if serves(fd) {
                old(self).slots()[fd as int]
            } else {
                None
            }),
            r matches Some(c) ==> c.wf(),
            final(self).slots() == (if serves(fd) {
                old(self).slots().update(fd as int, None)
            } else {
                old(self).slots()
            }),
    {
        if !accepts_fd(fd) {
            return None;
        }
        let idx: usize = fd as usize;
        let r = self.conns[idx].take();
        assert(self.conns@ =~= old(self).conns@.update(idx as int, None));
        r
    }

    /// Ends a connection. Its state waits to be used again, if there is room.
    pub fn close_conn(&mut self, fd: i32)
        requires
            old(self).wf(),
        ensures
            final(self).wf(),
            final(self).limit() == old(self).limit(),
            final(self).slots() == (if serves(fd) {
                old(self).slots().update(fd as int, None)
            } else {
                old(self).slots()
            }),
            serves(fd) && old(self).slots()[fd as int] is Some ==> final(self).pooled()
                == kept_states(old(self).pooled() as int, old(self).limit() as int),
            final(self).pooled() == (if serves(fd) && old(self).slots()[fd as int] is Some
                && old(self).pooled() < old(self).limit() {
                old(self).pooled() + 1
            } else {
                old(self).pooled()
            }),
    {
        if let Some(mut conn) = self.take_conn(fd) {
            conn.reset();
            if self.pool.len() < self.cap {
                self.pool.push(conn);
            }
        }
    }
}

} // verus!
