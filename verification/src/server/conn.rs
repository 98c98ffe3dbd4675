//! A connection: the bytes received and not yet used, and the bytes of an answer not yet sent.

use vstd::prelude::*;

verus! {

/// Room for received bytes.
pub const CONN_BUF_CAP: usize = 16384;

/// Room for bytes to be sent.
pub const WRITE_BUF_CAP: usize = 512;

/// Whether so many bytes to be sent have room.
pub open spec fn can_wait(n: int) -> bool {
    n <= WRITE_BUF_CAP
}

/// The state of a connection.
pub struct Conn {
    in_buf: [u8; CONN_BUF_CAP],
    in_len: usize,
    write_buf: [u8; WRITE_BUF_CAP],
    write_len: usize,
    write_pos: usize,
}

impl Conn {
    /// Whether the marks are within the buffers.
    pub closed spec fn wf(&self) -> bool {
        &&& self.in_len <= CONN_BUF_CAP
        &&& self.write_pos <= self.write_len <= WRITE_BUF_CAP
    }

    /// The bytes received and not yet used.
    pub closed spec fn input(&self) -> Seq<u8> {
        self.in_buf@.take(self.in_len as int)
    }

    /// The bytes not yet sent.
    pub closed spec fn pending(&self) -> Seq<u8> {
        self.write_buf@.subrange(self.write_pos as int, self.write_len as int)
    }

    pub fn new() -> (c: Box<Conn>)
        ensures
            c.wf(),
            c.input() == Seq::<u8>::empty(),
            c.pending() == Seq::<u8>::empty(),
    {
        let c = Box::new(
            Conn {
                in_buf: [0u8; CONN_BUF_CAP],
                in_len: 0,
                write_buf: [0u8; WRITE_BUF_CAP],
                write_len: 0,
                write_pos: 0,
            },
        );
        assert(c.input() =~= Seq::<u8>::empty());
        assert(c.pending() =~= Seq::<u8>::empty());
        c
    }

    /// Forgets everything.
    pub fn reset(&mut self)
        ensures
            final(self).wf(),
            final(self).input() == Seq::<u8>::empty(),
            final(self).pending() == Seq::<u8>::empty(),
    {
        self.in_len = 0;
        self.write_len = 0;
        self.write_pos = 0;
        assert(self.input() =~= Seq::<u8>::empty());
        assert(self.pending() =~= Seq::<u8>::empty());
    }

    /// Drops the first `n` received bytes.
    pub fn consume(&mut self, n: usize)
        requires
            old(self).wf(),
            n <= old(self).input().len(),
        ensures
            final(self).wf(),
            final(self).input() == old(self).input().skip(n as int),
            final(self).pending() == old(self).pending(),
    {
        let ghost before = self.input();
        let ghost pending = self.pending();
        if n == self.in_len {
            self.in_len = 0;
        } else if n > 0 {
            let rest: usize = self.in_len - n;
            let mut k: usize = 0;
            while k < rest
                invariant
                    n > 0,
                    k <= rest,
                    self.in_len == rest + n,
                    self.wf(),
                    before == old(self).input(),
                    before.len() == self.in_len,
                    self.pending() == pending,
                    self.in_buf@.len() == CONN_BUF_CAP,
                    forall|j: int| 0 <= j < k ==> #[trigger] self.in_buf@[j] == before[n + j],
                    forall|j: int| k <= j < self.in_len ==> #[trigger] self.in_buf@[j] == before[j],
                decreases rest - k,
            {
                self.in_buf[k] = self.in_buf[n + k];
                k += 1;
            }
            self.in_len = rest;
        }
        assert(self.input() =~= before.skip(n as int));
    }

    /// Whether bytes wait to be sent.
    pub fn has_pending_write(&self) -> (r: bool)
        requires
            self.wf(),
        ensures
            r == (self.pending().len() > 0),
    {
        self.write_pos < self.write_len
    }

    /// How many bytes can still be received.
    pub fn room(&self) -> (r: usize)
        requires
            self.wf(),
        ensures
            r == CONN_BUF_CAP - self.input().len(),
    {
        CONN_BUF_CAP - self.in_len
    }

    /// The bytes received and not yet used.
    pub fn received(&self) -> (r: &[u8])
        requires
            self.wf(),
        ensures
            r@ == self.input(),
            r.len() <= CONN_BUF_CAP,
    {
        let r = &self.in_buf[0..self.in_len];
        assert(r@ =~= self.input());
        r
    }

    /// The bytes not yet sent.
    pub fn unsent(&self) -> (r: &[u8])
        requires
            self.wf(),
        ensures
            r@ == self.pending(),
    {
        &self.write_buf[self.write_pos..self.write_len]
    }

    /// Takes in received bytes.
    pub fn receive(&mut self, bytes: &[u8])
        requires
            old(self).wf(),
            old(self).input().len() + bytes@.len() <= CONN_BUF_CAP,
        ensures
            final(self).wf(),
            final(self).input() == old(self).input() + bytes@,
            final(self).pending() == old(self).pending(),
    {
        let ghost before = self.input();
        let ghost pending = self.pending();
        let start: usize = self.in_len;
        let mut k: usize = 0;
        while k < bytes.len()
            invariant
                k <= bytes.len(),
                start == self.in_len,
                start == before.len(),
                start + bytes.len() <= CONN_BUF_CAP,
                self.wf(),
                self.pending() == pending,
                self.in_buf@.len() == CONN_BUF_CAP,
                forall|j: int| 0 <= j < start ==> #[trigger] self.in_buf@[j] == before[j],
                forall|j: int|
                    start <= j < start + k ==> #[trigger] self.in_buf@[j] == bytes@[j - start],
            decreases bytes.len() - k,
        {
            self.in_buf[start + k] = bytes[k];
            k += 1;
        }
        self.in_len = start + bytes.len();
        assert(self.input() =~= before + bytes@);
    }

    /// Keeps the rest of an answer to be sent later. Returns whether there is room for it.
    pub fn hold(&mut self, rest: &[u8]) -> (r: bool)
        requires
            old(self).wf(),
        ensures
            final(self).wf(),
            final(self).input() == old(self).input(),
            r == can_wait(rest@.len() as int),
            r == (rest@.len() <= WRITE_BUF_CAP),
            final(self).pending() == (if r {
                rest@
            } else {
                old(self).pending()
            }),
    {
        if rest.len() > WRITE_BUF_CAP {
            return false;
        }
        let ghost input = self.input();
        self.write_pos = 0;
        self.write_len = rest.len();
        let mut k: usize = 0;
        while k < rest.len()
            invariant
                k <= rest.len() <= WRITE_BUF_CAP,
                self.wf(),
                self.write_pos == 0,
                self.write_len == rest.len(),
                self.input() == input,
                self.write_buf@.len() == WRITE_BUF_CAP,
                forall|j: int| 0 <= j < k ==> #[trigger] self.write_buf@[j] == rest@[j],
            decreases rest.len() - k,
        {
            self.write_buf[k] = rest[k];
            k += 1;
        }
        assert(self.pending() =~= rest@);
        true
    }

    /// Notes that the first `n` waiting bytes were sent.
    pub fn sent(&mut self, n: usize)
        requires
            old(self).wf(),
            n <= old(self).pending().len(),
        ensures
            final(self).wf(),
            final(self).input() == old(self).input(),
            final(self).pending() == old(self).pending().skip(n as int),
    {
        let ghost before = self.pending();
        self.write_pos = self.write_pos + n;
        if self.write_pos == self.write_len {
            self.write_len = 0;
            self.write_pos = 0;
        }
        assert(self.pending() =~= before.skip(n as int));
    }
}

} // verus!
