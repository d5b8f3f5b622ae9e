//! Connection pairs, their per-connection buffers, and the worker's table.
use vstd::prelude::*;
use std::collections::HashMap;
use crate::indexed_vec::IndexedVec;

verus! {

broadcast use vstd::std_specs::hash::group_hash_axioms;

/// The token of one half of pair `id`: even for the client side, odd for
/// the server side.
pub open spec fn pair_token(id: nat, inbound: bool) -> nat {
    2 * id + if inbound { 0nat } else { 1nat }
}

/// One half of an intercepted session, without its socket.
pub struct ConnectionContext {
    pub token_self: usize,
    pub token_other: usize,
    pub compression_threshold: i32,
    pub state: u8,
    pub should_close: bool,
    /// Bytes that arrived but did not yet form a whole frame.
    pub read_buffering: IndexedVec,
    /// Bytes waiting for the socket to become writable.
    pub write_buffering: IndexedVec,
    pub is_writable: bool,
    /// The client-to-server half.
    pub inbound: bool,
}

/// How a non-blocking write attempt ended.
#[derive(Clone, Copy, Debug, PartialEq, Eq, Structural)]
pub enum WriteOutcome {
    /// Everything was written.
    Done,
    /// The socket would block after the given number of bytes.
    WouldBlock(usize),
    /// The socket failed.
    Failed,
}

impl ConnectionContext {
    /// Both buffers are well formed.
    pub open spec fn wf(&self) -> bool {
        self.read_buffering.wf() && self.write_buffering.wf()
    }

    /// A fresh half: handshaking, uncompressed, writable, empty buffers.
    pub fn new(token_self: usize, token_other: usize, inbound: bool) -> (r: ConnectionContext)
        ensures
            r.wf(),
            r.token_self == token_self,
            r.token_other == token_other,
            r.inbound == inbound,
            r.state == 0,
            r.compression_threshold == 0,
            !r.should_close,
            r.is_writable,
            r.read_buffering.readable().len() == 0,
            r.write_buffering.readable().len() == 0,
    {
        ConnectionContext {
            token_self,
            token_other,
            compression_threshold: 0,
            state: 0,
            should_close: false,
            read_buffering: IndexedVec::new(),
            write_buffering: IndexedVec::new(),
            is_writable: true,
            inbound,
        }
    }

    /// The two halves of pair `id`, client side first, each naming the other.
    pub fn create_pair(id: usize) -> (r: (ConnectionContext, ConnectionContext))
        requires
            2 * id + 1 <= usize::MAX,
        ensures
            r.0.wf() && r.1.wf(),
            r.0.token_self == pair_token(id as nat, true),
            r.1.token_self == pair_token(id as nat, false),
            r.0.token_other == r.1.token_self,
            r.1.token_other == r.0.token_self,
            r.0.inbound && !r.1.inbound,
            r.0.state == 0 && r.1.state == 0,
            r.0.compression_threshold == 0 && r.1.compression_threshold == 0,
            !r.0.should_close && !r.1.should_close,
            r.0.is_writable && r.1.is_writable,
            r.0.read_buffering.readable().len() == 0,
            r.1.read_buffering.readable().len() == 0,
            r.0.write_buffering.readable().len() == 0,
            r.1.write_buffering.readable().len() == 0,
    {
        let c2s = 2 * id;
        let s2c = 2 * id + 1;
        (ConnectionContext::new(c2s, s2c, true), ConnectionContext::new(s2c, c2s, false))
    }

    /// Records how a write of `packet` went: on a block the unwritten rest
    /// is kept for the next writable event and the socket is marked not
    /// writable; on a failure the connection is marked for closing.
    pub fn record_write(&mut self, packet: &[u8], outcome: WriteOutcome)
        requires
            old(self).wf(),
            outcome matches WriteOutcome::WouldBlock(n) ==> n <= packet@.len(),
        ensures
            final(self).wf(),
            final(self).token_self == old(self).token_self,
            final(self).token_other == old(self).token_other,
            final(self).state == old(self).state,
            final(self).compression_threshold == old(self).compression_threshold,
            final(self).inbound == old(self).inbound,
            final(self).read_buffering == old(self).read_buffering,
            match outcome {
                WriteOutcome::Done => final(self).write_buffering == old(self).write_buffering
                    && final(self).is_writable == old(self).is_writable && final(self).should_close
                    == old(self).should_close,
                WriteOutcome::WouldBlock(n) => final(self).write_buffering.readable()
                    == old(self).write_buffering.readable() + packet@.skip(n as int)
                    && !final(self).is_writable && final(self).should_close
                    == old(self).should_close,
                WriteOutcome::Failed => final(self).should_close && final(self).write_buffering
                    == old(self).write_buffering && final(self).is_writable
                    == old(self).is_writable,
            },
    {
        match outcome {
            WriteOutcome::Done => {},
            WriteOutcome::WouldBlock(n) => {
                buffer_write_slice(self, packet, n);
                self.is_writable = false;
            },
            WriteOutcome::Failed => {
                self.should_close = true;
            },
        }
    }
}

/// Stores unread bytes: the readable bytes of `buffering_buf` are appended
/// to the connection's read buffer.
pub fn buffer_read(ctx: &mut ConnectionContext, buffering_buf: &IndexedVec)
    requires
        old(ctx).wf(),
        buffering_buf.wf(),
    ensures
        final(ctx).wf(),
        final(ctx).read_buffering.readable() == old(ctx).read_buffering.readable()
            + buffering_buf.readable(),
        final(ctx).write_buffering == old(ctx).write_buffering,
        final(ctx).token_self == old(ctx).token_self,
        final(ctx).token_other == old(ctx).token_other,
        final(ctx).inbound == old(ctx).inbound,
        final(ctx).is_writable == old(ctx).is_writable,
        final(ctx).state == old(ctx).state,
        final(ctx).compression_threshold == old(ctx).compression_threshold,
        final(ctx).should_close == old(ctx).should_close,
{
    ctx.read_buffering.put_slice(buffering_buf.as_slice());
}

/// Recalls unread bytes into `buffering_buf` and empties the read buffer.
pub fn unbuffer_read(ctx: &mut ConnectionContext, buffering_buf: &mut IndexedVec)
    requires
        old(ctx).wf(),
        old(buffering_buf).wf(),
    ensures
        final(ctx).wf(),
        final(buffering_buf).wf(),
        final(buffering_buf).readable() == old(buffering_buf).readable()
            + old(ctx).read_buffering.readable(),
        final(buffering_buf).reader() == old(buffering_buf).reader(),
        final(ctx).read_buffering.readable().len() == 0,
        final(ctx).write_buffering == old(ctx).write_buffering,
        final(ctx).state == old(ctx).state,
        final(ctx).compression_threshold == old(ctx).compression_threshold,
        final(ctx).should_close == old(ctx).should_close,
{
    buffering_buf.put_slice(ctx.read_buffering.as_slice());
    ctx.read_buffering.reset();
}

/// Stores unwritten bytes: the readable bytes of `buffering_buf` are
/// appended to the connection's write buffer.
pub fn buffer_write(ctx: &mut ConnectionContext, buffering_buf: &IndexedVec)
    requires
        old(ctx).wf(),
        buffering_buf.wf(),
    ensures
        final(ctx).wf(),
        final(ctx).write_buffering.readable() == old(ctx).write_buffering.readable()
            + buffering_buf.readable(),
        final(ctx).read_buffering == old(ctx).read_buffering,
        final(ctx).state == old(ctx).state,
        final(ctx).compression_threshold == old(ctx).compression_threshold,
        final(ctx).should_close == old(ctx).should_close,
        final(ctx).is_writable == old(ctx).is_writable,
{
    ctx.write_buffering.put_slice(buffering_buf.as_slice());
}

/// Stores the bytes of `buffering_buf` from `start` on.
pub fn buffer_write_slice(ctx: &mut ConnectionContext, buffering_buf: &[u8], start: usize)
    requires
        old(ctx).wf(),
        start <= buffering_buf@.len(),
    ensures
        final(ctx).wf(),
        final(ctx).write_buffering.readable() == old(ctx).write_buffering.readable()
            + buffering_buf@.skip(start as int),
        final(ctx).read_buffering == old(ctx).read_buffering,
        final(ctx).token_self == old(ctx).token_self,
        final(ctx).token_other == old(ctx).token_other,
        final(ctx).state == old(ctx).state,
        final(ctx).compression_threshold == old(ctx).compression_threshold,
        final(ctx).should_close == old(ctx).should_close,
        final(ctx).is_writable == old(ctx).is_writable,
        final(ctx).inbound == old(ctx).inbound,
{
    let slice = vstd::slice::slice_subrange(buffering_buf, start, buffering_buf.len());
    ctx.write_buffering.put_slice(slice);
    assert(slice@ =~= buffering_buf@.skip(start as int));
}

/// Recalls unwritten bytes into `buffering_buf` and empties the write buffer.
pub fn unbuffer_write(ctx: &mut ConnectionContext, buffering_buf: &mut IndexedVec)
    requires
        old(ctx).wf(),
        old(buffering_buf).wf(),
    ensures
        final(ctx).wf(),
        final(buffering_buf).wf(),
        final(buffering_buf).readable() == old(buffering_buf).readable()
            + old(ctx).write_buffering.readable(),
        final(ctx).write_buffering.readable().len() == 0,
        final(ctx).read_buffering == old(ctx).read_buffering,
        final(ctx).state == old(ctx).state,
        final(ctx).compression_threshold == old(ctx).compression_threshold,
        final(ctx).should_close == old(ctx).should_close,
{
    buffering_buf.put_slice(ctx.write_buffering.as_slice());
    ctx.write_buffering.reset();
}

/// Copies `from` to the end of the readable bytes of `to`.
pub fn copy_slice_to(from: &[u8], to: &mut IndexedVec)
    requires
        old(to).wf(),
    ensures
        final(to).wf(),
        final(to).readable() == old(to).readable() + from@,
        final(to).reader() == old(to).reader(),
        final(to).data().subrange(0, old(to).writer() as int) == old(to).data().subrange(
            0,
            old(to).writer() as int,
        ),
{
    to.put_slice(from);
}

/// Copies `from` to the end of the readable bytes of `to`.
pub fn write_slice(to: &mut IndexedVec, from: &[u8])
    requires
        old(to).wf(),
    ensures
        final(to).wf(),
        final(to).readable() == old(to).readable() + from@,
        final(to).reader() == old(to).reader(),
        final(to).data().subrange(0, old(to).writer() as int) == old(to).data().subrange(
            0,
            old(to).writer() as int,
        ),
{
    to.put_slice(from);
}

/// Round-robin choice of the worker for each accepted connection.
pub struct Dispatcher {
    pub next_thread: usize,
    pub thread_count: usize,
}

/// The workers that `k` accepts starting at worker `start` go to.
pub open spec fn dispatch_order(start: nat, n: nat, k: nat) -> Seq<nat> {
    Seq::new(k, |i: int| ((start + i) % (n as int)) as nat)
}

/// Picks out worker `w`.
pub open spec fn is_worker(w: nat) -> spec_fn(nat) -> bool {
    |x: nat| x == w
}

/// How many of those `k` accepts go to worker `w`.
pub open spec fn received_count(start: nat, n: nat, k: nat, w: nat) -> nat {
    dispatch_order(start, n, k).filter(is_worker(w)).len()
}

impl Dispatcher {
    pub fn new(thread_count: usize) -> (r: Dispatcher)
        requires
            thread_count > 0,
        ensures
            r.next_thread == 0,
            r.thread_count == thread_count,
    {
        Dispatcher { next_thread: 0, thread_count }
    }

    /// The worker for the next connection; the counter moves on modulo the
    /// number of workers.
    pub fn pick(&mut self) -> (r: usize)
        requires
            old(self).thread_count > 0,
            old(self).next_thread < old(self).thread_count,
        ensures
            r == old(self).next_thread,
            final(self).thread_count == old(self).thread_count,
            final(self).next_thread == (old(self).next_thread + 1) % (old(self).thread_count as int),
    {
        let r = self.next_thread;
        self.next_thread = (self.next_thread + 1) % self.thread_count;
        r
    }
}

/// After a burst of `k` accepts from a fresh dispatcher over `n >= k`
/// workers, the first `k` workers each receive exactly one connection.
pub proof fn lemma_burst_spreads(n: nat, k: nat)
    requires
        0 < k <= n,
    ensures
        forall|w: nat| w < k ==> #[trigger] received_count(0, n, k, w) == 1,
        forall|i: int| 0 <= i < k ==> #[trigger] dispatch_order(0, n, k)[i] == i,
{
    let s = dispatch_order(0, n, k);
    assert forall|i: int| 0 <= i < k implies #[trigger] s[i] == i by {
        vstd::arithmetic::div_mod::lemma_small_mod(i as nat, n);
    }
    assert(s =~= Seq::new(k, |i: int| i as nat));
    assert(dispatch_order(0, n, k) == Seq::new(k, |i: int| i as nat));
    assert forall|w: nat| w < k implies #[trigger] received_count(0, n, k, w) == 1 by {
        lemma_filter_identity(k, w);
    }
}

proof fn lemma_filter_identity(k: nat, w: nat)
    requires
        w < k,
    ensures
        Seq::new(k, |i: int| i as nat).filter(is_worker(w)).len() == 1,
    decreases k,
{
    let s = Seq::new(k, |i: int| i as nat);
    let t = Seq::new((k - 1) as nat, |i: int| i as nat);
    assert(s =~= t.push((k - 1) as nat));
    assert(s.drop_last() =~= t);
    reveal(Seq::filter);
    if w < k - 1 {
        lemma_filter_identity((k - 1) as nat, w);
    } else {
        assert(t.all(|x: nat| !is_worker(w)(x)));
        t.lemma_all_neg_filter_empty(is_worker(w));
    }
}

/// A half just created under `token_self`, naming its peer `token_other`:
/// handshaking, uncompressed, open, writable, with empty buffers.
pub open spec fn fresh_half(c: ConnectionContext, token_self: usize, token_other: usize, inbound: bool) -> bool {
    &&& c.wf()
    &&& c.token_self == token_self
    &&& c.token_other == token_other
    &&& c.inbound == inbound
    &&& c.state == 0
    &&& c.compression_threshold == 0
    &&& !c.should_close
    &&& c.is_writable
    &&& c.read_buffering.readable().len() == 0
    &&& c.write_buffering.readable().len() == 0
}

/// The connections one worker owns, by token.
pub struct NetworkThreadContext {
    pub connections: HashMap<usize, ConnectionContext>,
    /// The id the next pair gets.
    pub id_counter: usize,
}

impl NetworkThreadContext {
    pub fn new() -> (r: NetworkThreadContext)
        ensures
            r.connections@ == Map::<usize, ConnectionContext>::empty(),
            r.id_counter == 0,
    {
        NetworkThreadContext { connections: HashMap::new(), id_counter: 0 }
    }

    /// Creates the pair for a new connection and registers both halves
    /// under their tokens; returns the pair id.
    pub fn create_pair(&mut self) -> (r: usize)
        requires
            2 * old(self).id_counter + 1 < usize::MAX,
        ensures
            r == old(self).id_counter,
            final(self).id_counter == old(self).id_counter + 1,
            final(self).connections@.contains_key((2 * r) as usize),
            final(self).connections@.contains_key((2 * r + 1) as usize),
            fresh_half(final(self).connections@[(2 * r) as usize], (2 * r) as usize, (2 * r + 1) as usize, true),
            fresh_half(final(self).connections@[(2 * r + 1) as usize], (2 * r + 1) as usize, (2 * r) as usize, false),
            final(self).connections@.remove((2 * r) as usize).remove((2 * r + 1) as usize)
                == old(self).connections@.remove((2 * r) as usize).remove((2 * r + 1) as usize),
    {
        let id = self.id_counter;
        let (c2s, s2c) = ConnectionContext::create_pair(id);
        let t1 = c2s.token_self;
        let t2 = s2c.token_self;
        self.connections.insert(t1, c2s);
        self.connections.insert(t2, s2c);
        self.id_counter = id + 1;
        assert(self.connections@.remove(t1).remove(t2) =~= old(self).connections@.remove(t1).remove(t2));
        id
    }

    /// Takes the connection under `token` out of the table.
    pub fn take(&mut self, token: usize) -> (r: Option<ConnectionContext>)
        ensures
            final(self).connections@ == old(self).connections@.remove(token),
            final(self).id_counter == old(self).id_counter,
            match r {
                Some(c) => old(self).connections@.contains_key(token) && c
                    == old(self).connections@[token],
                None => !old(self).connections@.contains_key(token),
            },
    {
        self.connections.remove(&token)
    }

    /// Ends the handling of an event on `player` (and on its peer `other`,
    /// when it was taken out too): when either half is marked for closing,
    /// both halves leave the table; otherwise both go back under their
    /// tokens.
    pub fn settle(&mut self, player: ConnectionContext, other: Option<ConnectionContext>)
        requires
            player.token_self != player.token_other,
        ensures
            final(self).id_counter == old(self).id_counter,
            ({
                let closing = player.should_close || (other matches Some(o) && o.should_close);
                let ts = player.token_self;
                let to = player.token_other;
                &&& closing ==> final(self).connections@ == old(self).connections@.remove(ts).remove(to)
                &&& !closing && other is Some ==> final(self).connections@ == old(
                    self,
                ).connections@.insert(to, other->0).insert(ts, player)
                &&& !closing && other is None ==> final(self).connections@ == old(
                    self,
                ).connections@.insert(ts, player)
            }),
    {
        let closing = player.should_close || match &other {
            Some(o) => o.should_close,
            None => false,
        };
        let t_self = player.token_self;
        let t_other = player.token_other;
        if closing {
            self.connections.remove(&t_self);
            self.connections.remove(&t_other);
            assert(self.connections@ =~= old(self).connections@.remove(t_self).remove(t_other));
        } else {
            match other {
                Some(o) => {
                    self.connections.insert(t_other, o);
                },
                None => {},
            }
            self.connections.insert(t_self, player);
        }
    }
}

} // verus!
