//! The queue of outgoing messages and the decision, at each turn of the
//! writer, between waiting, sending the next message and flushing.

use std::collections::VecDeque;
use vstd::prelude::*;

verus! {

/// What the writer does next.
#[derive(Debug, Clone, Copy, PartialEq, Eq, Structural)]
pub enum WriteStep {
    /// Nothing is queued and nothing is waiting to be flushed: wait.
    Idle,
    /// Take the front message off the queue and hand it to the sink.
    Send,
    /// A message was handed to the sink: flush it.
    Flush,
}

/// Messages waiting to be written, front first, and whether a message was
/// handed to the sink and not yet flushed.
pub struct QueuedWrite<M> {
    queue: VecDeque<M>,
    is_flush: bool,
}

impl<M> QueuedWrite<M> {
    /// The messages waiting, front first.
    pub closed spec fn queued(&self) -> Seq<M> {
        self.queue@
    }

    /// Whether a message was handed to the sink and not yet flushed.
    pub closed spec fn flushing(&self) -> bool {
        self.is_flush
    }

    /// Nothing queued, nothing to flush.
    pub fn new() -> (q: Self)
        ensures
            q.queued() == Seq::<M>::empty(),
            !q.flushing(),
    {
        QueuedWrite { queue: VecDeque::new(), is_flush: false }
    }

    /// Queues `msg` behind the messages already waiting.
    pub fn push(&mut self, msg: M)
        ensures
            final(self).queued() == old(self).queued().push(msg),
            final(self).flushing() == old(self).flushing(),
    {
        self.queue.push_back(msg);
    }

    /// Takes the front message off the queue (the queue must not be empty).
    pub fn pop(&mut self) -> (msg: M)
        requires
            old(self).queued().len() > 0,
        ensures
            msg == old(self).queued()[0],
            final(self).queued() == old(self).queued().drop_first(),
            final(self).flushing() == old(self).flushing(),
    {
        let front = self.queue.pop_front();
        assert(self.queue@ =~= old(self).queued().drop_first());
        front.unwrap()
    }

    /// The writer's next step: flush after a send; otherwise send while
    /// messages wait, and wait when none do.
    pub fn next_step(&self) -> (step: WriteStep)
        ensures
            step == (if self.flushing() {
                WriteStep::Flush
            } else if self.queued().len() == 0 {
                WriteStep::Idle
            } else {
                WriteStep::Send
            }),
    {
        if self.is_flush {
            WriteStep::Flush
        } else if self.queue.len() == 0 {
            WriteStep::Idle
        } else {
            WriteStep::Send
        }
    }

    /// Records that a message was handed to the sink: flush next.
    pub fn mark_sent(&mut self)
        ensures
            final(self).queued() == old(self).queued(),
            final(self).flushing(),
    {
        self.is_flush = true;
    }

    /// Records that the sink was flushed.
    pub fn mark_flushed(&mut self)
        ensures
            final(self).queued() == old(self).queued(),
            !final(self).flushing(),
    {
        self.is_flush = false;
    }
}

/// What the writer does to the sink at one turn.
pub enum WriteEvent<M> {
    /// It handed this message to the sink.
    Sent(M),
    /// It flushed the sink.
    Flushed,
}

/// What the writer does over `turns` turns, from the waiting messages `q`
/// and the flag `flushing`, as `next_step` decides and `pop`, `mark_sent`
/// and `mark_flushed` record, with a sink that accepts everything: after a
/// send it flushes; otherwise it sends the front message while one waits;
/// with nothing waiting it waits, and nothing more happens.
pub open spec fn writer_trace<M>(q: Seq<M>, flushing: bool, turns: nat) -> Seq<WriteEvent<M>>
    decreases turns,
{
    if turns == 0 {
        Seq::empty()
    } else if flushing {
        seq![WriteEvent::Flushed] + writer_trace(q, false, (turns - 1) as nat)
    } else if q.len() == 0 {
        Seq::empty()
    } else {
        seq![WriteEvent::Sent(q[0])] + writer_trace(q.drop_first(), true, (turns - 1) as nat)
    }
}

/// Each message of `q` in order, each followed by a flush.
pub open spec fn sent_and_flushed<M>(q: Seq<M>) -> Seq<WriteEvent<M>>
    decreases q.len(),
{
    if q.len() == 0 {
        Seq::empty()
    } else {
        seq![WriteEvent::Sent(q[0]), WriteEvent::Flushed] + sent_and_flushed(q.drop_first())
    }
}

/// The writer sends the waiting messages in the order they were queued,
/// each exactly once and each followed by a flush before the next send;
/// then it waits, however many more turns it is given.
pub proof fn lemma_writer_sends_in_order<M>(q: Seq<M>, extra: nat)
    ensures
        writer_trace(q, false, 2 * q.len() + extra) == sent_and_flushed(q),
    decreases q.len(),
{
    if q.len() == 0 {
        assert(writer_trace(q, false, extra) =~= Seq::<WriteEvent<M>>::empty());
    } else {
        let n = (2 * q.len() + extra) as nat;
        let rest = q.drop_first();
        lemma_writer_sends_in_order(rest, extra);
        assert(((n - 1) as nat - 1) as nat == 2 * rest.len() + extra);
        assert(writer_trace(rest, true, (n - 1) as nat) == seq![WriteEvent::<M>::Flushed]
            + writer_trace(rest, false, 2 * rest.len() + extra));
        assert(seq![WriteEvent::Sent(q[0])] + (seq![WriteEvent::<M>::Flushed] + sent_and_flushed(rest))
            =~= seq![WriteEvent::Sent(q[0]), WriteEvent::Flushed] + sent_and_flushed(rest));
    }
}

/// Messages leave the queue in the order they were queued: after `msg` is
/// queued behind `waiting`, the messages popped are those of `waiting`, in
/// order, and then `msg`.
pub proof fn lemma_queue_is_fifo<M>(waiting: Seq<M>, msg: M)
    ensures
        forall|i: int| 0 <= i < waiting.len() ==> #[trigger] waiting.push(msg).skip(i)[0] == waiting[i],
        waiting.push(msg).skip(waiting.len() as int) == seq![msg],
{
    assert(waiting.push(msg).skip(waiting.len() as int) =~= seq![msg]);
}

} // verus!
