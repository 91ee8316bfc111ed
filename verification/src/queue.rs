//! Message queues bridging host-loop ticks and network polls.
//!
//! The outbound queue holds what the application has decided to send; the
//! host loop drains it fully once per tick, whatever each send's outcome.
//! The inbound queue holds what the network has delivered; the application
//! drains it at its own pace.  Both are FIFO: within one connection, the
//! order messages were queued is the order they travel.

use std::collections::VecDeque;
use vstd::prelude::*;

verus! {

/// Outbound FIFO: messages waiting to go out, fully drained every tick.
/// On a server `S` is a `(ClientId, payload)` pair; on a client it is the
/// payload alone, the single peer being implicit.
pub struct MessagesToSend<S> {
    messages: VecDeque<S>,
}

impl<S> View for MessagesToSend<S> {
    type V = Seq<S>;

    closed spec fn view(&self) -> Seq<S> {
        self.messages@
    }
}

impl<S> MessagesToSend<S> {
    /// An empty queue.
    pub fn new() -> (r: MessagesToSend<S>)
        ensures
            r@ == Seq::<S>::empty(),
    {
        MessagesToSend { messages: VecDeque::new() }
    }

    /// Queue one message at the back.
    pub fn push(&mut self, message: S)
        ensures
            final(self)@ == old(self)@.push(message),
    {
        self.messages.push_back(message);
    }

    /// Take every queued message, front first, leaving the queue empty.
    /// A tick sends each in turn; a failed send still empties its entry —
    /// delivery is at-most-once, best-effort, never retried.
    pub fn drain(&mut self) -> (r: Vec<S>)
        ensures
            r@ == old(self)@,
            final(self)@ == Seq::<S>::empty(),
    {
        let mut out: Vec<S> = Vec::new();
        loop
            invariant
                out@ + self.messages@ == old(self)@,
            decreases self.messages@.len(),
        {
            match self.messages.pop_front() {
                Some(m) => {
                    out.push(m);
                },
                None => {
                    proof {
                        assert(out@ =~= old(self)@);
                    }
                    return out;
                },
            }
        }
    }

    /// How many messages wait.
    pub fn len(&self) -> (n: usize)
        ensures
            n == self@.len(),
    {
        self.messages.len()
    }
}

impl<S> Default for MessagesToSend<S> {
    fn default() -> (r: MessagesToSend<S>)
        ensures
            r@ == Seq::<S>::empty(),
    {
        MessagesToSend::new()
    }
}

/// Inbound FIFO: messages the network has delivered, waiting for the
/// application.  No per-tick drain is mandated, so it grows while unread.
/// On a server `R` is a `(ClientId, payload)` pair; on a client it is the
/// payload alone.
pub struct MessagesToRead<R> {
    messages: VecDeque<R>,
}

impl<R> View for MessagesToRead<R> {
    type V = Seq<R>;

    closed spec fn view(&self) -> Seq<R> {
        self.messages@
    }
}

impl<R> MessagesToRead<R> {
    /// An empty queue.
    pub fn new() -> (r: MessagesToRead<R>)
        ensures
            r@ == Seq::<R>::empty(),
    {
        MessagesToRead { messages: VecDeque::new() }
    }

    /// The receive phase appends one delivered message at the back.
    pub fn push(&mut self, message: R)
        ensures
            final(self)@ == old(self)@.push(message),
    {
        self.messages.push_back(message);
    }

    /// The application takes the oldest message, or `None` when the queue
    /// is empty.
    pub fn pop(&mut self) -> (r: Option<R>)
        ensures
            old(self)@.len() == 0 ==> r is None && final(self)@ == old(self)@,
            old(self)@.len() > 0 ==> r == Some(old(self)@[0]) && final(self)@ == old(
                self,
            )@.subrange(1, old(self)@.len() as int),
    {
        self.messages.pop_front()
    }

    /// How many messages wait.
    pub fn len(&self) -> (n: usize)
        ensures
            n == self@.len(),
    {
        self.messages.len()
    }
}

impl<R> Default for MessagesToRead<R> {
    fn default() -> (r: MessagesToRead<R>)
        ensures
            r@ == Seq::<R>::empty(),
    {
        MessagesToRead::new()
    }
}

} // verus!
