use vstd::prelude::*;

verus! {

/// A typed, named publish/subscribe channel over one message type.
///
/// This is the channel contract the state machines are written against:
/// `send` is fire-and-forget and appends one message, `receive` is a single
/// non-blocking poll that drains one message at a time, oldest first, and
/// reports absence of a message as a normal outcome.  This in-memory
/// instance queues messages loss-free; a transport-backed instance may
/// additionally lose messages or fail locally, which the machines tolerate
/// through their event interfaces.
pub struct Channel<T> {
    /// Messages sent and not yet received, oldest first.
    pub queue: Vec<T>,
}

impl<T> Channel<T> {
    /// A fresh channel holds no messages.
    pub fn new() -> (c: Self)
        ensures
            c.queue@ == Seq::<T>::empty(),
    {
        Channel { queue: Vec::new() }
    }

    /// Publishes one message: fire-and-forget, no wait for any subscriber.
    pub fn send(&mut self, msg: T)
        ensures
            final(self).queue@ == old(self).queue@.push(msg),
    {
        self.queue.push(msg);
    }

    /// A single non-blocking poll: removes and returns the oldest queued
    /// message, or returns `None` immediately if none is queued.
    pub fn receive(&mut self) -> (r: Option<T>)
        ensures
            old(self).queue@.len() == 0 ==> r is None && *final(self) == *old(self),
            old(self).queue@.len() > 0 ==> r == Some(old(self).queue@[0])
                && final(self).queue@ == old(self).queue@.drop_first(),
    {
        if self.queue.len() == 0 {
            None
        } else {
            Some(self.queue.remove(0))
        }
    }

    /// The number of queued messages.
    pub fn len(&self) -> (n: usize)
        ensures
            n == self.queue@.len(),
    {
        self.queue.len()
    }
}

} // verus!
