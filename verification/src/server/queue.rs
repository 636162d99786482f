//! The queue of messages injected into the front state machine, handled before
//! new messages from the connection.
use vstd::prelude::*;
use std::collections::VecDeque;

verus! {

/// Messages injected to be handled next, oldest first.
pub struct InjectableQueue<T> {
    queue: VecDeque<T>,
}

impl<T> View for InjectableQueue<T> {
    type V = Seq<T>;

    closed spec fn view(&self) -> Seq<T> {
        self.queue@
    }
}

impl<T> InjectableQueue<T> {
    /// No message injected.
    pub fn new() -> (q: Self)
        ensures
            q@ == Seq::<T>::empty(),
    {
        InjectableQueue { queue: VecDeque::new() }
    }

    /// Injects a message, to be handled after those injected before it.
    pub fn inject(&mut self, elt: T)
        ensures
            final(self)@ == old(self)@.push(elt),
    {
        self.queue.push_back(elt);
    }

    /// The oldest injected message, taken out; none when nothing is injected (a
    /// new message is then to be received instead).
    pub fn pop(&mut self) -> (r: Option<T>)
        ensures
            old(self)@.len() == 0 ==> r is None && final(self)@ == old(self)@,
            old(self)@.len() > 0 ==> r == Some(old(self)@[0]) && final(self)@ == old(self)@.drop_first(),
    {
        self.queue.pop_front()
    }
}

/// The queue is first in, first out: injecting a message does not change which
/// message comes out next, unless the queue was empty, in which case the
/// injected one does; and injecting then taking out is the same as taking out
/// then injecting, for a queue that is not empty.
pub proof fn lemma_queue_fifo<T>(q: Seq<T>, x: T)
    ensures
        q.len() > 0 ==> q.push(x)[0] == q[0],
        q.len() == 0 ==> q.push(x)[0] == x,
        q.len() > 0 ==> q.push(x).drop_first() == q.drop_first().push(x),
{
    if q.len() > 0 {
        assert(q.push(x).drop_first() =~= q.drop_first().push(x));
    }
}

} // verus!
