//! The replicated state machine: a FIFO queue of strings.

use vstd::prelude::*;

verus! {

/// Outcome of an operation on the replicated queue.
#[derive(Clone, Copy, Debug, PartialEq, Eq, Structural)]
pub enum Response {
    Success,
    Failure,
}

/// FIFO of string payloads: the replicated state machine.
pub struct MessageQueue {
    queue: Vec<String>,
}

impl View for MessageQueue {
    type V = Seq<Seq<char>>;

    closed spec fn view(&self) -> Seq<Seq<char>> {
        self.queue@.map_values(|s: String| s@)
    }
}

impl MessageQueue {
    /// An empty queue.
    pub fn new() -> (r: Self)
        ensures
            r@ == Seq::<Seq<char>>::empty(),
    {
        MessageQueue { queue: Vec::new() }
    }

    /// Appends `message` at the tail; always succeeds.
    pub fn push(&mut self, message: String) -> (r: Response)
        ensures
            final(self)@ == old(self)@.push(message@),
            r == Response::Success,
    {
        self.queue.push(message);
        proof {
            assert(self.queue@.map_values(|s: String| s@) =~= old(self).queue@.map_values(|s: String| s@).push(message@));
        }
        Response::Success
    }

    /// Removes and returns the head; fails when the queue is empty.
    pub fn pop(&mut self) -> (r: Result<String, Response>)
        ensures
            old(self)@.len() == 0 ==> r == Err::<String, Response>(Response::Failure) && final(self)@ == old(self)@,
            old(self)@.len() > 0 ==> r is Ok && r->Ok_0@ == old(self)@[0] && final(self)@ == old(self)@.drop_first(),
    {
        if self.queue.len() == 0 {
            Err(Response::Failure)
        } else {
            let head = self.queue.remove(0);
            proof {
                assert(self.queue@.map_values(|s: String| s@) =~= old(self).queue@.map_values(|s: String| s@).drop_first());
            }
            Ok(head)
        }
    }

    pub fn len(&self) -> (r: u64)
        ensures
            r == self@.len(),
    {
        self.queue.len() as u64
    }

    /// Whether the queue holds no message.
    pub fn is_empty(&self) -> (r: bool)
        ensures
            r == (self@.len() == 0),
    {
        self.queue.len() == 0
    }
}

} // verus!
