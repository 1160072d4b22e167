//! Commands, log entries, and what applying them does to the queue.

use vstd::prelude::*;

verus! {

/// A command of the replicated log, opaque to consensus and read by the state machine.
pub enum Command {
    Enqueue(String),
    Dequeue,
    AddMember(u64),
}

/// What a command means.
pub enum CommandView {
    Enqueue(Seq<char>),
    Dequeue,
    AddMember(u64),
}

impl View for Command {
    type V = CommandView;

    open spec fn view(&self) -> CommandView {
        match self {
            Command::Enqueue(s) => CommandView::Enqueue(s@),
            Command::Dequeue => CommandView::Dequeue,
            Command::AddMember(m) => CommandView::AddMember(*m),
        }
    }
}

impl Command {
    pub fn copy(&self) -> (r: Command)
        ensures
            r@ == self@,
    {
        match self {
            Command::Enqueue(s) => Command::Enqueue(s.clone()),
            Command::Dequeue => Command::Dequeue,
            Command::AddMember(m) => Command::AddMember(*m),
        }
    }
}

/// One entry of the log: the term it was created in and its command.
pub struct LogEntry {
    pub term: u64,
    pub command: Command,
}

pub type EntryView = (u64, CommandView);

impl View for LogEntry {
    type V = EntryView;

    open spec fn view(&self) -> EntryView {
        (self.term, self.command@)
    }
}

impl LogEntry {
    pub fn copy(&self) -> (r: LogEntry)
        ensures
            r@ == self@,
    {
        LogEntry { term: self.term, command: self.command.copy() }
    }
}

pub open spec fn entries_view(v: Seq<LogEntry>) -> Seq<EntryView> {
    v.map_values(|e: LogEntry| e@)
}

/// Term of the last entry, 0 for an empty log.
pub open spec fn last_term(log: Seq<EntryView>) -> u64 {
    if log.len() == 0 {
        0
    } else {
        log.last().0
    }
}

/// The voting rule on logs: a candidate's log is at least as up to date as the
/// voter's when its last term is higher, or equal with an index at least as high.
pub open spec fn up_to_date(cand_term: u64, cand_index: u64, my_term: u64, my_index: u64) -> bool {
    cand_term > my_term || (cand_term == my_term && cand_index >= my_index)
}

pub fn is_up_to_date(cand_term: u64, cand_index: u64, my_term: u64, my_index: u64) -> (r: bool)
    ensures
        r == up_to_date(cand_term, cand_index, my_term, my_index),
{
    cand_term > my_term || (cand_term == my_term && cand_index >= my_index)
}

/// A strict majority of a cluster of `size` members.
pub open spec fn is_majority(count: nat, size: nat) -> bool {
    count * 2 > size
}

/// The queue after applying `cmd`: a push appends, a pop on a non-empty queue
/// removes the head, anything else leaves it as it is.
pub open spec fn apply_command(q: Seq<Seq<char>>, cmd: CommandView) -> Seq<Seq<char>> {
    match cmd {
        CommandView::Enqueue(p) => q.push(p),
        CommandView::Dequeue => if q.len() > 0 {
            q.drop_first()
        } else {
            q
        },
        CommandView::AddMember(_) => q,
    }
}

/// The queue after applying the entries of `log` in order to an empty queue.
pub open spec fn queue_after(log: Seq<EntryView>) -> Seq<Seq<char>>
    decreases log.len(),
{
    if log.len() == 0 {
        Seq::empty()
    } else {
        apply_command(queue_after(log.drop_last()), log.last().1)
    }
}

} // verus!
