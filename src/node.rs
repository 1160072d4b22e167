//! The node's role state machine: elections, replication, commitment and
//! application of committed entries.

use vstd::prelude::*;

use crate::log::{
    apply_command, is_up_to_date, last_term, queue_after, up_to_date, Command, CommandView,
    EntryView, LogEntry, entries_view, is_majority,
};
use crate::message_queue::MessageQueue;

verus! {

/// Time units between two heartbeats of a leader.
pub const HEARTBEAT_INTERVAL: u64 = 2;
/// Bounds of the election timeout, in time units; each election draws a new one.
pub const ELECTION_TIMEOUT_MIN: u64 = 5;
pub const ELECTION_TIMEOUT_MAX: u64 = 8;
/// Time units a peer RPC may take before it counts as lost.
pub const RPC_TIMEOUT: u64 = 2;
/// Longest log a node keeps, so that every index fits in a `u64`.
pub const MAX_LOG_LEN: u64 = 0x7fff_ffff_ffff;

/// The role a node plays; exactly one at a time.
#[derive(Clone, Copy, Debug, PartialEq, Eq, Structural)]
pub enum Role {
    Follower,
    Candidate,
    Leader,
}

/// Why a request was not served.
#[derive(Clone, Copy, Debug, PartialEq, Eq, Structural)]
pub enum RaftError {
    /// Sent to a node that is not the leader; carries the leader it knows.
    NotLeader(u64),
    /// Sent to a node that knows no leader.
    NoLeader,
    /// A dequeue found the queue empty.
    QueueEmpty,
    /// A peer did not answer in time.
    RpcTimeout,
    /// The log holds `MAX_LOG_LEN` entries.
    LogFull,
}

/// A `RequestVote` RPC of a candidate.
#[derive(Clone, Copy, Debug, PartialEq, Eq, Structural)]
pub struct VoteRequest {
    pub term: u64,
    pub candidate: u64,
    pub last_log_index: u64,
    pub last_log_term: u64,
}

/// Answer to a `RequestVote`, with the voter's term.
#[derive(Clone, Copy, Debug, PartialEq, Eq, Structural)]
pub struct VoteReply {
    pub term: u64,
    pub granted: bool,
}

/// An `AppendEntries` request: heartbeat when `entries` is empty.
pub struct AppendRequest {
    pub term: u64,
    pub leader: u64,
    pub prev_log_index: u64,
    pub prev_log_term: u64,
    pub entries: Vec<LogEntry>,
    pub leader_commit: u64,
}

/// Answer to an `AppendEntries`: the receiver's term, whether it took the entries,
/// and the index up to which its log now agrees with the sender's.
#[derive(Clone, Copy, Debug, PartialEq, Eq, Structural)]
pub struct AppendReply {
    pub term: u64,
    pub success: bool,
    pub match_index: u64,
}

/// What applying one committed entry gave.
#[derive(Debug)]
pub enum ApplyOutcome {
    Pushed,
    Popped(String),
    QueueEmpty,
    MemberAdded(u64),
}

/// What to tell a client that waits on an entry whose outcome has not come yet.
#[derive(Clone, Copy, Debug, PartialEq, Eq, Structural)]
pub enum PendingStatus {
    /// Keep waiting: the entry may still be applied.
    Wait,
    /// Give up: the node lost the lead before the entry was committed.
    Fail(RaftError),
}

/// An election timeout in `[ELECTION_TIMEOUT_MIN, ELECTION_TIMEOUT_MAX]` (four
/// values) from a
/// random draw `x`.
pub open spec fn timeout_of_draw(x: u64) -> u64 {
    (ELECTION_TIMEOUT_MIN + x % 4) as u64
}

/// Computes `timeout_of_draw`.
pub fn timeout_from_draw(x: u64) -> (r: u64)
    ensures
        r == timeout_of_draw(x),
        ELECTION_TIMEOUT_MIN <= r <= ELECTION_TIMEOUT_MAX,
{
    ELECTION_TIMEOUT_MIN + x % (ELECTION_TIMEOUT_MAX - ELECTION_TIMEOUT_MIN + 1)
}

/// One applied entry: its index, the term it was created in, and what it gave.
#[derive(Debug)]
pub struct Applied {
    pub index: u64,
    pub term: u64,
    pub outcome: ApplyOutcome,
}

/// The log holds, at 1-based `index`, an entry created in `term`. Entries of one
/// index and term are the same entry on every node, since a leader creates one
/// entry per index in its term.
pub open spec fn holds_entry(v: NodeView, index: u64, term: u64) -> bool {
    1 <= index <= v.log.len() && v.log[index - 1].0 == term
}

/// What the timer asks the caller to do.
#[derive(Clone, Copy, Debug, PartialEq, Eq, Structural)]
pub enum TickAction {
    Wait,
    RequestVotes(VoteRequest),
    SendHeartbeats,
}

/// The members named by the membership entries of `log`, each once, in order of
/// first appearance.
pub open spec fn member_seq(log: Seq<EntryView>) -> Seq<u64>
    decreases log.len(),
{
    if log.len() == 0 {
        Seq::empty()
    } else {
        let s = member_seq(log.drop_last());
        match log.last().1 {
            CommandView::AddMember(m) => if s.contains(m) {
                s
            } else {
                s.push(m)
            },
            _ => s,
        }
    }
}

/// How many of `members` appear in `votes`.
pub open spec fn count_votes(members: Seq<u64>, votes: Seq<u64>) -> nat
    decreases members.len(),
{
    if members.len() == 0 {
        0
    } else {
        count_votes(members.drop_last(), votes) + if votes.contains(members.last()) {
            1nat
        } else {
            0nat
        }
    }
}

/// How many entries of `es` agree in term with `log` from position `p` on.
pub open spec fn agree_len(log: Seq<EntryView>, p: int, es: Seq<EntryView>) -> nat
    decreases es.len(),
{
    if es.len() > 0 && 0 <= p < log.len() && log[p].0 == es[0].0 {
        1 + agree_len(log, p + 1, es.drop_first())
    } else {
        0
    }
}

/// `log` with `es` placed after its first `p` entries: entries that agree in term
/// are kept, and from the first that does not the log is replaced by the rest of `es`.
pub open spec fn merged(log: Seq<EntryView>, p: int, es: Seq<EntryView>) -> Seq<EntryView> {
    let k = agree_len(log, p, es);
    if k == es.len() {
        log
    } else {
        log.take(p + k) + es.skip(k as int)
    }
}

/// Replication progress recorded for `peer`: its first record, 0 when there is none.
pub open spec fn match_of(matched: Seq<(u64, u64)>, peer: u64) -> u64
    decreases matched.len(),
{
    if matched.len() == 0 {
        0
    } else if matched[0].0 == peer {
        matched[0].1
    } else {
        match_of(matched.drop_first(), peer)
    }
}

/// The progress a leader records for a peer after its reply, from the recorded
/// `old` and the leader's log length `len`. A success counts its index (capped at
/// `len`) unless an earlier reply counted more. A refusal moves the progress back
/// at least one step, and to the reported index if that is lower, so that the
/// next request starts earlier.
pub open spec fn next_match(old: u64, reply: AppendReply, len: u64) -> u64 {
    let reported = if reply.match_index <= len {
        reply.match_index
    } else {
        len
    };
    if reply.success {
        if old >= reported {
            old
        } else {
            reported
        }
    } else if old == 0 {
        0
    } else if reported < old - 1 {
        reported
    } else {
        (old - 1) as u64
    }
}

/// Computes `next_match`.
pub fn next_match_of(old: u64, reply: AppendReply, len: u64) -> (r: u64)
    ensures
        r == next_match(old, reply, len),
{
    let reported = if reply.match_index <= len {
        reply.match_index
    } else {
        len
    };
    if reply.success {
        if old >= reported {
            old
        } else {
            reported
        }
    } else if old == 0 {
        0
    } else if reported < old - 1 {
        reported
    } else {
        old - 1
    }
}

/// Term of the entry at 1-based index `i`, 0 for index 0.
pub open spec fn term_at(log: Seq<EntryView>, i: int) -> u64 {
    if i == 0 {
        0
    } else {
        log[i - 1].0
    }
}

/// The abstract state of one node.
pub struct NodeView {
    pub id: u64,
    pub role: Role,
    pub term: u64,
    pub voted_for: Option<u64>,
    pub log: Seq<EntryView>,
    pub commit: u64,
    pub applied: u64,
    pub leader: Option<u64>,
    pub votes: Seq<u64>,
    pub matched: Seq<(u64, u64)>,
    pub queue: Seq<Seq<char>>,
    pub elapsed: u64,
    pub timeout: u64,
}

impl NodeView {
    /// Members of the cluster as the committed part of the log has them.
    pub open spec fn members(self) -> Seq<u64> {
        member_seq(self.log.take(self.commit as int))
    }

    /// Votes received by this node hold a strict majority of the members.
    pub open spec fn has_quorum(self) -> bool {
        is_majority(count_votes(self.members(), self.votes), self.members().len())
    }

    pub open spec fn last_index(self) -> u64 {
        self.log.len() as u64
    }

    pub open spec fn wf(self) -> bool {
        &&& self.log.len() <= MAX_LOG_LEN
        &&& self.applied <= self.commit <= self.log.len()
        &&& self.queue == queue_after(self.log.take(self.applied as int))
        &&& self.elapsed <= ELECTION_TIMEOUT_MAX
        &&& ELECTION_TIMEOUT_MIN <= self.timeout <= ELECTION_TIMEOUT_MAX
    }
}

/// Whether member `m` holds the leader's entry at index `n`.
pub open spec fn acked(v: NodeView, m: u64, n: int) -> bool {
    if m == v.id {
        v.log.len() >= n
    } else {
        match_of(v.matched, m) >= n
    }
}

/// How many of `ms` hold the leader's entry at index `n`.
pub open spec fn ack_count(v: NodeView, ms: Seq<u64>, n: int) -> nat
    decreases ms.len(),
{
    if ms.len() == 0 {
        0
    } else {
        ack_count(v, ms.drop_last(), n) + if acked(v, ms.last(), n) {
            1nat
        } else {
            0nat
        }
    }
}

/// A leader may commit index `n`: it lies past the commit point, holds an entry of
/// the current term, and a strict majority of the committed members hold it.
pub open spec fn committable(v: NodeView, n: int) -> bool {
    &&& v.commit < n <= v.log.len()
    &&& v.log[n - 1].0 == v.term
    &&& is_majority(ack_count(v, v.members(), n), v.members().len())
}

/// `post` is `pre` with its commit point moved to the highest committable index,
/// if there is one.
pub open spec fn commit_advanced(pre: NodeView, post: NodeView) -> bool {
    &&& post == NodeView { commit: post.commit, ..pre }
    &&& pre.commit <= post.commit
    &&& post.commit > pre.commit ==> committable(pre, post.commit as int)
    &&& forall|j: int| post.commit < j <= pre.log.len() ==> !committable(pre, j)
}

/// The vote of a node stays as it is while its term does not change.
pub open spec fn vote_kept(pre: NodeView, post: NodeView) -> bool {
    pre.term <= post.term && (pre.term == post.term && pre.voted_for is Some ==> post.voted_for
        == pre.voted_for)
}

/// The committed entries of a node stay as they were, and its commit and apply
/// points do not move back.
pub open spec fn committed_kept(pre: NodeView, post: NodeView) -> bool {
    &&& pre.commit <= post.commit
    &&& pre.applied <= post.applied
    &&& post.log.take(pre.commit as int) == pre.log.take(pre.commit as int)
}

/// The fields of a node that learns of a higher term `t`: it follows, with no vote
/// and no known leader, and restarts its timer with the new timeout `fresh`.
pub open spec fn stepped_down(pre: NodeView, t: u64, fresh: u64, post: NodeView) -> bool {
    &&& post.term == t
    &&& post.role == Role::Follower
    &&& post.voted_for is None
    &&& post.leader is None
    &&& post.elapsed == 0
    &&& post.timeout == fresh
}

/// Log, commit point, applied state and identity are as they were.
pub open spec fn same_store(pre: NodeView, post: NodeView) -> bool {
    &&& post.id == pre.id
    &&& post.log == pre.log
    &&& post.commit == pre.commit
    &&& post.applied == pre.applied
    &&& post.queue == pre.queue
}

/// The vote request a candidate of `v` sends.
pub open spec fn vote_request_of(v: NodeView) -> VoteRequest {
    VoteRequest {
        term: v.term,
        candidate: v.id,
        last_log_index: v.last_index(),
        last_log_term: last_term(v.log),
    }
}

/// One Raft participant: role, term, vote, log, commit point and the queue it feeds.
pub struct RaftNode {
    id: u64,
    role: Role,
    current_term: u64,
    voted_for: Option<u64>,
    log: Vec<LogEntry>,
    commit_index: u64,
    last_applied: u64,
    leader: Option<u64>,
    votes: Vec<u64>,
    matched: Vec<(u64, u64)>,
    queue: MessageQueue,
    elapsed: u64,
    timeout: u64,
}

impl View for RaftNode {
    type V = NodeView;

    closed spec fn view(&self) -> NodeView {
        NodeView {
            id: self.id,
            role: self.role,
            term: self.current_term,
            voted_for: self.voted_for,
            log: entries_view(self.log@),
            commit: self.commit_index,
            applied: self.last_applied,
            leader: self.leader,
            votes: self.votes@,
            matched: self.matched@,
            queue: self.queue@,
            elapsed: self.elapsed,
            timeout: self.timeout,
        }
    }
}

/// Whether `x` occurs in `v`.
fn contains(v: &Vec<u64>, x: u64) -> (r: bool)
    ensures
        r == v@.contains(x),
{
    let mut i: usize = 0;
    while i < v.len()
        invariant
            i <= v.len(),
            forall|j: int| 0 <= j < i ==> v@[j] != x,
        decreases v.len() - i,
    {
        if v[i] == x {
            return true;
        }
        i = i + 1;
    }
    false
}

impl RaftNode {
    /// The node's invariant: see `NodeView::wf`.
    pub open spec fn wf(&self) -> bool {
        self@.wf()
    }

    /// A node with identity `id`. Without a contact it founds a cluster of its own,
    /// as its leader in term 1, with a committed entry that makes it the first
    /// member. With a contact it starts as a follower with an empty log and waits
    /// to be added.
    pub fn new(id: u64, contact: Option<u64>, timeout: u64) -> (r: RaftNode)
        requires
            ELECTION_TIMEOUT_MIN <= timeout <= ELECTION_TIMEOUT_MAX,
        ensures
            r.wf(),
            r@.id == id,
            r@.elapsed == 0,
            r@.timeout == timeout,
            r@.queue.len() == 0,
            r@.votes.len() == 0,
            r@.matched.len() == 0,
            contact is None ==> r@.role == Role::Leader && r@.term == 1 && r@.voted_for == Some(id)
                && r@.leader == Some(id) && r@.log == seq![(1u64, CommandView::AddMember(id))]
                && r@.commit == 1 && r@.applied == 1,
            contact is Some ==> r@.role == Role::Follower && r@.term == 0 && r@.voted_for is None
                && r@.leader is None && r@.log.len() == 0 && r@.commit == 0 && r@.applied == 0,
    {
        let mut log: Vec<LogEntry> = Vec::new();
        let founding = contact.is_none();
        if founding {
            log.push(LogEntry { term: 1, command: Command::AddMember(id) });
        }
        let r = RaftNode {
            id,
            role: if founding { Role::Leader } else { Role::Follower },
            current_term: if founding { 1 } else { 0 },
            voted_for: if founding { Some(id) } else { None },
            log,
            commit_index: if founding { 1 } else { 0 },
            last_applied: if founding { 1 } else { 0 },
            leader: if founding { Some(id) } else { None },
            votes: Vec::new(),
            matched: Vec::new(),
            queue: MessageQueue::new(),
            elapsed: 0,
            timeout,
        };
        proof {
            let lv = entries_view(r.log@);
            if founding {
                assert(lv =~= seq![(1u64, CommandView::AddMember(id))]);
                assert(lv.take(1).drop_last() =~= Seq::<EntryView>::empty());
                assert(lv.take(1) =~= lv);
                let t = lv.take(1);
                assert(t.last() == lv[0]);
                assert(queue_after(t.drop_last()) == Seq::<Seq<char>>::empty());
                assert(queue_after(t) =~= Seq::<Seq<char>>::empty());
            } else {
                assert(lv.take(0) =~= Seq::<EntryView>::empty());
            }
        }
        r
    }

    /// The committed members of the cluster.
    pub fn members(&self) -> (r: Vec<u64>)
        requires
            self.wf(),
        ensures
            r@ == self@.members(),
    {
        let mut r: Vec<u64> = Vec::new();
        let mut i: usize = 0;
        let len = self.log.len();
        assert(self.commit_index <= len);
        let n = self.commit_index as usize;
        while i < n
            invariant
                self.wf(),
                n == self@.commit,
                i <= n,
                r@ == member_seq(self@.log.take(i as int)),
            decreases n - i,
        {
            proof {
                assert(self@.log.take(i + 1).drop_last() =~= self@.log.take(i as int));
            }
            match &self.log[i].command {
                Command::AddMember(m) => {
                    if !contains(&r, *m) {
                        r.push(*m);
                    }
                },
                _ => {},
            }
            i = i + 1;
        }
        r
    }

    /// Whether the votes received hold a strict majority of the committed members.
    fn won_election(&self) -> (r: bool)
        requires
            self.wf(),
        ensures
            r == self@.has_quorum(),
    {
        let ms = self.members();
        let mut count: u64 = 0;
        let mut i: usize = 0;
        while i < ms.len()
            invariant
                i <= ms.len(),
                ms@ == self@.members(),
                count == count_votes(ms@.take(i as int), self@.votes),
                count <= i,
            decreases ms.len() - i,
        {
            proof {
                assert(ms@.take(i + 1).drop_last() =~= ms@.take(i as int));
            }
            if contains(&self.votes, ms[i]) {
                count = count + 1;
            }
            i = i + 1;
        }
        proof {
            assert(ms@.take(ms.len() as int) =~= ms@);
        }
        count > (ms.len() as u64) / 2
    }

    /// Term of the last entry, 0 for an empty log.
    fn last_log_term(&self) -> (r: u64)
        requires
            self.wf(),
        ensures
            r == last_term(self@.log),
    {
        if self.log.len() == 0 {
            0
        } else {
            self.log[self.log.len() - 1].term
        }
    }

    /// Follows term `t`, with no vote and no known leader, and restarts the timer.
    fn step_down(&mut self, t: u64, fresh: u64)
        requires
            old(self).wf(),
            ELECTION_TIMEOUT_MIN <= fresh <= ELECTION_TIMEOUT_MAX,
        ensures
            final(self).wf(),
            stepped_down(old(self)@, t, fresh, final(self)@),
            same_store(old(self)@, final(self)@),
            final(self)@.votes.len() == 0,
            final(self)@.matched == old(self)@.matched,
    {
        self.timeout = fresh;
        self.current_term = t;
        self.role = Role::Follower;
        self.voted_for = None;
        self.leader = None;
        self.votes = Vec::new();
        self.elapsed = 0;
    }

    /// Takes the lead of the current term; replication starts from scratch.
    fn become_leader(&mut self)
        requires
            old(self).wf(),
        ensures
            final(self).wf(),
            same_store(old(self)@, final(self)@),
            final(self)@.role == Role::Leader,
            final(self)@.leader == Some(old(self)@.id),
            final(self)@.term == old(self)@.term,
            final(self)@.voted_for == old(self)@.voted_for,
            final(self)@.votes == old(self)@.votes,
            final(self)@.matched.len() == 0,
            final(self)@.elapsed == 0,
            final(self)@.timeout == old(self)@.timeout,
    {
        self.role = Role::Leader;
        self.leader = Some(self.id);
        self.matched = Vec::new();
        self.elapsed = 0;
    }

    /// Answers a vote request. A higher term makes this node a follower of that
    /// term first. The vote is granted exactly when the request's term is the
    /// node's term, the node has not voted for another candidate in it, and the
    /// candidate's log is at least as up to date; granting records the vote and
    /// restarts the election timer. Each restart takes the new timeout `fresh`.
    pub fn handle_vote_request(&mut self, req: VoteRequest, fresh: u64) -> (r: VoteReply)
        requires
            old(self).wf(),
            ELECTION_TIMEOUT_MIN <= fresh <= ELECTION_TIMEOUT_MAX,
        ensures
            final(self).wf(),
            committed_kept(old(self)@, final(self)@),
            same_store(old(self)@, final(self)@),
            vote_kept(old(self)@, final(self)@),
            final(self)@.timeout == if req.term > old(self)@.term || r.granted {
                fresh
            } else {
                old(self)@.timeout
            },
            final(self)@.matched == old(self)@.matched,
            req.term > old(self)@.term ==> final(self)@.term == req.term && final(self)@.role
                == Role::Follower && final(self)@.leader is None && final(self)@.votes.len() == 0,
            req.term <= old(self)@.term ==> final(self)@.term == old(self)@.term && final(self)@.role
                == old(self)@.role && final(self)@.leader == old(self)@.leader && final(self)@.votes
                == old(self)@.votes,
            r.term == final(self)@.term,
            r.granted == (req.term >= old(self)@.term && (req.term > old(self)@.term
                || old(self)@.voted_for is None || old(self)@.voted_for == Some(req.candidate))
                && up_to_date(
                req.last_log_term,
                req.last_log_index,
                last_term(old(self)@.log),
                old(self)@.last_index(),
            )),
            r.granted ==> final(self)@.voted_for == Some(req.candidate) && final(self)@.elapsed == 0,
            !r.granted && req.term > old(self)@.term ==> final(self)@.voted_for is None
                && final(self)@.elapsed == 0,
            !r.granted && req.term <= old(self)@.term ==> final(self)@.voted_for == old(
                self,
            )@.voted_for && final(self)@.elapsed == old(self)@.elapsed,
    {
        if req.term > self.current_term {
            self.step_down(req.term, fresh);
        }
        let my_last_term = self.last_log_term();
        let free = match self.voted_for {
            None => true,
            Some(c) => c == req.candidate,
        };
        let grant = req.term == self.current_term && free && is_up_to_date(
            req.last_log_term,
            req.last_log_index,
            my_last_term,
            self.log.len() as u64,
        );
        if grant {
            self.voted_for = Some(req.candidate);
            self.elapsed = 0;
            self.timeout = fresh;
        }
        VoteReply { term: self.current_term, granted: grant }
    }

    /// Advances the timer by one time unit. A leader asks for heartbeats every
    /// `HEARTBEAT_INTERVAL` units. A follower or candidate whose timeout has run
    /// out starts an election when it is a committed member: it moves to the next
    /// term, votes for itself, draws the new timeout `fresh` and asks the others
    /// for votes; alone in its cluster it becomes leader at once. A node that is not
    /// yet a member only restarts its timer.
    pub fn tick(&mut self, fresh: u64) -> (r: TickAction)
        requires
            old(self).wf(),
            ELECTION_TIMEOUT_MIN <= fresh <= ELECTION_TIMEOUT_MAX,
        ensures
            final(self).wf(),
            committed_kept(old(self)@, final(self)@),
            same_store(old(self)@, final(self)@),
            vote_kept(old(self)@, final(self)@),
            old(self)@.role == Role::Leader ==> final(self)@.role == Role::Leader
                && final(self)@.term == old(self)@.term && final(self)@.voted_for == old(self)@.voted_for
                && final(self)@.leader == old(self)@.leader && final(self)@.votes == old(self)@.votes
                && final(self)@.matched == old(self)@.matched && final(self)@.timeout == old(self)@.timeout
                && if old(self)@.elapsed + 1 >= HEARTBEAT_INTERVAL {
                r == TickAction::SendHeartbeats && final(self)@.elapsed == 0
            } else {
                r == TickAction::Wait && final(self)@.elapsed == old(self)@.elapsed + 1
            },
            old(self)@.role != Role::Leader && old(self)@.elapsed + 1 < old(self)@.timeout
                ==> r == TickAction::Wait && final(self)@ == (NodeView {
                elapsed: (old(self)@.elapsed + 1) as u64,
                ..old(self)@
            }),
            old(self)@.role != Role::Leader && old(self)@.elapsed + 1 >= old(self)@.timeout && !(
            old(self)@.members().contains(old(self)@.id) && old(self)@.term < u64::MAX)
                ==> r == TickAction::Wait && final(self)@ == (NodeView {
                elapsed: 0,
                timeout: fresh,
                ..old(self)@
            }),
            old(self)@.role != Role::Leader && old(self)@.elapsed + 1 >= old(self)@.timeout && (
            old(self)@.members().contains(old(self)@.id) && old(self)@.term < u64::MAX) ==> {
                &&& final(self)@.term == old(self)@.term + 1
                &&& final(self)@.voted_for == Some(old(self)@.id)
                &&& final(self)@.votes == seq![old(self)@.id]
                &&& final(self)@.elapsed == 0
                &&& final(self)@.timeout == fresh
                &&& r == TickAction::RequestVotes(vote_request_of(final(self)@))
                &&& if final(self)@.has_quorum() {
                    final(self)@.role == Role::Leader && final(self)@.leader == Some(old(self)@.id)
                        && final(self)@.matched.len() == 0
                } else {
                    final(self)@.role == Role::Candidate && final(self)@.leader is None
                }
            },
    {
        if self.role == Role::Leader {
            if self.elapsed + 1 >= HEARTBEAT_INTERVAL {
                self.elapsed = 0;
                return TickAction::SendHeartbeats;
            } else {
                self.elapsed = self.elapsed + 1;
                return TickAction::Wait;
            }
        }
        if self.elapsed + 1 < self.timeout {
            self.elapsed = self.elapsed + 1;
            return TickAction::Wait;
        }
        let ms = self.members();
        if !contains(&ms, self.id) || self.current_term == u64::MAX {
            self.elapsed = 0;
            self.timeout = fresh;
            return TickAction::Wait;
        }
        self.current_term = self.current_term + 1;
        self.role = Role::Candidate;
        self.voted_for = Some(self.id);
        self.leader = None;
        let mut votes: Vec<u64> = Vec::new();
        votes.push(self.id);
        self.votes = votes;
        self.elapsed = 0;
        self.timeout = fresh;
        let req = VoteRequest {
            term: self.current_term,
            candidate: self.id,
            last_log_index: self.log.len() as u64,
            last_log_term: self.last_log_term(),
        };
        if self.won_election() {
            self.become_leader();
        }
        TickAction::RequestVotes(req)
    }

    /// Counts a vote reply. A higher term makes the node a follower of that term.
    /// A candidate counts a granted vote of its own term, once per voter, and
    /// becomes leader when the votes hold a strict majority of the committed
    /// members; the result says whether it became leader just now, with its
    /// replication progress reset. Stepping down takes the new timeout `fresh`.
    pub fn handle_vote_reply(&mut self, from: u64, reply: VoteReply, fresh: u64) -> (r: bool)
        requires
            old(self).wf(),
            ELECTION_TIMEOUT_MIN <= fresh <= ELECTION_TIMEOUT_MAX,
        ensures
            final(self).wf(),
            committed_kept(old(self)@, final(self)@),
            same_store(old(self)@, final(self)@),
            vote_kept(old(self)@, final(self)@),
            reply.term <= old(self)@.term ==> final(self)@.timeout == old(self)@.timeout,
            reply.term > old(self)@.term ==> !r && stepped_down(old(self)@, reply.term, fresh, final(self)@)
                && final(self)@.votes.len() == 0,
            reply.term <= old(self)@.term && !(old(self)@.role == Role::Candidate && reply.term
                == old(self)@.term && reply.granted) ==> !r && final(self)@ == old(self)@,
            reply.term == old(self)@.term && old(self)@.role == Role::Candidate && reply.granted ==> {
                &&& final(self)@.term == old(self)@.term
                &&& final(self)@.voted_for == old(self)@.voted_for
                &&& final(self)@.votes == if old(self)@.votes.contains(from) {
                    old(self)@.votes
                } else {
                    old(self)@.votes.push(from)
                }
                &&& r == final(self)@.has_quorum()
                &&& if r {
                    final(self)@.role == Role::Leader && final(self)@.leader == Some(old(self)@.id)
                        && final(self)@.elapsed == 0 && final(self)@.matched.len() == 0
                } else {
                    final(self)@.role == Role::Candidate && final(self)@.leader == old(self)@.leader
                        && final(self)@.elapsed == old(self)@.elapsed && final(self)@.matched == old(self)@.matched
                }
            },
    {
        if reply.term > self.current_term {
            self.step_down(reply.term, fresh);
            return false;
        }
        if !(self.role == Role::Candidate && reply.term == self.current_term && reply.granted) {
            return false;
        }
        if !contains(&self.votes, from) {
            self.votes.push(from);
        }
        if self.won_election() {
            self.become_leader();
            true
        } else {
            false
        }
    }

    /// The index recorded as held by `peer`.
    fn find_match(&self, peer: u64) -> (r: u64)
        ensures
            r == match_of(self@.matched, peer),
    {
        let mut i: usize = 0;
        proof {
            assert(self@.matched.skip(0) =~= self@.matched);
        }
        while i < self.matched.len()
            invariant
                i <= self.matched@.len(),
                match_of(self@.matched, peer) == match_of(self@.matched.skip(i as int), peer),
            decreases self.matched.len() - i,
        {
            proof {
                assert(self@.matched.skip(i as int).drop_first() =~= self@.matched.skip(i + 1));
            }
            if self.matched[i].0 == peer {
                return self.matched[i].1;
            }
            i = i + 1;
        }
        0
    }

    /// Records `value` as the index held by `peer`.
    fn set_match(&mut self, peer: u64, value: u64)
        requires
            old(self).wf(),
        ensures
            final(self).wf(),
            final(self)@ == (NodeView { matched: final(self)@.matched, ..old(self)@ }),
            match_of(final(self)@.matched, peer) == value,
            forall|q: u64| q != peer ==> match_of(final(self)@.matched, q) == match_of(old(self)@.matched, q),
    {
        let ghost m0 = self.matched@;
        let ghost pre = self@;
        let mut i: usize = 0;
        while i < self.matched.len()
            invariant
                self.matched@ == m0,
                self@ == pre,
                pre == old(self)@,
                self.wf(),
                i <= m0.len(),
                forall|j: int| 0 <= j < i ==> m0[j].0 != peer,
            decreases self.matched.len() - i,
        {
            if self.matched[i].0 == peer {
                self.matched.set(i, (peer, value));
                proof {
                    assert forall|q: u64| match_of(self@.matched, q) == if q == peer { value } else { match_of(m0, q) } by {
                        lemma_match_of_update(m0, i as int, peer, value, q);
                    }
                }
                return;
            }
            i = i + 1;
        }
        self.matched.push((peer, value));
        proof {
            assert forall|q: u64| match_of(self@.matched, q) == if q == peer { value } else { match_of(m0, q) } by {
                lemma_match_of_push(m0, peer, value, q);
            }
        }
    }

    /// How many of `ms` hold the entry at index `n`.
    fn count_acks(&self, ms: &Vec<u64>, n: u64) -> (r: u64)
        requires
            self.wf(),
        ensures
            r == ack_count(self@, ms@, n as int),
            r <= ms@.len(),
    {
        let mut count: u64 = 0;
        let mut i: usize = 0;
        while i < ms.len()
            invariant
                i <= ms.len(),
                count == ack_count(self@, ms@.take(i as int), n as int),
                count <= i,
            decreases ms.len() - i,
        {
            proof {
                assert(ms@.take(i + 1).drop_last() =~= ms@.take(i as int));
            }
            let m = ms[i];
            let has = if m == self.id {
                self.log.len() as u64 >= n
            } else {
                self.find_match(m) >= n
            };
            if has {
                count = count + 1;
            }
            i = i + 1;
        }
        proof {
            assert(ms@.take(ms.len() as int) =~= ms@);
        }
        count
    }

    /// Moves the commit point to the highest index that a majority holds with an
    /// entry of the current term.
    fn advance_commit(&mut self)
        requires
            old(self).wf(),
        ensures
            final(self).wf(),
            commit_advanced(old(self)@, final(self)@),
    {
        let ms = self.members();
        let ghost pre = self@;
        let mut j: usize = self.log.len();
        while j > self.commit_index as usize
            invariant
                self.wf(),
                self@ == pre,
                pre == old(self)@,
                ms@ == self@.members(),
                self.commit_index <= j <= self.log.len(),
                forall|k: int| j < k <= self@.log.len() ==> !committable(self@, k),
            decreases j,
        {
            let n = j as u64;
            if self.log[j - 1].term == self.current_term {
                let c = self.count_acks(&ms, n);
                if c > (ms.len() as u64) / 2 {
                    self.commit_index = n;
                    return;
                }
            }
            j = j - 1;
        }
    }

    /// Appends a command to the log of a leader and returns its index; a leader
    /// alone in its cluster commits it at once. Another node answers with the
    /// leader it knows, or `NoLeader`.
    pub fn execute(&mut self, cmd: Command) -> (r: Result<u64, RaftError>)
        requires
            old(self).wf(),
        ensures
            final(self).wf(),
            committed_kept(old(self)@, final(self)@),
            vote_kept(old(self)@, final(self)@),
            old(self)@.role == Role::Leader && old(self)@.log.len() < MAX_LOG_LEN ==> {
                let pushed = NodeView { log: old(self)@.log.push((old(self)@.term, cmd@)), ..old(self)@ };
                &&& r == Ok::<u64, RaftError>(pushed.log.len() as u64)
                &&& commit_advanced(pushed, final(self)@)
            },
            old(self)@.role == Role::Leader && old(self)@.log.len() >= MAX_LOG_LEN ==> r == Err::<
                u64,
                RaftError,
            >(RaftError::LogFull) && final(self)@ == old(self)@,
            old(self)@.role != Role::Leader ==> final(self)@ == old(self)@ && r == Err::<
                u64,
                RaftError,
            >(match old(self)@.leader {
                Some(l) => RaftError::NotLeader(l),
                None => RaftError::NoLeader,
            }),
    {
        if self.role != Role::Leader {
            return match self.leader {
                Some(l) => Err(RaftError::NotLeader(l)),
                None => Err(RaftError::NoLeader),
            };
        }
        if self.log.len() as u64 >= MAX_LOG_LEN {
            return Err(RaftError::LogFull);
        }
        let ghost pre = self@;
        self.log.push(LogEntry { term: self.current_term, command: cmd });
        proof {
            assert(entries_view(self.log@) =~= pre.log.push((pre.term, cmd@)));
            assert(self@.log.take(self@.applied as int) =~= pre.log.take(pre.applied as int));
            assert(self@.log.take(pre.commit as int) =~= pre.log.take(pre.commit as int));
        }
        let idx = self.log.len() as u64;
        self.advance_commit();
        Ok(idx)
    }

    /// Asks a leader to add `peer` to the cluster through the log: the peer counts
    /// as a member once the entry is committed.
    pub fn apply_membership(&mut self, peer: u64) -> (r: Result<u64, RaftError>)
        requires
            old(self).wf(),
        ensures
            final(self).wf(),
            committed_kept(old(self)@, final(self)@),
            vote_kept(old(self)@, final(self)@),
            old(self)@.role == Role::Leader && old(self)@.log.len() < MAX_LOG_LEN ==> {
                let pushed = NodeView {
                    log: old(self)@.log.push((old(self)@.term, CommandView::AddMember(peer))),
                    ..old(self)@
                };
                &&& r == Ok::<u64, RaftError>(pushed.log.len() as u64)
                &&& commit_advanced(pushed, final(self)@)
            },
            old(self)@.role == Role::Leader && old(self)@.log.len() >= MAX_LOG_LEN ==> r == Err::<
                u64,
                RaftError,
            >(RaftError::LogFull) && final(self)@ == old(self)@,
            old(self)@.role != Role::Leader ==> final(self)@ == old(self)@ && r == Err::<
                u64,
                RaftError,
            >(match old(self)@.leader {
                Some(l) => RaftError::NotLeader(l),
                None => RaftError::NoLeader,
            }),
    {
        self.execute(Command::AddMember(peer))
    }

    /// The `AppendEntries` request this leader sends to `peer`: the entries after
    /// the last index recorded as held by the peer (capped at the log's length).
    pub fn append_request_for(&self, peer: u64) -> (r: AppendRequest)
        requires
            self.wf(),
        ensures
            ({
                let prev = if match_of(self@.matched, peer) <= self@.log.len() {
                    match_of(self@.matched, peer) as int
                } else {
                    self@.log.len() as int
                };
                &&& r.term == self@.term
                &&& r.leader == self@.id
                &&& r.prev_log_index == prev
                &&& r.prev_log_term == term_at(self@.log, prev)
                &&& entries_view(r.entries@) == self@.log.skip(prev)
                &&& r.leader_commit == self@.commit
            }),
    {
        let m = self.find_match(peer);
        let len = self.log.len();
        let prev: usize = if m <= len as u64 {
            m as usize
        } else {
            len
        };
        let prev_term = if prev == 0 {
            0
        } else {
            self.log[prev - 1].term
        };
        let mut entries: Vec<LogEntry> = Vec::new();
        let mut i: usize = prev;
        while i < len
            invariant
                self.wf(),
                len == self.log@.len(),
                prev <= i <= len,
                entries_view(entries@) == self@.log.subrange(prev as int, i as int),
            decreases len - i,
        {
            let ghost before = entries@;
            let e = self.log[i].copy();
            entries.push(e);
            proof {
                assert(entries@ == before.push(e));
                assert(e@ == self@.log[i as int]);
                assert(entries_view(entries@) =~= entries_view(before).push(e@));
                assert(entries_view(entries@) =~= self@.log.subrange(prev as int, i + 1));
            }
            i = i + 1;
        }
        AppendRequest {
            term: self.current_term,
            leader: self.id,
            prev_log_index: prev as u64,
            prev_log_term: prev_term,
            entries,
            leader_commit: self.commit_index,
        }
    }

    /// Places `entries` after the first `prev` entries of the log (see `merged`),
    /// unless that would change a committed entry or pass `MAX_LOG_LEN`.
    fn merge_entries(&mut self, prev: usize, entries: &Vec<LogEntry>) -> (r: bool)
        requires
            old(self).wf(),
            prev <= old(self)@.log.len(),
        ensures
            final(self).wf(),
            ({
                let es = entries_view(entries@);
                let k = agree_len(old(self)@.log, prev as int, es);
                let ok = (k == es.len() || prev + k >= old(self)@.commit)
                    && merged(old(self)@.log, prev as int, es).len() <= MAX_LOG_LEN;
                &&& r == ok
                &&& ok ==> final(self)@ == (NodeView { log: merged(old(self)@.log, prev as int, es), ..old(self)@ })
                &&& ok ==> prev + es.len() <= final(self)@.log.len()
                &&& final(self)@.log.take(old(self)@.commit as int) == old(self)@.log.take(old(self)@.commit as int)
                &&& !ok ==> final(self)@ == old(self)@
            }),
    {
        let len = self.log.len();
        let ghost pre = self@;
        let ghost es = entries_view(entries@);
        let n = entries.len();
        let mut k: usize = 0;
        proof {
            assert(es.skip(0) =~= es);
        }
        while k < n && k < len - prev && self.log[prev + k].term == entries[k].term
            invariant
                self@ == pre,
                self.wf(),
                len == pre.log.len(),
                n == es.len(),
                n == entries@.len(),
                es == entries_view(entries@),
                prev + k <= len,
                prev <= len,
                k <= n,
                agree_len(pre.log, prev as int, es) == k + agree_len(pre.log, prev + k, es.skip(k as int)),
            decreases n - k,
        {
            proof {
                assert(es.skip(k as int).drop_first() =~= es.skip(k + 1));
            }
            k = k + 1;
        }
        proof {
            assert(agree_len(pre.log, prev + k, es.skip(k as int)) == 0);
        }
        if k < n {
            if prev + k < self.commit_index as usize {
                return false;
            }
            if n as u64 > MAX_LOG_LEN - prev as u64 {
                return false;
            }
            self.log.truncate(prev + k);
            let mut i: usize = k;
            while i < n
                invariant
                    k <= i <= n,
                    n == es.len(),
                    n == entries@.len(),
                    self@ == (NodeView { log: self@.log, ..pre }),
                    prev + k <= len,
                    pre.commit <= prev + k,
                    pre.wf(),
                    prev + k <= len,
                    prev + n <= MAX_LOG_LEN,
                    entries_view(entries@) == es,
                    entries_view(self.log@) == pre.log.take(prev + k) + es.subrange(k as int, i as int),
                decreases n - i,
            {
                let ghost before = self.log@;
                let e = entries[i].copy();
                self.log.push(e);
                proof {
                    assert(e@ == es[i as int]);
                    assert(entries_view(self.log@) =~= entries_view(before).push(e@));
                    assert(entries_view(self.log@) =~= pre.log.take(prev + k) + es.subrange(k as int, i + 1));
                }
                i = i + 1;
            }
            proof {
                assert(es.subrange(k as int, n as int) =~= es.skip(k as int));
                assert(self@.log.take(pre.applied as int) =~= pre.log.take(pre.applied as int));
                assert(self@.log.take(pre.commit as int) =~= pre.log.take(pre.commit as int));
            }
        }
        proof {
            if k == n {
                assert(self@.log == pre.log);
            } else {
                assert(self@.log.len() == prev + n);
            }
        }
        true
    }

    /// Answers an `AppendEntries` request. One of an older term is refused with
    /// this node's term. Otherwise the node follows the sender in the request's
    /// term and restarts its election timer with the new timeout `fresh`.
    ///
    /// When its log lacks the entry at `prev_log_index`, or holds one of another
    /// term there, it refuses and reports the last index below `prev_log_index`
    /// that it can vouch for: its commit point, or less. Otherwise it places the
    /// entries (see `merged`) and moves its commit point up to the leader's,
    /// within the entries received. Two cases stay refused even then, reporting
    /// `prev_log_index`, where the logs agree: placing the entries would replace a
    /// committed entry, which all nodes hold alike and which must never be
    /// replaced nor its commit undone; or the log would pass `MAX_LOG_LEN`.
    pub fn handle_append_entries(&mut self, req: AppendRequest, fresh: u64) -> (r: AppendReply)
        requires
            old(self).wf(),
            ELECTION_TIMEOUT_MIN <= fresh <= ELECTION_TIMEOUT_MAX,
        ensures
            final(self).wf(),
            committed_kept(old(self)@, final(self)@),
            vote_kept(old(self)@, final(self)@),
            final(self)@.id == old(self)@.id,
            final(self)@.applied == old(self)@.applied,
            final(self)@.queue == old(self)@.queue,
            final(self)@.commit <= final(self)@.log.len(),
            r.term == final(self)@.term,
            req.term < old(self)@.term ==> final(self)@ == old(self)@ && !r.success && r.match_index
                == old(self)@.commit,
            req.term >= old(self)@.term ==> ({
                let es = entries_view(req.entries@);
                let prev = req.prev_log_index as int;
                let k = agree_len(old(self)@.log, prev, es);
                let prev_ok = prev <= old(self)@.log.len() && term_at(old(self)@.log, prev)
                    == req.prev_log_term;
                let place_ok = (k == es.len() || prev + k >= old(self)@.commit)
                    && merged(old(self)@.log, prev, es).len() <= MAX_LOG_LEN;
                &&& final(self)@.term == req.term
                &&& final(self)@.role == Role::Follower
                &&& final(self)@.leader == Some(req.leader)
                &&& final(self)@.elapsed == 0
                &&& final(self)@.timeout == fresh
                &&& final(self)@.voted_for == if req.term > old(self)@.term {
                    None
                } else {
                    old(self)@.voted_for
                }
                &&& r.success == (prev_ok && place_ok)
                &&& prev_ok && place_ok ==> final(self)@.log == merged(old(self)@.log, prev, es)
                    && r.match_index == prev + es.len() && final(self)@.commit == ({
                    let c = if req.leader_commit <= prev + es.len() {
                        req.leader_commit as int
                    } else {
                        prev + es.len()
                    };
                    if c > old(self)@.commit {
                        c
                    } else {
                        old(self)@.commit as int
                    }
                })
                &&& !(prev_ok && place_ok) ==> final(self)@.log == old(self)@.log
                    && final(self)@.commit == old(self)@.commit
                &&& !prev_ok ==> r.match_index == if prev == 0 {
                    0
                } else if old(self)@.commit <= prev - 1 {
                    old(self)@.commit as int
                } else {
                    prev - 1
                }
                &&& prev_ok && !place_ok ==> r.match_index == prev
            }),
    {
        if req.term < self.current_term {
            return AppendReply { term: self.current_term, success: false, match_index: self.commit_index };
        }
        if req.term > self.current_term {
            self.step_down(req.term, fresh);
        }
        self.role = Role::Follower;
        self.leader = Some(req.leader);
        self.elapsed = 0;
        self.timeout = fresh;
        let below = if req.prev_log_index == 0 {
            0
        } else if self.commit_index <= req.prev_log_index - 1 {
            self.commit_index
        } else {
            req.prev_log_index - 1
        };
        let mismatch = AppendReply { term: self.current_term, success: false, match_index: below };
        let len = self.log.len();
        if req.prev_log_index > len as u64 {
            return mismatch;
        }
        let prev = req.prev_log_index as usize;
        let prev_term = if prev == 0 {
            0
        } else {
            self.log[prev - 1].term
        };
        if prev_term != req.prev_log_term {
            return mismatch;
        }
        if !self.merge_entries(prev, &req.entries) {
            return AppendReply { term: self.current_term, success: false, match_index: req.prev_log_index };
        }
        let new_len = self.log.len();
        assert(prev + req.entries@.len() <= new_len);
        let last_new = (prev + req.entries.len()) as u64;
        let c = if req.leader_commit <= last_new {
            req.leader_commit
        } else {
            last_new
        };
        if c > self.commit_index {
            self.commit_index = c;
        }
        AppendReply { term: self.current_term, success: true, match_index: last_new }
    }

    /// Takes in an `AppendEntries` reply. A higher term makes the node a follower
    /// of that term, with the new timeout `fresh`. A leader updates the progress
    /// it records for the peer (see `next_match`) and moves its commit point.
    pub fn handle_append_reply(&mut self, from: u64, reply: AppendReply, fresh: u64)
        requires
            old(self).wf(),
            ELECTION_TIMEOUT_MIN <= fresh <= ELECTION_TIMEOUT_MAX,
        ensures
            final(self).wf(),
            committed_kept(old(self)@, final(self)@),
            vote_kept(old(self)@, final(self)@),
            reply.term > old(self)@.term ==> stepped_down(old(self)@, reply.term, fresh, final(self)@)
                && same_store(old(self)@, final(self)@),
            reply.term <= old(self)@.term && !(old(self)@.role == Role::Leader && reply.term
                == old(self)@.term) ==> final(self)@ == old(self)@,
            old(self)@.role == Role::Leader && reply.term == old(self)@.term ==> exists|mid: NodeView|
                {
                    &&& mid == NodeView { matched: mid.matched, ..old(self)@ }
                    &&& match_of(mid.matched, from) == next_match(
                        match_of(old(self)@.matched, from),
                        reply,
                        old(self)@.log.len() as u64,
                    )
                    &&& forall|q: u64| q != from ==> match_of(mid.matched, q) == match_of(old(self)@.matched, q)
                    &&& commit_advanced(mid, final(self)@)
                },
    {
        if reply.term > self.current_term {
            self.step_down(reply.term, fresh);
            return;
        }
        if !(self.role == Role::Leader && reply.term == self.current_term) {
            return;
        }
        let len = self.log.len() as u64;
        let old_m = self.find_match(from);
        let m = next_match_of(old_m, reply, len);
        self.set_match(from, m);
        self.advance_commit();
    }

    /// Applies the next committed entry to the queue, if there is one, and says
    /// which entry it was and what it gave.
    pub fn apply_next(&mut self) -> (r: Option<Applied>)
        requires
            old(self).wf(),
        ensures
            final(self).wf(),
            committed_kept(old(self)@, final(self)@),
            vote_kept(old(self)@, final(self)@),
            old(self)@.applied == old(self)@.commit ==> r is None && final(self)@ == old(self)@,
            old(self)@.applied < old(self)@.commit ==> {
                let cmd = old(self)@.log[old(self)@.applied as int].1;
                let q = old(self)@.queue;
                &&& final(self)@ == NodeView {
                    applied: (old(self)@.applied + 1) as u64,
                    queue: apply_command(q, cmd),
                    ..old(self)@
                }
                &&& r is Some
                &&& r->Some_0.index == old(self)@.applied + 1
                &&& r->Some_0.term == old(self)@.log[old(self)@.applied as int].0
                &&& match cmd {
                    CommandView::Enqueue(_) => r->Some_0.outcome is Pushed,
                    CommandView::Dequeue => if q.len() > 0 {
                        r->Some_0.outcome is Popped && r->Some_0.outcome->Popped_0@ == q[0]
                    } else {
                        r->Some_0.outcome is QueueEmpty
                    },
                    CommandView::AddMember(m) => r->Some_0.outcome == ApplyOutcome::MemberAdded(m),
                }
            },
    {
        if self.last_applied >= self.commit_index {
            return None;
        }
        let len = self.log.len();
        assert(self.last_applied < len);
        let i = self.last_applied as usize;
        let ghost pre = self@;
        proof {
            assert(pre.log.take(i + 1).drop_last() =~= pre.log.take(i as int));
            assert(pre.log.take(i + 1).last() == pre.log[i as int]);
        }
        let term = self.log[i].term;
        let out = match &self.log[i].command {
            Command::Enqueue(s) => {
                self.queue.push(s.clone());
                ApplyOutcome::Pushed
            },
            Command::Dequeue => match self.queue.pop() {
                Ok(s) => ApplyOutcome::Popped(s),
                Err(_) => ApplyOutcome::QueueEmpty,
            },
            Command::AddMember(m) => ApplyOutcome::MemberAdded(*m),
        };
        self.last_applied = self.last_applied + 1;
        Some(Applied { index: self.last_applied, term, outcome: out })
    }

    /// The answer for a client waiting on the entry that was appended at `index`
    /// in `term` and has not been applied yet. Wait while the log still holds that
    /// entry and either this node leads or the entry is committed. Otherwise the
    /// entry was replaced or may never commit. Then fail with the leader this
    /// node knows, or with `NoLeader`.
    pub fn pending_status(&self, index: u64, term: u64) -> (r: PendingStatus)
        requires
            self.wf(),
        ensures
            holds_entry(self@, index, term) && (self@.role == Role::Leader || index <= self@.commit)
                ==> r == PendingStatus::Wait,
            !(holds_entry(self@, index, term) && (self@.role == Role::Leader || index
                <= self@.commit)) ==> r == PendingStatus::Fail(
                match self@.leader {
                    Some(l) => RaftError::NotLeader(l),
                    None => RaftError::NoLeader,
                },
            ),
    {
        let holds = index >= 1 && index <= self.log.len() as u64 && self.log[(index - 1) as usize].term
            == term;
        if holds && (self.role == Role::Leader || index <= self.commit_index) {
            PendingStatus::Wait
        } else {
            match self.leader {
                Some(l) => PendingStatus::Fail(RaftError::NotLeader(l)),
                None => PendingStatus::Fail(RaftError::NoLeader),
            }
        }
    }

    /// The nodes a leader or candidate sends to: the committed members and the
    /// peers in `pending` that asked to join, each once, itself left out.
    pub fn peers(&self, pending: &Vec<u64>) -> (r: Vec<u64>)
        requires
            self.wf(),
        ensures
            r@.no_duplicates(),
            forall|m: u64| #[trigger] r@.contains(m) <==> m != self@.id && (self@.members().contains(m)
                || pending@.contains(m)),
    {
        let ms = self.members();
        let mut r: Vec<u64> = Vec::new();
        let mut i: usize = 0;
        while i < ms.len()
            invariant
                ms@ == self@.members(),
                i <= ms.len(),
                r@.no_duplicates(),
                forall|m: u64| #[trigger] r@.contains(m) <==> m != self@.id && ms@.take(i as int).contains(m),
            decreases ms.len() - i,
        {
            proof {
                assert(ms@.take(i + 1) =~= ms@.take(i as int).push(ms[i as int]));
            }
            let ghost r0 = r@;
            let x = ms[i];
            if x != self.id && !contains(&r, x) {
                r.push(x);
            }
            proof {
                assert forall|m: u64| #[trigger] r@.contains(m) <==> m != self@.id && ms@.take(i + 1).contains(m) by {
                    lemma_push_contains(ms@.take(i as int), x, m);
                    lemma_push_contains(r0, x, m);
                }
            }
            i = i + 1;
        }
        proof {
            assert(ms@.take(ms.len() as int) =~= ms@);
        }
        let mut j: usize = 0;
        while j < pending.len()
            invariant
                ms@ == self@.members(),
                j <= pending.len(),
                r@.no_duplicates(),
                forall|m: u64| #[trigger] r@.contains(m) <==> m != self@.id && (ms@.contains(m)
                    || pending@.take(j as int).contains(m)),
            decreases pending.len() - j,
        {
            proof {
                assert(pending@.take(j + 1) =~= pending@.take(j as int).push(pending[j as int]));
            }
            let ghost r0 = r@;
            let x = pending[j];
            if x != self.id && !contains(&r, x) {
                r.push(x);
            }
            proof {
                assert forall|m: u64| #[trigger] r@.contains(m) <==> m != self@.id && (ms@.contains(m)
                    || pending@.take(j + 1).contains(m)) by {
                    lemma_push_contains(pending@.take(j as int), x, m);
                    lemma_push_contains(r0, x, m);
                }
            }
            j = j + 1;
        }
        proof {
            assert(pending@.take(pending.len() as int) =~= pending@);
        }
        r
    }

    /// This node's identity.
    pub fn id(&self) -> (r: u64)
        ensures
            r == self@.id,
    {
        self.id
    }

    pub fn role(&self) -> (r: Role)
        ensures
            r == self@.role,
    {
        self.role
    }

    pub fn current_term(&self) -> (r: u64)
        ensures
            r == self@.term,
    {
        self.current_term
    }

    pub fn voted_for(&self) -> (r: Option<u64>)
        ensures
            r == self@.voted_for,
    {
        self.voted_for
    }

    pub fn leader(&self) -> (r: Option<u64>)
        ensures
            r == self@.leader,
    {
        self.leader
    }

    pub fn commit_index(&self) -> (r: u64)
        ensures
            r == self@.commit,
    {
        self.commit_index
    }

    pub fn last_applied(&self) -> (r: u64)
        ensures
            r == self@.applied,
    {
        self.last_applied
    }

    /// Index of the last entry of the log.
    pub fn log_len(&self) -> (r: u64)
        requires
            self.wf(),
        ensures
            r == self@.log.len(),
    {
        self.log.len() as u64
    }

    /// Number of messages in the applied queue.
    pub fn queue_len(&self) -> (r: u64)
        requires
            self.wf(),
        ensures
            r == self@.queue.len(),
    {
        self.queue.len()
    }

    /// The election timeout drawn last.
    pub fn election_timeout(&self) -> (r: u64)
        ensures
            r == self@.timeout,
    {
        self.timeout
    }
}

proof fn lemma_push_contains(s: Seq<u64>, x: u64, m: u64)
    ensures
        s.push(x).contains(m) <==> (s.contains(m) || m == x),
{
    if s.contains(m) {
        let k = choose|k: int| 0 <= k < s.len() && s[k] == m;
        assert(s.push(x)[k] == m);
    }
    if m == x {
        assert(s.push(x)[s.len() as int] == x);
    }
    if s.push(x).contains(m) {
        let k = choose|k: int| 0 <= k < s.push(x).len() && s.push(x)[k] == m;
        if k < s.len() {
            assert(s[k] == m);
        }
    }
}

proof fn lemma_match_of_update(m: Seq<(u64, u64)>, i: int, peer: u64, value: u64, q: u64)
    requires
        0 <= i < m.len(),
        m[i].0 == peer,
        forall|j: int| 0 <= j < i ==> m[j].0 != peer,
    ensures
        match_of(m.update(i, (peer, value)), q) == if q == peer { value } else { match_of(m, q) },
    decreases i,
{
    let u = m.update(i, (peer, value));
    if i > 0 {
        assert(u[0] == m[0]);
        assert(u.drop_first() =~= m.drop_first().update(i - 1, (peer, value)));
        lemma_match_of_update(m.drop_first(), i - 1, peer, value, q);
    } else {
        assert(u.drop_first() =~= m.drop_first());
    }
}

proof fn lemma_match_of_push(m: Seq<(u64, u64)>, peer: u64, value: u64, q: u64)
    requires
        forall|j: int| 0 <= j < m.len() ==> m[j].0 != peer,
    ensures
        match_of(m.push((peer, value)), q) == if q == peer { value } else { match_of(m, q) },
    decreases m.len(),
{
    let u = m.push((peer, value));
    if m.len() > 0 {
        assert(u[0] == m[0]);
        assert(u.drop_first() =~= m.drop_first().push((peer, value)));
        lemma_match_of_push(m.drop_first(), peer, value, q);
    } else {
        assert(u[0] == (peer, value));
        assert(u.drop_first() =~= Seq::<(u64, u64)>::empty());
        assert(match_of(u.drop_first(), q) == 0);
    }
}

} // verus!
