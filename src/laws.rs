//! Safety properties of the protocol, proved over the node's abstract state.

use vstd::prelude::*;

use crate::log::{is_majority, queue_after, EntryView};
use crate::node::{agree_len, committed_kept, count_votes, merged, term_at, vote_kept, NodeView};

verus! {

proof fn lemma_disjoint_counts(ms: Seq<u64>, va: Seq<u64>, vb: Seq<u64>)
    requires
        forall|i: int| 0 <= i < ms.len() ==> !(va.contains(ms[i]) && vb.contains(ms[i])),
    ensures
        count_votes(ms, va) + count_votes(ms, vb) <= ms.len(),
    decreases ms.len(),
{
    if ms.len() > 0 {
        let d = ms.drop_last();
        assert forall|i: int| 0 <= i < d.len() implies !(va.contains(d[i]) && vb.contains(d[i])) by {
            assert(d[i] == ms[i]);
        }
        lemma_disjoint_counts(d, va, vb);
        assert(ms.last() == ms[ms.len() - 1]);
    }
}

/// Two strict majorities of the same members share a member: some member is in
/// both `va` and `vb`.
pub proof fn lemma_quorums_intersect(ms: Seq<u64>, va: Seq<u64>, vb: Seq<u64>)
    requires
        is_majority(count_votes(ms, va), ms.len()),
        is_majority(count_votes(ms, vb), ms.len()),
    ensures
        exists|i: int| 0 <= i < ms.len() && va.contains(ms[i]) && vb.contains(ms[i]),
{
    if !(exists|i: int| 0 <= i < ms.len() && va.contains(ms[i]) && vb.contains(ms[i])) {
        lemma_disjoint_counts(ms, va, vb);
    }
}

/// Election safety: two candidates that each hold votes from a strict majority of
/// the same members, where no member votes for two candidates in the term, are
/// the same candidate; so a term has at most one leader.
pub proof fn lemma_election_safety(ms: Seq<u64>, va: Seq<u64>, vb: Seq<u64>, a: u64, b: u64)
    requires
        is_majority(count_votes(ms, va), ms.len()),
        is_majority(count_votes(ms, vb), ms.len()),
        forall|m: u64| ms.contains(m) && va.contains(m) && vb.contains(m) ==> a == b,
    ensures
        a == b,
{
    lemma_quorums_intersect(ms, va, vb);
    let i = choose|i: int| 0 <= i < ms.len() && va.contains(ms[i]) && vb.contains(ms[i]);
    assert(ms.contains(ms[i]));
}

/// Election safety over the nodes of a cluster: take two nodes `a` and `b` that
/// won an election in the same term under the same committed membership, and
/// for each member a state `voters[m]` of that member in that term. When every
/// vote that `a` counted comes from a member whose state records its vote for
/// `a`, and likewise for `b`, then `a` and `b` are the same node. (A member's
/// vote in a term never changes, see `lemma_vote_uniqueness`, so one state per
/// member stands for the whole term.)
pub proof fn lemma_one_leader_per_term(a: NodeView, b: NodeView, voters: Map<u64, NodeView>)
    requires
        a.term == b.term,
        a.members() == b.members(),
        a.has_quorum(),
        b.has_quorum(),
        forall|m: u64|
            a.members().contains(m) && a.votes.contains(m) ==> voters.contains_key(m)
                && voters[m].term == a.term && voters[m].voted_for == Some(a.id),
        forall|m: u64|
            b.members().contains(m) && b.votes.contains(m) ==> voters.contains_key(m)
                && voters[m].term == b.term && voters[m].voted_for == Some(b.id),
    ensures
        a.id == b.id,
{
    let ms = a.members();
    lemma_quorums_intersect(ms, a.votes, b.votes);
    let i = choose|i: int| 0 <= i < ms.len() && a.votes.contains(ms[i]) && b.votes.contains(ms[i]);
    assert(ms.contains(ms[i]));
}

/// Vote uniqueness: once a node has voted in a term, every later state of that
/// term holds the same vote. `vote_kept` holds across each state change of a node
/// and chains from state to state.
pub proof fn lemma_vote_uniqueness(s1: NodeView, s2: NodeView, s3: NodeView, c1: u64, c2: u64)
    requires
        vote_kept(s1, s2),
        vote_kept(s2, s3),
        s1.term == s3.term,
        s1.voted_for == Some(c1),
        s3.voted_for == Some(c2),
    ensures
        vote_kept(s1, s3),
        c1 == c2,
{
}

proof fn lemma_agree_len_bounds(log: Seq<EntryView>, p: int, es: Seq<EntryView>)
    requires
        0 <= p,
    ensures
        agree_len(log, p, es) <= es.len(),
        agree_len(log, p, es) > 0 ==> p + agree_len(log, p, es) <= log.len(),
        forall|j: int| 0 <= j < agree_len(log, p, es) ==> log[p + j].0 == es[j].0,
    decreases es.len(),
{
    if es.len() > 0 && 0 <= p < log.len() && log[p].0 == es[0].0 {
        lemma_agree_len_bounds(log, p + 1, es.drop_first());
        assert forall|j: int| 0 <= j < agree_len(log, p, es) implies log[p + j].0 == es[j].0 by {
            if j > 0 {
                assert(es.drop_first()[j - 1] == es[j]);
            }
        }
    }
}

/// The step of log matching: after a follower accepts entries placed after index
/// `p`, its first `p` entries are as before, and the entries that follow agree in
/// term with those the leader sent, one for one; those it did not keep are the
/// leader's own.
pub proof fn lemma_log_matching_step(log: Seq<EntryView>, p: int, es: Seq<EntryView>)
    requires
        0 <= p <= log.len(),
    ensures
        merged(log, p, es).len() >= p + es.len(),
        merged(log, p, es).take(p) == log.take(p),
        forall|j: int| 0 <= j < es.len() ==> (#[trigger] merged(log, p, es)[p + j]).0 == es[j].0,
        forall|j: int| agree_len(log, p, es) <= j < es.len() ==> #[trigger] merged(log, p, es)[p + j] == es[j],
{
    lemma_agree_len_bounds(log, p, es);
    let k = agree_len(log, p, es);
    let m = merged(log, p, es);
    if k == es.len() {
        assert(m.take(p) =~= log.take(p));
    } else {
        assert(m.take(p) =~= log.take(p));
        assert forall|j: int| 0 <= j < es.len() implies (#[trigger] m[p + j]).0 == es[j].0 by {
            if j < k {
                assert(m[p + j] == log[p + j]);
            } else {
                assert(m[p + j] == es[j]);
            }
        }
    }
}

/// State machine safety on one node: the queue is a function of the applied
/// entries, so two nodes that applied the same entries hold the same queue.
pub proof fn lemma_same_applied_same_queue(v1: NodeView, v2: NodeView)
    requires
        v1.wf(),
        v2.wf(),
        v1.applied == v2.applied,
        v1.log.take(v1.applied as int) == v2.log.take(v2.applied as int),
    ensures
        v1.queue == v2.queue,
{
}

/// The committed entries of a node do not change when it takes in entries: the
/// log up to the old commit point is the same after `merged` whenever the first
/// divergence lies at or past it.
pub proof fn lemma_commit_kept(log: Seq<EntryView>, p: int, es: Seq<EntryView>, commit: int)
    requires
        0 <= commit <= log.len(),
        0 <= p <= log.len(),
        agree_len(log, p, es) == es.len() || p + agree_len(log, p, es) >= commit,
    ensures
        merged(log, p, es).take(commit) == log.take(commit),
{
    lemma_agree_len_bounds(log, p, es);
    assert(merged(log, p, es).take(commit) =~= log.take(commit));
}

/// State machine safety on one node: across any run of state changes, each of
/// which keeps the committed entries, an entry once committed stays the same;
/// and since the queue is the result of applying the log up to the apply point,
/// the command applied at an index is the one committed there, for good.
pub proof fn lemma_committed_entry_fixed(s1: NodeView, s2: NodeView, s3: NodeView, i: int)
    requires
        s1.wf(),
        s2.wf(),
        s3.wf(),
        committed_kept(s1, s2),
        committed_kept(s2, s3),
        0 <= i < s1.commit,
    ensures
        committed_kept(s1, s3),
        s3.log[i] == s1.log[i],
        i < s3.applied ==> s3.queue == queue_after(s3.log.take(s3.applied as int)),
{
    assert(s3.log.take(s1.commit as int) =~= s1.log.take(s1.commit as int)) by {
        assert(s3.log.take(s2.commit as int).take(s1.commit as int) =~= s3.log.take(s1.commit as int));
        assert(s2.log.take(s2.commit as int).take(s1.commit as int) =~= s2.log.take(s1.commit as int));
    }
    assert(s3.log.take(s1.commit as int)[i] == s3.log[i]);
}

/// Two logs match: wherever both hold an entry of the same term at the same
/// index, they agree on every entry up to that index.
pub open spec fn log_matching(a: Seq<EntryView>, b: Seq<EntryView>) -> bool {
    forall|i: int|
        #![trigger a[i], b[i]]
        0 <= i < a.len() && i < b.len() && a[i].0 == b[i].0 ==> a.take(i + 1) == b.take(i + 1)
}

/// Log matching is kept by replication: when a follower's log matches the
/// leader's and agrees with it on the term at `prev`, the log the follower keeps
/// after taking the leader's entries past `prev` starts with the leader's whole
/// log, and still matches it.
pub proof fn lemma_replication_keeps_log_matching(l: Seq<EntryView>, f: Seq<EntryView>, prev: int)
    requires
        log_matching(l, f),
        0 <= prev <= l.len(),
        prev <= f.len(),
        term_at(f, prev) == term_at(l, prev),
    ensures
        merged(f, prev, l.skip(prev)).len() >= l.len(),
        merged(f, prev, l.skip(prev)).take(l.len() as int) == l,
        log_matching(l, merged(f, prev, l.skip(prev))),
{
    let es = l.skip(prev);
    lemma_agree_len_bounds(f, prev, es);
    let k = agree_len(f, prev, es);
    if prev > 0 {
        assert(l[prev - 1] == l[prev - 1] && f[prev - 1] == f[prev - 1]);
        assert(l.take(prev) == f.take(prev));
    }
    assert forall|i: int| 0 <= i < prev + k implies f[i] == l[i] by {
        if i < prev {
            assert(f.take(prev)[i] == f[i]);
            assert(l.take(prev)[i] == l[i]);
        } else {
            assert(es[i - prev] == l[i]);
            assert(f[i].0 == l[i].0);
            assert(l.take(i + 1) == f.take(i + 1));
            assert(f.take(i + 1)[i] == f[i]);
            assert(l.take(i + 1)[i] == l[i]);
        }
    }
    let m = merged(f, prev, es);
    if k == es.len() {
        assert(m.take(l.len() as int) =~= l);
    } else {
        assert(m =~= l);
        assert(m.take(l.len() as int) =~= l);
    }
    assert forall|i: int|
        #![trigger l[i], m[i]]
        0 <= i < l.len() && i < m.len() && l[i].0 == m[i].0 implies l.take(i + 1) == m.take(i + 1) by {
        assert(m.take(l.len() as int)[i] == m[i]);
        assert(l.take(i + 1) =~= m.take(i + 1));
    }
}

} // verus!
