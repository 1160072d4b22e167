use raft_mq::log::Command;
use raft_mq::log::LogEntry;
use raft_mq::node::{
    next_match_of, timeout_from_draw, AppendReply, AppendRequest, ApplyOutcome, PendingStatus, RaftError,
    RaftNode, Role, TickAction, VoteReply, VoteRequest,
};

fn sync(nodes: &mut Vec<RaftNode>, leader: usize) {
    for _ in 0..2 {
        for i in 0..nodes.len() {
            if i == leader {
                continue;
            }
            let peer = nodes[i].id();
            let req = nodes[leader].append_request_for(peer);
            let reply = nodes[i].handle_append_entries(req, 5);
            nodes[leader].handle_append_reply(peer, reply, 5);
        }
    }
}

fn apply_all(node: &mut RaftNode) -> Vec<ApplyOutcome> {
    let mut out = Vec::new();
    while let Some(a) = node.apply_next() {
        out.push(a.outcome);
    }
    out
}

/// Node 1 founds the cluster, 2 and 3 join through it.
fn three_nodes() -> Vec<RaftNode> {
    let mut nodes = vec![
        RaftNode::new(1, None, 5),
        RaftNode::new(2, Some(1), 6),
        RaftNode::new(3, Some(1), 7),
    ];
    assert_eq!(nodes[0].apply_membership(2), Ok(2));
    sync(&mut nodes, 0);
    assert_eq!(nodes[0].apply_membership(3), Ok(3));
    sync(&mut nodes, 0);
    for n in nodes.iter_mut() {
        apply_all(n);
    }
    nodes
}

#[test]
fn three_node_cluster_bootstrap() {
    let nodes = three_nodes();
    for n in nodes.iter() {
        assert_eq!(n.members(), vec![1, 2, 3]);
        assert_eq!(n.commit_index(), 3);
    }
    let leaders = nodes.iter().filter(|n| n.role() == Role::Leader).count();
    assert_eq!(leaders, 1);
    assert_eq!(nodes[0].role(), Role::Leader);
    assert_eq!(nodes[1].leader(), Some(1));
}

#[test]
fn join_counts_only_after_commit() {
    let mut nodes = vec![RaftNode::new(1, None, 5), RaftNode::new(2, Some(1), 6), RaftNode::new(3, Some(1), 7)];
    assert_eq!(nodes[0].apply_membership(2), Ok(2));
    assert_eq!(nodes[0].members(), vec![1, 2]);
    assert_eq!(nodes[0].apply_membership(3), Ok(3));
    // With two members, the entry that adds the third waits for the second.
    assert_eq!(nodes[0].commit_index(), 2);
    assert_eq!(nodes[0].members(), vec![1, 2]);
    sync(&mut nodes, 0);
    assert_eq!(nodes[0].commit_index(), 3);
}

#[test]
fn partitioned_leader_is_replaced() {
    let mut nodes = three_nodes();
    let old_term = nodes[0].current_term();
    // Node 1 hears nothing; node 2 times out first.
    let mut action = TickAction::Wait;
    for _ in 0..6 {
        action = nodes[1].tick(6);
        if action != TickAction::Wait {
            break;
        }
        assert_eq!(nodes[2].tick(7), TickAction::Wait);
    }
    let req = match action {
        TickAction::RequestVotes(r) => r,
        _ => panic!("no election"),
    };
    assert_eq!(nodes[1].role(), Role::Candidate);
    assert_eq!(req.term, old_term + 1);
    let reply = nodes[2].handle_vote_request(req, 5);
    assert!(reply.granted);
    assert!(nodes[1].handle_vote_reply(3, reply, 5));
    assert_eq!(nodes[1].role(), Role::Leader);
    assert_eq!(nodes[1].current_term(), old_term + 1);
    // The old leader steps down on the first message of the new term.
    let hb = nodes[1].append_request_for(1);
    let r = nodes[0].handle_append_entries(hb, 5);
    assert!(r.success);
    assert_eq!(nodes[0].role(), Role::Follower);
    assert_eq!(nodes[0].leader(), Some(2));
    assert_eq!(nodes[0].current_term(), old_term + 1);
}

#[test]
fn enqueue_then_dequeue_on_follower() {
    let mut nodes = three_nodes();
    assert_eq!(nodes[0].execute(Command::Enqueue("x".to_string())), Ok(4));
    sync(&mut nodes, 0);
    assert_eq!(nodes[0].execute(Command::Dequeue), Ok(5));
    sync(&mut nodes, 0);
    for n in nodes.iter_mut() {
        assert_eq!(n.commit_index(), 5);
        let out = apply_all(n);
        assert_eq!(out.len(), 2);
        assert!(matches!(out[0], ApplyOutcome::Pushed));
        match &out[1] {
            ApplyOutcome::Popped(s) => assert_eq!(s, "x"),
            other => panic!("unexpected {:?}", other),
        }
        assert_eq!(n.queue_len(), 0);
    }
}

#[test]
fn dequeue_on_empty_queue() {
    let mut n = RaftNode::new(1, None, 5);
    assert_eq!(n.execute(Command::Dequeue), Ok(2));
    assert_eq!(n.commit_index(), 2);
    let a = n.apply_next().unwrap();
    assert_eq!((a.index, a.term), (2, 1));
    assert!(matches!(a.outcome, ApplyOutcome::QueueEmpty));
    assert!(n.apply_next().is_none());
    assert_eq!(n.role(), Role::Leader);
}

#[test]
fn split_vote_retries_with_higher_term() {
    let mut nodes = three_nodes();
    let t = nodes[0].current_term();
    let mut ra = None;
    let mut rb = None;
    for _ in 0..8 {
        if ra.is_none() {
            if let TickAction::RequestVotes(x) = nodes[1].tick(6) {
                ra = Some(x);
            }
        }
        if rb.is_none() {
            if let TickAction::RequestVotes(y) = nodes[2].tick(6) {
                rb = Some(y);
            }
        }
    }
    let (ra, rb) = (ra.expect("expected a candidate"), rb.expect("expected a candidate"));
    assert_eq!(ra.term, t + 1);
    assert_eq!(rb.term, t + 1);
    // Each has voted for itself: neither grants the other.
    let to_b = nodes[2].handle_vote_request(ra, 5);
    let to_a = nodes[1].handle_vote_request(rb, 5);
    assert!(!to_b.granted);
    assert!(!to_a.granted);
    assert!(!nodes[1].handle_vote_reply(3, to_a, 5));
    assert!(!nodes[2].handle_vote_reply(2, to_b, 5));
    assert_eq!(nodes[1].role(), Role::Candidate);
    assert_eq!(nodes[2].role(), Role::Candidate);
    // The timers run out again: a new term with a fresh timeout.
    let mut retried = false;
    for _ in 0..6 {
        if let TickAction::RequestVotes(r) = nodes[1].tick(8) {
            assert_eq!(r.term, t + 2);
            retried = true;
            break;
        }
    }
    assert!(retried);
    assert_eq!(nodes[1].current_term(), t + 2);
    assert_eq!(nodes[1].election_timeout(), 8);
    assert_eq!(nodes[1].role(), Role::Candidate);
}

#[test]
fn one_vote_per_term() {
    let mut n = RaftNode::new(9, Some(1), 5);
    let a = VoteRequest { term: 3, candidate: 1, last_log_index: 0, last_log_term: 0 };
    let b = VoteRequest { term: 3, candidate: 2, last_log_index: 0, last_log_term: 0 };
    assert_eq!(n.handle_vote_request(a, 5), VoteReply { term: 3, granted: true });
    assert_eq!(n.handle_vote_request(b, 5), VoteReply { term: 3, granted: false });
    assert_eq!(n.handle_vote_request(a, 5), VoteReply { term: 3, granted: true });
    assert_eq!(n.voted_for(), Some(1));
}

#[test]
fn stale_vote_request_is_denied() {
    let mut n = RaftNode::new(1, None, 5);
    let r = n.handle_vote_request(VoteRequest { term: 0, candidate: 2, last_log_index: 9, last_log_term: 9 }, 5);
    assert_eq!(r, VoteReply { term: 1, granted: false });
    assert_eq!(n.role(), Role::Leader);
}

#[test]
fn outdated_log_gets_no_vote_but_term_is_adopted() {
    let mut n = RaftNode::new(1, None, 5);
    let r = n.handle_vote_request(VoteRequest { term: 4, candidate: 2, last_log_index: 0, last_log_term: 0 }, 5);
    assert_eq!(r, VoteReply { term: 4, granted: false });
    assert_eq!(n.role(), Role::Follower);
    assert_eq!(n.voted_for(), None);
    assert_eq!(n.leader(), None);
}

#[test]
fn higher_term_reply_demotes_leader() {
    let mut n = RaftNode::new(1, None, 5);
    assert!(!n.handle_vote_reply(2, VoteReply { term: 7, granted: false }, 5));
    assert_eq!(n.role(), Role::Follower);
    assert_eq!(n.current_term(), 7);
}

#[test]
fn non_leader_rejects_commands() {
    let mut n = RaftNode::new(2, Some(1), 5);
    assert_eq!(n.execute(Command::Enqueue("a".to_string())), Err(RaftError::NoLeader));
    let mut nodes = three_nodes();
    assert_eq!(nodes[1].execute(Command::Dequeue), Err(RaftError::NotLeader(1)));
}

#[test]
fn stale_and_mismatched_appends_are_refused() {
    let mut nodes = three_nodes();
    let mut req = nodes[0].append_request_for(2);
    req.term = 0;
    let r = nodes[1].handle_append_entries(req, 5);
    assert!(!r.success);
    assert_eq!(r.term, 1);
    let mut req = nodes[0].append_request_for(2);
    req.prev_log_index = 3;
    req.prev_log_term = 5;
    let r = nodes[1].handle_append_entries(req, 5);
    assert!(!r.success);
    assert_eq!(r.match_index, 2);
    assert_eq!(nodes[1].log_len(), 3);
}

#[test]
fn leader_heartbeats_every_interval() {
    let mut n = RaftNode::new(1, None, 5);
    assert_eq!(n.tick(5), TickAction::Wait);
    assert_eq!(n.tick(5), TickAction::SendHeartbeats);
    assert_eq!(n.tick(5), TickAction::Wait);
    assert_eq!(n.tick(5), TickAction::SendHeartbeats);
}

#[test]
fn non_member_does_not_start_an_election() {
    let mut n = RaftNode::new(2, Some(1), 5);
    for _ in 0..20 {
        assert_eq!(n.tick(5), TickAction::Wait);
    }
    assert_eq!(n.current_term(), 0);
    assert_eq!(n.role(), Role::Follower);
}

#[test]
fn lone_member_reelects_itself() {
    let mut n = RaftNode::new(1, None, 5);
    n.handle_vote_reply(2, VoteReply { term: 2, granted: false }, 5);
    assert_eq!(n.role(), Role::Follower);
    let mut last = TickAction::Wait;
    for _ in 0..5 {
        last = n.tick(6);
    }
    assert!(matches!(last, TickAction::RequestVotes(r) if r.term == 3 && r.candidate == 1));
    assert_eq!(n.role(), Role::Leader);
    assert_eq!(n.leader(), Some(1));
}

#[test]
fn uncommitted_entry_of_old_leader_is_replaced() {
    let mut nodes = three_nodes();
    // Node 1 takes a command that never leaves it.
    assert_eq!(nodes[0].execute(Command::Enqueue("lost".to_string())), Ok(4));
    assert_eq!(nodes[0].commit_index(), 3);
    // Node 2 wins term 2 with the vote of node 3.
    let mut req = None;
    for _ in 0..6 {
        if let TickAction::RequestVotes(r) = nodes[1].tick(6) {
            req = Some(r);
            break;
        }
    }
    let req = req.unwrap();
    let reply = nodes[2].handle_vote_request(req, 5);
    assert!(nodes[1].handle_vote_reply(3, reply, 5));
    assert_eq!(nodes[1].execute(Command::Enqueue("kept".to_string())), Ok(4));
    sync(&mut nodes, 1);
    assert_eq!(nodes[1].execute(Command::Dequeue), Ok(5));
    sync(&mut nodes, 1);
    for n in nodes.iter_mut() {
        assert_eq!(n.log_len(), 5);
        assert_eq!(n.commit_index(), 5);
        let out = apply_all(n);
        match &out[..] {
            [ApplyOutcome::Pushed, ApplyOutcome::Popped(s)] => assert_eq!(s, "kept"),
            other => panic!("unexpected {:?}", other),
        }
    }
    assert_eq!(nodes[0].role(), Role::Follower);
    assert_eq!(nodes[0].current_term(), 2);
}

#[test]
fn mismatch_reports_index_below_prev() {
    let mut n = RaftNode::new(1, None, 5);
    let req = AppendRequest { term: 1, leader: 2, prev_log_index: 1, prev_log_term: 7, entries: Vec::new(), leader_commit: 0 };
    let r = n.handle_append_entries(req, 6);
    assert_eq!(r, AppendReply { term: 1, success: false, match_index: 0 });
    assert_eq!(n.election_timeout(), 6);
    let req = AppendRequest { term: 1, leader: 2, prev_log_index: 9, prev_log_term: 1, entries: Vec::new(), leader_commit: 0 };
    assert_eq!(n.handle_append_entries(req, 5).match_index, 1);
}

#[test]
fn committed_entry_is_never_replaced() {
    let mut n = RaftNode::new(1, None, 5);
    let entries = vec![LogEntry { term: 2, command: Command::Dequeue }];
    let req = AppendRequest { term: 2, leader: 2, prev_log_index: 0, prev_log_term: 0, entries, leader_commit: 1 };
    let r = n.handle_append_entries(req, 7);
    assert_eq!(r, AppendReply { term: 2, success: false, match_index: 0 });
    assert_eq!(n.log_len(), 1);
    assert_eq!(n.commit_index(), 1);
    assert_eq!(n.role(), Role::Follower);
    assert_eq!(n.election_timeout(), 7);
}

#[test]
fn follower_takes_entries_after_matching_prev() {
    let mut n = RaftNode::new(2, Some(1), 5);
    let entries = vec![
        LogEntry { term: 1, command: Command::AddMember(1) },
        LogEntry { term: 1, command: Command::Enqueue("a".to_string()) },
    ];
    let req = AppendRequest { term: 1, leader: 1, prev_log_index: 0, prev_log_term: 0, entries, leader_commit: 9 };
    let r = n.handle_append_entries(req, 8);
    assert_eq!(r, AppendReply { term: 1, success: true, match_index: 2 });
    assert_eq!(n.commit_index(), 2);
    assert_eq!(n.leader(), Some(1));
    assert_eq!(n.election_timeout(), 8);
}

#[test]
fn granted_vote_redraws_timeout() {
    let mut n = RaftNode::new(9, Some(1), 5);
    n.handle_vote_request(VoteRequest { term: 1, candidate: 1, last_log_index: 0, last_log_term: 0 }, 8);
    assert_eq!(n.election_timeout(), 8);
    let r = n.handle_vote_request(VoteRequest { term: 1, candidate: 2, last_log_index: 0, last_log_term: 0 }, 6);
    assert!(!r.granted);
    assert_eq!(n.election_timeout(), 8);
}

#[test]
fn leader_progress_moves_back_on_refusal() {
    assert_eq!(next_match_of(5, AppendReply { term: 1, success: false, match_index: 4 }, 9), 4);
    assert_eq!(next_match_of(5, AppendReply { term: 1, success: false, match_index: 2 }, 9), 2);
    assert_eq!(next_match_of(0, AppendReply { term: 1, success: false, match_index: 3 }, 9), 0);
    assert_eq!(next_match_of(5, AppendReply { term: 1, success: true, match_index: 3 }, 9), 5);
    assert_eq!(next_match_of(5, AppendReply { term: 1, success: true, match_index: 12 }, 9), 9);
}

#[test]
fn pending_requests_fail_only_above_commit() {
    let mut nodes = three_nodes();
    assert_eq!(nodes[0].execute(Command::Dequeue), Ok(4));
    assert_eq!(nodes[0].pending_status(4, 1), PendingStatus::Wait);
    assert_eq!(nodes[0].pending_status(4, 2), PendingStatus::Fail(RaftError::NotLeader(1)));
    nodes[0].handle_vote_reply(2, VoteReply { term: 5, granted: false }, 5);
    assert_eq!(nodes[0].pending_status(3, 1), PendingStatus::Wait);
    assert_eq!(nodes[0].pending_status(4, 1), PendingStatus::Fail(RaftError::NoLeader));
    assert_eq!(nodes[1].pending_status(7, 1), PendingStatus::Fail(RaftError::NotLeader(1)));
}

#[test]
fn timeouts_from_draws() {
    assert_eq!(timeout_from_draw(0), 5);
    assert_eq!(timeout_from_draw(3), 8);
    assert_eq!(timeout_from_draw(6), 7);
    assert_eq!(timeout_from_draw(u64::MAX), 8);
}

#[test]
fn replaced_entry_of_deposed_leader_fails_its_client() {
    let mut nodes = three_nodes();
    // Node 1 takes a client's command at index 4 in term 1, then is cut off.
    assert_eq!(nodes[0].execute(Command::Enqueue("a".to_string())), Ok(4));
    assert_eq!(nodes[0].pending_status(4, 1), PendingStatus::Wait);
    // Node 2 wins term 2 with node 3 and commits its own entry at index 4.
    let mut req = None;
    for _ in 0..6 {
        if let TickAction::RequestVotes(r) = nodes[1].tick(6) {
            req = Some(r);
            break;
        }
    }
    let reply = nodes[2].handle_vote_request(req.unwrap(), 5);
    assert!(nodes[1].handle_vote_reply(3, reply, 5));
    assert_eq!(nodes[1].execute(Command::Enqueue("b".to_string())), Ok(4));
    let to_c = nodes[1].append_request_for(3);
    let r = nodes[2].handle_append_entries(to_c, 5);
    nodes[1].handle_append_reply(3, r, 5);
    assert_eq!(nodes[1].commit_index(), 4);
    // The partition heals: node 1 follows, its index 4 is replaced and committed.
    let to_a = nodes[1].append_request_for(1);
    let r = nodes[0].handle_append_entries(to_a, 5);
    assert!(r.success);
    assert_eq!(nodes[0].role(), Role::Follower);
    assert_eq!(nodes[0].commit_index(), 4);
    assert_eq!(nodes[0].pending_status(4, 1), PendingStatus::Fail(RaftError::NotLeader(2)));
    assert_eq!(nodes[0].pending_status(4, 2), PendingStatus::Wait);
    let a = nodes[0].apply_next().unwrap();
    assert_eq!((a.index, a.term), (4, 2));
    assert!(matches!(a.outcome, ApplyOutcome::Pushed));
}

#[test]
fn peers_are_members_and_joiners_without_self() {
    let nodes = three_nodes();
    assert_eq!(nodes[0].peers(&vec![]), vec![2, 3]);
    assert_eq!(nodes[0].peers(&vec![3, 4, 1, 4]), vec![2, 3, 4]);
    assert_eq!(nodes[1].peers(&vec![]), vec![1, 3]);
}
