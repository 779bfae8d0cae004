use std::collections::HashSet;
use rust_practice::bank::Accounts;
use rust_practice::protocol::{
    Accept, AppendEntry, AppendEntryResponse, Command, EntryData, LogEntry, LogInfo, Message, Node,
    RaftNode, RequestVote, Role, Timeout, Vote, ELECTION_MAX_MS, ELECTION_MIN_MS, HEARTBEAT_MS,
};

fn open(name: &str) -> Command {
    Command::Open { account: name.to_string() }
}

fn deposit(name: &str, amount: usize) -> Command {
    Command::Deposit { account: name.to_string(), amount }
}

fn withdraw(name: &str, amount: usize) -> Command {
    Command::Withdraw { account: name.to_string(), amount }
}

fn transfer(src: &str, dst: &str, amount: usize) -> Command {
    Command::Transfer { src: src.to_string(), dst: dst.to_string(), amount }
}

fn balance(book: &Accounts, name: &str) -> Option<usize> {
    book.balance(&name.to_string())
}

#[test]
fn bank_commands_change_balances() {
    let mut book = Accounts::new();
    book.apply(&open("Alice"));
    book.apply(&deposit("Alice", 50));
    book.apply(&open("Bob"));
    book.apply(&deposit("Bob", 150));
    assert_eq!(balance(&book, "Alice"), Some(50));
    book.apply(&transfer("Bob", "Alice", 30));
    assert_eq!(balance(&book, "Alice"), Some(80));
    assert_eq!(balance(&book, "Bob"), Some(120));
    book.apply(&withdraw("Alice", 20));
    assert_eq!(balance(&book, "Alice"), Some(60));
}

#[test]
fn failed_bank_commands_change_nothing() {
    let mut book = Accounts::new();
    book.apply(&deposit("Nobody", 5));
    assert_eq!(balance(&book, "Nobody"), None);
    book.apply(&open("Carol"));
    book.apply(&deposit("Carol", 10));
    // opening again keeps the balance
    book.apply(&open("Carol"));
    assert_eq!(balance(&book, "Carol"), Some(10));
    // more than the balance
    book.apply(&withdraw("Carol", 11));
    book.apply(&transfer("Carol", "Carol", 11));
    assert_eq!(balance(&book, "Carol"), Some(10));
    // a transfer to a missing account
    book.apply(&transfer("Carol", "Dave", 5));
    assert_eq!(balance(&book, "Carol"), Some(10));
    // a transfer to the same account leaves it as it was
    book.apply(&transfer("Carol", "Carol", 10));
    assert_eq!(balance(&book, "Carol"), Some(10));
}

#[test]
fn log_info_compares_term_then_length() {
    let a = LogInfo { latest_term: 1, len: 9 };
    let b = LogInfo { latest_term: 2, len: 1 };
    assert!(a.is_at_most(&b));
    assert!(!b.is_at_most(&a));
    assert!(a.is_at_most(&a));
    assert!(!LogInfo { latest_term: 1, len: 10 }.is_at_most(&a));
}

#[test]
fn election_timeout_lies_in_the_window() {
    let mut t = Timeout::new();
    assert_eq!(t.timeout, 0);
    for now in [0u64, 1000, 123_456] {
        let d = t.reset_election_timeout(now);
        assert!(now + ELECTION_MIN_MS <= d && d <= now + ELECTION_MAX_MS);
        assert_eq!(t.timeout, d);
    }
    assert_eq!(t.reset_heartbeat(500), 500 + HEARTBEAT_MS);
}

#[test]
fn election_deadline_is_the_wait_after_now() {
    let mut t = Timeout::new();
    assert_eq!(t.set_election_deadline(1000, 217), 1217);
    assert_eq!(t.timeout, 1217);
    assert_eq!(t.set_election_deadline(0, ELECTION_MAX_MS), ELECTION_MAX_MS);
}

fn cluster_node(id: usize, peers: &[usize]) -> RaftNode {
    let mut node = RaftNode::new(id);
    for &p in peers {
        node.dispatch(Message::Accept(Accept::new(p)), 0);
    }
    node
}

fn take_outbox(node: &mut RaftNode) -> Vec<(usize, Message)> {
    std::mem::take(&mut node.outbox)
}

#[test]
fn accept_adds_each_peer_once() {
    let mut node = cluster_node(0, &[1, 2]);
    assert_eq!(node.nodes.len(), 2);
    node.nodes.set_link_up(0, false);
    node.dispatch(Message::Accept(Accept::new(1)), 0);
    assert_eq!(node.nodes.len(), 2);
    assert!(node.nodes.get(0).link_up);
    let fresh = Node::new(4);
    assert!(fresh.link_up && fresh.pending_entry.is_none());
}

#[test]
fn timeout_starts_an_election() {
    let mut node = cluster_node(0, &[1, 2]);
    node.on_timeout(1000);
    assert_eq!(node.role, Role::Candidate);
    assert_eq!(node.term, 1);
    assert_eq!(node.votes, 1);
    assert!(node.timeout.timeout >= 1000 + ELECTION_MIN_MS);
    let out = take_outbox(&mut node);
    assert_eq!(out.len(), 2);
    for (to, msg) in &out {
        assert!(*to == 1 || *to == 2);
        match msg {
            Message::RequestVote(r) => {
                assert_eq!(r.node_id, 0);
                assert_eq!(r.term, 1);
                assert_eq!(r.latest_log_info, LogInfo { latest_term: 0, len: 0 });
            }
            _ => panic!("expected a vote request"),
        }
    }
}

/// A node of a three-node cluster that has won the election of term 1.
fn leader() -> RaftNode {
    let mut node = cluster_node(0, &[1, 2]);
    node.on_timeout(0);
    node.dispatch(Message::Vote(Vote { term: 1 }), 10);
    take_outbox(&mut node);
    node
}

#[test]
fn majority_of_votes_makes_a_leader() {
    let mut node = cluster_node(0, &[1, 2]);
    node.on_timeout(0);
    take_outbox(&mut node);
    // a vote of another term is not counted
    node.dispatch(Message::Vote(Vote { term: 7 }), 5);
    assert_eq!(node.votes, 1);
    node.dispatch(Message::Vote(Vote { term: 1 }), 10);
    assert_eq!(node.role, Role::Leader);
    assert_eq!(node.timeout.timeout, 10 + HEARTBEAT_MS);
    let out = take_outbox(&mut node);
    assert_eq!(out.len(), 2);
    assert!(out.iter().all(|(_, m)| matches!(m, Message::AppendEntry(a) if a.term == 1 && a.entry.is_none())));
}

#[test]
fn leader_replicates_and_commits_on_majority() {
    let mut node = leader();
    node.dispatch(Message::Command(open("Alice")), 20);
    assert_eq!(node.log.len(), 1);
    let out = take_outbox(&mut node);
    assert_eq!(out.len(), 2);
    for (_, m) in &out {
        match m {
            Message::AppendEntry(a) => {
                let e = a.entry.as_ref().unwrap();
                assert_eq!((e.index, e.prev_term, e.term), (0, 0, 1));
            }
            _ => panic!("expected an entry"),
        }
    }
    assert!((0..node.nodes.len()).all(|i| node.nodes.get(i).pending_entry.is_some()));
    node.dispatch(
        Message::AppendEntryResponse(AppendEntryResponse { node_id: 1, term: 1, index: 0, success: true }),
        30,
    );
    assert_eq!(node.committed, 1);
    assert_eq!(node.journal.len(), 1);
    assert_eq!(balance(&node.book, "Alice"), Some(0));
    assert_eq!(node.log_entry_success[0], HashSet::from([0, 1]));
    // nothing after entry 0 yet: the peer waits for nothing
    assert!(node.nodes.get(0).pending_entry.is_none());
    assert!(take_outbox(&mut node).is_empty());
}

#[test]
fn failed_answer_steps_back_one_entry() {
    let mut node = leader();
    node.dispatch(Message::Command(open("A")), 20);
    node.dispatch(Message::Command(deposit("A", 3)), 21);
    take_outbox(&mut node);
    node.dispatch(
        Message::AppendEntryResponse(AppendEntryResponse { node_id: 2, term: 1, index: 1, success: false }),
        30,
    );
    assert_eq!(node.committed, 0);
    let out = take_outbox(&mut node);
    assert_eq!(out.len(), 1);
    match &out[0] {
        (2, Message::AppendEntry(a)) => assert_eq!(a.entry.as_ref().unwrap().index, 0),
        _ => panic!("expected entry 0 for node 2"),
    }
}

#[test]
fn follower_takes_entries_and_commits_with_the_leader() {
    let mut node = cluster_node(1, &[0, 2]);
    let entry = EntryData { index: 0, prev_term: 0, term: 1, command: open("Bob") };
    node.dispatch(
        Message::AppendEntry(AppendEntry { node_id: 0, term: 1, committed: 0, entry: Some(entry) }),
        100,
    );
    assert_eq!(node.role, Role::Follower);
    assert_eq!(node.leader, Some(0));
    assert_eq!(node.term, 1);
    assert_eq!(node.log.len(), 1);
    let out = take_outbox(&mut node);
    match &out[..] {
        [(0, Message::AppendEntryResponse(r))] => assert!(r.success && r.index == 0 && r.node_id == 1),
        _ => panic!("expected one answer to the leader"),
    }
    assert!(node.timeout.timeout >= 100 + ELECTION_MIN_MS);
    node.dispatch(
        Message::AppendEntry(AppendEntry { node_id: 0, term: 1, committed: 1, entry: None }),
        200,
    );
    assert_eq!(node.committed, 1);
    assert_eq!(balance(&node.book, "Bob"), Some(0));
}

#[test]
fn mismatching_entry_is_refused() {
    let mut node = cluster_node(1, &[0]);
    let entry = EntryData { index: 3, prev_term: 1, term: 1, command: open("X") };
    node.dispatch(
        Message::AppendEntry(AppendEntry { node_id: 0, term: 1, committed: 0, entry: Some(entry) }),
        0,
    );
    assert!(node.log.is_empty());
    match &take_outbox(&mut node)[..] {
        [(0, Message::AppendEntryResponse(r))] => assert!(!r.success),
        _ => panic!("expected a refusal"),
    }
}

#[test]
fn stale_messages_are_ignored() {
    let mut node = leader();
    node.term = 5;
    node.dispatch(
        Message::AppendEntry(AppendEntry { node_id: 1, term: 4, committed: 0, entry: None }),
        0,
    );
    assert_eq!(node.role, Role::Leader);
    assert!(node.outbox.is_empty());
}

#[test]
fn votes_go_to_up_to_date_candidates_only() {
    let mut node = cluster_node(2, &[0, 1]);
    node.log.push(LogEntry::new(1, open("Y")));
    node.log_entry_success.push(HashSet::from([2]));
    let stale = LogInfo { latest_term: 0, len: 5 };
    node.dispatch(
        Message::RequestVote(RequestVote { node_id: 0, term: 3, latest_log_info: stale }),
        0,
    );
    assert_eq!(node.term, 3);
    assert!(node.outbox.is_empty());
    let fresh = LogInfo { latest_term: 1, len: 1 };
    node.dispatch(
        Message::RequestVote(RequestVote { node_id: 1, term: 4, latest_log_info: fresh }),
        50,
    );
    assert_eq!(node.term, 4);
    assert_eq!(node.role, Role::Follower);
    assert_eq!(node.leader, None);
    match &take_outbox(&mut node)[..] {
        [(1, Message::Vote(v))] => assert_eq!(v.term, 4),
        _ => panic!("expected a vote for node 1"),
    }
}

#[test]
fn follower_forwards_commands_to_its_leader() {
    let mut node = cluster_node(1, &[0, 2]);
    // no leader known: the command waits
    node.dispatch(Message::Command(open("Q")), 0);
    assert_eq!(node.pending_cmds.len(), 1);
    // the link to the leader is down: it keeps waiting
    node.nodes.set_link_up(0, false);
    node.dispatch(
        Message::AppendEntry(AppendEntry { node_id: 0, term: 1, committed: 0, entry: None }),
        0,
    );
    assert_eq!(node.pending_cmds.len(), 1);
    node.nodes.set_link_up(0, true);
    node.dispatch(Message::Command(deposit("Q", 1)), 0);
    assert!(node.pending_cmds.is_empty());
    let out = take_outbox(&mut node);
    assert_eq!(out.len(), 2);
    assert!(out.iter().all(|(to, m)| *to == 0 && matches!(m, Message::Command(_))));
}

#[test]
fn new_leader_logs_waiting_commands() {
    let mut node = cluster_node(0, &[1, 2]);
    node.dispatch(Message::Command(open("W")), 0);
    node.on_timeout(0);
    node.dispatch(Message::Vote(Vote { term: 1 }), 0);
    assert_eq!(node.role, Role::Leader);
    assert!(node.pending_cmds.is_empty());
    assert_eq!(node.log.len(), 1);
    assert_eq!(node.log[0].term, 1);
    assert_eq!(node.log_entry_success[0], HashSet::from([0]));
}

#[test]
fn leader_timeout_sends_heartbeats() {
    let mut node = leader();
    node.on_timeout(1000);
    assert_eq!(node.timeout.timeout, 1000 + HEARTBEAT_MS);
    let out = take_outbox(&mut node);
    assert_eq!(out.len(), 2);
    assert!(out.iter().all(|(_, m)| matches!(m, Message::AppendEntry(_))));
    assert_eq!(node.role, Role::Leader);
    assert_eq!(node.term, 1);
}

#[test]
fn log_helpers_describe_entries() {
    let mut node = RaftNode::new(0);
    assert_eq!(node.latest_log_info(), LogInfo { latest_term: 0, len: 0 });
    node.push_log_entry(LogEntry::new(2, open("a")));
    node.push_log_entry(LogEntry::new(3, open("b")));
    assert_eq!(node.latest_log_info(), LogInfo { latest_term: 3, len: 2 });
    assert_eq!(node.prev_entry_term(0), 0);
    assert_eq!(node.prev_entry_term(1), 2);
    assert_eq!(node.prev_entry_term(2), 3);
    assert_eq!(node.prev_entry_term(9), 0);
    let e = node.new_entry_data(1).unwrap();
    assert_eq!((e.index, e.prev_term, e.term), (1, 2, 3));
    assert!(node.new_entry_data(2).is_none());
    node.truncate_log(1);
    assert_eq!(node.log.len(), 1);
    assert_eq!(node.log_entry_success.len(), 1);
    node.apply_log(0);
    assert_eq!(node.journal.len(), 1);
    assert_eq!(balance(&node.book, "a"), Some(0));
}

#[test]
fn book_copies_and_overflow_checks() {
    let mut book = Accounts::new();
    book.apply(&open("R"));
    book.apply(&deposit("R", usize::MAX - 1));
    assert!(book.fits(&deposit("R", 1)));
    assert!(!book.fits(&deposit("R", 2)));
    assert!(book.fits(&deposit("missing", usize::MAX)));
    book.apply(&open("S"));
    book.apply(&deposit("S", 5));
    assert!(!book.fits(&transfer("S", "R", 2)));
    assert!(book.fits(&transfer("R", "R", 7)));
    assert!(book.fits(&transfer("S", "R", 6)));
    let copy = book.duplicate();
    assert_eq!(balance(&copy, "R"), Some(usize::MAX - 1));
    assert_eq!(balance(&copy, "S"), Some(5));
}

#[test]
fn admission_follows_what_handling_needs() {
    let mut node = leader();
    // an answer from an unknown peer cannot be handled
    let unknown = Message::AppendEntryResponse(AppendEntryResponse { node_id: 9, term: 1, index: 0, success: true });
    assert!(!node.admits(&unknown));
    // an answer for an entry beyond the log cannot be counted
    let beyond = Message::AppendEntryResponse(AppendEntryResponse { node_id: 1, term: 1, index: 0, success: true });
    assert!(!node.admits(&beyond));
    // a failed answer for entry 0 has no entry before it
    let first = Message::AppendEntryResponse(AppendEntryResponse { node_id: 1, term: 1, index: 0, success: false });
    assert!(!node.admits(&first));
    // answers of other terms are ignored, so any will do
    let other = Message::AppendEntryResponse(AppendEntryResponse { node_id: 9, term: 4, index: 0, success: false });
    assert!(node.admits(&other));
    node.dispatch(Message::Command(open("T")), 0);
    node.dispatch(Message::Command(deposit("T", usize::MAX)), 0);
    node.dispatch(Message::Command(deposit("T", 1)), 0);
    assert!(node.commit_fits(2));
    assert!(!node.commit_fits(3));
    assert!(node.commit_fits(0));
    let ok = Message::AppendEntryResponse(AppendEntryResponse { node_id: 1, term: 1, index: 1, success: true });
    assert!(node.admits(&ok));
    let overflow = Message::AppendEntryResponse(AppendEntryResponse { node_id: 1, term: 1, index: 2, success: true });
    assert!(!node.admits(&overflow));
    assert!(node.admits(&Message::Accept(Accept::new(9))));
    assert!(node.admits(&Message::Vote(Vote { term: 1 })));
    let vote_req = Message::RequestVote(RequestVote { node_id: 9, term: 5, latest_log_info: LogInfo { latest_term: 9, len: 9 } });
    assert!(!node.admits(&vote_req));
}

#[test]
fn election_waits_vary() {
    let mut t = Timeout::new();
    let mut seen = std::collections::HashSet::new();
    for _ in 0..100 {
        seen.insert(t.reset_election_timeout(1000));
    }
    // the wait is drawn anew each time
    assert!(seen.len() > 1);
    assert!(seen.iter().all(|&d| (1150..=1300).contains(&d)));
}

#[test]
fn heartbeat_from_an_unknown_peer_is_followed() {
    let mut node = cluster_node(1, &[0]);
    let beat = Message::AppendEntry(AppendEntry { node_id: 7, term: 2, committed: 0, entry: None });
    assert!(node.admits(&beat));
    node.dispatch(beat, 0);
    assert_eq!(node.leader, Some(7));
    assert_eq!(node.term, 2);
    // a command for that leader can no longer be forwarded
    assert!(!node.admits(&Message::Command(open("Z"))));
    // an entry from it cannot be answered
    let entry = EntryData { index: 0, prev_term: 0, term: 2, command: open("Z") };
    let with_entry = Message::AppendEntry(AppendEntry { node_id: 7, term: 2, committed: 0, entry: Some(entry) });
    assert!(!node.admits(&with_entry));
}

#[test]
fn unsent_commands_go_back_in_front_in_order() {
    let mut node = RaftNode::new(0);
    node.pending_cmds.push(open("C"));
    let failed = vec![
        Message::Command(open("A")),
        Message::AppendEntry(AppendEntry { node_id: 0, term: 1, committed: 0, entry: None }),
        Message::Command(deposit("B", 5)),
    ];
    node.take_back_unsent(&failed);
    assert_eq!(node.pending_cmds.len(), 3);
    assert!(matches!(&node.pending_cmds[0], Command::Open { account } if account == "A"));
    assert!(matches!(&node.pending_cmds[1], Command::Deposit { account, amount: 5 } if account == "B"));
    assert!(matches!(&node.pending_cmds[2], Command::Open { account } if account == "C"));
    node.take_back_unsent(&[]);
    assert_eq!(node.pending_cmds.len(), 3);
}

#[test]
fn transfers_keep_the_money_in_the_bank() {
    let mut book = Accounts::new();
    for name in ["A", "B", "C"] {
        book.apply(&open(name));
    }
    book.apply(&deposit("A", 40));
    book.apply(&deposit("B", 7));
    let total = |b: &Accounts| ["A", "B", "C"].iter().map(|n| balance(b, n).unwrap()).sum::<usize>();
    assert_eq!(total(&book), 47);
    for (s, d, a) in [("A", "B", 15), ("B", "C", 22), ("C", "C", 3), ("C", "A", 100), ("A", "D", 1)] {
        book.apply(&transfer(s, d, a));
        assert_eq!(total(&book), 47);
    }
    assert_eq!(balance(&book, "A"), Some(25));
    assert_eq!(balance(&book, "B"), Some(0));
    assert_eq!(balance(&book, "C"), Some(22));
    assert_eq!(balance(&book, "D"), None);
}
