//! The messages of the Raft consensus protocol that replicates the bank's
//! commands, and the state machine of one node: every handler takes the node
//! from one state to the next and queues the messages it sends.

use vstd::prelude::*;
use rand::Rng;
use std::collections::{HashMap, HashSet};
use rand::rngs::ThreadRng;
use crate::bank::{
    Accounts, apply_command, command_fits, lemma_fits_at, lemma_replay_concat, lemma_replay_push,
    replay, replay_fits,
};

verus! {

broadcast use vstd::std_specs::hash::group_hash_axioms;

/// A customer request to the bank.
#[derive(Debug)]
pub enum Command {
    /// Open an account with a unique name.
    Open { account: String },
    /// Deposit money into an account.
    Deposit { account: String, amount: usize },
    /// Withdraw money from an account.
    Withdraw { account: String, amount: usize },
    /// Transfer money between accounts.
    Transfer { src: String, dst: String, amount: usize },
}

impl Clone for Command {
    fn clone(&self) -> (r: Self)
        ensures
            r == *self,
    {
        match self {
            Command::Open { account } => Command::Open { account: account.clone() },
            Command::Deposit { account, amount } => Command::Deposit {
                account: account.clone(),
                amount: *amount,
            },
            Command::Withdraw { account, amount } => Command::Withdraw {
                account: account.clone(),
                amount: *amount,
            },
            Command::Transfer { src, dst, amount } => Command::Transfer {
                src: src.clone(),
                dst: dst.clone(),
                amount: *amount,
            },
        }
    }
}

/// The position of a log's latest entry: its term, then the log's length.
#[derive(Debug, Clone, Copy, PartialEq, Eq, Structural)]
pub struct LogInfo {
    pub latest_term: usize,
    pub len: usize,
}

/// `a` is no further on than `b`: compared by term first, then by length.
pub open spec fn log_info_le(a: LogInfo, b: LogInfo) -> bool {
    a.latest_term < b.latest_term || (a.latest_term == b.latest_term && a.len <= b.len)
}

impl LogInfo {
    /// Whether this log is no further on than `other`'s.
    pub fn is_at_most(&self, other: &LogInfo) -> (r: bool)
        ensures
            r == log_info_le(*self, *other),
    {
        self.latest_term < other.latest_term || (self.latest_term == other.latest_term
            && self.len <= other.len)
    }
}

/// An entry of the replicated log and the term in which it was made.
#[derive(Debug)]
pub struct LogEntry<T> {
    pub term: usize,
    pub entry: T,
}

impl<T> LogEntry<T> {
    pub fn new(term: usize, entry: T) -> (r: Self)
        ensures
            r.term == term,
            r.entry == entry,
    {
        Self { term, entry }
    }
}

/// A log entry as the leader sends it: where it stands, the term of the
/// entry before it, and the entry.
#[derive(Debug)]
pub struct EntryData {
    pub index: usize,
    pub prev_term: usize,
    pub term: usize,
    pub command: Command,
}

impl Clone for EntryData {
    fn clone(&self) -> (r: Self)
        ensures
            r == *self,
    {
        EntryData {
            index: self.index,
            prev_term: self.prev_term,
            term: self.term,
            command: self.command.clone(),
        }
    }
}

/// `e` itself, by value.
fn clone_entry(e: &Option<EntryData>) -> (r: Option<EntryData>)
    ensures
        r == *e,
{
    match e {
        Some(d) => Some(d.clone()),
        None => None,
    }
}

#[derive(Debug, Clone, Copy, PartialEq, Eq, Structural)]
pub enum Role {
    Candidate,
    Follower,
    Leader,
}

/// A connection from the peer at `address` has been accepted.
#[derive(Debug, Clone, Copy)]
pub struct Accept {
    pub address: usize,
}

impl Accept {
    pub fn new(address: usize) -> (r: Self)
        ensures
            r.address == address,
    {
        Self { address }
    }
}

/// The leader's heartbeat, carrying the next entry a follower needs, if any.
#[derive(Debug)]
pub struct AppendEntry {
    pub node_id: usize,
    pub term: usize,
    pub committed: usize,
    pub entry: Option<EntryData>,
}

impl Clone for AppendEntry {
    fn clone(&self) -> (r: Self)
        ensures
            r == *self,
    {
        AppendEntry {
            node_id: self.node_id,
            term: self.term,
            committed: self.committed,
            entry: clone_entry(&self.entry),
        }
    }
}

/// A follower's answer to an entry: whether it matched the follower's log.
#[derive(Debug, Clone, Copy)]
pub struct AppendEntryResponse {
    pub node_id: usize,
    pub term: usize,
    pub index: usize,
    pub success: bool,
}

/// A candidate asks for a vote in `term`.
#[derive(Debug, Clone, Copy)]
pub struct RequestVote {
    pub node_id: usize,
    pub term: usize,
    pub latest_log_info: LogInfo,
}

/// A vote for the candidate of `term`.
#[derive(Debug, Clone, Copy)]
pub struct Vote {
    pub term: usize,
}

/// Message-type of the network protocol.
#[derive(Debug)]
pub enum Message {
    /// Accept a new network connection.
    Accept(Accept),
    Command(Command),
    AppendEntry(AppendEntry),
    AppendEntryResponse(AppendEntryResponse),
    RequestVote(RequestVote),
    Vote(Vote),
}

impl Clone for Message {
    fn clone(&self) -> (r: Self)
        ensures
            r == *self,
    {
        match self {
            Message::Accept(m) => Message::Accept(*m),
            Message::Command(c) => Message::Command(c.clone()),
            Message::AppendEntry(m) => Message::AppendEntry(m.clone()),
            Message::AppendEntryResponse(m) => Message::AppendEntryResponse(*m),
            Message::RequestVote(m) => Message::RequestVote(*m),
            Message::Vote(m) => Message::Vote(*m),
        }
    }
}

/// A peer as a node sees it: whether the link to it carries messages now,
/// and the entry it is waiting to be sent.
#[derive(Debug)]
pub struct Node {
    pub id: usize,
    pub link_up: bool,
    pub pending_entry: Option<EntryData>,
}

impl Node {
    pub fn new(id: usize) -> (r: Self)
        ensures
            r.id == id,
            r.link_up,
            r.pending_entry is None,
    {
        Self { id, link_up: true, pending_entry: None }
    }

    /// Queues `msg` for this peer when the link is up, and hands it back
    /// otherwise.
    pub fn send_msg(&self, msg: Message, outbox: &mut Vec<(usize, Message)>) -> (r: Result<(), Message>)
        ensures
            self.link_up ==> r is Ok && final(outbox)@ == old(outbox)@.push((self.id, msg)),
            !self.link_up ==> r == Err::<(), Message>(msg) && final(outbox)@ == old(outbox)@,
    {
        if self.link_up {
            outbox.push((self.id, msg));
            Ok(())
        } else {
            Err(msg)
        }
    }
}

/// The peers of a node, kept by id, each id once, in the order they
/// joined; a message for all of them goes out in that order.
pub struct Peers {
    by_id: HashMap<usize, Node>,
    order: Vec<usize>,
}

impl View for Peers {
    type V = Seq<Node>;

    /// The peers in the order they joined.
    closed spec fn view(&self) -> Seq<Node> {
        self.order@.map_values(|id: usize| self.by_id@[id])
    }
}

impl Peers {
    /// Each peer is kept under its own id, and the order lists every id once.
    pub closed spec fn wf(&self) -> bool {
        &&& self.order@.no_duplicates()
        &&& forall|id: usize| #[trigger] self.by_id@.contains_key(id) <==> self.order@.contains(id)
        &&& forall|id: usize| #[trigger] self.by_id@.contains_key(id) ==> self.by_id@[id].id == id
    }

    proof fn lemma_ids(&self)
        requires
            self.wf(),
        ensures
            distinct_ids(self@),
            forall|i: int| 0 <= i < self@.len() ==> (#[trigger] self@[i]).id == self.order@[i],
    {
        assert forall|i: int| 0 <= i < self@.len() implies (#[trigger] self@[i]).id == self.order@[i] by {
            assert(self.order@.contains(self.order@[i]));
            assert(self.by_id@.contains_key(self.order@[i]));
            assert(self@[i] == self.by_id@[self.order@[i]]);
        }
        assert forall|i: int, j: int| 0 <= i < j < self@.len() implies #[trigger] self@[i].id
            != #[trigger] self@[j].id by {
            assert(self.order@.contains(self.order@[i]));
            assert(self.order@.contains(self.order@[j]));
        }
    }

    pub fn new() -> (r: Self)
        ensures
            r.wf(),
            r@ == Seq::<Node>::empty(),
    {
        let r = Peers { by_id: HashMap::new(), order: Vec::new() };
        proof {
            assert(r@ =~= Seq::<Node>::empty());
        }
        r
    }

    pub fn len(&self) -> (r: usize)
        ensures
            r == self@.len(),
    {
        self.order.len()
    }

    /// The `i`-th peer to join.
    pub fn get(&self, i: usize) -> (r: &Node)
        requires
            self.wf(),
            i < self@.len(),
        ensures
            *r == self@[i as int],
    {
        assert(self.order@.contains(self.order@[i as int]));
        self.by_id.get(&self.order[i]).unwrap()
    }

    /// Puts `n` in the place of the `i`-th peer, which has the same id.
    pub fn set(&mut self, i: usize, n: Node)
        requires
            old(self).wf(),
            i < old(self)@.len(),
            n.id == old(self)@[i as int].id,
        ensures
            final(self).wf(),
            distinct_ids(final(self)@),
            final(self)@ == old(self)@.update(i as int, n),
    {
        proof {
            old(self).lemma_ids();
        }
        let id = self.order[i];
        let ghost nn = n;
        self.by_id.insert(id, n);
        proof {
            let o = old(self);
            assert forall|k: int| 0 <= k < self@.len() implies #[trigger] self@[k] == o@.update(i as int, nn)[k] by {
                if k != i {
                    assert(self.order@[k] != id);
                }
            }
            assert(self@ =~= o@.update(i as int, nn));
            assert forall|x: usize| #[trigger] self.by_id@.contains_key(x) <==> self.order@.contains(x) by {
                if x == id {
                    assert(self.order@[i as int] == id);
                }
            }
            self.lemma_ids();
        }
    }

    /// Marks the link to the `i`-th peer up or down.
    pub fn set_link_up(&mut self, i: usize, up: bool)
        requires
            old(self).wf(),
            i < old(self)@.len(),
        ensures
            final(self).wf(),
            final(self)@ == old(self)@.update(
                i as int,
                Node { id: old(self)@[i as int].id, link_up: up, pending_entry: old(self)@[i as int].pending_entry },
            ),
    {
        let n = self.get(i);
        let m = Node { id: n.id, link_up: up, pending_entry: clone_entry(&n.pending_entry) };
        self.set(i, m);
    }

    /// Adds `n`, whose id is new, as the last peer to join.
    pub fn push(&mut self, n: Node)
        requires
            old(self).wf(),
            !has_node(old(self)@, n.id),
        ensures
            final(self).wf(),
            distinct_ids(final(self)@),
            final(self)@ == old(self)@.push(n),
    {
        proof {
            old(self).lemma_ids();
        }
        let id = n.id;
        let ghost nn = n;
        proof {
            let o = old(self);
            if o.order@.contains(id) {
                let k = choose|k: int| 0 <= k < o.order@.len() && o.order@[k] == id;
                assert(o@[k].id == id);
            }
        }
        self.by_id.insert(id, n);
        self.order.push(id);
        proof {
            let o = old(self);
            assert forall|k: int| 0 <= k < self@.len() implies #[trigger] self@[k] == o@.push(nn)[k] by {
                if k < o@.len() {
                    assert(o.order@.contains(o.order@[k]));
                    assert(self.order@[k] == o.order@[k]);
                }
            }
            assert(self@ =~= o@.push(nn));
            assert forall|x: usize| #[trigger] self.by_id@.contains_key(x) <==> self.order@.contains(x) by {
                if x == id {
                    assert(self.order@[self.order@.len() - 1] == id);
                } else if o.order@.contains(x) {
                    let k = choose|k: int| 0 <= k < o.order@.len() && o.order@[k] == x;
                    assert(self.order@[k] == x);
                } else if self.order@.contains(x) {
                    let k = choose|k: int| 0 <= k < self.order@.len() && self.order@[k] == x;
                    assert(k < o.order@.len());
                    assert(o.order@[k] == x);
                }
            }
            assert(self.order@.no_duplicates()) by {
                assert forall|a: int, b: int| 0 <= a < b < self.order@.len() implies self.order@[a]
                    != self.order@[b] by {
                    if b == o.order@.len() {
                        assert(o.order@.contains(o.order@[a]));
                    }
                }
            }
            self.lemma_ids();
        }
    }
}

/// The shortest wait before a follower stands for election, in milliseconds.
pub const ELECTION_MIN_MS: u64 = 150;

/// The longest wait before a follower stands for election, in milliseconds.
pub const ELECTION_MAX_MS: u64 = 300;

/// The leader's heartbeat period, in milliseconds.
pub const HEARTBEAT_MS: u64 = 100;

/// `rand::rngs::ThreadRng`, the generator of the calling thread; nothing of
/// its state is visible here.
#[verifier::external_type_specification]
#[verifier::external_body]
pub struct ExThreadRng(ThreadRng);

/// `rand::thread_rng()`: the calling thread's generator. Nothing is stated
/// of its state.
#[verifier::external_body]
fn new_thread_rng() -> ThreadRng {
    rand::thread_rng()
}

/// `Rng::gen_range(lo..=hi)` of `rand`: a number drawn uniformly from
/// `lo..=hi`. It panics on an empty range, which `requires` leaves out. The
/// number drawn is chance: only its range is stated.
#[verifier::external_body]
fn sample_inclusive(rng: &mut ThreadRng, lo: u64, hi: u64) -> (r: u64)
    requires
        lo <= hi,
    ensures
        lo <= r <= hi,
{
    rng.gen_range(lo..=hi)
}

/// When the node next acts on its own, in milliseconds of a clock that the
/// caller keeps.
#[derive(Debug)]
pub struct Timeout {
    pub timeout: u64,
    pub rng: ThreadRng,
}

impl Timeout {
    /// A timeout that is due at once.
    pub fn new() -> (r: Self)
        ensures
            r.timeout == 0,
    {
        Self { timeout: 0, rng: new_thread_rng() }
    }

    /// Sets the deadline to a random election wait after `now`.
    pub fn reset_election_timeout(&mut self, now: u64) -> (r: u64)
        requires
            now <= u64::MAX - ELECTION_MAX_MS,
        ensures
            now + ELECTION_MIN_MS <= r <= now + ELECTION_MAX_MS,
            final(self).timeout == r,
    {
        let wait = sample_inclusive(&mut self.rng, ELECTION_MIN_MS, ELECTION_MAX_MS);
        self.set_election_deadline(now, wait)
    }

    /// Sets the deadline to the election wait `wait` after `now`, the wait
    /// that `reset_election_timeout` draws.
    pub fn set_election_deadline(&mut self, now: u64, wait: u64) -> (r: u64)
        requires
            now <= u64::MAX - ELECTION_MAX_MS,
            ELECTION_MIN_MS <= wait <= ELECTION_MAX_MS,
        ensures
            r == now + wait,
            final(self).timeout == r,
    {
        self.timeout = now + wait;
        self.timeout
    }

    /// Sets the deadline to one heartbeat after `now`.
    pub fn reset_heartbeat(&mut self, now: u64) -> (r: u64)
        requires
            now <= u64::MAX - HEARTBEAT_MS,
        ensures
            r == now + HEARTBEAT_MS,
            final(self).timeout == r,
    {
        self.timeout = now + HEARTBEAT_MS;
        self.timeout
    }
}

/// The commands of log entries `lo..hi`.
pub open spec fn commands(log: Seq<LogEntry<Command>>, lo: int, hi: int) -> Seq<Command> {
    log.subrange(lo, hi).map_values(|e: LogEntry<Command>| e.entry)
}

/// The term of the entry before `index`, or 0 where there is none.
pub open spec fn prev_term(log: Seq<LogEntry<Command>>, index: int) -> int {
    if 1 <= index <= log.len() {
        log[index - 1].term as int
    } else {
        0
    }
}

/// Entry `index` of `log` as it is sent, if there is one.
pub open spec fn entry_data_at(log: Seq<LogEntry<Command>>, index: int) -> Option<EntryData> {
    if 0 <= index < log.len() {
        Some(
            EntryData {
                index: index as usize,
                prev_term: prev_term(log, index) as usize,
                term: log[index].term,
                command: log[index].entry,
            },
        )
    } else {
        None
    }
}

/// The latest position of `log`.
pub open spec fn log_info_of(log: Seq<LogEntry<Command>>) -> LogInfo {
    LogInfo {
        latest_term: if log.len() == 0 {
            0
        } else {
            log.last().term
        },
        len: log.len() as usize,
    }
}

pub open spec fn distinct_ids(nodes: Seq<Node>) -> bool {
    forall|i: int, j: int| 0 <= i < j < nodes.len() ==> #[trigger] nodes[i].id != #[trigger] nodes[j].id
}

pub open spec fn has_node(nodes: Seq<Node>, id: usize) -> bool {
    exists|i: int| 0 <= i < nodes.len() && nodes[i].id == id
}

/// The peer `id` of `nodes`.
pub open spec fn node_of(nodes: Seq<Node>, id: usize) -> Node {
    nodes[node_index(nodes, id)]
}

/// Where peer `id` stands in `nodes`.
pub open spec fn node_index(nodes: Seq<Node>, id: usize) -> int {
    choose|i: int| 0 <= i < nodes.len() && nodes[i].id == id
}

/// `n` waiting for `e`.
pub open spec fn with_pending(n: Node, e: Option<EntryData>) -> Node {
    Node { id: n.id, link_up: n.link_up, pending_entry: e }
}

/// What sending `msg` to each of `nodes` queues: one message for each peer
/// whose link is up.
pub open spec fn to_all(nodes: Seq<Node>, msg: Message) -> Seq<(usize, Message)>
    decreases nodes.len(),
{
    if nodes.len() == 0 {
        Seq::empty()
    } else {
        let r = to_all(nodes.drop_last(), msg);
        if nodes.last().link_up {
            r.push((nodes.last().id, msg))
        } else {
            r
        }
    }
}

/// What offering `msg` to the peers of `nodes` that wait for nothing queues.
pub open spec fn to_idle(nodes: Seq<Node>, msg: Message) -> Seq<(usize, Message)>
    decreases nodes.len(),
{
    if nodes.len() == 0 {
        Seq::empty()
    } else {
        let r = to_idle(nodes.drop_last(), msg);
        if nodes.last().link_up && nodes.last().pending_entry is None {
            r.push((nodes.last().id, msg))
        } else {
            r
        }
    }
}

/// The append-entry message of a node, as it stands, carrying `entry`.
pub open spec fn append_entry_msg(
    node_id: usize,
    term: usize,
    committed: usize,
    entry: Option<EntryData>,
) -> Message {
    Message::AppendEntry(AppendEntry { node_id, term, committed, entry })
}

/// Heartbeats: to each peer whose link is up, the append-entry message
/// carrying the entry that peer waits for.
pub open spec fn heartbeats(nodes: Seq<Node>, node_id: usize, term: usize, committed: usize) -> Seq<
    (usize, Message),
>
    decreases nodes.len(),
{
    if nodes.len() == 0 {
        Seq::empty()
    } else {
        let r = heartbeats(nodes.drop_last(), node_id, term, committed);
        let n = nodes.last();
        if n.link_up {
            r.push((n.id, append_entry_msg(node_id, term, committed, n.pending_entry)))
        } else {
            r
        }
    }
}

/// A node of the replicated bank. The peers are kept by id, with no id
/// twice; each entry of the log has the set of nodes known to hold it.
pub struct RaftNode {
    pub id: usize,
    pub role: Role,
    pub nodes: Peers,
    pub leader: Option<usize>,
    pub term: usize,
    pub votes: usize,
    pub log: Vec<LogEntry<Command>>,
    pub log_entry_success: Vec<HashSet<usize>>,
    pub pending_cmds: Vec<Command>,
    /// index of the first uncommitted log entry
    pub committed: usize,
    pub timeout: Timeout,
    pub book: Accounts,
    /// The committed commands in the order they were applied, for the
    /// node's store to append.
    pub journal: Vec<Command>,
    /// The messages to send, each with the peer it goes to.
    pub outbox: Vec<(usize, Message)>,
}

impl RaftNode {
    /// What every state keeps, apart from the count of committed entries.
    pub open spec fn inv(&self) -> bool {
        &&& self.nodes.wf()
        &&& distinct_ids(self.nodes@)
        &&& self.log_entry_success@.len() == self.log@.len()
        &&& forall|k: int|
            0 <= k < self.log_entry_success@.len() ==> (#[trigger] self.log_entry_success@[k])@.finite()
        &&& self.book.wf()
        &&& self.book@ == replay(Map::empty(), self.journal@)
    }

    /// What every state keeps: the book is the committed commands applied in
    /// order, and there are as many of them as entries were committed.
    pub open spec fn wf(&self) -> bool {
        &&& self.inv()
        &&& self.journal@.len() == self.committed
    }

    pub fn new(id: usize) -> (r: Self)
        ensures
            r.wf(),
            r.id == id,
            r.role == Role::Follower,
            r.nodes@.len() == 0,
            r.leader is None,
            r.term == 0,
            r.votes == 0,
            r.log@.len() == 0,
            r.pending_cmds@.len() == 0,
            r.committed == 0,
            r.timeout.timeout == 0,
            r.book@ == Map::<Seq<char>, int>::empty(),
            r.outbox@.len() == 0,
    {
        let r = Self {
            id,
            role: Role::Follower,
            nodes: Peers::new(),
            leader: None,
            term: 0,
            votes: 0,
            log: Vec::new(),
            log_entry_success: Vec::new(),
            pending_cmds: Vec::new(),
            committed: 0,
            timeout: Timeout::new(),
            book: Accounts::new(),
            journal: Vec::new(),
            outbox: Vec::new(),
        };
        proof {
            assert(r.journal@ =~= Seq::<Command>::empty());
        }
        r
    }

    /// The position of peer `id` among the nodes.
    fn find_node(&self, id: usize) -> (r: Option<usize>)
        requires
            self.nodes.wf(),
            distinct_ids(self.nodes@),
        ensures
            match r {
                Some(i) => i < self.nodes@.len() && self.nodes@[i as int].id == id && node_index(
                    self.nodes@,
                    id,
                ) == i && has_node(self.nodes@, id),
                None => !has_node(self.nodes@, id),
            },
    {
        let mut i: usize = 0;
        while i < self.nodes.len()
            invariant
                self.nodes.wf(),
                i <= self.nodes@.len(),
                distinct_ids(self.nodes@),
                forall|k: int| 0 <= k < i ==> self.nodes@[k].id != id,
            decreases self.nodes@.len() - i,
        {
            if self.nodes.get(i).id == id {
                proof {
                    let j = choose|j: int| 0 <= j < self.nodes@.len() && self.nodes@[j].id == id;
                    if j != i {
                        if j < i {
                            assert(self.nodes@[j].id != self.nodes@[i as int].id);
                        } else {
                            assert(self.nodes@[i as int].id != self.nodes@[j].id);
                        }
                    }
                }
                return Some(i);
            }
            i = i + 1;
        }
        None
    }

    pub fn latest_log_info(&self) -> (r: LogInfo)
        ensures
            r == log_info_of(self.log@),
    {
        let n = self.log.len();
        let term = if n == 0 {
            0
        } else {
            self.log[n - 1].term
        };
        LogInfo { latest_term: term, len: n }
    }

    pub fn prev_entry_term(&self, index: usize) -> (r: usize)
        ensures
            r == prev_term(self.log@, index as int),
    {
        if 1 <= index && index <= self.log.len() {
            self.log[index - 1].term
        } else {
            0
        }
    }

    pub fn new_entry_data(&self, index: usize) -> (r: Option<EntryData>)
        ensures
            r == entry_data_at(self.log@, index as int),
    {
        if index < self.log.len() {
            Some(
                EntryData {
                    index,
                    prev_term: self.prev_entry_term(index),
                    term: self.log[index].term,
                    command: self.log[index].entry.clone(),
                },
            )
        } else {
            None
        }
    }

    pub fn new_append_entry_msg(&self, entry: Option<EntryData>) -> (r: Message)
        ensures
            r == append_entry_msg(self.id, self.term, self.committed, entry),
    {
        Message::AppendEntry(
            AppendEntry { node_id: self.id, term: self.term, committed: self.committed, entry },
        )
    }

    /// Moves the commands waiting for a leader into the log, in the current
    /// term.
    pub fn drain_pending_cmds_to_log(&mut self)
        requires
            old(self).inv(),
        ensures
            final(self).inv(),
            final(self).log@ == old(self).log@ + old(self).pending_cmds@.map_values(
                |c: Command| LogEntry { term: old(self).term, entry: c },
            ),
            final(self).log_entry_success@.subrange(0, old(self).log@.len() as int)
                == old(self).log_entry_success@,
            forall|k: int|
                old(self).log@.len() <= k < final(self).log@.len() ==> (
                #[trigger] final(self).log_entry_success@[k])@ == set![old(self).id],
            final(self).pending_cmds@.len() == 0,
            final(self).id == old(self).id,
            final(self).role == old(self).role,
            final(self).nodes == old(self).nodes,
            final(self).leader == old(self).leader,
            final(self).term == old(self).term,
            final(self).votes == old(self).votes,
            final(self).committed == old(self).committed,
            final(self).timeout == old(self).timeout,
            final(self).book == old(self).book,
            final(self).journal == old(self).journal,
            final(self).outbox == old(self).outbox,
    {
        let term = self.term;
        let mut cmds: Vec<Command> = Vec::new();
        std::mem::swap(&mut cmds, &mut self.pending_cmds);
        let ghost o = *old(self);
        let cnt = cmds.len();
        let mut i: usize = 0;
        while i < cnt
            invariant
                i <= cnt,
                cnt == cmds@.len(),
                cmds@ == o.pending_cmds@,
                term == o.term,
                self.log@ == o.log@ + cmds@.take(i as int).map_values(
                    |c: Command| LogEntry { term: o.term, entry: c },
                ),
                self.log_entry_success@.len() == self.log@.len(),
                self.log_entry_success@.subrange(0, o.log@.len() as int) == o.log_entry_success@,
                o.inv(),
                forall|k: int|
                    0 <= k < self.log_entry_success@.len() ==> (
                    #[trigger] self.log_entry_success@[k])@.finite(),
                forall|k: int|
                    o.log@.len() <= k < self.log@.len() ==> (
                    #[trigger] self.log_entry_success@[k])@ == set![o.id],
                self.pending_cmds@.len() == 0,
                self.id == o.id,
                self.role == o.role,
                self.nodes == o.nodes,
                self.leader == o.leader,
                self.term == o.term,
                self.votes == o.votes,
                self.committed == o.committed,
                self.timeout == o.timeout,
                self.book == o.book,
                self.journal == o.journal,
                self.outbox == o.outbox,
            decreases cnt - i,
        {
            let cmd = cmds[i].clone();
            self.log.push(LogEntry::new(term, cmd));
            let mut acks: HashSet<usize> = HashSet::new();
            acks.insert(self.id);
            self.log_entry_success.push(acks);
            proof {
                assert(cmds@.take(i + 1) =~= cmds@.take(i as int).push(cmds@[i as int]));
                assert(self.log@ =~= o.log@ + cmds@.take(i + 1).map_values(
                    |c: Command| LogEntry { term: o.term, entry: c },
                ));
                assert(self.log_entry_success@.subrange(0, o.log@.len() as int)
                    =~= o.log_entry_success@);
            }
            i = i + 1;
        }
        proof {
            assert(cmds@.take(cnt as int) =~= cmds@);
        }
    }

    /// Appends `entry` to the log, known so far to this node alone.
    pub fn push_log_entry(&mut self, entry: LogEntry<Command>)
        requires
            old(self).inv(),
        ensures
            final(self).inv(),
            final(self).log@ == old(self).log@.push(entry),
            final(self).log_entry_success@.drop_last() == old(self).log_entry_success@,
            final(self).log_entry_success@.last()@ == set![old(self).id],
            final(self).id == old(self).id,
            final(self).role == old(self).role,
            final(self).nodes == old(self).nodes,
            final(self).leader == old(self).leader,
            final(self).term == old(self).term,
            final(self).votes == old(self).votes,
            final(self).pending_cmds == old(self).pending_cmds,
            final(self).committed == old(self).committed,
            final(self).timeout == old(self).timeout,
            final(self).book == old(self).book,
            final(self).journal == old(self).journal,
            final(self).outbox == old(self).outbox,
    {
        self.log.push(entry);
        let mut acks: HashSet<usize> = HashSet::new();
        acks.insert(self.id);
        self.log_entry_success.push(acks);
        proof {
            assert(self.log_entry_success@.drop_last() =~= old(self).log_entry_success@);
        }
    }

    /// Cuts the log down to its first `len` entries.
    pub fn truncate_log(&mut self, len: usize)
        requires
            old(self).inv(),
        ensures
            final(self).inv(),
            final(self).log@ == old(self).log@.subrange(
                0,
                if len < old(self).log@.len() {
                    len as int
                } else {
                    old(self).log@.len() as int
                },
            ),
            final(self).log_entry_success@ == old(self).log_entry_success@.subrange(
                0,
                if len < old(self).log@.len() {
                    len as int
                } else {
                    old(self).log@.len() as int
                },
            ),
            final(self).id == old(self).id,
            final(self).role == old(self).role,
            final(self).nodes == old(self).nodes,
            final(self).leader == old(self).leader,
            final(self).term == old(self).term,
            final(self).votes == old(self).votes,
            final(self).pending_cmds == old(self).pending_cmds,
            final(self).committed == old(self).committed,
            final(self).timeout == old(self).timeout,
            final(self).book == old(self).book,
            final(self).journal == old(self).journal,
            final(self).outbox == old(self).outbox,
    {
        self.log.truncate(len);
        self.log_entry_success.truncate(len);
        proof {
            if len >= old(self).log@.len() {
                assert(self.log@ =~= old(self).log@.subrange(0, old(self).log@.len() as int));
                assert(self.log_entry_success@ =~= old(self).log_entry_success@.subrange(
                    0,
                    old(self).log@.len() as int,
                ));
            }
        }
    }

    /// Carries out the command of entry `index` on the book and hands it to
    /// the node's store.
    pub fn apply_log(&mut self, index: usize)
        requires
            old(self).inv(),
            index < old(self).log@.len(),
            command_fits(old(self).book@, old(self).log@[index as int].entry),
        ensures
            final(self).inv(),
            final(self).journal@ == old(self).journal@.push(old(self).log@[index as int].entry),
            final(self).book@ == apply_command(old(self).book@, old(self).log@[index as int].entry),
            final(self).id == old(self).id,
            final(self).role == old(self).role,
            final(self).nodes == old(self).nodes,
            final(self).leader == old(self).leader,
            final(self).term == old(self).term,
            final(self).votes == old(self).votes,
            final(self).log == old(self).log,
            final(self).log_entry_success == old(self).log_entry_success,
            final(self).pending_cmds == old(self).pending_cmds,
            final(self).committed == old(self).committed,
            final(self).timeout == old(self).timeout,
            final(self).outbox == old(self).outbox,
    {
        let entry = self.log[index].entry.clone();
        self.book.apply(&entry);
        self.journal.push(entry);
        proof {
            lemma_replay_push(Map::empty(), old(self).journal@, self.log@[index as int].entry);
        }
    }
}

impl RaftNode {
    /// Applies the entries from the first uncommitted one up to `end`
    /// (excluded), counting each as committed.
    fn commit_to(&mut self, end: usize)
        requires
            old(self).wf(),
            end <= old(self).log@.len(),
            old(self).committed < end ==> replay_fits(
                old(self).book@,
                commands(old(self).log@, old(self).committed as int, end as int),
            ),
        ensures
            final(self).wf(),
            final(self).committed == if old(self).committed < end {
                end
            } else {
                old(self).committed
            },
            old(self).committed < end ==> final(self).journal@ == old(self).journal@ + commands(
                old(self).log@,
                old(self).committed as int,
                end as int,
            ),
            old(self).committed < end ==> final(self).book@ == replay(
                old(self).book@,
                commands(old(self).log@, old(self).committed as int, end as int),
            ),
            end <= old(self).committed ==> final(self).journal == old(self).journal,
            end <= old(self).committed ==> final(self).book == old(self).book,
            final(self).id == old(self).id,
            final(self).role == old(self).role,
            final(self).nodes == old(self).nodes,
            final(self).leader == old(self).leader,
            final(self).term == old(self).term,
            final(self).votes == old(self).votes,
            final(self).log == old(self).log,
            final(self).log_entry_success == old(self).log_entry_success,
            final(self).pending_cmds == old(self).pending_cmds,
            final(self).timeout == old(self).timeout,
            final(self).outbox == old(self).outbox,
    {
        let ghost o = *old(self);
        let ghost oc = o.committed as int;
        if end <= self.committed {
            return;
        }
        proof {
            assert(commands(o.log@, oc, oc) =~= Seq::<Command>::empty());
            assert(self.journal@ =~= o.journal@ + Seq::<Command>::empty());
            assert(self.book@ == replay(o.book@, Seq::<Command>::empty()));
        }
        while self.committed < end
            invariant
                self.wf(),
                end <= o.log@.len(),
                oc == o.committed,
                oc <= self.committed <= end,
                replay_fits(o.book@, commands(o.log@, oc, end as int)),
                self.journal@ == o.journal@ + commands(o.log@, oc, self.committed as int),
                self.book@ == replay(o.book@, commands(o.log@, oc, self.committed as int)),
                self.id == o.id,
                self.role == o.role,
                self.nodes == o.nodes,
                self.leader == o.leader,
                self.term == o.term,
                self.votes == o.votes,
                self.log == o.log,
                self.log_entry_success == o.log_entry_success,
                self.pending_cmds == o.pending_cmds,
                self.timeout == o.timeout,
                self.outbox == o.outbox,
            decreases end - self.committed,
        {
            let c = self.committed;
            proof {
                assert(commands(o.log@, oc, end as int).len() == end - oc);
                lemma_fits_at(o.book@, commands(o.log@, oc, end as int), c - oc);
                assert(commands(o.log@, oc, end as int).take(c - oc) =~= commands(o.log@, oc, c as int));
            }
            self.apply_log(c);
            self.committed = c + 1;
            proof {
                assert(commands(o.log@, oc, c + 1) =~= commands(o.log@, oc, c as int).push(
                    o.log@[c as int].entry,
                ));
                lemma_replay_push(o.book@, commands(o.log@, oc, c as int), o.log@[c as int].entry);
                assert(self.journal@ =~= o.journal@ + commands(o.log@, oc, c + 1));
            }
        }
    }

    /// Forwards the commands waiting for a leader to the leader, in order.
    /// They all go when the link to the leader is up; otherwise the first
    /// fails and all of them stay.
    pub fn send_pending_cmds_to_leader(&mut self)
        requires
            old(self).wf(),
            old(self).leader is Some,
            has_node(old(self).nodes@, old(self).leader->Some_0),
        ensures
            final(self).wf(),
            node_of(old(self).nodes@, old(self).leader->Some_0).link_up ==> {
                &&& final(self).pending_cmds@.len() == 0
                &&& final(self).outbox@ == old(self).outbox@ + old(self).pending_cmds@.map_values(
                    |c: Command| (old(self).leader->Some_0, Message::Command(c)),
                )
            },
            !node_of(old(self).nodes@, old(self).leader->Some_0).link_up ==> {
                &&& final(self).pending_cmds@ == old(self).pending_cmds@
                &&& final(self).outbox@ == old(self).outbox@
            },
            final(self).id == old(self).id,
            final(self).role == old(self).role,
            final(self).nodes == old(self).nodes,
            final(self).leader == old(self).leader,
            final(self).term == old(self).term,
            final(self).votes == old(self).votes,
            final(self).log == old(self).log,
            final(self).log_entry_success == old(self).log_entry_success,
            final(self).committed == old(self).committed,
            final(self).timeout == old(self).timeout,
            final(self).book == old(self).book,
            final(self).journal == old(self).journal,
    {
        let ghost o = *old(self);
        let leader = self.leader.unwrap();
        let li = match self.find_node(leader) {
            Some(i) => i,
            None => {
                proof {
                    assert(false);
                }
                0
            },
        };
        let ghost up = self.nodes@[li as int].link_up;
        let mut cmds: Vec<Command> = Vec::new();
        std::mem::swap(&mut cmds, &mut self.pending_cmds);
        let n = cmds.len();
        let mut i: usize = 0;
        let mut failed = false;
        while i < n && !failed
            invariant
                self.nodes.wf(),
                i <= n,
                n == cmds@.len(),
                cmds@ == o.pending_cmds@,
                li < self.nodes@.len(),
                self.nodes == o.nodes,
                self.nodes@[li as int].id == leader,
                self.nodes@[li as int].link_up == up,
                up ==> !failed,
                !up ==> i == 0,
                self.pending_cmds@.len() == 0,
                self.outbox@ == o.outbox@ + cmds@.take(i as int).map_values(
                    |c: Command| (leader, Message::Command(c)),
                ),
                self.id == o.id,
                self.role == o.role,
                self.leader == o.leader,
                self.term == o.term,
                self.votes == o.votes,
                self.log == o.log,
                self.log_entry_success == o.log_entry_success,
                self.committed == o.committed,
                self.timeout == o.timeout,
                self.book == o.book,
                self.journal == o.journal,
            decreases (n - i) + if failed {
                0int
            } else {
                1int
            },
        {
            let cmd = cmds[i].clone();
            match self.nodes.get(li).send_msg(Message::Command(cmd), &mut self.outbox) {
                Ok(()) => {
                    proof {
                        assert(cmds@.take(i + 1) =~= cmds@.take(i as int).push(cmds@[i as int]));
                        assert(self.outbox@ =~= o.outbox@ + cmds@.take(i + 1).map_values(
                            |c: Command| (leader, Message::Command(c)),
                        ));
                    }
                    i = i + 1;
                },
                Err(_) => {
                    failed = true;
                },
            }
        }
        let mut j: usize = i;
        while j < n
            invariant
                i <= j <= n,
                n == cmds@.len(),
                self.pending_cmds@ == cmds@.subrange(i as int, j as int),
                !up ==> i == 0,
                self.outbox@ == o.outbox@ + cmds@.take(i as int).map_values(
                    |c: Command| (leader, Message::Command(c)),
                ),
                self.nodes@[li as int].link_up == up,
                li < self.nodes@.len(),
                up ==> i == n,
                self.id == o.id,
                self.role == o.role,
                self.nodes == o.nodes,
                self.leader == o.leader,
                self.term == o.term,
                self.votes == o.votes,
                self.log == o.log,
                self.log_entry_success == o.log_entry_success,
                self.committed == o.committed,
                self.timeout == o.timeout,
                self.book == o.book,
                self.journal == o.journal,
            decreases n - j,
        {
            let cmd = cmds[j].clone();
            self.pending_cmds.push(cmd);
            proof {
                assert(self.pending_cmds@ =~= cmds@.subrange(i as int, j + 1));
            }
            j = j + 1;
        }
        proof {
            if up {
                assert(cmds@.take(n as int) =~= cmds@);
            } else {
                assert(cmds@.take(0) =~= Seq::<Command>::empty());
                assert(self.outbox@ =~= o.outbox@);
                assert(cmds@.subrange(0, n as int) =~= cmds@);
                assert(self.pending_cmds@ =~= o.pending_cmds@);
            }
        }
    }

    /// Lets every peer wait for `e`.
    fn set_all_pending(&mut self, e: &Option<EntryData>)
        requires
            old(self).inv(),
        ensures
            final(self).inv(),
            final(self).nodes@ == old(self).nodes@.map_values(|n: Node| with_pending(n, *e)),
            final(self).id == old(self).id,
            final(self).role == old(self).role,
            final(self).leader == old(self).leader,
            final(self).term == old(self).term,
            final(self).votes == old(self).votes,
            final(self).log == old(self).log,
            final(self).log_entry_success == old(self).log_entry_success,
            final(self).pending_cmds == old(self).pending_cmds,
            final(self).committed == old(self).committed,
            final(self).timeout == old(self).timeout,
            final(self).book == old(self).book,
            final(self).journal == old(self).journal,
            final(self).outbox == old(self).outbox,
    {
        let ghost o = *old(self);
        let n = self.nodes.len();
        let mut i: usize = 0;
        while i < n
            invariant
                self.nodes.wf(),
                i <= n,
                n == o.nodes@.len(),
                self.nodes@.len() == n,
                forall|k: int| 0 <= k < i ==> self.nodes@[k] == with_pending(o.nodes@[k], *e),
                forall|k: int| i <= k < n ==> self.nodes@[k] == o.nodes@[k],
                self.id == o.id,
                self.role == o.role,
                self.leader == o.leader,
                self.term == o.term,
                self.votes == o.votes,
                self.log == o.log,
                self.log_entry_success == o.log_entry_success,
                self.pending_cmds == o.pending_cmds,
                self.committed == o.committed,
                self.timeout == o.timeout,
                self.book == o.book,
                self.journal == o.journal,
                self.outbox == o.outbox,
            decreases n - i,
        {
            let id = self.nodes.get(i).id;
            let link_up = self.nodes.get(i).link_up;
            self.nodes.set(i, Node { id, link_up, pending_entry: clone_entry(e) });
            i = i + 1;
        }
        proof {
            assert(self.nodes@ =~= o.nodes@.map_values(|n: Node| with_pending(n, *e)));
            assert(forall|k: int| 0 <= k < n ==> self.nodes@[k].id == o.nodes@[k].id);
        }
    }

    /// Offers `msg` to every peer that waits for nothing, which from then on
    /// waits for `e`.
    fn offer_to_idle(&mut self, e: &Option<EntryData>, msg: &Message)
        requires
            old(self).inv(),
        ensures
            final(self).inv(),
            final(self).nodes@ == old(self).nodes@.map_values(
                |n: Node|
                    if n.pending_entry is None {
                        with_pending(n, *e)
                    } else {
                        n
                    },
            ),
            final(self).outbox@ == old(self).outbox@ + to_idle(old(self).nodes@, *msg),
            final(self).id == old(self).id,
            final(self).role == old(self).role,
            final(self).leader == old(self).leader,
            final(self).term == old(self).term,
            final(self).votes == old(self).votes,
            final(self).log == old(self).log,
            final(self).log_entry_success == old(self).log_entry_success,
            final(self).pending_cmds == old(self).pending_cmds,
            final(self).committed == old(self).committed,
            final(self).timeout == old(self).timeout,
            final(self).book == old(self).book,
            final(self).journal == old(self).journal,
    {
        let ghost o = *old(self);
        let n = self.nodes.len();
        let mut i: usize = 0;
        while i < n
            invariant
                self.nodes.wf(),
                i <= n,
                n == o.nodes@.len(),
                self.nodes@.len() == n,
                forall|k: int|
                    0 <= k < i ==> self.nodes@[k] == if o.nodes@[k].pending_entry is None {
                        with_pending(o.nodes@[k], *e)
                    } else {
                        o.nodes@[k]
                    },
                forall|k: int| i <= k < n ==> self.nodes@[k] == o.nodes@[k],
                self.outbox@ == o.outbox@ + to_idle(o.nodes@.take(i as int), *msg),
                self.id == o.id,
                self.role == o.role,
                self.leader == o.leader,
                self.term == o.term,
                self.votes == o.votes,
                self.log == o.log,
                self.log_entry_success == o.log_entry_success,
                self.pending_cmds == o.pending_cmds,
                self.committed == o.committed,
                self.timeout == o.timeout,
                self.book == o.book,
                self.journal == o.journal,
            decreases n - i,
        {
            proof {
                assert(o.nodes@.take(i + 1).drop_last() =~= o.nodes@.take(i as int));
            }
            if self.nodes.get(i).pending_entry.is_none() {
                let id = self.nodes.get(i).id;
                let link_up = self.nodes.get(i).link_up;
                self.nodes.set(i, Node { id, link_up, pending_entry: clone_entry(e) });
                let _ = self.nodes.get(i).send_msg(msg.clone(), &mut self.outbox);
            }
            i = i + 1;
        }
        proof {
            assert(o.nodes@.take(n as int) =~= o.nodes@);
            assert(self.nodes@ =~= o.nodes@.map_values(
                |n: Node|
                    if n.pending_entry is None {
                        with_pending(n, *e)
                    } else {
                        n
                    },
            ));
            assert(forall|k: int| 0 <= k < n ==> self.nodes@[k].id == o.nodes@[k].id);
        }
    }

    /// Sends `msg` to every peer.
    fn broadcast(&mut self, msg: &Message)
        requires
            old(self).inv(),
        ensures
            final(self).inv(),
            final(self).outbox@ == old(self).outbox@ + to_all(old(self).nodes@, *msg),
            final(self).id == old(self).id,
            final(self).role == old(self).role,
            final(self).nodes == old(self).nodes,
            final(self).leader == old(self).leader,
            final(self).term == old(self).term,
            final(self).votes == old(self).votes,
            final(self).log == old(self).log,
            final(self).log_entry_success == old(self).log_entry_success,
            final(self).pending_cmds == old(self).pending_cmds,
            final(self).committed == old(self).committed,
            final(self).timeout == old(self).timeout,
            final(self).book == old(self).book,
            final(self).journal == old(self).journal,
    {
        let ghost o = *old(self);
        let n = self.nodes.len();
        let mut i: usize = 0;
        while i < n
            invariant
                self.nodes.wf(),
                i <= n,
                n == o.nodes@.len(),
                self.outbox@ == o.outbox@ + to_all(o.nodes@.take(i as int), *msg),
                self.id == o.id,
                self.role == o.role,
                self.nodes == o.nodes,
                self.leader == o.leader,
                self.term == o.term,
                self.votes == o.votes,
                self.log == o.log,
                self.log_entry_success == o.log_entry_success,
                self.pending_cmds == o.pending_cmds,
                self.committed == o.committed,
                self.timeout == o.timeout,
                self.book == o.book,
                self.journal == o.journal,
            decreases n - i,
        {
            proof {
                assert(o.nodes@.take(i + 1).drop_last() =~= o.nodes@.take(i as int));
            }
            let _ = self.nodes.get(i).send_msg(msg.clone(), &mut self.outbox);
            i = i + 1;
        }
        proof {
            assert(o.nodes@.take(n as int) =~= o.nodes@);
        }
    }

    /// Sends every peer the append-entry message with the entry it waits for.
    fn send_heartbeats(&mut self)
        requires
            old(self).inv(),
        ensures
            final(self).inv(),
            final(self).outbox@ == old(self).outbox@ + heartbeats(
                old(self).nodes@,
                old(self).id,
                old(self).term,
                old(self).committed,
            ),
            final(self).id == old(self).id,
            final(self).role == old(self).role,
            final(self).nodes == old(self).nodes,
            final(self).leader == old(self).leader,
            final(self).term == old(self).term,
            final(self).votes == old(self).votes,
            final(self).log == old(self).log,
            final(self).log_entry_success == old(self).log_entry_success,
            final(self).pending_cmds == old(self).pending_cmds,
            final(self).committed == old(self).committed,
            final(self).timeout == old(self).timeout,
            final(self).book == old(self).book,
            final(self).journal == old(self).journal,
    {
        let ghost o = *old(self);
        let n = self.nodes.len();
        let mut i: usize = 0;
        while i < n
            invariant
                self.nodes.wf(),
                i <= n,
                n == o.nodes@.len(),
                self.outbox@ == o.outbox@ + heartbeats(
                    o.nodes@.take(i as int),
                    o.id,
                    o.term,
                    o.committed,
                ),
                self.id == o.id,
                self.role == o.role,
                self.nodes == o.nodes,
                self.leader == o.leader,
                self.term == o.term,
                self.votes == o.votes,
                self.log == o.log,
                self.log_entry_success == o.log_entry_success,
                self.pending_cmds == o.pending_cmds,
                self.committed == o.committed,
                self.timeout == o.timeout,
                self.book == o.book,
                self.journal == o.journal,
            decreases n - i,
        {
            proof {
                assert(o.nodes@.take(i + 1).drop_last() =~= o.nodes@.take(i as int));
            }
            let msg = self.new_append_entry_msg(clone_entry(&self.nodes.get(i).pending_entry));
            let _ = self.nodes.get(i).send_msg(msg, &mut self.outbox);
            i = i + 1;
        }
        proof {
            assert(o.nodes@.take(n as int) =~= o.nodes@);
        }
    }
}

/// How many acknowledgements make a majority of a cluster of `peers` peers.
pub open spec fn majority_of(peers: int) -> int {
    (peers + 1) / 2
}

/// `n` is `o` after accepting a connection: the peer is known afresh, with
/// its link up and nothing pending.
pub open spec fn accept_step(o: RaftNode, m: Accept, n: RaftNode) -> bool {
    &&& n.nodes@ == if has_node(o.nodes@, m.address) {
        o.nodes@.update(
            node_index(o.nodes@, m.address),
            Node { id: m.address, link_up: true, pending_entry: None },
        )
    } else {
        o.nodes@.push(Node { id: m.address, link_up: true, pending_entry: None })
    }
    &&& n.id == o.id
    &&& n.role == o.role
    &&& n.leader == o.leader
    &&& n.term == o.term
    &&& n.votes == o.votes
    &&& n.log@ == o.log@
    &&& n.log_entry_success == o.log_entry_success
    &&& n.pending_cmds@ == o.pending_cmds@
    &&& n.committed == o.committed
    &&& n.timeout == o.timeout
    &&& n.book@ == o.book@
    &&& n.journal@ == o.journal@
    &&& n.outbox@ == o.outbox@
}

/// `n` is `o` after a customer's command: a leader appends it to its log
/// and offers it to the peers that wait for nothing; any other node keeps it
/// for the leader and forwards what it keeps when it knows a leader.
pub open spec fn command_step(o: RaftNode, c: Command, n: RaftNode) -> bool {
    if o.role == Role::Leader {
        let log = o.log@.push(LogEntry { term: o.term, entry: c });
        let e = entry_data_at(log, log.len() - 1);
        let msg = append_entry_msg(o.id, o.term, o.committed, e);
        &&& n.log@ == log
        &&& n.log_entry_success@.drop_last() == o.log_entry_success@
        &&& n.log_entry_success@.len() == log.len()
        &&& n.log_entry_success@.last()@ == set![o.id]
        &&& n.nodes@ == o.nodes@.map_values(
            |x: Node|
                if x.pending_entry is None {
                    with_pending(x, e)
                } else {
                    x
                },
        )
        &&& n.outbox@ == o.outbox@ + to_idle(o.nodes@, msg)
        &&& n.id == o.id
        &&& n.role == o.role
        &&& n.leader == o.leader
        &&& n.term == o.term
        &&& n.votes == o.votes
        &&& n.pending_cmds@ == o.pending_cmds@
        &&& n.committed == o.committed
        &&& n.timeout == o.timeout
        &&& n.book@ == o.book@
        &&& n.journal@ == o.journal@
    } else {
        let pending = o.pending_cmds@.push(c);
        &&& if o.leader is Some && node_of(o.nodes@, o.leader->Some_0).link_up {
            &&& n.pending_cmds@.len() == 0
            &&& n.outbox@ == o.outbox@ + pending.map_values(
                |x: Command| (o.leader->Some_0, Message::Command(x)),
            )
        } else {
            &&& n.pending_cmds@ == pending
            &&& n.outbox@ == o.outbox@
        }
        &&& n.id == o.id
        &&& n.role == o.role
        &&& n.nodes@ == o.nodes@
        &&& n.leader == o.leader
        &&& n.term == o.term
        &&& n.votes == o.votes
        &&& n.log@ == o.log@
        &&& n.log_entry_success == o.log_entry_success
        &&& n.committed == o.committed
        &&& n.timeout == o.timeout
        &&& n.book@ == o.book@
        &&& n.journal@ == o.journal@
    }
}

/// The outbox and the waiting commands after a follower of `leader` has
/// tried to forward `pending` over a link that is up or not.
pub open spec fn forwarded(
    outbox: Seq<(usize, Message)>,
    pending: Seq<Command>,
    leader: usize,
    link_up: bool,
    n: RaftNode,
) -> bool {
    if pending.len() > 0 && link_up {
        &&& n.pending_cmds@.len() == 0
        &&& n.outbox@ == outbox + pending.map_values(|x: Command| (leader, Message::Command(x)))
    } else {
        &&& n.pending_cmds@ == pending
        &&& n.outbox@ == outbox
    }
}

/// `n` is `o` after the leader's append-entry message `m` at time `now`.
/// A message of an older term is ignored. Otherwise the node follows the
/// sender in the sender's term; an entry is answered, and taken into the log
/// in place of everything from its index on when it matches the entry
/// before it and the answer could be sent; a heartbeat commits what the
/// leader has committed, as far as the log reaches. Then the commands
/// waiting for a leader go to the sender, and the election wait starts anew.
pub open spec fn append_entry_step(o: RaftNode, m: AppendEntry, now: u64, n: RaftNode) -> bool {
    if o.term <= m.term {
        let up = node_of(o.nodes@, m.node_id).link_up;
        &&& n.role == Role::Follower
        &&& n.term == m.term
        &&& n.leader == Some(m.node_id)
        &&& now + ELECTION_MIN_MS <= n.timeout.timeout <= now + ELECTION_MAX_MS
        &&& match m.entry {
            Some(e) => {
                let success = e.prev_term == prev_term(o.log@, e.index as int);
                let resp = Message::AppendEntryResponse(
                    AppendEntryResponse { node_id: o.id, term: m.term, index: e.index, success },
                );
                let out = if up {
                    o.outbox@.push((m.node_id, resp))
                } else {
                    o.outbox@
                };
                let keep = if e.index < o.log@.len() {
                    e.index as int
                } else {
                    o.log@.len() as int
                };
                &&& forwarded(out, o.pending_cmds@, m.node_id, up, n)
                &&& if up && success {
                    &&& n.log@ == o.log@.subrange(0, keep).push(
                        LogEntry { term: e.term, entry: e.command },
                    )
                    &&& n.log_entry_success@.len() == keep + 1
                    &&& n.log_entry_success@.drop_last() == o.log_entry_success@.subrange(0, keep)
                    &&& n.log_entry_success@.last()@ == set![o.id]
                } else {
                    &&& n.log@ == o.log@
                    &&& n.log_entry_success == o.log_entry_success
                }
                &&& n.committed == o.committed
                &&& n.book@ == o.book@
                &&& n.journal@ == o.journal@
            },
            None => {
                let end = if m.committed < o.log@.len() {
                    m.committed as int
                } else {
                    o.log@.len() as int
                };
                &&& forwarded(o.outbox@, o.pending_cmds@, m.node_id, up, n)
                &&& n.log@ == o.log@
                &&& n.log_entry_success == o.log_entry_success
                &&& if o.committed < end {
                    &&& n.committed == end
                    &&& n.journal@ == o.journal@ + commands(o.log@, o.committed as int, end)
                    &&& n.book@ == replay(o.book@, commands(o.log@, o.committed as int, end))
                } else {
                    &&& n.committed == o.committed
                    &&& n.book@ == o.book@
                    &&& n.journal@ == o.journal@
                }
            },
        }
        &&& n.id == o.id
        &&& n.nodes@ == o.nodes@
        &&& n.votes == o.votes
    } else {
        n == o
    }
}

/// `n` is `o` after the answer `m` to an entry. An answer of another term is
/// ignored. A success is counted for the entry while it is uncommitted, and
/// once more than half of the cluster holds it, the log is committed up to
/// it. The peer is then sent the entry after the one it answered, or the one
/// before it after a failure, and waits for it.
pub open spec fn append_entry_response_step(o: RaftNode, m: AppendEntryResponse, n: RaftNode) -> bool {
    if o.term == m.term {
        let counted = m.success && o.committed <= m.index;
        let acks = o.log_entry_success@[m.index as int]@.insert(m.node_id);
        let commit = counted && acks.len() > majority_of(o.nodes@.len() as int);
        let next = if m.success {
            m.index + 1
        } else {
            m.index - 1
        };
        let e = entry_data_at(o.log@, next);
        let msg = append_entry_msg(o.id, o.term, n.committed, e);
        let peer = node_of(o.nodes@, m.node_id);
        &&& if counted {
            &&& n.log_entry_success@.len() == o.log_entry_success@.len()
            &&& n.log_entry_success@[m.index as int]@ == acks
            &&& forall|k: int|
                0 <= k < o.log_entry_success@.len() && k != m.index ==> #[trigger] n.log_entry_success@[k]
                    == o.log_entry_success@[k]
        } else {
            n.log_entry_success == o.log_entry_success
        }
        &&& if commit {
            &&& n.committed == m.index + 1
            &&& n.journal@ == o.journal@ + commands(o.log@, o.committed as int, m.index + 1)
            &&& n.book@ == replay(o.book@, commands(o.log@, o.committed as int, m.index + 1))
        } else {
            &&& n.committed == o.committed
            &&& n.book@ == o.book@
            &&& n.journal@ == o.journal@
        }
        &&& n.nodes@ == o.nodes@.update(node_index(o.nodes@, m.node_id), with_pending(peer, e))
        &&& n.outbox@ == if e is Some && peer.link_up {
            o.outbox@.push((m.node_id, msg))
        } else {
            o.outbox@
        }
        &&& n.id == o.id
        &&& n.role == o.role
        &&& n.leader == o.leader
        &&& n.term == o.term
        &&& n.votes == o.votes
        &&& n.log@ == o.log@
        &&& n.pending_cmds@ == o.pending_cmds@
        &&& n.timeout == o.timeout
    } else {
        n == o
    }
}

/// `n` is `o` after the vote request `m` at time `now`. A request of a term
/// no later than the node's is ignored. Otherwise the node moves on to that
/// term, and votes for the candidate when the candidate's log is at least
/// as far on as its own and the vote can be sent; having voted, it follows
/// no leader and starts the election wait anew.
pub open spec fn request_vote_step(o: RaftNode, m: RequestVote, now: u64, n: RaftNode) -> bool {
    if o.term < m.term {
        let grant = log_info_le(log_info_of(o.log@), m.latest_log_info) && node_of(
            o.nodes@,
            m.node_id,
        ).link_up;
        &&& n.term == m.term
        &&& if grant {
            &&& n.outbox@ == o.outbox@.push((m.node_id, Message::Vote(Vote { term: m.term })))
            &&& n.role == Role::Follower
            &&& n.leader is None
            &&& now + ELECTION_MIN_MS <= n.timeout.timeout <= now + ELECTION_MAX_MS
        } else {
            &&& n.outbox@ == o.outbox@
            &&& n.role == o.role
            &&& n.leader == o.leader
            &&& n.timeout == o.timeout
        }
        &&& n.id == o.id
        &&& n.nodes@ == o.nodes@
        &&& n.votes == o.votes
        &&& n.log@ == o.log@
        &&& n.log_entry_success == o.log_entry_success
        &&& n.pending_cmds@ == o.pending_cmds@
        &&& n.committed == o.committed
        &&& n.book@ == o.book@
        &&& n.journal@ == o.journal@
    } else {
        n == o
    }
}

/// `n` is `o` after the vote `m` at time `now`. Only a candidate counts a
/// vote of its own term. With more than half of the cluster behind it, it
/// becomes leader: every peer waits for its latest entry, the commands
/// waiting for a leader enter the log, everyone gets a heartbeat, and the
/// heartbeat period starts.
pub open spec fn vote_step(o: RaftNode, m: Vote, now: u64, n: RaftNode) -> bool {
    if o.role == Role::Candidate && o.term == m.term {
        let e = entry_data_at(o.log@, o.log@.len() - 1);
        &&& n.votes == o.votes + 1
        &&& if o.votes + 1 > majority_of(o.nodes@.len() as int) {
            &&& n.role == Role::Leader
            &&& n.leader is None
            &&& n.nodes@ == o.nodes@.map_values(|x: Node| with_pending(x, e))
            &&& n.log@ == o.log@ + o.pending_cmds@.map_values(
                |c: Command| LogEntry { term: o.term, entry: c },
            )
            &&& n.log_entry_success@.len() == n.log@.len()
            &&& n.log_entry_success@.subrange(0, o.log@.len() as int) == o.log_entry_success@
            &&& forall|k: int|
                o.log@.len() <= k < n.log@.len() ==> (#[trigger] n.log_entry_success@[k])@
                    == set![o.id]
            &&& n.pending_cmds@.len() == 0
            &&& n.outbox@ == o.outbox@ + heartbeats(n.nodes@, o.id, o.term, o.committed)
            &&& n.timeout.timeout == now + HEARTBEAT_MS
            &&& n.id == o.id
            &&& n.term == o.term
            &&& n.committed == o.committed
            &&& n.book@ == o.book@
            &&& n.journal@ == o.journal@
        } else {
            &&& n.id == o.id
            &&& n.role == o.role
            &&& n.nodes@ == o.nodes@
            &&& n.leader == o.leader
            &&& n.term == o.term
            &&& n.log@ == o.log@
            &&& n.log_entry_success == o.log_entry_success
            &&& n.pending_cmds@ == o.pending_cmds@
            &&& n.committed == o.committed
            &&& n.timeout == o.timeout
            &&& n.book@ == o.book@
            &&& n.journal@ == o.journal@
            &&& n.outbox@ == o.outbox@
        }
    } else {
        n == o
    }
}

/// `n` is `o` after no message came before its deadline, at time `now`: a
/// leader sends heartbeats and waits one period; any other node stands for
/// election in the next term, voting for itself and asking every peer for
/// its vote.
pub open spec fn timeout_step(o: RaftNode, now: u64, n: RaftNode) -> bool {
    if o.role == Role::Leader {
        &&& n.outbox@ == o.outbox@ + heartbeats(o.nodes@, o.id, o.term, o.committed)
        &&& n.timeout.timeout == now + HEARTBEAT_MS
        &&& n.id == o.id
        &&& n.role == o.role
        &&& n.nodes@ == o.nodes@
        &&& n.leader == o.leader
        &&& n.term == o.term
        &&& n.votes == o.votes
        &&& n.log@ == o.log@
        &&& n.log_entry_success == o.log_entry_success
        &&& n.pending_cmds@ == o.pending_cmds@
        &&& n.committed == o.committed
        &&& n.book@ == o.book@
        &&& n.journal@ == o.journal@
    } else {
        let req = Message::RequestVote(
            RequestVote { node_id: o.id, term: (o.term + 1) as usize, latest_log_info: log_info_of(o.log@) },
        );
        &&& n.term == o.term + 1
        &&& n.leader is None
        &&& n.votes == 1
        &&& n.role == Role::Candidate
        &&& n.outbox@ == o.outbox@ + to_all(o.nodes@, req)
        &&& now + ELECTION_MIN_MS <= n.timeout.timeout <= now + ELECTION_MAX_MS
        &&& n.id == o.id
        &&& n.nodes@ == o.nodes@
        &&& n.log@ == o.log@
        &&& n.log_entry_success == o.log_entry_success
        &&& n.pending_cmds@ == o.pending_cmds@
        &&& n.committed == o.committed
        &&& n.book@ == o.book@
        &&& n.journal@ == o.journal@
    }
}

/// `n` is `o` after handling `msg` at time `now`.
pub open spec fn message_step(o: RaftNode, msg: Message, now: u64, n: RaftNode) -> bool {
    match msg {
        Message::Accept(m) => accept_step(o, m, n),
        Message::Command(c) => command_step(o, c, n),
        Message::AppendEntry(m) => append_entry_step(o, m, now, n),
        Message::AppendEntryResponse(m) => append_entry_response_step(o, m, n),
        Message::RequestVote(m) => request_vote_step(o, m, now, n),
        Message::Vote(m) => vote_step(o, m, now, n),
    }
}

/// The time `now` leaves room for the longest wait the node sets.
pub open spec fn clock_ok(now: u64) -> bool {
    now <= u64::MAX - ELECTION_MAX_MS
}

/// What handling `msg` needs of the node: the peers it answers or forwards
/// commands to are known,
/// an answered index lies in the log, no count runs past `usize`, and the
/// commands it would commit keep the balances within `usize`.
pub open spec fn admissible(o: RaftNode, msg: Message) -> bool {
    match msg {
        Message::Accept(_) => true,
        Message::Command(_) => (o.role != Role::Leader && o.leader is Some) ==> has_node(
            o.nodes@,
            o.leader->Some_0,
        ),
        Message::AppendEntry(m) => o.term <= m.term ==> {
            &&& (m.entry is Some || o.pending_cmds@.len() > 0) ==> has_node(o.nodes@, m.node_id)
            &&& m.entry is None ==> {
                let end = if m.committed < o.log@.len() {
                    m.committed as int
                } else {
                    o.log@.len() as int
                };
                o.committed < end ==> replay_fits(o.book@, commands(o.log@, o.committed as int, end))
            }
        },
        Message::AppendEntryResponse(m) => o.term == m.term ==> {
            &&& has_node(o.nodes@, m.node_id)
            &&& m.success ==> m.index < usize::MAX
            &&& !m.success ==> m.index >= 1
            &&& (m.success && o.committed <= m.index) ==> {
                &&& m.index < o.log@.len()
                &&& o.log_entry_success@[m.index as int]@.insert(m.node_id).len() > majority_of(
                    o.nodes@.len() as int,
                ) ==> replay_fits(o.book@, commands(o.log@, o.committed as int, m.index + 1))
            }
        },
        Message::RequestVote(m) => (o.term < m.term && log_info_le(
            log_info_of(o.log@),
            m.latest_log_info,
        )) ==> has_node(o.nodes@, m.node_id),
        Message::Vote(m) => (o.role == Role::Candidate && o.term == m.term) ==> o.votes < usize::MAX,
    }
}

/// The commands among `msgs`, in their order.
pub open spec fn commands_in(msgs: Seq<Message>) -> Seq<Command>
    decreases msgs.len(),
{
    if msgs.len() == 0 {
        Seq::empty()
    } else {
        let r = commands_in(msgs.drop_last());
        match msgs.last() {
            Message::Command(c) => r.push(c),
            _ => r,
        }
    }
}

/// `(peers + 1) / 2`, without overflow.
fn majority(peers: usize) -> (r: usize)
    ensures
        r == majority_of(peers as int),
{
    peers / 2 + peers % 2
}

impl RaftNode {
    /// Where peer `id` stands among the nodes; it is known.
    fn node_pos(&self, id: usize) -> (r: usize)
        requires
            self.nodes.wf(),
            distinct_ids(self.nodes@),
            has_node(self.nodes@, id),
        ensures
            r < self.nodes@.len(),
            r == node_index(self.nodes@, id),
            self.nodes@[r as int].id == id,
    {
        match self.find_node(id) {
            Some(i) => i,
            None => {
                proof {
                    assert(false);
                }
                0
            },
        }
    }

    /// Lets peer `i` wait for `e`.
    fn set_pending(&mut self, i: usize, e: Option<EntryData>)
        requires
            old(self).inv(),
            i < old(self).nodes@.len(),
        ensures
            final(self).inv(),
            final(self).nodes@ == old(self).nodes@.update(i as int, with_pending(old(self).nodes@[i as int], e)),
            final(self).id == old(self).id,
            final(self).role == old(self).role,
            final(self).leader == old(self).leader,
            final(self).term == old(self).term,
            final(self).votes == old(self).votes,
            final(self).log == old(self).log,
            final(self).log_entry_success == old(self).log_entry_success,
            final(self).pending_cmds == old(self).pending_cmds,
            final(self).committed == old(self).committed,
            final(self).timeout == old(self).timeout,
            final(self).book == old(self).book,
            final(self).journal == old(self).journal,
            final(self).outbox == old(self).outbox,
    {
        let ghost o = *old(self);
        let id = self.nodes.get(i).id;
        let link_up = self.nodes.get(i).link_up;
        self.nodes.set(i, Node { id, link_up, pending_entry: e });
        proof {
            assert(forall|k: int| 0 <= k < o.nodes@.len() ==> self.nodes@[k].id == o.nodes@[k].id);
        }
    }

    /// Puts the commands among `failed`, the queued messages that could not
    /// be sent, back in front of the commands waiting for a leader, in the
    /// order they were forwarded.
    pub fn take_back_unsent(&mut self, failed: &[Message])
        ensures
            final(self).pending_cmds@ == commands_in(failed@) + old(self).pending_cmds@,
            final(self).id == old(self).id,
            final(self).role == old(self).role,
            final(self).nodes == old(self).nodes,
            final(self).leader == old(self).leader,
            final(self).term == old(self).term,
            final(self).votes == old(self).votes,
            final(self).log == old(self).log,
            final(self).log_entry_success == old(self).log_entry_success,
            final(self).committed == old(self).committed,
            final(self).timeout == old(self).timeout,
            final(self).book == old(self).book,
            final(self).journal == old(self).journal,
            final(self).outbox == old(self).outbox,
    {
        let mut cmds: Vec<Command> = Vec::new();
        let mut i: usize = 0;
        while i < failed.len()
            invariant
                i <= failed@.len(),
                cmds@ == commands_in(failed@.take(i as int)),
            decreases failed@.len() - i,
        {
            proof {
                assert(failed@.take(i + 1).drop_last() =~= failed@.take(i as int));
            }
            if let Message::Command(c) = &failed[i] {
                cmds.push(c.clone());
            }
            i = i + 1;
        }
        proof {
            assert(failed@.take(failed@.len() as int) =~= failed@);
        }
        let ghost front = cmds@;
        cmds.append(&mut self.pending_cmds);
        self.pending_cmds = cmds;
        proof {
            assert(self.pending_cmds@ =~= front + old(self).pending_cmds@);
        }
    }

    /// Handles `msg` at time `now`, as the node's message loop does.
    pub fn dispatch(&mut self, msg: Message, now: u64)
        requires
            old(self).wf(),
            admissible(*old(self), msg),
            clock_ok(now),
        ensures
            final(self).wf(),
            message_step(*old(self), msg, now, *final(self)),
    {
        match msg {
            Message::Accept(m) => m.execute(self),
            Message::Command(c) => c.execute(self),
            Message::AppendEntry(m) => m.execute(self, now),
            Message::AppendEntryResponse(m) => m.execute(self),
            Message::RequestVote(m) => m.execute(self, now),
            Message::Vote(m) => m.execute(self, now),
        }
    }

    /// What the node does when no message came before its deadline: a
    /// leader sends heartbeats, any other node stands for election.
    pub fn on_timeout(&mut self, now: u64)
        requires
            old(self).wf(),
            old(self).role != Role::Leader ==> old(self).term < usize::MAX,
            clock_ok(now),
        ensures
            final(self).wf(),
            timeout_step(*old(self), now, *final(self)),
    {
        if self.role == Role::Leader {
            self.send_heartbeats();
            self.timeout.reset_heartbeat(now);
        } else {
            self.term = self.term + 1;
            self.leader = None;
            let log_info = self.latest_log_info();
            let req = Message::RequestVote(
                RequestVote { node_id: self.id, term: self.term, latest_log_info: log_info },
            );
            self.broadcast(&req);
            self.votes = 1;
            self.role = Role::Candidate;
            self.timeout.reset_election_timeout(now);
        }
    }
}

impl Accept {
    pub fn execute(self, raft_node: &mut RaftNode)
        requires
            old(raft_node).wf(),
        ensures
            final(raft_node).wf(),
            accept_step(*old(raft_node), self, *final(raft_node)),
    {
        let ghost o = *old(raft_node);
        match raft_node.find_node(self.address) {
            Some(i) => {
                raft_node.nodes.set(i, Node::new(self.address));
            },
            None => {
                raft_node.nodes.push(Node::new(self.address));
            },
        }
        proof {
            let nn = raft_node.nodes@;
            assert forall|i: int, j: int| 0 <= i < j < nn.len() implies #[trigger] nn[i].id != #[trigger] nn[j].id by {
                if j == o.nodes@.len() {
                    if o.nodes@[i].id == self.address {
                        assert(has_node(o.nodes@, self.address));
                    }
                } else {
                    assert(o.nodes@[i].id != o.nodes@[j].id);
                }
            }
        }
    }
}

impl Command {
    pub fn execute(self, raft_node: &mut RaftNode)
        requires
            old(raft_node).wf(),
            admissible(*old(raft_node), Message::Command(self)),
        ensures
            final(raft_node).wf(),
            command_step(*old(raft_node), self, *final(raft_node)),
    {
        let ghost o = *old(raft_node);
        if raft_node.role == Role::Leader {
            let term = raft_node.term;
            raft_node.push_log_entry(LogEntry::new(term, self.clone()));
            let entry_data = raft_node.new_entry_data(raft_node.log.len() - 1);
            let msg = raft_node.new_append_entry_msg(clone_entry(&entry_data));
            raft_node.offer_to_idle(&entry_data, &msg);
        } else {
            raft_node.pending_cmds.push(self);
            if raft_node.leader.is_some() {
                raft_node.send_pending_cmds_to_leader();
            }
        }
    }
}

impl AppendEntry {
    pub fn execute(self, raft_node: &mut RaftNode, now: u64)
        requires
            old(raft_node).wf(),
            admissible(*old(raft_node), Message::AppendEntry(self)),
            clock_ok(now),
        ensures
            final(raft_node).wf(),
            append_entry_step(*old(raft_node), self, now, *final(raft_node)),
    {
        let ghost o = *old(raft_node);
        if raft_node.term <= self.term {
            // A node that finds a later term follows it.
            raft_node.role = Role::Follower;
            raft_node.term = self.term;
            raft_node.leader = Some(self.node_id);
        } else {
            // A request of an earlier term is refused.
            return;
        }
        match self.entry {
            Some(entry) => {
                let li = raft_node.node_pos(self.node_id);
                let success = entry.prev_term == raft_node.prev_entry_term(entry.index);
                let resp = Message::AppendEntryResponse(
                    AppendEntryResponse {
                        node_id: raft_node.id,
                        term: self.term,
                        index: entry.index,
                        success,
                    },
                );
                let sent = raft_node.nodes.get(li).send_msg(resp, &mut raft_node.outbox).is_ok();
                if sent && success {
                    // the entry takes the place of everything from its index on
                    raft_node.truncate_log(entry.index);
                    raft_node.push_log_entry(LogEntry::new(entry.term, entry.command));
                }
            },
            None => {
                if self.committed > raft_node.committed {
                    let end = if self.committed < raft_node.log.len() {
                        self.committed
                    } else {
                        raft_node.log.len()
                    };
                    raft_node.commit_to(end);
                }
            },
        }
        if !raft_node.pending_cmds.is_empty() {
            raft_node.send_pending_cmds_to_leader();
        }
        raft_node.timeout.reset_election_timeout(now);
    }
}

impl AppendEntryResponse {
    pub fn execute(self, raft_node: &mut RaftNode)
        requires
            old(raft_node).wf(),
            admissible(*old(raft_node), Message::AppendEntryResponse(self)),
        ensures
            final(raft_node).wf(),
            append_entry_response_step(*old(raft_node), self, *final(raft_node)),
    {
        let ghost o = *old(raft_node);
        if raft_node.term == self.term {
            if self.success && raft_node.committed <= self.index {
                let mut acks = raft_node.log_entry_success.remove(self.index);
                acks.insert(self.node_id);
                let count = acks.len();
                raft_node.log_entry_success.insert(self.index, acks);
                proof {
                    assert forall|k: int|
                        0 <= k < o.log_entry_success@.len() && k != self.index implies #[trigger] raft_node.log_entry_success@[k]
                            == o.log_entry_success@[k] by {}
                }
                // more than half of the cluster holds the entry: commit up to it
                if count > majority(raft_node.nodes.len()) {
                    raft_node.commit_to(self.index + 1);
                }
            }
            let next = if self.success {
                self.index + 1
            } else {
                self.index - 1
            };
            let entry = raft_node.new_entry_data(next);
            let msg = raft_node.new_append_entry_msg(clone_entry(&entry));
            let li = raft_node.node_pos(self.node_id);
            raft_node.set_pending(li, entry);
            if raft_node.nodes.get(li).pending_entry.is_some() {
                let _ = raft_node.nodes.get(li).send_msg(msg, &mut raft_node.outbox);
            }
        }
    }
}

impl RequestVote {
    pub fn execute(self, raft_node: &mut RaftNode, now: u64)
        requires
            old(raft_node).wf(),
            admissible(*old(raft_node), Message::RequestVote(self)),
            clock_ok(now),
        ensures
            final(raft_node).wf(),
            request_vote_step(*old(raft_node), self, now, *final(raft_node)),
    {
        if raft_node.term < self.term {
            raft_node.term = self.term;
            if raft_node.latest_log_info().is_at_most(&self.latest_log_info) {
                let li = raft_node.node_pos(self.node_id);
                let vote = Message::Vote(Vote { term: self.term });
                if raft_node.nodes.get(li).send_msg(vote, &mut raft_node.outbox).is_ok() {
                    raft_node.role = Role::Follower;
                    raft_node.leader = None;
                    raft_node.timeout.reset_election_timeout(now);
                }
            }
        }
    }
}

impl Vote {
    pub fn execute(self, raft_node: &mut RaftNode, now: u64)
        requires
            old(raft_node).wf(),
            admissible(*old(raft_node), Message::Vote(self)),
            clock_ok(now),
        ensures
            final(raft_node).wf(),
            vote_step(*old(raft_node), self, now, *final(raft_node)),
    {
        if raft_node.role == Role::Candidate && raft_node.term == self.term {
            raft_node.votes = raft_node.votes + 1;
            if raft_node.votes > majority(raft_node.nodes.len()) {
                raft_node.role = Role::Leader;
                raft_node.leader = None;
                // the latest entry goes to everyone with the next heartbeat
                let n = raft_node.log.len();
                let last = if n == 0 {
                    usize::MAX
                } else {
                    n - 1
                };
                let entry_data = raft_node.new_entry_data(last);
                raft_node.set_all_pending(&entry_data);
                raft_node.drain_pending_cmds_to_log();
                raft_node.send_heartbeats();
                raft_node.timeout.reset_heartbeat(now);
            }
        }
    }
}

impl RaftNode {
    /// Whether committing the entries from the first uncommitted one up to
    /// `end` (excluded) keeps every balance within `usize`.
    pub fn commit_fits(&self, end: usize) -> (r: bool)
        requires
            self.wf(),
            end <= self.log@.len(),
        ensures
            r == (self.committed < end ==> replay_fits(
                self.book@,
                commands(self.log@, self.committed as int, end as int),
            )),
    {
        if end <= self.committed {
            return true;
        }
        let mut scratch = self.book.duplicate();
        let ghost cmds = commands(self.log@, self.committed as int, end as int);
        let ghost c0 = self.committed as int;
        let mut k = self.committed;
        proof {
            assert(cmds.take(0) =~= Seq::<Command>::empty());
        }
        while k < end
            invariant
                c0 == self.committed,
                c0 <= k <= end,
                end <= self.log@.len(),
                scratch.wf(),
                cmds == commands(self.log@, c0, end as int),
                scratch@ == replay(self.book@, cmds.take(k - c0)),
                replay_fits(self.book@, cmds.take(k - c0)),
            decreases end - k,
        {
            let ghost j = k - c0;
            proof {
                assert(cmds[j] == self.log@[k as int].entry);
            }
            if !scratch.fits(&self.log[k].entry) {
                proof {
                    if replay_fits(self.book@, cmds) {
                        lemma_fits_at(self.book@, cmds, j);
                    }
                }
                return false;
            }
            scratch.apply(&self.log[k].entry);
            proof {
                assert(cmds.take(j + 1).drop_last() =~= cmds.take(j));
            }
            k = k + 1;
        }
        proof {
            assert(cmds.take(end - c0) =~= cmds);
        }
        true
    }

    /// Whether the node can handle `msg`: what `admissible` asks.
    pub fn admits(&self, msg: &Message) -> (r: bool)
        requires
            self.wf(),
        ensures
            r == admissible(*self, *msg),
    {
        match msg {
            Message::Accept(_) => true,
            Message::Command(_) => {
                match self.leader {
                    Some(l) => self.role == Role::Leader || self.find_node(l).is_some(),
                    None => true,
                }
            },
            Message::AppendEntry(m) => {
                if self.term <= m.term {
                    let needs_peer = m.entry.is_some() || !self.pending_cmds.is_empty();
                    if needs_peer && self.find_node(m.node_id).is_none() {
                        return false;
                    }
                    match &m.entry {
                        Some(_) => true,
                        None => {
                            let end = if m.committed < self.log.len() {
                                m.committed
                            } else {
                                self.log.len()
                            };
                            self.commit_fits(end)
                        },
                    }
                } else {
                    true
                }
            },
            Message::AppendEntryResponse(m) => {
                if self.term == m.term {
                    if self.find_node(m.node_id).is_none() {
                        return false;
                    }
                    if m.success && m.index == usize::MAX {
                        return false;
                    }
                    if !m.success && m.index == 0 {
                        return false;
                    }
                    if m.success && self.committed <= m.index {
                        if m.index >= self.log.len() {
                            return false;
                        }
                        let acks = &self.log_entry_success[m.index];
                        proof {
                            assert(acks@.finite());
                            if acks@.contains(m.node_id) {
                                assert(acks@.insert(m.node_id) =~= acks@);
                            }
                        }
                        let counted = if acks.contains(&m.node_id) {
                            acks.len() > majority(self.nodes.len())
                        } else {
                            acks.len() >= majority(self.nodes.len())
                        };
                        if counted {
                            self.commit_fits(m.index + 1)
                        } else {
                            true
                        }
                    } else {
                        true
                    }
                } else {
                    true
                }
            },
            Message::RequestVote(m) => {
                if self.term < m.term && self.latest_log_info().is_at_most(&m.latest_log_info) {
                    self.find_node(m.node_id).is_some()
                } else {
                    true
                }
            },
            Message::Vote(m) => {
                if self.role == Role::Candidate && self.term == m.term {
                    self.votes < usize::MAX
                } else {
                    true
                }
            },
        }
    }
}

/// Committed commands are never undone and never reordered: handling a
/// message only appends to what the node has committed, the book moves on
/// by exactly the commands appended, and the term never goes back.
pub proof fn lemma_message_keeps_history(o: RaftNode, msg: Message, now: u64, n: RaftNode)
    requires
        o.wf(),
        n.wf(),
        message_step(o, msg, now, n),
    ensures
        n.term >= o.term,
        o.journal@.is_prefix_of(n.journal@),
        n.book@ == replay(o.book@, n.journal@.skip(o.journal@.len() as int)),
{
    let added = n.journal@.skip(o.journal@.len() as int);
    assert(o.journal@.is_prefix_of(n.journal@) && n.journal@ =~= o.journal@ + added) by {
        match msg {
            Message::AppendEntry(m) => {
                if o.term <= m.term {
                    match m.entry {
                        Some(_) => {},
                        None => {
                            assert(n.journal@.subrange(0, o.journal@.len() as int) =~= o.journal@);
                        },
                    }
                }
            },
            Message::AppendEntryResponse(m) => {
                assert(n.journal@.subrange(0, o.journal@.len() as int) =~= o.journal@);
            },
            _ => {},
        }
    }
    lemma_replay_concat(Map::empty(), o.journal@, added);
}

/// A timeout neither commits nor undoes anything, and the term never goes
/// back.
pub proof fn lemma_timeout_keeps_history(o: RaftNode, now: u64, n: RaftNode)
    requires
        o.wf(),
        timeout_step(o, now, n),
    ensures
        n.term >= o.term,
        n.journal@ == o.journal@,
        n.book@ == o.book@,
{
}

/// A node becomes leader only on a vote of its own term that gives it more
/// than half of the cluster.
pub proof fn lemma_leader_needs_majority(o: RaftNode, msg: Message, now: u64, n: RaftNode)
    requires
        o.wf(),
        message_step(o, msg, now, n),
        o.role != Role::Leader,
        n.role == Role::Leader,
    ensures
        msg is Vote,
        o.role == Role::Candidate,
        n.term == o.term,
        n.votes > majority_of(n.nodes@.len() as int),
{
}

/// A timeout never makes a node leader.
pub proof fn lemma_timeout_never_elects(o: RaftNode, now: u64, n: RaftNode)
    requires
        o.wf(),
        timeout_step(o, now, n),
        o.role != Role::Leader,
    ensures
        n.role == Role::Candidate,
{
}

/// A node votes only for a candidate of a later term whose log is at least
/// as far on as its own.
pub proof fn lemma_vote_needs_up_to_date_log(o: RaftNode, m: RequestVote, now: u64, n: RaftNode)
    requires
        o.wf(),
        request_vote_step(o, m, now, n),
        n.outbox@.len() > o.outbox@.len(),
    ensures
        o.term < m.term,
        log_info_le(log_info_of(o.log@), m.latest_log_info),
        n.outbox@.last() == (m.node_id, Message::Vote(Vote { term: m.term })),
{
}

/// A leader commits on an answer only once more than half of the cluster
/// holds the answered entry, and then up to that entry.
pub proof fn lemma_commit_needs_majority(o: RaftNode, m: AppendEntryResponse, n: RaftNode)
    requires
        o.wf(),
        append_entry_response_step(o, m, n),
        n.committed != o.committed,
    ensures
        n.committed == m.index + 1,
        n.log_entry_success@[m.index as int]@.len() > majority_of(o.nodes@.len() as int),
{
}

/// No message of `out` is a vote.
pub open spec fn no_votes(out: Seq<(usize, Message)>) -> bool {
    forall|i: int| 0 <= i < out.len() ==> !(#[trigger] out[i]).1.is_vote()
}

impl Message {
    pub open spec fn is_vote(self) -> bool {
        self is Vote
    }
}

proof fn lemma_to_all_no_votes(nodes: Seq<Node>, msg: Message)
    requires
        !msg.is_vote(),
    ensures
        no_votes(to_all(nodes, msg)),
    decreases nodes.len(),
{
    if nodes.len() > 0 {
        lemma_to_all_no_votes(nodes.drop_last(), msg);
    }
}

proof fn lemma_to_idle_no_votes(nodes: Seq<Node>, msg: Message)
    requires
        !msg.is_vote(),
    ensures
        no_votes(to_idle(nodes, msg)),
    decreases nodes.len(),
{
    if nodes.len() > 0 {
        lemma_to_idle_no_votes(nodes.drop_last(), msg);
    }
}

proof fn lemma_heartbeats_no_votes(nodes: Seq<Node>, node_id: usize, term: usize, committed: usize)
    ensures
        no_votes(heartbeats(nodes, node_id, term, committed)),
    decreases nodes.len(),
{
    if nodes.len() > 0 {
        lemma_heartbeats_no_votes(nodes.drop_last(), node_id, term, committed);
    }
}

proof fn lemma_no_votes_concat(a: Seq<(usize, Message)>, b: Seq<(usize, Message)>)
    requires
        no_votes(a),
        no_votes(b),
    ensures
        no_votes(a + b),
{
    assert forall|i: int| 0 <= i < (a + b).len() implies !(#[trigger] (a + b)[i]).1.is_vote() by {
        if i < a.len() {
            assert((a + b)[i] == a[i]);
        } else {
            assert((a + b)[i] == b[i - a.len()]);
        }
    }
}

proof fn lemma_forwarded_no_votes(pending: Seq<Command>, leader: usize)
    ensures
        no_votes(pending.map_values(|x: Command| (leader, Message::Command(x)))),
{
}

/// A node votes at most once in a term: a vote it sends carries the term
/// it has just moved to, later than any term it had before, and nothing but
/// a vote request makes it vote.
pub proof fn lemma_votes_once_per_term(o: RaftNode, msg: Message, now: u64, n: RaftNode)
    requires
        o.wf(),
        message_step(o, msg, now, n),
    ensures
        o.outbox@.is_prefix_of(n.outbox@),
        forall|i: int|
            o.outbox@.len() <= i < n.outbox@.len() && (#[trigger] n.outbox@[i]).1.is_vote() ==> {
                &&& msg is RequestVote
                &&& n.outbox@[i].1 == Message::Vote(Vote { term: n.term })
                &&& n.term > o.term
            },
{
    let added = n.outbox@.skip(o.outbox@.len() as int);
    assert(o.outbox@.is_prefix_of(n.outbox@) && n.outbox@ =~= o.outbox@ + added && (!(msg is RequestVote)
        ==> no_votes(added))) by {
        match msg {
            Message::Accept(_) => {},
            Message::Command(c) => {
                if o.role == Role::Leader {
                    let log = o.log@.push(LogEntry { term: o.term, entry: c });
                    let e = entry_data_at(log, log.len() - 1);
                    lemma_to_idle_no_votes(o.nodes@, append_entry_msg(o.id, o.term, o.committed, e));
                    assert(n.outbox@.subrange(0, o.outbox@.len() as int) =~= o.outbox@);
                } else {
                    lemma_forwarded_no_votes(o.pending_cmds@.push(c), o.leader->Some_0);
                    assert(n.outbox@.subrange(0, o.outbox@.len() as int) =~= o.outbox@);
                }
            },
            Message::AppendEntry(m) => {
                if o.term <= m.term {
                    lemma_forwarded_no_votes(o.pending_cmds@, m.node_id);
                    match m.entry {
                        Some(e) => {
                            let success = e.prev_term == prev_term(o.log@, e.index as int);
                            let resp = Message::AppendEntryResponse(
                                AppendEntryResponse { node_id: o.id, term: m.term, index: e.index, success },
                            );
                            let up = node_of(o.nodes@, m.node_id).link_up;
                            let out = if up {
                                o.outbox@.push((m.node_id, resp))
                            } else {
                                o.outbox@
                            };
                            assert(out.subrange(0, o.outbox@.len() as int) =~= o.outbox@);
                            assert(n.outbox@.subrange(0, o.outbox@.len() as int) =~= o.outbox@);
                            assert(no_votes(out.skip(o.outbox@.len() as int)));
                            if o.pending_cmds@.len() > 0 && up {
                                lemma_no_votes_concat(
                                    out.skip(o.outbox@.len() as int),
                                    o.pending_cmds@.map_values(|x: Command| (m.node_id, Message::Command(x))),
                                );
                                assert(added =~= out.skip(o.outbox@.len() as int) + o.pending_cmds@.map_values(
                                    |x: Command| (m.node_id, Message::Command(x)),
                                ));
                            }
                        },
                        None => {
                            assert(n.outbox@.subrange(0, o.outbox@.len() as int) =~= o.outbox@);
                        },
                    }
                }
            },
            Message::AppendEntryResponse(_) => {
                assert(n.outbox@.subrange(0, o.outbox@.len() as int) =~= o.outbox@);
            },
            Message::RequestVote(m) => {
                assert(n.outbox@.subrange(0, o.outbox@.len() as int) =~= o.outbox@);
            },
            Message::Vote(m) => {
                if o.role == Role::Candidate && o.term == m.term {
                    lemma_heartbeats_no_votes(n.nodes@, o.id, o.term, o.committed);
                }
                assert(n.outbox@.subrange(0, o.outbox@.len() as int) =~= o.outbox@);
            },
        }
    }
    assert forall|i: int|
        o.outbox@.len() <= i < n.outbox@.len() && (#[trigger] n.outbox@[i]).1.is_vote() implies {
            &&& msg is RequestVote
            &&& n.outbox@[i].1 == Message::Vote(Vote { term: n.term })
            &&& n.term > o.term
        } by {
        assert(n.outbox@[i] == added[i - o.outbox@.len()]);
    }
}

/// A timeout never makes a node vote for another: the only vote it casts
/// is its own, in a term later than any it had.
pub proof fn lemma_timeout_sends_no_votes(o: RaftNode, now: u64, n: RaftNode)
    requires
        o.wf(),
        timeout_step(o, now, n),
    ensures
        o.outbox@.is_prefix_of(n.outbox@),
        no_votes(n.outbox@.skip(o.outbox@.len() as int)),
        o.role != Role::Leader ==> n.term > o.term && n.votes == 1,
{
    let added = n.outbox@.skip(o.outbox@.len() as int);
    if o.role == Role::Leader {
        lemma_heartbeats_no_votes(o.nodes@, o.id, o.term, o.committed);
    } else {
        let req = Message::RequestVote(
            RequestVote { node_id: o.id, term: (o.term + 1) as usize, latest_log_info: log_info_of(o.log@) },
        );
        lemma_to_all_no_votes(o.nodes@, req);
    }
    assert(n.outbox@.subrange(0, o.outbox@.len() as int) =~= o.outbox@);
    assert(added =~= n.outbox@.subrange(o.outbox@.len() as int, n.outbox@.len() as int));
}

/// A follower that takes an entry of the leader's log ends its own log with
/// that entry, at the entry's index when its log reached that far, keeping
/// the entries before it.
pub proof fn lemma_follower_takes_leader_entry(
    leader_log: Seq<LogEntry<Command>>,
    i: int,
    o: RaftNode,
    m: AppendEntry,
    now: u64,
    n: RaftNode,
)
    requires
        o.wf(),
        0 <= i < leader_log.len() <= usize::MAX,
        m.entry == entry_data_at(leader_log, i),
        append_entry_step(o, m, now, n),
        n.log@ != o.log@,
    ensures
        n.log@.last() == leader_log[i],
        i <= o.log@.len() ==> n.log@.len() == i + 1 && n.log@.subrange(0, i) == o.log@.subrange(0, i),
{
    let e = m.entry->Some_0;
    assert(e.index == i);
    if i <= o.log@.len() {
        assert(o.log@.subrange(0, i).len() == i);
    }
}

/// The term of the last entry of `log`, 0 when it is empty.
pub open spec fn last_term(log: Seq<LogEntry<Command>>) -> int {
    if log.len() == 0 {
        0
    } else {
        log.last().term as int
    }
}

/// The vote threshold for a cluster of a node and `peers` peers is at least
/// half of the peers, and at most all of them: passing it takes more than
/// half of the `peers + 1` nodes, so two disjoint sets of voters never both
/// pass it.
pub proof fn lemma_majority_is_more_than_half(peers: nat)
    ensures
        2 * majority_of(peers as int) >= peers,
        majority_of(peers as int) <= peers,
{
}

/// `votes` pass the threshold of a cluster of a node and `peers` peers
/// exactly when they are more than half of its `peers + 1` nodes.
pub proof fn lemma_majority_threshold(peers: nat, votes: int)
    ensures
        votes > majority_of(peers as int) <==> 2 * votes > peers + 1,
{
}

/// A candidate counting a vote of its own term becomes leader exactly when
/// its votes, that one included, are more than half of the cluster, itself
/// and its peers; otherwise it stays a candidate.
pub proof fn lemma_candidate_wins_with_more_than_half(o: RaftNode, m: Vote, now: u64, n: RaftNode)
    requires
        o.wf(),
        vote_step(o, m, now, n),
        o.role == Role::Candidate,
        o.term == m.term,
    ensures
        n.votes == o.votes + 1,
        n.term == o.term,
        2 * n.votes > o.nodes@.len() + 1 ==> n.role == Role::Leader,
        2 * n.votes <= o.nodes@.len() + 1 ==> n.role == Role::Candidate,
{
    lemma_majority_threshold(o.nodes@.len(), o.votes + 1);
}

/// A node that becomes leader has the votes of more than half of the
/// cluster: twice its votes exceed the number of nodes, itself included.
pub proof fn lemma_leader_has_more_than_half(o: RaftNode, msg: Message, now: u64, n: RaftNode)
    requires
        o.wf(),
        message_step(o, msg, now, n),
        o.role != Role::Leader,
        n.role == Role::Leader,
    ensures
        2 * n.votes > n.nodes@.len() + 1,
{
    lemma_leader_needs_majority(o, msg, now, n);
    lemma_majority_is_more_than_half(n.nodes@.len());
}

/// A leader commits on an answer only when more than half of the cluster
/// holds the answered entry: twice the holders exceed the number of nodes.
pub proof fn lemma_commit_has_more_than_half(o: RaftNode, m: AppendEntryResponse, n: RaftNode)
    requires
        o.wf(),
        append_entry_response_step(o, m, n),
        n.committed != o.committed,
    ensures
        2 * n.log_entry_success@[m.index as int]@.len() > o.nodes@.len() + 1,
{
    lemma_commit_needs_majority(o, m, n);
    lemma_majority_is_more_than_half(o.nodes@.len());
}

/// Logs are ordered by the term of their last entry, then by length: a log
/// whose last entry is of an earlier term is behind, and of two logs whose
/// last entries have the same term the shorter is behind.
pub proof fn lemma_log_order(a: LogInfo, b: LogInfo)
    ensures
        a.latest_term < b.latest_term ==> log_info_le(a, b),
        a.latest_term > b.latest_term ==> !log_info_le(a, b),
        a.latest_term == b.latest_term ==> (log_info_le(a, b) <==> a.len <= b.len),
{
}

/// A node asked for its vote in a later term by a peer it is linked to
/// votes for it when the peer's last entry is of a later term, or of the
/// same term with a log at least as long; otherwise it sends nothing.
pub proof fn lemma_votes_for_up_to_date_log(o: RaftNode, m: RequestVote, now: u64, n: RaftNode)
    requires
        o.wf(),
        request_vote_step(o, m, now, n),
        o.term < m.term,
        has_node(o.nodes@, m.node_id),
        node_of(o.nodes@, m.node_id).link_up,
    ensures
        (last_term(o.log@) < m.latest_log_info.latest_term || (last_term(o.log@)
            == m.latest_log_info.latest_term && o.log@.len() <= m.latest_log_info.len))
            ==> n.outbox@ == o.outbox@.push((m.node_id, Message::Vote(Vote { term: m.term }))),
        (last_term(o.log@) > m.latest_log_info.latest_term || (last_term(o.log@)
            == m.latest_log_info.latest_term && o.log@.len() > m.latest_log_info.len))
            ==> n.outbox@ == o.outbox@,
        n.term == m.term,
{
    assert(o.log.len() == o.log@.len());
    lemma_log_order(log_info_of(o.log@), m.latest_log_info);
}

/// A heartbeat of a term no earlier than the node's own commits the node's
/// log up to the leader's committed count, or up to the end of the log when
/// that comes first, whenever this goes past what the node has committed;
/// the book then holds the newly committed commands applied in order.
pub proof fn lemma_heartbeat_commits(o: RaftNode, m: AppendEntry, now: u64, n: RaftNode)
    requires
        o.wf(),
        append_entry_step(o, m, now, n),
        m.entry is None,
        o.term <= m.term,
    ensures
        ({
            let lim = if m.committed <= o.log@.len() {
                m.committed as int
            } else {
                o.log@.len() as int
            };
            &&& o.committed < lim ==> {
                &&& n.committed == lim
                &&& n.book@ == replay(o.book@, commands(o.log@, o.committed as int, lim))
            }
            &&& lim <= o.committed ==> n.committed == o.committed && n.book@ == o.book@
        }),
{
}

/// Every message in `to_all(nodes, msg)` is `msg`.
proof fn lemma_to_all_sends_msg(nodes: Seq<Node>, msg: Message)
    ensures
        forall|i: int| 0 <= i < to_all(nodes, msg).len() ==> (#[trigger] to_all(nodes, msg)[i]).1 == msg,
    decreases nodes.len(),
{
    if nodes.len() > 0 {
        lemma_to_all_sends_msg(nodes.drop_last(), msg);
    }
}

/// A node that stands for election asks for votes in the next term with the
/// position of its own log: the term of its last entry (0 for an empty log,
/// whatever its current term) and its length.
pub proof fn lemma_election_asks_with_last_entry(o: RaftNode, now: u64, n: RaftNode)
    requires
        o.wf(),
        timeout_step(o, now, n),
        o.role != Role::Leader,
    ensures
        n.outbox@.len() >= o.outbox@.len(),
        n.outbox@.subrange(0, o.outbox@.len() as int) == o.outbox@,
        forall|i: int|
            o.outbox@.len() <= i < n.outbox@.len() ==> ((#[trigger] n.outbox@[i]).1 matches Message::RequestVote(r)
                && r.node_id == o.id && r.term == o.term + 1 && r.latest_log_info.len == o.log@.len()
                && r.latest_log_info.latest_term == last_term(o.log@)),
{
    let req = Message::RequestVote(
        RequestVote { node_id: o.id, term: (o.term + 1) as usize, latest_log_info: log_info_of(o.log@) },
    );
    assert(o.log.len() == o.log@.len());
    lemma_to_all_sends_msg(o.nodes@, req);
    let sent = to_all(o.nodes@, req);
    assert(n.outbox@.subrange(0, o.outbox@.len() as int) =~= o.outbox@);
    assert forall|i: int| o.outbox@.len() <= i < n.outbox@.len() implies (#[trigger] n.outbox@[i]).1 == req by {
        assert(n.outbox@[i] == sent[i - o.outbox@.len()]);
    }
}

} // verus!
