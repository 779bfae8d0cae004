//! The group chat: the wire format of commands (a tag byte, a big-endian
//! `u32` length and the UTF-8 text) and what the server does with them:
//! naming a client, relaying messages, announcing arrivals and departures.

use vstd::prelude::*;
use std::collections::HashMap;
use vstd::std_specs::iter::IteratorSpec;
use vstd::string::StringExecFns;
use vstd::utf8::{decode_utf8, encode_utf8, valid_utf8, encode_utf8_decode_utf8, encode_utf8_valid_utf8};

verus! {

broadcast use vstd::std_specs::hash::group_hash_axioms;

#[derive(Debug, PartialEq, Clone)]
pub enum Command {
    Name(String),
    Message(String),
}

/// The tag byte of a command on the wire.
pub open spec fn tag_of(c: Command) -> u8 {
    match c {
        Command::Name(_) => 0,
        Command::Message(_) => 1,
    }
}

/// The text a command carries.
pub open spec fn text_of(c: Command) -> Seq<char> {
    match c {
        Command::Name(s) => s@,
        Command::Message(s) => s@,
    }
}

/// `n` as four big-endian bytes.
pub open spec fn be32_bytes(n: u32) -> Seq<u8> {
    seq![(n >> 24u32) as u8, (n >> 16u32) as u8, (n >> 8u32) as u8, n as u8]
}

/// The big-endian `u32` made of four bytes.
pub open spec fn be32_value(b0: u8, b1: u8, b2: u8, b3: u8) -> u32 {
    ((b0 as u32) << 24u32) | ((b1 as u32) << 16u32) | ((b2 as u32) << 8u32) | (b3 as u32)
}

/// A frame: the tag, the payload length (cut to 32 bits) and the payload.
pub open spec fn frame(tag: u8, payload: Seq<u8>) -> Seq<u8> {
    seq![tag] + be32_bytes(payload.len() as u32) + payload
}

/// The bytes `encode` produces for `c`.
pub open spec fn encoding(c: Command) -> Seq<u8> {
    frame(tag_of(c), encode_utf8(text_of(c)))
}

/// The payload length that the header at the start of `b` announces.
pub open spec fn frame_len(b: Seq<u8>) -> int {
    be32_value(b[1], b[2], b[3], b[4]) as int
}

/// `b` starts with a whole frame.
pub open spec fn complete(b: Seq<u8>) -> bool {
    b.len() >= 5 && b.len() >= 5 + frame_len(b)
}

/// The payload of the frame at the start of `b`.
pub open spec fn payload(b: Seq<u8>) -> Seq<u8> {
    b.subrange(5, 5 + frame_len(b))
}

/// A whole frame at the start of `b` has a known tag and UTF-8 text.
pub open spec fn decodable(b: Seq<u8>) -> bool {
    complete(b) ==> b[0] <= 1 && valid_utf8(payload(b))
}

/// The bytes do not yet hold a whole frame.
#[derive(Debug)]
pub struct Incomplete;

proof fn lemma_be32(n: u32)
    by (bit_vector)
    ensures
        ((((n >> 24u32) as u8) as u32) << 24u32) | ((((n >> 16u32) as u8) as u32) << 16u32) | ((((n
            >> 8u32) as u8) as u32) << 8u32) | ((n as u8) as u32) == n,
{
}

/// `String::from_utf8`, which returns the string when `bytes` are valid
/// UTF-8 and an error otherwise; claimed here: valid bytes give the string
/// whose characters they encode, and invalid bytes give `None`.
#[verifier::external_body]
fn string_from_utf8(bytes: Vec<u8>) -> (r: Option<String>)
    ensures
        r is Some <==> valid_utf8(bytes@),
        r is Some ==> r->Some_0@ == decode_utf8(bytes@),
{
    match String::from_utf8(bytes) {
        Ok(s) => Some(s),
        Err(_) => None,
    }
}

/// The frame of `cmd`.
pub fn encode(cmd: Command) -> (r: Vec<u8>)
    ensures
        r@ == encoding(cmd),
{
    let (tag, text): (u8, String) = match cmd {
        Command::Name(name) => (0, name),
        Command::Message(msg) => (1, msg),
    };
    let text_bytes: &[u8] = text.as_str().as_bytes();
    let n = text_bytes.len() as u32;
    let mut bytes: Vec<u8> = Vec::new();
    bytes.push(tag);
    bytes.push((n >> 24u32) as u8);
    bytes.push((n >> 16u32) as u8);
    bytes.push((n >> 8u32) as u8);
    bytes.push(n as u8);
    let mut i: usize = 0;
    while i < text_bytes.len()
        invariant
            i <= text_bytes@.len(),
            bytes@ == seq![tag] + be32_bytes(n) + text_bytes@.subrange(0, i as int),
        decreases text_bytes@.len() - i,
    {
        bytes.push(text_bytes[i]);
        i = i + 1;
        proof {
            assert(bytes@ =~= seq![tag] + be32_bytes(n) + text_bytes@.subrange(0, i as int));
        }
    }
    proof {
        assert(text_bytes@.subrange(0, text_bytes@.len() as int) =~= text_bytes@);
    }
    bytes
}

/// The command framed at the start of `bytes`, with the number of bytes the
/// frame takes; `Incomplete` while the bytes hold less than a whole frame.
pub fn decode(bytes: &[u8]) -> (r: Result<(Command, usize), Incomplete>)
    requires
        decodable(bytes@),
    ensures
        match r {
            Ok((c, n)) => {
                &&& complete(bytes@)
                &&& n == 5 + frame_len(bytes@)
                &&& tag_of(c) == bytes@[0]
                &&& text_of(c) == decode_utf8(payload(bytes@))
            },
            Err(_) => !complete(bytes@),
        },
{
    let total = bytes.len();
    if total < 5 {
        return Err(Incomplete);
    }
    let tag = bytes[0];
    let len = (((bytes[1] as u32) << 24u32) | ((bytes[2] as u32) << 16u32) | ((bytes[3] as u32) << 8u32)
        | (bytes[4] as u32)) as usize;
    if total - 5 < len {
        return Err(Incomplete);
    }
    let mut msg_bytes: Vec<u8> = Vec::new();
    let mut i: usize = 0;
    while i < len
        invariant
            i <= len,
            total == bytes@.len(),
            5 + len <= bytes@.len(),
            msg_bytes@ == bytes@.subrange(5, 5 + i),
        decreases len - i,
    {
        msg_bytes.push(bytes[5 + i]);
        i = i + 1;
        proof {
            assert(msg_bytes@ =~= bytes@.subrange(5, 5 + i));
        }
    }
    let msg = string_from_utf8(msg_bytes).unwrap();
    let cmd = if tag == 0 {
        Command::Name(msg)
    } else {
        Command::Message(msg)
    };
    Ok((cmd, 5 + len))
}

/// What `decode` reads back of `encode`'s frame of `c`, whatever follows
/// the frame: a whole frame of `c`'s tag whose text is `c`'s text. The
/// length field holds 32 bits, so the text must fit in them.
pub proof fn lemma_decode_encode(c: Command, rest: Seq<u8>)
    requires
        encode_utf8(text_of(c)).len() <= u32::MAX,
    ensures
        decodable(encoding(c) + rest),
        complete(encoding(c) + rest),
        5 + frame_len(encoding(c) + rest) == encoding(c).len(),
        (encoding(c) + rest)[0] == tag_of(c),
        decode_utf8(payload(encoding(c) + rest)) == text_of(c),
{
    let p = encode_utf8(text_of(c));
    let b = encoding(c) + rest;
    let n = p.len() as u32;
    lemma_be32(n);
    assert(b[1] == (n >> 24u32) as u8);
    assert(b[2] == (n >> 16u32) as u8);
    assert(b[3] == (n >> 8u32) as u8);
    assert(b[4] == n as u8);
    assert(frame_len(b) == p.len());
    assert(payload(b) =~= p);
    encode_utf8_valid_utf8(text_of(c));
    encode_utf8_decode_utf8(text_of(c));
}

/// The announcement of a first name.
pub open spec fn welcome(name: Seq<char>) -> Seq<char> {
    "----- Welcome, "@ + name + " -----"@
}

/// The announcement of a name that did not change.
pub open spec fn welcome_again(name: Seq<char>) -> Seq<char> {
    "----- Welcome again, "@ + name + " -----"@
}

/// The announcement of a change of name.
pub open spec fn renamed(old_name: Seq<char>, name: Seq<char>) -> Seq<char> {
    "----- "@ + old_name + " changed name to 👉 "@ + name + " -----"@
}

/// The announcement of a client leaving.
pub open spec fn farewell(name: Seq<char>) -> Seq<char> {
    "----- "@ + name + " has left -----"@
}

/// A message as the other clients see it.
pub open spec fn said(name: Seq<char>, msg: Seq<char>) -> Seq<char> {
    name + ": "@ + msg
}

/// What the server announces when a client named `old_name` asks for `name`.
pub open spec fn name_announcement(old_name: Seq<char>, name: Seq<char>) -> Seq<char> {
    if old_name != name {
        if old_name.len() == 0 {
            welcome(name)
        } else {
            renamed(old_name, name)
        }
    } else {
        welcome_again(name)
    }
}

/// A connected client as the server keeps it.
pub struct Client {
    name: String,
}

impl Client {
    pub closed spec fn name_view(&self) -> Seq<char> {
        self.name@
    }

    /// A client that has not given a name yet.
    pub fn new() -> (r: Client)
        ensures
            r.name_view() == Seq::<char>::empty(),
    {
        Client { name: String::new() }
    }

    pub fn name(&self) -> (r: String)
        ensures
            r@ == self.name_view(),
    {
        self.name.clone()
    }

    pub fn set_name(&mut self, name: &str)
        ensures
            final(self).name_view() == name@,
    {
        self.name = String::from_str(name);
    }

    /// Takes `name` as the client's name and gives the announcement of it.
    pub fn rename(&mut self, name: &str) -> (r: String)
        ensures
            final(self).name_view() == name@,
            r@ == name_announcement(old(self).name_view(), name@),
    {
        let old_name = self.name();
        let new_name = String::from_str(name);
        if old_name != new_name {
            self.set_name(name);
            if old_name.as_str().is_empty() {
                let mut msg = String::from_str("----- Welcome, ");
                msg.append(name);
                msg.append(" -----");
                msg
            } else {
                let mut msg = String::from_str("----- ");
                msg.append(old_name.as_str());
                msg.append(" changed name to 👉 ");
                msg.append(name);
                msg.append(" -----");
                msg
            }
        } else {
            let mut msg = String::from_str("----- Welcome again, ");
            msg.append(name);
            msg.append(" -----");
            msg
        }
    }

    /// A message of this client as the others see it.
    pub fn message_line(&self, msg: &str) -> (r: String)
        ensures
            r@ == said(self.name_view(), msg@),
    {
        let mut line = self.name();
        line.append(": ");
        line.append(msg);
        line
    }
}

/// What the server does next.
pub enum ServerCmd {
    Announcement(String),
    Broadcast(u64, String),
    Connect(u64),
    Disconnect(u64),
}

/// The connected clients by id.
pub struct Clients {
    entries: HashMap<u64, Client>,
}

impl View for Clients {
    type V = Map<u64, Seq<char>>;

    closed spec fn view(&self) -> Map<u64, Seq<char>> {
        self.entries@.map_values(|c: Client| c.name_view())
    }
}

/// `r` delivers `msg` exactly once to each of `ids`.
pub open spec fn delivers(r: Seq<(u64, String)>, ids: Set<u64>, msg: Seq<char>) -> bool {
    &&& forall|i: int| 0 <= i < r.len() ==> ids.contains(#[trigger] r[i].0) && r[i].1@ == msg
    &&& forall|id: u64| ids.contains(id) ==> exists|i: int| 0 <= i < r.len() && #[trigger] r[i].0 == id
    &&& forall|i: int, j: int| 0 <= i < j < r.len() ==> #[trigger] r[i].0 != #[trigger] r[j].0
}

impl Clients {
    pub fn new() -> (r: Clients)
        ensures
            r@ == Map::<u64, Seq<char>>::empty(),
    {
        let r = Clients { entries: HashMap::new() };
        proof {
            assert(r@ =~= Map::<u64, Seq<char>>::empty());
        }
        r
    }

    /// The name of client `id`, if it is connected.
    pub fn name_of(&self, id: u64) -> (r: Option<String>)
        ensures
            match r {
                Some(n) => self@.contains_key(id) && n@ == self@[id],
                None => !self@.contains_key(id),
            },
    {
        match self.entries.get(&id) {
            Some(c) => Some(c.name()),
            None => None,
        }
    }

    /// Connects client `id` without a name; a client already connected under
    /// `id` is replaced.
    pub fn insert(&mut self, id: u64)
        ensures
            final(self)@ == old(self)@.insert(id, Seq::<char>::empty()),
    {
        self.put(id, Client::new());
    }

    /// Keeps `c` under `id`, in place of any client connected under `id`.
    fn put(&mut self, id: u64, c: Client)
        ensures
            final(self)@ == old(self)@.insert(id, c.name_view()),
    {
        let ghost cname = c.name_view();
        self.entries.insert(id, c);
        proof {
            assert(self@ =~= old(self)@.insert(id, cname));
        }
    }

    /// Disconnects client `id`, giving it back if it was connected.
    pub fn remove(&mut self, id: u64) -> (r: Option<Client>)
        ensures
            final(self)@ == old(self)@.remove(id),
            match r {
                Some(c) => old(self)@.contains_key(id) && c.name_view() == old(self)@[id],
                None => !old(self)@.contains_key(id),
            },
    {
        let r = self.entries.remove(&id);
        proof {
            assert(self@ =~= old(self)@.remove(id));
        }
        r
    }

    /// `msg` for every connected client except `exclude` (when given).
    fn deliveries(&self, msg: &str, exclude: Option<u64>) -> (r: Vec<(u64, String)>)
        ensures
            delivers(
                r@,
                match exclude {
                    Some(x) => self@.dom().remove(x),
                    None => self@.dom(),
                },
                msg@,
            ),
    {
        let ghost ids = match exclude {
            Some(x) => self@.dom().remove(x),
            None => self@.dom(),
        };
        let ghost keys = self.entries.keys().remaining();
        let mut r: Vec<(u64, String)> = Vec::new();
        let ghost mut pos: Seq<int> = Seq::empty();
        for id in it: self.entries.keys()
            invariant
                keys == self.entries.keys().remaining(),
                it.seq() == keys,
                keys.no_duplicates(),
                keys.unref().to_set() == self@.dom(),
                ids == match exclude {
                    Some(x) => self@.dom().remove(x),
                    None => self@.dom(),
                },
                forall|k: int| 0 <= k < r@.len() ==> ids.contains(#[trigger] r@[k].0) && r@[k].1@ == msg@,
                forall|j: int|
                    0 <= j < it.index() && ids.contains(*keys[j]) ==> exists|k: int|
                        0 <= k < r@.len() && #[trigger] r@[k].0 == *keys[j],
                pos.len() == r@.len(),
                forall|k: int|
                    0 <= k < r@.len() ==> 0 <= #[trigger] pos[k] < it.index() && *keys[pos[k]] == r@[k].0,
                forall|a: int, b: int| 0 <= a < b < r@.len() ==> #[trigger] r@[a].0 != #[trigger] r@[b].0,
        {
            let ghost i = it.index();
            let id: u64 = *id;
            let skip = match exclude {
                Some(x) => x == id,
                None => false,
            };
            if !skip {
                let ghost pre = r@;
                let ghost pre_pos = pos;
                r.push((id, String::from_str(msg)));
                proof {
                    pos = pos.push(i);
                    let n = pre.len() as int;
                    assert(r@[n].0 == *keys[i]);
                    assert(keys.unref()[i] == id);
                    assert(keys.unref().to_set().contains(id));
                    assert(ids.contains(id));
                    assert forall|k: int| 0 <= k < r@.len() implies ids.contains(#[trigger] r@[k].0)
                        && r@[k].1@ == msg@ by {
                        if k < n {
                            assert(r@[k] == pre[k]);
                        }
                    }
                    assert forall|a: int, b: int| 0 <= a < b < r@.len() implies #[trigger] r@[a].0
                        != #[trigger] r@[b].0 by {
                        if b == n {
                            assert(r@[a] == pre[a] && pos[a] == pre_pos[a]);
                            assert(keys[pos[a]] != keys[i]);
                        } else {
                            assert(r@[a] == pre[a] && r@[b] == pre[b]);
                        }
                    }
                    assert forall|k: int| 0 <= k < r@.len() implies 0 <= #[trigger] pos[k] < i + 1
                        && *keys[pos[k]] == r@[k].0 by {
                        if k < n {
                            assert(r@[k] == pre[k] && pos[k] == pre_pos[k]);
                        }
                    }
                    assert forall|j: int| 0 <= j < i + 1 && ids.contains(*keys[j]) implies exists|k: int|
                        0 <= k < r@.len() && #[trigger] r@[k].0 == *keys[j] by {
                        if j == i {
                            assert(r@[n].0 == *keys[j]);
                        } else {
                            let k = choose|k: int| 0 <= k < pre.len() && #[trigger] pre[k].0 == *keys[j];
                            assert(r@[k] == pre[k]);
                        }
                    }
                }
            } else {
                proof {
                    assert(!ids.contains(*keys[i]));
                }
            }
        }
        proof {
            assert forall|id: u64| ids.contains(id) implies exists|k: int| 0 <= k < r@.len() && #[trigger] r@[k].0
                == id by {
                assert(keys.unref().to_set().contains(id));
                let j = choose|j: int| 0 <= j < keys.unref().len() && keys.unref()[j] == id;
                assert(*keys[j] == id);
            }
        }
        r
    }

    /// `msg` for every connected client.
    pub fn notify_all(&self, msg: &str) -> (r: Vec<(u64, String)>)
        ensures
            delivers(r@, self@.dom(), msg@),
    {
        self.deliveries(msg, None)
    }

    /// `msg` for every connected client but `exclude`.
    pub fn notify_all_exclude(&self, msg: &str, exclude: u64) -> (r: Vec<(u64, String)>)
        ensures
            delivers(r@, self@.dom().remove(exclude), msg@),
    {
        self.deliveries(msg, Some(exclude))
    }
    /// What client `id`'s command asks of the server: a name is taken and
    /// announced to everyone, a message is relayed to the others under the
    /// sender's name. A command of a client that is not connected is ignored.
    pub fn client_command(&mut self, id: u64, cmd: Command) -> (r: Option<ServerCmd>)
        ensures
            !old(self)@.contains_key(id) ==> r is None && final(self)@ == old(self)@,
            old(self)@.contains_key(id) ==> match cmd {
                Command::Name(n) => final(self)@ == old(self)@.insert(id, n@) && match r {
                    Some(ServerCmd::Announcement(s)) => s@ == name_announcement(old(self)@[id], n@),
                    _ => false,
                },
                Command::Message(m) => final(self)@ == old(self)@ && match r {
                    Some(ServerCmd::Broadcast(src, s)) => src == id && s@ == said(old(self)@[id], m@),
                    _ => false,
                },
            },
    {
        let ghost before = self@;
        match self.remove(id) {
            None => {
                proof {
                    assert(self@ =~= before);
                }
                None
            },
            Some(mut c) => match cmd {
                Command::Name(n) => {
                    let s = c.rename(n.as_str());
                    self.put(id, c);
                    proof {
                        assert(self@ =~= before.insert(id, n@));
                    }
                    Some(ServerCmd::Announcement(s))
                },
                Command::Message(m) => {
                    let s = c.message_line(m.as_str());
                    self.put(id, c);
                    proof {
                        assert(self@ =~= before);
                    }
                    Some(ServerCmd::Broadcast(id, s))
                },
            },
        }
    }

    /// One step of the server: the lines to send, each to one client, and the
    /// command that follows, if any. An announcement goes to every client, a
    /// broadcast to all but its sender; a connection adds a client without a
    /// name, and a disconnection of a connected client is announced.
    pub fn serve(&mut self, cmd: ServerCmd) -> (r: (Vec<(u64, String)>, Option<ServerCmd>))
        ensures
            match cmd {
                ServerCmd::Announcement(m) => {
                    &&& final(self)@ == old(self)@
                    &&& delivers(r.0@, old(self)@.dom(), m@)
                    &&& r.1 is None
                },
                ServerCmd::Broadcast(src, m) => {
                    &&& final(self)@ == old(self)@
                    &&& delivers(r.0@, old(self)@.dom().remove(src), m@)
                    &&& r.1 is None
                },
                ServerCmd::Connect(id) => {
                    &&& final(self)@ == old(self)@.insert(id, Seq::<char>::empty())
                    &&& r.0@.len() == 0
                    &&& r.1 is None
                },
                ServerCmd::Disconnect(id) => {
                    &&& final(self)@ == old(self)@.remove(id)
                    &&& r.0@.len() == 0
                    &&& (old(self)@.contains_key(id) <==> r.1 is Some)
                    &&& old(self)@.contains_key(id) ==> match r.1 {
                        Some(ServerCmd::Announcement(s)) => s@ == farewell(old(self)@[id]),
                        _ => false,
                    }
                },
            },
    {
        match cmd {
            ServerCmd::Announcement(m) => (self.notify_all(m.as_str()), None),
            ServerCmd::Broadcast(src, m) => (self.notify_all_exclude(m.as_str(), src), None),
            ServerCmd::Connect(id) => {
                self.insert(id);
                (Vec::new(), None)
            },
            ServerCmd::Disconnect(id) => match self.remove(id) {
                Some(c) => {
                    let mut s = String::from_str("----- ");
                    let name = c.name();
                    s.append(name.as_str());
                    s.append(" has left -----");
                    (Vec::new(), Some(ServerCmd::Announcement(s)))
                },
                None => (Vec::new(), None),
            },
        }
    }
}

/// Hands out the current token and moves the counter on to the next one.
pub fn next_token(token_cur: &mut u64) -> (r: u64)
    requires
        *old(token_cur) < u64::MAX,
    ensures
        r == *old(token_cur),
        *final(token_cur) == *old(token_cur) + 1,
{
    let next = *token_cur;
    *token_cur = *token_cur + 1;
    next
}

/// `String::push` appends the character `ch` to the string.
pub assume_specification[ String::push ](s: &mut String, ch: char)
    ensures
        final(s)@ == old(s)@.push(ch),
;

/// The characters with Unicode's White_Space property, those that
/// `char::is_whitespace` accepts.
pub open spec fn white_space(c: char) -> bool {
    ('\u{9}' <= c <= '\u{d}') || c == ' ' || c == '\u{85}' || c == '\u{a0}' || c == '\u{1680}'
        || ('\u{2000}' <= c <= '\u{200a}') || c == '\u{2028}' || c == '\u{2029}' || c == '\u{202f}'
        || c == '\u{205f}' || c == '\u{3000}'
}

/// Whether `c` is white space.
pub fn is_white_space(c: char) -> (r: bool)
    ensures
        r == white_space(c),
{
    ('\u{9}' <= c && c <= '\u{d}') || c == ' ' || c == '\u{85}' || c == '\u{a0}' || c == '\u{1680}'
        || ('\u{2000}' <= c && c <= '\u{200a}') || c == '\u{2028}' || c == '\u{2029}' || c
        == '\u{202f}' || c == '\u{205f}' || c == '\u{3000}'
}

/// `s` without its leading white space.
pub open spec fn trim_start(s: Seq<char>) -> Seq<char>
    decreases s.len(),
{
    if s.len() > 0 && white_space(s[0]) {
        trim_start(s.drop_first())
    } else {
        s
    }
}

/// `s` without its trailing white space.
pub open spec fn trim_end(s: Seq<char>) -> Seq<char>
    decreases s.len(),
{
    if s.len() > 0 && white_space(s.last()) {
        trim_end(s.drop_last())
    } else {
        s
    }
}

/// `s` without white space at either end.
pub open spec fn trim(s: Seq<char>) -> Seq<char> {
    trim_end(trim_start(s))
}

/// Where the word that starts at `from` ends: the first white space from
/// there on, or the end.
pub open spec fn word_end(t: Seq<char>, from: int) -> int
    decreases t.len() - from,
{
    if from < 0 || from >= t.len() {
        t.len() as int
    } else if white_space(t[from]) {
        from
    } else {
        word_end(t, from + 1)
    }
}

/// The first character from `from` on that is not white space, or the end.
pub open spec fn skip_space(t: Seq<char>, from: int) -> int
    decreases t.len() - from,
{
    if from < 0 || from >= t.len() {
        t.len() as int
    } else if white_space(t[from]) {
        skip_space(t, from + 1)
    } else {
        from
    }
}

/// The first word of a trimmed line.
pub open spec fn first_word(t: Seq<char>) -> Seq<char> {
    t.subrange(0, word_end(t, 0))
}

/// Where the second word of a trimmed line starts.
pub open spec fn second_word_start(t: Seq<char>) -> int {
    skip_space(t, word_end(t, 0))
}

/// The second word of a trimmed line, empty where there is none.
pub open spec fn second_word(t: Seq<char>) -> Seq<char> {
    t.subrange(second_word_start(t), word_end(t, second_word_start(t)))
}

/// A line the client can send: plain text, or the command `/chn` with a
/// new name.
pub open spec fn input_ok(input: Seq<char>) -> bool {
    let t = trim(input);
    (t.len() > 0 && t[0] == '/') ==> first_word(t) == "/chn"@ && second_word(t).len() > 0
}

/// What the client sends for a line of input: `/chn name` asks for a name,
/// anything else, without white space at its ends, is a message.
pub open spec fn input_command(input: Seq<char>) -> (Seq<char>, bool) {
    let t = trim(input);
    if t.len() > 0 && t[0] == '/' {
        (second_word(t), true)
    } else {
        (t, false)
    }
}

/// The characters `lo..hi` of `s` as a string.
fn substring(s: &str, lo: usize, hi: usize) -> (r: String)
    requires
        lo <= hi <= s@.len(),
    ensures
        r@ == s@.subrange(lo as int, hi as int),
{
    let mut r = String::new();
    let mut i = lo;
    while i < hi
        invariant
            lo <= i <= hi,
            hi <= s@.len(),
            r@ == s@.subrange(lo as int, i as int),
        decreases hi - i,
    {
        let c = s.get_char(i);
        r.push(c);
        proof {
            assert(r@ =~= s@.subrange(lo as int, i + 1));
        }
        i = i + 1;
    }
    r
}

proof fn lemma_trim_start_step(s: Seq<char>, i: int)
    requires
        0 <= i < s.len(),
        white_space(s[i]),
    ensures
        trim_start(s.subrange(i, s.len() as int)) == trim_start(s.subrange(i + 1, s.len() as int)),
{
    assert(s.subrange(i, s.len() as int).drop_first() =~= s.subrange(i + 1, s.len() as int));
}

proof fn lemma_trim_end_step(s: Seq<char>, i: int, j: int)
    requires
        0 <= i < j <= s.len(),
        white_space(s[j - 1]),
    ensures
        trim_end(s.subrange(i, j)) == trim_end(s.subrange(i, j - 1)),
{
    assert(s.subrange(i, j).drop_last() =~= s.subrange(i, j - 1));
}

/// Where `s@` without white space at its ends lies in `s@`.
fn trim_bounds(s: &str) -> (r: (usize, usize))
    ensures
        r.0 <= r.1 <= s@.len(),
        trim(s@) == s@.subrange(r.0 as int, r.1 as int),
{
    let n = s.unicode_len();
    let mut i: usize = 0;
    proof {
        assert(s@.subrange(0, n as int) =~= s@);
    }
    while i < n && is_white_space(s.get_char(i))
        invariant
            i <= n,
            n == s@.len(),
            trim_start(s@) == trim_start(s@.subrange(i as int, n as int)),
        decreases n - i,
    {
        proof {
            lemma_trim_start_step(s@, i as int);
        }
        i = i + 1;
    }
    proof {
        assert(trim_start(s@.subrange(i as int, n as int)) == s@.subrange(i as int, n as int));
        if i == 0 {
            assert(s@.subrange(0, n as int) =~= s@);
        }
    }
    let mut j: usize = n;
    while j > i && is_white_space(s.get_char(j - 1))
        invariant
            i <= j <= n,
            n == s@.len(),
            trim_start(s@) == s@.subrange(i as int, n as int),
            trim_end(s@.subrange(i as int, n as int)) == trim_end(s@.subrange(i as int, j as int)),
        decreases j - i,
    {
        proof {
            lemma_trim_end_step(s@, i as int, j as int);
        }
        j = j - 1;
    }
    proof {
        let t = s@.subrange(i as int, j as int);
        if t.len() > 0 {
            assert(t.last() == s@[j - 1]);
        }
        assert(trim_end(t) == t);
    }
    (i, j)
}

/// The end of the word of `t` that starts at `from`.
fn find_word_end(t: &str, from: usize) -> (r: usize)
    requires
        from <= t@.len(),
    ensures
        r == word_end(t@, from as int),
        from <= r <= t@.len(),
{
    let n = t.unicode_len();
    let mut k = from;
    while k < n && !is_white_space(t.get_char(k))
        invariant
            from <= k <= n,
            n == t@.len(),
            word_end(t@, from as int) == word_end(t@, k as int),
        decreases n - k,
    {
        k = k + 1;
    }
    k
}

/// The first character of `t` from `from` on that is not white space.
fn find_skip_space(t: &str, from: usize) -> (r: usize)
    requires
        from <= t@.len(),
    ensures
        r == skip_space(t@, from as int),
        from <= r <= t@.len(),
{
    let n = t.unicode_len();
    let mut k = from;
    while k < n && is_white_space(t.get_char(k))
        invariant
            from <= k <= n,
            n == t@.len(),
            skip_space(t@, from as int) == skip_space(t@, k as int),
        decreases n - k,
    {
        k = k + 1;
    }
    k
}

/// The command the client sends for a line of input.
pub fn command_from_input(input: &str) -> (r: Command)
    requires
        input_ok(input@),
    ensures
        match r {
            Command::Name(name) => input_command(input@) == (name@, true),
            Command::Message(msg) => input_command(input@) == (msg@, false),
        },
{
    let (lo, hi) = trim_bounds(input);
    let trimmed = substring(input, lo, hi);
    let t = trimmed.as_str();
    let n = t.unicode_len();
    if n > 0 && t.get_char(0) == '/' {
        let e0 = find_word_end(t, 0);
        let s1 = find_skip_space(t, e0);
        let e1 = find_word_end(t, s1);
        let name = substring(t, s1, e1);
        Command::Name(name)
    } else {
        Command::Message(trimmed)
    }
}

/// Whether the client can send a line: what `input_ok` asks.
pub fn is_valid_input(input: &str) -> (r: bool)
    ensures
        r == input_ok(input@),
{
    let (lo, hi) = trim_bounds(input);
    let trimmed = substring(input, lo, hi);
    let t = trimmed.as_str();
    let n = t.unicode_len();
    if n > 0 && t.get_char(0) == '/' {
        let e0 = find_word_end(t, 0);
        let w0 = substring(t, 0, e0);
        let chn = String::from_str("/chn");
        proof {
            reveal_strlit("/chn");
        }
        if w0 != chn {
            return false;
        }
        let s1 = find_skip_space(t, e0);
        let e1 = find_word_end(t, s1);
        e1 > s1
    } else {
        true
    }
}

/// Whether the argument has at most one `@`: what `arg_ok` asks.
pub fn is_valid_arg(arg: &str) -> (r: bool)
    ensures
        r == arg_ok(arg@),
{
    let n = arg.unicode_len();
    let mut seen = false;
    let mut i: usize = 0;
    while i < n
        invariant
            i <= n,
            n == arg@.len(),
            seen <==> exists|k: int| 0 <= k < i && arg@[k] == '@',
            forall|a: int, b: int| 0 <= a < b < i && arg@[a] == '@' ==> arg@[b] != '@',
        decreases n - i,
    {
        if arg.get_char(i) == '@' {
            if seen {
                proof {
                    let k = choose|k: int| 0 <= k < i && arg@[k] == '@';
                    assert(!arg_ok(arg@)) by {
                        assert(0 <= k < i && arg@[k] == '@' && arg@[i as int] == '@');
                    }
                }
                return false;
            }
            seen = true;
        }
        i = i + 1;
    }
    true
}

/// The name and the address in an argument `name@address`; a missing or
/// empty name is `Anonymous`.
pub open spec fn name_and_addr(arg: Seq<char>) -> (Seq<char>, Seq<char>) {
    if !arg.contains('@') {
        ("Anonymous"@, arg)
    } else {
        let at = arg.index_of('@');
        let name = arg.subrange(0, at);
        (
            if name.len() == 0 {
                "Anonymous"@
            } else {
                name
            },
            arg.subrange(at + 1, arg.len() as int),
        )
    }
}

/// An argument with at most one `@`.
pub open spec fn arg_ok(arg: Seq<char>) -> bool {
    forall|i: int, j: int| 0 <= i < j < arg.len() && arg[i] == '@' ==> arg[j] != '@'
}

/// The name and the address the client connects with, from its argument
/// `name@address`, or `address` alone.
pub fn name_and_addr_from_arg(arg: &str) -> (r: (String, String))
    requires
        arg_ok(arg@),
    ensures
        (r.0@, r.1@) == name_and_addr(arg@),
{
    let n = arg.unicode_len();
    let mut at = n;
    let mut i: usize = 0;
    while i < n
        invariant
            i <= n,
            at <= n,
            n == arg@.len(),
            at == n ==> forall|k: int| 0 <= k < i ==> arg@[k] != '@',
            at < n ==> at < i && arg@[at as int] == '@' && forall|k: int| 0 <= k < at ==> arg@[k] != '@',
        decreases n - i,
    {
        if at == n && arg.get_char(i) == '@' {
            at = i;
        }
        i = i + 1;
    }
    let anonymous = String::from_str("Anonymous");
    proof {
        reveal_strlit("Anonymous");
    }
    if at == n {
        proof {
            assert(!arg@.contains('@'));
        }
        (anonymous, substring(arg, 0, n))
    } else {
        proof {
            assert(arg@[at as int] == '@');
            assert(arg@.contains('@'));
            let f = arg@.index_of('@');
            assert(arg@[f] == '@');
            if f < at {
                assert(arg@[at as int] != '@');
            } else if f > at {
                assert(arg@[f] != '@');
            }
        }
        let name = if at == 0 {
            anonymous
        } else {
            substring(arg, 0, at)
        };
        (name, substring(arg, at + 1, n))
    }
}

} // verus!
