//! The account book of the replicated bank: what each committed command does
//! to the balances, and the book that holds them.

use vstd::prelude::*;
use crate::protocol::Command;

verus! {

/// The book after `c`: a command that names a missing account, or a
/// withdrawal or transfer beyond the balance, leaves the book as it was.
pub open spec fn apply_command(book: Map<Seq<char>, int>, c: Command) -> Map<Seq<char>, int> {
    match c {
        Command::Open { account } => {
            if book.contains_key(account@) {
                book
            } else {
                book.insert(account@, 0)
            }
        },
        Command::Deposit { account, amount } => {
            if book.contains_key(account@) {
                book.insert(account@, book[account@] + amount)
            } else {
                book
            }
        },
        Command::Withdraw { account, amount } => {
            if book.contains_key(account@) && amount <= book[account@] {
                book.insert(account@, book[account@] - amount)
            } else {
                book
            }
        },
        Command::Transfer { src, dst, amount } => {
            if book.contains_key(src@) && book.contains_key(dst@) && amount <= book[src@] {
                let taken = book.insert(src@, book[src@] - amount);
                taken.insert(dst@, taken[dst@] + amount)
            } else {
                book
            }
        },
    }
}

/// Applying `c` to `book` keeps every balance within `usize`.
pub open spec fn command_fits(book: Map<Seq<char>, int>, c: Command) -> bool {
    match c {
        Command::Deposit { account, amount } => book.contains_key(account@) ==> book[account@]
            + amount <= usize::MAX,
        Command::Transfer { src, dst, amount } => (book.contains_key(src@) && book.contains_key(
            dst@,
        ) && amount <= book[src@]) ==> book.insert(src@, book[src@] - amount)[dst@] + amount
            <= usize::MAX,
        _ => true,
    }
}

/// The book after the commands `cmds`, in order.
pub open spec fn replay(book: Map<Seq<char>, int>, cmds: Seq<Command>) -> Map<
    Seq<char>,
    int,
>
    decreases cmds.len(),
{
    if cmds.len() == 0 {
        book
    } else {
        apply_command(replay(book, cmds.drop_last()), cmds.last())
    }
}

/// Every command of `cmds`, applied in order from `book`, keeps the balances
/// within `usize`.
pub open spec fn replay_fits(book: Map<Seq<char>, int>, cmds: Seq<Command>) -> bool
    decreases cmds.len(),
{
    if cmds.len() == 0 {
        true
    } else {
        replay_fits(book, cmds.drop_last()) && command_fits(
            replay(book, cmds.drop_last()),
            cmds.last(),
        )
    }
}

/// Balances never go below zero: every balance of a book that starts
/// empty stays within `0..=usize::MAX` while the commands fit.
pub proof fn lemma_balances_in_range(cmds: Seq<Command>)
    requires
        replay_fits(Map::empty(), cmds),
    ensures
        forall|k: Seq<char>| #[trigger]
            replay(Map::empty(), cmds).contains_key(k) ==> 0 <= replay(Map::empty(), cmds)[k]
                <= usize::MAX,
    decreases cmds.len(),
{
    if cmds.len() > 0 {
        lemma_balances_in_range(cmds.drop_last());
    }
}

/// Adds the balance of account `n` of `book` to `acc`.
pub open spec fn add_balance(book: Map<Seq<char>, int>) -> spec_fn(int, Seq<char>) -> int {
    |acc: int, n: Seq<char>| acc + book[n]
}

/// The money in `book`: the sum of its balances.
pub open spec fn total(book: Map<Seq<char>, int>) -> int {
    book.dom().fold(0, add_balance(book))
}

proof fn lemma_add_balance_commutes(book: Map<Seq<char>, int>)
    ensures
        vstd::set::fold::is_fun_commutative(add_balance(book)),
{
    assert forall|a1: Seq<char>, a2: Seq<char>, b: int|
        #[trigger] (add_balance(book))((add_balance(book))(b, a2), a1) == (add_balance(book))(
            (add_balance(book))(b, a1),
            a2,
        ) by {}
}

/// Two books that agree on the accounts of `s` hold the same money there.
proof fn lemma_fold_agree(s: Set<Seq<char>>, b1: Map<Seq<char>, int>, b2: Map<Seq<char>, int>)
    requires
        s.finite(),
        forall|n: Seq<char>| s.contains(n) ==> b1[n] == b2[n],
    ensures
        s.fold(0, add_balance(b1)) == s.fold(0, add_balance(b2)),
    decreases s.len(),
{
    lemma_add_balance_commutes(b1);
    lemma_add_balance_commutes(b2);
    if s.len() == 0 {
        assert(s =~= Set::empty());
        vstd::set::fold::lemma_fold_empty(0, add_balance(b1));
        vstd::set::fold::lemma_fold_empty(0, add_balance(b2));
    } else {
        let x = s.choose();
        let r = s.remove(x);
        lemma_fold_agree(r, b1, b2);
        assert(r.insert(x) =~= s);
        vstd::set::fold::lemma_fold_insert(r, 0, add_balance(b1), x);
        vstd::set::fold::lemma_fold_insert(r, 0, add_balance(b2), x);
    }
}

/// The money of `s` is that of `s` without `x`, plus the balance of `x`.
proof fn lemma_fold_split(s: Set<Seq<char>>, b: Map<Seq<char>, int>, x: Seq<char>)
    requires
        s.finite(),
        s.contains(x),
    ensures
        s.fold(0, add_balance(b)) == s.remove(x).fold(0, add_balance(b)) + b[x],
{
    lemma_add_balance_commutes(b);
    assert(s.remove(x).insert(x) =~= s);
    vstd::set::fold::lemma_fold_insert(s.remove(x), 0, add_balance(b), x);
}

/// A transfer moves money and makes none: it keeps the accounts and the
/// sum of all balances, and a book without negative balances stays
/// without them.
pub proof fn lemma_transfer_keeps_money(book: Map<Seq<char>, int>, src: String, dst: String, amount: usize)
    requires
        book.dom().finite(),
    ensures
        ({
            let after = apply_command(book, Command::Transfer { src, dst, amount });
            &&& after.dom() == book.dom()
            &&& total(after) == total(book)
            &&& (forall|k: Seq<char>| #[trigger] book.contains_key(k) ==> book[k] >= 0) ==> (forall|
                k: Seq<char>,
            | #[trigger] after.contains_key(k) ==> after[k] >= 0)
        }),
{
    let after = apply_command(book, Command::Transfer { src, dst, amount });
    let d = book.dom();
    if book.contains_key(src@) && book.contains_key(dst@) && amount <= book[src@] {
        assert(after.dom() =~= d);
        if src@ == dst@ {
            assert(after =~= book);
        } else {
            let rest = d.remove(src@).remove(dst@);
            lemma_fold_split(d, book, src@);
            lemma_fold_split(d.remove(src@), book, dst@);
            lemma_fold_split(d, after, src@);
            lemma_fold_split(d.remove(src@), after, dst@);
            lemma_fold_agree(rest, book, after);
        }
    } else {
        assert(after =~= book);
    }
}

/// Replaying one more command applies it to the replayed book.
pub proof fn lemma_replay_push(book: Map<Seq<char>, int>, cmds: Seq<Command>, c: Command)
    ensures
        replay(book, cmds.push(c)) == apply_command(replay(book, cmds), c),
{
    assert(cmds.push(c).drop_last() =~= cmds);
}

/// Replaying two runs of commands one after the other is replaying both.
pub proof fn lemma_replay_concat(book: Map<Seq<char>, int>, s: Seq<Command>, t: Seq<Command>)
    ensures
        replay(book, s + t) == replay(replay(book, s), t),
    decreases t.len(),
{
    if t.len() == 0 {
        assert(s + t =~= s);
    } else {
        lemma_replay_concat(book, s, t.drop_last());
        assert((s + t).drop_last() =~= s + t.drop_last());
    }
}

/// Commands that fit as a run each fit where they come.
pub proof fn lemma_fits_at(book: Map<Seq<char>, int>, cmds: Seq<Command>, i: int)
    requires
        replay_fits(book, cmds),
        0 <= i < cmds.len(),
    ensures
        command_fits(replay(book, cmds.take(i)), cmds[i]),
    decreases cmds.len(),
{
    if i == cmds.len() - 1 {
        assert(cmds.take(i) =~= cmds.drop_last());
    } else {
        lemma_fits_at(book, cmds.drop_last(), i);
        assert(cmds.drop_last().take(i) =~= cmds.take(i));
    }
}

/// Balances by account name; no name occurs twice.
pub struct Accounts {
    entries: Vec<(String, usize)>,
}

impl View for Accounts {
    type V = Map<Seq<char>, int>;

    closed spec fn view(&self) -> Map<Seq<char>, int> {
        Map::new(
            |k: Seq<char>| exists|i: int| 0 <= i < self.entries@.len() && self.entries@[i].0@ == k,
            |k: Seq<char>|
                self.entries@[choose|i: int|
                    0 <= i < self.entries@.len() && self.entries@[i].0@ == k].1 as int,
        )
    }
}

impl Accounts {
    pub closed spec fn wf(&self) -> bool {
        forall|i: int, j: int|
            0 <= i < j < self.entries@.len() ==> #[trigger] self.entries@[i].0@
                != #[trigger] self.entries@[j].0@
    }

    proof fn lemma_view(&self, i: int)
        requires
            self.wf(),
            0 <= i < self.entries@.len(),
        ensures
            self@.contains_key(self.entries@[i].0@),
            self@[self.entries@[i].0@] == self.entries@[i].1 as int,
    {
        let k = self.entries@[i].0@;
        assert(exists|j: int| 0 <= j < self.entries@.len() && self.entries@[j].0@ == k);
        let j = choose|j: int| 0 <= j < self.entries@.len() && self.entries@[j].0@ == k;
        if j != i {
            if j < i {
                assert(self.entries@[j].0@ != self.entries@[i].0@);
            } else {
                assert(self.entries@[i].0@ != self.entries@[j].0@);
            }
        }
    }

    /// An empty book.
    pub fn new() -> (r: Accounts)
        ensures
            r.wf(),
            r@ == Map::<Seq<char>, int>::empty(),
    {
        let r = Accounts { entries: Vec::new() };
        proof {
            assert(r@ =~= Map::<Seq<char>, int>::empty());
        }
        r
    }

    fn position(&self, name: &String) -> (r: Option<usize>)
        requires
            self.wf(),
        ensures
            match r {
                Some(i) => i < self.entries@.len() && self.entries@[i as int].0@ == name@,
                None => !self@.contains_key(name@),
            },
    {
        let mut i: usize = 0;
        while i < self.entries.len()
            invariant
                i <= self.entries@.len(),
                forall|k: int| 0 <= k < i ==> self.entries@[k].0@ != name@,
            decreases self.entries@.len() - i,
        {
            if self.entries[i].0 == *name {
                return Some(i);
            }
            i = i + 1;
        }
        None
    }

    /// The balance of `name`, if the account exists.
    pub fn balance(&self, name: &String) -> (r: Option<usize>)
        requires
            self.wf(),
        ensures
            match r {
                Some(b) => self@.contains_key(name@) && b == self@[name@],
                None => !self@.contains_key(name@),
            },
    {
        match self.position(name) {
            Some(i) => {
                proof {
                    self.lemma_view(i as int);
                }
                Some(self.entries[i].1)
            },
            None => None,
        }
    }

    fn set_balance(&mut self, i: usize, b: usize)
        requires
            old(self).wf(),
            i < old(self).entries@.len(),
        ensures
            final(self).wf(),
            final(self).entries@.len() == old(self).entries@.len(),
            final(self)@ == old(self)@.insert(old(self).entries@[i as int].0@, b as int),
    {
        let ghost o = *self;
        let name = self.entries[i].0.clone();
        self.entries.set(i, (name, b));
        proof {
            let k0 = o.entries@[i as int].0@;
            assert forall|a: int, c: int| 0 <= a < c < self.entries@.len() implies #[trigger] self.entries@[a].0@
                != #[trigger] self.entries@[c].0@ by {
                assert(o.entries@[a].0@ != o.entries@[c].0@);
            }
            assert forall|k: Seq<char>| #![auto] self@.contains_key(k) <==> o@.insert(k0, b as int).contains_key(k) by {
                if self@.contains_key(k) {
                    let j = choose|j: int| 0 <= j < self.entries@.len() && self.entries@[j].0@ == k;
                    assert(o.entries@[j].0@ == k);
                }
                if o@.contains_key(k) {
                    let j = choose|j: int| 0 <= j < o.entries@.len() && o.entries@[j].0@ == k;
                    assert(self.entries@[j].0@ == k);
                }
                if k == k0 {
                    assert(self.entries@[i as int].0@ == k);
                }
            }
            assert forall|k: Seq<char>| #![auto] self@.contains_key(k) implies self@[k] == o@.insert(k0, b as int)[k] by {
                let j = choose|j: int| 0 <= j < self.entries@.len() && self.entries@[j].0@ == k;
                self.lemma_view(j);
                if j != i {
                    o.lemma_view(j);
                }
            }
            assert(self@ =~= o@.insert(k0, b as int));
        }
    }

    fn open_account(&mut self, name: &String)
        requires
            old(self).wf(),
            !old(self)@.contains_key(name@),
        ensures
            final(self).wf(),
            final(self)@ == old(self)@.insert(name@, 0),
    {
        let ghost o = *self;
        self.entries.push((name.clone(), 0));
        proof {
            let n = self.entries@.len() - 1;
            assert forall|a: int, c: int| 0 <= a < c < self.entries@.len() implies #[trigger] self.entries@[a].0@
                != #[trigger] self.entries@[c].0@ by {
                if c == n {
                    o.lemma_view(a);
                } else {
                    assert(o.entries@[a].0@ != o.entries@[c].0@);
                }
            }
            assert forall|k: Seq<char>| #![auto] self@.contains_key(k) <==> o@.insert(name@, 0).contains_key(k) by {
                if self@.contains_key(k) {
                    let j = choose|j: int| 0 <= j < self.entries@.len() && self.entries@[j].0@ == k;
                    if j < n {
                        assert(o.entries@[j].0@ == k);
                    }
                }
                if o@.contains_key(k) {
                    let j = choose|j: int| 0 <= j < o.entries@.len() && o.entries@[j].0@ == k;
                    assert(self.entries@[j].0@ == k);
                }
                if k == name@ {
                    assert(self.entries@[n].0@ == k);
                }
            }
            assert forall|k: Seq<char>| #![auto] self@.contains_key(k) implies self@[k] == o@.insert(name@, 0)[k] by {
                let j = choose|j: int| 0 <= j < self.entries@.len() && self.entries@[j].0@ == k;
                self.lemma_view(j);
                if j < n {
                    o.lemma_view(j);
                }
            }
            assert(self@ =~= o@.insert(name@, 0));
        }
    }

    /// A book with the same balances.
    pub fn duplicate(&self) -> (r: Accounts)
        requires
            self.wf(),
        ensures
            r.wf(),
            r@ == self@,
    {
        let mut entries: Vec<(String, usize)> = Vec::new();
        let mut i: usize = 0;
        while i < self.entries.len()
            invariant
                i <= self.entries@.len(),
                entries@.len() == i,
                forall|k: int| 0 <= k < i ==> #[trigger] entries@[k] == self.entries@[k],
            decreases self.entries@.len() - i,
        {
            let name = self.entries[i].0.clone();
            entries.push((name, self.entries[i].1));
            i = i + 1;
        }
        let r = Accounts { entries };
        proof {
            assert(r.entries@ =~= self.entries@);
        }
        r
    }

    /// Whether carrying out `cmd` keeps every balance within `usize`.
    pub fn fits(&self, cmd: &Command) -> (r: bool)
        requires
            self.wf(),
        ensures
            r == command_fits(self@, *cmd),
    {
        match cmd {
            Command::Deposit { account, amount } => match self.balance(account) {
                Some(b) => b <= usize::MAX - *amount,
                None => true,
            },
            Command::Transfer { src, dst, amount } => {
                match (self.balance(src), self.balance(dst)) {
                    (Some(sb), Some(db)) => {
                        if *amount <= sb {
                            if *src == *dst {
                                true
                            } else {
                                db <= usize::MAX - *amount
                            }
                        } else {
                            true
                        }
                    },
                    _ => true,
                }
            },
            _ => true,
        }
    }

    /// Carries out `cmd` on the book.
    pub fn apply(&mut self, cmd: &Command)
        requires
            old(self).wf(),
            command_fits(old(self)@, *cmd),
        ensures
            final(self).wf(),
            final(self)@ == apply_command(old(self)@, *cmd),
    {
        match cmd {
            Command::Open { account } => {
                if self.position(account).is_none() {
                    self.open_account(account);
                }
            },
            Command::Deposit { account, amount } => {
                match self.position(account) {
                    Some(i) => {
                        proof {
                            self.lemma_view(i as int);
                        }
                        let b = self.entries[i].1 + *amount;
                        self.set_balance(i, b);
                    },
                    None => {},
                }
            },
            Command::Withdraw { account, amount } => {
                match self.position(account) {
                    Some(i) => {
                        proof {
                            self.lemma_view(i as int);
                        }
                        let b = self.entries[i].1;
                        if *amount <= b {
                            self.set_balance(i, b - *amount);
                        }
                    },
                    None => {},
                }
            },
            Command::Transfer { src, dst, amount } => {
                match self.position(src) {
                    Some(i) => {
                        match self.position(dst) {
                            Some(_) => {
                                proof {
                                    self.lemma_view(i as int);
                                }
                                let src_blc = self.entries[i].1;
                                if *amount <= src_blc {
                                    self.set_balance(i, src_blc - *amount);
                                    match self.position(dst) {
                                        Some(j) => {
                                            proof {
                                                self.lemma_view(j as int);
                                            }
                                            let d = self.entries[j].1 + *amount;
                                            self.set_balance(j, d);
                                        },
                                        None => {},
                                    }
                                }
                            },
                            None => {},
                        }
                    },
                    None => {},
                }
            },
        }
    }
}

/// Withdrawing at most the balance of an existing account always goes
/// through: exactly the amount leaves that account (so the whole balance
/// can be withdrawn), and no other account changes. Withdrawing more than
/// the balance, or from a missing account, changes nothing.
pub proof fn lemma_withdraw(book: Map<Seq<char>, int>, account: String, amount: usize)
    ensures
        ({
            let after = apply_command(book, Command::Withdraw { account, amount });
            &&& book.contains_key(account@) && amount <= book[account@] ==> {
                &&& after.dom() == book.dom()
                &&& after[account@] == book[account@] - amount
                &&& forall|k: Seq<char>| #[trigger] book.contains_key(k) && k != account@ ==> after[k] == book[k]
            }
            &&& !(book.contains_key(account@) && amount <= book[account@]) ==> after == book
        }),
{
    let after = apply_command(book, Command::Withdraw { account, amount });
    if book.contains_key(account@) && amount <= book[account@] {
        assert(after.dom() =~= book.dom());
    }
}

/// A transfer of at most the balance of `src` to another existing account
/// always goes through: exactly the amount leaves `src` and arrives at
/// `dst`, and no other account changes.
pub proof fn lemma_transfer_moves_amount(book: Map<Seq<char>, int>, src: String, dst: String, amount: usize)
    requires
        book.contains_key(src@),
        book.contains_key(dst@),
        src@ != dst@,
        amount <= book[src@],
    ensures
        ({
            let after = apply_command(book, Command::Transfer { src, dst, amount });
            &&& after.dom() == book.dom()
            &&& after[src@] == book[src@] - amount
            &&& after[dst@] == book[dst@] + amount
            &&& forall|k: Seq<char>| #[trigger] book.contains_key(k) && k != src@ && k != dst@ ==> after[k] == book[k]
        }),
{
    let after = apply_command(book, Command::Transfer { src, dst, amount });
    assert(after.dom() =~= book.dom());
}

} // verus!
