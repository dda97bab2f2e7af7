//! The ledger: the balance of every wallet, and how a record changes it.

use crate::amount::{parse_decimal, Amount, Decimal};
use crate::flapjack_stack::flapjack::{Command, DirectiveView, Record};
use vstd::prelude::*;

verus! {

/// The balances of the wallets that exist, by name.
pub type Ledger = Map<Seq<char>, Decimal>;

/// Why a directive cannot be applied to a ledger.
pub enum LedgerErrorView {
    /// The directive names a wallet that does not exist.
    WalletNotFound(Seq<char>),
    /// The amount of the directive is no decimal numeral.
    AmountNotNumeric(Seq<char>),
    /// The directive has no parameter at the given position.
    MissingParameter(Command, nat),
}

/// The ledger after a directive. The first parameter names the wallet, the
/// second is the amount of `INCREMENT`, `DECREMENT` and `SET`; what follows
/// them is not read.
///
/// - `CREATE` gives the wallet the balance zero, whether or not it existed;
/// - `DESTROY` removes the wallet, if it exists;
/// - `INCREMENT` adds the amount to the balance of an existing wallet,
///   `DECREMENT` subtracts it, `SET` replaces the balance by it.
///
/// A missing parameter is found first, then an amount that is no numeral,
/// then a wallet that does not exist.
pub open spec fn apply(ledger: Ledger, command: Command, params: Seq<Seq<char>>) -> Result<
    Ledger,
    LedgerErrorView,
> {
    if params.len() == 0 {
        Err(LedgerErrorView::MissingParameter(command, 0))
    } else {
        let name = params[0];
        match command {
            Command::CREATE => Ok(ledger.insert(name, Decimal::zero())),
            Command::DESTROY => Ok(ledger.remove(name)),
            _ => if params.len() < 2 {
                Err(LedgerErrorView::MissingParameter(command, 1))
            } else {
                match parse_decimal(params[1]) {
                    None => Err(LedgerErrorView::AmountNotNumeric(params[1])),
                    Some(amount) => if !ledger.contains_key(name) {
                        Err(LedgerErrorView::WalletNotFound(name))
                    } else {
                        Ok(
                            ledger.insert(
                                name,
                                match command {
                                    Command::INCREMENT => ledger[name].plus(amount),
                                    Command::DECREMENT => ledger[name].minus(amount),
                                    _ => amount,
                                },
                            ),
                        )
                    },
                }
            },
        }
    }
}

/// The ledger after a record: a comment leaves it as it is.
pub open spec fn apply_record(ledger: Ledger, record: Record) -> Result<Ledger, LedgerErrorView> {
    match record {
        Record::Comment(_) => Ok(ledger),
        Record::Directive(directive) => apply(ledger, directive.command, directive.params),
    }
}

/// The ledger after the records of a log, applied in order to `ledger`, or
/// the error of the first record that cannot be applied.
pub open spec fn replay_from(ledger: Ledger, records: Seq<Record>) -> Result<
    Ledger,
    LedgerErrorView,
>
    decreases records.len(),
{
    if records.len() == 0 {
        Ok(ledger)
    } else {
        match replay_from(ledger, records.drop_last()) {
            Ok(before) => apply_record(before, records.last()),
            Err(e) => Err(e),
        }
    }
}

/// The ledger that a log stands for: its records applied in order, starting
/// with no wallet.
pub open spec fn replay(records: Seq<Record>) -> Result<Ledger, LedgerErrorView> {
    replay_from(Map::empty(), records)
}

/// Applying a record to the ledger of a log gives the ledger of the log with
/// the record appended: a ledger that is kept up to date record by record is
/// the one that a replay of the whole log gives.
pub proof fn lemma_replay_push(history: Seq<Record>, ledger: Ledger, record: Record)
    requires
        replay(history) == Ok::<Ledger, LedgerErrorView>(ledger),
    ensures
        replay(history.push(record)) == apply_record(ledger, record),
{
    assert(history.push(record).drop_last() == history);
}

/// After any history, `SET` gives the wallet the balance that the directive
/// names, whatever the balance was; a wallet that the history has not left
/// in existence is not found.
pub proof fn lemma_set_discards_history(
    history: Seq<Record>,
    ledger: Ledger,
    params: Seq<Seq<char>>,
    amount: Decimal,
)
    requires
        replay(history) == Ok::<Ledger, LedgerErrorView>(ledger),
        params.len() >= 2,
        parse_decimal(params[1]) == Some(amount),
    ensures
        replay(history.push(Record::Directive(DirectiveView { command: Command::SET, params })))
            == if ledger.contains_key(params[0]) {
            Ok::<Ledger, LedgerErrorView>(ledger.insert(params[0], amount))
        } else {
            Err::<Ledger, LedgerErrorView>(LedgerErrorView::WalletNotFound(params[0]))
        },
        ledger.insert(params[0], amount)[params[0]] == amount,
{
    let set = Record::Directive(DirectiveView { command: Command::SET, params });
    assert(history.push(set).drop_last() == history);
}

/// `DESTROY` removes the wallet, and an `INCREMENT` of that wallet that
/// follows at once fails, since the wallet is not found.
pub proof fn lemma_destroyed_wallet_is_gone(
    history: Seq<Record>,
    ledger: Ledger,
    name: Seq<char>,
    destroy: Seq<Seq<char>>,
    increment: Seq<Seq<char>>,
)
    requires
        replay(history) == Ok::<Ledger, LedgerErrorView>(ledger),
        destroy.len() >= 1,
        destroy[0] == name,
        increment.len() >= 2,
        increment[0] == name,
        parse_decimal(increment[1]) is Some,
    ensures
        replay(
            history.push(
                Record::Directive(DirectiveView { command: Command::DESTROY, params: destroy }),
            ),
        ) == Ok::<Ledger, LedgerErrorView>(ledger.remove(name)),
        !ledger.remove(name).contains_key(name),
        replay(
            history.push(
                Record::Directive(DirectiveView { command: Command::DESTROY, params: destroy }),
            ).push(
                Record::Directive(DirectiveView { command: Command::INCREMENT, params: increment }),
            ),
        ) == Err::<Ledger, LedgerErrorView>(LedgerErrorView::WalletNotFound(name)),
{
    let first = Record::Directive(DirectiveView { command: Command::DESTROY, params: destroy });
    let second = Record::Directive(
        DirectiveView { command: Command::INCREMENT, params: increment },
    );
    assert(history.push(first).drop_last() == history);
    assert(history.push(first).push(second).drop_last() == history.push(first));
}

/// Whether no two of the entries bear the same name.
spec fn distinct_names(entries: Seq<(String, Amount)>) -> bool {
    forall|i: int, j: int|
        0 <= i < j < entries.len() ==> (#[trigger] entries[i]).0@ != (#[trigger] entries[j]).0@
}

/// Where the wallet `name` stands among the entries, if it does.
spec fn find(entries: Seq<(String, Amount)>, name: Seq<char>) -> Option<int> {
    if exists|i: int| 0 <= i < entries.len() && (#[trigger] entries[i]).0@ == name {
        Some(choose|i: int| 0 <= i < entries.len() && (#[trigger] entries[i]).0@ == name)
    } else {
        None
    }
}

/// The ledger that the entries stand for.
spec fn ledger_of(entries: Seq<(String, Amount)>) -> Ledger {
    Map::new(
        |name: Seq<char>| find(entries, name) is Some,
        |name: Seq<char>| entries[find(entries, name).unwrap()].1@,
    )
}

/// An entry that bears a name is the entry that `find` gives for the name.
proof fn lemma_find(entries: Seq<(String, Amount)>, name: Seq<char>, i: int)
    requires
        distinct_names(entries),
        0 <= i < entries.len(),
        entries[i].0@ == name,
    ensures
        find(entries, name) == Some(i),
        ledger_of(entries).contains_key(name),
        ledger_of(entries)[name] == entries[i].1@,
{
    let j = find(entries, name).unwrap();
    if j < i {
        assert(entries[j].0@ != entries[i].0@);
    } else if i < j {
        assert(entries[i].0@ != entries[j].0@);
    }
}

/// A name that no entry bears is not in the ledger.
proof fn lemma_find_none(entries: Seq<(String, Amount)>, name: Seq<char>)
    requires
        forall|i: int| 0 <= i < entries.len() ==> (#[trigger] entries[i]).0@ != name,
    ensures
        find(entries, name) is None,
        !ledger_of(entries).contains_key(name),
{
}

/// A name in the ledger is borne by the entry that `find` gives.
proof fn lemma_found(entries: Seq<(String, Amount)>, name: Seq<char>)
    requires
        ledger_of(entries).contains_key(name),
    ensures
        find(entries, name) is Some,
        0 <= find(entries, name).unwrap() < entries.len(),
        entries[find(entries, name).unwrap()].0@ == name,
        ledger_of(entries)[name] == entries[find(entries, name).unwrap()].1@,
{
}

/// The balances of the wallets that exist, by name. No name occurs twice.
#[derive(Debug)]
pub struct WalletAmounts {
    entries: Vec<(String, Amount)>,
}

impl View for WalletAmounts {
    type V = Ledger;

    closed spec fn view(&self) -> Ledger {
        ledger_of(self.entries@)
    }
}

impl WalletAmounts {
    #[verifier::type_invariant]
    spec fn well_formed(&self) -> bool {
        distinct_names(self.entries@)
    }

    /// The names of the wallets, in the order in which they were created.
    pub closed spec fn names(&self) -> Seq<Seq<char>> {
        Seq::new(self.entries@.len(), |i: int| self.entries@[i].0@)
    }

    /// A ledger without wallets.
    pub fn new() -> (amounts: Self)
        ensures
            amounts@ == Map::<Seq<char>, Decimal>::empty(),
    {
        let amounts = WalletAmounts { entries: Vec::new() };
        assert(amounts@ =~= Map::<Seq<char>, Decimal>::empty());
        amounts
    }

    /// Where the wallet `name` stands among the entries.
    fn position(&self, name: &String) -> (r: Option<usize>)
        ensures
            match r {
                Some(i) => i < self.entries@.len() && self.entries@[i as int].0@ == name@,
                None => forall|k: int|
                    0 <= k < self.entries@.len() ==> (#[trigger] self.entries@[k]).0@ != name@,
            },
    {
        let mut i: usize = 0;
        while i < self.entries.len()
            invariant
                i <= self.entries@.len(),
                forall|k: int| 0 <= k < i ==> (#[trigger] self.entries@[k]).0@ != name@,
            decreases self.entries@.len() - i,
        {
            if self.entries[i].0 == *name {
                return Some(i);
            }
            i += 1;
        }
        None
    }

    /// The balance of the wallet `name`, if it exists.
    pub fn get(&self, name: &str) -> (r: Option<&Amount>)
        ensures
            match r {
                Some(amount) => self@.contains_key(name@) && amount@ == self@[name@],
                None => !self@.contains_key(name@),
            },
    {
        let name = name.to_owned();
        match self.position(&name) {
            Some(i) => {
                proof {
                    use_type_invariant(self);
                    lemma_find(self.entries@, name@, i as int);
                }
                Some(&self.entries[i].1)
            },
            None => {
                proof {
                    lemma_find_none(self.entries@, name@);
                }
                None
            },
        }
    }

    /// Decides whether the wallet `name` exists.
    pub fn contains_key(&self, name: &str) -> (r: bool)
        ensures
            r == self@.contains_key(name@),
    {
        self.get(name).is_some()
    }

    /// Gives the wallet `name` the balance `amount`, creating the wallet if
    /// it does not exist.
    pub fn insert(&mut self, name: String, amount: Amount)
        ensures
            final(self)@ == old(self)@.insert(name@, amount@),
    {
        proof {
            use_type_invariant(&*self);
        }
        let ghost before = self.entries@;
        let ghost key = name@;
        let ghost value = amount@;
        let found = self.position(&name);
        let mut entries: Vec<(String, Amount)> = Vec::new();
        core::mem::swap(&mut self.entries, &mut entries);
        match found {
            Some(i) => {
                entries.set(i, (name, amount));
            },
            None => {
                entries.push((name, amount));
            },
        }
        let ghost after = entries@;
        let ghost at = match found {
            Some(i) => i as int,
            None => before.len() as int,
        };
        proof {
            assert(after[at].0@ == key && after[at].1@ == value);
            assert forall|k: int| 0 <= k < before.len() && k != at implies after[k]
                == before[k] by {}
            assert(distinct_names(after));
            assert forall|other: Seq<char>|
                ledger_of(after).contains_key(other) == ledger_of(before).insert(
                    key,
                    value,
                ).contains_key(other) && (ledger_of(after).contains_key(other) ==> ledger_of(
                    after,
                )[other] == ledger_of(before).insert(key, value)[other]) by {
                if other == key {
                    lemma_find(after, other, at);
                } else if ledger_of(before).contains_key(other) {
                    lemma_found(before, other);
                    let k = find(before, other).unwrap();
                    lemma_find(after, other, k);
                } else if ledger_of(after).contains_key(other) {
                    lemma_found(after, other);
                    let k = find(after, other).unwrap();
                    lemma_find(before, other, k);
                }
            }
            assert(ledger_of(after) =~= ledger_of(before).insert(key, value));
        }
        core::mem::swap(&mut self.entries, &mut entries);
    }

    /// Removes the wallet `name`, if it exists.
    pub fn remove(&mut self, name: &str)
        ensures
            final(self)@ == old(self)@.remove(name@),
    {
        proof {
            use_type_invariant(&*self);
        }
        let ghost before = self.entries@;
        let ghost key = name@;
        let name = name.to_owned();
        let found = self.position(&name);
        let mut entries: Vec<(String, Amount)> = Vec::new();
        core::mem::swap(&mut self.entries, &mut entries);
        match found {
            Some(i) => {
                entries.remove(i);
            },
            None => {},
        }
        let ghost after = entries@;
        proof {
            // where an entry of one sequence stands in the other
            let up = |k: int|
                match found {
                    Some(i) => if k < i {
                        k
                    } else {
                        k + 1
                    },
                    None => k,
                };
            let down = |k: int|
                match found {
                    Some(i) => if k < i {
                        k
                    } else {
                        k - 1
                    },
                    None => k,
                };
            assert forall|k: int| 0 <= k < after.len() implies 0 <= up(k) < before.len()
                && #[trigger] after[k] == before[up(k)] by {}
            assert forall|i: int, j: int| 0 <= i < j < after.len() implies (#[trigger] after[i]).0@
                != (#[trigger] after[j]).0@ by {
                assert(before[up(i)].0@ != before[up(j)].0@);
            }
            assert forall|k: int| 0 <= k < after.len() implies (#[trigger] after[k]).0@ != key by {
                match found {
                    Some(i) => {
                        assert(before[up(k)].0@ != before[i as int].0@);
                    },
                    None => {},
                }
            }
            let removed = ledger_of(before).remove(key);
            assert forall|other: Seq<char>| #[trigger]
                ledger_of(after).dom().contains(other) == removed.dom().contains(other) by {
                if other == key {
                    lemma_find_none(after, other);
                } else if ledger_of(before).contains_key(other) {
                    lemma_found(before, other);
                    let k = find(before, other).unwrap();
                    assert(after[down(k)] == before[k]);
                    lemma_find(after, other, down(k));
                } else if ledger_of(after).contains_key(other) {
                    lemma_found(after, other);
                    let k = find(after, other).unwrap();
                    lemma_find(before, other, up(k));
                }
            }
            assert forall|other: Seq<char>| #[trigger]
                ledger_of(after).dom().contains(other) implies ledger_of(after)[other]
                == removed[other] by {
                lemma_found(after, other);
                let k = find(after, other).unwrap();
                lemma_find(before, other, up(k));
            }
            assert(ledger_of(after) =~= ledger_of(before).remove(key));
        }
        core::mem::swap(&mut self.entries, &mut entries);
    }

    /// The names of the wallets: each wallet that exists, once, in the order
    /// in which they were created.
    pub fn wallet_names(&self) -> (names: Vec<String>)
        ensures
            names.deep_view() == self.names(),
            self.names().no_duplicates(),
            self.names().to_set() == self@.dom(),
    {
        let mut names: Vec<String> = Vec::new();
        let mut i: usize = 0;
        while i < self.entries.len()
            invariant
                i <= self.entries@.len(),
                names.deep_view() == self.names().take(i as int),
            decreases self.entries@.len() - i,
        {
            let ghost before = names.deep_view();
            names.push(self.entries[i].0.clone());
            i += 1;
            assert(names.deep_view() == before.push(self.entries@[i - 1].0@));
            assert(names.deep_view() == self.names().take(i as int));
        }
        proof {
            use_type_invariant(self);
            assert(self.names().take(self.entries@.len() as int) == self.names());
            self.lemma_names();
        }
        names
    }

    /// The wallets that exist, each once, with their balances, in the order
    /// of their names.
    pub fn balances(&self) -> (balances: Vec<(String, Amount)>)
        ensures
            balances@.map_values(|entry: (String, Amount)| entry.0@) == self.names(),
            self.names().no_duplicates(),
            self.names().to_set() == self@.dom(),
            forall|i: int|
                0 <= i < balances@.len() ==> self@.contains_key((#[trigger] balances@[i]).0@)
                    && balances@[i].1@ == self@[balances@[i].0@],
    {
        let mut balances: Vec<(String, Amount)> = Vec::new();
        let mut i: usize = 0;
        while i < self.entries.len()
            invariant
                i <= self.entries@.len(),
                balances@.len() == i,
                forall|k: int|
                    0 <= k < i ==> (#[trigger] balances@[k]).0@ == self.entries@[k].0@
                        && balances@[k].1@ == self.entries@[k].1@,
            decreases self.entries@.len() - i,
        {
            balances.push((self.entries[i].0.clone(), self.entries[i].1.clone()));
            i += 1;
        }
        proof {
            use_type_invariant(self);
            assert forall|k: int| 0 <= k < balances@.len() implies self@.contains_key(
                (#[trigger] balances@[k]).0@,
            ) && balances@[k].1@ == self@[balances@[k].0@] by {
                lemma_find(self.entries@, self.entries@[k].0@, k);
            }
            assert(balances@.map_values(|entry: (String, Amount)| entry.0@) == self.names());
            self.lemma_names();
        }
        balances
    }

    /// The names are those of the wallets that exist, each once.
    proof fn lemma_names(self)
        requires
            distinct_names(self.entries@),
        ensures
            self.names().no_duplicates(),
            self.names().to_set() == self@.dom(),
    {
        let all = self.names();
        assert forall|name: Seq<char>| all.to_set().contains(name) <==> self@.dom().contains(
            name,
        ) by {
            if all.to_set().contains(name) {
                let i = choose|i: int| 0 <= i < all.len() && all[i] == name;
                lemma_find(self.entries@, name, i);
            }
            if self@.dom().contains(name) {
                lemma_found(self.entries@, name);
                let i = find(self.entries@, name).unwrap();
                assert(all[i] == name);
            }
        }
        assert(all.to_set() =~= self@.dom());
    }
}

} // verus!
