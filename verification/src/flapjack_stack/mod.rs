//! The log of records and the ledger derived from it.

use crate::amount::{lemma_text_reads_back, Amount, Decimal};
use crate::error::{AppendError, LedgerError, LoadError, PersistenceError};
use crate::flap_sequence::serialize_flaps;
use crate::flapjack_stack::flapjack_stack_builder::FlapJackStackBuilder;
use crate::flapjack_stack::flapjack::{log_text, Command, Directive, DirectiveView, FlapJack, Record};
use crate::ledger::{apply, apply_record, replay, Ledger, LedgerErrorView, WalletAmounts};
use vstd::prelude::*;

pub mod flapjack;
pub mod flapjack_stack_builder;

verus! {

/// Whether `result` with the ledger `after` is what `expected` asks for:
/// either success with the expected ledger, or the expected error with the
/// ledger as it was `before`.
pub open spec fn is_outcome(
    expected: Result<Ledger, LedgerErrorView>,
    before: Ledger,
    after: Ledger,
    result: Result<(), LedgerError>,
) -> bool {
    match expected {
        Ok(ledger) => result is Ok && after == ledger,
        Err(e) => result matches Err(error) && error@ == e && after == before,
    }
}

/// The balance of every wallet.
#[derive(Debug)]
pub struct FlapJackDb {
    pub wallet_amounts: WalletAmounts,
}

impl View for FlapJackDb {
    type V = Ledger;

    open spec fn view(&self) -> Ledger {
        self.wallet_amounts@
    }
}

impl FlapJackDb {
    /// A ledger without wallets.
    pub fn new() -> (db: Self)
        ensures
            db@ == Map::<Seq<char>, Decimal>::empty(),
    {
        Self { wallet_amounts: WalletAmounts::new() }
    }

    /// The ledger that the records stand for, or the error of the first
    /// record that cannot be applied.
    pub fn from_flaps(flaps: &Vec<FlapJack>) -> (r: Result<Self, LedgerError>)
        ensures
            match replay(flaps.deep_view()) {
                Ok(ledger) => r matches Ok(db) && db@ == ledger,
                Err(e) => r matches Err(error) && error@ == e,
            },
    {
        let mut db = Self::new();
        let mut i: usize = 0;
        assert(flaps.deep_view().take(0) == Seq::<Record>::empty());
        while i < flaps.len()
            invariant
                i <= flaps.len(),
                replay(flaps.deep_view().take(i as int)) == Ok::<Ledger, LedgerErrorView>(db@),
            decreases flaps.len() - i,
        {
            proof {
                let next = flaps.deep_view().take(i + 1);
                assert(next.drop_last() == flaps.deep_view().take(i as int));
                assert(next.last() == flaps[i as int]@);
            }
            match db.update(&flaps[i]) {
                Ok(()) => {},
                Err(error) => {
                    proof {
                        lemma_replay_fails_later(flaps.deep_view(), i + 1);
                    }
                    return Err(error);
                },
            }
            i += 1;
        }
        assert(flaps.deep_view().take(flaps.len() as int) == flaps.deep_view());
        Ok(db)
    }

    /// Applies a record to the ledger. A record that cannot be applied
    /// leaves the ledger as it is.
    pub fn update(&mut self, flap: &FlapJack) -> (r: Result<(), LedgerError>)
        ensures
            is_outcome(apply_record(old(self)@, flap@), old(self)@, final(self)@, r),
    {
        match flap {
            FlapJack::Comment(_comment) => Ok(()),
            FlapJack::Directive(directive) => {
                let params = directive.params.as_slice();
                assert(params.deep_view() == directive.params.deep_view());
                match directive.command {
                    Command::CREATE => self.command_create(params),
                    Command::INCREMENT => self.command_increment(params),
                    Command::SET => self.command_set(params),
                    Command::DESTROY => self.command_destroy(params),
                    Command::DECREMENT => self.command_decrement(params),
                }
            },
        }
    }

    /// Creates the wallet that the first parameter names, with the balance
    /// zero. A wallet of that name that exists already is reset to zero.
    pub fn command_create(&mut self, params: &[String]) -> (r: Result<(), LedgerError>)
        ensures
            is_outcome(
                apply(old(self)@, Command::CREATE, params.deep_view()),
                old(self)@,
                final(self)@,
                r,
            ),
    {
        if params.len() == 0 {
            return Err(LedgerError::MissingParameter(Command::CREATE, 0));
        }
        self.wallet_amounts.insert(params[0].clone(), Amount::zero());
        Ok(())
    }

    /// Adds the amount in the second parameter to the balance of the wallet
    /// that the first parameter names.
    pub fn command_increment(&mut self, params: &[String]) -> (r: Result<(), LedgerError>)
        ensures
            is_outcome(
                apply(old(self)@, Command::INCREMENT, params.deep_view()),
                old(self)@,
                final(self)@,
                r,
            ),
    {
        self.change_balance(Command::INCREMENT, params)
    }

    /// Replaces the balance of the wallet that the first parameter names by
    /// the amount in the second parameter.
    pub fn command_set(&mut self, params: &[String]) -> (r: Result<(), LedgerError>)
        ensures
            is_outcome(
                apply(old(self)@, Command::SET, params.deep_view()),
                old(self)@,
                final(self)@,
                r,
            ),
    {
        self.change_balance(Command::SET, params)
    }

    /// Removes the wallet that the first parameter names. Without such a
    /// wallet nothing happens.
    pub fn command_destroy(&mut self, params: &[String]) -> (r: Result<(), LedgerError>)
        ensures
            is_outcome(
                apply(old(self)@, Command::DESTROY, params.deep_view()),
                old(self)@,
                final(self)@,
                r,
            ),
    {
        if params.len() == 0 {
            return Err(LedgerError::MissingParameter(Command::DESTROY, 0));
        }
        self.wallet_amounts.remove(params[0].as_str());
        Ok(())
    }

    /// Subtracts the amount in the second parameter from the balance of the
    /// wallet that the first parameter names.
    pub fn command_decrement(&mut self, params: &[String]) -> (r: Result<(), LedgerError>)
        ensures
            is_outcome(
                apply(old(self)@, Command::DECREMENT, params.deep_view()),
                old(self)@,
                final(self)@,
                r,
            ),
    {
        self.change_balance(Command::DECREMENT, params)
    }

    /// What `INCREMENT`, `DECREMENT` and `SET` share: the parameters are
    /// checked in order, then the balance is changed.
    fn change_balance(&mut self, command: Command, params: &[String]) -> (r: Result<
        (),
        LedgerError,
    >)
        requires
            command == Command::INCREMENT || command == Command::DECREMENT || command
                == Command::SET,
        ensures
            is_outcome(
                apply(old(self)@, command, params.deep_view()),
                old(self)@,
                final(self)@,
                r,
            ),
    {
        if params.len() == 0 {
            return Err(LedgerError::MissingParameter(command, 0));
        }
        if params.len() < 2 {
            return Err(LedgerError::MissingParameter(command, 1));
        }
        let amount = match Amount::parse(params[1].as_str()) {
            Some(amount) => amount,
            None => {
                return Err(LedgerError::AmountNotNumeric(params[1].clone()));
            },
        };
        let balance = match self.wallet_amounts.get(params[0].as_str()) {
            Some(balance) => match command {
                Command::INCREMENT => balance.plus(&amount),
                Command::DECREMENT => balance.minus(&amount),
                _ => amount,
            },
            None => {
                return Err(LedgerError::WalletNotFound(params[0].clone()));
            },
        };
        self.wallet_amounts.insert(params[0].clone(), balance);
        Ok(())
    }
}

/// What has to be written where, so that the store holds the log.
#[derive(Debug, PartialEq, Eq, Clone)]
pub struct LogWrite {
    /// The place the log is bound to.
    pub path: String,
    /// The whole text of the log.
    pub text: String,
}

/// The view of an optional string.
pub open spec fn view_of(s: Option<String>) -> Option<Seq<char>> {
    match s {
        Some(s) => Some(s@),
        None => None,
    }
}

/// The parameters of a directive that `INCREMENT`, `DECREMENT` or `SET`
/// writes: the name of the wallet, the numeral of the amount, and the
/// comment where there is one.
pub open spec fn amount_params(name: Seq<char>, amount: int, comment: Option<Seq<char>>) -> Seq<
    Seq<char>,
> {
    match comment {
        Some(comment) => seq![name, Decimal::whole(amount).text(), comment],
        None => seq![name, Decimal::whole(amount).text()],
    }
}

/// A sequence of records, each a directive or a comment, in their order,
/// with the ledger that they stand for and the place where the log is kept.
#[derive(Debug)]
pub struct FlapJackStack {
    pub flapjacks: Vec<FlapJack>,
    pub db: FlapJackDb,
    pub log_path: Option<String>,
}

impl FlapJackStack {
    /// The records of the log.
    pub open spec fn records(&self) -> Seq<Record> {
        self.flapjacks.deep_view()
    }

    /// The place the log is bound to, if any.
    pub open spec fn path(&self) -> Option<Seq<char>> {
        view_of(self.log_path)
    }

    /// Whether the ledger is the one that the records stand for.
    pub open spec fn is_consistent(&self) -> bool {
        replay(self.records()) == Ok::<Ledger, LedgerErrorView>(self.db@)
    }

    /// Whether the stack `after` and the result `r` are what appending
    /// `record` to the stack `before` gives, where `expected` is what the
    /// record does to the ledger.
    ///
    /// A record that cannot be applied changes nothing and gives its error.
    /// Any other record is appended and applied; the result is then the text
    /// to write to the store, or, for a log that is bound to none, the error
    /// that says so.
    pub open spec fn is_appended(
        expected: Result<Ledger, LedgerErrorView>,
        record: Record,
        before: FlapJackStack,
        after: FlapJackStack,
        r: Result<LogWrite, AppendError>,
    ) -> bool {
        &&& after.path() == before.path()
        &&& match expected {
            Err(e) => {
                &&& r matches Err(AppendError::Ledger(error))
                &&& error@ == e
                &&& after.records() == before.records()
                &&& after.db@ == before.db@
            },
            Ok(ledger) => {
                &&& after.records() == before.records().push(record)
                &&& after.db@ == ledger
                &&& match before.path() {
                    Some(path) => {
                        &&& r matches Ok(write)
                        &&& write.path@ == path
                        &&& write.text@ == log_text(after.records())
                    },
                    None => r matches Err(AppendError::Persistence(PersistenceError::Unbound)),
                }
            },
        }
    }

    /// What `INCREMENT`, `DECREMENT` and `SET` with the amount `amount` do to
    /// the wallet `name` of `ledger`.
    pub open spec fn changed(ledger: Ledger, command: Command, name: Seq<char>, amount: int) -> Result<
        Ledger,
        LedgerErrorView,
    > {
        if ledger.contains_key(name) {
            Ok(
                ledger.insert(
                    name,
                    match command {
                        Command::INCREMENT => ledger[name].plus(Decimal::whole(amount)),
                        Command::DECREMENT => ledger[name].minus(Decimal::whole(amount)),
                        _ => Decimal::whole(amount),
                    },
                ),
            )
        } else {
            Err(LedgerErrorView::WalletNotFound(name))
        }
    }

    /// The log with these records, its ledger, and the place it is bound to;
    /// or the error of the first record that cannot be applied.
    pub fn new(flapjacks: Vec<FlapJack>, log_path: Option<String>) -> (r: Result<Self, LedgerError>)
        ensures
            match replay(flapjacks.deep_view()) {
                Ok(ledger) => r matches Ok(stack) && stack.records() == flapjacks.deep_view()
                    && stack.db@ == ledger && stack.path() == view_of(log_path)
                    && stack.is_consistent(),
                Err(e) => r matches Err(error) && error@ == e,
            },
    {
        match FlapJackDb::from_flaps(&flapjacks) {
            Ok(db) => Ok(Self { flapjacks, db, log_path }),
            Err(error) => Err(error),
        }
    }

    /// Loads a log with its ledger from the text of the log, and binds it to
    /// the place where it is kept. A line that is no record is reported
    /// before any record that cannot be applied.
    pub fn load(raw_log: &str, log_path: Option<String>) -> (r: Result<Self, LoadError>)
        ensures
            match crate::format::load(raw_log@) {
                Ok((records, ledger)) => r matches Ok(stack) && stack.records() == records
                    && stack.db@ == ledger && stack.path() == view_of(log_path)
                    && stack.is_consistent(),
                Err(e) => r matches Err(error) && error@ == e,
            },
    {
        FlapJackStackBuilder::new(raw_log, log_path).build()
    }

    /// The canonical text of the log.
    pub fn serialize(&self) -> (serialized: String)
        ensures
            serialized@ == log_text(self.records()),
    {
        serialize_flaps(&self.flapjacks)
    }

    /// The names of the wallets that exist, each once.
    pub fn return_wallet_names(&self) -> (names: Vec<String>)
        ensures
            names.deep_view().no_duplicates(),
            names.deep_view().to_set() == self.db@.dom(),
    {
        self.db.wallet_amounts.wallet_names()
    }

    /// The wallets that exist, each once, with their balances.
    pub fn balances(&self) -> (balances: Vec<(String, Amount)>)
        ensures
            balances@.map_values(|entry: (String, Amount)| entry.0@).no_duplicates(),
            balances@.map_values(|entry: (String, Amount)| entry.0@).to_set() == self.db@.dom(),
            forall|i: int|
                0 <= i < balances@.len() ==> self.db@.contains_key((#[trigger] balances@[i]).0@)
                    && balances@[i].1@ == self.db@[balances@[i].0@],
    {
        self.db.wallet_amounts.balances()
    }

    /// The balance of the wallet `wallet_name`, if it exists.
    pub fn amount(&self, wallet_name: &str) -> (r: Option<Amount>)
        ensures
            match r {
                Some(amount) => self.db@.contains_key(wallet_name@) && amount@
                    == self.db@[wallet_name@],
                None => !self.db@.contains_key(wallet_name@),
            },
    {
        match self.db.wallet_amounts.get(wallet_name) {
            Some(amount) => Some(amount.clone()),
            None => None,
        }
    }

    /// Applies a record to the ledger and appends it to the log. Returns
    /// what has to be written to the store.
    pub fn push_flap(&mut self, flapjack: FlapJack) -> (r: Result<LogWrite, AppendError>)
        ensures
            Self::is_appended(
                apply_record(old(self).db@, flapjack@),
                flapjack@,
                *old(self),
                *final(self),
                r,
            ),
            old(self).is_consistent() ==> final(self).is_consistent(),
    {
        let ghost before = self.records();
        match self.db.update(&flapjack) {
            Ok(()) => {},
            Err(error) => {
                return Err(AppendError::Ledger(error));
            },
        }
        proof {
            assert(before.push(flapjack@).drop_last() == before);
        }
        self.flapjacks.push(flapjack);
        assert(self.records() == before.push(flapjack@));
        match &self.log_path {
            Some(path) => Ok(LogWrite { path: path.clone(), text: self.serialize() }),
            None => Err(AppendError::Persistence(PersistenceError::Unbound)),
        }
    }

    /// Appends the directive `command name amount comment`.
    fn push_amount(
        &mut self,
        command: Command,
        wallet_name: &str,
        amount: i64,
        comment: Option<&str>,
    ) -> (r: Result<LogWrite, AppendError>)
        requires
            command == Command::INCREMENT || command == Command::DECREMENT || command
                == Command::SET,
        ensures
            Self::is_appended(
                Self::changed(old(self).db@, command, wallet_name@, amount as int),
                Record::Directive(
                    DirectiveView {
                        command,
                        params: amount_params(
                            wallet_name@,
                            amount as int,
                            match comment {
                                Some(comment) => Some(comment@),
                                None => None,
                            },
                        ),
                    },
                ),
                *old(self),
                *final(self),
                r,
            ),
            old(self).is_consistent() ==> final(self).is_consistent(),
    {
        let numeral = Amount::from_i64(amount).to_string();
        proof {
            lemma_text_reads_back(Decimal::whole(amount as int));
        }
        let params = match comment {
            Some(x) => vec![wallet_name.to_owned(), numeral, x.to_owned()],
            None => vec![wallet_name.to_owned(), numeral],
        };
        assert(params.deep_view() == amount_params(
            wallet_name@,
            amount as int,
            match comment {
                Some(comment) => Some(comment@),
                None => None,
            },
        ));
        self.push_flap(FlapJack::Directive(Directive { command, params }))
    }

    /// Sets the balance of a wallet: appends `SET name amount comment`.
    pub fn set_wallet_amount(&mut self, wallet_name: &str, amount: i64, comment: Option<&str>) -> (r:
        Result<LogWrite, AppendError>)
        ensures
            Self::is_appended(
                Self::changed(old(self).db@, Command::SET, wallet_name@, amount as int),
                Record::Directive(
                    DirectiveView {
                        command: Command::SET,
                        params: amount_params(
                            wallet_name@,
                            amount as int,
                            match comment {
                                Some(comment) => Some(comment@),
                                None => None,
                            },
                        ),
                    },
                ),
                *old(self),
                *final(self),
                r,
            ),
            old(self).is_consistent() ==> final(self).is_consistent(),
    {
        self.push_amount(Command::SET, wallet_name, amount, comment)
    }

    /// Lowers the balance of a wallet: appends `DECREMENT name amount
    /// comment`.
    pub fn decrement_wallet_amount(
        &mut self,
        wallet_name: &str,
        amount: i64,
        comment: Option<&str>,
    ) -> (r: Result<LogWrite, AppendError>)
        ensures
            Self::is_appended(
                Self::changed(old(self).db@, Command::DECREMENT, wallet_name@, amount as int),
                Record::Directive(
                    DirectiveView {
                        command: Command::DECREMENT,
                        params: amount_params(
                            wallet_name@,
                            amount as int,
                            match comment {
                                Some(comment) => Some(comment@),
                                None => None,
                            },
                        ),
                    },
                ),
                *old(self),
                *final(self),
                r,
            ),
            old(self).is_consistent() ==> final(self).is_consistent(),
    {
        self.push_amount(Command::DECREMENT, wallet_name, amount, comment)
    }

    /// Raises the balance of a wallet: appends `INCREMENT name amount
    /// comment`.
    pub fn increment_wallet_amount(
        &mut self,
        wallet_name: &str,
        amount: i64,
        comment: Option<&str>,
    ) -> (r: Result<LogWrite, AppendError>)
        ensures
            Self::is_appended(
                Self::changed(old(self).db@, Command::INCREMENT, wallet_name@, amount as int),
                Record::Directive(
                    DirectiveView {
                        command: Command::INCREMENT,
                        params: amount_params(
                            wallet_name@,
                            amount as int,
                            match comment {
                                Some(comment) => Some(comment@),
                                None => None,
                            },
                        ),
                    },
                ),
                *old(self),
                *final(self),
                r,
            ),
            old(self).is_consistent() ==> final(self).is_consistent(),
    {
        self.push_amount(Command::INCREMENT, wallet_name, amount, comment)
    }

    /// Creates a wallet with the balance zero: appends `CREATE name`.
    pub fn create_wallet(&mut self, wallet_name: &str) -> (r: Result<LogWrite, AppendError>)
        ensures
            Self::is_appended(
                Ok(old(self).db@.insert(wallet_name@, Decimal::zero())),
                Record::Directive(
                    DirectiveView { command: Command::CREATE, params: seq![wallet_name@] },
                ),
                *old(self),
                *final(self),
                r,
            ),
            old(self).is_consistent() ==> final(self).is_consistent(),
    {
        let params = vec![wallet_name.to_owned()];
        assert(params.deep_view() == seq![wallet_name@]);
        self.push_flap(FlapJack::Directive(Directive { command: Command::CREATE, params }))
    }

    /// Removes a wallet: appends `DESTROY name`.
    pub fn destroy_wallet(&mut self, wallet_name: &str) -> (r: Result<LogWrite, AppendError>)
        ensures
            Self::is_appended(
                Ok(old(self).db@.remove(wallet_name@)),
                Record::Directive(
                    DirectiveView { command: Command::DESTROY, params: seq![wallet_name@] },
                ),
                *old(self),
                *final(self),
                r,
            ),
            old(self).is_consistent() ==> final(self).is_consistent(),
    {
        let params = vec![wallet_name.to_owned()];
        assert(params.deep_view() == seq![wallet_name@]);
        self.push_flap(FlapJack::Directive(Directive { command: Command::DESTROY, params }))
    }
}

/// A log whose replay fails on its first `n` records fails as a whole, with
/// the same error.
pub proof fn lemma_replay_fails_later(records: Seq<Record>, n: int)
    requires
        0 <= n <= records.len(),
        replay(records.take(n)) is Err,
    ensures
        replay(records) == replay(records.take(n)),
    decreases records.len() - n,
{
    if n < records.len() {
        assert(records.take(n + 1).drop_last() == records.take(n));
        lemma_replay_fails_later(records, n + 1);
    } else {
        assert(records.take(n) == records);
    }
}

} // verus!
