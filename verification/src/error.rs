//! The ways in which loading or changing a log can fail.

use crate::flapjack_stack::flapjack::Command;
use crate::format::ParseErrorView;
use crate::ledger::LedgerErrorView;
use vstd::prelude::*;

verus! {

/// Why a text is not a log.
#[derive(Debug, PartialEq, Eq, Clone)]
pub enum ParseError {
    /// The first token of a line is none of the five keywords; holds that
    /// token.
    UnrecognizedCommand(String),
    /// The line is neither blank nor a comment, and has no token; holds the
    /// line.
    MalformedLine(String),
}

impl View for ParseError {
    type V = ParseErrorView;

    open spec fn view(&self) -> ParseErrorView {
        match self {
            ParseError::UnrecognizedCommand(word) => ParseErrorView::UnrecognizedCommand(word@),
            ParseError::MalformedLine(line) => ParseErrorView::MalformedLine(line@),
        }
    }
}

/// Why a directive cannot be applied to a ledger.
#[derive(Debug, PartialEq, Eq, Clone)]
pub enum LedgerError {
    /// The directive names a wallet that does not exist; holds the name.
    WalletNotFound(String),
    /// The amount of the directive is no decimal numeral; holds the text.
    AmountNotNumeric(String),
    /// The directive has no parameter at the given position, counted from
    /// zero.
    MissingParameter(Command, usize),
}

impl View for LedgerError {
    type V = LedgerErrorView;

    open spec fn view(&self) -> LedgerErrorView {
        match self {
            LedgerError::WalletNotFound(name) => LedgerErrorView::WalletNotFound(name@),
            LedgerError::AmountNotNumeric(text) => LedgerErrorView::AmountNotNumeric(text@),
            LedgerError::MissingParameter(command, position) => LedgerErrorView::MissingParameter(
                *command,
                *position as nat,
            ),
        }
    }
}

/// Why a text cannot be loaded as a log with its ledger.
#[derive(Debug, PartialEq, Eq, Clone)]
pub enum LoadError {
    /// The text is not a log.
    Parse(ParseError),
    /// The log has a directive that cannot be applied.
    Ledger(LedgerError),
}

/// Why a text cannot be loaded as a log with its ledger.
pub enum LoadErrorView {
    Parse(ParseErrorView),
    Ledger(LedgerErrorView),
}

impl View for LoadError {
    type V = LoadErrorView;

    open spec fn view(&self) -> LoadErrorView {
        match self {
            LoadError::Parse(e) => LoadErrorView::Parse(e@),
            LoadError::Ledger(e) => LoadErrorView::Ledger(e@),
        }
    }
}

/// Why the log cannot be brought to its store.
#[derive(Debug, PartialEq, Eq, Clone, Copy)]
pub enum PersistenceError {
    /// The log is bound to no store.
    Unbound,
}

/// Why a directive could not be appended to a log.
#[derive(Debug, PartialEq, Eq, Clone)]
pub enum AppendError {
    /// The directive cannot be applied to the ledger. Nothing was changed.
    Ledger(LedgerError),
    /// The directive was applied and appended in memory, but the log cannot
    /// be brought to its store.
    Persistence(PersistenceError),
}

} // verus!
