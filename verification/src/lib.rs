//! A personal ledger of named wallets whose balances are derived from a
//! plain-text, append-only log of directives.
//!
//! A log is a text of lines; each line that is not blank is a comment, which
//! starts with `#`, or a directive, such as
//! `INCREMENT "Checking (Bank)" 46.70 "got paid"`. The log is the only thing
//! that is kept: the ledger, which gives every wallet its balance, is what
//! the directives of the log make of an empty ledger when they are applied in
//! order.
//!
//! - [`format`] states what a text means: its lines, their tokens, their
//!   records.
//! - [`flap_sequence`] reads a log from a text and writes it as one.
//! - [`ledger`] states what a record does to a ledger, and holds the balances.
//! - [`amount`] holds the amounts: exact decimal numbers of any size.
//! - [`flapjack_stack`] keeps a log and its ledger together while directives
//!   are appended, and says what has to be written to the store.
//! - [`round_trip`] proves what is kept when a log is written and read again.
//! - [`option_repl`] holds what an interactive menu over a ledger decides.

pub mod amount;
pub mod chars;
pub mod error;
pub mod flap_sequence;
pub mod flapjack_stack;
pub mod format;
pub mod ledger;
pub mod option_repl;
pub mod round_trip;
pub mod text;
