//! Loading a log with its ledger from a text.

use crate::error::LoadError;
use crate::flap_sequence::FlapSequenceBuilder;
use crate::flapjack_stack::{view_of, FlapJackStack};
use crate::format::{
    load_lines, retained_lines, tokens, without_carriage_returns, without_whitespace,
};
use vstd::prelude::*;

verus! {

/// A builder of a log and its ledger from the text of the log. It takes the
/// raw text, drops carriage returns, splits the text into lines, keeps those
/// that carry a record, reads each as a comment or a directive, and replays
/// the directives.
#[derive(Debug)]
pub struct FlapJackStackBuilder {
    lines: FlapSequenceBuilder,
    log_path: Option<String>,
}

impl FlapJackStackBuilder {
    /// The lines that the builder still holds.
    pub closed spec fn lines(&self) -> Seq<Seq<char>> {
        self.lines.lines()
    }

    /// The place the log is bound to, if any.
    pub closed spec fn log_path(&self) -> Option<Seq<char>> {
        view_of(self.log_path)
    }

    /// A builder that holds the lines of `raw_log` that carry a record, and
    /// the place where the log is kept.
    pub fn new(raw_log: &str, log_path: Option<String>) -> (builder: Self)
        ensures
            builder.lines() == retained_lines(raw_log@),
            builder.log_path() == view_of(log_path),
    {
        Self { lines: FlapSequenceBuilder::new(raw_log), log_path }
    }

    /// Builds the log that the lines stand for, with its ledger. A line that
    /// is no record is reported before any record that cannot be applied.
    /// The builder is left without lines.
    pub fn build(&mut self) -> (r: Result<FlapJackStack, LoadError>)
        ensures
            final(self).lines() == Seq::<Seq<char>>::empty(),
            final(self).log_path() == old(self).log_path(),
            match load_lines(old(self).lines()) {
                Ok((records, ledger)) => r matches Ok(stack) && stack.records() == records
                    && stack.db@ == ledger && stack.path() == old(self).log_path()
                    && stack.is_consistent(),
                Err(e) => r matches Err(error) && error@ == e,
            },
    {
        let sequence = match self.lines.build() {
            Ok(sequence) => sequence,
            Err(error) => {
                return Err(LoadError::Parse(error));
            },
        };
        let log_path = match &self.log_path {
            Some(path) => Some(path.clone()),
            None => None,
        };
        match FlapJackStack::new(sequence.flaps, log_path) {
            Ok(stack) => Ok(stack),
            Err(error) => Err(LoadError::Ledger(error)),
        }
    }

    /// The tokens of a line.
    pub fn split_and_clean_line(line: &str) -> (split: Vec<String>)
        ensures
            split.deep_view() == tokens(line@),
    {
        FlapSequenceBuilder::split_and_clean_line(line)
    }

    /// The lines of a text that carry a record.
    pub fn split_and_clean_raw_log(raw_log: &str) -> (cleaned: Vec<String>)
        ensures
            cleaned.deep_view() == retained_lines(raw_log@),
    {
        FlapSequenceBuilder::split_and_clean_raw_log(raw_log)
    }

    /// `s` without its carriage returns.
    pub fn remove_carriage_returns(s: &str) -> (cleaned: String)
        ensures
            cleaned@ == without_carriage_returns(s@),
    {
        FlapSequenceBuilder::remove_carriage_returns(s)
    }

    /// `s` without its whitespace.
    pub fn remove_whitespace(s: &str) -> (squeezed: String)
        ensures
            squeezed@ == without_whitespace(s@),
    {
        FlapSequenceBuilder::remove_whitespace(s)
    }
}

} // verus!
