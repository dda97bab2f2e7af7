//! The log format, stated over sequences of characters: how a text falls
//! into lines, a line into tokens, and a line into a record.

use crate::chars::{first_index_of, is_bare, is_blank, is_quote, is_whitespace};
use crate::error::LoadErrorView;
use crate::flapjack_stack::flapjack::{Command, DirectiveView, Record};
use crate::ledger::{replay, Ledger};
use vstd::prelude::*;

verus! {

/// `text` with every carriage return taken out.
pub open spec fn without_carriage_returns(text: Seq<char>) -> Seq<char> {
    text.filter(|c: char| c != '\r')
}

/// `text` with every whitespace character taken out.
pub open spec fn without_whitespace(text: Seq<char>) -> Seq<char> {
    text.filter(|c: char| !is_whitespace(c))
}

/// `text` with every quote character taken out.
pub open spec fn without_quotes(text: Seq<char>) -> Seq<char> {
    text.filter(|c: char| !is_quote(c))
}

/// The pieces of `text` between its line feeds. A text with `n` line feeds
/// has `n + 1` pieces; the empty text has one empty piece.
pub open spec fn split_lines(text: Seq<char>) -> Seq<Seq<char>>
    decreases text.len(),
{
    if text.len() == 0 {
        seq![Seq::empty()]
    } else {
        let before = split_lines(text.drop_last());
        if text.last() == '\n' {
            before.push(Seq::empty())
        } else {
            before.drop_last().push(before.last().push(text.last()))
        }
    }
}

/// The lines among `lines` that hold something besides whitespace.
pub open spec fn without_blank_lines(lines: Seq<Seq<char>>) -> Seq<Seq<char>> {
    lines.filter(|line: Seq<char>| !is_blank(line))
}

/// The lines of `text` that carry a record: carriage returns are dropped, the
/// text is split at line feeds, and blank lines are discarded.
pub open spec fn retained_lines(text: Seq<char>) -> Seq<Seq<char>> {
    without_blank_lines(split_lines(without_carriage_returns(text)))
}

/// The length of the longest prefix of `s` made of bare characters only.
pub open spec fn bare_prefix_len(s: Seq<char>) -> nat
    decreases s.len(),
{
    if s.len() == 0 || !is_bare(s[0]) {
        0
    } else {
        1 + bare_prefix_len(s.skip(1))
    }
}

pub proof fn lemma_bare_prefix_len_bound(s: Seq<char>)
    ensures
        bare_prefix_len(s) <= s.len(),
    decreases s.len(),
{
    if s.len() != 0 && is_bare(s[0]) {
        lemma_bare_prefix_len_bound(s.skip(1));
    }
}

/// If `s` has `k` bare characters followed either by one that is not bare or
/// by the end of `s`, its bare prefix has length `k`.
pub proof fn lemma_bare_prefix_len_is(s: Seq<char>, k: int)
    requires
        0 <= k <= s.len(),
        forall|m: int| 0 <= m < k ==> is_bare(s[m]),
        k < s.len() ==> !is_bare(s[k]),
    ensures
        bare_prefix_len(s) == k,
    decreases s.len(),
{
    if k > 0 {
        let rest = s.skip(1);
        assert forall|m: int| 0 <= m < k - 1 implies is_bare(rest[m]) by {
            assert(rest[m] == s[m + 1]);
        }
        lemma_bare_prefix_len_is(rest, k - 1);
    }
}

/// The tokens of a line, read from left to right:
/// - whitespace separates tokens and belongs to none;
/// - a quote character that is followed later by the same character opens a
///   quoted run, which ends at the first such character: what stands between
///   the two, without any quote character, is one token (it may be empty and
///   may hold whitespace);
/// - a quote character with no partner is dropped;
/// - any other character starts a token that runs as far as bare characters
///   go.
pub open spec fn tokens(line: Seq<char>) -> Seq<Seq<char>>
    decreases line.len(),
{
    if line.len() == 0 {
        Seq::empty()
    } else if is_whitespace(line[0]) {
        tokens(line.skip(1))
    } else if is_quote(line[0]) {
        let rest = line.skip(1);
        let close = first_index_of(rest, line[0]) as int;
        if close < rest.len() {
            seq![without_quotes(rest.take(close))] + tokens(rest.skip(close + 1))
        } else {
            tokens(rest)
        }
    } else {
        let n = bare_prefix_len(line);
        proof {
            lemma_bare_prefix_len_bound(line);
        }
        seq![line.take(n as int)] + tokens(line.skip(n as int))
    }
}

/// Whether the first character of `line` that is not whitespace is `#`.
pub open spec fn is_comment_line(line: Seq<char>) -> bool {
    exists|i: int| 0 <= i < line.len() && #[trigger] line[i] == '#' && is_blank(line.take(i))
}

/// Why a text is not a log.
pub enum ParseErrorView {
    /// The first token of a line is none of the five keywords.
    UnrecognizedCommand(Seq<char>),
    /// The line is neither blank nor a comment, and has no token.
    MalformedLine(Seq<char>),
}

/// The record that a retained line stands for. A comment line is kept
/// whole. Any other line is a directive: its first token is the keyword, the
/// remaining tokens are the parameters, in order.
pub open spec fn parse_line(line: Seq<char>) -> Result<Record, ParseErrorView> {
    if is_comment_line(line) {
        Ok(Record::Comment(line))
    } else {
        let toks = tokens(line);
        if toks.len() == 0 {
            Err(ParseErrorView::MalformedLine(line))
        } else {
            match Command::of_keyword(toks[0]) {
                Some(command) => Ok(
                    Record::Directive(DirectiveView { command, params: toks.skip(1) }),
                ),
                None => Err(ParseErrorView::UnrecognizedCommand(toks[0])),
            }
        }
    }
}

/// The records of a sequence of retained lines, in order, or the error of
/// the first line that is no record.
pub open spec fn parse_lines(lines: Seq<Seq<char>>) -> Result<Seq<Record>, ParseErrorView>
    decreases lines.len(),
{
    if lines.len() == 0 {
        Ok(Seq::empty())
    } else {
        match parse_lines(lines.drop_last()) {
            Err(e) => Err(e),
            Ok(records) => match parse_line(lines.last()) {
                Ok(record) => Ok(records.push(record)),
                Err(e) => Err(e),
            },
        }
    }
}

/// Lines whose first `n` are not all records are no log, with the same
/// error.
pub proof fn lemma_parse_fails_later(lines: Seq<Seq<char>>, n: int)
    requires
        0 <= n <= lines.len(),
        parse_lines(lines.take(n)) is Err,
    ensures
        parse_lines(lines) == parse_lines(lines.take(n)),
    decreases lines.len() - n,
{
    if n < lines.len() {
        assert(lines.take(n + 1).drop_last() == lines.take(n));
        lemma_parse_fails_later(lines, n + 1);
    } else {
        assert(lines.take(n) == lines);
    }
}

/// The records of a log text.
pub open spec fn parse_log(text: Seq<char>) -> Result<Seq<Record>, ParseErrorView> {
    parse_lines(retained_lines(text))
}

/// The log and the ledger that a sequence of retained lines stands for. A
/// line that is no record is reported before any record that cannot be
/// applied.
pub open spec fn load_lines(lines: Seq<Seq<char>>) -> Result<(Seq<Record>, Ledger), LoadErrorView> {
    match parse_lines(lines) {
        Err(e) => Err(LoadErrorView::Parse(e)),
        Ok(records) => match replay(records) {
            Err(e) => Err(LoadErrorView::Ledger(e)),
            Ok(ledger) => Ok((records, ledger)),
        },
    }
}

/// The log and the ledger that a text stands for.
pub open spec fn load(text: Seq<char>) -> Result<(Seq<Record>, Ledger), LoadErrorView> {
    load_lines(retained_lines(text))
}

} // verus!
