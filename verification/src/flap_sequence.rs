//! The log by itself: reading it from a text and writing it as one.

use crate::chars::{
    char_is_quote, char_is_whitespace, is_bare, is_blank, is_quote, is_whitespace,
    lemma_first_index_of_is,
};
use crate::error::ParseError;
pub use crate::flapjack_stack::flapjack::{Comment, Directive};
use crate::flapjack_stack::flapjack::{log_text, Command, FlapJack, Record};
use crate::format::{
    is_comment_line, lemma_bare_prefix_len_is, lemma_parse_fails_later, parse_line, parse_lines,
    retained_lines, split_lines, tokens, without_blank_lines, without_carriage_returns,
    without_quotes, without_whitespace, ParseErrorView,
};
use crate::text::{chars_of, string_of_range};
use vstd::prelude::*;

verus! {

/// One record of a log: either a directive or a comment.
pub type Flap = FlapJack;

/// The canonical text of a sequence of records.
pub fn serialize_flaps(flaps: &Vec<FlapJack>) -> (serialized: String)
    ensures
        serialized@ == log_text(flaps.deep_view()),
{
    let ghost records = flaps.deep_view();
    let mut serialized = String::new();
    let mut i: usize = 0;
    assert(records.take(0) == Seq::<Record>::empty());
    while i < flaps.len()
        invariant
            i <= flaps.len(),
            records == flaps.deep_view(),
            serialized@ == log_text(records.take(i as int)),
        decreases flaps.len() - i,
    {
        proof {
            let next = records.take(i + 1);
            assert(next.drop_last() == records.take(i as int));
            assert(next.last() == flaps[i as int]@);
            assert(Seq::<char>::empty() + next.last().text() == next.last().text());
        }
        // a line feed stands between two lines, and none after the last
        if i > 0 {
            serialized.push('\n');
        }
        let line = flaps[i].serialize();
        serialized.append(line.as_str());
        i += 1;
    }
    assert(records.take(flaps.len() as int) == records);
    serialized
}

/// A sequence of records, each a directive or a comment, in their order.
#[derive(Debug)]
pub struct FlapSequence {
    pub flaps: Vec<Flap>,
}

impl FlapSequence {
    /// The records of the log.
    pub open spec fn records(&self) -> Seq<Record> {
        self.flaps.deep_view()
    }

    /// The canonical text of the log.
    pub fn serialize(&self) -> (serialized: String)
        ensures
            serialized@ == log_text(self.records()),
    {
        serialize_flaps(&self.flaps)
    }
}

/// A builder of a log from its text. It takes the raw text, drops carriage
/// returns, splits the text into lines, keeps those that carry a record and
/// reads each as a comment or a directive.
#[derive(Debug)]
pub struct FlapSequenceBuilder {
    lines: Vec<String>,
}

impl FlapSequenceBuilder {
    /// The lines that the builder still holds.
    pub closed spec fn lines(&self) -> Seq<Seq<char>> {
        self.lines.deep_view()
    }

    /// A builder that holds the lines of `raw_log` that carry a record.
    pub fn new(raw_log: &str) -> (builder: Self)
        ensures
            builder.lines() == retained_lines(raw_log@),
    {
        let lines = Self::split_and_clean_raw_log(raw_log);
        Self { lines }
    }

    /// Builds the log that the lines stand for, or reports the first line
    /// that is no record. The builder is left without lines.
    pub fn build(&mut self) -> (r: Result<FlapSequence, ParseError>)
        ensures
            final(self).lines() == Seq::<Seq<char>>::empty(),
            match parse_lines(old(self).lines()) {
                Ok(records) => r matches Ok(sequence) && sequence.records() == records,
                Err(e) => r matches Err(error) && error@ == e,
            },
    {
        let mut lines: Vec<String> = Vec::new();
        core::mem::swap(&mut self.lines, &mut lines);
        assert(self.lines.deep_view() == Seq::<Seq<char>>::empty());
        let ghost all = lines.deep_view();
        let mut flaps: Vec<Flap> = Vec::new();
        let mut i: usize = 0;
        assert(all.take(0) == Seq::<Seq<char>>::empty());
        assert(flaps.deep_view() == Seq::<Record>::empty());
        while i < lines.len()
            invariant
                i <= lines.len(),
                all == lines.deep_view(),
                all == old(self).lines(),
                self.lines() == Seq::<Seq<char>>::empty(),
                parse_lines(all.take(i as int)) == Ok::<Seq<Record>, ParseErrorView>(
                    flaps.deep_view(),
                ),
            decreases lines.len() - i,
        {
            proof {
                let next = all.take(i + 1);
                assert(next.drop_last() == all.take(i as int));
                assert(next.last() == lines[i as int]@);
            }
            let ghost parsed = flaps.deep_view();
            match Self::parse_line(lines[i].clone()) {
                Ok(flap) => {
                    flaps.push(flap);
                    assert(flaps.deep_view() == parsed.push(flap@));
                },
                Err(error) => {
                    proof {
                        lemma_parse_fails_later(all, i + 1);
                    }
                    return Err(error);
                },
            }
            i += 1;
        }
        assert(all.take(lines.len() as int) == all);
        Ok(FlapSequence { flaps })
    }

    /// Decides whether the first character of `line` that is not whitespace
    /// is `#`.
    pub fn is_comment(line: &str) -> (r: bool)
        ensures
            r == is_comment_line(line@),
    {
        let chars = chars_of(line);
        let mut i: usize = 0;
        while i < chars.len() && char_is_whitespace(chars[i])
            invariant
                i <= chars.len(),
                chars@ == line@,
                is_blank(line@.take(i as int)),
            decreases chars.len() - i,
        {
            i += 1;
            assert forall|k: int| 0 <= k < i implies is_whitespace(
                #[trigger] line@.take(i as int)[k],
            ) by {
                if k < i - 1 {
                    assert(is_whitespace(line@.take(i - 1)[k]));
                }
            }
        }
        proof {
            if is_comment_line(line@) {
                let k = choose|k: int|
                    0 <= k < line@.len() && #[trigger] line@[k] == '#' && is_blank(line@.take(k));
                if k < i {
                    assert(is_whitespace(line@.take(i as int)[k]));
                }
                if i < k {
                    assert(is_whitespace(line@.take(k)[i as int]));
                }
            }
        }
        i < chars.len() && chars[i] == '#'
    }

    /// The record that a line stands for.
    pub fn parse_line(line: String) -> (r: Result<Flap, ParseError>)
        ensures
            match parse_line(line@) {
                Ok(record) => r matches Ok(flap) && flap@ == record,
                Err(e) => r matches Err(error) && error@ == e,
            },
    {
        if Self::is_comment(line.as_str()) {
            return Ok(FlapJack::Comment(Comment::new(line)));
        }
        let mut split = Self::split_and_clean_line(line.as_str());
        if split.len() == 0 {
            return Err(ParseError::MalformedLine(line));
        }
        let ghost toks = split.deep_view();
        let keyword = split.remove(0);
        assert(split.deep_view() == toks.skip(1));
        assert(keyword@ == toks[0]);
        match Command::from_keyword(&keyword) {
            Some(command) => Ok(FlapJack::Directive(Directive { command, params: split })),
            None => Err(ParseError::UnrecognizedCommand(keyword)),
        }
    }

    /// The tokens of a line.
    pub fn split_and_clean_line(line: &str) -> (split: Vec<String>)
        ensures
            split.deep_view() == tokens(line@),
    {
        let chars = chars_of(line);
        let n = chars.len();
        let mut split: Vec<String> = Vec::new();
        let mut i: usize = 0;
        assert(chars@.skip(0) == chars@);
        while i < n
            invariant
                n == chars.len(),
                i <= n,
                chars@ == line@,
                tokens(line@) == split.deep_view() + tokens(chars@.skip(i as int)),
            decreases n - i,
        {
            let ghost here = chars@.skip(i as int);
            let ghost done = split.deep_view();
            let c = chars[i];
            assert(here[0] == c);
            assert(here.skip(1) == chars@.skip(i + 1));
            if char_is_whitespace(c) {
                i += 1;
            } else if char_is_quote(c) {
                let ghost rest = here.skip(1);
                let mut j: usize = i + 1;
                while j < n && chars[j] != c
                    invariant
                        n == chars.len(),
                        i < j <= n,
                        rest == chars@.skip(i + 1),
                        forall|m: int| 0 <= m < j - (i + 1) ==> rest[m] != c,
                    decreases n - j,
                {
                    j += 1;
                }
                proof {
                    lemma_first_index_of_is(rest, c, j - (i + 1));
                }
                if j < n {
                    let token = Self::unquoted(&chars, i + 1, j);
                    proof {
                        assert(rest.take(j - (i + 1)) == chars@.subrange(i + 1, j as int));
                        assert(rest.skip(j - (i + 1) + 1) == chars@.skip(j + 1));
                        assert(split.deep_view().push(token@) == done + seq![token@]);
                    }
                    split.push(token);
                    proof {
                        assert(split.deep_view() == done.push(token@));
                    }
                    i = j + 1;
                } else {
                    i += 1;
                }
            } else {
                let mut j: usize = i + 1;
                while j < n && !char_is_whitespace(chars[j]) && !char_is_quote(chars[j])
                    invariant
                        n == chars.len(),
                        i < j <= n,
                        here == chars@.skip(i as int),
                        forall|m: int| 0 <= m < j - i ==> is_bare(here[m]),
                    decreases n - j,
                {
                    j += 1;
                }
                proof {
                    lemma_bare_prefix_len_is(here, j - i);
                    assert(here.take(j - i) == chars@.subrange(i as int, j as int));
                    assert(here.skip(j - i) == chars@.skip(j as int));
                }
                let token = string_of_range(&chars, i, j);
                split.push(token);
                proof {
                    assert(split.deep_view() == done.push(token@));
                }
                i = j;
            }
        }
        split
    }

    /// The characters `chars[from..to]` that are no quote characters.
    fn unquoted(chars: &Vec<char>, from: usize, to: usize) -> (s: String)
        requires
            from <= to <= chars.len(),
        ensures
            s@ == without_quotes(chars@.subrange(from as int, to as int)),
    {
        let mut s = String::new();
        let mut i: usize = from;
        assert(chars@.subrange(from as int, from as int) == Seq::<char>::empty());
        while i < to
            invariant
                from <= i <= to <= chars.len(),
                s@ == without_quotes(chars@.subrange(from as int, i as int)),
            decreases to - i,
        {
            proof {
                let before = chars@.subrange(from as int, i as int);
                assert(chars@.subrange(from as int, i + 1) == before.push(chars@[i as int]));
                before.lemma_filter_push(chars@[i as int], |c: char| !is_quote(c));
            }
            if !char_is_quote(chars[i]) {
                s.push(chars[i]);
            }
            i += 1;
        }
        s
    }

    /// The lines of a text that carry a record.
    pub fn split_and_clean_raw_log(raw_log: &str) -> (cleaned: Vec<String>)
        ensures
            cleaned.deep_view() == retained_lines(raw_log@),
    {
        let no_carriage_returns = Self::remove_carriage_returns(raw_log);
        let chars = chars_of(no_carriage_returns.as_str());
        let n = chars.len();
        let mut cleaned: Vec<String> = Vec::new();
        let mut start: usize = 0;
        let mut i: usize = 0;
        proof {
            assert(chars@.take(0) == Seq::<char>::empty());
            assert(chars@.subrange(0, 0) == Seq::<char>::empty());
            reveal(Seq::filter);
            assert(seq![Seq::<char>::empty()].drop_last() == Seq::<Seq<char>>::empty());
        }
        while i < n
            invariant
                n == chars.len(),
                start <= i <= n,
                split_lines(chars@.take(i as int)).len() >= 1,
                split_lines(chars@.take(i as int)).last() == chars@.subrange(
                    start as int,
                    i as int,
                ),
                cleaned.deep_view() == without_blank_lines(
                    split_lines(chars@.take(i as int)).drop_last(),
                ),
            decreases n - i,
        {
            let ghost before = split_lines(chars@.take(i as int));
            proof {
                assert(chars@.take(i + 1).drop_last() == chars@.take(i as int));
                assert(chars@.take(i + 1).last() == chars@[i as int]);
            }
            if chars[i] == '\n' {
                let line = string_of_range(&chars, start, i);
                proof {
                    let after = split_lines(chars@.take(i + 1));
                    assert(after == before.push(Seq::empty()));
                    assert(after.drop_last() == before);
                    assert(before == before.drop_last().push(line@));
                    before.drop_last().lemma_filter_push(
                        line@,
                        |line: Seq<char>| !is_blank(line),
                    );
                    assert(chars@.subrange(i + 1, i + 1) == Seq::<char>::empty());
                }
                if !Self::blank(&line) {
                    let ghost kept = cleaned.deep_view();
                    cleaned.push(line);
                    assert(cleaned.deep_view() == kept.push(line@));
                }
                start = i + 1;
            } else {
                proof {
                    let after = split_lines(chars@.take(i + 1));
                    assert(after == before.drop_last().push(before.last().push(chars@[i as int])));
                    assert(after.drop_last() == before.drop_last());
                    assert(chars@.subrange(start as int, i + 1) == chars@.subrange(
                        start as int,
                        i as int,
                    ).push(chars@[i as int]));
                }
            }
            i += 1;
        }
        let line = string_of_range(&chars, start, n);
        proof {
            assert(chars@.take(n as int) == chars@);
            let all = split_lines(chars@);
            assert(all == all.drop_last().push(line@));
            all.drop_last().lemma_filter_push(line@, |line: Seq<char>| !is_blank(line));
        }
        if !Self::blank(&line) {
            let ghost kept = cleaned.deep_view();
            cleaned.push(line);
            assert(cleaned.deep_view() == kept.push(line@));
        }
        cleaned
    }

    /// Decides whether a line holds nothing but whitespace.
    fn blank(line: &String) -> (r: bool)
        ensures
            r == is_blank(line@),
    {
        let squeezed = Self::remove_whitespace(line.as_str());
        proof {
            let keep = |c: char| !is_whitespace(c);
            broadcast use vstd::seq_lib::group_filter_ensures;
            if is_blank(line@) {
                if squeezed@.len() > 0 {
                    assert(keep(squeezed@[0]));
                    assert(line@.filter(keep).contains(squeezed@[0]));
                    line@.lemma_filter_contains_rev(keep, squeezed@[0]);
                    assert(false);
                }
            } else {
                let i = choose|i: int| 0 <= i < line@.len() && !is_whitespace(#[trigger] line@[i]);
                assert(keep(line@[i]));
                assert(line@.filter(keep).contains(line@[i]));
            }
        }
        squeezed.as_str().unicode_len() == 0
    }

    /// `s` without its carriage returns.
    pub fn remove_carriage_returns(s: &str) -> (cleaned: String)
        ensures
            cleaned@ == without_carriage_returns(s@),
    {
        let mut cleaned = String::new();
        proof {
            reveal(Seq::filter);
        }
        for c in it: s.chars()
            invariant
                it.seq() == s@,
                cleaned@ == without_carriage_returns(s@.take(it.index())),
        {
            proof {
                let before = s@.take(it.index());
                assert(s@.take(it.index() + 1) == before.push(c));
                before.lemma_filter_push(c, |c: char| c != '\r');
            }
            if c != '\r' {
                cleaned.push(c);
            }
        }
        proof {
            assert(s@.take(s@.len() as int) == s@);
        }
        cleaned
    }

    /// `s` without its whitespace.
    pub fn remove_whitespace(s: &str) -> (squeezed: String)
        ensures
            squeezed@ == without_whitespace(s@),
    {
        let mut squeezed = String::new();
        proof {
            reveal(Seq::filter);
        }
        for c in it: s.chars()
            invariant
                it.seq() == s@,
                squeezed@ == without_whitespace(s@.take(it.index())),
        {
            proof {
                let before = s@.take(it.index());
                assert(s@.take(it.index() + 1) == before.push(c));
                before.lemma_filter_push(c, |c: char| !is_whitespace(c));
            }
            if !char_is_whitespace(c) {
                squeezed.push(c);
            }
        }
        proof {
            assert(s@.take(s@.len() as int) == s@);
        }
        squeezed
    }
}

} // verus!
