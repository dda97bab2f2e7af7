//! What holds of a log that is written and read again.

use crate::chars::{
    has_whitespace, is_bare, is_blank, is_quote, is_whitespace, lemma_first_index_of_is,
};
use crate::flapjack_stack::flapjack::{
    lemma_keyword, log_text, param_text, params_text, Command, DirectiveView, Record,
};
use crate::format::{
    bare_prefix_len, is_comment_line, lemma_bare_prefix_len_is, load, parse_line, parse_lines,
    parse_log, retained_lines, split_lines, tokens, without_carriage_returns, without_quotes,
    ParseErrorView,
};
use crate::ledger::{apply_record, replay, Ledger};
use vstd::prelude::*;

verus! {

/// Whether `s` holds neither a line feed nor a carriage return.
pub open spec fn is_one_line(s: Seq<char>) -> bool {
    forall|i: int| 0 <= i < s.len() ==> #[trigger] s[i] != '\n' && s[i] != '\r'
}

/// Whether `s` holds no quote character.
pub open spec fn is_quote_free(s: Seq<char>) -> bool {
    forall|i: int| 0 <= i < s.len() ==> !is_quote(#[trigger] s[i])
}

/// A sequence whose elements all pass a filter is left as it is.
proof fn lemma_filter_keeps_all<A>(s: Seq<A>, pred: spec_fn(A) -> bool)
    requires
        forall|i: int| 0 <= i < s.len() ==> pred(#[trigger] s[i]),
    ensures
        s.filter(pred) == s,
    decreases s.len(),
{
    reveal(Seq::filter);
    if s.len() > 0 {
        lemma_filter_keeps_all(s.drop_last(), pred);
        assert(s.drop_last().push(s.last()) == s);
    }
}

/// What passes a filter was in the sequence and satisfies the predicate.
proof fn lemma_filter_elements<A>(s: Seq<A>, pred: spec_fn(A) -> bool)
    ensures
        forall|i: int|
            0 <= i < s.filter(pred).len() ==> pred(#[trigger] s.filter(pred)[i]) && s.contains(
                s.filter(pred)[i],
            ),
    decreases s.len(),
{
    reveal(Seq::filter);
    if s.len() > 0 {
        let rest = s.drop_last();
        lemma_filter_elements(rest, pred);
        assert forall|i: int| 0 <= i < s.filter(pred).len() implies pred(
            #[trigger] s.filter(pred)[i],
        ) && s.contains(s.filter(pred)[i]) by {
            if i < rest.filter(pred).len() {
                let x = rest.filter(pred)[i];
                assert(rest.contains(x));
                let k = choose|k: int| 0 <= k < rest.len() && rest[k] == x;
                assert(s[k] == x);
            } else {
                assert(s[s.len() - 1] == s.last());
            }
        }
    }
}

/// The pieces of a text hold no line feed, and there is at least one.
proof fn lemma_split_lines_pieces(text: Seq<char>)
    ensures
        split_lines(text).len() >= 1,
        forall|i: int, k: int|
            0 <= i < split_lines(text).len() && 0 <= k < split_lines(text)[i].len()
                ==> #[trigger] split_lines(text)[i][k] != '\n',
        forall|i: int, k: int|
            0 <= i < split_lines(text).len() && 0 <= k < split_lines(text)[i].len()
                ==> text.contains(#[trigger] split_lines(text)[i][k]),
    decreases text.len(),
{
    if text.len() > 0 {
        let init = text.drop_last();
        lemma_split_lines_pieces(init);
        let before = split_lines(init);
        let after = split_lines(text);
        assert forall|i: int, k: int|
            0 <= i < after.len() && 0 <= k < after[i].len() implies #[trigger] after[i][k] != '\n'
            && text.contains(after[i][k]) by {
            if text.last() != '\n' && i == after.len() - 1 && k == after[i].len() - 1 {
                assert(text[text.len() - 1] == after[i][k]);
            } else {
                assert(after[i][k] == before[i][k]);
                let x = before[i][k];
                assert(init.contains(x));
                let m = choose|m: int| 0 <= m < init.len() && init[m] == x;
                assert(text[m] == x);
            }
        }
    }
}

/// A text without line feeds is one piece.
proof fn lemma_split_lines_single(line: Seq<char>)
    requires
        forall|i: int| 0 <= i < line.len() ==> #[trigger] line[i] != '\n',
    ensures
        split_lines(line) == seq![line],
    decreases line.len(),
{
    if line.len() > 0 {
        let init = line.drop_last();
        lemma_split_lines_single(init);
        assert(line[line.len() - 1] != '\n');
        assert(seq![init].last() == init);
        assert(seq![init].drop_last().push(init.push(line.last())) == seq![line]) by {
            assert(init.push(line.last()) == line);
        }
    } else {
        assert(line == Seq::<char>::empty());
    }
}

/// Splitting distributes over a line feed.
proof fn lemma_split_lines_join(a: Seq<char>, b: Seq<char>)
    ensures
        split_lines(a + seq!['\n'] + b) == split_lines(a) + split_lines(b),
    decreases b.len(),
{
    let whole = a + seq!['\n'] + b;
    if b.len() == 0 {
        assert(whole.drop_last() == a);
        assert(split_lines(a).push(Seq::empty()) == split_lines(a) + seq![Seq::<char>::empty()]);
    } else {
        let init = b.drop_last();
        lemma_split_lines_join(a, init);
        lemma_split_lines_pieces(init);
        lemma_split_lines_pieces(a);
        assert(whole.drop_last() == a + seq!['\n'] + init);
        assert(whole.last() == b.last());
        let left = split_lines(a);
        let right = split_lines(init);
        if b.last() == '\n' {
            assert((left + right).push(Seq::empty()) == left + right.push(Seq::empty()));
        } else {
            assert((left + right).drop_last() == left + right.drop_last());
            assert((left + right).last() == right.last());
            assert((left + right.drop_last()).push(right.last().push(b.last())) == left
                + right.drop_last().push(right.last().push(b.last())));
        }
    }
}

/// The canonical lines of the records, in order.
pub open spec fn lines_of(records: Seq<Record>) -> Seq<Seq<char>> {
    Seq::new(records.len(), |i: int| records[i].text())
}

/// The text of a log whose lines hold no line break holds no carriage
/// return, and its pieces are the lines.
proof fn lemma_log_text_lines(records: Seq<Record>)
    requires
        forall|i: int| 0 <= i < records.len() ==> is_one_line(#[trigger] records[i].text()),
    ensures
        forall|k: int| 0 <= k < log_text(records).len() ==> #[trigger] log_text(records)[k] != '\r',
        records.len() > 0 ==> split_lines(log_text(records)) == lines_of(records),
        records.len() == 0 ==> split_lines(log_text(records)) == seq![Seq::<char>::empty()],
    decreases records.len(),
{
    if records.len() == 1 {
        let line = records[0].text();
        assert(is_one_line(line));
        lemma_split_lines_single(line);
        assert(lines_of(records) == seq![line]);
    } else if records.len() > 1 {
        let init = records.drop_last();
        let line = records.last().text();
        assert forall|i: int| 0 <= i < init.len() implies is_one_line(
            #[trigger] init[i].text(),
        ) by {
            assert(init[i] == records[i]);
        }
        lemma_log_text_lines(init);
        assert(records[records.len() - 1] == records.last());
        assert(is_one_line(line));
        lemma_split_lines_join(log_text(init), line);
        lemma_split_lines_single(line);
        assert(lines_of(init) + seq![line] == lines_of(records));
    }
}

/// The retained lines of the text of a log are the lines of its records,
/// where these hold no line break and are not blank.
proof fn lemma_retained_lines_of_log_text(records: Seq<Record>)
    requires
        forall|i: int| 0 <= i < records.len() ==> is_one_line(#[trigger] records[i].text()),
        forall|i: int| 0 <= i < records.len() ==> !is_blank(#[trigger] records[i].text()),
    ensures
        retained_lines(log_text(records)) == lines_of(records),
{
    let text = log_text(records);
    lemma_log_text_lines(records);
    lemma_filter_keeps_all(text, |c: char| c != '\r');
    let keep = |line: Seq<char>| !is_blank(line);
    if records.len() == 0 {
        reveal_with_fuel(Seq::filter, 2);
        let only = seq![Seq::<char>::empty()];
        assert(only.drop_last().len() == 0);
        assert(is_blank(only.last()));
        assert(only.filter(keep) == Seq::<Seq<char>>::empty());
        assert(lines_of(records) == Seq::<Seq<char>>::empty());
    } else {
        assert forall|i: int| 0 <= i < lines_of(records).len() implies keep(
            #[trigger] lines_of(records)[i],
        ) by {
            assert(!is_blank(records[i].text()));
        }
        lemma_filter_keeps_all(lines_of(records), keep);
    }
}

/// The parameters that are not empty, in order.
pub open spec fn without_empty(params: Seq<Seq<char>>) -> Seq<Seq<char>> {
    params.filter(|param: Seq<char>| param.len() > 0)
}

/// The text of a parameter list, read from its first parameter.
proof fn lemma_params_text_front(param: Seq<char>, rest: Seq<Seq<char>>)
    ensures
        params_text(seq![param] + rest) == seq![' '] + param_text(param) + params_text(rest),
    decreases rest.len(),
{
    let all = seq![param] + rest;
    if rest.len() == 0 {
        assert(all.drop_last() == Seq::<Seq<char>>::empty());
        assert(all.last() == param);
        assert(params_text(all.drop_last()) == Seq::<char>::empty());
        assert(params_text(all) == Seq::<char>::empty() + seq![' '] + param_text(param));
        assert(Seq::<char>::empty() + seq![' '] + param_text(param) == seq![' '] + param_text(
            param,
        ) + params_text(rest));
    } else {
        let init = rest.drop_last();
        assert(all.drop_last() == seq![param] + init);
        assert(all.last() == rest.last());
        lemma_params_text_front(param, init);
        assert((seq![' '] + param_text(param) + params_text(init)) + seq![' '] + param_text(
            rest.last(),
        ) == seq![' '] + param_text(param) + (params_text(init) + seq![' '] + param_text(
            rest.last(),
        )));
    }
}

/// A word of bare characters, followed by nothing or by a character that is
/// not bare, is one token.
proof fn lemma_tokens_bare(word: Seq<char>, rest: Seq<char>)
    requires
        word.len() > 0,
        forall|k: int| 0 <= k < word.len() ==> is_bare(#[trigger] word[k]),
        rest.len() > 0 ==> !is_bare(rest[0]),
    ensures
        tokens(word + rest) == seq![word] + tokens(rest),
{
    let line = word + rest;
    assert forall|k: int| 0 <= k < word.len() implies is_bare(line[k]) by {
        assert(is_bare(word[k]));
    }
    lemma_bare_prefix_len_is(line, word.len() as int);
    assert(is_bare(line[0]));
    assert(line.take(word.len() as int) == word);
    assert(line.skip(word.len() as int) == rest);
}

/// A run between double quotes that holds none is one token: the run
/// without its quote characters.
proof fn lemma_tokens_quoted(inner: Seq<char>, rest: Seq<char>)
    requires
        forall|k: int| 0 <= k < inner.len() ==> #[trigger] inner[k] != '"',
    ensures
        tokens(seq!['"'] + inner + seq!['"'] + rest) == seq![without_quotes(inner)] + tokens(rest),
{
    let line = seq!['"'] + inner + seq!['"'] + rest;
    let after = line.skip(1);
    assert(line[0] == '"');
    assert(after == inner + seq!['"'] + rest);
    assert forall|k: int| 0 <= k < inner.len() implies after[k] != '"' by {
        assert(after[k] == inner[k]);
    }
    assert(after[inner.len() as int] == '"');
    lemma_first_index_of_is(after, '"', inner.len() as int);
    assert(after.take(inner.len() as int) == inner);
    assert(after.skip(inner.len() as int + 1) == rest);
}

/// The tokens of the text of a parameter list are the parameters that are
/// not empty, where no parameter holds a quote character.
proof fn lemma_tokens_of_params(params: Seq<Seq<char>>)
    requires
        forall|i: int| 0 <= i < params.len() ==> is_quote_free(#[trigger] params[i]),
    ensures
        tokens(params_text(params)) == without_empty(params),
        params_text(params).len() > 0 ==> params_text(params)[0] == ' ',
    decreases params.len(),
{
    let keep = |param: Seq<char>| param.len() > 0;
    if params.len() == 0 {
        reveal(Seq::filter);
        assert(params.filter(keep) == Seq::<Seq<char>>::empty());
    } else {
        let param = params[0];
        let rest = params.skip(1);
        assert(params == seq![param] + rest);
        assert forall|i: int| 0 <= i < rest.len() implies is_quote_free(#[trigger] rest[i]) by {
            assert(rest[i] == params[i + 1]);
        }
        lemma_tokens_of_params(rest);
        lemma_params_text_front(param, rest);
        let tail = params_text(rest);
        let text = params_text(params);
        assert(text == seq![' '] + param_text(param) + tail);
        assert(text[0] == ' ');
        assert(text.skip(1) == param_text(param) + tail);
        assert(tokens(text) == tokens(param_text(param) + tail));
        // the parameters that are kept
        assert(params.filter(keep) == seq![param].filter(keep) + rest.filter(keep)) by {
            Seq::filter_distributes_over_add(seq![param], rest, keep);
        }
        assert(seq![param].filter(keep) == if param.len() > 0 {
            seq![param]
        } else {
            Seq::<Seq<char>>::empty()
        }) by {
            reveal_with_fuel(Seq::filter, 2);
            assert(seq![param].drop_last().len() == 0);
            assert(seq![param].last() == param);
            assert(Seq::<Seq<char>>::empty().push(param) == seq![param]);
        }
        assert(is_quote_free(param));
        if has_whitespace(param) {
            assert forall|k: int| 0 <= k < param.len() implies #[trigger] param[k] != '"' by {
                assert(!is_quote(param[k]));
            }
            lemma_tokens_quoted(param, tail);
            lemma_filter_keeps_all(param, |c: char| !is_quote(c));
            assert(tail.len() > 0 ==> !is_bare(tail[0]));
        } else if param.len() > 0 {
            assert forall|k: int| 0 <= k < param.len() implies is_bare(#[trigger] param[k]) by {
                assert(!is_quote(param[k]));
            }
            lemma_tokens_bare(param, tail);
        } else {
            assert(param_text(param) + tail == tail);
            assert(Seq::<Seq<char>>::empty() + rest.filter(keep) == rest.filter(keep));
        }
    }
}

/// What every record that was read from a text satisfies: a comment is one
/// line that starts, after whitespace, with `#`; the parameters of a
/// directive hold neither quote characters nor line breaks.
pub open spec fn is_plain(record: Record) -> bool {
    match record {
        Record::Comment(text) => is_one_line(text) && is_comment_line(text),
        Record::Directive(directive) => forall|i: int|
            0 <= i < directive.params.len() ==> is_quote_free(#[trigger] directive.params[i])
                && is_one_line(directive.params[i]),
    }
}

/// The record as it is read from its own text: a directive loses its empty
/// parameters, since nothing stands for them in the text.
pub open spec fn as_written(record: Record) -> Record {
    match record {
        Record::Comment(text) => Record::Comment(text),
        Record::Directive(directive) => Record::Directive(
            DirectiveView { command: directive.command, params: without_empty(directive.params) },
        ),
    }
}

/// The records as they are read from their own text.
pub open spec fn log_as_written(records: Seq<Record>) -> Seq<Record> {
    Seq::new(records.len(), |i: int| as_written(records[i]))
}

/// The text of a parameter list holds no line break where no parameter
/// does.
proof fn lemma_params_text_one_line(params: Seq<Seq<char>>)
    requires
        forall|i: int| 0 <= i < params.len() ==> is_one_line(#[trigger] params[i]),
    ensures
        is_one_line(params_text(params)),
    decreases params.len(),
{
    if params.len() > 0 {
        let init = params.drop_last();
        assert forall|i: int| 0 <= i < init.len() implies is_one_line(#[trigger] init[i]) by {
            assert(init[i] == params[i]);
        }
        lemma_params_text_one_line(init);
        let last = params.last();
        assert(params[params.len() - 1] == last);
        assert(is_one_line(last));
        let head = params_text(init) + seq![' '];
        let text = params_text(params);
        assert forall|k: int| 0 <= k < text.len() implies #[trigger] text[k] != '\n' && text[k]
            != '\r' by {
            if k < params_text(init).len() {
                assert(text[k] == params_text(init)[k]);
            } else if k >= head.len() {
                let m = k - head.len();
                if has_whitespace(last) {
                    if 0 < m <= last.len() {
                        assert(text[k] == last[m - 1]);
                    }
                } else {
                    assert(text[k] == last[m]);
                }
            }
        }
    }
}

/// The text of a plain record is one line that is not blank, and reads
/// back as the record without its empty parameters.
proof fn lemma_record_text(record: Record)
    requires
        is_plain(record),
    ensures
        is_one_line(record.text()),
        !is_blank(record.text()),
        parse_line(record.text()) == Ok::<Record, ParseErrorView>(
            as_written(record),
        ),
{
    match record {
        Record::Comment(text) => {
            let i = choose|i: int|
                0 <= i < text.len() && #[trigger] text[i] == '#' && is_blank(text.take(i));
            assert(!is_whitespace(text[i]));
        },
        Record::Directive(directive) => {
            let keyword = directive.command.keyword();
            let tail = params_text(directive.params);
            let text = record.text();
            lemma_keyword(directive.command);
            lemma_params_text_one_line(directive.params);
            lemma_tokens_of_params(directive.params);
            assert(text == keyword + tail);
            assert forall|k: int| 0 <= k < keyword.len() implies is_bare(#[trigger] keyword[k])
                && keyword[k] != '\n' && keyword[k] != '\r' by {
                assert('A' <= keyword[k] <= 'Z');
            }
            assert forall|k: int| 0 <= k < text.len() implies #[trigger] text[k] != '\n' && text[k]
                != '\r' by {
                if k < keyword.len() {
                    assert(text[k] == keyword[k]);
                } else {
                    assert(text[k] == tail[k - keyword.len()]);
                }
            }
            assert(text[0] == keyword[0]);
            assert(!is_whitespace(text[0]));
            assert(!is_comment_line(text)) by {
                if is_comment_line(text) {
                    let i = choose|i: int|
                        0 <= i < text.len() && #[trigger] text[i] == '#' && is_blank(text.take(i));
                    if i > 0 {
                        assert(is_whitespace(text.take(i)[0]));
                    }
                }
            }
            assert(tail.len() > 0 ==> !is_bare(tail[0]));
            lemma_tokens_bare(keyword, tail);
            let toks = tokens(text);
            assert(toks == seq![keyword] + without_empty(directive.params));
            assert(toks[0] == keyword);
            assert(toks.skip(1) == without_empty(directive.params));
        },
    }
}

/// The lines of plain records read back as the records without their empty
/// parameters.
proof fn lemma_parse_lines_of_plain(records: Seq<Record>)
    requires
        forall|i: int| 0 <= i < records.len() ==> is_plain(#[trigger] records[i]),
    ensures
        parse_lines(lines_of(records)) == Ok::<Seq<Record>, ParseErrorView>(
            log_as_written(records),
        ),
    decreases records.len(),
{
    if records.len() == 0 {
        assert(log_as_written(records) == Seq::<Record>::empty());
    } else {
        let init = records.drop_last();
        assert forall|i: int| 0 <= i < init.len() implies is_plain(#[trigger] init[i]) by {
            assert(init[i] == records[i]);
        }
        lemma_parse_lines_of_plain(init);
        assert(records[records.len() - 1] == records.last());
        lemma_record_text(records.last());
        assert(lines_of(records).drop_last() == lines_of(init));
        assert(lines_of(records).last() == records.last().text());
        assert(log_as_written(init).push(as_written(records.last())) == log_as_written(records));
    }
}

/// The first characters of a line, as far as its bare prefix goes, are bare.
proof fn lemma_bare_prefix(s: Seq<char>)
    ensures
        bare_prefix_len(s) <= s.len(),
        forall|k: int| 0 <= k < bare_prefix_len(s) ==> is_bare(#[trigger] s[k]),
    decreases s.len(),
{
    if s.len() != 0 && is_bare(s[0]) {
        let rest = s.skip(1);
        lemma_bare_prefix(rest);
        assert forall|k: int| 0 <= k < bare_prefix_len(s) implies is_bare(#[trigger] s[k]) by {
            if k > 0 {
                assert(s[k] == rest[k - 1]);
            }
        }
    }
}

/// The tokens of a line without line breaks hold neither quote characters
/// nor line breaks.
proof fn lemma_tokens_are_plain(line: Seq<char>)
    requires
        is_one_line(line),
    ensures
        forall|i: int|
            0 <= i < tokens(line).len() ==> is_quote_free(#[trigger] tokens(line)[i])
                && is_one_line(tokens(line)[i]),
    decreases line.len(),
{
    if line.len() == 0 {
        assert(tokens(line).len() == 0);
    } else if is_whitespace(line[0]) {
        let rest = line.skip(1);
        assert forall|k: int| 0 <= k < rest.len() implies #[trigger] rest[k] != '\n' && rest[k]
            != '\r' by {
            assert(rest[k] == line[k + 1]);
        }
        lemma_tokens_are_plain(rest);
        assert(tokens(line) == tokens(rest));
    } else if is_quote(line[0]) {
        let rest = line.skip(1);
        assert forall|k: int| 0 <= k < rest.len() implies #[trigger] rest[k] != '\n' && rest[k]
            != '\r' by {
            assert(rest[k] == line[k + 1]);
        }
        let close = crate::chars::first_index_of(rest, line[0]) as int;
        if close < rest.len() {
            let inner = rest.take(close);
            let after = rest.skip(close + 1);
            assert forall|k: int| 0 <= k < after.len() implies #[trigger] after[k] != '\n'
                && after[k] != '\r' by {
                assert(after[k] == rest[k + close + 1]);
            }
            lemma_tokens_are_plain(after);
            let token = without_quotes(inner);
            lemma_filter_elements(inner, |c: char| !is_quote(c));
            assert forall|k: int| 0 <= k < token.len() implies !is_quote(#[trigger] token[k])
                && token[k] != '\n' && token[k] != '\r' by {
                assert(inner.contains(token[k]));
                let m = choose|m: int| 0 <= m < inner.len() && inner[m] == token[k];
                assert(inner[m] == rest[m]);
            }
            let toks = tokens(line);
            assert(toks == seq![token] + tokens(after));
            assert forall|i: int| 0 <= i < toks.len() implies is_quote_free(#[trigger] toks[i])
                && is_one_line(toks[i]) by {
                if i > 0 {
                    assert(toks[i] == tokens(after)[i - 1]);
                }
            }
        } else {
            lemma_tokens_are_plain(rest);
            assert(tokens(line) == tokens(rest));
        }
    } else {
        let n = bare_prefix_len(line) as int;
        lemma_bare_prefix(line);
        let word = line.take(n);
        let after = line.skip(n);
        assert forall|k: int| 0 <= k < after.len() implies #[trigger] after[k] != '\n' && after[k]
            != '\r' by {
            assert(after[k] == line[k + n]);
        }
        lemma_tokens_are_plain(after);
        assert forall|k: int| 0 <= k < word.len() implies !is_quote(#[trigger] word[k]) && word[k]
            != '\n' && word[k] != '\r' by {
            assert(word[k] == line[k]);
            assert(is_bare(line[k]));
        }
        let toks = tokens(line);
        assert(toks == seq![word] + tokens(after));
        assert forall|i: int| 0 <= i < toks.len() implies is_quote_free(#[trigger] toks[i])
            && is_one_line(toks[i]) by {
            if i > 0 {
                assert(toks[i] == tokens(after)[i - 1]);
            }
        }
    }
}

/// The records of lines without line breaks are plain.
proof fn lemma_parsed_is_plain(lines: Seq<Seq<char>>, records: Seq<Record>)
    requires
        forall|i: int| 0 <= i < lines.len() ==> is_one_line(#[trigger] lines[i]),
        parse_lines(lines) == Ok::<Seq<Record>, ParseErrorView>(records),
    ensures
        forall|i: int| 0 <= i < records.len() ==> is_plain(#[trigger] records[i]),
    decreases lines.len(),
{
    if lines.len() > 0 {
        let init = lines.drop_last();
        let line = lines.last();
        assert forall|i: int| 0 <= i < init.len() implies is_one_line(#[trigger] init[i]) by {
            assert(init[i] == lines[i]);
        }
        match (parse_lines(init), parse_line(line)) {
            (Ok(before), Ok(record)) => {
                lemma_parsed_is_plain(init, before);
                assert(lines[lines.len() - 1] == line);
                assert(is_one_line(line));
                lemma_tokens_are_plain(line);
                assert(is_plain(record)) by {
                    match record {
                        Record::Comment(_) => {},
                        Record::Directive(directive) => {
                            let toks = tokens(line);
                            assert forall|i: int|
                                0 <= i < directive.params.len() implies is_quote_free(
                                #[trigger] directive.params[i],
                            ) && is_one_line(directive.params[i]) by {
                                assert(directive.params[i] == toks[i + 1]);
                            }
                        },
                    }
                }
                assert(records == before.push(record));
                assert forall|i: int| 0 <= i < records.len() implies is_plain(
                    #[trigger] records[i],
                ) by {
                    if i < before.len() {
                        assert(records[i] == before[i]);
                    }
                }
            },
            _ => {},
        }
    }
}

/// The retained lines of a text hold no line break.
proof fn lemma_retained_lines_one_line(text: Seq<char>)
    ensures
        forall|i: int|
            0 <= i < retained_lines(text).len() ==> is_one_line(#[trigger] retained_lines(text)[i]),
{
    let bare = without_carriage_returns(text);
    let pieces = split_lines(bare);
    let kept = retained_lines(text);
    lemma_filter_elements(text, |c: char| c != '\r');
    lemma_split_lines_pieces(bare);
    lemma_filter_elements(pieces, |line: Seq<char>| !is_blank(line));
    assert forall|i: int| 0 <= i < kept.len() implies is_one_line(#[trigger] kept[i]) by {
        let line = kept[i];
        assert(pieces.contains(line));
        let j = choose|j: int| 0 <= j < pieces.len() && pieces[j] == line;
        assert forall|k: int| 0 <= k < line.len() implies #[trigger] line[k] != '\n' && line[k]
            != '\r' by {
            assert(pieces[j][k] != '\n');
            assert(bare.contains(pieces[j][k]));
            let m = choose|m: int| 0 <= m < bare.len() && bare[m] == line[k];
            assert(bare[m] != '\r');
        }
    }
}

/// The records of a log that was read from a text are plain.
pub proof fn lemma_parsed_log_is_plain(text: Seq<char>, records: Seq<Record>)
    requires
        parse_log(text) == Ok::<Seq<Record>, ParseErrorView>(records),
    ensures
        forall|i: int| 0 <= i < records.len() ==> is_plain(#[trigger] records[i]),
{
    lemma_retained_lines_one_line(text);
    lemma_parsed_is_plain(retained_lines(text), records);
}

/// A log of plain records, written and read again, is the log without the
/// empty parameters of its directives: nothing else is lost, and comments
/// are read as they were.
pub proof fn lemma_plain_log_reads_back(records: Seq<Record>)
    requires
        forall|i: int| 0 <= i < records.len() ==> is_plain(#[trigger] records[i]),
    ensures
        parse_log(log_text(records)) == Ok::<Seq<Record>, ParseErrorView>(
            log_as_written(records),
        ),
{
    assert forall|i: int| 0 <= i < records.len() implies is_one_line(
        #[trigger] records[i].text(),
    ) && !is_blank(records[i].text()) by {
        lemma_record_text(records[i]);
    }
    lemma_retained_lines_of_log_text(records);
    lemma_parse_lines_of_plain(records);
}

/// A log that was read from a text, written and read again, is the log
/// without the empty parameters of its directives.
pub proof fn lemma_written_log_reads_back(text: Seq<char>, records: Seq<Record>)
    requires
        parse_log(text) == Ok::<Seq<Record>, ParseErrorView>(records),
    ensures
        parse_log(log_text(records)) == Ok::<Seq<Record>, ParseErrorView>(
            log_as_written(records),
        ),
{
    lemma_parsed_log_is_plain(text, records);
    lemma_plain_log_reads_back(records);
}

/// Whether the parameters of the record that the ledger reads are not
/// empty: the name of the wallet and, for a directive with an amount, the
/// amount. A parameter that is not there is not read.
pub open spec fn reads_no_empty(record: Record) -> bool {
    match record {
        Record::Comment(_) => true,
        Record::Directive(directive) => {
            &&& directive.params.len() > 0 ==> directive.params[0].len() > 0
            &&& directive.params.len() > 1 && directive.command != Command::CREATE
                && directive.command != Command::DESTROY ==> directive.params[1].len() > 0
        },
    }
}

/// Taking out the empty parameters leaves the first `k` parameters as they
/// are, where these are not empty.
proof fn lemma_without_empty_prefix(params: Seq<Seq<char>>, k: int)
    requires
        0 <= k <= params.len(),
        forall|i: int| 0 <= i < k ==> (#[trigger] params[i]).len() > 0,
    ensures
        k <= without_empty(params).len() <= params.len(),
        forall|i: int| 0 <= i < k ==> #[trigger] without_empty(params)[i] == params[i],
{
    let keep = |param: Seq<char>| param.len() > 0;
    let head = params.take(k);
    let tail = params.skip(k);
    assert(params == head + tail);
    Seq::filter_distributes_over_add(head, tail, keep);
    lemma_filter_keeps_all(head, keep);
    tail.lemma_filter_len(keep);
    assert forall|i: int| 0 <= i < k implies #[trigger] without_empty(params)[i] == params[i] by {
        assert((head + tail.filter(keep))[i] == head[i]);
    }
}

/// A record does to a ledger what it does without its empty parameters,
/// where the ledger reads none of them.
proof fn lemma_apply_as_written(ledger: Ledger, record: Record)
    requires
        reads_no_empty(record),
    ensures
        apply_record(ledger, as_written(record)) == apply_record(ledger, record),
{
    match record {
        Record::Comment(_) => {},
        Record::Directive(directive) => {
            let params = directive.params;
            if params.len() == 0 {
                lemma_without_empty_prefix(params, 0);
            } else if params.len() == 1 || directive.command == Command::CREATE
                || directive.command == Command::DESTROY {
                lemma_without_empty_prefix(params, 1);
            } else {
                lemma_without_empty_prefix(params, 2);
            }
        },
    }
}

/// A log stands for the ledger that it stands for without the empty
/// parameters of its directives, where the ledger reads none of them.
proof fn lemma_replay_as_written(records: Seq<Record>)
    requires
        forall|i: int| 0 <= i < records.len() ==> reads_no_empty(#[trigger] records[i]),
    ensures
        replay(log_as_written(records)) == replay(records),
    decreases records.len(),
{
    if records.len() == 0 {
        assert(log_as_written(records) == records);
    } else {
        let init = records.drop_last();
        assert forall|i: int| 0 <= i < init.len() implies reads_no_empty(#[trigger] init[i]) by {
            assert(init[i] == records[i]);
        }
        lemma_replay_as_written(init);
        assert(records[records.len() - 1] == records.last());
        assert(log_as_written(records).drop_last() == log_as_written(init));
        assert(log_as_written(records).last() == as_written(records.last()));
        match replay(init) {
            Ok(ledger) => {
                lemma_apply_as_written(ledger, records.last());
            },
            Err(_) => {},
        }
    }
}

/// Writing a log that was read from a text and reading it again gives a log
/// that stands for the same ledger, or fails to stand for one with the same
/// error, wherever no directive has an empty parameter in a place that the
/// ledger reads. (A parameter is empty where the text has `""`: nothing stands
/// for it in the text that is written, so that the parameters after it move
/// up.)
pub proof fn lemma_round_trip_keeps_ledger(text: Seq<char>, records: Seq<Record>)
    requires
        parse_log(text) == Ok::<Seq<Record>, ParseErrorView>(records),
        forall|i: int| 0 <= i < records.len() ==> reads_no_empty(#[trigger] records[i]),
    ensures
        parse_log(log_text(records)) matches Ok(again) && replay(again) == replay(records),
        match (load(text), load(log_text(records))) {
            (Ok((_, ledger)), Ok((_, ledger_again))) => ledger_again == ledger,
            (Err(e), Err(e_again)) => e_again == e,
            _ => false,
        },
{
    lemma_written_log_reads_back(text, records);
    lemma_replay_as_written(records);
}

} // verus!
