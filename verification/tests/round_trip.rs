use flapjack::flapjack_stack::flapjack::{Command, Directive, FlapJack};
use flapjack::flapjack_stack::flapjack_stack_builder::FlapJackStackBuilder;
use regex::Regex;

fn balances(log: &str) -> Vec<(String, String)> {
    let stack = FlapJackStackBuilder::new(log, None).build().unwrap();
    stack
        .db
        .wallet_amounts
        .balances()
        .into_iter()
        .map(|(name, amount)| (name, amount.to_string()))
        .collect()
}

#[test]
fn a_log_that_is_written_and_read_again_has_the_same_ledger() {
    let log = "  # wallets\r\n\r\nCREATE 'Checking (Bank)' opened\nCREATE savings\n\
        INCREMENT \"Checking (Bank)\" 50 \"got paid\"\n\tINCREMENT   savings   7.25\n\
        DECREMENT savings .25 \"\" fee\nSET \"Checking (Bank)\" 100 'it''s'\nDESTROY nobody\n";
    let stack = FlapJackStackBuilder::new(log, None).build().unwrap();
    let written = stack.serialize();
    assert_eq!(balances(&written), balances(log));
    // the empty parameter of the fee is lost in writing, once
    let again = FlapJackStackBuilder::new(&written, None).build().unwrap();
    let written_again = again.serialize();
    assert_eq!(written_again, written.replace(".25  fee", ".25 fee"));
    assert_eq!(balances(&written_again), balances(log));
    let once_more = FlapJackStackBuilder::new(&written_again, None).build().unwrap();
    assert_eq!(once_more.serialize(), written_again);
    assert_eq!(once_more.flapjacks, again.flapjacks);
}

#[test]
fn an_empty_parameter_is_lost_in_writing() {
    let stack = FlapJackStackBuilder::new("CREATE a \"\" b", None).build().unwrap();
    assert_eq!(
        stack.flapjacks[0],
        FlapJack::Directive(Directive {
            command: Command::CREATE,
            params: vec!["a".to_owned(), "".to_owned(), "b".to_owned()],
        })
    );
    assert_eq!(stack.serialize(), "CREATE a  b");
    let again = FlapJackStackBuilder::new(&stack.serialize(), None).build().unwrap();
    assert_eq!(
        again.flapjacks[0],
        FlapJack::Directive(Directive {
            command: Command::CREATE,
            params: vec!["a".to_owned(), "b".to_owned()],
        })
    );
}

#[test]
fn comments_are_written_as_they_were_read() {
    let log = "   # a \"note\"  \n#\n#CREATE a";
    let stack = FlapJackStackBuilder::new(log, None).build().unwrap();
    assert_eq!(stack.serialize(), log);
}

fn token_pattern() -> Regex {
    Regex::new(r#"[^\s"']+|"([^"]*)"|'([^']*)'"#).unwrap()
}

fn tokens_by_pattern(re: &Regex, line: &str) -> Vec<String> {
    re.find_iter(line)
        .map(|chunk| {
            let text = chunk.as_str();
            let inner = if text.len() >= 2 && (text.starts_with('"') || text.starts_with('\'')) {
                &text[1..text.len() - 1]
            } else {
                text
            };
            inner.chars().filter(|c| *c != '"' && *c != '\'').collect()
        })
        .collect()
}

#[test]
fn the_tokens_are_those_of_the_token_pattern() {
    let re = token_pattern();
    for line in [
        "CREATE account \"Checking (Bank)\"",
        "  INCREMENT\tchecking-bank 46.70   \"got paid\"  ",
        "a\"b c\"d 'e f' g\"h",
        "\"\" '' \"'\" '\"'",
        "it's a 'quoted \"run\"' and a stray \" quote",
        "x\u{a0}y\u{2003}z \u{85} w",
        "'unterminated \"also unterminated",
        "",
        "   ",
    ] {
        assert_eq!(
            FlapJackStackBuilder::split_and_clean_line(line),
            tokens_by_pattern(&re, line),
            "{:?}",
            line
        );
    }
}

/// A small generator of numbers: the same numbers on every run.
fn next(state: &mut u64) -> u64 {
    *state = state.wrapping_mul(6364136223846793005).wrapping_add(1442695040888963407);
    *state >> 33
}

fn some_line(state: &mut u64, alphabet: &[char]) -> String {
    let len = next(state) % 24;
    (0..len).map(|_| alphabet[(next(state) % alphabet.len() as u64) as usize]).collect()
}

#[test]
fn the_tokens_are_those_of_the_token_pattern_on_many_lines() {
    let alphabet = ['a', 'b', '#', ' ', ' ', '\t', '"', '"', '\'', '\u{a0}', 'é', '.'];
    let re = token_pattern();
    let mut state = 17;
    for _ in 0..2000 {
        let line = some_line(&mut state, &alphabet);
        assert_eq!(
            FlapJackStackBuilder::split_and_clean_line(&line),
            tokens_by_pattern(&re, &line),
            "{:?}",
            line
        );
    }
}

#[test]
fn a_written_log_is_read_as_it_was_written_on_many_logs() {
    let alphabet = ['a', 'b', '#', ' ', '\t', '"', '\'', '\n', '\r', '1', '.', '\u{2003}'];
    let keywords = ["CREATE ", "INCREMENT ", "SET ", "DESTROY ", "DECREMENT ", "# ", "  "];
    let mut state = 5;
    let mut read = 0;
    for _ in 0..5000 {
        let mut log = String::new();
        for _ in 0..(next(&mut state) % 5) {
            log.push_str(keywords[(next(&mut state) % keywords.len() as u64) as usize]);
            log.push_str(&some_line(&mut state, &alphabet));
            log.push('\n');
        }
        let first = match flapjack::flap_sequence::FlapSequenceBuilder::new(&log).build() {
            Ok(sequence) => sequence,
            Err(_) => continue,
        };
        read += 1;
        let written = first.serialize();
        let second = flapjack::flap_sequence::FlapSequenceBuilder::new(&written).build().unwrap();
        assert_eq!(second.flaps.len(), first.flaps.len(), "{:?}", log);
        for (before, after) in first.flaps.iter().zip(second.flaps.iter()) {
            match (before, after) {
                (FlapJack::Comment(before), FlapJack::Comment(after)) => assert_eq!(before, after),
                (FlapJack::Directive(before), FlapJack::Directive(after)) => {
                    assert_eq!(before.command, after.command);
                    let kept: Vec<String> =
                        before.params.iter().filter(|p| !p.is_empty()).cloned().collect();
                    assert_eq!(kept, after.params, "{:?}", log);
                }
                _ => panic!("a record changed its kind: {:?}", log),
            }
        }
        // without empty parameters, what is written is read as it was written
        let written_again = second.serialize();
        let third = flapjack::flap_sequence::FlapSequenceBuilder::new(&written_again)
            .build()
            .unwrap();
        assert_eq!(third.flaps, second.flaps, "{:?}", log);
        assert_eq!(third.serialize(), written_again);
    }
    assert!(read > 1000);
}
