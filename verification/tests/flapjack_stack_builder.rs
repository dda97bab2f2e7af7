use flapjack::error::{LoadError, ParseError};
use flapjack::flapjack_stack::flapjack::{Command, Comment, Directive, FlapJack};
use flapjack::flap_sequence::FlapSequenceBuilder;
use flapjack::flapjack_stack::flapjack_stack_builder::FlapJackStackBuilder;

#[test]
fn flapjack_stack_builder_test_for_carriage_return_discrimination() {
    let log_with_carriage_returns = "# the program will register this line a comment\r
        CREATE account \"Checking (Bank)\"\r
        CREATE account \"Savings (Bank)\"\r";

    let log_without_carriage_returns = "# the program will register this line a comment
        CREATE account \"Checking (Bank)\"
        CREATE account \"Savings (Bank)\"";

    let parsed_carriage =
        FlapJackStackBuilder::split_and_clean_raw_log(log_with_carriage_returns);

    let parsed_no_carriage =
        FlapJackStackBuilder::split_and_clean_raw_log(log_without_carriage_returns);

    assert_eq!(parsed_carriage, parsed_no_carriage);
}

#[test]
fn flapjack_stack_builder_test_builder() {
    let log = "# the program will register this line a comment
            CREATE account \"Checking (Bank)\"
            CREATE account \"Savings (Bank)\"";

    let stack = FlapJackStackBuilder::new(log, None).build().unwrap();

    assert_eq!(
        stack.flapjacks[0],
        FlapJack::Comment(Comment::new(
            "# the program will register this line a comment".to_owned()
        ))
    );

    assert_eq!(
        stack.flapjacks[1],
        FlapJack::Directive(Directive {
            command: Command::CREATE,
            params: vec!["account".to_owned(), "Checking (Bank)".to_owned()]
        })
    );

    assert_eq!(
        stack.flapjacks[2],
        FlapJack::Directive(Directive {
            command: Command::CREATE,
            params: vec!["account".to_owned(), "Savings (Bank)".to_owned()]
        })
    );
}

#[test]
fn retained_lines_keep_their_text() {
    let lines = FlapJackStackBuilder::split_and_clean_raw_log("a\r\n\n  \t \n  b c \r\n# d\n");
    assert_eq!(lines, vec!["a".to_owned(), "  b c ".to_owned(), "# d".to_owned()]);
}

#[test]
fn a_text_without_records_has_no_lines() {
    assert!(FlapJackStackBuilder::split_and_clean_raw_log("").is_empty());
    assert!(FlapJackStackBuilder::split_and_clean_raw_log("\n\r\n \u{a0}\u{2003}\n").is_empty());
}

#[test]
fn carriage_returns_are_removed_everywhere() {
    assert_eq!(FlapJackStackBuilder::remove_carriage_returns("a\rb\r\nc\r"), "ab\nc");
    assert_eq!(FlapJackStackBuilder::remove_carriage_returns(""), "");
}

#[test]
fn whitespace_is_removed_everywhere() {
    assert_eq!(FlapJackStackBuilder::remove_whitespace(" a\tb \u{3000}c\n"), "abc");
    assert_eq!(FlapJackStackBuilder::remove_whitespace(" \t"), "");
}

#[test]
fn tokens_are_split_at_whitespace() {
    assert_eq!(
        FlapJackStackBuilder::split_and_clean_line("  INCREMENT\tchecking   46.70 "),
        vec!["INCREMENT".to_owned(), "checking".to_owned(), "46.70".to_owned()]
    );
}

#[test]
fn a_quoted_run_is_one_token_without_its_quotes() {
    assert_eq!(
        FlapJackStackBuilder::split_and_clean_line("CREATE \"Checking (Bank)\" 'got paid'"),
        vec!["CREATE".to_owned(), "Checking (Bank)".to_owned(), "got paid".to_owned()]
    );
}

#[test]
fn an_empty_quoted_run_is_an_empty_token() {
    assert_eq!(
        FlapJackStackBuilder::split_and_clean_line("SET \"\" 5"),
        vec!["SET".to_owned(), "".to_owned(), "5".to_owned()]
    );
}

#[test]
fn stray_quotes_are_dropped() {
    assert_eq!(
        FlapJackStackBuilder::split_and_clean_line("ab\"cd e'f"),
        vec!["ab".to_owned(), "cd".to_owned(), "e".to_owned(), "f".to_owned()]
    );
    assert!(FlapJackStackBuilder::split_and_clean_line(" \" ").is_empty());
}

#[test]
fn quote_characters_inside_a_quoted_run_are_dropped() {
    assert_eq!(
        FlapJackStackBuilder::split_and_clean_line("\"it's\" 'say \"hi\"'"),
        vec!["its".to_owned(), "say hi".to_owned()]
    );
}

#[test]
fn a_quoted_run_ends_a_bare_token() {
    assert_eq!(
        FlapJackStackBuilder::split_and_clean_line("ab\"c d\"ef"),
        vec!["ab".to_owned(), "c d".to_owned(), "ef".to_owned()]
    );
}

#[test]
fn a_comment_is_kept_verbatim() {
    let record = FlapSequenceBuilder::parse_line("# a note".to_owned()).unwrap();
    assert_eq!(record, FlapJack::Comment(Comment::new("# a note".to_owned())));
    assert_eq!(record.serialize(), "# a note");
}

#[test]
fn an_indented_comment_keeps_its_indentation() {
    let record = FlapSequenceBuilder::parse_line("  \t# \"a\"  note ".to_owned()).unwrap();
    assert_eq!(record, FlapJack::Comment(Comment::new("  \t# \"a\"  note ".to_owned())));
    assert!(FlapSequenceBuilder::is_comment("  \t# \"a\"  note "));
    assert!(!FlapSequenceBuilder::is_comment("CREATE # a"));
    assert!(!FlapSequenceBuilder::is_comment("\"#\" a"));
}

#[test]
fn a_quoted_name_is_read_and_written_with_its_quotes() {
    let record = FlapSequenceBuilder::parse_line("CREATE \"Checking (Bank)\"".to_owned()).unwrap();
    assert_eq!(
        record,
        FlapJack::Directive(Directive {
            command: Command::CREATE,
            params: vec!["Checking (Bank)".to_owned()]
        })
    );
    assert_eq!(record.serialize(), "CREATE \"Checking (Bank)\"");
}

#[test]
fn an_unknown_keyword_is_reported() {
    let builder_result = FlapJackStackBuilder::new("FOO \"A\"", None).build();
    match builder_result {
        Err(LoadError::Parse(ParseError::UnrecognizedCommand(word))) => assert_eq!(word, "FOO"),
        other => panic!("the load did not fail on the keyword: {:?}", other.map(|_| ())),
    }
}

#[test]
fn keywords_are_case_sensitive() {
    assert_eq!(
        FlapSequenceBuilder::parse_line("create a".to_owned()),
        Err(ParseError::UnrecognizedCommand("create".to_owned()))
    );
    assert_eq!(
        FlapSequenceBuilder::parse_line("\"\" a".to_owned()),
        Err(ParseError::UnrecognizedCommand("".to_owned()))
    );
}

#[test]
fn a_line_without_tokens_is_malformed() {
    assert_eq!(
        FlapSequenceBuilder::parse_line(" \" ".to_owned()),
        Err(ParseError::MalformedLine(" \" ".to_owned()))
    );
}

#[test]
fn the_first_line_that_is_no_record_is_reported() {
    let result = FlapJackStackBuilder::new("CREATE a\nFOO\nINCREMENT b 1\nBAR", None).build();
    match result {
        Err(error) => {
            assert_eq!(error, LoadError::Parse(ParseError::UnrecognizedCommand("FOO".to_owned())))
        }
        Ok(_) => panic!("the load did not fail"),
    }
}

#[test]
fn every_keyword_is_read() {
    for (word, command) in [
        ("CREATE", Command::CREATE),
        ("INCREMENT", Command::INCREMENT),
        ("SET", Command::SET),
        ("DESTROY", Command::DESTROY),
        ("DECREMENT", Command::DECREMENT),
    ] {
        assert_eq!(Command::from_keyword(&word.to_owned()), Some(command));
        assert_eq!(command.to_string(), word);
    }
    assert_eq!(Command::from_keyword(&"VIEW".to_owned()), None);
}

#[test]
fn building_leaves_the_builder_without_lines() {
    let mut builder = FlapJackStackBuilder::new("CREATE a\nCREATE b", Some("here".to_owned()));
    let first = builder.build().unwrap();
    assert_eq!(first.flapjacks.len(), 2);
    assert_eq!(first.log_path, Some("here".to_owned()));
    let second = builder.build().unwrap();
    assert!(second.flapjacks.is_empty());
    assert_eq!(second.log_path, Some("here".to_owned()));
}
