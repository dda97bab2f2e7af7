use flapjack::amount::Amount;
use flapjack::error::{AppendError, LedgerError, LoadError, PersistenceError};
use flapjack::flapjack_stack::flapjack::{Command, Directive, FlapJack};
use flapjack::flapjack_stack::flapjack_stack_builder::FlapJackStackBuilder;
use flapjack::flapjack_stack::{FlapJackDb, FlapJackStack};

fn as_float(amount: &Amount) -> f64 {
    amount.to_string().parse().unwrap()
}

#[test]
fn mod_test_serialization() {
    let log = "
        # the program will register this line a comment
        CREATE \"Checking (Bank)\"
        INCREMENT \"Checking (Bank)\" 50 \"this is a comment for this transactions\"
        ";

    let seq = FlapJackStackBuilder::new(log, None).build().unwrap();
    let serialized_first = seq.serialize();

    let seq_rebuilt = FlapJackStackBuilder::new(&serialized_first, None).build().unwrap();
    let serialized_again = seq_rebuilt.serialize();

    assert_eq!(serialized_first, serialized_again)
}

#[test]
fn test_db_wallet_creation() {
    let log = "# the program will register this line a comment\nCREATE \"Checking (Bank)\"\nCREATE \"Savings (Bank)\"";
    let seq = FlapJackStackBuilder::new(log, None).build().unwrap();

    seq.db
        .wallet_amounts
        .get(&"Checking (Bank)".to_owned())
        .expect("This key does not exist!");
}

#[test]
fn test_db_wallet_increment() {
    let log = "
        CREATE \"Checking (Bank)\"
        CREATE \"Savings (Bank)\"
        INCREMENT \"Checking (Bank)\" 50 \"this is a comment for this transactions\"
        INCREMENT \"Savings (Bank)\" 73
        INCREMENT \"Checking (Bank)\" 25.50 \"this is another comment for the transaction\"
        ";

    let seq = FlapJackStackBuilder::new(log, None).build().unwrap();
    match seq.db.wallet_amounts.get("Checking (Bank)") {
        Some(balance) => {
            assert_eq!(as_float(balance), 75.5);
        }
        None => {
            panic!("Wallet does not exist!")
        }
    }

    match seq.db.wallet_amounts.get("Savings (Bank)") {
        Some(balance) => {
            assert_eq!(as_float(balance), 73.0);
        }
        None => {
            panic!("Wallet does not exist!")
        }
    }
}

#[test]
fn test_wallet_set() {
    let log = "
        CREATE \"Checking (Bank)\"
        CREATE \"Savings (Bank)\"
        INCREMENT \"Checking (Bank)\" 50 \"this is a comment for this transactions\"
        INCREMENT \"Savings (Bank)\" 73
        INCREMENT \"Checking (Bank)\" 25.50 \"this is another comment for the transaction\"
        SET \"Savings (Bank)\" 200 \"meow\"
        ";

    let seq = FlapJackStackBuilder::new(log, None).build().unwrap();
    match seq.db.wallet_amounts.get("Checking (Bank)") {
        Some(balance) => {
            assert_eq!(as_float(balance), 75.5);
        }
        None => {
            panic!("Wallet does not exist!")
        }
    }

    match seq.db.wallet_amounts.get("Savings (Bank)") {
        Some(balance) => {
            assert_eq!(as_float(balance), 200.0);
        }
        None => {
            panic!("Wallet does not exist!")
        }
    }
}

#[test]
fn test_wallet_destroy() {
    let log = "
        CREATE \"Checking (Bank)\"
        CREATE \"Savings (Bank)\"
        INCREMENT \"Checking (Bank)\" 50 \"this is a comment for this transactions\"
        INCREMENT \"Savings (Bank)\" 73
        INCREMENT \"Checking (Bank)\" 25.50 \"this is another comment for the transaction\"
        SET \"Savings (Bank)\" 200 \"meow\"
        DESTROY \"Savings (Bank)\"
        ";

    let seq = FlapJackStackBuilder::new(log, None).build().unwrap();

    if let Some(_) = seq.db.wallet_amounts.get("Savings (Bank)") {
        panic!("Wallet was not destroyed!")
    }
}

#[test]
fn test_wallet_decrement() {
    let log = "
        CREATE \"Checking (Bank)\"
        CREATE \"Savings (Bank)\"
        INCREMENT \"Checking (Bank)\" 50 \"this is a comment for this transactions\"
        INCREMENT \"Savings (Bank)\" 73
        INCREMENT \"Checking (Bank)\" 25.50 \"this is another comment for the transaction\"
        SET \"Savings (Bank)\" 200 \"meow\"
        DECREMENT \"Checking (Bank)\" 10.5 \"bought something\"
        ";

    let seq = FlapJackStackBuilder::new(log, None).build().unwrap();
    match seq.db.wallet_amounts.get("Checking (Bank)") {
        Some(balance) => {
            assert_eq!(as_float(balance), 65.0);
        }
        None => {
            panic!("Wallet does not exist!")
        }
    }
}

fn load(log: &str) -> FlapJackStack {
    FlapJackStackBuilder::new(log, Some("log_db.flap".to_owned())).build().unwrap()
}

fn ledger_error(log: &str) -> LedgerError {
    match FlapJackStackBuilder::new(log, None).build() {
        Err(LoadError::Ledger(error)) => error,
        Err(other) => panic!("the load failed otherwise: {:?}", other),
        Ok(_) => panic!("the load did not fail"),
    }
}

#[test]
fn a_created_wallet_is_empty() {
    let stack = load("CREATE \"A\"");
    assert_eq!(as_float(&stack.amount("A").unwrap()), 0.0);
    assert_eq!(stack.amount("A").unwrap().to_string(), "0");
    assert_eq!(stack.return_wallet_names(), vec!["A".to_owned()]);
}

#[test]
fn increments_add_up() {
    let stack = load("CREATE \"A\"\nINCREMENT \"A\" 50\nINCREMENT \"A\" 25.5");
    assert_eq!(as_float(&stack.amount("A").unwrap()), 75.5);
    assert_eq!(stack.amount("A").unwrap().to_string(), "75.5");
}

#[test]
fn set_discards_what_was_there() {
    let stack = load("CREATE \"A\"\nINCREMENT \"A\" 7.25\nDECREMENT \"A\" 900\nSET \"A\" 200");
    assert_eq!(as_float(&stack.amount("A").unwrap()), 200.0);
    assert_eq!(stack.amount("A").unwrap().to_string(), "200");
}

#[test]
fn a_destroyed_wallet_cannot_be_incremented() {
    let stack = load("CREATE \"A\"\nDESTROY \"A\"");
    assert!(stack.amount("A").is_none());
    assert!(stack.return_wallet_names().is_empty());
    assert_eq!(
        ledger_error("CREATE \"A\"\nDESTROY \"A\"\nINCREMENT \"A\" 1"),
        LedgerError::WalletNotFound("A".to_owned())
    );
}

#[test]
fn a_whole_log_is_replayed_in_order() {
    let stack = load(
        "CREATE \"A\"\nINCREMENT \"A\" 50\nINCREMENT \"A\" 25.5\nSET \"A\" 100\nDECREMENT \"A\" 10\n",
    );
    assert_eq!(as_float(&stack.amount("A").unwrap()), 90.0);
    assert_eq!(stack.flapjacks.len(), 5);
}

#[test]
fn creating_again_resets_the_balance() {
    let stack = load("CREATE a\nINCREMENT a 5\nCREATE a");
    assert_eq!(stack.amount("a").unwrap().to_string(), "0");
    assert_eq!(stack.return_wallet_names().len(), 1);
}

#[test]
fn destroying_what_is_not_there_does_nothing() {
    let stack = load("CREATE a\nDESTROY b");
    assert_eq!(stack.return_wallet_names(), vec!["a".to_owned()]);
}

#[test]
fn a_balance_may_fall_below_zero() {
    let stack = load("CREATE a\nDECREMENT a 0.75\nINCREMENT a 0.5");
    assert_eq!(stack.amount("a").unwrap().to_string(), "-0.25");
    assert_eq!(as_float(&stack.amount("a").unwrap()), -0.25);
}

#[test]
fn what_follows_the_amount_is_not_read() {
    let stack = load("CREATE a b c\nINCREMENT a 3 7 nine");
    assert_eq!(stack.amount("a").unwrap().to_string(), "3");
    assert!(stack.amount("b").is_none());
}

#[test]
fn comments_do_not_change_the_ledger() {
    let stack = load("# CREATE b\nCREATE a\n   # INCREMENT a 1");
    assert_eq!(stack.return_wallet_names(), vec!["a".to_owned()]);
    assert_eq!(stack.amount("a").unwrap().to_string(), "0");
    assert_eq!(stack.flapjacks.len(), 3);
}

#[test]
fn a_missing_name_is_reported() {
    for (log, command) in [
        ("CREATE", Command::CREATE),
        ("INCREMENT", Command::INCREMENT),
        ("SET", Command::SET),
        ("DESTROY", Command::DESTROY),
        ("DECREMENT", Command::DECREMENT),
    ] {
        assert_eq!(ledger_error(log), LedgerError::MissingParameter(command, 0));
    }
}

#[test]
fn a_missing_amount_is_reported() {
    for (log, command) in [
        ("INCREMENT a", Command::INCREMENT),
        ("SET a", Command::SET),
        ("DECREMENT a", Command::DECREMENT),
    ] {
        assert_eq!(ledger_error(log), LedgerError::MissingParameter(command, 1));
    }
}

#[test]
fn an_amount_that_is_no_number_is_reported_before_the_wallet() {
    assert_eq!(
        ledger_error("INCREMENT nobody much"),
        LedgerError::AmountNotNumeric("much".to_owned())
    );
    assert_eq!(
        ledger_error("CREATE a\nSET a 1,5"),
        LedgerError::AmountNotNumeric("1,5".to_owned())
    );
}

#[test]
fn a_wallet_that_does_not_exist_is_reported() {
    assert_eq!(ledger_error("CREATE a\nSET b 1"), LedgerError::WalletNotFound("b".to_owned()));
    assert_eq!(ledger_error("DECREMENT b 1"), LedgerError::WalletNotFound("b".to_owned()));
}

#[test]
fn a_record_that_fails_leaves_the_ledger_as_it_was() {
    let mut db = FlapJackDb::new();
    assert_eq!(db.command_create(&["a".to_owned()]), Ok(()));
    assert_eq!(db.command_increment(&["a".to_owned(), "2.5".to_owned()]), Ok(()));
    assert_eq!(
        db.command_set(&["a".to_owned(), "x".to_owned()]),
        Err(LedgerError::AmountNotNumeric("x".to_owned()))
    );
    assert_eq!(
        db.command_decrement(&["b".to_owned(), "1".to_owned()]),
        Err(LedgerError::WalletNotFound("b".to_owned()))
    );
    assert_eq!(db.command_destroy(&[]), Err(LedgerError::MissingParameter(Command::DESTROY, 0)));
    assert_eq!(db.wallet_amounts.get("a").unwrap().to_string(), "2.5");
    assert_eq!(db.wallet_amounts.wallet_names(), vec!["a".to_owned()]);
    assert_eq!(db.command_decrement(&["a".to_owned(), "1".to_owned()]), Ok(()));
    assert_eq!(db.wallet_amounts.get("a").unwrap().to_string(), "1.5");
    assert_eq!(db.command_destroy(&["a".to_owned()]), Ok(()));
    assert!(!db.wallet_amounts.contains_key("a"));
}

#[test]
fn the_ledger_of_records_is_their_replay() {
    let records = vec![
        FlapJack::Directive(Directive { command: Command::CREATE, params: vec!["a".to_owned()] }),
        FlapJack::Directive(Directive {
            command: Command::SET,
            params: vec!["a".to_owned(), "12.50".to_owned()],
        }),
    ];
    let db = FlapJackDb::from_flaps(&records).unwrap();
    assert_eq!(db.wallet_amounts.get("a").unwrap().to_string(), "12.50");
    let stack = FlapJackStack::new(records, None).unwrap();
    assert_eq!(stack.amount("a").unwrap().to_string(), "12.50");
    assert_eq!(stack.log_path, None);
}

#[test]
fn a_log_is_written_line_by_line() {
    let stack = load("\n  CREATE   'Checking (Bank)'\r\n\n# note\nINCREMENT \"Checking (Bank)\" 5 paid\n");
    assert_eq!(
        stack.serialize(),
        "CREATE \"Checking (Bank)\"\n# note\nINCREMENT \"Checking (Bank)\" 5 paid"
    );
    assert_eq!(load("").serialize(), "");
    assert_eq!(load("CREATE a").serialize(), "CREATE a");
}

#[test]
fn the_mutators_append_apply_and_hand_out_the_text() {
    let mut stack = load("# wallets");
    let write = stack.create_wallet("Checking (Bank)").unwrap();
    assert_eq!(write.path, "log_db.flap");
    assert_eq!(write.text, "# wallets\nCREATE \"Checking (Bank)\"");
    let write = stack.increment_wallet_amount("Checking (Bank)", 50, Some("got paid")).unwrap();
    assert_eq!(
        write.text,
        "# wallets\nCREATE \"Checking (Bank)\"\nINCREMENT \"Checking (Bank)\" 50 \"got paid\""
    );
    assert_eq!(stack.amount("Checking (Bank)").unwrap().to_string(), "50");
    stack.decrement_wallet_amount("Checking (Bank)", 70, None).unwrap();
    assert_eq!(stack.amount("Checking (Bank)").unwrap().to_string(), "-20");
    stack.set_wallet_amount("Checking (Bank)", -3, Some("fees")).unwrap();
    assert_eq!(stack.amount("Checking (Bank)").unwrap().to_string(), "-3");
    assert_eq!(
        stack.flapjacks[4],
        FlapJack::Directive(Directive {
            command: Command::SET,
            params: vec!["Checking (Bank)".to_owned(), "-3".to_owned(), "fees".to_owned()],
        })
    );
    let write = stack.destroy_wallet("Checking (Bank)").unwrap();
    assert!(stack.amount("Checking (Bank)").is_none());
    assert!(write.text.ends_with("\nDESTROY \"Checking (Bank)\""));
    assert_eq!(write.text, stack.serialize());
}

#[test]
fn what_the_mutators_do_is_what_a_replay_does() {
    let mut stack = load("CREATE a");
    stack.increment_wallet_amount("a", 12, None).unwrap();
    stack.create_wallet("b c").unwrap();
    stack.set_wallet_amount("b c", 40, Some("opening balance")).unwrap();
    stack.decrement_wallet_amount("a", 20, None).unwrap();
    stack.destroy_wallet("nobody").unwrap();
    let again = load(&stack.serialize());
    assert_eq!(again.flapjacks, stack.flapjacks);
    assert_eq!(again.return_wallet_names(), stack.return_wallet_names());
    for name in stack.return_wallet_names() {
        assert_eq!(
            again.amount(&name).unwrap().to_string(),
            stack.amount(&name).unwrap().to_string()
        );
    }
    assert_eq!(stack.amount("a").unwrap().to_string(), "-8");
    assert_eq!(stack.amount("b c").unwrap().to_string(), "40");
}

#[test]
fn a_mutation_that_fails_changes_nothing() {
    let mut stack = load("CREATE a");
    let result = stack.increment_wallet_amount("b", 1, None);
    assert_eq!(result, Err(AppendError::Ledger(LedgerError::WalletNotFound("b".to_owned()))));
    assert_eq!(stack.flapjacks.len(), 1);
    assert_eq!(stack.serialize(), "CREATE a");
    let result = stack.push_flap(FlapJack::Directive(Directive {
        command: Command::SET,
        params: vec!["a".to_owned()],
    }));
    assert_eq!(
        result,
        Err(AppendError::Ledger(LedgerError::MissingParameter(Command::SET, 1)))
    );
    assert_eq!(stack.flapjacks.len(), 1);
}

#[test]
fn a_log_without_a_store_is_changed_in_memory_only() {
    let mut stack = FlapJackStackBuilder::new("CREATE a", None).build().unwrap();
    let result = stack.increment_wallet_amount("a", 5, None);
    assert_eq!(result, Err(AppendError::Persistence(PersistenceError::Unbound)));
    assert_eq!(stack.amount("a").unwrap().to_string(), "5");
    assert_eq!(stack.serialize(), "CREATE a\nINCREMENT a 5");
}

#[test]
fn the_extreme_amounts_are_written_in_full() {
    let mut stack = load("CREATE a");
    stack.set_wallet_amount("a", i64::MIN, None).unwrap();
    assert_eq!(stack.amount("a").unwrap().to_string(), "-9223372036854775808");
    stack.decrement_wallet_amount("a", i64::MAX, None).unwrap();
    assert_eq!(stack.amount("a").unwrap().to_string(), "-18446744073709551615");
    stack.increment_wallet_amount("a", 0, None).unwrap();
    assert!(stack.serialize().ends_with("\nINCREMENT a 0"));
}

#[test]
fn balances_come_with_their_names() {
    let stack = load("CREATE b\nCREATE a\nINCREMENT a 1.5\nINCREMENT b 2");
    let balances: Vec<(String, String)> = stack
        .db
        .wallet_amounts
        .balances()
        .into_iter()
        .map(|(name, amount)| (name, amount.to_string()))
        .collect();
    assert_eq!(
        balances,
        vec![("b".to_owned(), "2".to_owned()), ("a".to_owned(), "1.5".to_owned())]
    );
}

fn next(state: &mut u64) -> u64 {
    *state = state.wrapping_mul(6364136223846793005).wrapping_add(1442695040888963407);
    *state >> 33
}

/// The balances of a log of directives, added up as floating-point numbers.
fn float_balances(log: &[(&str, &str, String)]) -> Option<std::collections::BTreeMap<String, f64>> {
    let mut balances = std::collections::BTreeMap::new();
    for (command, name, amount) in log {
        match *command {
            "CREATE" => {
                balances.insert(name.to_string(), 0.0);
            }
            "DESTROY" => {
                balances.remove(*name);
            }
            _ => {
                let amount: f64 = amount.parse().ok()?;
                let balance = balances.get_mut(*name)?;
                match *command {
                    "INCREMENT" => *balance += amount,
                    "DECREMENT" => *balance -= amount,
                    _ => *balance = amount,
                }
            }
        }
    }
    Some(balances)
}

#[test]
fn the_ledger_is_that_of_a_floating_point_replay_where_that_is_exact() {
    let commands = ["CREATE", "CREATE", "INCREMENT", "INCREMENT", "DECREMENT", "SET", "DESTROY"];
    let names = ["a", "b", "Checking (Bank)"];
    let fractions = ["", ".0", ".5", ".25", ".75", ".125"];
    let mut state = 11;
    let mut loaded = 0;
    for _ in 0..3000 {
        let mut directives = Vec::new();
        let mut text = String::new();
        for _ in 0..(next(&mut state) % 12) {
            let command = commands[(next(&mut state) % commands.len() as u64) as usize];
            let name = names[(next(&mut state) % names.len() as u64) as usize];
            let amount = format!(
                "{}{}",
                next(&mut state) % 1000,
                fractions[(next(&mut state) % fractions.len() as u64) as usize]
            );
            text.push_str(&format!("{} \"{}\" {}\n", command, name, amount));
            directives.push((command, name, amount));
        }
        let expected = float_balances(&directives);
        let stack = FlapJackStackBuilder::new(&text, None).build();
        assert_eq!(stack.is_ok(), expected.is_some(), "{:?}", text);
        if let (Ok(stack), Some(expected)) = (stack, expected) {
            loaded += 1;
            let mut names = stack.return_wallet_names();
            names.sort();
            assert_eq!(names, expected.keys().cloned().collect::<Vec<String>>(), "{:?}", text);
            for (name, balance) in expected {
                assert_eq!(as_float(&stack.amount(&name).unwrap()), balance, "{:?}", text);
            }
        }
    }
    assert!(loaded > 300);
}
