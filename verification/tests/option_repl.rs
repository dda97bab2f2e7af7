use flapjack::option_repl::{read_answer, wallet_choice, wallet_prompt, Answer, State, WalletChoice};

#[test]
fn the_options_of_the_main_menu_lead_to_their_states() {
    assert_eq!(State::from_choice(0), State::SetMenu);
    assert_eq!(State::from_choice(1), State::IncrementMenu);
    assert_eq!(State::from_choice(2), State::DecrementMenu);
    assert_eq!(State::from_choice(3), State::CreateMenu);
    assert_eq!(State::from_choice(4), State::DestroyMenu);
    assert_eq!(State::from_choice(5), State::View);
    assert_eq!(State::from_choice(6), State::Exit);
    assert_eq!(State::from_choice(7), State::Invalid);
    assert_eq!(State::from_choice(u64::MAX), State::Invalid);
}

#[test]
fn every_state_but_the_main_menu_falls_back_to_it() {
    for state in [
        State::View,
        State::Invalid,
        State::Exit,
        State::CreateMenu,
        State::IncrementMenu,
        State::SetMenu,
        State::DestroyMenu,
        State::DecrementMenu,
    ] {
        assert_eq!(state.next(Some(3)), State::Default);
        assert_eq!(state.next(None), State::Default);
    }
    assert_eq!(State::Default.next(Some(3)), State::CreateMenu);
    assert_eq!(State::Default.next(Some(9)), State::Invalid);
    assert_eq!(State::Default.next(None), State::Default);
}

#[test]
fn a_wallet_is_picked_by_its_number() {
    assert_eq!(wallet_choice(3, 0), WalletChoice::Wallet(0));
    assert_eq!(wallet_choice(3, 2), WalletChoice::Wallet(2));
    assert_eq!(wallet_choice(3, 3), WalletChoice::Back);
    assert_eq!(wallet_choice(3, 4), WalletChoice::Invalid);
    assert_eq!(wallet_choice(3, -1), WalletChoice::Invalid);
    assert_eq!(wallet_choice(0, 0), WalletChoice::Back);
    assert_eq!(wallet_choice(0, i64::MIN), WalletChoice::Invalid);
}

#[test]
fn answers_are_read_with_their_default() {
    assert_eq!(read_answer("y", None), Answer::Yes);
    assert_eq!(read_answer("n", Some(true)), Answer::No);
    assert_eq!(read_answer("", Some(true)), Answer::Yes);
    assert_eq!(read_answer("", Some(false)), Answer::No);
    assert_eq!(read_answer("", None), Answer::Invalid);
    assert_eq!(read_answer("yes", Some(true)), Answer::Invalid);
    assert_eq!(read_answer("Y", None), Answer::Invalid);
}

#[test]
fn the_wallets_are_offered_with_their_numbers() {
    let names = vec!["Checking (Bank)".to_owned(), "savings".to_owned(), "cash".to_owned()];
    assert_eq!(
        wallet_prompt("Destroy which wallet?: ", &names),
        "Destroy which wallet?: Checking (Bank)[0] savings[1] cash[2] BACK[3]"
    );
    assert_eq!(wallet_prompt("Which?: ", &Vec::new()), "Which?:  BACK[0]");
    let many: Vec<String> = (0..12).map(|i| format!("w{}", i)).collect();
    assert!(wallet_prompt("", &many).ends_with(" w10[10] w11[11] BACK[12]"));
}
