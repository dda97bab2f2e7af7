//! What an interactive menu over a ledger decides: which state follows an
//! input, which wallet was picked, what an answer means.

use crate::amount::{nat_digits, Amount};
use vstd::prelude::*;

verus! {

/// Where the menu stands.
#[derive(Clone, Copy, Debug, PartialEq, Eq)]
pub enum State {
    Default,
    View,
    Invalid,
    Exit,
    CreateMenu,
    IncrementMenu,
    SetMenu,
    DestroyMenu,
    DecrementMenu,
}

impl State {
    /// The state that an option of the main menu leads to: the options are
    /// numbered from zero, and any other number is invalid.
    pub open spec fn of_choice(choice: nat) -> State {
        if choice == 0 {
            State::SetMenu
        } else if choice == 1 {
            State::IncrementMenu
        } else if choice == 2 {
            State::DecrementMenu
        } else if choice == 3 {
            State::CreateMenu
        } else if choice == 4 {
            State::DestroyMenu
        } else if choice == 5 {
            State::View
        } else if choice == 6 {
            State::Exit
        } else {
            State::Invalid
        }
    }

    /// The state that follows this one. The main menu goes where the option
    /// leads that was chosen, and stays where it is without one; every other
    /// state falls back to the main menu.
    pub open spec fn successor(self, choice: Option<u64>) -> State {
        match self {
            State::Default => match choice {
                Some(choice) => State::of_choice(choice as nat),
                None => State::Default,
            },
            _ => State::Default,
        }
    }

    /// The state that an option of the main menu leads to.
    pub fn from_choice(choice: u64) -> (state: State)
        ensures
            state == State::of_choice(choice as nat),
    {
        match choice {
            0 => State::SetMenu,
            1 => State::IncrementMenu,
            2 => State::DecrementMenu,
            3 => State::CreateMenu,
            4 => State::DestroyMenu,
            5 => State::View,
            6 => State::Exit,
            _ => State::Invalid,
        }
    }

    /// The state that follows this one, given the option that was chosen in
    /// the main menu, if one was.
    pub fn next(self, choice: Option<u64>) -> (state: State)
        ensures
            state == self.successor(choice),
    {
        match self {
            State::Default => match choice {
                Some(choice) => State::from_choice(choice),
                None => State::Default,
            },
            _ => State::Default,
        }
    }
}

/// What was picked from a list of wallets that ends with the option to go
/// back.
#[derive(Clone, Copy, Debug, PartialEq, Eq)]
pub enum WalletChoice {
    /// The wallet at this position.
    Wallet(usize),
    /// To go back.
    Back,
    /// Nothing that was offered.
    Invalid,
}

/// What the number `choice` picks from `count` wallets, which are numbered
/// from zero; the number `count` itself stands for going back.
pub fn wallet_choice(count: usize, choice: i64) -> (picked: WalletChoice)
    ensures
        picked == if 0 <= choice < count {
            WalletChoice::Wallet(choice as usize)
        } else if choice == count {
            WalletChoice::Back
        } else {
            WalletChoice::Invalid
        },
{
    if choice < 0 {
        WalletChoice::Invalid
    } else if (choice as u64) < (count as u64) {
        WalletChoice::Wallet(choice as usize)
    } else if (choice as u64) == (count as u64) {
        WalletChoice::Back
    } else {
        WalletChoice::Invalid
    }
}

/// What an answer to a question means.
#[derive(Clone, Copy, Debug, PartialEq, Eq)]
pub enum Answer {
    Yes,
    No,
    Invalid,
}

/// The meaning of an answer: `y` is yes, `n` is no, the empty answer is
/// what `default` says, if it says anything, and every other answer is
/// invalid.
pub open spec fn answer_of(answer: Seq<char>, default: Option<bool>) -> Answer {
    if answer == seq!['y'] {
        Answer::Yes
    } else if answer == seq!['n'] {
        Answer::No
    } else if answer.len() == 0 {
        match default {
            Some(true) => Answer::Yes,
            Some(false) => Answer::No,
            None => Answer::Invalid,
        }
    } else {
        Answer::Invalid
    }
}

/// Reads an answer to a question that may have a default.
pub fn read_answer(answer: &str, default: Option<bool>) -> (meaning: Answer)
    ensures
        meaning == answer_of(answer@, default),
{
    let chars = crate::text::chars_of(answer);
    if chars.len() == 1 && chars[0] == 'y' {
        assert(chars@ == seq!['y']);
        Answer::Yes
    } else if chars.len() == 1 && chars[0] == 'n' {
        assert(chars@ == seq!['n']);
        Answer::No
    } else if chars.len() == 0 {
        match default {
            Some(true) => Answer::Yes,
            Some(false) => Answer::No,
            None => Answer::Invalid,
        }
    } else {
        assert(seq!['y'].len() == 1 && seq!['y'][0] == 'y');
        assert(seq!['n'].len() == 1 && seq!['n'][0] == 'n');
        Answer::Invalid
    }
}

/// The wallets as they are offered for choice: each name with its number in
/// square brackets, one space between two wallets.
pub open spec fn choices_text(names: Seq<Seq<char>>) -> Seq<char>
    decreases names.len(),
{
    if names.len() == 0 {
        Seq::empty()
    } else {
        let number = (names.len() - 1) as nat;
        let separator = if number == 0 {
            Seq::<char>::empty()
        } else {
            seq![' ']
        };
        choices_text(names.drop_last()) + separator + names.last() + seq!['['] + nat_digits(number)
            + seq![']']
    }
}

/// The line that asks for a wallet: the question, the wallets, and the
/// option to go back, whose number is the number of wallets.
pub open spec fn wallet_prompt_text(question: Seq<char>, names: Seq<Seq<char>>) -> Seq<char> {
    question + choices_text(names) + seq![' ', 'B', 'A', 'C', 'K', '['] + nat_digits(names.len())
        + seq![']']
}

/// The line that asks for a wallet.
pub fn wallet_prompt(question: &str, names: &Vec<String>) -> (prompt: String)
    ensures
        prompt@ == wallet_prompt_text(question@, names.deep_view()),
{
    let ghost all = names.deep_view();
    let mut prompt = question.to_owned();
    let mut i: usize = 0;
    assert(all.take(0) == Seq::<Seq<char>>::empty());
    assert(question@ + Seq::<char>::empty() == question@);
    while i < names.len()
        invariant
            i <= names.len(),
            all == names.deep_view(),
            prompt@ == question@ + choices_text(all.take(i as int)),
        decreases names.len() - i,
    {
        let ghost before = prompt@;
        let ghost shown = choices_text(all.take(i as int));
        proof {
            let next = all.take(i + 1);
            assert(next.drop_last() == all.take(i as int));
            assert(next.last() == names[i as int]@);
        }
        if i > 0 {
            prompt.push(' ');
        }
        prompt.append(names[i].as_str());
        prompt.push('[');
        let number = Amount::from_u64(i as u64).to_string();
        prompt.append(number.as_str());
        prompt.push(']');
        proof {
            let separator = if i == 0 {
                Seq::<char>::empty()
            } else {
                seq![' ']
            };
            assert(number@ == nat_digits(i as nat));
            assert(prompt@ == question@ + (shown + separator + names[i as int]@ + seq!['[']
                + nat_digits(i as nat) + seq![']']));
        }
        i += 1;
    }
    assert(all.take(names.len() as int) == all);
    proof {
        reveal_strlit(" BACK[");
    }
    prompt.append(" BACK[");
    let number = Amount::from_u64(names.len() as u64).to_string();
    prompt.append(number.as_str());
    prompt.push(']');
    proof {
        assert(" BACK["@ == seq![' ', 'B', 'A', 'C', 'K', '[']);
        assert(number@ == nat_digits(names.len() as nat));
    }
    prompt
}

} // verus!
