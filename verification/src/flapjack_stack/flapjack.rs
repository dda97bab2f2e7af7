//! The records of a log: directives and comments, and their canonical text.

use crate::text::contains_whitespace;
use vstd::prelude::*;

verus! {

/// What a directive asks the ledger to do.
#[allow(clippy::upper_case_acronyms)]
#[derive(Debug, PartialEq, Eq, Clone, Copy)]
pub enum Command {
    CREATE,
    INCREMENT,
    SET,
    DESTROY,
    DECREMENT,
}

impl Command {
    /// The keyword that stands for the command in a log line.
    pub open spec fn keyword(self) -> Seq<char> {
        match self {
            Command::CREATE => "CREATE"@,
            Command::INCREMENT => "INCREMENT"@,
            Command::SET => "SET"@,
            Command::DESTROY => "DESTROY"@,
            Command::DECREMENT => "DECREMENT"@,
        }
    }

    /// The command that `word` is the keyword of, if it is one. The match is
    /// case-sensitive.
    pub open spec fn of_keyword(word: Seq<char>) -> Option<Command> {
        if word == "CREATE"@ {
            Some(Command::CREATE)
        } else if word == "INCREMENT"@ {
            Some(Command::INCREMENT)
        } else if word == "SET"@ {
            Some(Command::SET)
        } else if word == "DESTROY"@ {
            Some(Command::DESTROY)
        } else if word == "DECREMENT"@ {
            Some(Command::DECREMENT)
        } else {
            None
        }
    }

    /// The keyword of the command, as a string.
    pub fn to_string(&self) -> (r: String)
        ensures
            r@ == self.keyword(),
    {
        match self {
            Command::CREATE => "CREATE".to_owned(),
            Command::INCREMENT => "INCREMENT".to_owned(),
            Command::SET => "SET".to_owned(),
            Command::DESTROY => "DESTROY".to_owned(),
            Command::DECREMENT => "DECREMENT".to_owned(),
        }
    }

    /// Reads a keyword. Returns `None` for a word that is no keyword.
    pub fn from_keyword(word: &String) -> (r: Option<Command>)
        ensures
            r == Command::of_keyword(word@),
    {
        if *word == "CREATE".to_owned() {
            Some(Command::CREATE)
        } else if *word == "INCREMENT".to_owned() {
            Some(Command::INCREMENT)
        } else if *word == "SET".to_owned() {
            Some(Command::SET)
        } else if *word == "DESTROY".to_owned() {
            Some(Command::DESTROY)
        } else if *word == "DECREMENT".to_owned() {
            Some(Command::DECREMENT)
        } else {
            None
        }
    }
}

/// Every keyword is a word of capital letters that stands for its command
/// and for no other.
pub proof fn lemma_keyword(command: Command)
    ensures
        command.keyword().len() > 0,
        forall|k: int|
            0 <= k < command.keyword().len() ==> 'A' <= #[trigger] command.keyword()[k] <= 'Z',
        Command::of_keyword(command.keyword()) == Some(command),
{
    reveal_strlit("CREATE");
    reveal_strlit("INCREMENT");
    reveal_strlit("SET");
    reveal_strlit("DESTROY");
    reveal_strlit("DECREMENT");
    assert("CREATE"@.len() == 6);
    assert("INCREMENT"@.len() == 9);
    assert("SET"@.len() == 3);
    assert("DESTROY"@.len() == 7);
    assert("DECREMENT"@.len() == 9);
    assert("INCREMENT"@[0] != "DECREMENT"@[0]);
}

/// The text of one parameter in a log line: wrapped in double quotes when it
/// holds whitespace, bare otherwise.
pub open spec fn param_text(param: Seq<char>) -> Seq<char> {
    if crate::chars::has_whitespace(param) {
        seq!['"'] + param + seq!['"']
    } else {
        param
    }
}

/// The text of a parameter list: each parameter preceded by one space.
pub open spec fn params_text(params: Seq<Seq<char>>) -> Seq<char>
    decreases params.len(),
{
    if params.len() == 0 {
        Seq::empty()
    } else {
        params_text(params.drop_last()) + seq![' '] + param_text(params.last())
    }
}

/// The mathematical value of a [`Directive`].
pub struct DirectiveView {
    pub command: Command,
    pub params: Seq<Seq<char>>,
}

impl DirectiveView {
    /// The canonical log line of the directive: its keyword, then each
    /// parameter after one space.
    pub open spec fn text(self) -> Seq<char> {
        self.command.keyword() + params_text(self.params)
    }
}

/// The mathematical value of a [`FlapJack`].
pub enum Record {
    Directive(DirectiveView),
    Comment(Seq<char>),
}

impl Record {
    /// The canonical log line of the record.
    pub open spec fn text(self) -> Seq<char> {
        match self {
            Record::Directive(d) => d.text(),
            Record::Comment(c) => c,
        }
    }
}

/// The canonical text of a log: the lines of its records joined by single
/// line feeds, with none after the last.
pub open spec fn log_text(records: Seq<Record>) -> Seq<char>
    decreases records.len(),
{
    if records.len() == 0 {
        Seq::empty()
    } else if records.len() == 1 {
        records[0].text()
    } else {
        log_text(records.drop_last()) + seq!['\n'] + records.last().text()
    }
}

/// A command and its parameters. In a log a directive looks like
/// `INCREMENT checking-bank 46.70 "got paid"`.
#[derive(Debug, PartialEq, Clone)]
pub struct Directive {
    pub command: Command,
    pub params: Vec<String>,
}

impl View for Directive {
    type V = DirectiveView;

    open spec fn view(&self) -> DirectiveView {
        DirectiveView { command: self.command, params: self.params.deep_view() }
    }
}

impl DeepView for Directive {
    type V = DirectiveView;

    open spec fn deep_view(&self) -> DirectiveView {
        self@
    }
}

impl Directive {
    /// Renders the directive as a log line.
    pub fn serialize(&self) -> (combined: String)
        ensures
            combined@ == self@.text(),
    {
        let mut combined = self.command.to_string();
        let mut i: usize = 0;
        while i < self.params.len()
            invariant
                i <= self.params.len(),
                combined@ == self.command.keyword() + params_text(
                    self.params.deep_view().take(i as int),
                ),
            decreases self.params.len() - i,
        {
            let param = &self.params[i];
            proof {
                let done = self.params.deep_view().take(i as int);
                let next = self.params.deep_view().take(i + 1);
                assert(next.drop_last() == done);
                assert(next.last() == param@);
            }
            combined.push(' ');
            // a parameter with whitespace in it has to be surrounded by quotes
            if contains_whitespace(param.as_str()) {
                combined.push('"');
                combined.append(param.as_str());
                combined.push('"');
            } else {
                combined.append(param.as_str());
            }
            i += 1;
        }
        proof {
            assert(self.params.deep_view().take(self.params.len() as int)
                == self.params.deep_view());
        }
        combined
    }
}

/// A comment line, kept exactly as it was read, `#` included.
#[derive(Debug, PartialEq, Clone)]
pub struct Comment {
    pub string: String,
}

impl View for Comment {
    type V = Seq<char>;

    open spec fn view(&self) -> Seq<char> {
        self.string@
    }
}

impl DeepView for Comment {
    type V = Seq<char>;

    open spec fn deep_view(&self) -> Seq<char> {
        self@
    }
}

impl Comment {
    /// The comment with the text `s`.
    pub fn new(s: String) -> (comment: Comment)
        ensures
            comment@ == s@,
    {
        Self { string: s }
    }

    /// The text of the comment, unchanged.
    pub fn serialize(&self) -> (text: String)
        ensures
            text@ == self@,
    {
        self.string.clone()
    }
}

/// One record of a log: either a directive or a comment.
#[derive(Debug, PartialEq, Clone)]
pub enum FlapJack {
    Directive(Directive),
    Comment(Comment),
}

impl View for FlapJack {
    type V = Record;

    open spec fn view(&self) -> Record {
        match self {
            FlapJack::Directive(directive) => Record::Directive(directive@),
            FlapJack::Comment(comment) => Record::Comment(comment@),
        }
    }
}

impl DeepView for FlapJack {
    type V = Record;

    open spec fn deep_view(&self) -> Record {
        self@
    }
}

impl FlapJack {
    /// Renders the record as a log line.
    pub fn serialize(&self) -> (text: String)
        ensures
            text@ == self@.text(),
    {
        match self {
            Self::Directive(directive) => directive.serialize(),
            Self::Comment(comment) => comment.serialize(),
        }
    }
}

} // verus!
