use vstd::prelude::*;
use crate::collections::big_co::query::Query;
use crate::collections::text::{split_words, words_of};

verus! {

/// An order to the company.
pub enum Command {
    Get(Query),
    Add { empl_name: String, dept_name: String },
    Remove(Query),
    Exit,
}

/// What a command is in terms of plain text.
pub enum Order {
    Get(Option<Seq<char>>),
    Add { empl_name: Seq<char>, dept_name: Seq<char> },
    Remove(Option<Seq<char>>),
    Exit,
}

impl Command {
    /// The command in terms of plain text.
    pub open spec fn view(&self) -> Order {
        match self {
            Command::Get(Query::All) => Order::Get(None),
            Command::Get(Query::Name(name)) => Order::Get(Some(name@)),
            Command::Add { empl_name, dept_name } => Order::Add {
                empl_name: empl_name@,
                dept_name: dept_name@,
            },
            Command::Remove(Query::All) => Order::Remove(None),
            Command::Remove(Query::Name(name)) => Order::Remove(Some(name@)),
            Command::Exit => Order::Exit,
        }
    }
}

/// Why a line spells no command.
#[derive(Clone, Copy, Debug, PartialEq, Eq, Structural)]
pub enum CommandError {
    /// The line starts with `add` but does not go on as
    /// `add EMPLOYEE to DEPARTMENT`.
    AddFormat,
    /// The line does not start with the name of a command.
    Unrecognized,
}

impl CommandError {
    /// What to tell who wrote the line.
    pub open spec fn text(self) -> Seq<char> {
        match self {
            CommandError::AddFormat => "use `add EMPLOYEE to DEPARTMENT` format."@,
            CommandError::Unrecognized => "unrecognized command."@,
        }
    }

    /// What to tell who wrote the line.
    pub fn message(&self) -> (message: String)
        ensures
            message@ == self.text(),
    {
        match self {
            CommandError::AddFormat => "use `add EMPLOYEE to DEPARTMENT` format.".to_owned(),
            CommandError::Unrecognized => "unrecognized command.".to_owned(),
        }
    }
}

/// What a `get` or a `remove` is about: everything if nothing or `all`
/// follows, and else what the next word names.
pub open spec fn subject(words: Seq<Seq<char>>) -> Option<Seq<char>> {
    if words.len() < 2 || words[1] == "all"@ {
        None
    } else {
        Some(words[1])
    }
}

/// The command that the words spell, or why they spell none:
/// `get [all | NAME]`, `add EMPLOYEE to DEPARTMENT`, `remove [all | NAME]`
/// or `exit`. Words behind the command are not looked at.
pub open spec fn spelled(words: Seq<Seq<char>>) -> Result<Order, CommandError> {
    if words.len() == 0 {
        Err(CommandError::Unrecognized)
    } else if words[0] == "get"@ {
        Ok(Order::Get(subject(words)))
    } else if words[0] == "add"@ {
        if words.len() >= 4 && words[2] == "to"@ {
            Ok(Order::Add { empl_name: words[1], dept_name: words[3] })
        } else {
            Err(CommandError::AddFormat)
        }
    } else if words[0] == "remove"@ {
        Ok(Order::Remove(subject(words)))
    } else if words[0] == "exit"@ {
        Ok(Order::Exit)
    } else {
        Err(CommandError::Unrecognized)
    }
}

fn is_word(word: &String, text: &str) -> (same: bool)
    ensures
        same == (word@ == text@),
{
    let other = text.to_owned();
    *word == other
}

fn query_of(words: &Vec<String>) -> (query: Query)
    requires
        words@.len() > 0,
    ensures
        match query {
            Query::All => subject(words.deep_view()) is None,
            Query::Name(name) => subject(words.deep_view()) == Some(name@),
        },
{
    if words.len() < 2 {
        Query::All
    } else {
        assert(words.deep_view()[1] == words@[1]@);
        if is_word(&words[1], "all") {
            Query::All
        } else {
            Query::Name(words[1].clone())
        }
    }
}

/// Reads a command from the words of a line.
pub fn parse(words: &Vec<String>) -> (command: Result<Command, CommandError>)
    ensures
        match command {
            Ok(c) => spelled(words.deep_view()) == Ok::<Order, CommandError>(c@),
            Err(e) => spelled(words.deep_view()) == Err::<Order, CommandError>(e),
        },
{
    if words.len() == 0 {
        return Err(CommandError::Unrecognized);
    }
    assert(words.deep_view()[0] == words@[0]@);
    if is_word(&words[0], "get") {
        Ok(Command::Get(query_of(words)))
    } else if is_word(&words[0], "add") {
        if words.len() >= 4 {
            assert(words.deep_view()[1] == words@[1]@);
            assert(words.deep_view()[2] == words@[2]@);
            assert(words.deep_view()[3] == words@[3]@);
            if is_word(&words[2], "to") {
                return Ok(
                    Command::Add { empl_name: words[1].clone(), dept_name: words[3].clone() },
                );
            }
        }
        Err(CommandError::AddFormat)
    } else if is_word(&words[0], "remove") {
        Ok(Command::Remove(query_of(words)))
    } else if is_word(&words[0], "exit") {
        Ok(Command::Exit)
    } else {
        Err(CommandError::Unrecognized)
    }
}

/// Reads a command from a line: from its words, whatever white space
/// stands between them.
pub fn get_command(line: &str) -> (command: Result<Command, CommandError>)
    ensures
        match command {
            Ok(c) => spelled(words_of(line@)) == Ok::<Order, CommandError>(c@),
            Err(e) => spelled(words_of(line@)) == Err::<Order, CommandError>(e),
        },
{
    let words = split_words(line);
    parse(&words)
}

} // verus!
