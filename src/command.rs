//! Reading a command line: the verb and its operands.
use vstd::prelude::*;
use crate::error::{Error, ErrorModel};
use crate::text::{same_text, split_words, texts, words};

verus! {

/// The verbs a command line can start with.
#[derive(Debug, Clone, Copy, PartialEq, Eq, Structural)]
pub enum AllowedCommands {
    Create,
    Delete,
    Move,
    List,
}

/// The verb that a word spells, if any; verbs are case-sensitive.
pub open spec fn verb_of(word: Seq<char>) -> Option<AllowedCommands> {
    if word == "CREATE"@ {
        Some(AllowedCommands::Create)
    } else if word == "DELETE"@ {
        Some(AllowedCommands::Delete)
    } else if word == "MOVE"@ {
        Some(AllowedCommands::Move)
    } else if word == "LIST"@ {
        Some(AllowedCommands::List)
    } else {
        None
    }
}

/// How many paths a verb takes.
pub open spec fn operand_count(op: AllowedCommands) -> nat {
    match op {
        AllowedCommands::Create => 1,
        AllowedCommands::Delete => 1,
        AllowedCommands::Move => 2,
        AllowedCommands::List => 0,
    }
}

/// The verb and operands of a line, or why it is refused.
pub open spec fn parse_spec(line: Seq<char>) -> Result<(AllowedCommands, Seq<Seq<char>>), ErrorModel> {
    let w = words(line);
    if w.len() == 0 {
        Err(ErrorModel::UnknownCommand(line))
    } else {
        match verb_of(w[0]) {
            None => Err(ErrorModel::UnknownCommand(line)),
            Some(op) => if w.len() - 1 != operand_count(op) {
                Err(ErrorModel::ParamCount(operand_count(op), line))
            } else {
                Ok((op, w.drop_first()))
            },
        }
    }
}

impl AllowedCommands {
    /// The verb that `word` spells.
    pub fn from_str(word: &str) -> (r: Option<AllowedCommands>)
        ensures
            r == verb_of(word@),
    {
        if same_text(word, "CREATE") {
            Some(AllowedCommands::Create)
        } else if same_text(word, "DELETE") {
            Some(AllowedCommands::Delete)
        } else if same_text(word, "MOVE") {
            Some(AllowedCommands::Move)
        } else if same_text(word, "LIST") {
            Some(AllowedCommands::List)
        } else {
            None
        }
    }

    /// How many paths the verb takes.
    pub fn operand_count(self) -> (r: usize)
        ensures
            r as nat == operand_count(self),
    {
        match self {
            AllowedCommands::Create => 1,
            AllowedCommands::Delete => 1,
            AllowedCommands::Move => 2,
            AllowedCommands::List => 0,
        }
    }
}

/// A command line read into its verb and its path operands.
#[derive(Debug, Clone)]
pub struct Command {
    pub operation: AllowedCommands,
    pub operands: Vec<String>,
}

impl Command {
    /// A command of the given verb and operands.
    pub fn new(operation: AllowedCommands, operands: Vec<String>) -> (r: Command)
        ensures
            r.operation == operation,
            r.operands@ == operands@,
    {
        Command { operation, operands }
    }

    /// Reads a line: its first word is the verb, the others its operands,
    /// which must be as many as the verb takes.
    pub fn parse(line: &str) -> (r: Result<Command, Error>)
        ensures
            match r {
                Ok(c) => parse_spec(line@) == Ok::<_, ErrorModel>((c.operation, texts(c.operands@))),
                Err(e) => parse_spec(line@) == Err::<(AllowedCommands, Seq<Seq<char>>), _>(e@),
            },
    {
        let mut w = split_words(line);
        if w.len() == 0 {
            return Err(Error::UnknownCommand(line.to_owned()));
        }
        let op = match AllowedCommands::from_str(w[0].as_str()) {
            Some(op) => op,
            None => {
                return Err(Error::UnknownCommand(line.to_owned()));
            },
        };
        let expected = op.operand_count();
        if w.len() - 1 != expected {
            return Err(Error::ParamCount(expected, line.to_owned()));
        }
        let ghost all = w@;
        w.remove(0);
        proof {
            assert(texts(w@) =~= texts(all).drop_first());
        }
        Ok(Command::new(op, w))
    }
}

} // verus!
