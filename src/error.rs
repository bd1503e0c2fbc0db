//! What a command can fail with.
use vstd::prelude::*;

verus! {

/// Why a command was refused. The tree is left as it was.
#[derive(Debug, Clone, PartialEq, Eq)]
pub enum Error {
    /// A path named a node that does not exist: the operation, the path as
    /// given, and its first prefix that does not resolve.
    Missing { op: &'static str, path: String, missing: String },
    /// The node that would be made or moved in is already there.
    Exists { op: &'static str, path: String },
    /// The verb takes this many operands; the line as given.
    ParamCount(usize, String),
    /// The line has no verb, or one that is not known.
    UnknownCommand(String),
}

/// An error as plain text values.
pub enum ErrorModel {
    Missing { op: Seq<char>, path: Seq<char>, missing: Seq<char> },
    Exists { op: Seq<char>, path: Seq<char> },
    ParamCount(nat, Seq<char>),
    UnknownCommand(Seq<char>),
}

impl View for Error {
    type V = ErrorModel;

    open spec fn view(&self) -> ErrorModel {
        match self {
            Error::Missing { op, path, missing } => ErrorModel::Missing {
                op: op@,
                path: path@,
                missing: missing@,
            },
            Error::Exists { op, path } => ErrorModel::Exists { op: op@, path: path@ },
            Error::ParamCount(n, line) => ErrorModel::ParamCount(*n as nat, line@),
            Error::UnknownCommand(line) => ErrorModel::UnknownCommand(line@),
        }
    }
}

/// The text of one decimal digit.
pub open spec fn digit_text(d: nat) -> Seq<char> {
    if d == 0 {
        "0"@
    } else if d == 1 {
        "1"@
    } else if d == 2 {
        "2"@
    } else if d == 3 {
        "3"@
    } else if d == 4 {
        "4"@
    } else if d == 5 {
        "5"@
    } else if d == 6 {
        "6"@
    } else if d == 7 {
        "7"@
    } else if d == 8 {
        "8"@
    } else {
        "9"@
    }
}

/// A number written in decimal, without leading zeros.
pub open spec fn decimal(n: nat) -> Seq<char>
    decreases n,
{
    if n < 10 {
        digit_text(n)
    } else {
        decimal(n / 10) + digit_text(n % 10)
    }
}

/// The one-line message for an error. A command line is shown as given,
/// between double quotes, with nothing inside it escaped.
pub open spec fn message_of(e: ErrorModel) -> Seq<char> {
    match e {
        ErrorModel::Missing { op, path, missing } => "Cannot "@ + op + " "@ + path + " - "@
            + missing + " does not exist"@,
        ErrorModel::Exists { op, path } => "Cannot "@ + op + " "@ + path + " - already exists"@,
        ErrorModel::ParamCount(n, line) => "Expected "@ + decimal(n)
            + " parameters for command: \""@ + line + "\""@,
        ErrorModel::UnknownCommand(line) => "Unknown command: \""@ + line + "\""@,
    }
}

fn digit_str(d: usize) -> (r: &'static str)
    requires
        d < 10,
    ensures
        r@ == digit_text(d as nat),
{
    if d == 0 {
        "0"
    } else if d == 1 {
        "1"
    } else if d == 2 {
        "2"
    } else if d == 3 {
        "3"
    } else if d == 4 {
        "4"
    } else if d == 5 {
        "5"
    } else if d == 6 {
        "6"
    } else if d == 7 {
        "7"
    } else if d == 8 {
        "8"
    } else {
        "9"
    }
}

fn append_decimal(n: usize, out: &mut String)
    ensures
        final(out)@ == old(out)@ + decimal(n as nat),
    decreases n,
{
    if n >= 10 {
        append_decimal(n / 10, out);
    }
    out.append(digit_str(n % 10));
    assert(final(out)@ =~= old(out)@ + decimal(n as nat));
}

impl Error {
    /// The error as one line of text.
    pub fn message(&self) -> (r: String)
        ensures
            r@ == message_of(self@),
    {
        let mut out = String::new();
        match self {
            Error::Missing { op, path, missing } => {
                out.append("Cannot ");
                out.append(op);
                out.append(" ");
                out.append(path.as_str());
                out.append(" - ");
                out.append(missing.as_str());
                out.append(" does not exist");
            },
            Error::Exists { op, path } => {
                out.append("Cannot ");
                out.append(op);
                out.append(" ");
                out.append(path.as_str());
                out.append(" - already exists");
            },
            Error::ParamCount(n, line) => {
                out.append("Expected ");
                append_decimal(*n, &mut out);
                out.append(" parameters for command: \"");
                out.append(line.as_str());
                out.append("\"");
            },
            Error::UnknownCommand(line) => {
                out.append("Unknown command: \"");
                out.append(line.as_str());
                out.append("\"");
            },
        }
        assert(out@ =~= message_of(self@));
        out
    }
}

} // verus!
