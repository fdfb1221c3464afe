//! A minimal todo-list library: task entries are kept in a line-oriented
//! text store, one `"<index> <content>"` line per entry.  The library parses
//! that text into entries, orders them by index, computes the next free
//! index, and decides what a `list` or `add` command should do.  All file
//! reading and writing is left to the caller, who hands the store's text in
//! and carries the results out.

use vstd::prelude::*;

pub mod config;
pub mod entry;
pub mod errors;
pub mod numbers;
pub mod order;
pub mod store;

pub use config::Config;
pub use entry::Todo;
pub use errors::{ErrorModel, TodoError};
pub use store::{add_line, list_lines, next_index};

verus! {

/// What a successfully dispatched command asks the caller to do.
pub enum Outcome {
    /// Print these lines, one per output line, in order.
    Listed(Vec<String>),
    /// Append this line (plus a line terminator) to the store file.
    Appended(String),
}

/// The mathematical stand-in for an [`Outcome`].
pub enum OutcomeModel {
    Listed(Seq<Seq<char>>),
    Appended(Seq<char>),
}

impl View for Outcome {
    type V = OutcomeModel;

    open spec fn view(&self) -> OutcomeModel {
        match self {
            Outcome::Listed(v) => OutcomeModel::Listed(v.deep_view()),
            Outcome::Appended(s) => OutcomeModel::Appended(s@),
        }
    }
}

/// The store text as handed in by the caller: the file's contents, or the
/// message of the I/O failure that kept the caller from reading it.
pub open spec fn store_model(store: Result<String, String>) -> Result<Seq<char>, Seq<char>> {
    match store {
        Ok(text) => Ok(text@),
        Err(m) => Err(m@),
    }
}

/// What dispatching a command comes to.  The verb is judged first: only
/// `list` and `add` are commands.  `add` needs a noun before anything
/// else.  Only then does the store text matter: a caller-reported I/O
/// failure wraps its message, and otherwise the operation's text work
/// decides between its outcome and a parse failure.
pub open spec fn run_model(
    verb: Seq<char>,
    noun: Option<Seq<char>>,
    store: Result<Seq<char>, Seq<char>>,
) -> Result<OutcomeModel, ErrorModel> {
    if verb == "list"@ {
        match store {
            Ok(text) => match store::list_output(text) {
                Some(ls) => Ok(OutcomeModel::Listed(ls)),
                None => Err(ErrorModel::ParseError),
            },
            Err(m) => Err(ErrorModel::IoError(m)),
        }
    } else if verb == "add"@ {
        match noun {
            Some(c) => match store {
                Ok(text) => match store::added_line(text, c) {
                    Some(line) => Ok(OutcomeModel::Appended(line)),
                    None => Err(ErrorModel::ParseError),
                },
                Err(m) => Err(ErrorModel::IoError(m)),
            },
            None => Err(ErrorModel::NotEnoughArguments),
        }
    } else {
        Err(ErrorModel::InvalidCommand)
    }
}

/// Dispatches a resolved command, exactly as [`run_model`] says: `list`
/// turns the store text into display lines, `add` (which insists on a
/// noun) into the store line to append, any other verb is refused, and a
/// caller-reported I/O failure is wrapped as [`TodoError::IoError`].
pub fn run(config: Config, store: Result<String, String>) -> (r: Result<Outcome, TodoError>)
    ensures
        match r {
            Ok(out) => run_model(config.verb@, config.noun.deep_view(), store_model(store))
                == Ok::<OutcomeModel, ErrorModel>(out@),
            Err(e) => run_model(config.verb@, config.noun.deep_view(), store_model(store))
                == Err::<OutcomeModel, ErrorModel>(e@),
        },
{
    let list_verb: String = "list".to_owned();
    if config.verb == list_verb {
        match store {
            Ok(text) => match store::list_lines(text.as_str()) {
                Ok(lines) => Ok(Outcome::Listed(lines)),
                Err(e) => Err(e),
            },
            Err(m) => Err(TodoError::IoError(m)),
        }
    } else {
        let add_verb: String = "add".to_owned();
        if config.verb == add_verb {
            match config.noun {
                Some(noun) => match store {
                    Ok(text) => match store::add_line(text.as_str(), noun.as_str()) {
                        Ok(line) => Ok(Outcome::Appended(line)),
                        Err(e) => Err(e),
                    },
                    Err(m) => Err(TodoError::IoError(m)),
                },
                None => Err(TodoError::NotEnoughArguments),
            }
        } else {
            Err(TodoError::InvalidCommand)
        }
    }
}

} // verus!
