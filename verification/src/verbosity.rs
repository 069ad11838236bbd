//! How much a run of the program says.

use vstd::prelude::*;

verus! {

/// The least important kind of message that is still shown.
#[derive(Debug, Clone, Copy, PartialEq, Eq, Structural)]
pub enum Verbosity {
    Warn,
    Info,
    Debug,
    Trace,
}

/// The verbosity that a word on the command line selects. Without a word
/// only warnings are shown; a word that is none of the three is not
/// understood.
pub open spec fn selected(word: Option<Seq<char>>) -> Option<Verbosity> {
    match word {
        None => Some(Verbosity::Warn),
        Some(word) => if word == "verbose"@ {
            Some(Verbosity::Info)
        } else if word == "debug"@ {
            Some(Verbosity::Debug)
        } else if word == "trace"@ {
            Some(Verbosity::Trace)
        } else {
            None
        },
    }
}

/// Reads the verbosity from the word given on the command line, if any.
pub fn parse_verbosity(word: Option<&str>) -> (level: Option<Verbosity>)
    ensures
        level == selected(word.deep_view()),
{
    match word {
        None => Some(Verbosity::Warn),
        Some(word) => {
            let word = String::from_str(word);
            if word == String::from_str("verbose") {
                Some(Verbosity::Info)
            } else if word == String::from_str("debug") {
                Some(Verbosity::Debug)
            } else if word == String::from_str("trace") {
                Some(Verbosity::Trace)
            } else {
                None
            }
        },
    }
}

} // verus!
