//! The failures that the library reports, and the text shown for each.
use vstd::prelude::*;
use vstd::string::StringExecFns;

verus! {

/// Why a run could not be completed.
#[derive(Debug)]
pub enum FortuneError {
    /// A path named as a source does not exist.
    NotFound { path: String, cause: String },
    /// A fortune file could not be opened or read.
    ReadFailure { path: String, cause: String },
    /// The text given as a pattern is not a regular expression.
    InvalidPattern { pattern: String },
    /// The text given as a seed is not an unsigned 64-bit integer.
    InvalidSeed { value: String },
}

/// `path`, a colon, a space, and `cause`.
pub open spec fn located_message(path: Seq<char>, cause: Seq<char>) -> Seq<char> {
    path + ": "@ + cause
}

/// The message for a pattern that does not compile.
pub open spec fn pattern_message(pattern: Seq<char>) -> Seq<char> {
    "Invalid --pattern \""@ + pattern + "\""@
}

/// The message for a seed that is not a number.
pub open spec fn seed_message(value: Seq<char>) -> Seq<char> {
    "\""@ + value + "\" not a valid integer"@
}

impl FortuneError {
    /// The text of the message that `message` returns.
    pub open spec fn message_spec(&self) -> Seq<char> {
        match self {
            FortuneError::NotFound { path, cause } => located_message(path@, cause@),
            FortuneError::ReadFailure { path, cause } => located_message(path@, cause@),
            FortuneError::InvalidPattern { pattern } => pattern_message(pattern@),
            FortuneError::InvalidSeed { value } => seed_message(value@),
        }
    }

    /// The message to show to the user.
    pub fn message(&self) -> (text: String)
        ensures
            text@ == self.message_spec(),
    {
        match self {
            FortuneError::NotFound { path, cause } => located(path, cause),
            FortuneError::ReadFailure { path, cause } => located(path, cause),
            FortuneError::InvalidPattern { pattern } => {
                let mut text = String::from_str("Invalid --pattern \"");
                text.append(pattern.as_str());
                text.append("\"");
                text
            },
            FortuneError::InvalidSeed { value } => {
                let mut text = String::from_str("\"");
                text.append(value.as_str());
                text.append("\" not a valid integer");
                text
            },
        }
    }
}

fn located(path: &String, cause: &String) -> (text: String)
    ensures
        text@ == located_message(path@, cause@),
{
    let mut text = path.clone();
    text.append(": ");
    text.append(cause.as_str());
    text
}

} // verus!
