//! What can go wrong in a run, and how a failed run ends.
use vstd::prelude::*;
use vstd::string::*;

verus! {

/// Why a run failed. Every failure ends the run.
#[derive(Clone, Copy, Debug, PartialEq, Eq, Structural)]
pub enum GrepError {
    /// The file that was named does not exist or cannot be opened.
    NotFound,
    /// Reading failed.
    IoError,
    /// What was read is not valid UTF-8 text.
    EncodingError,
}

/// The words that describe an error to the user.
pub open spec fn description(error: GrepError) -> Seq<char> {
    match error {
        GrepError::NotFound => "file not found"@,
        GrepError::IoError => "reading the input failed"@,
        GrepError::EncodingError => "the input is not valid UTF-8 text"@,
    }
}

/// What introduces every error message.
pub open spec fn message_prefix() -> Seq<char> {
    "Anwendungsfehler: "@
}

impl GrepError {
    /// The words that describe this error to the user.
    pub fn describe(&self) -> (text: String)
        ensures
            text@ == description(*self),
    {
        match self {
            GrepError::NotFound => String::from_str("file not found"),
            GrepError::IoError => String::from_str("reading the input failed"),
            GrepError::EncodingError => String::from_str("the input is not valid UTF-8 text"),
        }
    }
}

/// The one line that tells the user of a failed run.
pub fn report(error: GrepError) -> (message: String)
    ensures
        message@ == message_prefix() + description(error),
{
    let mut message = String::from_str("Anwendungsfehler: ");
    let text = error.describe();
    message.append(text.as_str());
    message
}

/// The exit code of a run: 0 where it succeeded, also without a match, and 1
/// where it failed.
pub fn exit_code(outcome: &Result<(), GrepError>) -> (code: i32)
    ensures
        code == (if outcome is Ok { 0i32 } else { 1i32 }),
{
    match outcome {
        Ok(_) => 0,
        Err(_) => 1,
    }
}

} // verus!
