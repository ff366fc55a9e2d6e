//! Where the text of a run comes from, and how what was read becomes text.
use vstd::prelude::*;
use vstd::string::*;
use vstd::utf8::*;
use crate::args::BigGrepArgs;
use crate::error::GrepError;

verus! {

/// Where a run takes its text from.
#[derive(Clone, Debug, PartialEq, Eq)]
pub enum InputSource {
    /// The file of this path.
    File(String),
    /// A file whose path the user is asked for first.
    Prompt,
    /// All of standard input.
    Stdin,
}

/// Whether `source` is what a request with this `file_path` reads from: the
/// file where it names one; otherwise a prompted file where standard input
/// is a terminal, and standard input itself where it is not.
pub open spec fn is_source_for(
    source: InputSource,
    file_path: Option<String>,
    interactive: bool,
) -> bool {
    match file_path {
        Some(path) => (source matches InputSource::File(chosen) && chosen@ == path@),
        None => if interactive {
            source is Prompt
        } else {
            source is Stdin
        },
    }
}

/// Picks the source of a run, given whether standard input is a terminal.
pub fn choose_source(config: &BigGrepArgs, interactive: bool) -> (source: InputSource)
    ensures
        is_source_for(source, config.file_path, interactive),
{
    match &config.file_path {
        Some(path) => InputSource::File(path.clone()),
        None => if interactive {
            InputSource::Prompt
        } else {
            InputSource::Stdin
        },
    }
}

/// Trusted, not proved: `atty::is` on `atty::Stream::Stdin`, which asks the
/// operating system whether standard input is a terminal. The answer depends
/// on how the process was started, so nothing is claimed of it.
#[verifier::external_body]
fn stdin_is_terminal() -> (interactive: bool) {
    atty::is(atty::Stream::Stdin)
}

/// Picks the source of a run. Standard input is looked at only where the
/// request names no file.
pub fn input_source(config: &BigGrepArgs) -> (source: InputSource)
    ensures
        is_source_for(source, config.file_path, true) || is_source_for(
            source,
            config.file_path,
            false,
        ),
        config.file_path is Some ==> is_source_for(source, config.file_path, true)
            && is_source_for(source, config.file_path, false),
{
    if config.file_path.is_some() {
        choose_source(config, false)
    } else {
        let interactive = stdin_is_terminal();
        choose_source(config, interactive)
    }
}

/// A text without the white space that it ends with: the characters of the
/// slice that `str::trim_end` returns for it.
pub uninterp spec fn trimmed_end(text: Seq<char>) -> Seq<char>;

/// Trusted, not proved: `str::trim_end` of the standard library. It returns
/// the front part of the string that is left when the white space at its end
/// is taken off. That part depends on the characters alone and is called
/// `trimmed_end` here. Which characters count as white space is left to the
/// standard library: those with the Unicode property `White_Space`.
pub assume_specification[ str::trim_end ](text: &str) -> (kept: &str)
    ensures
        kept@ == trimmed_end(text@),
        kept@.len() <= text@.len(),
        kept@ == text@.take(kept@.len() as int),
;

/// The path that a line typed at the prompt names: the line without the
/// line ending and other white space at its end.
pub fn prompted_path(line: &str) -> (path: String)
    ensures
        path@ == trimmed_end(line@),
        path@.len() <= line@.len(),
        path@ == line@.take(path@.len() as int),
{
    String::from_str(line.trim_end())
}

/// Trusted, not proved, and opaque: the error of `core::str::from_utf8`.
#[verifier::external_type_specification]
#[verifier::external_body]
pub struct ExUtf8Error(core::str::Utf8Error);

/// Trusted, not proved: `core::str::from_utf8` of the standard library. It
/// succeeds exactly on valid UTF-8, and the string it then returns is made
/// of the very bytes it was given.
pub assume_specification[ core::str::from_utf8 ](bytes: &[u8]) -> (outcome: Result<
    &str,
    core::str::Utf8Error,
>)
    ensures
        outcome is Ok <==> valid_utf8(bytes@),
        outcome matches Ok(text) ==> text.spec_bytes() == bytes@,
;

/// Reads bytes as text. They are text exactly when they are valid UTF-8; the
/// text is then what they decode to, and borrows them.
pub fn text_from_bytes(bytes: &[u8]) -> (outcome: Result<&str, GrepError>)
    ensures
        valid_utf8(bytes@) ==> (outcome matches Ok(text) && text@ == decode_utf8(bytes@)),
        !valid_utf8(bytes@) ==> outcome == Err::<&str, GrepError>(GrepError::EncodingError),
{
    match core::str::from_utf8(bytes) {
        Ok(text) => {
            proof {
                encode_utf8_decode_utf8(text@);
            }
            Ok(text)
        },
        Err(_) => Err(GrepError::EncodingError),
    }
}

} // verus!
