//! What a run is asked to do.
use vstd::prelude::*;

verus! {

/// The request of one run: what to look for, where, and how letters are
/// compared.
#[derive(Debug)]
pub struct BigGrepArgs {
    /// The string that a line must hold to be kept.
    pub query: String,
    /// The file to read; without one the text comes from standard input.
    pub file_path: Option<String>,
    /// Whether upper and lower case are told apart.
    pub case_sensitive: bool,
}

impl BigGrepArgs {
    /// Puts a request together from its three parts.
    pub fn new(query: String, file_path: Option<String>, case_sensitive: bool) -> (args: Self)
        ensures
            args.query == query,
            args.file_path == file_path,
            args.case_sensitive == case_sensitive,
    {
        BigGrepArgs { query, file_path, case_sensitive }
    }
}

} // verus!
