use vstd::prelude::*;

verus! {

/// Why an argument list could not be rewritten.
#[derive(Debug)]
pub enum LaxError {
    /// The `@` token breaks the pattern grammar (nothing after `@`, or more than one `^`).
    MalformedPattern(String),
    /// The pattern names no glob and does not ask for the repository root.
    EmptyGlob,
    /// The entry point of the search does not exist.
    NoSuchEntryPoint(String),
    /// No version-control marker was found above the current directory.
    NotARepository,
    /// The glob pattern does not compile.
    GlobError(globset::Error),
    /// A glob ending in `/` asks for directories, but directory matching is switched off.
    DirectoriesDisabled,
    /// A selector token is neither `a`, `l`, `/regex` nor a signed integer.
    InvalidSelector(String),
    /// A selector token is the integer zero; selectors count from one.
    SelectorsAreOneIndexed,
    /// A positional selector reaches past the candidate list: its 0-based offset, and
    /// whether it counts from the back.
    SelectorOutOfRange { from_back: bool, offset: usize },
    /// A selector was applied to an empty candidate list.
    EmptyCandidateList,
    /// The regex of a `/` selector does not compile.
    RegexError(regex::Error),
    /// The pattern matched nothing.
    EntityNotFound(String),
    /// A file result has no parent directory to stand for it.
    NoParentDirectory(String),
    /// A directory, or the current directory, could not be read.
    IoError(String),
}

} // verus!
