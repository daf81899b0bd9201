//! Everything this library takes on trust from other crates and from `std::path`.
use vstd::prelude::*;
use crate::fetch::{keep_entry, no_hidden_below, WalkEntry};

verus! {

#[verifier::external_type_specification]
#[verifier::external_body]
pub struct ExRegex(regex::Regex);

#[verifier::external_type_specification]
#[verifier::external_body]
pub struct ExRegexError(regex::Error);

#[verifier::external_type_specification]
#[verifier::external_body]
pub struct ExGlobSet(globset::GlobSet);

#[verifier::external_type_specification]
#[verifier::external_body]
pub struct ExGlobError(globset::Error);

/// Whether the regex crate accepts `pattern` as a regular expression.
pub uninterp spec fn regex_compiles(pattern: Seq<char>) -> bool;

/// Whether the regex compiled from `pattern` finds a match anywhere in `haystack`.
pub uninterp spec fn regex_finds(pattern: Seq<char>, haystack: Seq<char>) -> bool;

/// Whether globset accepts `glob` (with `*` never crossing a `/`).
pub uninterp spec fn glob_compiles(glob: Seq<char>) -> bool;

/// Whether the glob `glob`, compiled with literal separators, matches the whole of `path`.
pub uninterp spec fn glob_matches(glob: Seq<char>, path: Seq<char>) -> bool;

/// `Path::parent` of `path`, as text.
pub uninterp spec fn parent_of(path: Seq<char>) -> Option<Seq<char>>;

/// A compiled regex together with the text it was compiled from.
pub struct RegexMatcher {
    re: regex::Regex,
    source: String,
}

impl RegexMatcher {
    pub closed spec fn source(&self) -> Seq<char> {
        self.source@
    }
}

/// A compiled glob together with the text it was compiled from.
pub struct GlobPattern {
    set: globset::GlobSet,
    source: String,
}

impl GlobPattern {
    pub closed spec fn source(&self) -> Seq<char> {
        self.source@
    }
}

/// Relies on `regex::Regex::new`: it fails exactly on text that is not a valid regex.
#[verifier::external_body]
pub(crate) fn compile_regex(pattern: &str) -> (r: Result<RegexMatcher, regex::Error>)
    ensures
        r is Ok <==> regex_compiles(pattern@),
        r matches Ok(m) ==> m.source() == pattern@,
{
    regex::Regex::new(pattern).map(|re| RegexMatcher { re, source: pattern.to_string() })
}

/// Relies on `regex::Regex::is_match`: an unanchored search of `haystack`.
#[verifier::external_body]
pub(crate) fn regex_is_match(m: &RegexMatcher, haystack: &str) -> (r: bool)
    ensures
        r == regex_finds(m.source(), haystack@),
{
    m.re.is_match(haystack)
}

/// Relies on globset's `GlobBuilder` with `literal_separator(true)` and `build`, then on
/// `GlobSetBuilder::build` of the one glob, which compiles its regex and hands back any
/// error: the result is an error exactly on text that is not a valid glob.
#[verifier::external_body]
pub(crate) fn compile_glob(glob: &str) -> (r: Result<GlobPattern, globset::Error>)
    ensures
        r is Ok <==> glob_compiles(glob@),
        r matches Ok(g) ==> g.source() == glob@,
{
    match globset::GlobBuilder::new(glob).literal_separator(true).build() {
        Ok(g) => globset::GlobSetBuilder::new().add(g).build().map(
            |set| GlobPattern { set, source: glob.to_string() },
        ),
        Err(e) => Err(e),
    }
}

/// Relies on `globset::GlobSet::is_match`: whether the set's one glob matches `path`.
#[verifier::external_body]
pub(crate) fn glob_is_match(g: &GlobPattern, path: &str) -> (r: bool)
    ensures
        r == glob_matches(g.source(), path@),
{
    g.set.is_match(path)
}

/// Relies on `shellexpand::tilde`: text that does not start with `~` comes back unchanged;
/// otherwise the result depends on the home directory.
#[verifier::external_body]
pub(crate) fn expand_tilde(path: &str) -> (r: String)
    ensures
        !(path@.len() > 0 && path@[0] == '~') ==> r@ == path@,
{
    shellexpand::tilde(path).into_owned()
}

/// Relies on walkdir's recursive walk from `root`, root first, through `filter_entry`: an
/// entry that `keep_entry` rejects is left out and not descended into, so without
/// `search_hidden` no name on the way below `root` to an entry is hidden; an entry that
/// could not be read is the walk's error, as text.
#[verifier::external_body]
pub(crate) fn walk_tree(root: &str, search_hidden: bool) -> (r: Vec<Result<WalkEntry, String>>)
    ensures
        !search_hidden ==> forall|i: int| 0 <= i < r@.len() ==> (#[trigger] r@[i] matches Ok(w)
            && w.path matches Some(p) ==> no_hidden_below(root@, p@)),
{
    walkdir::WalkDir::new(root)
        .into_iter()
        .filter_entry(|e| keep_entry(e.file_name().to_str(), e.depth(), search_hidden))
        .map(|r| r.map_err(|err| err.to_string()).map(|e| WalkEntry {
            path: e.path().to_str().map(|p| p.to_string()),
            depth: e.depth(),
            is_dir: e.file_type().is_dir(),
            is_file: e.file_type().is_file(),
        }))
        .collect()
}

/// Relies on `Path::exists`; the answer depends on the disk.
#[verifier::external_body]
pub(crate) fn path_exists(path: &str) -> (r: bool)
{
    std::path::Path::new(path).exists()
}

/// Relies on `Path::is_dir`; the answer depends on the disk.
#[verifier::external_body]
pub(crate) fn is_directory(path: &str) -> (r: bool)
{
    std::path::Path::new(path).is_dir()
}

/// Relies on `Path::canonicalize` of `.`: the absolute current directory, if it can be read.
#[verifier::external_body]
pub(crate) fn current_directory() -> (r: Option<String>)
{
    std::path::Path::new(".").canonicalize().ok().and_then(|p| p.to_str().map(|s| s.to_string()))
}

/// Relies on `Path::parent`: the path without its final component, so strictly shorter.
#[verifier::external_body]
pub(crate) fn parent_path(path: &str) -> (r: Option<String>)
    ensures
        match r {
            Some(p) => parent_of(path@) == Some(p@) && p@.len() < path@.len(),
            None => parent_of(path@) is None,
        },
{
    std::path::Path::new(path).parent().and_then(|p| p.to_str()).map(|p| p.to_string())
}

} // verus!
