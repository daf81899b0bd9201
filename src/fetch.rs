//! Finding the candidates of a glob below an entry point.
use vstd::prelude::*;
use vstd::string::*;
use crate::errors::LaxError;
use crate::expander::{Config, Expander, SelectorMenu};
use crate::outside::{
    compile_glob, current_directory, expand_tilde, glob_compiles, glob_is_match, glob_matches,
    parent_of, parent_path, path_exists, walk_tree, GlobPattern,
};
use crate::selector::{
    all_from_front, first_paths, lemma_early_stop_selects_the_same, lemma_max_front_offset,
    max_front_offset, selected, split_on, views, SelectorGroup,
};

verus! {

/// One entry met by the directory walk, as plain values.
pub struct WalkEntry {
    /// The entry's path as the walk spelled it, when it is valid UTF-8.
    pub path: Option<String>,
    /// How many levels below the walk's root the entry lies (the root itself is 0).
    pub depth: usize,
    pub is_dir: bool,
    pub is_file: bool,
}

/// A hidden name starts with `.` and is neither `.` nor `..`.
pub open spec fn is_hidden(name: Seq<char>) -> bool {
    name.len() > 0 && name[0] == '.' && name != seq!['.'] && name != seq!['.', '.']
}

/// Whether the walk keeps (and descends into) an entry of this name at this depth: the
/// walk's root always, other entries unless hidden ones are left out and this one is.
pub fn keep_entry(name: Option<&str>, depth: usize, search_hidden: bool) -> (r: bool)
    ensures
        r == (depth == 0 || search_hidden || !(name matches Some(n) && is_hidden(n@))),
{
    if depth == 0 || search_hidden {
        return true;
    }
    match name {
        None => true,
        Some(n) => {
            let len = n.unicode_len();
            if len == 0 || n.get_char(0) != '.' {
                return true;
            }
            if len == 1 {
                assert(n@ =~= seq!['.']);
                return true;
            }
            if len == 2 && n.get_char(1) == '.' {
                assert(n@ =~= seq!['.', '.']);
                return true;
            }
            assert(n@.len() != 1 ==> n@ != seq!['.']);
            assert(n@ != seq!['.', '.']);
            false
        },
    }
}

/// `path` as seen from the walk's `root`: the root and one following `/` taken off.
pub open spec fn strip_root(root: Seq<char>, path: Seq<char>) -> Seq<char> {
    let rest = if root.len() <= path.len() && path.subrange(0, root.len() as int) == root {
        path.subrange(root.len() as int, path.len() as int)
    } else {
        path
    };
    if rest.len() > 0 && rest[0] == '/' {
        rest.drop_first()
    } else {
        rest
    }
}

/// The text a glob is matched against: `.` for the root, `./` and the relative path below it.
pub open spec fn glob_text(root: Seq<char>, path: Seq<char>, depth: usize) -> Seq<char> {
    if depth == 0 {
        seq!['.']
    } else {
        seq!['.', '/'] + strip_root(root, path)
    }
}

/// No name on the way from `root` down to `path` is hidden.
pub open spec fn no_hidden_below(root: Seq<char>, path: Seq<char>) -> bool {
    forall|k: int| 0 <= k < split_on(strip_root(root, path), '/').len() ==> !is_hidden(
        #[trigger] split_on(strip_root(root, path), '/')[k],
    )
}

/// Without `search_hidden`, the walk from `root` met no entry below a hidden name.
pub open spec fn pruned(root: Seq<char>, entries: Seq<Result<WalkEntry, String>>, search_hidden: bool) -> bool {
    !search_hidden ==> forall|i: int| 0 <= i < entries.len() ==> (#[trigger] entries[i] matches Ok(w)
        && w.path matches Some(p) ==> no_hidden_below(root, p@))
}

/// Whether an entry of this type passes the configured type filter.
pub open spec fn type_accepted(dirs: bool, files: bool, is_dir: bool, is_file: bool) -> bool {
    (dirs && (files || is_dir)) || (files && is_file)
}

/// What a matched entry contributes: its path, with `/` appended for a directory.
pub open spec fn entry_text(w: WalkEntry) -> Seq<char> {
    w.path->0@ + if w.is_dir {
        seq!['/']
    } else {
        seq![]
    }
}

/// Whether walk entry `e` below `root` is a match of `glob`.
pub open spec fn entry_selected(
    root: Seq<char>,
    glob: Seq<char>,
    dirs: bool,
    files: bool,
    e: Result<WalkEntry, String>,
) -> bool {
    &&& e matches Ok(w)
    &&& w.path is Some
    &&& glob_matches(glob, glob_text(root, w.path->0@, w.depth))
    &&& type_accepted(dirs, files, w.is_dir, w.is_file)
}

/// The matches among walk entries, in walk order.
pub open spec fn matches_of(
    root: Seq<char>,
    glob: Seq<char>,
    dirs: bool,
    files: bool,
    entries: Seq<Result<WalkEntry, String>>,
) -> Seq<Seq<char>>
    decreases entries.len(),
{
    if entries.len() == 0 {
        seq![]
    } else {
        let rest = matches_of(root, glob, dirs, files, entries.drop_last());
        if entry_selected(root, glob, dirs, files, entries.last()) {
            rest.push(entry_text(entries.last()->Ok_0))
        } else {
            rest
        }
    }
}

/// The first `h + 1` items of `s` when `limit` is `Some(h)`; all of `s` otherwise.
pub open spec fn at_most(s: Seq<Seq<char>>, limit: Option<usize>) -> Seq<Seq<char>> {
    match limit {
        Some(h) => first_paths(s, h as nat + 1),
        None => s,
    }
}

/// `Path::join` of a relative or absolute `rel` onto `base`.
pub open spec fn join_path(base: Seq<char>, rel: Seq<char>) -> Seq<char> {
    if rel.len() > 0 && rel[0] == '/' {
        rel
    } else if base.len() == 0 || base.last() == '/' {
        base + rel
    } else {
        base + seq!['/'] + rel
    }
}

pub open spec fn ends_with_slash(s: Seq<char>) -> bool {
    s.len() > 0 && s.last() == '/'
}

/// The glob compiled for a pattern: anchored below the entry point at any depth, with a
/// trailing `/` taken off.
pub open spec fn search_glob(pattern: Seq<char>) -> Seq<char> {
    seq!['.', '/', '*', '*', '/'] + if ends_with_slash(pattern) {
        pattern.drop_last()
    } else {
        pattern
    }
}

/// The offset up to which a selector group needs matches, when it needs no more.
pub open spec fn limit_of(group: Option<SelectorGroup>) -> Option<usize> {
    match group {
        Some(g) => if all_from_front(g.selectors@) {
            Some(max_front_offset(g.selectors@) as usize)
        } else {
            None
        },
        None => None,
    }
}

/// Every entry of the walk could be read.
pub open spec fn all_read(entries: Seq<Result<WalkEntry, String>>) -> bool {
    forall|i: int| 0 <= i < entries.len() ==> (#[trigger] entries[i]) is Ok
}

/// The first entry of the walk that could not be read, as its error's text.
pub fn first_walk_error(entries: &[Result<WalkEntry, String>]) -> (r: Option<String>)
    ensures
        r is None <==> all_read(entries@),
        r matches Some(m) ==> exists|i: int| 0 <= i < entries@.len() && #[trigger] entries@[i]
            == Err::<WalkEntry, String>(m),
{
    let mut i: usize = 0;
    while i < entries.len()
        invariant
            i <= entries@.len(),
            forall|j: int| 0 <= j < i ==> (#[trigger] entries@[j]) is Ok,
        decreases entries.len() - i,
    {
        match &entries[i] {
            Ok(_) => {},
            Err(m) => {
                let r = m.clone();
                assert(entries@[i as int] == Err::<WalkEntry, String>(r));
                return Some(r);
            },
        }
        i += 1;
    }
    None
}

/// `v` is what a walk from `root`, of whatever tree lies there, yields for `glob`.
pub open spec fn found_by_walk(
    v: Seq<Seq<char>>,
    root: Seq<char>,
    glob: Seq<char>,
    dirs: bool,
    files: bool,
    limit: Option<usize>,
    search_hidden: bool,
) -> bool {
    exists|entries: Seq<Result<WalkEntry, String>>|
        all_read(entries) && pruned(root, entries, search_hidden) && v == at_most(
            #[trigger] matches_of(root, glob, dirs, files, entries),
            limit,
        )
}

/// `root` is where the walk for `entry_point` starts: the entry point itself, unless it
/// is taken from the repository root or starts with `~`.
pub open spec fn walk_root(from_repository_root: bool, entry_point: Seq<char>, root: Seq<char>) -> bool {
    !from_repository_root && !(entry_point.len() > 0 && entry_point[0] == '~') ==> root
        == entry_point
}

/// Whether an entry's files are wanted for `pattern`: not when it asks for directories.
pub open spec fn files_wanted(config: Config, pattern: Seq<char>) -> bool {
    config.match_with_files && !ends_with_slash(pattern)
}

/// `v` is a candidate list that fetching `pattern` below `entry_point` can give: the
/// repository root alone for an empty pattern, else the walk's matches from the root.
pub open spec fn fetched(
    config: Config,
    from_repository_root: bool,
    entry_point: Seq<char>,
    pattern: Seq<char>,
    group: Option<SelectorGroup>,
    v: Seq<Seq<char>>,
) -> bool {
    if pattern.len() == 0 {
        from_repository_root && v.len() == 1
    } else {
        exists|root: Seq<char>|
            walk_root(from_repository_root, entry_point, root) && #[trigger] found_by_walk(
                v,
                root,
                search_glob(pattern),
                config.match_with_dirs,
                files_wanted(config, pattern),
                limit_of(group),
                config.search_hidden,
            )
    }
}

/// The `n`-th ancestor of `start` by `Path::parent`, if it has one.
pub open spec fn ancestor_at(start: Seq<char>, n: nat) -> Option<Seq<char>>
    decreases n,
{
    if n == 0 {
        Some(start)
    } else {
        match ancestor_at(start, (n - 1) as nat) {
            Some(a) => parent_of(a),
            None => None,
        }
    }
}

/// `d` is `start` or one of its ancestors.
pub open spec fn is_ancestor(start: Seq<char>, d: Seq<char>) -> bool {
    exists|n: nat| ancestor_at(start, n) == Some(d)
}

/// The chain of parents of `start` ends: some ancestor has no parent.
pub open spec fn reaches_top(start: Seq<char>) -> bool {
    exists|n: nat| #[trigger] ancestor_at(start, n) matches Some(d) && parent_of(d) is None
}

/// One step of the search for the repository root.
#[derive(Debug, PartialEq, Eq)]
pub enum RootSearch {
    /// The directory holds `.git` or `.svn`.
    Found,
    /// Go on with this parent directory.
    Up(String),
    /// The directory has no parent: there is no repository.
    Exhausted,
}

/// Decides the search for the repository root at `dir`, given whether `dir` holds `.git`
/// and whether it holds `.svn`.
pub fn repository_step(dir: &str, has_git: bool, has_svn: bool) -> (r: RootSearch)
    ensures
        has_git || has_svn ==> r is Found,
        !(has_git || has_svn) ==> match parent_of(dir@) {
            Some(p) => r matches RootSearch::Up(q) && q@ == p && q@.len() < dir@.len(),
            None => r is Exhausted,
        },
{
    if has_git || has_svn {
        RootSearch::Found
    } else {
        match parent_path(dir) {
            Some(p) => RootSearch::Up(p),
            None => RootSearch::Exhausted,
        }
    }
}

/// Stopping the walk early, as `fetch_matches` does for a selector group, never changes what
/// the group selects, nor whether and how it fails: the shortened match list and the full
/// one give the same outcome.
pub proof fn lemma_early_stop_keeps_selection(
    g: SelectorGroup,
    all: Seq<Seq<char>>,
    r: Result<Vec<String>, LaxError>,
)
    ensures
        selected(g.selectors@, at_most(all, limit_of(Some(g))), r) == selected(g.selectors@, all, r),
{
    if all_from_front(g.selectors@) {
        lemma_max_front_offset(g.selectors@);
        lemma_early_stop_selects_the_same(g.selectors@, all, r);
    }
}

/// `m` is a path below `root` through no hidden name, perhaps with `/` appended.
pub open spec fn shown_path(root: Seq<char>, m: Seq<char>) -> bool {
    exists|p: Seq<char>| #[trigger] no_hidden_below(root, p) && (m == p || m == p + seq!['/'])
}

/// Without `search_hidden`, every match of a walk is a path below `root` through no hidden
/// name (with `/` appended for a directory).
pub proof fn lemma_matches_not_hidden(
    root: Seq<char>,
    glob: Seq<char>,
    dirs: bool,
    files: bool,
    entries: Seq<Result<WalkEntry, String>>,
)
    requires
        pruned(root, entries, false),
    ensures
        forall|k: int| 0 <= k < matches_of(root, glob, dirs, files, entries).len() ==> shown_path(
            root,
            #[trigger] matches_of(root, glob, dirs, files, entries)[k],
        ),
    decreases entries.len(),
{
    if entries.len() > 0 {
        let rest = entries.drop_last();
        assert(pruned(root, rest, false)) by {
            assert forall|i: int| 0 <= i < rest.len() implies (#[trigger] rest[i] matches Ok(w)
                && w.path matches Some(p) ==> no_hidden_below(root, p@)) by {
                assert(rest[i] == entries[i]);
            }
        }
        lemma_matches_not_hidden(root, glob, dirs, files, rest);
        let last = entries[entries.len() - 1];
        let m = matches_of(root, glob, dirs, files, entries);
        let mr = matches_of(root, glob, dirs, files, rest);
        if entry_selected(root, glob, dirs, files, last) {
            let p = last->Ok_0.path->0@;
            assert(no_hidden_below(root, p));
            assert(shown_path(root, m[m.len() - 1]));
        }
        assert forall|k: int| 0 <= k < m.len() implies shown_path(root, #[trigger] m[k]) by {
            if k < mr.len() {
                assert(m[k] == mr[k]);
            }
        }
    }
}

/// The matches found in a prefix of the walk are the first matches of the whole walk.
proof fn lemma_matches_grow(
    root: Seq<char>,
    glob: Seq<char>,
    dirs: bool,
    files: bool,
    entries: Seq<Result<WalkEntry, String>>,
    i: int,
    k: int,
)
    requires
        0 <= i <= k <= entries.len(),
    ensures
        matches_of(root, glob, dirs, files, entries.subrange(0, i)).len() <= matches_of(
            root,
            glob,
            dirs,
            files,
            entries.subrange(0, k),
        ).len(),
        forall|m: int|
            0 <= m < matches_of(root, glob, dirs, files, entries.subrange(0, i)).len()
                ==> #[trigger] matches_of(root, glob, dirs, files, entries.subrange(0, k))[m]
                == matches_of(root, glob, dirs, files, entries.subrange(0, i))[m],
    decreases k - i,
{
    if i < k {
        lemma_matches_grow(root, glob, dirs, files, entries, i, k - 1);
        assert(entries.subrange(0, k).drop_last() =~= entries.subrange(0, k - 1));
    }
}

fn starts_with(s: &str, prefix: &str) -> (r: bool)
    ensures
        r == (prefix@.len() <= s@.len() && s@.subrange(0, prefix@.len() as int) == prefix@),
{
    let n = s.unicode_len();
    let m = prefix.unicode_len();
    if m > n {
        return false;
    }
    let mut i: usize = 0;
    while i < m
        invariant
            n == s@.len(),
            m == prefix@.len(),
            m <= n,
            i <= m,
            forall|j: int| 0 <= j < i ==> s@[j] == prefix@[j],
        decreases m - i,
    {
        if s.get_char(i) != prefix.get_char(i) {
            assert(s@.subrange(0, m as int)[i as int] != prefix@[i as int]);
            return false;
        }
        i += 1;
    }
    assert(s@.subrange(0, m as int) =~= prefix@);
    true
}

/// The text that the glob is matched against, for an entry at `path` and `depth` below `root`.
fn glob_text_of(root: &str, path: &str, depth: usize) -> (r: String)
    ensures
        r@ == glob_text(root@, path@, depth),
{
    if depth == 0 {
        proof {
            reveal_strlit(".");
        }
        return ".".to_owned();
    }
    let n = path.unicode_len();
    let rest = if starts_with(path, root) {
        path.substring_char(root.unicode_len(), n)
    } else {
        path
    };
    let rn = rest.unicode_len();
    let rel = if rn > 0 && rest.get_char(0) == '/' {
        rest.substring_char(1, rn)
    } else {
        rest
    };
    assert(rel@ =~= strip_root(root@, path@));
    let mut out = "./".to_owned();
    proof {
        reveal_strlit("./");
    }
    out.append(rel);
    assert(out@ =~= glob_text(root@, path@, depth));
    out
}

/// `base` joined with `rel`, as `Path::join` does.
pub fn join_path_text(base: &str, rel: &str) -> (r: String)
    ensures
        r@ == join_path(base@, rel@),
{
    let bn = base.unicode_len();
    if rel.unicode_len() > 0 && rel.get_char(0) == '/' {
        return rel.to_owned();
    }
    let mut out = base.to_owned();
    if bn > 0 && base.get_char(bn - 1) != '/' {
        proof {
            reveal_strlit("/");
        }
        out.append("/");
    }
    out.append(rel);
    assert(out@ =~= join_path(base@, rel@));
    out
}

/// The matches of `glob` among the walk's entries below `root`, in walk order, of the types
/// that `dirs` and `files` admit. With `limit` `Some(h)`, stops once `h + 1` are found.
pub fn collect_matches(
    root: &str,
    entries: &[Result<WalkEntry, String>],
    glob: &GlobPattern,
    dirs: bool,
    files: bool,
    limit: Option<usize>,
) -> (r: Vec<String>)
    ensures
        views(r@) == at_most(matches_of(root@, glob.source(), dirs, files, entries@), limit),
{
    let ghost g = glob.source();
    let ghost all = matches_of(root@, g, dirs, files, entries@);
    let mut out: Vec<String> = Vec::new();
    let mut i: usize = 0;
    while i < entries.len()
        invariant
            g == glob.source(),
            all == matches_of(root@, g, dirs, files, entries@),
            i <= entries@.len(),
            views(out@) == matches_of(root@, g, dirs, files, entries@.subrange(0, i as int)),
            limit matches Some(h) ==> out@.len() <= h,
        decreases entries.len() - i,
    {
        let ghost prev = out@;
        assert(entries@.subrange(0, i + 1).drop_last() =~= entries@.subrange(0, i as int));
        match &entries[i] {
            Ok(w) => {
                match &w.path {
                    Some(p) => {
                        let text = glob_text_of(root, p.as_str(), w.depth);
                        if glob_is_match(glob, text.as_str()) && ((dirs && (files || w.is_dir))
                            || (files && w.is_file)) {
                            let mut found = p.clone();
                            if w.is_dir {
                                proof {
                                    reveal_strlit("/");
                                }
                                found.append("/");
                            }
                            assert(found@ =~= entry_text(*w));
                            out.push(found);
                            assert(views(out@) =~= views(prev).push(entry_text(*w)));
                            if let Some(h) = limit {
                                if out.len() > h {
                                    proof {
                                        lemma_matches_grow(root@, g, dirs, files, entries@, i + 1, entries@.len() as int);
                                        assert(entries@.subrange(0, entries@.len() as int) =~= entries@);
                                    }
                                    assert(views(out@) =~= at_most(all, limit));
                                    return out;
                                }
                            }
                        }
                    },
                    None => {},
                }
            },
            Err(_) => {},
        }
        i += 1;
    }
    assert(entries@.subrange(0, entries@.len() as int) =~= entries@);
    out
}

/// The nearest directory, from `start` upward, that holds `.git` or `.svn`.
pub fn repository_root(start: String) -> (r: Result<String, LaxError>)
    ensures
        r matches Ok(d) ==> is_ancestor(start@, d@),
        r matches Err(e) ==> e is NotARepository && reaches_top(start@),
{
    let mut dir = start;
    let ghost mut n: nat = 0;
    assert(ancestor_at(start@, 0) == Some(start@));
    loop
        invariant
            ancestor_at(start@, n) == Some(dir@),
        decreases dir@.len(),
    {
        let has_git = path_exists(join_path_text(dir.as_str(), ".git").as_str());
        let has_svn = path_exists(join_path_text(dir.as_str(), ".svn").as_str());
        match repository_step(dir.as_str(), has_git, has_svn) {
            RootSearch::Found => {
                return Ok(dir);
            },
            RootSearch::Up(p) => {
                proof {
                    n = n + 1;
                }
                dir = p;
            },
            RootSearch::Exhausted => {
                assert(ancestor_at(start@, n) matches Some(d) && parent_of(d) is None);
                return Err(LaxError::NotARepository);
            },
        }
    }
}

/// The repository root above the current directory (which directory that is depends on the
/// process, so nothing is stated of it).
fn current_repository_root() -> (r: Result<String, LaxError>)
    ensures
        r matches Err(e) ==> e is NotARepository || e is IoError,
{
    match current_directory() {
        Some(start) => repository_root(start),
        None => Err(LaxError::IoError("the current directory cannot be read".to_owned())),
    }
}

impl<M: SelectorMenu> Expander<M> {
    /// All matches of `pattern` below `entry_point`, in walk order. When every selector of
    /// `selector_group` picks from the front, the search stops as soon as the largest
    /// offset is covered.
    pub fn fetch_matches(
        &self,
        from_repository_root: bool,
        entry_point: &str,
        pattern: &str,
        selector_group: &Option<SelectorGroup>,
    ) -> (r: Result<Vec<String>, LaxError>)
        ensures
            pattern@.len() == 0 && !from_repository_root ==> (r matches Err(e) && e is EmptyGlob),
            pattern@.len() == 0 && from_repository_root ==> (r matches Err(e) ==> e is NotARepository
                || e is IoError),
            ends_with_slash(pattern@) && !self.config.match_with_dirs ==> (r matches Err(e)
                && e is DirectoriesDisabled),
            pattern@.len() > 0 && !(ends_with_slash(pattern@) && !self.config.match_with_dirs)
                && !glob_compiles(search_glob(pattern@)) ==> (r matches Err(e) && e is GlobError),
            r matches Ok(v) ==> fetched(
                self.config,
                from_repository_root,
                entry_point@,
                pattern@,
                *selector_group,
                views(v@),
            ),
            r matches Err(e) ==> (e is EmptyGlob || e is DirectoriesDisabled || e is GlobError
                || e is NotARepository || e is NoSuchEntryPoint || e is IoError),
            r matches Err(e) ==> (e is EmptyGlob ==> pattern@.len() == 0 && !from_repository_root)
                && (e is DirectoriesDisabled ==> ends_with_slash(pattern@) && !self.config.match_with_dirs)
                && (e is GlobError ==> pattern@.len() > 0 && !glob_compiles(search_glob(pattern@))),
    {
        let pn = pattern.unicode_len();
        if pn == 0 {
            if from_repository_root {
                let root = current_repository_root()?;
                let v = vec![root];
                assert(views(v@)[0] == root@);
                return Ok(v);
            }
            return Err(LaxError::EmptyGlob);
        }
        let match_with_dirs = self.config.match_with_dirs;
        let mut match_with_files = self.config.match_with_files;
        let mut stem = pattern;
        if pattern.get_char(pn - 1) == '/' {
            stem = pattern.substring_char(0, pn - 1);
            match_with_files = false;
            if !match_with_dirs {
                return Err(LaxError::DirectoriesDisabled);
            }
        }
        let mut glob_source = "./**/".to_owned();
        proof {
            reveal_strlit("./**/");
        }
        glob_source.append(stem);
        assert(glob_source@ =~= search_glob(pattern@));
        let glob = match compile_glob(glob_source.as_str()) {
            Ok(g) => g,
            Err(e) => return Err(LaxError::GlobError(e)),
        };
        let expanded = expand_tilde(entry_point);
        let root = if from_repository_root {
            let repo = current_repository_root()?;
            if expanded.as_str() == "." || expanded.as_str() == "/" {
                repo
            } else {
                join_path_text(repo.as_str(), expanded.as_str())
            }
        } else {
            expanded
        };
        if !path_exists(root.as_str()) {
            return Err(LaxError::NoSuchEntryPoint(root));
        }
        let limit = match selector_group {
            Some(g) => g.highest_index(),
            None => None,
        };
        let entries = walk_tree(root.as_str(), self.config.search_hidden);
        if let Some(m) = first_walk_error(entries.as_slice()) {
            return Err(LaxError::IoError(m));
        }
        let found = collect_matches(root.as_str(), entries.as_slice(), &glob, match_with_dirs, match_with_files, limit);
        assert(views(found@) == at_most(
            matches_of(root@, search_glob(pattern@), match_with_dirs, match_with_files, entries@),
            limit,
        ));
        assert(pruned(root@, entries@, self.config.search_hidden));
        assert(walk_root(from_repository_root, entry_point@, root@));
        assert(files_wanted(self.config, pattern@) == match_with_files);
        assert(found_by_walk(
            views(found@),
            root@,
            search_glob(pattern@),
            match_with_dirs,
            match_with_files,
            limit,
            self.config.search_hidden,
        ));
        Ok(found)
    }
}

} // verus!
