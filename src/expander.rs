//! Expanding `@` tokens in an argument list.
use vstd::prelude::*;
use vstd::string::*;
use crate::errors::LaxError;
use crate::fetch::{at_most, ends_with_slash, fetched, lemma_early_stop_keeps_selection, limit_of, search_glob};
use crate::outside::{glob_compiles, is_directory, parent_of, parent_path};
use crate::pattern::{
    caret, entry_of, glob_of, glob_part, parse_pattern, pattern_ok, root_flag, selector_part,
};
use crate::selector::{
    all_tokens_valid, group_denotes, parse_selectors, selected, split_on, trimmed, views,
    SelectorGroup,
};

verus! {

/// How `@` patterns match.
pub struct Config {
    /// Do `@` patterns match directories?
    pub match_with_dirs: bool,
    /// Do `@` patterns match files?
    pub match_with_files: bool,
    /// Replace each selected file by its parent directory.
    pub transform_files_to_dirs: bool,
    /// Search hidden files and directories too.
    pub search_hidden: bool,
}

impl Default for Config {
    fn default() -> (r: Config)
        ensures
            r.match_with_dirs,
            r.match_with_files,
            !r.transform_files_to_dirs,
            !r.search_hidden,
    {
        Config {
            match_with_dirs: true,
            match_with_files: true,
            transform_files_to_dirs: false,
            search_hidden: false,
        }
    }
}

/// The user's way of narrowing several candidates down when a pattern gives no selector.
pub trait SelectorMenu {
    /// Asks for a selection among `paths` (at least two) until an answer is given that
    /// applies, and returns what that answer selects: an implementation hands each answer to
    /// `apply_menu_answer` and asks again while it gives an error. The menu list can be shown
    /// before the first question only.
    fn pick(&self, paths: &[String]) -> (r: Vec<String>)
        requires
            paths@.len() > 1,
        ensures
            exists|answer: Seq<char>| #[trigger] menu_outcome(
                views(paths@),
                answer,
                Ok::<Vec<String>, LaxError>(r),
            ),
    ;
}

/// Expands `@` patterns.
pub struct Expander<M> {
    pub config: Config,
    /// Consulted when a pattern without selectors matches more than one path.
    pub selector_menu: M,
}

/// An argument that is an `@` pattern.
pub open spec fn is_pattern(a: Seq<char>) -> bool {
    a.len() > 0 && a[0] == '@'
}

/// An argument that starts with an escaped `@` (`\@`).
pub open spec fn is_escaped(a: Seq<char>) -> bool {
    a.len() > 1 && a[0] == '\\' && a[1] == '@'
}

/// What an argument that is no pattern becomes: `\@...` loses its `\`, all else stays.
pub open spec fn literal_arg(a: Seq<char>) -> Seq<char> {
    if is_escaped(a) {
        a.drop_first()
    } else {
        a
    }
}

/// An argument list with no `@` token and no `\@` token is its own rewrite, so rewriting a
/// list that has already been rewritten (and holds neither) leaves it unchanged.
pub proof fn lemma_rewrite_is_identity(args: Seq<Seq<char>>)
    requires
        forall|i: int| 0 <= i < args.len() ==> !is_pattern(#[trigger] args[i]) && !is_escaped(args[i]),
    ensures
        args.map_values(|a: Seq<char>| literal_arg(a)) == args,
{
    assert(args.map_values(|a: Seq<char>| literal_arg(a)) =~= args);
}

/// The lists of `parts`, concatenated in order.
pub open spec fn flatten(parts: Seq<Seq<Seq<char>>>) -> Seq<Seq<char>>
    decreases parts.len(),
{
    if parts.len() == 0 {
        seq![]
    } else {
        flatten(parts.drop_last()) + parts.last()
    }
}

/// `parts` has one list per argument: each argument that is no pattern stands for itself, and
/// each `@` token for what it can expand to.
pub open spec fn rewrite_parts(config: Config, args: Seq<Seq<char>>, parts: Seq<Seq<Seq<char>>>) -> bool {
    &&& parts.len() == args.len()
    &&& forall|i: int| 0 <= i < args.len() && !is_pattern(#[trigger] args[i]) ==> parts[i] == seq![
        literal_arg(args[i]),
    ]
    &&& forall|i: int| 0 <= i < args.len() && is_pattern(#[trigger] args[i]) ==> pattern_rewrite(
        config,
        args[i],
        parts[i],
    )
}

/// `r` is the outcome of one menu answer on `paths`: an ill-formed answer is an error,
/// a well-formed one is applied as a selector group.
pub open spec fn menu_outcome(paths: Seq<Seq<char>>, answer: Seq<char>, r: Result<Vec<String>, LaxError>) -> bool {
    let toks = split_on(trimmed(answer), ',');
    &&& !all_tokens_valid(toks) ==> r is Err
    &&& all_tokens_valid(toks) ==> exists|g: SelectorGroup|
        #[trigger] group_denotes(toks, g) && selected(g.selectors@, paths, r)
}

/// `r` is what narrowing the candidates `found` of `pattern` gives: no candidate is an
/// error; selectors, when given, are applied; a single candidate is taken as it is; and
/// several without selectors go to the menu, which always settles on some selection.
pub open spec fn narrowed(
    pattern: Seq<char>,
    found: Seq<Seq<char>>,
    group: Option<SelectorGroup>,
    r: Result<Vec<String>, LaxError>,
) -> bool {
    &&& found.len() == 0 ==> (r matches Err(e) && e matches LaxError::EntityNotFound(p) && p@
        == pattern)
    &&& found.len() > 0 && group is Some ==> selected(group->0.selectors@, found, r)
    &&& found.len() == 1 && group is None ==> (r matches Ok(v) && views(v@) == found)
    &&& found.len() > 1 && group is None ==> (r is Ok && exists|answer: Seq<char>|
        #[trigger] menu_outcome(found, answer, r))
}

/// A pattern without selectors that has exactly one candidate expands to that candidate
/// alone, whatever the menu would have answered.
pub proof fn lemma_single_candidate_needs_no_menu(
    pattern: Seq<char>,
    found: Seq<Seq<char>>,
    r: Result<Vec<String>, LaxError>,
)
    requires
        found.len() == 1,
        narrowed(pattern, found, None, r),
    ensures
        r matches Ok(v) && views(v@) == found,
{
}

/// A pattern with no candidate fails with `EntityNotFound`, naming the pattern, whatever its
/// selectors.
pub proof fn lemma_no_candidate_is_not_found(
    pattern: Seq<char>,
    group: Option<SelectorGroup>,
    r: Result<Vec<String>, LaxError>,
)
    requires
        narrowed(pattern, seq![], group, r),
    ensures
        r matches Err(e) && e matches LaxError::EntityNotFound(p) && p@ == pattern,
{
}

/// A pattern with selectors, narrowed from a walk that stopped early as its selectors allow,
/// gives what selecting over the whole walk gives: the same paths in the same order, or the
/// same failure.
pub proof fn lemma_expansion_selects_over_whole_walk(
    pattern: Seq<char>,
    g: SelectorGroup,
    all: Seq<Seq<char>>,
    r: Result<Vec<String>, LaxError>,
)
    requires
        all.len() > 0,
        narrowed(pattern, at_most(all, limit_of(Some(g))), Some(g), r),
    ensures
        selected(g.selectors@, all, r),
{
    lemma_early_stop_keeps_selection(g, all, r);
    let short = at_most(all, limit_of(Some(g)));
    assert(short.len() > 0) by {
        if limit_of(Some(g)) is Some {
            assert(short.len() == all.len() || short.len() == limit_of(Some(g))->0 + 1);
        }
    }
}

/// `group` is what the selector string of `pattern` stands for, if it has one.
pub open spec fn pattern_selectors(pattern: Seq<char>, group: Option<SelectorGroup>) -> bool {
    if caret(pattern) < 0 {
        group is None
    } else {
        group is Some && group_denotes(split_on(trimmed(selector_part(pattern)), ','), group->0)
    }
}

/// The selector string of `pattern`, if it has one, is well formed.
pub open spec fn selectors_ok(pattern: Seq<char>) -> bool {
    caret(pattern) < 0 || all_tokens_valid(split_on(trimmed(selector_part(pattern)), ','))
}

/// Nothing decided before the disk is read stops `pattern` from expanding: it is well formed,
/// so are its selectors, and it asks for directories only where they may match.
pub open spec fn pattern_admissible(config: Config, pattern: Seq<char>) -> bool {
    &&& pattern_ok(pattern)
    &&& selectors_ok(pattern)
    &&& !(ends_with_slash(glob_of(glob_part(pattern))) && !config.match_with_dirs)
}

/// `r` is what expanding `pattern` gives for some candidate list that fetching its glob
/// below its entry point can give.
pub open spec fn expansion(config: Config, pattern: Seq<char>, r: Result<Vec<String>, LaxError>) -> bool {
    exists|found: Seq<Seq<char>>, group: Option<SelectorGroup>|
        pattern_selectors(pattern, group) && fetched(
            config,
            root_flag(pattern),
            entry_of(glob_part(pattern)),
            glob_of(glob_part(pattern)),
            group,
            found,
        ) && #[trigger] narrowed(pattern, found, group, r)
}

/// `e` is an error that expanding `pattern` can end in: the first of the checks made before
/// the disk is read that fails, or else a missing repository or entry point, or what
/// narrowing some fetched candidate list gives.
pub open spec fn pattern_failure(config: Config, pattern: Seq<char>, e: LaxError) -> bool {
    let glob = glob_of(glob_part(pattern));
    if !pattern_ok(pattern) {
        e is MalformedPattern
    } else if !selectors_ok(pattern) {
        e is InvalidSelector || e is SelectorsAreOneIndexed
    } else if ends_with_slash(glob) && !config.match_with_dirs {
        e is DirectoriesDisabled
    } else if glob.len() == 0 && !root_flag(pattern) {
        e is EmptyGlob
    } else if glob.len() > 0 && !glob_compiles(search_glob(glob)) {
        e is GlobError
    } else {
        e is NotARepository || e is NoSuchEntryPoint || e is IoError || expansion(config, pattern, Err(e))
    }
}

/// `e` is an error that rewriting the `@` token `a` can end in: one of expanding it, or a
/// file among its expansion that has no parent to stand for it.
pub open spec fn token_failure(config: Config, a: Seq<char>, e: LaxError) -> bool {
    ||| pattern_failure(config, a, e)
    ||| (e is NoParentDirectory && config.transform_files_to_dirs && exists|pre: Vec<String>|
        #[trigger] expansion(config, a, Ok::<Vec<String>, LaxError>(pre)) && exists|k: int|
            0 <= k < pre@.len() && transformed(#[trigger] pre@[k]@, false) is None)
}

/// What a selected path becomes under the parent transform: a directory stays, a file
/// becomes its parent, and a file without a (non-empty) parent has nothing to become.
pub open spec fn transformed(path: Seq<char>, is_dir: bool) -> Option<Seq<char>> {
    if is_dir {
        Some(path)
    } else {
        match parent_of(path) {
            Some(p) => if p.len() > 0 {
                Some(p)
            } else {
                None
            },
            None => None,
        }
    }
}

/// `ys` is `xs` transformed path by path, `dirs` telling which are directories.
pub open spec fn transformed_by(xs: Seq<Seq<char>>, dirs: Seq<bool>, ys: Seq<Seq<char>>) -> bool {
    &&& dirs.len() == xs.len()
    &&& ys.len() == xs.len()
    &&& forall|i: int| 0 <= i < xs.len() ==> transformed(xs[i], dirs[i]) == Some(#[trigger] ys[i])
}

/// `ys` is what the post-selection transforms of `config` make of `xs`.
pub open spec fn post_transformed(config: Config, xs: Seq<Seq<char>>, ys: Seq<Seq<char>>) -> bool {
    if config.transform_files_to_dirs {
        exists|dirs: Seq<bool>| #[trigger] transformed_by(xs, dirs, ys)
    } else {
        ys == xs
    }
}

/// `part` is what the `@` token `a` can be replaced by.
pub open spec fn pattern_rewrite(config: Config, a: Seq<char>, part: Seq<Seq<char>>) -> bool {
    &&& pattern_admissible(config, a)
    &&& exists|pre: Vec<String>|
        #[trigger] expansion(config, a, Ok::<Vec<String>, LaxError>(pre)) && post_transformed(
            config,
            views(pre@),
            part,
        )
}

/// The `@` token `a` has some rewrite.
pub open spec fn rewritable(config: Config, a: Seq<char>) -> bool {
    exists|part: Seq<Seq<char>>| #[trigger] pattern_rewrite(config, a, part)
}

/// Keeps a path, or replaces it by its parent when it is no directory.
pub fn transform_path(path: &str, is_dir: bool) -> (r: Result<String, LaxError>)
    ensures
        match transformed(path@, is_dir) {
            Some(t) => r matches Ok(s) && s@ == t,
            None => r matches Err(e) && e matches LaxError::NoParentDirectory(x) && x@ == path@,
        },
{
    if is_dir {
        return Ok(path.to_owned());
    }
    match parent_path(path) {
        Some(p) => {
            if p.unicode_len() > 0 {
                Ok(p)
            } else {
                Err(LaxError::NoParentDirectory(path.to_owned()))
            }
        },
        None => Err(LaxError::NoParentDirectory(path.to_owned())),
    }
}

/// Applies one answer given at the menu to `paths`.
pub fn apply_menu_answer(paths: &[String], answer: &str) -> (r: Result<Vec<String>, LaxError>)
    ensures
        menu_outcome(views(paths@), answer@, r),
{
    let group = parse_selectors(answer)?;
    let r = group.select(paths);
    assert(group_denotes(split_on(trimmed(answer@), ','), group));
    r
}

impl<M: SelectorMenu> Expander<M> {
    /// Narrows the candidates of `pattern` down: by its selectors when it has some, to the
    /// one candidate when there is only one, else by asking the menu.
    pub fn narrow(&self, pattern: &str, paths: Vec<String>, selector_group: Option<SelectorGroup>) -> (r: Result<Vec<String>, LaxError>)
        ensures
            narrowed(pattern@, views(paths@), selector_group, r),
            paths@.len() == 1 && selector_group is None ==> r == Ok::<Vec<String>, LaxError>(paths),
    {
        if paths.len() == 0 {
            return Err(LaxError::EntityNotFound(pattern.to_owned()));
        }
        match selector_group {
            Some(g) => g.select(paths.as_slice()),
            None => {
                if paths.len() == 1 {
                    Ok(paths)
                } else {
                    Ok(self.selector_menu.pick(paths.as_slice()))
                }
            },
        }
    }

    /// Expands one `@` token into the paths it stands for.
    pub fn expand_pattern(&self, pattern: &str) -> (r: Result<Vec<String>, LaxError>)
        requires
            is_pattern(pattern@),
        ensures
            !pattern_ok(pattern@) ==> (r matches Err(e) && e is MalformedPattern),
            pattern_ok(pattern@) && !selectors_ok(pattern@) ==> r is Err,
            pattern_ok(pattern@) && selectors_ok(pattern@) && ends_with_slash(
                glob_of(glob_part(pattern@)),
            ) && !self.config.match_with_dirs ==> (r matches Err(e) && e is DirectoriesDisabled),
            pattern_ok(pattern@) && selectors_ok(pattern@) && glob_of(glob_part(pattern@)).len() == 0
                && !root_flag(pattern@) ==> (r matches Err(e) && e is EmptyGlob),
            pattern_admissible(self.config, pattern@) && glob_of(glob_part(pattern@)).len() > 0
                && !glob_compiles(search_glob(glob_of(glob_part(pattern@)))) ==> (r matches Err(e)
                && e is GlobError),
            r is Ok ==> pattern_admissible(self.config, pattern@),
            r is Ok || (r matches Err(e) && e is EntityNotFound) ==> expansion(self.config, pattern@, r),
            r matches Err(e) ==> pattern_failure(self.config, pattern@, e),
    {
        let (from_root, entry_point, glob, selectors) = parse_pattern(pattern)?;
        let selector_group = match selectors {
            Some(raw) => Some(parse_selectors(raw)?),
            None => None,
        };
        assert(pattern_selectors(pattern@, selector_group));
        let paths = self.fetch_matches(from_root, entry_point, glob, &selector_group)?;
        let ghost found = views(paths@);
        let r = self.narrow(pattern, paths, selector_group);
        assert(narrowed(pattern@, found, selector_group, r));
        assert(expansion(self.config, pattern@, r));
        r
    }

    /// Replaces each selected file by its parent directory, when so configured.
    pub fn apply_post_transforms(&self, expanded: Vec<String>) -> (r: Result<Vec<String>, LaxError>)
        ensures
            !self.config.transform_files_to_dirs ==> r == Ok::<Vec<String>, LaxError>(expanded),
            r matches Ok(v) ==> post_transformed(self.config, views(expanded@), views(v@)),
            r matches Err(e) ==> e is NoParentDirectory && exists|i: int| 0 <= i < expanded@.len()
                && transformed(#[trigger] expanded@[i]@, false) is None,
            (forall|i: int| 0 <= i < expanded@.len() ==> transformed(#[trigger] expanded@[i]@, false) is Some)
                ==> r is Ok,
    {
        if !self.config.transform_files_to_dirs {
            return Ok(expanded);
        }
        let ghost xs = views(expanded@);
        let ghost mut dirs: Seq<bool> = seq![];
        let mut out: Vec<String> = Vec::new();
        let mut i: usize = 0;
        while i < expanded.len()
            invariant
                self.config.transform_files_to_dirs,
                xs == views(expanded@),
                i <= expanded@.len(),
                out@.len() == i,
                dirs.len() == i,
                forall|j: int| 0 <= j < i ==> transformed(xs[j], dirs[j]) == Some(#[trigger] out@[j]@),
            decreases expanded.len() - i,
        {
            let is_dir = is_directory(expanded[i].as_str());
            match transform_path(expanded[i].as_str(), is_dir) {
                Ok(t) => {
                    out.push(t);
                    proof {
                        dirs = dirs.push(is_dir);
                    }
                },
                Err(e) => {
                    assert(transformed(expanded@[i as int]@, false) is None);
                    return Err(e);
                },
            }
            i += 1;
        }
        assert(transformed_by(xs, dirs, views(out@)));
        Ok(out)
    }

    /// Rewrites an argument list: each `@` token is replaced by the paths it expands to,
    /// `\@...` loses its `\`, and every other argument stays as it is.
    pub fn expand_arguments(&self, args: &[String]) -> (r: Result<Vec<String>, LaxError>)
        ensures
            r matches Ok(v) ==> exists|parts: Seq<Seq<Seq<char>>>|
                #[trigger] rewrite_parts(self.config, views(args@), parts) && views(v@) == flatten(parts),
            r matches Err(e) ==> exists|i: int| 0 <= i < args@.len() && is_pattern(#[trigger] args@[i]@)
                && token_failure(self.config, args@[i]@, e) && forall|j: int| 0 <= j < i && is_pattern(
                #[trigger] args@[j]@) ==> rewritable(self.config, args@[j]@),
            (exists|i: int| 0 <= i < args@.len() && is_pattern(#[trigger] args@[i]@) && !pattern_admissible(
                self.config,
                args@[i]@,
            )) ==> r is Err,
            (forall|i: int| 0 <= i < args@.len() ==> !is_pattern(#[trigger] args@[i]@)) ==> (r matches Ok(v)
                && views(v@) == views(args@).map_values(|a: Seq<char>| literal_arg(a))),
    {
        let ghost a = views(args@);
        let ghost mut parts: Seq<Seq<Seq<char>>> = seq![];
        let mut out: Vec<String> = Vec::new();
        let mut i: usize = 0;
        while i < args.len()
            invariant
                a == views(args@),
                i <= args@.len(),
                parts.len() == i,
                forall|j: int| 0 <= j < i && !is_pattern(#[trigger] a[j]) ==> parts[j] == seq![
                    literal_arg(a[j]),
                ],
                forall|j: int| 0 <= j < i && is_pattern(#[trigger] a[j]) ==> pattern_rewrite(
                    self.config,
                    a[j],
                    parts[j],
                ),
                views(out@) == flatten(parts),
                (forall|j: int| 0 <= j < i ==> !is_pattern(#[trigger] a[j])) ==> views(out@)
                    =~= a.subrange(0, i as int).map_values(|x: Seq<char>| literal_arg(x)),
            decreases args.len() - i,
        {
            let arg = args[i].as_str();
            let n = arg.unicode_len();
            let ghost prev = out@;
            let ghost prev_parts = parts;
            if n > 0 && arg.get_char(0) == '@' {
                assert(is_pattern(args@[i as int]@));
                assert forall|j: int| 0 <= j < i && is_pattern(#[trigger] args@[j]@) implies rewritable(
                    self.config,
                    args@[j]@,
                ) by {
                    assert(a[j] == args@[j]@);
                    assert(pattern_rewrite(self.config, a[j], parts[j]));
                }
                let expanded = self.expand_pattern(arg)?;
                let ghost pre = expanded;
                let transformed = match self.apply_post_transforms(expanded) {
                    Ok(t) => t,
                    Err(e) => {
                        assert(expansion(self.config, a[i as int], Ok::<Vec<String>, LaxError>(pre)));
                        assert(token_failure(self.config, args@[i as int]@, e));
                        return Err(e);
                    },
                };
                assert(pattern_rewrite(self.config, a[i as int], views(transformed@)));
                let mut k: usize = 0;
                while k < transformed.len()
                    invariant
                        k <= transformed@.len(),
                        views(out@) == views(prev) + views(transformed@.subrange(0, k as int)),
                    decreases transformed.len() - k,
                {
                    let ghost before = out@;
                    out.push(transformed[k].clone());
                    assert(views(out@) =~= views(before).push(transformed@[k as int]@));
                    assert(views(transformed@.subrange(0, k + 1)) =~= views(
                        transformed@.subrange(0, k as int),
                    ).push(transformed@[k as int]@));
                    k += 1;
                }
                assert(transformed@.subrange(0, transformed@.len() as int) =~= transformed@);
                proof {
                    parts = prev_parts.push(views(transformed@));
                    assert(parts.drop_last() =~= prev_parts);
                    assert(is_pattern(a[i as int]));
                }
            } else {
                let literal = if n > 1 && arg.get_char(0) == '\\' && arg.get_char(1) == '@' {
                    arg.substring_char(1, n)
                } else {
                    arg
                };
                assert(literal@ =~= literal_arg(a[i as int]));
                out.push(literal.to_owned());
                proof {
                    parts = prev_parts.push(seq![literal@]);
                    assert(parts.drop_last() =~= prev_parts);
                    assert(views(out@) =~= views(prev) + seq![literal@]);
                    assert(a.subrange(0, i + 1).map_values(|x: Seq<char>| literal_arg(x)) =~= a.subrange(
                        0,
                        i as int,
                    ).map_values(|x: Seq<char>| literal_arg(x)).push(literal@));
                }
            }
            i += 1;
        }
        assert(rewrite_parts(self.config, a, parts));
        assert forall|k: int| 0 <= k < args@.len() && is_pattern(#[trigger] args@[k]@) implies pattern_admissible(
            self.config,
            args@[k]@,
        ) by {
            assert(a[k] == args@[k]@);
        }
        assert(a.subrange(0, a.len() as int) =~= a);
        Ok(out)
    }
}

} // verus!
