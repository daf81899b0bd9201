//! Selectors: narrowing an ordered candidate list by position, by regex, or to all of it.
use vstd::prelude::*;
use vstd::string::*;
use crate::errors::LaxError;
use crate::outside::{compile_regex, regex_compiles, regex_finds, regex_is_match};

verus! {

/// One selection operation on a candidate list.
#[derive(PartialEq, Debug)]
pub enum Selector {
    /// Every candidate.
    All,
    /// The candidate at this 0-based offset from the front.
    FromFront(usize),
    /// The candidate at this 0-based offset from the back (0 is the last one).
    FromBack(usize),
    /// Every candidate in which this regex finds a match.
    Regex(String),
}

/// Selectors applied in turn, each to the whole candidate list, results concatenated.
#[derive(PartialEq, Debug)]
pub struct SelectorGroup {
    pub selectors: Vec<Selector>,
}

/// The texts of a list of strings.
pub open spec fn views(v: Seq<String>) -> Seq<Seq<char>> {
    v.map_values(|s: String| s@)
}

/// The paths, in order, in which the regex `re` finds a match.
pub open spec fn regex_filter(re: Seq<char>, paths: Seq<Seq<char>>) -> Seq<Seq<char>>
    decreases paths.len(),
{
    if paths.len() == 0 {
        seq![]
    } else {
        let rest = regex_filter(re, paths.drop_last());
        if regex_finds(re, paths.last()) {
            rest.push(paths.last())
        } else {
            rest
        }
    }
}

/// Whether selector `s` can be applied to `paths` without error.
pub open spec fn applies(s: Selector, paths: Seq<Seq<char>>) -> bool {
    match s {
        Selector::All => true,
        Selector::FromFront(k) => k < paths.len(),
        Selector::FromBack(k) => k < paths.len(),
        Selector::Regex(re) => regex_compiles(re@),
    }
}

/// What selector `s` picks out of `paths`.
pub open spec fn picked(s: Selector, paths: Seq<Seq<char>>) -> Seq<Seq<char>> {
    match s {
        Selector::All => paths,
        Selector::FromFront(k) => seq![paths[k as int]],
        Selector::FromBack(k) => seq![paths[paths.len() - 1 - k]],
        Selector::Regex(re) => regex_filter(re@, paths),
    }
}

/// What a sequence of selectors picks out of `paths`, concatenated in order.
pub open spec fn selection(sels: Seq<Selector>, paths: Seq<Seq<char>>) -> Seq<Seq<char>>
    decreases sels.len(),
{
    if sels.len() == 0 {
        seq![]
    } else {
        selection(sels.drop_last(), paths) + picked(sels.last(), paths)
    }
}

pub open spec fn all_apply(sels: Seq<Selector>, paths: Seq<Seq<char>>) -> bool {
    forall|i: int| 0 <= i < sels.len() ==> applies(#[trigger] sels[i], paths)
}

/// The error raised by a selector that does not apply.
pub open spec fn selector_error(s: Selector, e: LaxError) -> bool {
    match s {
        Selector::All => false,
        Selector::FromFront(k) => e matches LaxError::SelectorOutOfRange { from_back, offset }
            && !from_back && offset == k,
        Selector::FromBack(k) => e matches LaxError::SelectorOutOfRange { from_back, offset }
            && from_back && offset == k,
        Selector::Regex(_) => e is RegexError,
    }
}

/// `sels[i]` is the first selector that does not apply, and `e` is its error.
pub open spec fn first_failure(sels: Seq<Selector>, paths: Seq<Seq<char>>, i: int, e: LaxError) -> bool {
    &&& 0 <= i < sels.len()
    &&& !applies(sels[i], paths)
    &&& forall|j: int| 0 <= j < i ==> applies(#[trigger] sels[j], paths)
    &&& selector_error(sels[i], e)
}

/// `r` is the outcome of applying selectors `sels` to `paths`: an error on an empty list,
/// else the first failing selector's error, else the concatenation of what each picks.
pub open spec fn selected(sels: Seq<Selector>, paths: Seq<Seq<char>>, r: Result<Vec<String>, LaxError>) -> bool {
    &&& paths.len() == 0 ==> (r matches Err(e) && e is EmptyCandidateList)
    &&& paths.len() > 0 && all_apply(sels, paths) ==> (r matches Ok(v) && views(v@) == selection(sels, paths))
    &&& paths.len() > 0 && !all_apply(sels, paths) ==> (r matches Err(e) && exists|i: int|
        first_failure(sels, paths, i, e))
}

/// Every selector picks by position from the front.
pub open spec fn all_from_front(sels: Seq<Selector>) -> bool {
    forall|i: int| 0 <= i < sels.len() ==> (#[trigger] sels[i]) is FromFront
}

/// The largest offset among selectors that all pick from the front (0 for none).
pub open spec fn max_front_offset(sels: Seq<Selector>) -> nat
    decreases sels.len(),
{
    if sels.len() == 0 {
        0
    } else {
        let rest = max_front_offset(sels.drop_last());
        match sels.last() {
            Selector::FromFront(k) => if k > rest { k as nat } else { rest },
            _ => rest,
        }
    }
}

/// The paths in which the regex finds a match.
fn regex_matches(m: &crate::outside::RegexMatcher, paths: &[String]) -> (r: Vec<String>)
    ensures
        views(r@) == regex_filter(m.source(), views(paths@)),
{
    let mut out: Vec<String> = Vec::new();
    let mut i: usize = 0;
    while i < paths.len()
        invariant
            i <= paths@.len(),
            views(out@) == regex_filter(m.source(), views(paths@.subrange(0, i as int))),
        decreases paths.len() - i,
    {
        let ghost before = paths@.subrange(0, i as int);
        let ghost after = paths@.subrange(0, i + 1);
        assert(views(after).drop_last() =~= views(before));
        assert(views(after).last() == paths@[i as int]@);
        let ghost prev = out@;
        if regex_is_match(m, paths[i].as_str()) {
            out.push(paths[i].clone());
            assert(views(out@) =~= views(prev).push(paths@[i as int]@));
        }
        i += 1;
    }
    assert(paths@.subrange(0, paths@.len() as int) =~= paths@);
    out
}

/// Appends copies of all of `paths` to `out`.
fn push_all(out: &mut Vec<String>, paths: &[String])
    ensures
        views(final(out)@) == views(old(out)@) + views(paths@),
{
    let mut i: usize = 0;
    while i < paths.len()
        invariant
            i <= paths@.len(),
            views(out@) == views(old(out)@) + views(paths@.subrange(0, i as int)),
        decreases paths.len() - i,
    {
        let ghost prev = out@;
        out.push(paths[i].clone());
        assert(views(out@) =~= views(prev).push(paths@[i as int]@));
        assert(views(paths@.subrange(0, i + 1)) =~= views(paths@.subrange(0, i as int)).push(
            paths@[i as int]@,
        ));
        i += 1;
    }
    assert(paths@.subrange(0, paths@.len() as int) =~= paths@);
}

impl SelectorGroup {
    /// Applies each selector to the whole of `paths` and concatenates what they pick.
    pub fn select(&self, paths: &[String]) -> (r: Result<Vec<String>, LaxError>)
        ensures
            selected(self.selectors@, views(paths@), r),
    {
        if paths.len() == 0 {
            return Err(LaxError::EmptyCandidateList);
        }
        let ghost sels = self.selectors@;
        let ghost ps = views(paths@);
        let mut out: Vec<String> = Vec::new();
        let mut i: usize = 0;
        while i < self.selectors.len()
            invariant
                sels == self.selectors@,
                ps == views(paths@),
                paths@.len() > 0,
                i <= sels.len(),
                forall|j: int| 0 <= j < i ==> applies(#[trigger] sels[j], ps),
                views(out@) == selection(sels.subrange(0, i as int), ps),
            decreases sels.len() - i,
        {
            let ghost prev = out@;
            assert(sels.subrange(0, i + 1).drop_last() =~= sels.subrange(0, i as int));
            match &self.selectors[i] {
                Selector::All => {
                    push_all(&mut out, paths);
                },
                Selector::FromFront(k) => {
                    if *k >= paths.len() {
                        let e = LaxError::SelectorOutOfRange { from_back: false, offset: *k };
                        assert(first_failure(sels, ps, i as int, e));
                        return Err(e);
                    }
                    out.push(paths[*k].clone());
                    assert(views(out@) =~= views(prev) + seq![ps[*k as int]]);
                },
                Selector::FromBack(k) => {
                    if *k >= paths.len() {
                        let e = LaxError::SelectorOutOfRange { from_back: true, offset: *k };
                        assert(first_failure(sels, ps, i as int, e));
                        return Err(e);
                    }
                    out.push(paths[paths.len() - 1 - *k].clone());
                    assert(views(out@) =~= views(prev) + seq![ps[ps.len() - 1 - *k]]);
                },
                Selector::Regex(re) => {
                    match compile_regex(re.as_str()) {
                        Err(err) => {
                            let e = LaxError::RegexError(err);
                            assert(first_failure(sels, ps, i as int, e));
                            return Err(e);
                        },
                        Ok(m) => {
                            let found = regex_matches(&m, paths);
                            push_all(&mut out, found.as_slice());
                        },
                    }
                },
            }
            i += 1;
        }
        assert(sels.subrange(0, sels.len() as int) =~= sels);
        Ok(out)
    }

    /// The largest offset any selector will ask for, when every selector picks from the
    /// front; `None` when some selector needs the whole list.
    pub fn highest_index(&self) -> (r: Option<usize>)
        ensures
            all_from_front(self.selectors@) ==> r == Some(max_front_offset(self.selectors@) as usize),
            !all_from_front(self.selectors@) ==> r is None,
    {
        let ghost sels = self.selectors@;
        let mut highest: usize = 0;
        let mut i: usize = 0;
        while i < self.selectors.len()
            invariant
                sels == self.selectors@,
                i <= sels.len(),
                all_from_front(sels.subrange(0, i as int)),
                highest as nat == max_front_offset(sels.subrange(0, i as int)),
            decreases sels.len() - i,
        {
            assert(sels.subrange(0, i + 1).drop_last() =~= sels.subrange(0, i as int));
            match &self.selectors[i] {
                Selector::FromFront(k) => {
                    if *k > highest {
                        highest = *k;
                    }
                },
                _ => {
                    assert(!all_from_front(sels));
                    return None;
                },
            }
            i += 1;
            assert(forall|j: int| 0 <= j < i ==> sels.subrange(0, i as int)[j] == sels[j]);
        }
        assert(sels.subrange(0, sels.len() as int) =~= sels);
        Some(highest)
    }
}

/// A character with the Unicode `White_Space` property, as `char::is_whitespace` has it.
pub open spec fn is_white(c: char) -> bool {
    let u = c as u32;
    ||| 0x09 <= u <= 0x0d
    ||| u == 0x20
    ||| u == 0x85
    ||| u == 0xa0
    ||| u == 0x1680
    ||| 0x2000 <= u <= 0x200a
    ||| u == 0x2028
    ||| u == 0x2029
    ||| u == 0x202f
    ||| u == 0x205f
    ||| u == 0x3000
}

/// `text` without its leading white space.
pub open spec fn trim_start(text: Seq<char>) -> Seq<char>
    decreases text.len(),
{
    if text.len() > 0 && is_white(text[0]) {
        trim_start(text.drop_first())
    } else {
        text
    }
}

/// `text` without its trailing white space.
pub open spec fn trim_end(text: Seq<char>) -> Seq<char>
    decreases text.len(),
{
    if text.len() > 0 && is_white(text.last()) {
        trim_end(text.drop_last())
    } else {
        text
    }
}

/// `text` without leading and trailing white space: the stretch from its first to its last
/// character that is not white space.
pub open spec fn trimmed(text: Seq<char>) -> Seq<char> {
    trim_end(trim_start(text))
}

/// Whether `c` is white space, as `char::is_whitespace` has it.
pub fn is_white_char(c: char) -> (r: bool)
    ensures
        r == is_white(c),
{
    let u = c as u32;
    (0x09 <= u && u <= 0x0d) || u == 0x20 || u == 0x85 || u == 0xa0 || u == 0x1680 || (0x2000
        <= u && u <= 0x200a) || u == 0x2028 || u == 0x2029 || u == 0x202f || u == 0x205f || u
        == 0x3000
}

/// `text` without leading and trailing white space, as `str::trim` gives it.
pub fn trim_whitespace(text: &str) -> (r: &str)
    ensures
        r@ == trimmed(text@),
{
    let n = text.unicode_len();
    let mut i: usize = 0;
    assert(text@.subrange(0, n as int) =~= text@);
    while i < n && is_white_char(text.get_char(i))
        invariant
            n == text@.len(),
            i <= n,
            trim_start(text@) == trim_start(text@.subrange(i as int, n as int)),
        decreases n - i,
    {
        assert(text@.subrange(i as int, n as int).drop_first() =~= text@.subrange(i + 1, n as int));
        i += 1;
    }
    assert(trim_start(text@) == text@.subrange(i as int, n as int)) by {
        if i == n {
            assert(text@.subrange(i as int, n as int) =~= Seq::<char>::empty());
        }
    }
    let mut j: usize = n;
    while j > i && is_white_char(text.get_char(j - 1))
        invariant
            n == text@.len(),
            i <= j <= n,
            trim_end(text@.subrange(i as int, n as int)) == trim_end(text@.subrange(i as int, j as int)),
        decreases j,
    {
        assert(text@.subrange(i as int, j as int).drop_last() =~= text@.subrange(i as int, j - 1));
        j -= 1;
    }
    assert(trim_end(text@.subrange(i as int, j as int)) == text@.subrange(i as int, j as int)) by {
        if j == i {
            assert(text@.subrange(i as int, j as int) =~= Seq::<char>::empty());
        }
    }
    text.substring_char(i, j)
}

/// What `s` splits into at each `sep`: the finished pieces, and the piece still open.
pub open spec fn split_acc(s: Seq<char>, sep: char) -> (Seq<Seq<char>>, Seq<char>)
    decreases s.len(),
{
    if s.len() == 0 {
        (seq![], seq![])
    } else {
        let (done, cur) = split_acc(s.drop_last(), sep);
        if s.last() == sep {
            (done.push(cur), seq![])
        } else {
            (done, cur.push(s.last()))
        }
    }
}

/// The pieces of `s` between occurrences of `sep` (always at least one).
pub open spec fn split_on(s: Seq<char>, sep: char) -> Seq<Seq<char>> {
    split_acc(s, sep).0.push(split_acc(s, sep).1)
}

pub open spec fn is_digit(c: char) -> bool {
    '0' <= c <= '9'
}

pub open spec fn all_digits(s: Seq<char>) -> bool {
    s.len() > 0 && forall|i: int| 0 <= i < s.len() ==> is_digit(#[trigger] s[i])
}

/// The value of a string of decimal digits.
pub open spec fn digits_value(s: Seq<char>) -> nat
    decreases s.len(),
{
    if s.len() == 0 {
        0
    } else {
        digits_value(s.drop_last()) * 10 + (s.last() as nat - '0' as nat) as nat
    }
}

pub open spec fn is_negative(t: Seq<char>) -> bool {
    t.len() > 0 && t[0] == '-'
}

/// A decimal integer, with an optional leading `-`.
pub open spec fn is_integer(t: Seq<char>) -> bool {
    if is_negative(t) {
        all_digits(t.drop_first())
    } else {
        all_digits(t)
    }
}

pub open spec fn magnitude(t: Seq<char>) -> nat {
    if is_negative(t) {
        digits_value(t.drop_first())
    } else {
        digits_value(t)
    }
}

/// A decimal integer whose value fits in an `isize`.
pub open spec fn is_isize(t: Seq<char>) -> bool {
    is_integer(t) && if is_negative(t) {
        magnitude(t) <= isize::MAX as int + 1
    } else {
        magnitude(t) <= isize::MAX as int
    }
}

/// Whether `t` is a well-formed selector token.
pub open spec fn token_valid(t: Seq<char>) -> bool {
    ||| t == seq!['a']
    ||| (t.len() > 0 && t[0] == '/')
    ||| t == seq!['l']
    ||| (is_isize(t) && magnitude(t) > 0)
}

/// Token `t` stands for selector `s`.
pub open spec fn token_denotes(t: Seq<char>, s: Selector) -> bool {
    if t == seq!['a'] {
        s is All
    } else if t.len() > 0 && t[0] == '/' {
        s matches Selector::Regex(re) && re@ == t.drop_first()
    } else if t == seq!['l'] {
        s == Selector::FromBack(0)
    } else if is_negative(t) {
        s == Selector::FromBack((magnitude(t) - 1) as usize)
    } else {
        s == Selector::FromFront((magnitude(t) - 1) as usize)
    }
}

/// The error for an ill-formed selector token `t`.
pub open spec fn token_error(t: Seq<char>, e: LaxError) -> bool {
    if is_isize(t) && magnitude(t) == 0 {
        e is SelectorsAreOneIndexed
    } else {
        e matches LaxError::InvalidSelector(x) && x@ == t
    }
}

/// `toks[k]` is the first ill-formed token, and `e` is its error.
pub open spec fn first_bad_token(toks: Seq<Seq<char>>, k: int, e: LaxError) -> bool {
    &&& 0 <= k < toks.len()
    &&& !token_valid(toks[k])
    &&& forall|j: int| 0 <= j < k ==> token_valid(#[trigger] toks[j])
    &&& token_error(toks[k], e)
}

/// The selectors that a selector string stands for, token by token.
pub open spec fn group_denotes(toks: Seq<Seq<char>>, g: SelectorGroup) -> bool {
    &&& g.selectors@.len() == toks.len()
    &&& forall|k: int| 0 <= k < toks.len() ==> token_denotes(#[trigger] toks[k], g.selectors@[k])
}

pub open spec fn all_tokens_valid(toks: Seq<Seq<char>>) -> bool {
    forall|k: int| 0 <= k < toks.len() ==> token_valid(#[trigger] toks[k])
}

proof fn lemma_digits_monotone(s: Seq<char>, j: int)
    requires
        0 <= j <= s.len(),
    ensures
        digits_value(s.subrange(0, j)) <= digits_value(s),
    decreases s.len(),
{
    if j < s.len() {
        lemma_digits_monotone(s.drop_last(), j);
        assert(s.drop_last().subrange(0, j) =~= s.subrange(0, j));
    } else {
        assert(s.subrange(0, j) =~= s);
    }
}

/// The pieces finished in a prefix of `s` stay finished in all of `s`.
proof fn lemma_split_grows(s: Seq<char>, sep: char, i: int, k: int)
    requires
        0 <= i <= k <= s.len(),
    ensures
        split_acc(s.subrange(0, i), sep).0.len() <= split_acc(s.subrange(0, k), sep).0.len(),
        forall|m: int| 0 <= m < split_acc(s.subrange(0, i), sep).0.len()
            ==> #[trigger] split_acc(s.subrange(0, k), sep).0[m] == split_acc(s.subrange(0, i), sep).0[m],
    decreases k - i,
{
    if i < k {
        lemma_split_grows(s, sep, i, k - 1);
        assert(s.subrange(0, k).drop_last() =~= s.subrange(0, k - 1));
    }
}

/// The `m`-th piece finished in a prefix of `s` is the `m`-th piece of `s`.
proof fn lemma_split_prefix(s: Seq<char>, sep: char, i: int)
    requires
        0 <= i <= s.len(),
    ensures
        split_acc(s.subrange(0, i), sep).0.len() < split_on(s, sep).len(),
        forall|m: int| 0 <= m < split_acc(s.subrange(0, i), sep).0.len()
            ==> #[trigger] split_on(s, sep)[m] == split_acc(s.subrange(0, i), sep).0[m],
{
    lemma_split_grows(s, sep, i, s.len() as int);
    assert(s.subrange(0, s.len() as int) =~= s);
}

/// A selector token whose integer value is zero (`0`, `-0`, `00`, ...) is never accepted, so
/// a selector string holding one fails to parse, whether it would count from the front or
/// from the back.
pub proof fn lemma_zero_selector_rejected(text: Seq<char>, k: int)
    requires
        0 <= k < split_on(text, ',').len(),
        is_isize(split_on(text, ',')[k]),
        magnitude(split_on(text, ',')[k]) == 0,
    ensures
        !token_valid(split_on(text, ',')[k]),
        !all_tokens_valid(split_on(text, ',')),
{
    let t = split_on(text, ',')[k];
    if t == seq!['a'] || t == seq!['l'] || (t.len() > 0 && t[0] == '/') {
        assert(!is_isize(t)) by {
            if is_negative(t) {
                assert(t[0] == '-');
            } else {
                assert(!is_digit(t[0]));
            }
        }
    }
}

/// Every offset of a group that picks only from the front is at most its largest offset.
pub proof fn lemma_max_front_offset(sels: Seq<Selector>)
    requires
        all_from_front(sels),
    ensures
        max_front_offset(sels) <= usize::MAX,
        forall|i: int| 0 <= i < sels.len() ==> (#[trigger] sels[i])->FromFront_0 <= max_front_offset(sels),
    decreases sels.len(),
{
    if sels.len() > 0 {
        let rest = sels.drop_last();
        assert(all_from_front(rest)) by {
            assert forall|i: int| 0 <= i < rest.len() implies (#[trigger] rest[i]) is FromFront by {
                assert(rest[i] == sels[i]);
            }
        }
        lemma_max_front_offset(rest);
        assert forall|i: int| 0 <= i < sels.len() implies (#[trigger] sels[i])->FromFront_0
            <= max_front_offset(sels) by {
            if i < sels.len() - 1 {
                assert(rest[i] == sels[i]);
            }
        }
    }
}

/// The first `n` paths, or all of them when there are no more.
pub open spec fn first_paths(paths: Seq<Seq<char>>, n: nat) -> Seq<Seq<char>> {
    if paths.len() > n {
        paths.take(n as int)
    } else {
        paths
    }
}

/// Stopping the search once the largest front offset is covered changes nothing for a group
/// that picks only from the front: on the shortened list it succeeds or fails exactly as on
/// the whole list, with the same selection or the same first failing selector.
pub proof fn lemma_early_stop_selects_the_same(sels: Seq<Selector>, paths: Seq<Seq<char>>, r: Result<Vec<String>, LaxError>)
    requires
        all_from_front(sels),
    ensures
        selected(sels, first_paths(paths, max_front_offset(sels) + 1), r) == selected(sels, paths, r),
{
    let short = first_paths(paths, max_front_offset(sels) + 1);
    lemma_max_front_offset(sels);
    assert forall|i: int| 0 <= i < sels.len() implies applies(#[trigger] sels[i], short) == applies(
        sels[i],
        paths,
    ) && picked(sels[i], short) == picked(sels[i], paths) by {
        assert(sels[i] is FromFront);
    }
    lemma_selection_agrees(sels, short, paths);
    assert(all_apply(sels, short) == all_apply(sels, paths));
    assert forall|i: int, e: LaxError| first_failure(sels, short, i, e) == first_failure(sels, paths, i, e) by {
        if 0 <= i < sels.len() {
            assert forall|j: int| 0 <= j < i implies applies(#[trigger] sels[j], short) == applies(sels[j], paths) by {}
        }
    }
    assert(short.len() == 0 <==> paths.len() == 0);
}

/// Two lists on which every selector applies alike and picks alike give the same selection.
proof fn lemma_selection_agrees(sels: Seq<Selector>, a: Seq<Seq<char>>, b: Seq<Seq<char>>)
    requires
        forall|i: int| 0 <= i < sels.len() ==> picked(#[trigger] sels[i], a) == picked(sels[i], b),
    ensures
        selection(sels, a) == selection(sels, b),
    decreases sels.len(),
{
    if sels.len() > 0 {
        let rest = sels.drop_last();
        assert forall|i: int| 0 <= i < rest.len() implies picked(#[trigger] rest[i], a) == picked(rest[i], b) by {
            assert(rest[i] == sels[i]);
        }
        lemma_selection_agrees(rest, a, b);
        assert(picked(sels[sels.len() - 1], a) == picked(sels[sels.len() - 1], b));
    }
}

/// Reads a decimal integer: its sign and magnitude, or `None` when `t` is no integer or
/// does not fit in an `isize`.
fn parse_integer(t: &str) -> (r: Option<(bool, usize)>)
    ensures
        r is Some <==> is_isize(t@),
        r matches Some((neg, m)) ==> neg == is_negative(t@) && m as nat == magnitude(t@),
{
    let n = t.unicode_len();
    let neg = n > 0 && t.get_char(0) == '-';
    let first: usize = if neg { 1 } else { 0 };
    if first >= n {
        return None;
    }
    let ghost digits = if neg { t@.drop_first() } else { t@ };
    let limit: usize = if neg { isize::MAX as usize + 1 } else { isize::MAX as usize };
    assert(neg == is_negative(t@));
    assert(limit as int == if neg { isize::MAX as int + 1 } else { isize::MAX as int });
    let mut value: usize = 0;
    let mut i: usize = first;
    while i < n
        invariant
            n == t@.len(),
            first <= i <= n,
            first == (if neg { 1usize } else { 0usize }),
            digits == t@.subrange(first as int, n as int),
            value as nat == digits_value(digits.subrange(0, i - first)),
            value <= limit,
            neg == is_negative(t@),
            limit as int == if neg { isize::MAX as int + 1 } else { isize::MAX as int },
            forall|j: int| 0 <= j < i - first ==> is_digit(#[trigger] digits[j]),
        decreases n - i,
    {
        let c = t.get_char(i);
        assert(digits[i - first] == c);
        if c < '0' || c > '9' {
            assert(!all_digits(digits));
            assert(is_integer(t@) ==> all_digits(digits)) by {
                if neg {
                    assert(digits =~= t@.drop_first());
                } else {
                    assert(digits =~= t@);
                }
            }
            return None;
        }
        assert(digits.subrange(0, i + 1 - first).drop_last() =~= digits.subrange(0, i - first));
        let d = (c as u32 - '0' as u32) as usize;
        let next = match value.checked_mul(10) {
            Some(v) => v.checked_add(d),
            None => None,
        };
        match next {
            Some(v) if v <= limit => {
                value = v;
            },
            _ => {
                proof {
                    assert(digits_value(digits.subrange(0, i + 1 - first)) == value * 10 + d);
                    assert(value * 10 + d > limit);
                    if neg {
                        assert(digits =~= t@.drop_first());
                    } else {
                        assert(digits =~= t@);
                    }
                    if all_digits(digits) {
                        lemma_digits_monotone(digits, i + 1 - first);
                    }
                }
                return None;
            },
        }
        i += 1;
    }
    assert(digits.subrange(0, n - first) =~= digits);
    if neg {
        assert(digits =~= t@.drop_first());
    } else {
        assert(digits =~= t@);
    }
    Some((neg, value))
}

/// Reads one selector token.
fn parse_token(t: &str) -> (r: Result<Selector, LaxError>)
    ensures
        r is Ok <==> token_valid(t@),
        r matches Ok(s) ==> token_denotes(t@, s),
        r matches Err(e) ==> token_error(t@, e),
{
    let n = t.unicode_len();
    if n == 1 && t.get_char(0) == 'a' {
        assert(t@ =~= seq!['a']);
        return Ok(Selector::All);
    }
    if n > 0 && t.get_char(0) == '/' {
        assert(t@ != seq!['a']);
        let re = t.substring_char(1, n);
        assert(re@ =~= t@.drop_first());
        return Ok(Selector::Regex(re.to_owned()));
    }
    if n == 1 && t.get_char(0) == 'l' {
        assert(t@ =~= seq!['l']);
        return Ok(Selector::FromBack(0));
    }
    assert(t@ != seq!['a'] && t@ != seq!['l']) by {
        if n == 1 {
            assert(seq!['a'][0] == 'a' && seq!['l'][0] == 'l');
        }
    }
    match parse_integer(t) {
        None => Err(LaxError::InvalidSelector(t.to_owned())),
        Some((neg, m)) => {
            if m == 0 {
                Err(LaxError::SelectorsAreOneIndexed)
            } else if neg {
                Ok(Selector::FromBack(m - 1))
            } else {
                Ok(Selector::FromFront(m - 1))
            }
        },
    }
}

/// Reads a comma-separated list of selectors, taken as it stands.
pub fn parse_selector_list(text: &str) -> (r: Result<SelectorGroup, LaxError>)
    ensures
        all_tokens_valid(split_on(text@, ',')) ==> (r matches Ok(g) && group_denotes(split_on(text@, ','), g)),
        !all_tokens_valid(split_on(text@, ',')) ==> (r matches Err(e)
            && exists|k: int| first_bad_token(split_on(text@, ','), k, e)),
{
    let ghost s = text@;
    let ghost toks = split_on(s, ',');
    let n = text.unicode_len();
    let mut selectors: Vec<Selector> = Vec::new();
    let mut start: usize = 0;
    let mut i: usize = 0;
    while i < n
        invariant
            s == text@,
            toks == split_on(s, ','),
            n == s.len(),
            start <= i <= n,
            split_acc(s.subrange(0, i as int), ',').1 == s.subrange(start as int, i as int),
            selectors@.len() == split_acc(s.subrange(0, i as int), ',').0.len(),
            forall|k: int| 0 <= k < selectors@.len() ==> token_valid(#[trigger] toks[k])
                && token_denotes(toks[k], selectors@[k]),
        decreases n - i,
    {
        let ghost before = s.subrange(0, i as int);
        assert(s.subrange(0, i + 1).drop_last() =~= before);
        if text.get_char(i) == ',' {
            let tok = text.substring_char(start, i);
            proof {
                lemma_split_prefix(s, ',', i + 1);
                assert(split_acc(s.subrange(0, i + 1), ',').0 == split_acc(before, ',').0.push(tok@));
                assert(toks[selectors@.len() as int] == tok@);
            }
            match parse_token(tok) {
                Ok(sel) => {
                    selectors.push(sel);
                },
                Err(e) => {
                    assert(first_bad_token(toks, selectors@.len() as int, e));
                    return Err(e);
                },
            }
            start = i + 1;
            assert(s.subrange(start as int, i + 1) =~= Seq::<char>::empty());
        } else {
            assert(s.subrange(start as int, i + 1) =~= s.subrange(start as int, i as int).push(s[i as int]));
        }
        i += 1;
    }
    assert(s.subrange(0, n as int) =~= s);
    let tok = text.substring_char(start, n);
    assert(toks[selectors@.len() as int] == tok@);
    match parse_token(tok) {
        Ok(sel) => {
            selectors.push(sel);
        },
        Err(e) => {
            assert(first_bad_token(toks, selectors@.len() as int, e));
            return Err(e);
        },
    }
    let g = SelectorGroup { selectors };
    assert(group_denotes(toks, g));
    Ok(g)
}

/// Reads a selector string: surrounding white space is ignored, then each comma-separated
/// token becomes one selector.
pub fn parse_selectors(raw: &str) -> (r: Result<SelectorGroup, LaxError>)
    ensures
        all_tokens_valid(split_on(trimmed(raw@), ',')) ==> (r matches Ok(g) && group_denotes(
            split_on(trimmed(raw@), ','),
            g,
        )),
        !all_tokens_valid(split_on(trimmed(raw@), ',')) ==> (r matches Err(e) && exists|k: int|
            first_bad_token(split_on(trimmed(raw@), ','), k, e)),
{
    parse_selector_list(trim_whitespace(raw))
}

} // verus!
