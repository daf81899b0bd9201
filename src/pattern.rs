//! The grammar of an `@` token: `@[%|\][ENTRY_POINT/**/]GLOB[^SELECTORS]`.
use vstd::prelude::*;
use vstd::string::*;
use crate::errors::LaxError;

verus! {

/// The first index at or after `from` where `s` holds `c`, or -1.
pub open spec fn index_of(s: Seq<char>, c: char, from: int) -> int
    decreases s.len() - from,
{
    if from < 0 || from >= s.len() {
        -1
    } else if s[from] == c {
        from
    } else {
        index_of(s, c, from + 1)
    }
}

/// `s` holds the delimiter `/**/` at index `i`.
pub open spec fn delimiter_at(s: Seq<char>, i: int) -> bool {
    0 <= i && i + 4 <= s.len() && s[i] == '/' && s[i + 1] == '*' && s[i + 2] == '*' && s[i + 3]
        == '/'
}

/// The first index at or after `from` where `s` holds `/**/`, or -1.
pub open spec fn delimiter_index(s: Seq<char>, from: int) -> int
    decreases s.len() - from,
{
    if from < 0 || from + 4 > s.len() {
        -1
    } else if delimiter_at(s, from) {
        from
    } else {
        delimiter_index(s, from + 1)
    }
}

/// The token after `@`.
pub open spec fn after_at(p: Seq<char>) -> Seq<char> {
    p.drop_first()
}

/// The token asks to search from the repository root (`@%`).
pub open spec fn root_flag(p: Seq<char>) -> bool {
    after_at(p).len() > 0 && after_at(p)[0] == '%'
}

/// The token after `@` and after its modifier (`%` or `\`), if any.
pub open spec fn pattern_body(p: Seq<char>) -> Seq<char> {
    let q = after_at(p);
    if q.len() > 0 && (q[0] == '%' || q[0] == '\\') {
        q.drop_first()
    } else {
        q
    }
}

/// Where the body's first `^` is, or -1.
pub open spec fn caret(p: Seq<char>) -> int {
    index_of(pattern_body(p), '^', 0)
}

/// The token is well formed: something follows `@`, and at most one `^` does.
pub open spec fn pattern_ok(p: Seq<char>) -> bool {
    &&& after_at(p).len() > 0
    &&& (caret(p) < 0 || index_of(pattern_body(p), '^', caret(p) + 1) < 0)
}

/// The path-and-glob part: the body before its `^`.
pub open spec fn glob_part(p: Seq<char>) -> Seq<char> {
    if caret(p) < 0 {
        pattern_body(p)
    } else {
        pattern_body(p).subrange(0, caret(p))
    }
}

/// The raw selector string after `^`.
pub open spec fn selector_part(p: Seq<char>) -> Seq<char> {
    pattern_body(p).subrange(caret(p) + 1, pattern_body(p).len() as int)
}

/// The entry point named by a path-and-glob part.
pub open spec fn entry_of(s: Seq<char>) -> Seq<char> {
    let d = delimiter_index(s, 0);
    if d < 0 {
        seq!['.']
    } else if d == 0 {
        seq!['/']
    } else {
        s.subrange(0, d)
    }
}

/// The glob named by a path-and-glob part.
pub open spec fn glob_of(s: Seq<char>) -> Seq<char> {
    let d = delimiter_index(s, 0);
    if d < 0 {
        s
    } else if d + 4 == s.len() {
        seq!['*', '/']
    } else {
        s.subrange(d + 4, s.len() as int)
    }
}

/// The first index at or after `from` where `s` holds `c`.
fn find_char(s: &str, c: char, from: usize) -> (r: Option<usize>)
    requires
        from <= s@.len(),
    ensures
        match r {
            Some(i) => i as int == index_of(s@, c, from as int) && from <= i < s@.len() && s@[i as int]
                == c,
            None => index_of(s@, c, from as int) == -1,
        },
{
    let n = s.unicode_len();
    let mut i = from;
    while i < n
        invariant
            n == s@.len(),
            from <= i <= n,
            index_of(s@, c, from as int) == index_of(s@, c, i as int),
        decreases n - i,
    {
        if s.get_char(i) == c {
            return Some(i);
        }
        i += 1;
    }
    None
}

/// The first index of `/**/` in `s`.
fn find_delimiter(s: &str) -> (r: Option<usize>)
    ensures
        match r {
            Some(i) => i as int == delimiter_index(s@, 0) && i + 4 <= s@.len(),
            None => delimiter_index(s@, 0) == -1,
        },
{
    let n = s.unicode_len();
    let mut i: usize = 0;
    while i < n && n - i >= 4
        invariant
            n == s@.len(),
            i <= n,
            delimiter_index(s@, 0) == delimiter_index(s@, i as int),
        decreases n - i,
    {
        if s.get_char(i) == '/' && s.get_char(i + 1) == '*' && s.get_char(i + 2) == '*'
            && s.get_char(i + 3) == '/' {
            return Some(i);
        }
        i += 1;
    }
    None
}

/// Parses an `@` token into: whether to search from the repository root, the entry point,
/// the glob, and the raw selector string.
pub fn parse_pattern<'a>(pattern: &'a str) -> (r: Result<(bool, &'a str, &'a str, Option<&'a str>), LaxError>)
    requires
        pattern@.len() > 0,
        pattern@[0] == '@',
    ensures
        r is Ok <==> pattern_ok(pattern@),
        r matches Err(e) ==> e is MalformedPattern,
        r matches Ok((root, entry, glob, sel)) ==> {
            &&& root == root_flag(pattern@)
            &&& entry@ == entry_of(glob_part(pattern@))
            &&& glob@ == glob_of(glob_part(pattern@))
            &&& (sel is None <==> caret(pattern@) < 0)
            &&& (sel matches Some(x) ==> x@ == selector_part(pattern@))
        },
{
    let n = pattern.unicode_len();
    if n == 1 {
        return Err(LaxError::MalformedPattern(pattern.to_owned()));
    }
    let rest = pattern.substring_char(1, n);
    assert(rest@ =~= after_at(pattern@));
    let m = rest.unicode_len();
    let first = rest.get_char(0);
    let root = first == '%';
    let body = if first == '%' || first == '\\' {
        rest.substring_char(1, m)
    } else {
        rest
    };
    assert(body@ =~= pattern_body(pattern@));
    let bn = body.unicode_len();
    let (path, selectors) = match find_char(body, '^', 0) {
        None => (body, None),
        Some(c) => {
            if find_char(body, '^', c + 1).is_some() {
                return Err(LaxError::MalformedPattern(pattern.to_owned()));
            }
            (body.substring_char(0, c), Some(body.substring_char(c + 1, bn)))
        },
    };
    assert(path@ =~= glob_part(pattern@));
    let pn = path.unicode_len();
    let (entry, glob) = match find_delimiter(path) {
        None => (".", path),
        Some(d) => {
            let entry = if d == 0 {
                "/"
            } else {
                path.substring_char(0, d)
            };
            let glob = if d + 4 == pn {
                "*/"
            } else {
                path.substring_char(d + 4, pn)
            };
            (entry, glob)
        },
    };
    proof {
        reveal_strlit(".");
        reveal_strlit("/");
        reveal_strlit("*/");
    }
    assert(entry@ =~= entry_of(glob_part(pattern@)));
    assert(glob@ =~= glob_of(glob_part(pattern@)));
    Ok((root, entry, glob, selectors))
}

} // verus!
