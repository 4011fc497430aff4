//! Glob-style path patterns: `*`, `prefix*`, or an exact path.
use vstd::prelude::*;

use crate::text::{chars_of, same_chars, same_prefix};

verus! {

/// Whether `pattern` matches `path`: `"*"` matches everything, a pattern
/// ending in `*` matches paths that start with the rest, any other pattern
/// matches only itself.
pub open spec fn pattern_matches(pattern: Seq<char>, path: Seq<char>) -> bool {
    if pattern == seq!['*'] {
        true
    } else if pattern.len() > 0 && pattern.last() == '*' {
        let prefix = pattern.drop_last();
        prefix.len() <= path.len() && path.take(prefix.len() as int) == prefix
    } else {
        pattern == path
    }
}

/// Decides whether a request path matches a directive's pattern.
pub fn matches_pattern(pattern: &str, path: &str) -> (r: bool)
    ensures
        r == pattern_matches(pattern@, path@),
{
    let p = chars_of(pattern);
    let q = chars_of(path);
    if p.len() == 1 && p[0] == '*' {
        assert(p@ =~= seq!['*']);
        return true;
    }
    assert(p@ != seq!['*']) by {
        if p@ == seq!['*'] {
            assert(p@.len() == 1 && p@[0] == '*');
        }
    }
    if p.len() > 0 && p[p.len() - 1] == '*' {
        let n = p.len() - 1;
        if n > q.len() {
            return false;
        }
        let r = same_prefix(&p, &q, n);
        assert(p@.take(n as int) =~= p@.drop_last());
        r
    } else {
        same_chars(&p, &q)
    }
}

} // verus!
