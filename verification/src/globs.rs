//! Glob pattern matching, relied on from the `glob` crate.

use vstd::prelude::*;

verus! {

use crate::strutil::str_views;

/// What the glob matcher decides for a pattern and a text: whether the
/// pattern compiles and matches the text. The decision is a function of the
/// two strings alone.
pub uninterp spec fn glob_matches(pattern: Seq<char>, text: Seq<char>) -> bool;

/// Relies on glob::Pattern::new and glob::Pattern::matches: compiling a
/// pattern and matching a string against it depend on the two strings
/// alone. A pattern that fails to compile matches nothing, which is how
/// every caller in this crate treats an unusable pattern.
#[verifier::external_body]
pub(crate) fn glob_match(pattern: &str, text: &str) -> (r: bool)
    ensures
        r == glob_matches(pattern@, text@),
{
    match glob::Pattern::new(pattern) {
        Ok(p) => p.matches(text),
        Err(_) => false,
    }
}

/// Whether any of `patterns` glob-matches `text`.
pub open spec fn any_glob_match(patterns: Seq<Seq<char>>, text: Seq<char>) -> bool {
    exists|i: int| 0 <= i < patterns.len() && glob_matches(#[trigger] patterns[i], text)
}

/// Whether any pattern of `patterns` glob-matches `text`.
pub fn matches_any_pattern(patterns: &Vec<String>, text: &str) -> (r: bool)
    ensures
        r == any_glob_match(str_views(patterns@), text@),
{
    let mut i: usize = 0;
    while i < patterns.len()
        invariant
            0 <= i <= patterns@.len(),
            forall|k: int| 0 <= k < i ==> !glob_matches(#[trigger] patterns@[k]@, text@),
        decreases patterns@.len() - i,
    {
        if glob_match(patterns[i].as_str(), text) {
            assert(str_views(patterns@)[i as int] == patterns@[i as int]@);
            return true;
        }
        i += 1;
    }
    assert forall|k: int|
        0 <= k < str_views(patterns@).len() implies !glob_matches(
        #[trigger] str_views(patterns@)[k],
        text@,
    ) by {
        assert(str_views(patterns@)[k] == patterns@[k]@);
    }
    false
}

} // verus!
