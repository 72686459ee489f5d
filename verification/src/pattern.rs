//! Shell-style patterns, compiled and matched by the `glob` crate.
//!
//! The crate decides what a pattern means. This module gives its two
//! answers a name each, so that the rest of the library can say exactly
//! which entries a configuration ignores. The answers are those that the
//! crate gives where `/` is the only path separator.

use vstd::prelude::*;

verus! {

/// Whether `glob::Pattern::new` accepts `pattern`.
pub uninterp spec fn glob_valid(pattern: Seq<char>) -> bool;

/// Whether `glob::Pattern::matches`, asked of the pattern compiled from
/// `pattern`, finds that it matches the whole of `text`.
pub uninterp spec fn glob_matches(pattern: Seq<char>, text: Seq<char>) -> bool;

/// Asks `glob::Pattern::new` whether `pattern` compiles.
///
/// Trusted: compiling reads nothing but the pattern, so the answer is the
/// one that [`glob_valid`] names.
#[verifier::external_body]
pub(crate) fn pattern_compiles(pattern: &str) -> (ok: bool)
    ensures
        ok == glob_valid(pattern@),
{
    glob::Pattern::new(pattern).is_ok()
}

/// Compiles `pattern` with `glob::Pattern::new` and asks
/// `glob::Pattern::matches` whether it matches `text`.
///
/// Trusted: matching reads nothing but the compiled pattern and the text,
/// and uses the crate's default options, so the answer is the one that
/// [`glob_matches`] names. A pattern that does not compile is left out.
#[verifier::external_body]
pub(crate) fn pattern_matches(pattern: &str, text: &str) -> (hit: bool)
    requires
        glob_valid(pattern@),
    ensures
        hit == glob_matches(pattern@, text@),
{
    glob::Pattern::new(pattern).unwrap().matches(text)
}

} // verus!
