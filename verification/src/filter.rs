//! The ignore filter: which walked entries never reach an index.

use crate::config::{all_compile, all_valid, any_matches, texts, Config, SNAPSHOT_GLOB};
use crate::error::Error;
use crate::pattern::{glob_matches, pattern_compiles, pattern_matches};
use crate::text::{base_name, spec_base_name};
use vstd::prelude::*;

verus! {

/// One entry met while walking a tree: its full path and its base name.
#[derive(Debug, PartialEq, Eq)]
pub struct Entry {
    pub path: String,
    pub name: String,
}

impl Entry {
    /// The entry at `path`, named by the last component of the path.
    pub fn from_path(path: &str) -> (entry: Entry)
        ensures
            entry.path@ == path@,
            entry.name@ == spec_base_name(path@),
    {
        Entry { path: path.to_owned(), name: base_name(path) }
    }
}

/// Whether some pattern of the list matches `text`.
pub fn matches_any(patterns: &Vec<String>, text: &str) -> (hit: bool)
    requires
        all_valid(texts(patterns@)),
    ensures
        hit == any_matches(texts(patterns@), text@),
{
    let mut i: usize = 0;
    while i < patterns.len()
        invariant
            i <= patterns.len(),
            all_valid(texts(patterns@)),
            forall|j: int| 0 <= j < i ==> !glob_matches(#[trigger] texts(patterns@)[j], text@),
        decreases patterns.len() - i,
    {
        assert(texts(patterns@)[i as int] == patterns[i as int]@);
        if pattern_matches(patterns[i].as_str(), text) {
            return true;
        }
        i += 1;
    }
    false
}

/// Decides whether a walked entry is skipped.
///
/// The path globs are tried against the full path; then the built-in glob
/// and the name globs are tried against the base name. One match is
/// enough. Skipping a directory is meant to prune its whole subtree.
pub fn ignored(entry: &Entry, config: &Config) -> (skip: bool)
    requires
        config@.patterns_valid(),
    ensures
        skip == config@.ignores(entry.path@, entry.name@),
{
    if matches_any(&config.ignore.path, entry.path.as_str()) {
        return true;
    }
    if pattern_matches(SNAPSHOT_GLOB, entry.name.as_str()) {
        return true;
    }
    matches_any(&config.ignore.name, entry.name.as_str())
}

/// Checks the globs of `config` and, when they all compile, decides
/// whether the entry is skipped. A glob that does not compile is a bad
/// ignore pattern.
pub fn try_ignored(entry: &Entry, config: &Config) -> (r: Result<bool, Error>)
    ensures
        r is Ok <==> config@.patterns_valid(),
        r matches Ok(skip) ==> skip == config@.ignores(entry.path@, entry.name@),
        r is Err ==> r matches Err(Error::BadIgnorePattern),
{
    if pattern_compiles(SNAPSHOT_GLOB) && all_compile(&config.ignore.path)
        && all_compile(&config.ignore.name) {
        Ok(ignored(entry, config))
    } else {
        Err(Error::BadIgnorePattern)
    }
}

} // verus!
