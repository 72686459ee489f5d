//! The read-only settings of one session.

use crate::error::Error;
use crate::pattern::{glob_matches, glob_valid, pattern_compiles};
use crate::text::{absolute, is_absolute};
use vstd::prelude::*;

verus! {

/// The glob that keeps the tool's own snapshot files out of every index.
pub const SNAPSHOT_GLOB: &'static str = ".runison-*";

/// The directory whose subtree is synchronized.
#[derive(Debug, PartialEq, Eq)]
pub struct Root {
    /// Absolute path of the root directory.
    pub path: String,
}

/// The subtrees of the root that take part, when the list is not empty.
#[derive(Debug, PartialEq, Eq)]
pub struct Path {
    pub directories: Vec<String>,
}

/// Glob patterns of entries that are never indexed.
#[derive(Debug, PartialEq, Eq)]
pub struct Ignore {
    /// Patterns matched against the base name of an entry.
    pub name: Vec<String>,
    /// Patterns matched against the full path of an entry.
    pub path: Vec<String>,
}

/// Everything a session is configured with.
#[derive(Debug, PartialEq, Eq)]
pub struct Config {
    pub root: Root,
    pub path: Path,
    pub ignore: Ignore,
}

/// A sequence of strings, each taken by its characters.
pub open spec fn texts(v: Seq<String>) -> Seq<Seq<char>> {
    Seq::new(v.len(), |i: int| v[i]@)
}

/// The mathematical content of a [`Config`].
pub struct ConfigView {
    pub root: Seq<char>,
    pub directories: Seq<Seq<char>>,
    pub ignore_name: Seq<Seq<char>>,
    pub ignore_path: Seq<Seq<char>>,
}

impl View for Config {
    type V = ConfigView;

    open spec fn view(&self) -> ConfigView {
        ConfigView {
            root: self.root.path@,
            directories: texts(self.path.directories@),
            ignore_name: texts(self.ignore.name@),
            ignore_path: texts(self.ignore.path@),
        }
    }
}

/// Whether every pattern of the list compiles.
pub open spec fn all_valid(patterns: Seq<Seq<char>>) -> bool {
    forall|i: int| 0 <= i < patterns.len() ==> glob_valid(#[trigger] patterns[i])
}

/// Whether some pattern of the list matches `text`.
pub open spec fn any_matches(patterns: Seq<Seq<char>>, text: Seq<char>) -> bool {
    exists|i: int| 0 <= i < patterns.len() && glob_matches(#[trigger] patterns[i], text)
}

impl ConfigView {
    /// Every ignore glob compiles, the built-in one included.
    pub open spec fn patterns_valid(self) -> bool {
        &&& glob_valid(SNAPSHOT_GLOB@)
        &&& all_valid(self.ignore_path)
        &&& all_valid(self.ignore_name)
    }

    /// A session can run on this configuration.
    pub open spec fn valid(self) -> bool {
        is_absolute(self.root) && self.patterns_valid()
    }

    /// Whether an entry with this full path and this base name is skipped:
    /// a path glob matches its path, or the built-in glob or a name glob
    /// matches its name.
    pub open spec fn ignores(self, path: Seq<char>, name: Seq<char>) -> bool {
        ||| any_matches(self.ignore_path, path)
        ||| glob_matches(SNAPSHOT_GLOB@, name)
        ||| any_matches(self.ignore_name, name)
    }
}

/// Whether every pattern of the list compiles.
pub fn all_compile(patterns: &Vec<String>) -> (ok: bool)
    ensures
        ok == all_valid(texts(patterns@)),
{
    let mut i: usize = 0;
    while i < patterns.len()
        invariant
            i <= patterns.len(),
            forall|j: int| 0 <= j < i ==> glob_valid(#[trigger] texts(patterns@)[j]),
        decreases patterns.len() - i,
    {
        if !pattern_compiles(patterns[i].as_str()) {
            assert(!glob_valid(texts(patterns@)[i as int]));
            return false;
        }
        i += 1;
    }
    true
}

impl Config {
    /// Checks the configuration before a session starts.
    ///
    /// A root that is not an absolute path makes the configuration
    /// invalid; after that, a glob that does not compile is reported.
    pub fn check(&self) -> (r: Result<(), Error>)
        ensures
            r is Ok <==> self@.valid(),
            r is Err ==> r == Err::<(), Error>(
                if is_absolute(self@.root) {
                    Error::BadIgnorePattern
                } else {
                    Error::ConfigInvalid
                },
            ),
    {
        if !absolute(self.root.path.as_str()) {
            return Err(Error::ConfigInvalid);
        }
        if pattern_compiles(SNAPSHOT_GLOB) && all_compile(&self.ignore.path) && all_compile(
            &self.ignore.name,
        ) {
            Ok(())
        } else {
            Err(Error::BadIgnorePattern)
        }
    }
}

/// Copies a list of strings.
pub fn copy_texts(v: &Vec<String>) -> (r: Vec<String>)
    ensures
        texts(r@) == texts(v@),
{
    let mut r: Vec<String> = Vec::new();
    let mut i: usize = 0;
    while i < v.len()
        invariant
            i <= v.len(),
            r.len() == i,
            forall|j: int| 0 <= j < i ==> r[j]@ == v[j]@,
        decreases v.len() - i,
    {
        r.push(v[i].clone());
        i += 1;
    }
    assert(texts(r@) =~= texts(v@));
    r
}

impl Clone for Config {
    fn clone(&self) -> (r: Self)
        ensures
            r@ == self@,
    {
        Config {
            root: Root { path: self.root.path.clone() },
            path: Path { directories: copy_texts(&self.path.directories) },
            ignore: Ignore {
                name: copy_texts(&self.ignore.name),
                path: copy_texts(&self.ignore.path),
            },
        }
    }
}

} // verus!
