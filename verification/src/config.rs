//! Analyzer limits and ignore patterns.

use vstd::prelude::*;
use crate::text::{contains, str_contains};

verus! {

broadcast use vstd::string::group_string_axioms;

/// Limits that the analysis holds files to, and path patterns to leave out.
///
/// The minimum ratio of test files is a floating-point setting and is kept
/// by the command-line program, which also checks it.
#[derive(Debug, Clone)]
pub struct Config {
    pub max_complexity: u32,
    pub max_function_length: u32,
    pub max_file_length: u32,
    pub ignore: Vec<String>,
}

/// The views of a sequence of strings.
pub open spec fn string_views(v: Seq<String>) -> Seq<Seq<char>> {
    v.map_values(|s: String| s@)
}

/// Some ignore pattern occurs in the path.
pub open spec fn ignored_by(patterns: Seq<Seq<char>>, path: Seq<char>) -> bool {
    exists|k: int| 0 <= k < patterns.len() && contains(path, #[trigger] patterns[k])
}

impl Default for Config {
    fn default() -> (c: Self)
        ensures
            c.max_complexity == 10,
            c.max_function_length == 50,
            c.max_file_length == 500,
            c.ignore@.len() == 0,
    {
        Config { max_complexity: 10, max_function_length: 50, max_file_length: 500, ignore: Vec::new() }
    }
}

impl Config {
    /// Takes the limits of a loaded configuration and adds its ignore
    /// patterns after the ones already present.
    pub fn load(&mut self, loaded: Config)
        ensures
            final(self).max_complexity == loaded.max_complexity,
            final(self).max_function_length == loaded.max_function_length,
            final(self).max_file_length == loaded.max_file_length,
            string_views(final(self).ignore@) == string_views(old(self).ignore@) + string_views(
                loaded.ignore@,
            ),
    {
        self.max_complexity = loaded.max_complexity;
        self.max_function_length = loaded.max_function_length;
        self.max_file_length = loaded.max_file_length;
        let mut extra = loaded.ignore;
        let ghost before = self.ignore@;
        let ghost added = extra@;
        self.ignore.append(&mut extra);
        assert(string_views(self.ignore@) =~= string_views(before) + string_views(added));
    }

    /// Adds an ignore pattern.
    pub fn add_ignore(&mut self, pattern: &str)
        ensures
            final(self).max_complexity == old(self).max_complexity,
            final(self).max_function_length == old(self).max_function_length,
            final(self).max_file_length == old(self).max_file_length,
            string_views(final(self).ignore@) == string_views(old(self).ignore@).push(pattern@),
    {
        let ghost before = self.ignore@;
        self.ignore.push(String::from_str(pattern));
        assert(string_views(self.ignore@) =~= string_views(before).push(pattern@));
    }

    /// Whether some ignore pattern occurs in the path.
    pub fn should_ignore(&self, path: &str) -> (r: bool)
        ensures
            r == ignored_by(string_views(self.ignore@), path@),
    {
        let ghost pats = string_views(self.ignore@);
        let mut k: usize = 0;
        while k < self.ignore.len()
            invariant
                k <= self.ignore@.len(),
                pats == string_views(self.ignore@),
                forall|j: int| 0 <= j < k ==> !contains(path@, #[trigger] pats[j]),
            decreases self.ignore@.len() - k,
        {
            assert(pats[k as int] == self.ignore@[k as int]@);
            if str_contains(path, self.ignore[k].as_str()) {
                return true;
            }
            k = k + 1;
        }
        false
    }
}


/// After a pattern is added, a path is ignored exactly when it was before or
/// it contains the new pattern.
pub proof fn lemma_add_ignore(before: Seq<Seq<char>>, p: Seq<char>, path: Seq<char>)
    ensures
        ignored_by(before.push(p), path) == (ignored_by(before, path) || contains(path, p)),
{
    if ignored_by(before, path) {
        let k = choose|k: int| 0 <= k < before.len() && contains(path, #[trigger] before[k]);
        assert(before.push(p)[k] == before[k]);
    }
    if contains(path, p) {
        assert(before.push(p)[before.len() as int] == p);
    }
    if ignored_by(before.push(p), path) {
        let k = choose|k: int| 0 <= k < before.push(p).len() && contains(path, #[trigger] before.push(p)[k]);
        if k < before.len() {
            assert(before.push(p)[k] == before[k]);
        }
    }
}

/// After a configuration is loaded, a path is ignored exactly when the old
/// patterns or the loaded ones match it.
pub proof fn lemma_load_ignore(before: Seq<Seq<char>>, loaded: Seq<Seq<char>>, path: Seq<char>)
    ensures
        ignored_by(before + loaded, path) == (ignored_by(before, path) || ignored_by(loaded, path)),
{
    let all = before + loaded;
    if ignored_by(before, path) {
        let k = choose|k: int| 0 <= k < before.len() && contains(path, #[trigger] before[k]);
        assert(all[k] == before[k]);
    }
    if ignored_by(loaded, path) {
        let k = choose|k: int| 0 <= k < loaded.len() && contains(path, #[trigger] loaded[k]);
        assert(all[before.len() + k] == loaded[k]);
    }
    if ignored_by(all, path) {
        let k = choose|k: int| 0 <= k < all.len() && contains(path, #[trigger] all[k]);
        if k >= before.len() {
            assert(all[k] == loaded[k - before.len()]);
        } else {
            assert(all[k] == before[k]);
        }
    }
}

} // verus!
