use vstd::prelude::*;
use crate::steps::Step;

verus! {

/// A cooking recipe: a title, a description, and an ordered sequence of
/// steps.  Created once, before the coordinator starts, and read-only
/// afterward: nothing in this crate mutates a recipe's steps.
#[derive(Debug)]
pub struct Recipe {
    pub title: String,
    pub description: String,
    pub steps: Vec<Step>,
}

impl Recipe {
    pub fn new(title: String, description: String, steps: Vec<Step>) -> (r: Self)
        ensures
            r.title == title,
            r.description == description,
            r.steps == steps,
    {
        Self { title, description, steps }
    }

    pub fn get_title(&self) -> (r: &String)
        ensures
            r == &self.title,
    {
        &self.title
    }

    pub fn get_description(&self) -> (r: &String)
        ensures
            r == &self.description,
    {
        &self.description
    }

    pub fn get_steps(&self) -> (r: &Vec<Step>)
        ensures
            r == &self.steps,
    {
        &self.steps
    }

    /// Whether the file name carries one of the accepted recipe-file
    /// extensions.
    pub open spec fn is_yaml_spec(s: Seq<char>) -> bool {
        ends_with(s, ".yaml"@) || ends_with(s, ".yml"@)
    }

    /// Checks the end of the given file name for `.yaml` or `.yml`.
    pub fn is_yaml(file_path: &str) -> (r: bool)
        ensures
            r == Self::is_yaml_spec(file_path@),
    {
        str_ends_with(file_path, ".yaml") || str_ends_with(file_path, ".yml")
    }
}

/// `suffix` is the tail of `s`.
pub open spec fn ends_with(s: Seq<char>, suffix: Seq<char>) -> bool {
    suffix.len() <= s.len() && s.skip(s.len() - suffix.len()) == suffix
}

/// Whether the string ends with the given suffix, compared character by
/// character.
pub fn str_ends_with(s: &str, suffix: &str) -> (r: bool)
    ensures
        r == ends_with(s@, suffix@),
{
    let n = s.unicode_len();
    let m = suffix.unicode_len();
    if m > n {
        assert(!ends_with(s@, suffix@));
        return false;
    }
    let start = n - m;
    let mut i: usize = 0;
    while i < m
        invariant
            0 <= i <= m,
            m <= n,
            n == s@.len(),
            m == suffix@.len(),
            start == n - m,
            forall|j: int| 0 <= j < i ==> s@[start + j] == suffix@[j],
        decreases m - i,
    {
        if s.get_char(start + i) != suffix.get_char(i) {
            assert(s@.skip(start as int)[i as int] != suffix@[i as int]);
            return false;
        }
        i = i + 1;
    }
    assert(s@.skip(start as int) =~= suffix@);
    true
}

} // verus!
