//! Exclusion rules: which paths a capture passes over.
//!
//! A rule is a pattern and the word for its kind. Rules have no order: a
//! path is excluded as soon as one rule fits it. A rule whose kind word is
//! not one of the three known ones fits nothing.

use vstd::prelude::*;
use crate::cli::ExclusionType;
use crate::path::{base_name, extension, extension_of, file_name};
use crate::text::{chars_of, contains, occurs_at, occurs_in, same_chars, slice_of};

verus! {

/// An extension pattern without the dot that it may begin with.
pub open spec fn without_leading_dot(pattern: Seq<char>) -> Seq<char> {
    if pattern.len() > 0 && pattern[0] == '.' {
        pattern.subrange(1, pattern.len() as int)
    } else {
        pattern
    }
}

/// A rule of kind `kind` with `pattern` fits `path`.
pub open spec fn fits(path: Seq<char>, pattern: Seq<char>, kind: ExclusionType) -> bool {
    match kind {
        ExclusionType::Directory => occurs_in(path, pattern),
        ExclusionType::Extension => extension(path) == Some(without_leading_dot(pattern)),
        ExclusionType::File => base_name(path) == Some(pattern),
    }
}

/// The rule `(pattern, word)` fits `path`.
pub open spec fn rule_fits(path: Seq<char>, rule: (String, String)) -> bool {
    match ExclusionType::named(rule.1@) {
        Some(kind) => fits(path, rule.0@, kind),
        None => false,
    }
}

/// Some rule of `rules` fits `path`.
pub open spec fn excluded(path: Seq<char>, rules: Seq<(String, String)>) -> bool {
    exists|i: int| 0 <= i < rules.len() && rule_fits(path, #[trigger] rules[i])
}

/// Whether a rule of kind `kind` with `pattern` fits `path`.
pub fn pattern_fits(path: &[char], pattern: &[char], kind: ExclusionType) -> (fit: bool)
    ensures
        fit == fits(path@, pattern@, kind),
{
    match kind {
        ExclusionType::Directory => contains(path, pattern),
        ExclusionType::Extension => {
            let wanted = if pattern.len() > 0 && pattern[0] == '.' {
                slice_of(pattern, 1, pattern.len())
            } else {
                slice_of(pattern, 0, pattern.len())
            };
            assert(wanted@ == without_leading_dot(pattern@));
            match extension_of(path) {
                Some(ext) => same_chars(ext.as_slice(), wanted.as_slice()),
                None => false,
            }
        },
        ExclusionType::File => match file_name(path) {
            Some(name) => same_chars(name.as_slice(), pattern),
            None => false,
        },
    }
}

/// Whether some rule of `rules` fits `path`. Without rules nothing is
/// excluded.
pub fn any_rule_fits(path: &str, rules: &Vec<(String, String)>) -> (hit: bool)
    ensures
        hit == excluded(path@, rules@),
{
    let chars = chars_of(path);
    let mut i: usize = 0;
    while i < rules.len()
        invariant
            i <= rules.len(),
            chars@ == path@,
            forall|j: int| 0 <= j < i ==> !rule_fits(path@, #[trigger] rules@[j]),
        decreases rules.len() - i,
    {
        let pattern = chars_of(rules[i].0.as_str());
        match ExclusionType::parse(rules[i].1.as_str()) {
            Some(kind) => {
                if pattern_fits(chars.as_slice(), pattern.as_slice(), kind) {
                    return true;
                }
            },
            None => {},
        }
        i += 1;
    }
    false
}

/// The rules to go by, given what could be read of them: the rules, or no
/// rules where they could not be read. A capture is not held up by rules
/// that are out of reach; it goes on and excludes nothing.
pub fn available(rules: Option<Vec<(String, String)>>) -> (found: Vec<(String, String)>)
    ensures
        match rules {
            Some(read) => found == read,
            None => found@ == Seq::<(String, String)>::empty(),
        },
{
    match rules {
        Some(read) => read,
        None => Vec::new(),
    }
}

/// Without rules no path is excluded.
pub proof fn lemma_no_rules_exclude_nothing(path: Seq<char>)
    ensures
        !excluded(path, Seq::<(String, String)>::empty()),
{
}

/// Rules only add up: a path that some rules exclude stays excluded when
/// more rules are put before or behind them.
pub proof fn lemma_more_rules_exclude_more(
    path: Seq<char>,
    before: Seq<(String, String)>,
    rules: Seq<(String, String)>,
    behind: Seq<(String, String)>,
)
    requires
        excluded(path, rules),
    ensures
        excluded(path, before + rules + behind),
{
    let i = choose|i: int| 0 <= i < rules.len() && rule_fits(path, #[trigger] rules[i]);
    let all = before + rules + behind;
    assert(all[before.len() + i] == rules[i]);
}

/// A directory rule that fits a directory fits every path below it: what
/// occurs in a path occurs in each path that begins with it. So nothing
/// under an excluded directory is ever captured, whether or not the walk
/// descends into it.
pub proof fn lemma_directory_rule_covers_subtree(
    dir: Seq<char>,
    path: Seq<char>,
    pattern: Seq<char>,
)
    requires
        fits(dir, pattern, ExclusionType::Directory),
        dir.is_prefix_of(path),
    ensures
        fits(path, pattern, ExclusionType::Directory),
{
    let at = choose|at: int| occurs_at(dir, pattern, at);
    assert(path.subrange(at, at + pattern.len()) =~= dir.subrange(at, at + pattern.len()));
    assert(occurs_at(path, pattern, at));
}

/// Whatever lies below a directory that a directory rule excludes is
/// excluded with it.
pub proof fn lemma_excluded_directory_covers_subtree(
    dir: Seq<char>,
    path: Seq<char>,
    rules: Seq<(String, String)>,
    i: int,
)
    requires
        0 <= i < rules.len(),
        ExclusionType::named(rules[i].1@) == Some(ExclusionType::Directory),
        fits(dir, rules[i].0@, ExclusionType::Directory),
        dir.is_prefix_of(path),
    ensures
        excluded(path, rules),
{
    lemma_directory_rule_covers_subtree(dir, path, rules[i].0@);
    assert(rule_fits(path, rules[i]));
}

} // verus!
