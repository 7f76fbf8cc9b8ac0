//! Selecting files by name and summarizing what processing them gave.

use vstd::prelude::*;

use crate::text::{
    appears_in, contains, ends_with, ends_with_chars, is_suffix, occurrence_is_matching_run, occurs_in,
    suffix_is_matching_end,
};

verus! {

/// Some pattern of `patterns` ends `path`.
pub open spec fn ends_with_any(path: Seq<char>, patterns: Seq<&str>) -> bool {
    exists|i: int| 0 <= i < patterns.len() && is_suffix(path, #[trigger] patterns[i]@)
}

/// Some pattern of `patterns` occurs in `path`.
pub open spec fn contains_any(path: Seq<char>, patterns: Seq<&str>) -> bool {
    exists|i: int| 0 <= i < patterns.len() && occurs_in(path, #[trigger] patterns[i]@)
}

/// A path is selected when it ends with one of `includes` and contains none of `excludes`.
pub open spec fn selected(path: Seq<char>, includes: Seq<&str>, excludes: Seq<&str>) -> bool {
    ends_with_any(path, includes) && !contains_any(path, excludes)
}

fn any_suffix(path: &str, patterns: &[&str]) -> (r: bool)
    ensures
        r == ends_with_any(path@, patterns@),
{
    let mut i: usize = 0;
    while i < patterns.len()
        invariant
            i <= patterns@.len(),
            forall|k: int| 0 <= k < i ==> !is_suffix(path@, #[trigger] patterns@[k]@),
        decreases patterns@.len() - i,
    {
        if ends_with(path, patterns[i]) {
            return true;
        }
        i += 1;
    }
    false
}

fn any_occurrence(path: &str, patterns: &[&str]) -> (r: bool)
    ensures
        r == contains_any(path@, patterns@),
{
    let mut i: usize = 0;
    while i < patterns.len()
        invariant
            i <= patterns@.len(),
            forall|k: int| 0 <= k < i ==> !occurs_in(path@, #[trigger] patterns@[k]@),
        decreases patterns@.len() - i,
    {
        if contains(path, patterns[i]) {
            return true;
        }
        i += 1;
    }
    false
}

/// A path is selected exactly when the characters of one include pattern match its end and
/// no exclude pattern matches any run of its characters.
pub proof fn filter_selects_by_suffix_and_absence(
    path: Seq<char>,
    includes: Seq<&str>,
    excludes: Seq<&str>,
)
    ensures
        selected(path, includes, excludes) <==> ((exists|i: int|
            0 <= i < includes.len() && ends_with_chars(path, #[trigger] includes[i]@)) && !(exists|j: int|
            0 <= j < excludes.len() && appears_in(path, #[trigger] excludes[j]@))),
{
    assert forall|i: int| 0 <= i < includes.len() implies (is_suffix(path, #[trigger] includes[i]@)
        <==> ends_with_chars(path, includes[i]@)) by {
        suffix_is_matching_end(path, includes[i]@);
    }
    assert forall|j: int| 0 <= j < excludes.len() implies (occurs_in(path, #[trigger] excludes[j]@)
        <==> appears_in(path, excludes[j]@)) by {
        occurrence_is_matching_run(path, excludes[j]@);
    }
}

/// Excluding more never selects more: a path selected with more exclusions is selected
/// with fewer.
pub proof fn more_excludes_select_less(
    path: Seq<char>,
    includes: Seq<&str>,
    excludes: Seq<&str>,
    extra: Seq<&str>,
)
    ensures
        selected(path, includes, excludes + extra) ==> selected(path, includes, excludes),
{
    if contains_any(path, excludes) {
        let i = choose|i: int| 0 <= i < excludes.len() && occurs_in(path, #[trigger] excludes[i]@);
        assert((excludes + extra)[i] == excludes[i]);
        assert(contains_any(path, excludes + extra));
    }
}

/// Whether `path` ends with one of `includes` and contains none of `excludes`.
pub fn filter(path: &str, includes: &[&str], excludes: &[&str]) -> (r: bool)
    ensures
        r == selected(path@, includes@, excludes@),
{
    any_suffix(path, includes) && !any_occurrence(path, excludes)
}

/// How processing one file ended.
#[derive(PartialEq, Eq, Structural, Clone, Copy, Debug)]
pub enum Outcome {
    /// Processing succeeded and produced a result.
    Complete,
    /// Processing succeeded without producing a result.
    Incomplete,
    /// Processing failed with an error.
    Failed,
}

/// The outcome that a processing result stands for.
pub open spec fn outcome_of<T, E>(result: Result<Option<T>, E>) -> Outcome {
    match result {
        Ok(Some(_)) => Outcome::Complete,
        Ok(None) => Outcome::Incomplete,
        Err(_) => Outcome::Failed,
    }
}

/// The positions among the first `n` entries of `values` whose outcome is `outcome`, in order.
pub open spec fn positions<P, T, E>(values: Seq<(P, Result<Option<T>, E>)>, outcome: Outcome, n: int) -> Seq<usize>
    decreases n,
{
    if n <= 0 {
        Seq::empty()
    } else if outcome_of(values[n - 1].1) == outcome {
        positions(values, outcome, n - 1).push((n - 1) as usize)
    } else {
        positions(values, outcome, n - 1)
    }
}

/// The positions of all entries of `values` whose outcome is `outcome`, in order.
pub open spec fn positions_of<P, T, E>(values: Seq<(P, Result<Option<T>, E>)>, outcome: Outcome) -> Seq<usize> {
    positions(values, outcome, values.len() as int)
}

/// The positions of processed files, split by outcome; each list keeps the order of the input.
pub struct Summary {
    /// Files whose processing produced a result.
    pub complete: Vec<usize>,
    /// Files whose processing produced no result.
    pub incomplete: Vec<usize>,
    /// Files whose processing failed.
    pub failed: Vec<usize>,
}

impl Summary {
    /// The process exit code the summary calls for: 1 when some file failed, 0 otherwise.
    pub fn exit_code(&self) -> (code: i32)
        ensures
            code == (if self.failed@.len() == 0 { 0i32 } else { 1i32 }),
    {
        if self.failed.len() == 0 {
            0
        } else {
            1
        }
    }
}

/// Splits the results of processing files into complete, incomplete and failed ones.
pub fn summarize<P, T, E>(values: &[(P, Result<Option<T>, E>)]) -> (summary: Summary)
    ensures
        summary.complete@ == positions_of(values@, Outcome::Complete),
        summary.incomplete@ == positions_of(values@, Outcome::Incomplete),
        summary.failed@ == positions_of(values@, Outcome::Failed),
{
    let mut complete: Vec<usize> = Vec::new();
    let mut incomplete: Vec<usize> = Vec::new();
    let mut failed: Vec<usize> = Vec::new();
    let mut i: usize = 0;
    while i < values.len()
        invariant
            i <= values@.len(),
            complete@ == positions(values@, Outcome::Complete, i as int),
            incomplete@ == positions(values@, Outcome::Incomplete, i as int),
            failed@ == positions(values@, Outcome::Failed, i as int),
        decreases values@.len() - i,
    {
        match &values[i].1 {
            Ok(Some(_)) => complete.push(i),
            Ok(None) => incomplete.push(i),
            Err(_) => failed.push(i),
        }
        i += 1;
    }
    Summary { complete, incomplete, failed }
}

/// A position is listed for an outcome exactly when the entry there has that outcome.
pub proof fn lemma_positions_contain<P, T, E>(
    values: Seq<(P, Result<Option<T>, E>)>,
    outcome: Outcome,
    n: int,
)
    requires
        0 <= n <= values.len(),
        values.len() <= usize::MAX,
    ensures
        forall|k: usize| #[trigger]
            positions(values, outcome, n).contains(k) <==> (k < n && outcome_of(values[k as int].1)
                == outcome),
        forall|a: int, b: int|
            0 <= a < b < positions(values, outcome, n).len() ==> positions(values, outcome, n)[a]
                < positions(values, outcome, n)[b],
        forall|a: int|
            0 <= a < positions(values, outcome, n).len() ==> positions(values, outcome, n)[a] < n,
    decreases n,
{
    if n > 0 {
        lemma_positions_contain(values, outcome, n - 1);
        let prev = positions(values, outcome, n - 1);
        if outcome_of(values[n - 1].1) == outcome {
            assert(positions(values, outcome, n) == prev.push((n - 1) as usize));
            assert forall|k: usize| #[trigger]
                positions(values, outcome, n).contains(k) <==> (k < n && outcome_of(
                    values[k as int].1,
                ) == outcome) by {
                if k == n - 1 {
                    assert(prev.push((n - 1) as usize)[prev.len() as int] == k);
                }
                if prev.push((n - 1) as usize).contains(k) && k != n - 1 {
                    let whole = prev.push((n - 1) as usize);
                    let j = choose|j: int| 0 <= j < whole.len() && #[trigger] whole[j] == k;
                    assert(j < prev.len());
                    assert(prev.contains(k));
                }
                if prev.contains(k) {
                    let j = choose|j: int| 0 <= j < prev.len() && #[trigger] prev[j] == k;
                    assert(prev.push((n - 1) as usize)[j] == k);
                }
            }
        }
    }
}

/// The three lists together have one position for each entry.
pub proof fn lemma_positions_count<P, T, E>(values: Seq<(P, Result<Option<T>, E>)>, n: int)
    requires
        0 <= n <= values.len(),
    ensures
        positions(values, Outcome::Complete, n).len() + positions(values, Outcome::Incomplete, n).len()
            + positions(values, Outcome::Failed, n).len() == n,
    decreases n,
{
    if n > 0 {
        lemma_positions_count(values, n - 1);
    }
}

/// Summarizing files sorts each of them into exactly one of the complete, incomplete
/// and failed lists, and the lists together are as long as the input.
pub proof fn summary_partitions<P, T, E>(values: Seq<(P, Result<Option<T>, E>)>)
    requires
        values.len() <= usize::MAX,
    ensures
        positions_of(values, Outcome::Complete).len() + positions_of(values, Outcome::Incomplete).len()
            + positions_of(values, Outcome::Failed).len() == values.len(),
        forall|k: usize|
            k < values.len() ==> (#[trigger] positions_of(values, Outcome::Complete).contains(k)
                <==> values[k as int].1 matches Ok(Some(_))),
        forall|k: usize|
            k < values.len() ==> (#[trigger] positions_of(values, Outcome::Incomplete).contains(k)
                <==> values[k as int].1 matches Ok(None)),
        forall|k: usize|
            k < values.len() ==> (#[trigger] positions_of(values, Outcome::Failed).contains(k)
                <==> values[k as int].1 is Err),
{
    let n = values.len() as int;
    lemma_positions_count(values, n);
    lemma_positions_contain(values, Outcome::Complete, n);
    lemma_positions_contain(values, Outcome::Incomplete, n);
    lemma_positions_contain(values, Outcome::Failed, n);
}

/// The summary asks for a failing exit code exactly when some file failed.
pub proof fn summary_fails_exactly_on_errors<P, T, E>(values: Seq<(P, Result<Option<T>, E>)>)
    requires
        values.len() <= usize::MAX,
    ensures
        (positions_of(values, Outcome::Failed).len() != 0) <==> (exists|k: int|
            0 <= k < values.len() && #[trigger] values[k].1 is Err),
{
    let n = values.len() as int;
    lemma_positions_contain(values, Outcome::Failed, n);
    let failed = positions_of(values, Outcome::Failed);
    if failed.len() != 0 {
        let k = failed[0];
        assert(failed.contains(k));
        assert(values[k as int].1 is Err);
    }
    if exists|k: int| 0 <= k < values.len() && #[trigger] values[k].1 is Err {
        let k = choose|k: int| 0 <= k < values.len() && #[trigger] values[k].1 is Err;
        assert(outcome_of(values[(k as usize) as int].1) == Outcome::Failed);
        assert(failed.contains(k as usize));
    }
}

} // verus!
