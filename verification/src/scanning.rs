//! Selecting drawings by extension, running the processing of one file, and summarizing
//! a scan with some failures set aside as ignored.

use vstd::prelude::*;

use crate::support::{positions_of, Outcome};
use crate::text::{
    appears_in, contains, occurrence_is_matching_run, occurs_in, same_text, text_of,
};

verus! {

/// The extension that `std::path::Path::extension` finds in a path, if any.
pub uninterp spec fn path_extension(path: Seq<char>) -> Option<Seq<char>>;

/// The extension of a path, through `std::path::Path::extension`. Its documentation gives
/// the portion of the file name after the final dot, and none when the file name has no
/// embedded dot; the contract states that a path without any dot has no extension, that
/// an extension holds neither a dot nor a separator, and that it follows a dot in the path. Which part of the path is the file
/// name is left to the name.
#[verifier::external_body]
fn extension(path: &str) -> (r: Option<String>)
    ensures
        text_of(r) == path_extension(path@),
        !path@.contains('.') ==> r is None,
        r matches Some(e) ==> !e@.contains('.') && !e@.contains('/'),
        r matches Some(e) ==> occurs_in(path@, seq!['.'] + e@),
{
    match std::path::Path::new(path).extension() {
        Some(e) => Some(e.to_string_lossy().into_owned()),
        None => None,
    }
}

/// The extension is present and is one of `allowed`.
pub open spec fn extension_allowed(extension: Option<Seq<char>>, allowed: Seq<&str>) -> bool {
    match extension {
        Some(e) => exists|i: int| 0 <= i < allowed.len() && #[trigger] allowed[i]@ == e,
        None => false,
    }
}

/// Whether an extension is present and one of `allowed`.
pub fn allowed_extension(extension: &Option<String>, allowed: &[&str]) -> (r: bool)
    ensures
        r == extension_allowed(text_of(*extension), allowed@),
{
    match extension {
        None => false,
        Some(e) => {
            let mut i: usize = 0;
            while i < allowed.len()
                invariant
                    i <= allowed@.len(),
                    text_of(*extension) == Some(e@),
                    forall|k: int| 0 <= k < i ==> #[trigger] allowed@[k]@ != e@,
                decreases allowed@.len() - i,
            {
                if same_text(allowed[i], e.as_str()) {
                    assert(allowed@[i as int]@ == e@);
                    return true;
                }
                i += 1;
            }
            false
        },
    }
}

/// Some name of `ignores` occurs in `path`.
pub open spec fn ignored(path: Seq<char>, ignores: Seq<String>) -> bool {
    exists|i: int| 0 <= i < ignores.len() && occurs_in(path, #[trigger] ignores[i]@)
}

/// Whether some name of `ignores` occurs in `path`.
pub fn is_ignored(path: &str, ignores: &[String]) -> (r: bool)
    ensures
        r == ignored(path@, ignores@),
{
    let mut i: usize = 0;
    while i < ignores.len()
        invariant
            i <= ignores@.len(),
            forall|k: int| 0 <= k < i ==> !occurs_in(path@, #[trigger] ignores@[k]@),
        decreases ignores@.len() - i,
    {
        if contains(path, ignores[i].as_str()) {
            return true;
        }
        i += 1;
    }
    false
}

/// The extension that drawings carry.
pub open spec fn svg() -> Seq<char> {
    seq!['s', 'v', 'g']
}

/// Whether the extension of `path` is one of `allowed`.
pub fn has_extension(path: &str, allowed: &[&str]) -> (r: bool)
    ensures
        r == extension_allowed(path_extension(path@), allowed@),
{
    let found = extension(path);
    allowed_extension(&found, allowed)
}

/// Whether `path` names a drawing (its extension is `svg`) that none of `ignores` rules out.
pub fn filter(path: &str, ignores: &[String]) -> (r: bool)
    ensures
        r == (path_extension(path@) == Some(svg()) && !ignored(path@, ignores@)),
{
    let allowed = has_extension(path, &["svg"]);
    proof {
        reveal_strlit("svg");
        assert("svg"@ =~= svg());
        assert(["svg"]@[0] == "svg");
        if let Some(e) = path_extension(path@) {
            if e == svg() {
                assert(["svg"]@[0]@ == e);
            }
        }
    }
    allowed && !is_ignored(path, ignores)
}

/// Runs `process` on a path with a parameter and pairs the path with what it gave.
pub fn wrap<P, T, U, F>(path: P, process: F, parameter: T) -> (r: (P, U)) where
    F: Fn(&P, T) -> U,

    requires
        process.requires((&path, parameter)),
    ensures
        r.0 == path,
        process.ensures((&path, parameter), r.1),
{
    let result = process(&path, parameter);
    (path, result)
}

/// The positions among the first `n` entries whose processing failed and whose path is
/// (`set_aside`) or is not (`!set_aside`) ruled out by `ignores`, in order.
pub open spec fn failures<T, E>(
    values: Seq<(String, Result<Option<T>, E>)>,
    ignores: Seq<String>,
    set_aside: bool,
    n: int,
) -> Seq<usize>
    decreases n,
{
    if n <= 0 {
        Seq::empty()
    } else if values[n - 1].1 is Err && ignored(values[n - 1].0@, ignores) == set_aside {
        failures(values, ignores, set_aside, n - 1).push((n - 1) as usize)
    } else {
        failures(values, ignores, set_aside, n - 1)
    }
}

/// The positions of processed files split by outcome, with the failures of paths that an
/// ignore name rules out set apart; each list keeps the order of the input.
pub struct Report {
    /// Files whose processing produced a result.
    pub complete: Vec<usize>,
    /// Files whose processing produced no result.
    pub incomplete: Vec<usize>,
    /// Failed files that an ignore name rules out.
    pub ignored: Vec<usize>,
    /// Failed files that no ignore name rules out.
    pub failed: Vec<usize>,
}

impl Report {
    /// Whether the scan passed: no failure outside the ignored ones.
    pub fn passed(&self) -> (r: bool)
        ensures
            r == (self.failed@.len() == 0),
    {
        self.failed.len() == 0
    }
}

/// Splits the results of processing files into complete, incomplete, ignored and failed
/// ones; a failure is ignored when one of `ignores` occurs in its path.
pub fn summarize<T, E>(values: &[(String, Result<Option<T>, E>)], ignores: &[String]) -> (report: Report)
    ensures
        report.complete@ == positions_of(values@, Outcome::Complete),
        report.incomplete@ == positions_of(values@, Outcome::Incomplete),
        report.ignored@ == failures(values@, ignores@, true, values@.len() as int),
        report.failed@ == failures(values@, ignores@, false, values@.len() as int),
{
    let mut complete: Vec<usize> = Vec::new();
    let mut incomplete: Vec<usize> = Vec::new();
    let mut set_aside: Vec<usize> = Vec::new();
    let mut failed: Vec<usize> = Vec::new();
    let mut i: usize = 0;
    while i < values.len()
        invariant
            i <= values@.len(),
            complete@ == crate::support::positions(values@, Outcome::Complete, i as int),
            incomplete@ == crate::support::positions(values@, Outcome::Incomplete, i as int),
            set_aside@ == failures(values@, ignores@, true, i as int),
            failed@ == failures(values@, ignores@, false, i as int),
        decreases values@.len() - i,
    {
        match &values[i].1 {
            Ok(Some(_)) => complete.push(i),
            Ok(None) => incomplete.push(i),
            Err(_) => {
                if is_ignored(values[i].0.as_str(), ignores) {
                    set_aside.push(i);
                } else {
                    failed.push(i);
                }
            },
        }
        i += 1;
    }
    Report { complete, incomplete, ignored: set_aside, failed }
}

/// The ignored and the failed lists together have one position for each failure.
pub proof fn lemma_failures_count<T, E>(
    values: Seq<(String, Result<Option<T>, E>)>,
    ignores: Seq<String>,
    n: int,
)
    requires
        0 <= n <= values.len(),
    ensures
        failures(values, ignores, true, n).len() + failures(values, ignores, false, n).len()
            == crate::support::positions(values, Outcome::Failed, n).len(),
    decreases n,
{
    if n > 0 {
        lemma_failures_count(values, ignores, n - 1);
    }
}

/// Setting ignored failures apart loses no failure and adds none: the ignored and the
/// failed lists together are as long as the list of all failures.
pub proof fn ignored_and_failed_cover_failures<T, E>(
    values: Seq<(String, Result<Option<T>, E>)>,
    ignores: Seq<String>,
)
    ensures
        failures(values, ignores, true, values.len() as int).len() + failures(
            values,
            ignores,
            false,
            values.len() as int,
        ).len() == positions_of(values, Outcome::Failed).len(),
{
    lemma_failures_count(values, ignores, values.len() as int);
}

/// With no ignore names nothing is set aside: the ignored list is empty and the failed
/// list holds every failure, as the plain summary has it.
pub proof fn no_ignores_sets_nothing_apart<T, E>(values: Seq<(String, Result<Option<T>, E>)>, n: int)
    requires
        0 <= n <= values.len(),
    ensures
        failures(values, Seq::<String>::empty(), true, n) == Seq::<usize>::empty(),
        failures(values, Seq::<String>::empty(), false, n) == crate::support::positions(
            values,
            Outcome::Failed,
            n,
        ),
    decreases n,
{
    if n > 0 {
        no_ignores_sets_nothing_apart(values, n - 1);
        assert(!ignored(values[n - 1].0@, Seq::<String>::empty()));
    }
}

/// A position is listed among the failures set aside (or kept) exactly when the entry
/// there failed and an ignore name does (or does not) occur in its path.
pub proof fn lemma_failures_contain<T, E>(
    values: Seq<(String, Result<Option<T>, E>)>,
    ignores: Seq<String>,
    set_aside: bool,
    n: int,
)
    requires
        0 <= n <= values.len(),
        values.len() <= usize::MAX,
    ensures
        forall|k: usize| #[trigger]
            failures(values, ignores, set_aside, n).contains(k) <==> (k < n && values[k as int].1 is Err
                && ignored(values[k as int].0@, ignores) == set_aside),
    decreases n,
{
    if n > 0 {
        lemma_failures_contain(values, ignores, set_aside, n - 1);
        let prev = failures(values, ignores, set_aside, n - 1);
        if values[n - 1].1 is Err && ignored(values[n - 1].0@, ignores) == set_aside {
            let whole = prev.push((n - 1) as usize);
            assert(failures(values, ignores, set_aside, n) == whole);
            assert forall|k: usize| #[trigger] whole.contains(k) <==> (k < n && values[k as int].1 is Err
                && ignored(values[k as int].0@, ignores) == set_aside) by {
                if k == n - 1 {
                    assert(whole[prev.len() as int] == k);
                }
                if whole.contains(k) && k != n - 1 {
                    let j = choose|j: int| 0 <= j < whole.len() && #[trigger] whole[j] == k;
                    assert(j < prev.len());
                    assert(prev[j] == k);
                    assert(prev.contains(k));
                }
                if prev.contains(k) {
                    let j = choose|j: int| 0 <= j < prev.len() && #[trigger] prev[j] == k;
                    assert(whole[j] == k);
                }
            }
        }
    }
}

/// A failed file counts as ignored exactly when the characters of some ignore name match a
/// run of the characters of its path, anywhere in it; every other failed file counts as
/// failed, and a file that did not fail is in neither list.
pub proof fn ignored_exactly_when_a_name_occurs<T, E>(
    values: Seq<(String, Result<Option<T>, E>)>,
    ignores: Seq<String>,
)
    requires
        values.len() <= usize::MAX,
    ensures
        forall|k: usize|
            k < values.len() ==> (#[trigger] failures(values, ignores, true, values.len() as int).contains(k)
                <==> (values[k as int].1 is Err && exists|i: int|
                0 <= i < ignores.len() && appears_in(values[k as int].0@, #[trigger] ignores[i]@))),
        forall|k: usize|
            k < values.len() ==> (#[trigger] failures(values, ignores, false, values.len() as int).contains(k)
                <==> (values[k as int].1 is Err && !exists|i: int|
                0 <= i < ignores.len() && appears_in(values[k as int].0@, #[trigger] ignores[i]@))),
{
    let n = values.len() as int;
    lemma_failures_contain(values, ignores, true, n);
    lemma_failures_contain(values, ignores, false, n);
    assert forall|k: usize| k < values.len() implies (ignored(values[k as int].0@, ignores) <==> exists|i: int|
        0 <= i < ignores.len() && appears_in(values[k as int].0@, #[trigger] ignores[i]@)) by {
        let path = values[k as int].0@;
        assert forall|i: int| 0 <= i < ignores.len() implies (occurs_in(path, #[trigger] ignores[i]@)
            <==> appears_in(path, ignores[i]@)) by {
            occurrence_is_matching_run(path, ignores[i]@);
        }
    }
}

} // verus!
