//! Listing the names that a font carries, one line per name record.

use vstd::prelude::*;

use crate::text::{padded, push_padded, text_of};

verus! {

/// The number of characters of a value that a listing shows in full.
pub const MAX: usize = 50;

/// The ellipsis that marks a shortened value.
pub open spec fn ellipsis() -> char {
    '…'
}

/// A value as listed: unchanged when it has at most `MAX` characters, otherwise its
/// first `MAX` characters followed by an ellipsis.
pub open spec fn truncated(s: Seq<char>) -> Seq<char> {
    if s.len() > MAX {
        s.take(MAX as int).push(ellipsis())
    } else {
        s
    }
}

/// Shortens `string` to `MAX` characters, marking the cut with an ellipsis.
pub fn truncate(string: &str) -> (r: String)
    ensures
        r@ == truncated(string@),
{
    let count = string.unicode_len();
    if count > MAX {
        let mut r = String::from_str(string.substring_char(0, MAX));
        r.append("…");
        proof {
            reveal_strlit("…");
        }
        assert(r@ =~= string@.take(MAX as int).push(ellipsis()));
        r
    } else {
        String::from_str(string)
    }
}

/// Shortening a value twice gives what shortening it once gives.
pub proof fn truncate_idempotent(s: Seq<char>)
    ensures
        truncated(truncated(s)) == truncated(s),
        truncated(s).len() <= MAX + 1,
{
    if s.len() > MAX {
        assert(truncated(s).take(MAX as int) =~= s.take(MAX as int));
    }
}

/// The placeholder listed for a missing value.
pub open spec fn dashes() -> Seq<char> {
    seq!['-', '-']
}

/// A present text, or the placeholder for a missing one.
pub open spec fn or_dashes(text: Option<Seq<char>>) -> Seq<char> {
    match text {
        Some(t) => t,
        None => dashes(),
    }
}

/// One listing line: the name identifier padded to 25 characters, the language tag
/// padded to 5, then the shortened value, each separated by a space.
pub open spec fn name_line(id: Seq<char>, language: Option<Seq<char>>, value: Option<Seq<char>>) -> Seq<char> {
    padded(id, 25) + seq![' '] + padded(or_dashes(language), 5) + seq![' '] + truncated(
        or_dashes(value),
    ) + seq!['\n']
}

/// The listing of the first `n` name records.
pub open spec fn names_listing(entries: Seq<(String, Option<String>, Option<String>)>, n: int) -> Seq<char>
    decreases n,
{
    if n <= 0 {
        Seq::empty()
    } else {
        names_listing(entries, n - 1) + name_line(
            entries[n - 1].0@,
            text_of(entries[n - 1].1),
            text_of(entries[n - 1].2),
        )
    }
}

/// Appends the listing line of one name record to `out`.
pub fn push_name_line(out: &mut String, id: &str, language: &Option<String>, value: &Option<String>)
    ensures
        final(out)@ == old(out)@ + name_line(id@, text_of(*language), text_of(*value)),
{
    let ghost start = out@;
    push_padded(out, id, 25);
    out.append(" ");
    let language_text = match language {
        Some(l) => String::from_str(l.as_str()),
        None => String::from_str("--"),
    };
    push_padded(out, language_text.as_str(), 5);
    out.append(" ");
    let shown = match value {
        Some(v) => truncate(v.as_str()),
        None => truncate("--"),
    };
    out.append(shown.as_str());
    out.append("\n");
    proof {
        reveal_strlit(" ");
        reveal_strlit("--");
        reveal_strlit("\n");
        assert("--"@ =~= dashes());
        assert(language_text@ == or_dashes(text_of(*language)));
        assert(shown@ == truncated(or_dashes(text_of(*value))));
        assert(out@ =~= start + name_line(id@, text_of(*language), text_of(*value)));
    }
}

/// The listing of name records: one line per record, in the order given.
pub fn names_report(entries: &Vec<(String, Option<String>, Option<String>)>) -> (r: String)
    ensures
        r@ == names_listing(entries@, entries@.len() as int),
{
    let mut out = String::new();
    let mut i: usize = 0;
    while i < entries.len()
        invariant
            i <= entries@.len(),
            out@ == names_listing(entries@, i as int),
        decreases entries@.len() - i,
    {
        let entry = &entries[i];
        push_name_line(&mut out, entry.0.as_str(), &entry.1, &entry.2);
        i += 1;
    }
    out
}

/// A shortened value keeps the characters of the value in place: all of them when there
/// are at most `MAX`, otherwise the first `MAX` followed by one ellipsis.
pub proof fn truncate_keeps_the_first_characters(s: Seq<char>)
    ensures
        s.len() <= MAX ==> truncated(s) == s,
        s.len() > MAX ==> truncated(s).len() == MAX + 1,
        s.len() > MAX ==> truncated(s)[MAX as int] == '…',
        forall|k: int| 0 <= k < s.len() && k < MAX ==> #[trigger] truncated(s)[k] == s[k],
{
}

/// The number of line breaks in a text.
pub open spec fn newlines(s: Seq<char>) -> nat {
    s.filter(|c: char| c == '\n').len()
}

/// A text without a line break has none to count.
pub proof fn lemma_no_newlines(s: Seq<char>)
    requires
        !s.contains('\n'),
    ensures
        newlines(s) == 0,
{
    let is_break = |c: char| c == '\n';
    assert forall|i: int| 0 <= i < s.len() implies !is_break(#[trigger] s[i]) by {
        if s[i] == '\n' {
            assert(s.contains('\n'));
        }
    }
    s.lemma_all_neg_filter_empty(is_break);
}

/// The text of an optional field as listed: the text, or two dashes.
pub open spec fn shown_or_dashes(text: Option<Seq<char>>) -> Seq<char> {
    match text {
        Some(t) => t,
        None => seq!['-', '-'],
    }
}

/// The larger of two numbers.
pub open spec fn at_least(n: int, width: int) -> int {
    if n >= width {
        n
    } else {
        width
    }
}

/// A listing line starts with the identifier, then spaces to column 25 (or one past a
/// longer identifier), then the language (or two dashes) followed by spaces up to 5
/// characters and one more, then the shortened value, and ends with a line break.
pub proof fn name_line_layout(id: Seq<char>, language: Option<Seq<char>>, value: Option<Seq<char>>)
    ensures
        ({
            let line = name_line(id, language, value);
            let lang = shown_or_dashes(language);
            let shown = truncated(shown_or_dashes(value));
            let first = at_least(id.len() as int, 25);
            let second = at_least(lang.len() as int, 5);
            &&& line.len() == first + 1 + second + 1 + shown.len() + 1
            &&& forall|k: int| 0 <= k < id.len() ==> #[trigger] line[k] == id[k]
            &&& forall|k: int| id.len() <= k <= first ==> #[trigger] line[k] == ' '
            &&& forall|k: int| 0 <= k < lang.len() ==> #[trigger] line[first + 1 + k] == lang[k]
            &&& forall|k: int| lang.len() <= k <= second ==> #[trigger] line[first + 1 + k] == ' '
            &&& forall|k: int| 0 <= k < shown.len() ==> #[trigger] line[first + second + 2 + k] == shown[k]
            &&& line[line.len() - 1] == '\n'
        }),
{
    let line = name_line(id, language, value);
    let lang = shown_or_dashes(language);
    let shown = truncated(shown_or_dashes(value));
    let first = at_least(id.len() as int, 25);
    let second = at_least(lang.len() as int, 5);
    assert(or_dashes(language) == lang);
    assert(or_dashes(value) == shown_or_dashes(value));
    let a = padded(id, 25);
    let b = padded(lang, 5);
    assert(a.len() == first);
    assert(b.len() == second);
    assert(line == a + seq![' '] + b + seq![' '] + shown + seq!['\n']);
    assert forall|k: int| 0 <= k < id.len() implies #[trigger] line[k] == id[k] by {
        assert(line[k] == a[k]);
    }
    assert forall|k: int| id.len() <= k <= first implies #[trigger] line[k] == ' ' by {
        if k < first {
            assert(line[k] == a[k]);
        }
    }
    assert forall|k: int| 0 <= k < lang.len() implies #[trigger] line[first + 1 + k] == lang[k] by {
        assert(line[first + 1 + k] == b[k]);
    }
    assert forall|k: int| lang.len() <= k <= second implies #[trigger] line[first + 1 + k] == ' ' by {
        if k < second {
            assert(line[first + 1 + k] == b[k]);
        }
    }
    assert forall|k: int| 0 <= k < shown.len() implies #[trigger] line[first + second + 2 + k] == shown[k] by {
        assert(line[first + second + 2 + k] == shown[k]);
    }
}

/// A listing line of fields without line breaks holds exactly one, its last character.
pub proof fn lemma_name_line_newlines(id: Seq<char>, language: Option<Seq<char>>, value: Option<Seq<char>>)
    requires
        !id.contains('\n'),
        language matches Some(t) ==> !t.contains('\n'),
        value matches Some(t) ==> !t.contains('\n'),
    ensures
        newlines(name_line(id, language, value)) == 1,
{
    let is_break = |c: char| c == '\n';
    let a = padded(id, 25);
    let b = padded(or_dashes(language), 5);
    let v = or_dashes(value);
    let shown = truncated(v);
    let body = a + seq![' '] + b + seq![' '] + shown;
    assert(name_line(id, language, value) == body.push('\n'));
    assert(!v.contains('\n')) by {
        if v.contains('\n') {
            let i = choose|i: int| 0 <= i < v.len() && v[i] == '\n';
            if value is None {
                assert(v[i] != '\n');
            }
        }
    }
    assert(!body.contains('\n')) by {
        if body.contains('\n') {
            let i = choose|i: int| 0 <= i < body.len() && body[i] == '\n';
            let lang = or_dashes(language);
            assert(!lang.contains('\n')) by {
                if lang.contains('\n') {
                    let j = choose|j: int| 0 <= j < lang.len() && lang[j] == '\n';
                    if language is None {
                        assert(lang[j] != '\n');
                    }
                }
            }
            if i < a.len() {
                if i < id.len() {
                    assert(a[i] == id[i]);
                    assert(id.contains(id[i]));
                }
            } else if i > a.len() && i < a.len() + 1 + b.len() {
                let j = i - a.len() - 1;
                if j < lang.len() {
                    assert(b[j] == lang[j]);
                    assert(lang.contains(lang[j]));
                }
            } else if i > a.len() + 1 + b.len() {
                let j = i - a.len() - 2 - b.len();
                if j < v.len() && j < MAX {
                    assert(shown[j] == v[j]);
                    assert(v.contains(v[j]));
                }
            }
        }
    }
    lemma_no_newlines(body);
    body.lemma_filter_len_push(is_break, '\n');
}

/// The listing holds one line per name record, in order: listing one more record appends
/// that record's line, and when no field holds a line break the listing has exactly one
/// line break per record.
pub proof fn one_line_per_record(entries: Seq<(String, Option<String>, Option<String>)>, n: int)
    requires
        0 <= n <= entries.len(),
        forall|i: int|
            0 <= i < entries.len() ==> !(#[trigger] entries[i]).0@.contains('\n') && (text_of(entries[i].1)
                matches Some(t) ==> !t.contains('\n')) && (text_of(entries[i].2) matches Some(t)
                ==> !t.contains('\n')),
    ensures
        newlines(names_listing(entries, n)) == n,
        forall|m: int|
            0 <= m < entries.len() ==> #[trigger] names_listing(entries, m + 1) == names_listing(entries, m)
                + name_line(entries[m].0@, text_of(entries[m].1), text_of(entries[m].2)),
    decreases n,
{
    let is_break = |c: char| c == '\n';
    if n > 0 {
        one_line_per_record(entries, n - 1);
        let e = entries[n - 1];
        lemma_name_line_newlines(e.0@, text_of(e.1), text_of(e.2));
        Seq::filter_distributes_over_add(
            names_listing(entries, n - 1),
            name_line(e.0@, text_of(e.1), text_of(e.2)),
            is_break,
        );
    } else {
        assert(names_listing(entries, 0) =~= Seq::<char>::empty());
        lemma_no_newlines(Seq::<char>::empty());
    }
}

} // verus!
