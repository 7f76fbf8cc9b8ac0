//! Character-level string operations with exact contracts.

use vstd::prelude::*;

verus! {

/// The text of an optional string, by its view.
pub open spec fn text_of(value: Option<String>) -> Option<Seq<char>> {
    match value {
        Some(s) => Some(s@),
        None => None,
    }
}

/// `suffix` ends `text`.
pub open spec fn is_suffix(text: Seq<char>, suffix: Seq<char>) -> bool {
    &&& suffix.len() <= text.len()
    &&& text.subrange(text.len() - suffix.len(), text.len() as int) == suffix
}

/// `needle` occurs as a contiguous block of `text`, starting at `start`.
pub open spec fn occurs_at(text: Seq<char>, needle: Seq<char>, start: int) -> bool {
    &&& 0 <= start
    &&& start + needle.len() <= text.len()
    &&& text.subrange(start, start + needle.len()) == needle
}

/// `needle` occurs somewhere in `text` as a contiguous block.
pub open spec fn occurs_in(text: Seq<char>, needle: Seq<char>) -> bool {
    exists|start: int| #[trigger] occurs_at(text, needle, start)
}

/// The characters of a string, in order.
pub fn chars_of(s: &str) -> (v: Vec<char>)
    ensures
        v@ == s@,
{
    let mut v: Vec<char> = Vec::new();
    for c in iter: s.chars()
        invariant
            iter.seq() == s@,
            v@ == iter.seq().take(iter.index() as int),
    {
        v.push(c);
    }
    v
}

/// Whether `needle` occurs in `text` starting at `start`.
pub fn matches_at(text: &Vec<char>, needle: &Vec<char>, start: usize) -> (r: bool)
    requires
        start + needle@.len() <= text@.len(),
    ensures
        r == occurs_at(text@, needle@, start as int),
{
    let mut j: usize = 0;
    while j < needle.len()
        invariant
            start + needle@.len() <= text.len(),
            j <= needle@.len(),
            forall|k: int| 0 <= k < j ==> text@[start + k] == needle@[k],
        decreases needle@.len() - j,
    {
        if text[start + j] != needle[j] {
            assert(text@.subrange(start as int, start + needle@.len())[j as int] != needle@[j as int]);
            return false;
        }
        j += 1;
    }
    assert(text@.subrange(start as int, start + needle@.len()) =~= needle@);
    true
}

/// Whether `text` ends with `suffix`.
pub fn ends_with(text: &str, suffix: &str) -> (r: bool)
    ensures
        r == is_suffix(text@, suffix@),
{
    let t = chars_of(text);
    let u = chars_of(suffix);
    if u.len() > t.len() {
        return false;
    }
    matches_at(&t, &u, t.len() - u.len())
}

/// Whether `needle` occurs somewhere in `text`.
pub fn contains(text: &str, needle: &str) -> (r: bool)
    ensures
        r == occurs_in(text@, needle@),
{
    let t = chars_of(text);
    let u = chars_of(needle);
    if u.len() > t.len() {
        return false;
    }
    let last = t.len() - u.len();
    let mut start: usize = 0;
    while start < last
        invariant
            t@ == text@,
            u@ == needle@,
            last == t@.len() - u@.len(),
            start <= last,
            forall|k: int| 0 <= k < start ==> !occurs_at(text@, needle@, k),
        decreases last - start,
    {
        if matches_at(&t, &u, start) {
            return true;
        }
        start += 1;
    }
    let r = matches_at(&t, &u, last);
    assert forall|k: int| #[trigger] occurs_at(text@, needle@, k) implies r by {
        assert(k <= last);
        if k < last {
            assert(!occurs_at(text@, needle@, k));
        }
    }
    r
}

/// `s` followed by enough spaces to make it `width` characters long; unchanged when
/// it is already that long or longer.
pub open spec fn padded(s: Seq<char>, width: nat) -> Seq<char> {
    if s.len() >= width {
        s
    } else {
        s + Seq::new((width - s.len()) as nat, |i: int| ' ')
    }
}

/// Appends `s` to `out`, padded with spaces on the right to `width` characters.
pub fn push_padded(out: &mut String, s: &str, width: usize)
    ensures
        final(out)@ == old(out)@ + padded(s@, width as nat),
{
    let ghost start = out@;
    out.append(s);
    let count = s.unicode_len();
    let mut filled = count;
    while filled < width
        invariant
            count == s@.len(),
            count <= filled,
            filled <= width || filled == count,
            out@ == start + s@ + Seq::new((filled - count) as nat, |i: int| ' '),
        decreases width - filled,
    {
        let ghost before = out@;
        out.append(" ");
        proof {
            reveal_strlit(" ");
        }
        assert(" "@ =~= seq![' ']);
        filled += 1;
        let ghost shorter = Seq::new((filled - 1 - count) as nat, |i: int| ' ');
        assert(shorter.push(' ') =~= Seq::new((filled - count) as nat, |i: int| ' '));
        assert(before + seq![' '] =~= start + s@ + shorter.push(' '));
    }
    if count >= width {
        assert(Seq::new((filled - count) as nat, |i: int| ' ') =~= Seq::<char>::empty());
        assert(s@ + Seq::<char>::empty() =~= s@);
    }
    assert(start + s@ + Seq::new((filled - count) as nat, |i: int| ' ') =~= start + (s@
        + Seq::new((filled - count) as nat, |i: int| ' ')));
}

/// Whether two strings hold the same characters.
pub fn same_text(a: &str, b: &str) -> (r: bool)
    ensures
        r == (a@ == b@),
{
    let x = chars_of(a);
    let y = chars_of(b);
    if x.len() != y.len() {
        return false;
    }
    let r = matches_at(&x, &y, 0);
    assert(r == (a@ == b@)) by {
        assert(x@.subrange(0, y@.len() as int) =~= x@);
    }
    r
}

/// `pattern` matches the last characters of `text`, character by character.
pub open spec fn ends_with_chars(text: Seq<char>, pattern: Seq<char>) -> bool {
    &&& pattern.len() <= text.len()
    &&& forall|k: int| 0 <= k < pattern.len() ==> #[trigger] text[text.len() - pattern.len() + k] == pattern[k]
}

/// `pattern` matches the characters of `text` from position `start` on, character by
/// character.
pub open spec fn appears_at(text: Seq<char>, pattern: Seq<char>, start: int) -> bool {
    &&& 0 <= start
    &&& start + pattern.len() <= text.len()
    &&& forall|k: int| 0 <= k < pattern.len() ==> #[trigger] text[start + k] == pattern[k]
}

/// `pattern` matches the characters of `text` from some position on.
pub open spec fn appears_in(text: Seq<char>, pattern: Seq<char>) -> bool {
    exists|start: int| #[trigger] appears_at(text, pattern, start)
}

/// A suffix is a pattern matching the end of a text character by character.
pub proof fn suffix_is_matching_end(text: Seq<char>, suffix: Seq<char>)
    ensures
        is_suffix(text, suffix) <==> ends_with_chars(text, suffix),
{
    if ends_with_chars(text, suffix) {
        let tail = text.subrange(text.len() - suffix.len(), text.len() as int);
        assert forall|k: int| 0 <= k < suffix.len() implies tail[k] == suffix[k] by {
            assert(text[text.len() - suffix.len() + k] == suffix[k]);
        }
        assert(tail =~= suffix);
    }
    if is_suffix(text, suffix) {
        assert forall|k: int| 0 <= k < suffix.len() implies #[trigger] text[text.len() - suffix.len() + k]
            == suffix[k] by {
            assert(text.subrange(text.len() - suffix.len(), text.len() as int)[k] == suffix[k]);
        }
    }
}

/// An occurrence is a position from which the pattern matches character by character.
pub proof fn occurrence_is_matching_run(text: Seq<char>, needle: Seq<char>)
    ensures
        occurs_in(text, needle) <==> appears_in(text, needle),
{
    if occurs_in(text, needle) {
        let start = choose|start: int| #[trigger] occurs_at(text, needle, start);
        assert forall|k: int| 0 <= k < needle.len() implies #[trigger] text[start + k] == needle[k] by {
            assert(text.subrange(start, start + needle.len())[k] == needle[k]);
        }
        assert(appears_at(text, needle, start));
    }
    if appears_in(text, needle) {
        let start = choose|start: int| #[trigger] appears_at(text, needle, start);
        let run = text.subrange(start, start + needle.len());
        assert forall|k: int| 0 <= k < needle.len() implies run[k] == needle[k] by {
            assert(text[start + k] == needle[k]);
        }
        assert(run =~= needle);
        assert(occurs_at(text, needle, start));
    }
}

} // verus!
