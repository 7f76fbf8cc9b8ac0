//! Listing the layout features that a font offers, one line per feature, script and
//! language.

use vstd::prelude::*;

use crate::text::{padded, push_padded, text_of};

verus! {

/// The text that `truetype::Tag::as_str` gives for the four bytes of a tag, if any.
pub uninterp spec fn tag_text_of(bytes: Seq<u8>) -> Option<Seq<char>>;

/// An ASCII control byte, as `u8::is_ascii_control` has it.
pub open spec fn is_ascii_control(byte: u8) -> bool {
    byte < 0x20 || byte == 0x7f
}

/// A printable ASCII byte: neither a control byte nor outside ASCII.
pub open spec fn is_printable_ascii(byte: u8) -> bool {
    0x20 <= byte < 0x7f
}

/// The text of a tag, through `Tag::as_str` of the `truetype` crate (reached as
/// `font::opentype::truetype::Tag`). Its source returns `None` when some byte is an ASCII
/// control byte and otherwise the bytes decoded as UTF-8 when they are valid UTF-8; the
/// contract states the first part, and states the second for tags of printable ASCII bytes,
/// where each byte is one character. For other bytes the result is only named.
#[verifier::external_body]
fn tag_text(bytes: [u8; 4]) -> (r: Option<String>)
    ensures
        text_of(r) == tag_text_of(bytes@),
        (exists|i: int| 0 <= i < 4 && is_ascii_control(#[trigger] bytes@[i])) ==> r is None,
        (forall|i: int| 0 <= i < 4 ==> is_printable_ascii(#[trigger] bytes@[i])) ==> text_of(r)
            == Some(bytes@.map_values(|b: u8| b as char)),
{
    match font::opentype::truetype::Tag(bytes).as_str() {
        Some(text) => Some(text.to_string()),
        None => None,
    }
}

/// The label listed for a tag without text.
pub open spec fn none_label() -> Seq<char> {
    seq!['<', 'n', 'o', 'n', 'e', '>']
}

/// The label of an optional text: the text, or the placeholder.
pub open spec fn label(text: Option<Seq<char>>) -> Seq<char> {
    match text {
        Some(t) => t,
        None => none_label(),
    }
}

/// One listing line: feature and script padded to 10 characters, then the language,
/// separated by spaces.
pub open spec fn feature_line(
    feature: Option<Seq<char>>,
    script: Option<Seq<char>>,
    language: Option<Seq<char>>,
) -> Seq<char> {
    padded(label(feature), 10) + seq![' '] + padded(label(script), 10) + seq![' '] + label(language)
        + seq!['\n']
}

fn label_string(text: &Option<String>) -> (r: String)
    ensures
        r@ == label(text_of(*text)),
{
    match text {
        Some(t) => String::from_str(t.as_str()),
        None => {
            let r = String::from_str("<none>");
            proof {
                reveal_strlit("<none>");
            }
            assert(r@ =~= none_label());
            r
        },
    }
}

/// Appends the listing line of a feature, given the texts of its tags.
pub fn push_feature_line(
    out: &mut String,
    feature: &Option<String>,
    script: &Option<String>,
    language: &Option<String>,
)
    ensures
        final(out)@ == old(out)@ + feature_line(text_of(*feature), text_of(*script), text_of(*language)),
{
    let ghost start = out@;
    let feature = label_string(feature);
    let script = label_string(script);
    let language = label_string(language);
    push_padded(out, feature.as_str(), 10);
    out.append(" ");
    push_padded(out, script.as_str(), 10);
    out.append(" ");
    out.append(language.as_str());
    out.append("\n");
    proof {
        reveal_strlit(" ");
        reveal_strlit("\n");
    }
    assert(out@ =~= start + padded(feature@, 10) + seq![' '] + padded(script@, 10) + seq![' ']
        + language@ + seq!['\n']);
}

/// The text of an optional tag: none for a missing tag (the default language).
pub open spec fn optional_tag_text(bytes: Option<[u8; 4]>) -> Option<Seq<char>> {
    match bytes {
        Some(b) => tag_text_of(b@),
        None => None,
    }
}

/// The listing of the first `n` (feature, script, language) rows.
pub open spec fn features_listing(rows: Seq<([u8; 4], [u8; 4], Option<[u8; 4]>)>, n: int) -> Seq<char>
    decreases n,
{
    if n <= 0 {
        Seq::empty()
    } else {
        features_listing(rows, n - 1) + feature_line(
            tag_text_of(rows[n - 1].0@),
            tag_text_of(rows[n - 1].1@),
            optional_tag_text(rows[n - 1].2),
        )
    }
}

/// The listing of layout features: one line per (feature, script, language) row, in
/// the order given; a missing language stands for the default one.
pub fn features_report(rows: &Vec<([u8; 4], [u8; 4], Option<[u8; 4]>)>) -> (r: String)
    ensures
        r@ == features_listing(rows@, rows@.len() as int),
{
    let mut out = String::new();
    let mut i: usize = 0;
    while i < rows.len()
        invariant
            i <= rows@.len(),
            out@ == features_listing(rows@, i as int),
        decreases rows@.len() - i,
    {
        let row = &rows[i];
        let feature = tag_text(row.0);
        let script = tag_text(row.1);
        let language = match row.2 {
            Some(b) => tag_text(b),
            None => None,
        };
        push_feature_line(&mut out, &feature, &script, &language);
        i += 1;
    }
    out
}

/// A listing row: the tags of a feature, of a script, and of a language (none for the
/// default language).
pub type Row = ([u8; 4], [u8; 4], Option<[u8; 4]>);

/// All indices in `indices` are below `bound`.
pub open spec fn indices_below(indices: Seq<usize>, bound: int) -> bool {
    forall|i: int| 0 <= i < indices.len() ==> #[trigger] indices[i] < bound
}

/// A directory is well formed when every script names existing languages and every
/// language names existing features.
pub open spec fn directory_well_formed(
    scripts: Seq<([u8; 4], Vec<usize>)>,
    languages: Seq<(Option<[u8; 4]>, Vec<usize>)>,
    features: Seq<[u8; 4]>,
) -> bool {
    &&& forall|s: int| 0 <= s < scripts.len() ==> indices_below(#[trigger] scripts[s].1@, languages.len() as int)
    &&& forall|l: int| 0 <= l < languages.len() ==> indices_below(#[trigger] languages[l].1@, features.len() as int)
}

/// The rows of one language of a script: one per feature of the language, in order.
pub open spec fn language_rows(
    script: [u8; 4],
    language: (Option<[u8; 4]>, Vec<usize>),
    features: Seq<[u8; 4]>,
    n: int,
) -> Seq<Row>
    decreases n,
{
    if n <= 0 {
        Seq::empty()
    } else {
        language_rows(script, language, features, n - 1).push(
            (features[language.1@[n - 1] as int], script, language.0),
        )
    }
}

/// The rows of the first `n` languages of a script, language by language.
pub open spec fn script_rows(
    script: ([u8; 4], Vec<usize>),
    languages: Seq<(Option<[u8; 4]>, Vec<usize>)>,
    features: Seq<[u8; 4]>,
    n: int,
) -> Seq<Row>
    decreases n,
{
    if n <= 0 {
        Seq::empty()
    } else {
        let language = languages[script.1@[n - 1] as int];
        script_rows(script, languages, features, n - 1) + language_rows(
            script.0,
            language,
            features,
            language.1@.len() as int,
        )
    }
}

/// The rows of the first `n` scripts of a directory, script by script.
pub open spec fn directory_rows(
    scripts: Seq<([u8; 4], Vec<usize>)>,
    languages: Seq<(Option<[u8; 4]>, Vec<usize>)>,
    features: Seq<[u8; 4]>,
    n: int,
) -> Seq<Row>
    decreases n,
{
    if n <= 0 {
        Seq::empty()
    } else {
        directory_rows(scripts, languages, features, n - 1) + script_rows(
            scripts[n - 1],
            languages,
            features,
            scripts[n - 1].1@.len() as int,
        )
    }
}

fn all_below(indices: &Vec<usize>, bound: usize) -> (r: bool)
    ensures
        r == indices_below(indices@, bound as int),
{
    let mut i: usize = 0;
    while i < indices.len()
        invariant
            i <= indices@.len(),
            forall|k: int| 0 <= k < i ==> #[trigger] indices@[k] < bound,
        decreases indices@.len() - i,
    {
        if indices[i] >= bound {
            return false;
        }
        i += 1;
    }
    true
}

/// Whether every script of a directory names existing languages and every language names
/// existing features.
pub fn is_well_formed(
    scripts: &Vec<([u8; 4], Vec<usize>)>,
    languages: &Vec<(Option<[u8; 4]>, Vec<usize>)>,
    features: &Vec<[u8; 4]>,
) -> (r: bool)
    ensures
        r == directory_well_formed(scripts@, languages@, features@),
{
    let mut s: usize = 0;
    while s < scripts.len()
        invariant
            s <= scripts@.len(),
            forall|k: int| 0 <= k < s ==> indices_below(#[trigger] scripts@[k].1@, languages@.len() as int),
        decreases scripts@.len() - s,
    {
        if !all_below(&scripts[s].1, languages.len()) {
            return false;
        }
        s += 1;
    }
    let mut l: usize = 0;
    while l < languages.len()
        invariant
            l <= languages@.len(),
            forall|k: int| 0 <= k < scripts@.len() ==> indices_below(#[trigger] scripts@[k].1@, languages@.len() as int),
            forall|k: int| 0 <= k < l ==> indices_below(#[trigger] languages@[k].1@, features@.len() as int),
        decreases languages@.len() - l,
    {
        if !all_below(&languages[l].1, features.len()) {
            return false;
        }
        l += 1;
    }
    true
}

/// Flattens a layout directory into listing rows: for each script in order, for each of
/// its languages in order, one row per feature of that language. A directory with an
/// index that names no language or no feature gives none.
pub fn feature_rows(
    scripts: &Vec<([u8; 4], Vec<usize>)>,
    languages: &Vec<(Option<[u8; 4]>, Vec<usize>)>,
    features: &Vec<[u8; 4]>,
) -> (rows: Option<Vec<Row>>)
    ensures
        rows is None <==> !directory_well_formed(scripts@, languages@, features@),
        rows matches Some(r) ==> r@ == directory_rows(scripts@, languages@, features@, scripts@.len() as int),
{
    if is_well_formed(scripts, languages, features) {
        Some(flatten(scripts, languages, features))
    } else {
        None
    }
}

fn flatten(
    scripts: &Vec<([u8; 4], Vec<usize>)>,
    languages: &Vec<(Option<[u8; 4]>, Vec<usize>)>,
    features: &Vec<[u8; 4]>,
) -> (rows: Vec<Row>)
    requires
        directory_well_formed(scripts@, languages@, features@),
    ensures
        rows@ == directory_rows(scripts@, languages@, features@, scripts@.len() as int),
{
    let mut rows: Vec<Row> = Vec::new();
    let mut s: usize = 0;
    while s < scripts.len()
        invariant
            s <= scripts@.len(),
            directory_well_formed(scripts@, languages@, features@),
            rows@ == directory_rows(scripts@, languages@, features@, s as int),
        decreases scripts@.len() - s,
    {
        let script = &scripts[s];
        let ghost before_script = rows@;
        let mut l: usize = 0;
        while l < script.1.len()
            invariant
                s < scripts@.len(),
                *script == scripts@[s as int],
                l <= script.1@.len(),
                directory_well_formed(scripts@, languages@, features@),
                rows@ == before_script + script_rows(*script, languages@, features@, l as int),
            decreases script.1@.len() - l,
        {
            assert(indices_below(scripts@[s as int].1@, languages@.len() as int));
            assert(script.1@[l as int] < languages@.len());
            let language = &languages[script.1[l]];
            let ghost before_language = rows@;
            let mut f: usize = 0;
            while f < language.1.len()
                invariant
                    l < script.1@.len(),
                    *language == languages@[script.1@[l as int] as int],
                    script.1@[l as int] < languages@.len(),
                    f <= language.1@.len(),
                    directory_well_formed(scripts@, languages@, features@),
                    rows@ == before_language + language_rows(script.0, *language, features@, f as int),
                decreases language.1@.len() - f,
            {
                assert(indices_below(languages@[script.1@[l as int] as int].1@, features@.len() as int));
                assert(language.1@[f as int] < features@.len());
                let feature = features[language.1[f]];
                rows.push((feature, script.0, language.0));
                f += 1;
            }
            l += 1;
            assert(rows@ =~= before_script + script_rows(*script, languages@, features@, l as int));
        }
        s += 1;
        assert(rows@ =~= directory_rows(scripts@, languages@, features@, s as int));
    }
    rows
}

/// The rows of feature `f` among the first `n` languages of a script: one row per
/// language that offers the feature, in the script's order of languages.
pub open spec fn feature_language_rows(
    f: int,
    script: ([u8; 4], Vec<usize>),
    languages: Seq<(Option<[u8; 4]>, Vec<usize>)>,
    features: Seq<[u8; 4]>,
    n: int,
) -> Seq<Row>
    decreases n,
{
    if n <= 0 {
        Seq::empty()
    } else {
        let language = languages[script.1@[n - 1] as int];
        let earlier = feature_language_rows(f, script, languages, features, n - 1);
        if language.1@.contains(f as usize) {
            earlier.push((features[f], script.0, language.0))
        } else {
            earlier
        }
    }
}

/// The rows of feature `f` over the first `n` scripts, script by script.
pub open spec fn feature_script_rows(
    f: int,
    scripts: Seq<([u8; 4], Vec<usize>)>,
    languages: Seq<(Option<[u8; 4]>, Vec<usize>)>,
    features: Seq<[u8; 4]>,
    n: int,
) -> Seq<Row>
    decreases n,
{
    if n <= 0 {
        Seq::empty()
    } else {
        feature_script_rows(f, scripts, languages, features, n - 1) + feature_language_rows(
            f,
            scripts[n - 1],
            languages,
            features,
            scripts[n - 1].1@.len() as int,
        )
    }
}

/// The rows of the first `n` features, feature by feature; within a feature script by
/// script, and within a script language by language.
pub open spec fn feature_major(
    scripts: Seq<([u8; 4], Vec<usize>)>,
    languages: Seq<(Option<[u8; 4]>, Vec<usize>)>,
    features: Seq<[u8; 4]>,
    n: int,
) -> Seq<Row>
    decreases n,
{
    if n <= 0 {
        Seq::empty()
    } else {
        feature_major(scripts, languages, features, n - 1) + feature_script_rows(
            n - 1,
            scripts,
            languages,
            features,
            scripts.len() as int,
        )
    }
}

fn has_index(indices: &Vec<usize>, index: usize) -> (r: bool)
    ensures
        r == indices@.contains(index),
{
    let mut i: usize = 0;
    while i < indices.len()
        invariant
            i <= indices@.len(),
            forall|k: int| 0 <= k < i ==> indices@[k] != index,
        decreases indices@.len() - i,
    {
        if indices[i] == index {
            assert(indices@[i as int] == index);
            return true;
        }
        i += 1;
    }
    false
}

/// Lists a layout directory feature by feature: for each feature in order, for each script
/// in order, one row per language of that script (in the script's order) that offers the
/// feature. A directory with an index that names no language or no feature gives none.
pub fn feature_major_rows(
    scripts: &Vec<([u8; 4], Vec<usize>)>,
    languages: &Vec<(Option<[u8; 4]>, Vec<usize>)>,
    features: &Vec<[u8; 4]>,
) -> (rows: Option<Vec<Row>>)
    ensures
        rows is None <==> !directory_well_formed(scripts@, languages@, features@),
        rows matches Some(r) ==> r@ == feature_major(scripts@, languages@, features@, features@.len() as int),
{
    if !is_well_formed(scripts, languages, features) {
        return None;
    }
    let mut rows: Vec<Row> = Vec::new();
    let mut f: usize = 0;
    while f < features.len()
        invariant
            f <= features@.len(),
            directory_well_formed(scripts@, languages@, features@),
            rows@ == feature_major(scripts@, languages@, features@, f as int),
        decreases features@.len() - f,
    {
        let ghost before_feature = rows@;
        let mut s: usize = 0;
        while s < scripts.len()
            invariant
                f < features@.len(),
                s <= scripts@.len(),
                directory_well_formed(scripts@, languages@, features@),
                rows@ == before_feature + feature_script_rows(f as int, scripts@, languages@, features@, s as int),
            decreases scripts@.len() - s,
        {
            let script = &scripts[s];
            let ghost before_script = rows@;
            let mut l: usize = 0;
            while l < script.1.len()
                invariant
                    f < features@.len(),
                    s < scripts@.len(),
                    *script == scripts@[s as int],
                    l <= script.1@.len(),
                    directory_well_formed(scripts@, languages@, features@),
                    rows@ == before_script + feature_language_rows(f as int, *script, languages@, features@, l as int),
                decreases script.1@.len() - l,
            {
                assert(indices_below(scripts@[s as int].1@, languages@.len() as int));
                assert(script.1@[l as int] < languages@.len());
                let language = &languages[script.1[l]];
                if has_index(&language.1, f) {
                    rows.push((features[f], script.0, language.0));
                }
                l += 1;
                assert(rows@ =~= before_script + feature_language_rows(f as int, *script, languages@, features@, l as int));
            }
            s += 1;
            assert(rows@ =~= before_feature + feature_script_rows(f as int, scripts@, languages@, features@, s as int));
        }
        f += 1;
        assert(rows@ =~= feature_major(scripts@, languages@, features@, f as int));
    }
    Some(rows)
}

/// The language at position `l` of a script offers feature `f`.
pub open spec fn offers(
    languages: Seq<(Option<[u8; 4]>, Vec<usize>)>,
    script: ([u8; 4], Vec<usize>),
    l: int,
    f: int,
) -> bool {
    languages[script.1@[l] as int].1@.contains(f as usize)
}

/// The row that names feature `f`, a script and the language at position `l` of it.
pub open spec fn row_of(
    features: Seq<[u8; 4]>,
    languages: Seq<(Option<[u8; 4]>, Vec<usize>)>,
    script: ([u8; 4], Vec<usize>),
    l: int,
    f: int,
) -> Row {
    (features[f], script.0, languages[script.1@[l] as int].0)
}

/// How many of the first `n` language positions of a script offer feature `f`.
pub open spec fn offering_count(
    languages: Seq<(Option<[u8; 4]>, Vec<usize>)>,
    script: ([u8; 4], Vec<usize>),
    f: int,
    n: int,
) -> nat {
    Seq::new(n as nat, |l: int| l).filter(|l: int| offers(languages, script, l, f)).len()
}

/// How many (script, language position) pairs among the first `n` scripts offer feature `f`.
pub open spec fn scripts_offering(
    f: int,
    scripts: Seq<([u8; 4], Vec<usize>)>,
    languages: Seq<(Option<[u8; 4]>, Vec<usize>)>,
    n: int,
) -> nat
    decreases n,
{
    if n <= 0 {
        0
    } else {
        scripts_offering(f, scripts, languages, n - 1) + offering_count(
            languages,
            scripts[n - 1],
            f,
            scripts[n - 1].1@.len() as int,
        )
    }
}

/// How many (feature, script, language position) triples among the first `n` features
/// have the language offer the feature.
pub open spec fn offerings(
    scripts: Seq<([u8; 4], Vec<usize>)>,
    languages: Seq<(Option<[u8; 4]>, Vec<usize>)>,
    n: int,
) -> nat
    decreases n,
{
    if n <= 0 {
        0
    } else {
        offerings(scripts, languages, n - 1) + scripts_offering(n - 1, scripts, languages, scripts.len() as int)
    }
}

proof fn lemma_concat_contains<A>(a: Seq<A>, b: Seq<A>, x: A)
    ensures
        (a + b).contains(x) <==> (a.contains(x) || b.contains(x)),
{
    if a.contains(x) {
        let i = choose|i: int| 0 <= i < a.len() && a[i] == x;
        assert((a + b)[i] == x);
    }
    if b.contains(x) {
        let i = choose|i: int| 0 <= i < b.len() && b[i] == x;
        assert((a + b)[a.len() + i] == x);
    }
    if (a + b).contains(x) {
        let i = choose|i: int| 0 <= i < (a + b).len() && (a + b)[i] == x;
        if i < a.len() {
            assert(a[i] == x);
        } else {
            assert(b[i - a.len()] == x);
        }
    }
}

proof fn lemma_push_contains<A>(a: Seq<A>, y: A, x: A)
    ensures
        a.push(y).contains(x) <==> (a.contains(x) || x == y),
{
    lemma_concat_contains(a, seq![y], x);
    assert(a.push(y) =~= a + seq![y]);
    if x == y {
        assert(seq![y][0] == x);
    }
    if seq![y].contains(x) {
        let i = choose|i: int| 0 <= i < 1 && seq![y][i] == x;
    }
}

proof fn lemma_language_rows(
    f: int,
    script: ([u8; 4], Vec<usize>),
    languages: Seq<(Option<[u8; 4]>, Vec<usize>)>,
    features: Seq<[u8; 4]>,
    n: int,
)
    requires
        0 <= n <= script.1@.len(),
    ensures
        feature_language_rows(f, script, languages, features, n).len() == offering_count(languages, script, f, n),
        forall|l: int|
            0 <= l < n && #[trigger] offers(languages, script, l, f) ==> feature_language_rows(
                f,
                script,
                languages,
                features,
                n,
            ).contains(row_of(features, languages, script, l, f)),
        forall|r: Row|
            #[trigger] feature_language_rows(f, script, languages, features, n).contains(r) ==> exists|l: int|
                0 <= l < n && #[trigger] offers(languages, script, l, f) && r == row_of(
                    features,
                    languages,
                    script,
                    l,
                    f,
                ),
    decreases n,
{
    let pred = |l: int| offers(languages, script, l, f);
    if n == 0 {
        assert(Seq::new(0, |l: int| l).filter(pred) =~= Seq::<int>::empty()) by {
            reveal(Seq::filter);
        }
    } else {
        lemma_language_rows(f, script, languages, features, n - 1);
        let earlier = feature_language_rows(f, script, languages, features, n - 1);
        let row = row_of(features, languages, script, n - 1, f);
        assert(Seq::new(n as nat, |l: int| l) =~= Seq::new((n - 1) as nat, |l: int| l).push(n - 1));
        Seq::new((n - 1) as nat, |l: int| l).lemma_filter_len_push(pred, n - 1);
        if offers(languages, script, n - 1, f) {
            assert(feature_language_rows(f, script, languages, features, n) == earlier.push(row));
            assert forall|r: Row| #[trigger] earlier.push(row).contains(r) <==> (earlier.contains(r) || r == row) by {
                lemma_push_contains(earlier, row, r);
            }
        } else {
            assert(feature_language_rows(f, script, languages, features, n) == earlier);
        }
    }
}

proof fn lemma_script_rows(
    f: int,
    scripts: Seq<([u8; 4], Vec<usize>)>,
    languages: Seq<(Option<[u8; 4]>, Vec<usize>)>,
    features: Seq<[u8; 4]>,
    n: int,
)
    requires
        0 <= n <= scripts.len(),
    ensures
        feature_script_rows(f, scripts, languages, features, n).len() == scripts_offering(f, scripts, languages, n),
        forall|s: int, l: int|
            0 <= s < n && 0 <= l < scripts[s].1@.len() && #[trigger] offers(languages, scripts[s], l, f)
                ==> feature_script_rows(f, scripts, languages, features, n).contains(
                row_of(features, languages, scripts[s], l, f),
            ),
        forall|r: Row|
            #[trigger] feature_script_rows(f, scripts, languages, features, n).contains(r) ==> exists|
                s: int,
                l: int,
            |
                0 <= s < n && 0 <= l < scripts[s].1@.len() && #[trigger] offers(languages, scripts[s], l, f)
                    && r == row_of(features, languages, scripts[s], l, f),
    decreases n,
{
    if n > 0 {
        lemma_script_rows(f, scripts, languages, features, n - 1);
        let script = scripts[n - 1];
        let count = script.1@.len() as int;
        lemma_language_rows(f, script, languages, features, count);
        let earlier = feature_script_rows(f, scripts, languages, features, n - 1);
        let more = feature_language_rows(f, script, languages, features, count);
        assert(feature_script_rows(f, scripts, languages, features, n) == earlier + more);
        assert forall|s: int, l: int|
            0 <= s < n && 0 <= l < scripts[s].1@.len() && #[trigger] offers(languages, scripts[s], l, f)
                implies (earlier + more).contains(row_of(features, languages, scripts[s], l, f)) by {
            lemma_concat_contains(earlier, more, row_of(features, languages, scripts[s], l, f));
        }
        assert forall|r: Row| #[trigger] (earlier + more).contains(r) implies exists|s: int, l: int|
            0 <= s < n && 0 <= l < scripts[s].1@.len() && #[trigger] offers(languages, scripts[s], l, f) && r
                == row_of(features, languages, scripts[s], l, f) by {
            lemma_concat_contains(earlier, more, r);
            if more.contains(r) {
                let l = choose|l: int|
                    0 <= l < count && #[trigger] offers(languages, script, l, f) && r == row_of(
                        features,
                        languages,
                        script,
                        l,
                        f,
                    );
                assert(offers(languages, scripts[n - 1], l, f));
            }
        }
    }
}

/// Listing features feature by feature loses no offering and adds none: for a well-formed
/// directory every (feature, script, language position) whose language offers the feature
/// gives its row, every row comes from such a triple, and there are exactly as many rows as
/// such triples.
pub proof fn feature_rows_list_every_offering(
    scripts: Seq<([u8; 4], Vec<usize>)>,
    languages: Seq<(Option<[u8; 4]>, Vec<usize>)>,
    features: Seq<[u8; 4]>,
    n: int,
)
    requires
        0 <= n <= features.len(),
        directory_well_formed(scripts, languages, features),
    ensures
        feature_major(scripts, languages, features, n).len() == offerings(scripts, languages, n),
        forall|f: int, s: int, l: int|
            0 <= f < n && 0 <= s < scripts.len() && 0 <= l < scripts[s].1@.len() && #[trigger] offers(
                languages,
                scripts[s],
                l,
                f,
            ) ==> feature_major(scripts, languages, features, n).contains(
                row_of(features, languages, scripts[s], l, f),
            ),
        forall|r: Row|
            #[trigger] feature_major(scripts, languages, features, n).contains(r) ==> exists|
                f: int,
                s: int,
                l: int,
            |
                0 <= f < n && 0 <= s < scripts.len() && 0 <= l < scripts[s].1@.len() && #[trigger] offers(
                    languages,
                    scripts[s],
                    l,
                    f,
                ) && r == row_of(features, languages, scripts[s], l, f),
    decreases n,
{
    if n > 0 {
        feature_rows_list_every_offering(scripts, languages, features, n - 1);
        let f0 = n - 1;
        lemma_script_rows(f0, scripts, languages, features, scripts.len() as int);
        let earlier = feature_major(scripts, languages, features, n - 1);
        let more = feature_script_rows(f0, scripts, languages, features, scripts.len() as int);
        assert(feature_major(scripts, languages, features, n) == earlier + more);
        assert forall|f: int, s: int, l: int|
            0 <= f < n && 0 <= s < scripts.len() && 0 <= l < scripts[s].1@.len() && #[trigger] offers(
                languages,
                scripts[s],
                l,
                f,
            ) implies (earlier + more).contains(row_of(features, languages, scripts[s], l, f)) by {
            lemma_concat_contains(earlier, more, row_of(features, languages, scripts[s], l, f));
        }
        assert forall|r: Row| #[trigger] (earlier + more).contains(r) implies exists|f: int, s: int, l: int|
            0 <= f < n && 0 <= s < scripts.len() && 0 <= l < scripts[s].1@.len() && #[trigger] offers(
                languages,
                scripts[s],
                l,
                f,
            ) && r == row_of(features, languages, scripts[s], l, f) by {
            lemma_concat_contains(earlier, more, r);
            if more.contains(r) {
                let (s, l) = choose|s: int, l: int|
                    0 <= s < scripts.len() && 0 <= l < scripts[s].1@.len() && #[trigger] offers(
                        languages,
                        scripts[s],
                        l,
                        f0,
                    ) && r == row_of(features, languages, scripts[s], l, f0);
                assert(offers(languages, scripts[s], l, f0));
            }
        }
    }
}

} // verus!
