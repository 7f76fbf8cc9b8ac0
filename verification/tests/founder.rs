use founder::dispatch::command;
use founder::features::{feature_major_rows, feature_rows, features_report, is_well_formed};
use founder::layout::{glyph_stem, grid_cell, grid_columns};
use founder::naming::{names_report, truncate};
use founder::scanning;
use founder::support::{filter, summarize};

#[test]
fn filter_accepts_included_suffix() {
    assert!(filter("fonts/Serif.otf", &[".otf", ".ttf"], &[]));
    assert!(filter("fonts/Serif.ttf", &[".otf", ".ttf"], &["Sans"]));
}

#[test]
fn filter_rejects_other_suffix() {
    assert!(!filter("fonts/Serif.woff", &[".otf", ".ttf"], &[]));
    assert!(!filter("fonts/Serif.otf", &[], &[]));
    assert!(!filter("otf", &[".otf"], &[]));
}

#[test]
fn filter_rejects_excluded() {
    assert!(!filter("fonts/Noto/Serif.otf", &[".otf"], &["Noto"]));
    assert!(!filter("fonts/Noto/Serif.otf", &[".otf"], &["Sans", "/Serif"]));
}

#[test]
fn more_excludes_select_less_example() {
    let path = "fonts/Noto/Serif.otf";
    assert!(filter(path, &[".otf"], &["Sans"]));
    assert!(!filter(path, &[".otf"], &["Sans", "Noto"]));
    assert!(!filter("fonts/Sans.otf", &[".otf"], &["Sans", "Noto"]));
    assert!(!filter("fonts/Sans.otf", &[".otf"], &["Sans"]));
}

fn sample() -> Vec<(String, Result<Option<u8>, String>)> {
    vec![
        ("a.otf".to_string(), Ok(Some(1))),
        ("b.otf".to_string(), Err("broken".to_string())),
        ("c.otf".to_string(), Ok(None)),
        ("skip/d.otf".to_string(), Err("broken".to_string())),
        ("e.otf".to_string(), Ok(Some(2))),
    ]
}

#[test]
fn summarize_splits_by_outcome() {
    let values = sample();
    let summary = summarize(&values);
    assert_eq!(summary.complete, vec![0, 4]);
    assert_eq!(summary.incomplete, vec![2]);
    assert_eq!(summary.failed, vec![1, 3]);
    assert_eq!(
        summary.complete.len() + summary.incomplete.len() + summary.failed.len(),
        values.len()
    );
    assert_eq!(summary.exit_code(), 1);
}

#[test]
fn summarize_without_failures_exits_zero() {
    let values: Vec<(&str, Result<Option<()>, ()>)> = vec![("a", Ok(Some(()))), ("b", Ok(None))];
    let summary = summarize(&values);
    assert_eq!(summary.complete, vec![0]);
    assert_eq!(summary.incomplete, vec![1]);
    assert!(summary.failed.is_empty());
    assert_eq!(summary.exit_code(), 0);
    let empty: Vec<(&str, Result<Option<()>, ()>)> = vec![];
    let summary = summarize(&empty);
    assert!(summary.complete.is_empty() && summary.incomplete.is_empty());
    assert_eq!(summary.exit_code(), 0);
}

#[test]
fn report_sets_ignored_failures_apart() {
    let values = sample();
    let report = scanning::summarize(&values, &["skip".to_string()]);
    assert_eq!(report.complete, vec![0, 4]);
    assert_eq!(report.incomplete, vec![2]);
    assert_eq!(report.ignored, vec![3]);
    assert_eq!(report.failed, vec![1]);
    assert!(!report.passed());
    let report = scanning::summarize(&values, &["skip".to_string(), "b.otf".to_string()]);
    assert_eq!(report.ignored, vec![1, 3]);
    assert!(report.failed.is_empty());
    assert!(report.passed());
}

#[test]
fn report_without_ignores_matches_summary() {
    let values = sample();
    let report = scanning::summarize(&values, &[]);
    assert!(report.ignored.is_empty());
    assert_eq!(report.failed, summarize(&values).failed);
}

#[test]
fn truncate_keeps_short_values() {
    assert_eq!(truncate(""), "");
    assert_eq!(truncate("Source Serif Pro"), "Source Serif Pro");
    let fifty = "x".repeat(50);
    assert_eq!(truncate(&fifty), fifty);
}

#[test]
fn truncate_shortens_long_values() {
    let fifty_one = "y".repeat(51);
    assert_eq!(truncate(&fifty_one), format!("{}…", "y".repeat(50)));
    let wide = "é".repeat(60);
    let shortened = truncate(&wide);
    assert_eq!(shortened, format!("{}…", "é".repeat(50)));
    assert_eq!(shortened.chars().count(), 51);
}

#[test]
fn truncate_is_idempotent() {
    for value in ["", "short", &"z".repeat(50), &"z".repeat(51), &"ü".repeat(200)] {
        let once = truncate(value);
        assert_eq!(truncate(&once), once);
        assert!(once.chars().count() <= 51);
    }
}

#[test]
fn names_report_pads_and_defaults() {
    let entries = vec![
        (
            "FontFamilyName".to_string(),
            Some("en".to_string()),
            Some("Source Serif Pro".to_string()),
        ),
        ("Other".to_string(), None, None),
    ];
    let expected = format!(
        "{: <25} {: <5} {}\n{: <25} {: <5} {}\n",
        "FontFamilyName", "en", "Source Serif Pro", "Other", "--", "--"
    );
    assert_eq!(names_report(&entries), expected);
    assert_eq!(names_report(&vec![]), "");
}

#[test]
fn names_report_keeps_long_identifiers_and_truncates_values() {
    let id = "PostScriptVariationNamePrefixLong".to_string();
    let value = "v".repeat(70);
    let entries = vec![(id.clone(), Some("en-US".to_string()), Some(value))];
    let expected = format!("{} en-US {}…\n", id, "v".repeat(50));
    assert_eq!(names_report(&entries), expected);
}

#[test]
fn features_report_uses_tag_text() {
    let rows = vec![(*b"liga", *b"latn", None), (*b"kern", *b"DFLT", Some(*b"DEU "))];
    let expected = "liga       latn       <none>\nkern       DFLT       DEU \n";
    assert_eq!(features_report(&rows), expected);
    assert_eq!(features_report(&vec![]), "");
}

#[test]
fn features_report_labels_control_tags() {
    let rows = vec![([0, 1, 2, 3], *b"cyrl", Some([b'a', 0x7f, b'b', b'c']))];
    assert_eq!(features_report(&rows), "<none>     cyrl       <none>\n");
}

#[test]
fn scanning_filter_selects_drawings() {
    assert!(scanning::filter("glyphs/a.svg", &[]));
    assert!(!scanning::filter("glyphs/a.png", &[]));
    assert!(!scanning::filter("glyphs/a.svg.png", &[]));
    assert!(!scanning::filter("glyphs/svg", &[]));
    assert!(!scanning::filter("glyphs/.svg", &[]));
    assert!(!scanning::filter("glyphs/a.svg", &["glyphs".to_string()]));
    assert!(scanning::filter("glyphs/a.svg", &["other".to_string()]));
}

#[test]
fn allowed_extension_compares_text() {
    assert!(scanning::allowed_extension(&Some("ttf".to_string()), &["otf", "ttf"]));
    assert!(!scanning::allowed_extension(&Some("TTF".to_string()), &["otf", "ttf"]));
    assert!(!scanning::allowed_extension(&None, &["otf", "ttf"]));
}

#[test]
fn wrap_pairs_path_with_result() {
    let (path, result) = scanning::wrap("a.otf".to_string(), |path: &String, n: usize| path.len() + n, 3);
    assert_eq!(path, "a.otf");
    assert_eq!(result, 8);
}

#[test]
fn grid_columns_is_ceiling_square_root() {
    let expected = [(0, 0), (1, 1), (2, 2), (4, 2), (5, 3), (9, 3), (10, 4), (100, 10), (101, 11)];
    for (count, side) in expected {
        assert_eq!(grid_columns(count), side);
    }
}

#[test]
fn grid_holds_every_glyph_example() {
    for count in 1..60usize {
        let side = grid_columns(count);
        for index in 0..count {
            let (column, row) = grid_cell(index, side);
            assert!(column < side && row < side);
            assert_eq!(row * side + column, index);
        }
    }
    assert_eq!(grid_cell(7, 3), (1, 2));
}

#[test]
fn glyph_stem_is_character_and_hex_code() {
    assert_eq!(glyph_stem('B'), "B-0x42");
    assert_eq!(glyph_stem('a'), format!("{}-{:#x}", 'a', 'a' as usize));
    assert_eq!(glyph_stem('\0'), "\0-0x0");
    assert_eq!(glyph_stem('€'), "€-0x20ac");
    assert_eq!(glyph_stem('\u{10ffff}'), "\u{10ffff}-0x10ffff");
}

#[test]
fn command_names_tool_program() {
    let arguments: Vec<String> = ["/usr/bin/founder", "name", "--path", "fonts"]
        .iter()
        .map(|s| s.to_string())
        .collect();
    let c = command("founder", &arguments).unwrap();
    assert_eq!(c.program, "founder-name");
    assert_eq!(c.arguments, vec!["--path".to_string(), "fonts".to_string()]);
    let just_tool: Vec<String> = vec!["founder".to_string(), "scan".to_string()];
    let c = command("founder", &just_tool).unwrap();
    assert_eq!(c.program, "founder-scan");
    assert!(c.arguments.is_empty());
}

#[test]
fn command_without_tool_is_usage() {
    assert!(command("founder", &vec!["founder".to_string()]).is_none());
    assert!(command("founder", &vec![]).is_none());
}

#[test]
fn feature_rows_walks_scripts_then_languages() {
    let scripts = vec![(*b"latn", vec![0, 1]), (*b"cyrl", vec![1])];
    let languages = vec![(None, vec![1, 0]), (Some(*b"DEU "), vec![2])];
    let features = vec![*b"kern", *b"liga", *b"smcp"];
    let rows = feature_rows(&scripts, &languages, &features).unwrap();
    assert_eq!(
        rows,
        vec![
            (*b"liga", *b"latn", None),
            (*b"kern", *b"latn", None),
            (*b"smcp", *b"latn", Some(*b"DEU ")),
            (*b"smcp", *b"cyrl", Some(*b"DEU ")),
        ]
    );
    assert_eq!(
        features_report(&rows),
        "liga       latn       <none>\nkern       latn       <none>\nsmcp       latn       DEU \nsmcp       cyrl       DEU \n"
    );
}

#[test]
fn feature_rows_rejects_dangling_indices() {
    let scripts = vec![(*b"latn", vec![0])];
    let languages = vec![(None, vec![3])];
    let features = vec![*b"kern"];
    assert!(!is_well_formed(&scripts, &languages, &features));
    assert!(feature_rows(&scripts, &languages, &features).is_none());
    let unused_bad = vec![(None, vec![0]), (None, vec![9])];
    assert!(feature_rows(&scripts, &unused_bad, &features).is_none());
    let missing_language = vec![(*b"latn", vec![2])];
    assert!(feature_rows(&missing_language, &unused_bad, &features).is_none());
    assert_eq!(feature_rows(&vec![], &vec![], &vec![]), Some(vec![]));
}

#[test]
fn glyph_stems_distinct_example() {
    let characters = "BESbswy0X€";
    let stems: Vec<String> = characters.chars().map(glyph_stem).collect();
    for (i, a) in stems.iter().enumerate() {
        for (j, b) in stems.iter().enumerate() {
            assert_eq!(i == j, a == b);
        }
    }
}

#[test]
fn feature_major_rows_walks_features_then_scripts_then_languages() {
    let scripts = vec![(*b"latn", vec![0, 1]), (*b"cyrl", vec![1])];
    let languages = vec![(None, vec![1, 0]), (Some(*b"DEU "), vec![2])];
    let features = vec![*b"kern", *b"liga", *b"smcp"];
    let rows = feature_major_rows(&scripts, &languages, &features).unwrap();
    assert_eq!(
        rows,
        vec![
            (*b"kern", *b"latn", None),
            (*b"liga", *b"latn", None),
            (*b"smcp", *b"latn", Some(*b"DEU ")),
            (*b"smcp", *b"cyrl", Some(*b"DEU ")),
        ]
    );
    assert_eq!(
        features_report(&rows),
        "kern       latn       <none>\nliga       latn       <none>\nsmcp       latn       DEU \nsmcp       cyrl       DEU \n"
    );
    let bad = vec![(None, vec![7])];
    assert!(feature_major_rows(&scripts, &bad, &features).is_none());
    assert_eq!(feature_major_rows(&vec![], &vec![], &vec![]), Some(vec![]));
    let unused = vec![*b"kern"];
    assert_eq!(feature_major_rows(&vec![], &vec![], &unused), Some(vec![]));
}
