use dup_detector::cluster::{cluster, representative_class};
use dup_detector::config::Config;
use dup_detector::detect::{detect, detect_filtered, span_window_signatures};
use dup_detector::encode::SpanScratch;
use dup_detector::language::LanguageId;
use dup_detector::matching::{chain_merge, CoverIndex};
use dup_detector::model::{CloneType, Occurrence, SourceFile};
use dup_detector::tokenize::tokenize;

const FN: &str = r#"
fn compute_total(items: Vec<i32>) -> i32 {
    let mut sum = 0;
    for item in items {
        sum = sum + item * item;
        if sum > 100 {
            sum = sum - 50;
        }
    }
    return sum;
}
"#;

fn file(name: &str, source: &str) -> SourceFile {
    file_with(name, source, LanguageId::Rust)
}

fn file_with(name: &str, source: &str, language: LanguageId) -> SourceFile {
    SourceFile::new(
        name.to_string(),
        language,
        source.to_string(),
        tokenize(source, language).unwrap(),
        None,
        0,
    )
}

fn config() -> Config {
    Config {
        min_lines: 5,
        ..Config::default()
    }
}

fn fine_config() -> Config {
    Config {
        min_lines: 1,
        ..config()
    }
}

#[test]
fn detects_renamed_duplicate() {
    let a = file("a.rs", FN);
    let renamed = FN
        .replace("compute_total", "calc_sum")
        .replace("sum", "total")
        .replace("item", "value")
        .replace("items", "values");
    let b = file("b.rs", &renamed);
    let groups = detect(&[&a, &b], &config());
    assert_eq!(groups.len(), 1);
    let group = &groups[0];
    assert_eq!(group.occurrences.len(), 2);
    assert_eq!(group.clone_type, CloneType::Type2);
    assert!(group.token_count >= 10);
    assert_eq!(
        (group.occurrences[0].file, group.occurrences[1].file),
        (0, 1)
    );
}

#[test]
fn ignores_different_code() {
    let a = file("a.rs", FN);
    let b = file("b.rs", "fn other() -> String { \"hi\".to_string() }");
    assert!(detect(&[&a, &b], &config()).is_empty());
}

#[test]
fn finds_same_file_duplicate() {
    let source = format!(
        r"{FN}
{FN}"
    );
    let f = file("a.rs", &source);
    let groups = detect(&[&f], &config());
    assert_eq!(groups.len(), 1);
    let group = &groups[0];
    assert_eq!(group.occurrences.len(), 2);
    assert!(group.occurrences[0].end <= group.occurrences[1].start);
}

#[test]
fn adjacent_clone_after_identifier_tail_is_reported() {
    let source = r#"fn pre() -> i32 {
    let signatures = 1;
    signatures
}

fn parameterized(previous: u32, start: usize, index: usize, tag: u64) -> u64 {
    let distance = if previous != u32::MAX && previous as usize >= start {
        (index - previous as usize) as u64
    } else {
        0
    };
    (distance & !TAG_MASK) | tag
}

fn parameterized2(previous: u32, start: usize, index: usize, tag: u64) -> u64 {
    let distance = if previous != u32::MAX && previous as usize >= start {
        (index - previous as usize) as u64
    } else {
        0
    };
    (distance & !TAG_MASK) | tag
}
"#;
    let f = file("a.rs", source);
    let groups = detect(&[&f], &config());
    assert!(
        groups
            .iter()
            .any(|group| group.token_count >= 60 && group.occurrences.len() == 2),
        "expected the two adjacent functions to be reported as a clone, got {groups:?}"
    );
}

#[test]
fn min_lines_filters_small_clones() {
    let a = file("a.rs", "fn one() -> i32 { 100 + 200 }");
    let b = file("b.rs", "fn one() -> i32 { 100 + 200 }");
    let strict = Config {
        min_lines: 2,
        ..config()
    };
    assert!(detect(&[&a, &b], &strict).is_empty());
    assert_eq!(detect(&[&a, &b], &fine_config()).len(), 1);
}

#[test]
fn literal_mismatch_is_not_a_clone_by_default() {
    let a = file("a.rs", "fn one() -> i32 { 100 + 200 }");
    let b = file("b.rs", "fn two() -> i32 { 300 + 100 }");
    assert!(detect(&[&a, &b], &fine_config()).is_empty());
}

#[test]
fn literal_parameterization_matches_renamed_literals() {
    let a = file("a.rs", "fn one() -> i32 { 100 + 200 }");
    let b = file("b.rs", "fn one() -> i32 { 100 + 300 }");
    let cfg = Config {
        parameterize_literals: true,
        ..fine_config()
    };
    assert_eq!(detect(&[&a, &b], &cfg).len(), 1);
}

#[test]
fn seed_cache_respects_configuration() {
    let a = file("a.rs", "fn one() -> i32 { 100 + 200 }");
    let b = file("b.rs", "fn one() -> i32 { 100 + 300 }");
    let plain = fine_config();
    let parameterized = Config {
        parameterize_literals: true,
        ..fine_config()
    };
    assert!(detect(&[&a, &b], &plain).is_empty());
    assert_eq!(detect(&[&a, &b], &parameterized).len(), 1);
    assert!(detect(&[&a, &b], &plain).is_empty());
}

#[test]
fn inconsistent_rename_is_not_a_clone() {
    let a = file("a.rs", "fn f(x: i32, y: i32) -> i32 { x + y + x }");
    let b = file("b.rs", "fn f(a: i32, b: i32) -> i32 { a + b + c }");
    assert!(detect(&[&a, &b], &fine_config()).is_empty());
}

fn occ(file: u32, start: u32, end: u32) -> Occurrence {
    Occurrence { file, start, end }
}

#[test]
fn cover_index_matches_linear_scan_and_resets() {
    let recorded = [
        (occ(0, 10, 20), occ(0, 100, 110)),
        (occ(0, 15, 30), occ(0, 200, 210)),
    ];
    let mut cover = CoverIndex::new();
    cover.reset(64);
    cover.insert(10, 20, 100, 110);
    cover.insert(15, 30, 200, 210);
    for start_a in 0..64u32 {
        for start_b in 0..256u32 {
            let expected = recorded.iter().any(|(a, b)| {
                a.start <= start_a && start_a < a.end && b.start <= start_b && start_b < b.end
            });
            assert_eq!(cover.covers(start_a, start_b), expected);
        }
    }
    cover.reset(8);
    assert!(!cover.covers(7, 100));
    cover.insert(2, 4, 100, 110);
    assert!(cover.covers(2, 100));
    assert!(cover.covers(3, 105));
    assert!(!cover.covers(4, 100));
    cover.reset(64);
    assert!(!cover.covers(2, 100));
    assert!(!cover.covers(19, 105));
}

#[test]
fn aligned_matches_merge() {
    let merged = chain_merge(vec![
        (occ(0, 0, 10), occ(0, 20, 30)),
        (occ(0, 10, 20), occ(0, 30, 40)),
    ]);
    assert_eq!(merged, vec![(occ(0, 0, 20), occ(0, 20, 40))]);
}

#[test]
fn drifted_alignments_do_not_merge() {
    let merged = chain_merge(vec![
        (occ(0, 0, 10), occ(0, 20, 30)),
        (occ(0, 8, 18), occ(0, 20, 30)),
    ]);
    assert_eq!(merged.len(), 2);
}

#[test]
fn cluster_drops_glued_occurrences() {
    let f = file("a.rs", "let a = b; let a = b; let c = d; let e = f;");
    let files: Vec<&SourceFile> = vec![&f];
    let cfg = Config {
        min_lines: 1,
        min_occurrences: 2,
        ..Config::default()
    };
    let matches = vec![
        (occ(0, 0, 5), occ(0, 5, 10)),
        (occ(0, 0, 5), occ(0, 10, 17)),
    ];
    let groups = cluster(&files, &matches, &cfg);
    assert_eq!(groups.len(), 1);
    assert_eq!(groups[0].occurrences.len(), 2);
    assert_eq!(groups[0].token_count, 5);
}

#[test]
fn representative_class_prefers_largest_class() {
    let f = file(
        "a.rs",
        "let alpha = 1; let gamma = 2; let alpha = 1; let gamma = 2;",
    );
    let files: Vec<&SourceFile> = vec![&f];
    let occs = vec![occ(0, 0, 5), occ(0, 5, 10), occ(0, 10, 15), occ(0, 15, 20)];
    let cfg = Config {
        min_lines: 1,
        ..Config::default()
    };
    let mut scratch = SpanScratch::new();
    let (representative, merged) = representative_class(&files, &occs, cfg.parameterize_literals, &mut scratch);
    assert_eq!(representative, 0);
    assert_eq!(merged, vec![occ(0, 0, 5), occ(0, 10, 15)]);
}

#[test]
fn partial_statements_are_not_reported() {
    let a = file(
        "a.rs",
        r#"fn alpha(items: Vec<i32>) -> i32 {
    let total = first(items) + second(items) + third(items);
    total
}"#,
    );
    let b = file(
        "b.rs",
        r#"fn beta(items: Vec<i32>) -> i32 {
    let total = first(items) + second(items) * fourth(items);
    total
}"#,
    );
    assert!(detect(&[&a, &b], &fine_config()).is_empty());
}

#[test]
fn complete_units_are_reported() {
    let a = file(
        "a.rs",
        r#"fn alpha(items: Vec<i32>) -> i32 {
    let total = first(items) + second(items) + third(items);
    total + 1
}"#,
    );
    let b = file(
        "b.rs",
        r#"fn beta(items: Vec<i32>) -> i32 {
    let total = first(items) + second(items) + third(items);
    total + 2
}"#,
    );
    let groups = detect(&[&a, &b], &fine_config());
    assert_eq!(groups.len(), 1);
    let lines: Vec<(u32, u32)> = groups[0]
        .occurrences
        .iter()
        .map(|occ| {
            let f = if occ.file == 0 { &a } else { &b };
            (
                f.token_line(occ.start as usize),
                f.token_end_line(occ.end as usize - 1),
            )
        })
        .collect();
    assert_eq!(lines, vec![(2, 2), (2, 2)]);
}

#[test]
fn default_threshold_reports_medium_statements() {
    let a = file(
        "a.rs",
        r#"fn alpha(index: &Index, params: &Params) -> Result<i32, Error> {
    let total = compute_first(index.root())
        .and_then(|value| compute_second(value))
        .and_then(|value| compute_third(value))
        .and_then(|value| compute_fourth(value))
        .and_then(|value| compute_fifth(value))
        .and_then(|value| compute_sixth(value))
        .unwrap_or_default();
    Ok(total + 1)
}"#,
    );
    let b = file(
        "b.rs",
        r#"fn beta(index: &Index, params: &Params) -> Result<i32, Error> {
    let total = compute_first(index.root())
        .and_then(|value| compute_second(value))
        .and_then(|value| compute_third(value))
        .and_then(|value| compute_fourth(value))
        .and_then(|value| compute_fifth(value))
        .and_then(|value| compute_sixth(value))
        .unwrap_or_default();
    Ok(total + 2)
}"#,
    );
    let groups = detect(&[&a, &b], &Config::default());
    assert_eq!(groups.len(), 1);
    assert!(groups[0].token_count >= 40);
    let lines: Vec<(u32, u32)> = groups[0]
        .occurrences
        .iter()
        .map(|occ| {
            let f = if occ.file == 0 { &a } else { &b };
            (
                f.token_line(occ.start as usize),
                f.token_end_line(occ.end as usize - 1),
            )
        })
        .collect();
    assert_eq!(lines, vec![(2, 8), (2, 8)]);
}

#[test]
fn statement_runs_are_split_into_units() {
    let a = file(
        "a.rs",
        r#"fn alpha() {
    let first = compute_one(alpha_input, beta_input, gamma_input);
    let second = compute_two(alpha_input, beta_input) + extra_value;
    let marker = 1;
}"#,
    );
    let b = file(
        "b.rs",
        r#"fn beta() {
    let first = compute_one(alpha_input, beta_input, gamma_input);
    let second = compute_two(alpha_input, beta_input) + extra_value;
    let marker = 2;
}"#,
    );
    let groups = detect(&[&a, &b], &fine_config());
    assert_eq!(groups.len(), 2);
    let mut lines: Vec<(u32, u32)> = groups
        .iter()
        .map(|group| {
            assert_eq!(group.occurrences.len(), 2);
            let f = if group.occurrences[0].file == 0 {
                &a
            } else {
                &b
            };
            (
                f.token_line(group.occurrences[0].start as usize),
                f.token_end_line(group.occurrences[0].end as usize - 1),
            )
        })
        .collect();
    lines.sort();
    assert_eq!(lines, vec![(2, 2), (3, 3)]);
}

#[test]
fn nested_clones_are_reported_separately() {
    let a = file(
        "a.rs",
        r#"fn outer_one(input: &[i32], scale: i32) -> i32 {
    let adjusted = input.iter().map(|value| value * scale).collect::<Vec<i32>>();
    adjusted.iter().sum()
}
"#,
    );
    let b = file(
        "b.rs",
        r#"fn outer_two(input: &[i32], scale: i32) -> i32 {
    let adjusted = input.iter().map(|value| value * scale).collect::<Vec<i32>>();
    adjusted.iter().sum()
}
"#,
    );
    let c = file(
        "c.rs",
        r#"fn unrelated(input: &[i32], scale: i32) -> usize {
    let adjusted = input.iter().map(|value| value * scale).collect::<Vec<i32>>();
    adjusted.len()
}
"#,
    );
    let groups = detect(&[&a, &b, &c], &fine_config());
    assert_eq!(groups.len(), 2);
    let outer = groups
        .iter()
        .find(|group| group.occurrences.len() == 2)
        .expect("outer function clone");
    let inner = groups
        .iter()
        .find(|group| group.occurrences.len() == 3)
        .expect("inner statement clone");
    assert!(inner.token_count < outer.token_count);
    for occ in &inner.occurrences {
        if let Some(outer_occ) = outer
            .occurrences
            .iter()
            .find(|outer| outer.file == occ.file)
        {
            assert!(outer_occ.start <= occ.start && occ.end <= outer_occ.end);
        }
    }
}

#[test]
fn python_multi_line_statement_is_a_semantic_unit() {
    let a = file_with(
        "a.py",
        r#"def alpha():
    total = compute(
        first,
        second,
        third,
        fourth,
    )
    return total
"#,
        LanguageId::Python,
    );
    let b = file_with(
        "b.py",
        r#"def beta():
    total = compute(
        first,
        second,
        third,
        fourth,
    )
    return total + 1
"#,
        LanguageId::Python,
    );
    let groups = detect(&[&a, &b], &config());
    assert_eq!(groups.len(), 1);
    let lines: Vec<(u32, u32)> = groups[0]
        .occurrences
        .iter()
        .map(|occ| {
            let f = if occ.file == 0 { &a } else { &b };
            (
                f.token_line(occ.start as usize),
                f.token_end_line(occ.end as usize - 1),
            )
        })
        .collect();
    assert_eq!(lines, vec![(2, 7), (2, 7)]);
}

#[test]
fn javascript_multi_line_statement_is_a_semantic_unit() {
    let a = file_with(
        "a.js",
        r#"function alpha() {
    const total = compute(
        first,
        second,
        third,
        fourth,
    );
    return total;
}
"#,
        LanguageId::JavaScript,
    );
    let b = file_with(
        "b.js",
        r#"function beta() {
    const total = compute(
        first,
        second,
        third,
        fourth,
    );
    return total + 1;
}
"#,
        LanguageId::JavaScript,
    );
    let groups = detect(&[&a, &b], &config());
    assert_eq!(groups.len(), 1);
    let lines: Vec<(u32, u32)> = groups[0]
        .occurrences
        .iter()
        .map(|occ| {
            let f = if occ.file == 0 { &a } else { &b };
            (
                f.token_line(occ.start as usize),
                f.token_end_line(occ.end as usize - 1),
            )
        })
        .collect();
    assert_eq!(lines, vec![(2, 7), (2, 7)]);
}

#[test]
fn import_blocks_are_not_reported() {
    let a = file(
        "a.rs",
        r#"use std::collections::HashMap;
use std::path::{Path, PathBuf};
use serde::Serialize;
"#,
    );
    let b = file(
        "b.rs",
        r#"use core::mem::size_of;
use core::fmt::{Debug, Display};
use anyhow::Result;
"#,
    );
    assert!(detect(&[&a, &b], &config()).is_empty());
}

#[test]
fn pure_declarations_are_not_reported() {
    let a = file(
        "a.rs",
        "pub struct Alpha { pub first: i32, pub second: i32, pub third: i32 }",
    );
    let b = file(
        "b.rs",
        "pub struct Beta { pub left: i32, pub right: i32, pub extra: i32 }",
    );
    assert!(detect(&[&a, &b], &config()).is_empty());
}

#[test]
fn region_signature_filter_keeps_overlapping_groups() {
    let a = file("a.rs", FN);
    let renamed = FN
        .replace("compute_total", "calc_sum")
        .replace("sum", "total")
        .replace("item", "value")
        .replace("items", "values");
    let b = file("b.rs", &renamed);
    let cfg = config();
    let full = detect(&[&a, &b], &cfg);
    assert!(!full.is_empty());

    let start = a
        .tokens
        .partition_point(|token| (token.start as usize) < a.line_offset(2));
    let end = a
        .tokens
        .partition_point(|token| (token.start as usize) < a.line_offset(3));
    let allowed = span_window_signatures(&a, start, end, &cfg);
    let filtered = detect_filtered(&[&a, &b], &cfg, Some(&allowed));

    for group in &full {
        let overlaps = group
            .occurrences
            .iter()
            .any(|occ| occ.file == 0 && occ.start < end as u32 && occ.end > start as u32);
        if overlaps {
            assert!(
                filtered
                    .iter()
                    .any(|candidate| candidate.occurrences == group.occurrences),
                "region filter dropped {group:?}"
            );
        }
    }
}
