use std::collections::{HashMap, HashSet};
use std::hash::Hasher;

use dup_detector::bytes::{push_u32, push_u64, read_u32, read_u64};
use dup_detector::candidates::sort_seeds;
use dup_detector::cluster::{cluster, is_boilerplate};
use dup_detector::config::Config;
use dup_detector::detect::{
    add_span_signatures, detect, detect_filtered, span_window_signatures,
};
use dup_detector::encode::{
    kind_tag, window_signatures, FastHasher, IDENTIFIER_TAG, LITERAL_TAG,
};
use dup_detector::language::LanguageId;
use dup_detector::model::{CloneGroup, CloneType, Occurrence, SourceFile, TokenKind};
use dup_detector::paths::{ancestors, is_within, join, parent, strip_prefix};
use dup_detector::regions::{region_lines, token_span_for_lines};
use dup_detector::spans::{compute_span_meta, is_complete_span, snap_out, top_level_units};
use dup_detector::text::{str_equal, string_of};
use dup_detector::tokenize::{build_kind_tables, tokenize, tokenize_with};

fn file(name: &str, source: &str) -> SourceFile {
    SourceFile::new(
        name.to_string(),
        LanguageId::Rust,
        source.to_string(),
        tokenize(source, LanguageId::Rust).unwrap(),
        None,
        0,
    )
}

#[test]
fn numbers_are_little_endian() {
    let mut bytes = Vec::new();
    push_u32(&mut bytes, 0x0102_0304);
    push_u64(&mut bytes, 0x1112_1314_1516_1718);
    assert_eq!(
        bytes,
        vec![4, 3, 2, 1, 0x18, 0x17, 0x16, 0x15, 0x14, 0x13, 0x12, 0x11]
    );
    assert_eq!(read_u32(&bytes, 0), 0x0102_0304);
    assert_eq!(read_u64(&bytes, 4), 0x1112_1314_1516_1718);
}

#[test]
fn paths_join_like_directories() {
    assert_eq!(join("/p", "a.rs"), "/p/a.rs");
    assert_eq!(join("/p/", "a.rs"), "/p/a.rs");
    assert_eq!(join("", "a.rs"), "a.rs");
    assert_eq!(join("/p", "/q/a.rs"), "/q/a.rs");
}

#[test]
fn paths_are_compared_part_by_part() {
    assert_eq!(
        strip_prefix("/p/src/a.rs", "/p"),
        Some("src/a.rs".to_string())
    );
    assert_eq!(strip_prefix("/pp/a.rs", "/p"), None);
    assert_eq!(strip_prefix("/p", "/p"), Some(String::new()));
    assert_eq!(strip_prefix("p/a.rs", "/p"), None);
    assert!(is_within("/p/src/a.rs", "/p/src"));
    assert!(!is_within("/p/a.rs", "/p/src"));
}

#[test]
fn paths_have_parents() {
    assert_eq!(parent("/p/src/a.rs"), Some("/p/src".to_string()));
    assert_eq!(parent("/p"), Some("/".to_string()));
    assert_eq!(parent("/"), None);
    assert_eq!(
        ancestors("/p/src"),
        vec!["/p/src".to_string(), "/p".to_string(), "/".to_string()]
    );
}

#[test]
fn texts_are_compared_and_built() {
    assert!(str_equal("abc", "abc"));
    assert!(!str_equal("abc", "abd"));
    assert!(!str_equal("abc", "ab"));
    assert_eq!(string_of(&vec!['a', '\u{e9}', '\u{1f600}']), "a\u{e9}\u{1f600}");
}

#[test]
fn hashing_mixes_words() {
    let mut hasher = FastHasher::default();
    assert_eq!(hasher.finish(), 0);
    hasher.write_u64(1);
    let state: u64 = 0x9E37_79B9_7F4A_7C15;
    let first = (state ^ (state >> 30)).wrapping_mul(0xbf58_476d_1ce4_e5b9);
    let second = (first ^ (first >> 27)).wrapping_mul(0x94d0_49bb_1331_11eb);
    assert_eq!(hasher.finish(), second ^ (second >> 31));
}

#[test]
fn kinds_have_tags() {
    assert_eq!(kind_tag(TokenKind::Identifier.as_u8()), IDENTIFIER_TAG);
    assert_eq!(kind_tag(TokenKind::Literal.as_u8()), LITERAL_TAG);
    assert_eq!(kind_tag(TokenKind::Fixed.as_u8()), 0);
}

#[test]
fn languages_have_names() {
    for language in LanguageId::ALL {
        assert_eq!(LanguageId::from_name(language.name()), Some(language));
        assert_eq!(LanguageId::ALL[language.index()], language);
    }
    assert_eq!(LanguageId::from_name("cobol"), None);
    assert_eq!(LanguageId::from_name("TypeScript"), Some(LanguageId::TypeScript));
    for (short, language) in [
        ("rs", LanguageId::Rust),
        ("PY", LanguageId::Python),
        ("js", LanguageId::JavaScript),
        ("ts", LanguageId::TypeScript),
        ("c++", LanguageId::Cpp),
        ("cxx", LanguageId::Cpp),
    ] {
        assert_eq!(LanguageId::from_name(short), Some(language));
    }
    assert_eq!(LanguageId::from_extension("txt"), None);
}

#[test]
fn many_seeds_are_sorted() {
    let mut seeds: Vec<(u64, u32, u32)> = Vec::new();
    let mut state: u64 = 1;
    for n in 0..20_000u32 {
        state = state
            .wrapping_mul(6364136223846793005)
            .wrapping_add(1442695040888963407);
        seeds.push((state >> 20, n % 7, n));
    }
    let mut expected = seeds.clone();
    expected.sort();
    assert_eq!(sort_seeds(seeds), expected);
}

#[test]
fn large_files_are_searched() {
    let mut text = String::new();
    for n in 0..700 {
        text.push_str(&format!(
            "fn f{n}(a{n}: i32) -> i32 {{ let b{n} = a{n} + {n}; b{n} * {n} }}\n"
        ));
    }
    let clone = "fn copied(items: Vec<i32>) -> i32 {
    let mut sum = 0;
    for item in items {
        sum = sum + item * item;
        if sum > 100 {
            sum = sum - 50;
        }
    }
    return sum;
}
";
    let a = file("a.rs", &format!("{text}{clone}"));
    let b = file("b.rs", clone);
    assert!(a.tokens.len() > 8192);
    let groups = detect(&[&a, &b], &Config::default());
    assert_eq!(groups.len(), 1);
    assert_eq!(groups[0].clone_type, CloneType::Type1);
    assert_eq!(groups[0].occurrences.len(), 2);
}

#[test]
fn seeds_of_every_window_find_every_clone() {
    let a = file("a.rs", "fn one() -> i32 { 100 + 200 }");
    let b = file("b.rs", "fn one() -> i32 { 100 + 200 }");
    let config = Config {
        min_lines: 1,
        ..Config::default()
    };
    let mut allowed = span_window_signatures(&a, 0, a.tokens.len(), &config);
    add_span_signatures(&mut allowed, &b, 0, b.tokens.len(), &config);
    let full = detect(&[&a, &b], &config);
    let filtered = detect_filtered(&[&a, &b], &config, Some(&allowed));
    assert_eq!(full.len(), 1);
    assert_eq!(filtered.len(), 1);
    assert_eq!(full[0].occurrences, filtered[0].occurrences);
    assert!(detect_filtered(&[&a, &b], &config, Some(&HashSet::new())).is_empty());
}

#[test]
fn windows_that_occur_once_seed_nothing() {
    let a = file(
        "a.rs",
        "fn one() -> i32 { 100 + 200 }\nfn other(a: u8) -> u8 { a + 1 }",
    );
    let b = file(
        "b.rs",
        "struct S { x: u64 }\nfn one() -> i32 { 100 + 200 }",
    );
    let config = Config {
        min_lines: 1,
        ..Config::default()
    };
    let mut counts: HashMap<u64, usize> = HashMap::new();
    for f in [&a, &b] {
        for signature in window_signatures(&f.tokens, &f.hashes, config.seed_window, false) {
            *counts.entry(signature).or_default() += 1;
        }
    }
    let allowed: HashSet<u64> = counts
        .iter()
        .filter(|(_, count)| **count >= 2)
        .map(|(signature, _)| *signature)
        .collect();
    assert!(allowed.len() < counts.len());
    let full = detect(&[&a, &b], &config);
    let filtered = detect_filtered(&[&a, &b], &config, Some(&allowed));
    assert_eq!(full.len(), 1);
    assert_eq!(filtered.len(), 1);
    assert_eq!(full[0].occurrences, filtered[0].occurrences);
}

#[test]
fn comments_and_layout_do_not_matter() {
    let plain = file("a.rs", "fn one() -> i32 { 100 + 200 }");
    let spread = file(
        "b.rs",
        "// one\nfn one()\n    -> i32\n{\n    100 /* and */ + 200\n}\n",
    );
    assert_eq!(plain.hashes, spread.hashes);
    let renamed = file("c.rs", "fn two() -> i32 { 100 + 200 }");
    assert_ne!(plain.hashes, renamed.hashes);
    assert_eq!(
        window_signatures(&plain.tokens, &plain.hashes, 8, false),
        window_signatures(&renamed.tokens, &renamed.hashes, 8, false)
    );
}

#[test]
fn boilerplate_can_be_kept() {
    let a = file(
        "a.rs",
        "pub struct Alpha { pub first: i32, pub second: i32, pub third: i32 }",
    );
    let b = file(
        "b.rs",
        "pub struct Beta { pub left: i32, pub right: i32, pub extra: i32 }",
    );
    let config = Config {
        min_lines: 1,
        ..Config::default()
    };
    assert!(detect(&[&a, &b], &config).is_empty());
    let keep = Config {
        filter_boilerplate: false,
        ..config
    };
    assert_eq!(detect(&[&a, &b], &keep).len(), 1);
}

#[test]
fn lines_hold_tokens() {
    let source = "fn a() {\n  let x = 1;\n}\n";
    let f = file("a.rs", source);
    let (start, end) = token_span_for_lines(&f, 2, 2).unwrap();
    let texts: Vec<&str> = f.tokens[start..end]
        .iter()
        .map(|t| &source[t.start as usize..t.end as usize])
        .collect();
    assert_eq!(texts, vec!["let", "x", "=", "1", ";"]);
    assert_eq!(region_lines(&f, start, end), 1);
    assert_eq!(region_lines(&f, 0, f.tokens.len()), 3);
    assert_eq!(token_span_for_lines(&f, 9, 12), None);
    assert_eq!(
        token_span_for_lines(&f, 1, u32::MAX),
        Some((0, f.tokens.len()))
    );
}

#[test]
fn statements_are_units() {
    let f = file("a.rs", "fn f() { let a = b; let c = d; }");
    assert_eq!(
        top_level_units(&f.tokens, 5, 15),
        vec![(5, 10), (10, 15)]
    );
}

#[test]
fn tables_serve_many_texts() {
    let tables = build_kind_tables(LanguageId::Python);
    assert_eq!(tables.language_id(), LanguageId::Python);
    for source in ["x = 1\n", "def f(a):\n    return a\n"] {
        assert_eq!(
            tokenize_with(source, &tables).unwrap(),
            tokenize(source, LanguageId::Python).unwrap()
        );
    }
}

const TWO_GROUPS: [(&str, &str); 2] = [
    (
        "a.rs",
        "fn alpha() {
    let first = compute_one(alpha_input, beta_input, gamma_input);
    let second = compute_two(alpha_input, beta_input) + extra_value;
    let marker = 1;
}",
    ),
    (
        "b.rs",
        "fn beta() {
    let first = compute_one(alpha_input, beta_input, gamma_input);
    let other = compute_two(alpha_input, beta_input) + extra_value;
    let marker = 2;
}",
    ),
];

fn places(groups: &[CloneGroup]) -> Vec<Vec<Occurrence>> {
    groups
        .iter()
        .map(|group| group.occurrences.clone())
        .collect()
}

#[test]
fn types_and_limits_select_from_the_report() {
    let [a, b] = TWO_GROUPS.map(|(name, source)| file(name, source));
    let files = [&a, &b];
    let config = Config {
        min_lines: 1,
        ..Config::default()
    };
    let all = detect(&files, &config);
    assert_eq!(all.len(), 2);
    for limit in 0..4 {
        let limited = detect(
            &files,
            &Config {
                max_groups: Some(limit),
                ..config.clone()
            },
        );
        assert_eq!(places(&limited), places(&all[..limit.min(2)]));
    }
    for wanted in [CloneType::Type1, CloneType::Type2] {
        let chosen = detect(
            &files,
            &Config {
                types: Some(vec![wanted]),
                max_groups: Some(1),
                ..config.clone()
            },
        );
        assert_eq!(chosen.len(), 1);
        assert_eq!(chosen[0].clone_type, wanted);
    }
}

#[test]
fn reports_rank_groups_strictly_and_keep_occurrences_apart() {
    let [a, b] = TWO_GROUPS.map(|(name, source)| file(name, source));
    let both = file("c.rs", &format!("{}\n{}", TWO_GROUPS[0].1, TWO_GROUPS[0].1));
    let files = [&a, &b, &both];
    let config = Config {
        min_lines: 1,
        ..Config::default()
    };
    let groups = detect(&files, &config);
    assert!(groups.len() >= 2);
    let rank = |group: &CloneGroup| {
        let first = group.occurrences[0];
        (usize::MAX - group.token_count, first.file, first.start)
    };
    for pair in groups.windows(2) {
        assert!(rank(&pair[0]) < rank(&pair[1]));
    }
    for group in &groups {
        for pair in group.occurrences.windows(2) {
            assert!(pair[0].file < pair[1].file || pair[0].end <= pair[1].start);
        }
    }
}

#[test]
fn occurrences_that_do_not_match_are_dropped() {
    let f = file("a.rs", "let a = b; let a = b; let c = d; let e = f;");
    let occ = |start, end| Occurrence {
        file: 0,
        start,
        end,
    };
    let config = Config {
        min_lines: 1,
        min_occurrences: 2,
        ..Config::default()
    };
    let matches = vec![(occ(0, 5), occ(5, 10)), (occ(0, 5), occ(10, 17))];
    let groups = cluster(&[&f], &matches, &config);
    assert_eq!(groups.len(), 1);
    assert_eq!(groups[0].occurrences, vec![occ(0, 5), occ(5, 10)]);
    assert_eq!(groups[0].token_count, 5);
    assert!(cluster(&[&f], &vec![], &config).is_empty());
}

#[test]
fn snapped_spans_hold_what_they_grew_from() {
    let f = file("a.rs", "fn a() { let b = c(d, e); f(); } fn g() { h(); }");
    let meta = compute_span_meta(&f.tokens);
    let count = f.tokens.len();
    let mut snapped_spans = 0;
    for start in 0..count {
        for end in start + 1..=count {
            if let Some((s, e)) = snap_out(&f.tokens, &meta, start, end) {
                snapped_spans += 1;
                assert!(s <= start && end <= e);
                assert!(is_complete_span(&f.tokens, &meta, s, e));
            }
            if is_complete_span(&f.tokens, &meta, start, end) {
                assert_eq!(snap_out(&f.tokens, &meta, start, end), Some((start, end)));
            }
        }
    }
    assert!(snapped_spans > 0);
}

#[test]
fn boilerplate_is_only_left_out() {
    let [a, b] = TWO_GROUPS.map(|(name, source)| file(name, source));
    let c = file(
        "c.rs",
        "pub struct Alpha { pub first: i32, pub second: i32, pub third: i32 }",
    );
    let d = file(
        "d.rs",
        "pub struct Beta { pub left: i32, pub right: i32, pub extra: i32 }",
    );
    let files = [&a, &b, &c, &d];
    let kept = Config {
        min_lines: 1,
        filter_boilerplate: false,
        ..Config::default()
    };
    let all = detect(&files, &kept);
    let sifted = detect(
        &files,
        &Config {
            filter_boilerplate: true,
            ..kept
        },
    );
    let wanted: Vec<Vec<Occurrence>> = all
        .iter()
        .map(|group| group.occurrences.clone())
        .filter(|occurrences| !is_boilerplate(&files, occurrences))
        .collect();
    assert_eq!(places(&sifted), wanted);
    assert_eq!(all.len(), 3);
    assert_eq!(sifted.len(), 2);
}

#[test]
fn clones_at_a_span_come_back() {
    let source = TWO_GROUPS[0].1;
    let a = file("a.rs", source);
    let b = file("b.rs", source);
    let files = [&a, &b];
    let config = Config {
        min_lines: 1,
        ..Config::default()
    };
    let full = detect(&files, &config);
    assert!(!full.is_empty());
    for start in 0..a.tokens.len() {
        let allowed = span_window_signatures(&a, start, start + 1, &config);
        let again = detect_filtered(&files, &config, Some(&allowed));
        assert_eq!(places(&again), places(&full));
    }
}
