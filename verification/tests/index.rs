use dup_detector::cache::{decode_entry, encode_entry};
use dup_detector::config::Config;
use dup_detector::index::{
    entry_is_current, file_from_entry, length_fits, parse_file, references, scanned_language,
    BuildStats, FileStamp, Loaded, SlotPlan, SourceIndex,
};
use dup_detector::language::LanguageId;
use dup_detector::model::{FileTime, SourceFile};
use dup_detector::tokenize::build_kind_tables;

fn stamp(seconds: i64, text: &str) -> FileStamp {
    FileStamp {
        modified: Some(FileTime { seconds, nanos: 0 }),
        size: text.len() as u64,
    }
}

fn parse(path: &str, text: &str, seconds: i64, max_file_bytes: u64) -> Option<SourceFile> {
    let tables = build_kind_tables(LanguageId::Rust);
    parse_file(
        path.to_string(),
        text.to_string(),
        stamp(seconds, text),
        max_file_bytes,
        &tables,
    )
}

fn parsed(path: &str, text: &str, seconds: i64) -> SourceFile {
    parse(path, text, seconds, Config::default().max_file_bytes).unwrap()
}

fn index_of(files: Vec<(&str, &str, i64)>) -> SourceIndex {
    SourceIndex::build_at(
        "/p".to_string(),
        Config::default(),
        None,
        files
            .into_iter()
            .map(|(path, text, seconds)| Loaded::Parsed(parsed(path, text, seconds)))
            .collect(),
    )
}

#[test]
fn only_enabled_supported_files_are_scanned() {
    let config = Config {
        languages: vec![LanguageId::Rust],
        ..Config::default()
    };
    assert_eq!(
        scanned_language("/p/a.rs", &config),
        Some(LanguageId::Rust)
    );
    assert_eq!(scanned_language("/p/b.py", &config), None);
    assert_eq!(scanned_language("/p/notes.txt", &config), None);
}

#[test]
fn files_above_max_file_bytes_are_not_parsed() {
    assert!(parse("/p/small.rs", "fn small() {}", 1, 1024).is_some());
    let large = format!("fn large() {{ let x = \"{}\"; }}", "x".repeat(4096));
    assert!(parse("/p/large.rs", &large, 1, 1024).is_none());
    assert!(length_fits(large.len()));
}

#[test]
fn refresh_reparses_changed_files() {
    let mut index = index_of(vec![("/p/a.rs", "fn a() { let x = 1; }\n", 1)]);
    let before = index.files()[0].tokens.len();
    let text = "fn a() { let x = 1; let y = 2; let z = 3; let w = 4; }\n";
    let paths = vec![("/p/a.rs".to_string(), LanguageId::Rust)];
    let stamps = vec![Some(stamp(2, text))];
    let plan = index.plan_refresh(&paths, &stamps).unwrap();
    assert_eq!(plan.slots, vec![SlotPlan::Load]);
    assert_eq!(
        index.changed_paths(&plan, &paths),
        vec!["/p/a.rs".to_string()]
    );
    let loaded = vec![Loaded::Parsed(parsed("/p/a.rs", text, 2))];
    assert!(index.stale_paths(&plan, &paths, &loaded).is_empty());
    index.finish_refresh(plan, loaded);
    assert_eq!(index.files().len(), 1);
    assert!(index.files()[0].tokens.len() > before);
}

#[test]
fn unchanged_files_need_no_refresh() {
    let text = "fn a() { let x = 1; }\n";
    let index = index_of(vec![("/p/a.rs", text, 1)]);
    let paths = vec![("/p/a.rs".to_string(), LanguageId::Rust)];
    assert!(index
        .plan_refresh(&paths, &vec![Some(stamp(1, text))])
        .is_none());
    assert!(index
        .plan_refresh(&paths, &vec![Some(stamp(2, text))])
        .is_some());
    assert!(index.plan_refresh(&paths, &vec![None]).is_some());
}

#[test]
fn refresh_drops_removed_files() {
    let a = "fn a() { let x = 1; }\n";
    let b = "fn b() { let y = 2; }\n";
    let mut index = index_of(vec![("/p/a.rs", a, 1), ("/p/b.rs", b, 1)]);
    assert_eq!(index.files().len(), 2);
    let paths = vec![("/p/a.rs".to_string(), LanguageId::Rust)];
    let plan = index
        .plan_refresh(&paths, &vec![Some(stamp(1, a))])
        .unwrap();
    assert_eq!(plan.slots, vec![SlotPlan::Keep(0)]);
    assert_eq!(plan.removed, vec![1]);
    let loaded = vec![Loaded::Failed];
    assert_eq!(
        index.stale_paths(&plan, &paths, &loaded),
        vec!["/p/b.rs".to_string()]
    );
    index.finish_refresh(plan, loaded);
    assert_eq!(index.files().len(), 1);
    assert_eq!(index.file_by_path("/p/a.rs"), Some(0));
    assert_eq!(index.file_by_path("/p/b.rs"), None);
}

#[test]
fn failed_files_are_left_out_and_their_entries_are_stale() {
    let text = "fn a() { let x = 1; }\n";
    let mut index = index_of(vec![("/p/a.rs", text, 1)]);
    let paths = vec![
        ("/p/a.rs".to_string(), LanguageId::Rust),
        ("/p/b.rs".to_string(), LanguageId::Rust),
    ];
    let plan = index
        .plan_refresh(&paths, &vec![Some(stamp(1, text)), Some(stamp(1, text))])
        .unwrap();
    assert_eq!(plan.slots, vec![SlotPlan::Keep(0), SlotPlan::Load]);
    let loaded = vec![Loaded::Failed, Loaded::Failed];
    assert_eq!(
        index.stale_paths(&plan, &paths, &loaded),
        vec!["/p/b.rs".to_string()]
    );
    index.finish_refresh(plan, loaded);
    assert_eq!(index.files().len(), 1);
}

#[test]
fn cached_and_parsed_files_are_counted_apart() {
    let index = SourceIndex::build_at(
        "/p".to_string(),
        Config::default(),
        Some("/p/.dup-detector".to_string()),
        vec![
            Loaded::Cached(parsed("/p/a.rs", "fn a() {}", 1)),
            Loaded::Failed,
            Loaded::Parsed(parsed("/p/b.rs", "fn b() {}", 1)),
            Loaded::Parsed(parsed("/p/c.rs", "fn c() {}", 1)),
        ],
    );
    assert_eq!(
        index.stats(),
        BuildStats {
            cache_hits: 1,
            parsed_files: 3
        }
    );
    assert_eq!(index.files().len(), 3);
    assert_eq!(index.root(), "/p");
    assert_eq!(index.cache_dir(), &Some("/p/.dup-detector".to_string()));
    assert_eq!(index.config(), &Config::default());
    assert_eq!(index.file_by_path("/p/c.rs"), Some(2));
    assert_eq!(references(index.files()).len(), 3);
}

#[test]
fn cached_entries_stand_for_their_files() {
    let text = "fn a() { let x = 1; let y = 2; }\n";
    let file = parsed("/p/a.rs", text, 1);
    let bytes = encode_entry("/p", &file).unwrap();
    let limit = Config::default().max_file_bytes;
    let entry = decode_entry(&bytes).unwrap();
    assert!(entry_is_current(
        &entry,
        "/p/a.rs",
        "/p",
        stamp(1, text),
        limit
    ));
    assert!(!entry_is_current(
        &entry,
        "/p/b.rs",
        "/p",
        stamp(1, text),
        limit
    ));
    assert!(!entry_is_current(
        &entry,
        "/p/a.rs",
        "/p",
        stamp(2, text),
        limit
    ));
    assert!(!entry_is_current(&entry, "/p/a.rs", "/p", stamp(1, text), 3));
    let restored = file_from_entry(
        entry,
        "/p/a.rs".to_string(),
        LanguageId::Rust,
        text.to_string(),
    )
    .unwrap();
    assert_eq!(restored.tokens, file.tokens);
    assert_eq!(restored.hashes, file.hashes);
    assert_eq!(restored.line_starts, file.line_starts);
    let changed = file_from_entry(
        decode_entry(&bytes).unwrap(),
        "/p/a.rs".to_string(),
        LanguageId::Rust,
        "fn b() { let x = 1; let y = 2; }\n".to_string(),
    );
    assert!(changed.is_none());
}

#[test]
fn clones_are_found_through_the_index() {
    let text = "fn compute_a(items: Vec<i32>) -> i32 {
    let mut sum = 0;
    for item in items {
        sum = sum + item * item;
        if sum > 100 {
            sum = sum - 50;
        }
    }
    return sum;
}

fn compute_a(items: Vec<i32>) -> i32 {
    let mut sum = 0;
    for item in items {
        sum = sum + item * item;
        if sum > 100 {
            sum = sum - 50;
        }
    }
    return sum;
}
";
    let index = index_of(vec![("/p/a.rs", text, 1)]);
    let groups = index.find_clones(&Config::default());
    assert_eq!(groups.len(), 1);
    assert_eq!(groups[0].occurrences.len(), 2);
}

#[test]
fn unrelated_files_share_no_clones() {
    let a = "fn compute_total(items: Vec<i32>) -> i32 {
    let mut sum = 0;
    for item in items {
        sum = sum + item * item;
        if sum > 100 {
            sum = sum - 50;
        }
    }
    return sum;
}

fn compute_average(items: Vec<i32>) -> f64 {
    if items.is_empty() {
        return 0.0;
    }
    let mut sum = 0;
    for item in &items {
        sum = sum + item;
    }
    return sum as f64 / items.len() as f64;
}
";
    let b = "struct Registry {
    entries: Vec<String>,
    lookup: std::collections::HashMap<String, usize>,
}

impl Registry {
    fn insert(&mut self, name: String) {
        if !self.lookup.contains_key(&name) {
            self.lookup.insert(name.clone(), self.entries.len());
            self.entries.push(name);
        }
    }
}
";
    let index = index_of(vec![("/p/a.rs", a, 1), ("/p/b.rs", b, 1)]);
    assert!(index.find_clones(&Config::default()).is_empty());
}
