use std::collections::HashSet;

use dup_detector::config::Config;
use dup_detector::index::{parse_file, FileStamp, Loaded, SourceIndex};
use dup_detector::language::LanguageId;
use dup_detector::lsp::{
    analyze, diagnostics_for, document_file, edit_document, note_external, note_ranges,
    open_document, update_document, workspace_documents, DocumentUpdate, Schedule,
    MAX_DIAGNOSTICS_PER_FILE,
};
use dup_detector::model::{CloneType, SourceFile};
use dup_detector::navigation::{
    clone_type_label, goto_definition, hover, references_at, NavGroup, NavOccurrence,
};
use dup_detector::pending::{ChangedRegion, PendingChanges};
use dup_detector::positions::{
    apply_change, build_line_starts, byte_to_position, position_to_byte, Position, Range,
    TextChange,
};
use dup_detector::tokenize::build_kind_tables;

const FN: &str = "fn compute_total(items: Vec<i32>) -> i32 {
    let mut sum = 0;
    for item in items {
        sum = sum + item * item;
        if sum > 100 {
            sum = sum - 50;
        }
    }
    return sum;
}
";

fn parsed(path: &str, text: &str) -> SourceFile {
    let tables = build_kind_tables(LanguageId::Rust);
    let stamp = FileStamp {
        modified: None,
        size: text.len() as u64,
    };
    parse_file(path.to_string(), text.to_string(), stamp, 1 << 20, &tables).unwrap()
}

fn at(line: u32, character: u32) -> Position {
    Position { line, character }
}

fn range(start: Position, end: Position) -> Range {
    Range { start, end }
}

fn group(places: Vec<(&str, u32, u32)>) -> NavGroup {
    NavGroup {
        token_count: 40,
        clone_type: CloneType::Type1,
        occurrences: places
            .into_iter()
            .map(|(path, first, last)| NavOccurrence {
                path: path.to_string(),
                range: range(at(first, 0), at(last, 1)),
            })
            .collect(),
    }
}

fn groups() -> Vec<NavGroup> {
    vec![
        group(vec![("/p/a.rs", 0, 9), ("/p/b.rs", 0, 9), ("/p/a.rs", 20, 29)]),
        group(vec![("/p/a.rs", 2, 4), ("/p/b.rs", 0, 9)]),
    ]
}

#[test]
fn definitions_are_the_other_occurrences() {
    let found = goto_definition(&groups(), "/p/a.rs", at(3, 0)).unwrap();
    let places: Vec<(&str, u32)> = found
        .iter()
        .map(|location| (location.path.as_str(), location.range.start.line))
        .collect();
    assert_eq!(places, vec![("/p/b.rs", 0), ("/p/a.rs", 20)]);
    assert!(goto_definition(&groups(), "/p/a.rs", at(12, 0)).is_none());
    assert!(goto_definition(&groups(), "/p/c.rs", at(3, 0)).is_none());
}

#[test]
fn references_are_all_occurrences() {
    let found = references_at(&groups(), "/p/a.rs", at(3, 0)).unwrap();
    let places: Vec<(&str, u32)> = found
        .iter()
        .map(|location| (location.path.as_str(), location.range.start.line))
        .collect();
    assert_eq!(
        places,
        vec![("/p/a.rs", 0), ("/p/b.rs", 0), ("/p/a.rs", 20), ("/p/a.rs", 2)]
    );
    assert!(references_at(&groups(), "/p/c.rs", at(3, 0)).is_none());
}

#[test]
fn hovering_lists_the_first_group() {
    assert_eq!(
        hover(&groups(), "/p/a.rs", at(3, 0)).unwrap(),
        "**Duplicated code** \u{2014} 40 tokens, 3 occurrences (type-1)\n\n- (here) /p/a.rs:1\n- /p/b.rs:1\n- (here) /p/a.rs:21\n"
    );
    assert_eq!(hover(&groups(), "/p/a.rs", at(40, 0)), None);
    assert_eq!(clone_type_label(CloneType::Type1), "type-1");
    assert_eq!(clone_type_label(CloneType::Type2), "type-2");
}

#[test]
fn every_occurrence_gets_a_warning() {
    let warnings = diagnostics_for(&groups(), "/p/a.rs");
    assert_eq!(warnings.len(), 3);
    assert_eq!(
        warnings[0].message,
        "Duplicated code: 40 tokens, 3 occurrences (type-1)."
    );
    assert_eq!(warnings[0].range.start, at(0, 0));
    let related: Vec<&str> = warnings[0]
        .related
        .iter()
        .map(|related| related.message.as_str())
        .collect();
    assert_eq!(
        related,
        vec!["duplicated at /p/b.rs:1", "duplicated at /p/a.rs:21"]
    );
    assert!(diagnostics_for(&groups(), "/p/c.rs").is_empty());
}

#[test]
fn warnings_of_a_file_are_capped() {
    let many: Vec<NavGroup> = (0..150)
        .map(|line| group(vec![("/p/a.rs", line, line), ("/p/b.rs", line, line)]))
        .collect();
    let warnings = diagnostics_for(&many, "/p/a.rs");
    assert_eq!(warnings.len(), 100);
    assert_eq!(MAX_DIAGNOSTICS_PER_FILE, 100);
    assert_eq!(warnings[99].range.start.line, 99);
}

#[test]
fn open_documents_are_analyzed_with_the_workspace() {
    let index = SourceIndex::build_at(
        "/p".to_string(),
        Config::default(),
        None,
        vec![
            Loaded::Parsed(parsed("/p/a.rs", "fn old() {}\n")),
            Loaded::Parsed(parsed("/p/b.rs", FN)),
        ],
    );
    let document = parsed("/p/a.rs", FN);
    let outside = parsed("/q/a.rs", FN);
    let documents = vec![&document, &outside];
    let open = workspace_documents(&documents, "/p");
    assert_eq!(open.len(), 1);
    let mut pending = PendingChanges::new();
    pending.mark_whole("/p/a.rs".to_string());
    let config = Config::default();
    let first = analyze(&index, &open, &pending, HashSet::new(), &config);
    assert_eq!(first.groups.len(), 1);
    assert_eq!(first.groups[0].occurrences.len(), 2);
    assert_eq!(first.diagnostics.len(), 1);
    assert_eq!(first.diagnostics[0].len(), 1);
    assert_eq!(
        first.diagnostics[0][0].range,
        range(at(0, 0), at(9, 1))
    );
    assert!(!first.signatures.is_empty());

    let nothing = analyze(&index, &open, &PendingChanges::new(), HashSet::new(), &config);
    assert!(nothing.groups.is_empty());
    assert_eq!(nothing.diagnostics.len(), 1);
    assert!(nothing.diagnostics[0].is_empty());

    let again = analyze(
        &index,
        &open,
        &PendingChanges::new(),
        first.signatures.clone(),
        &config,
    );
    assert_eq!(again.groups.len(), 1);
    assert_eq!(again.signatures, first.signatures);
}

#[test]
fn edited_bytes_are_seeds() {
    let index = SourceIndex::build_at(
        "/p".to_string(),
        Config::default(),
        None,
        vec![Loaded::Parsed(parsed("/p/b.rs", FN))],
    );
    let document = parsed("/p/a.rs", FN);
    let open = vec![&document];
    let at_sum = FN.find("sum = sum + item").unwrap();
    let mut pending = PendingChanges::new();
    pending.mark_bytes("/p/a.rs".to_string(), at_sum, at_sum + 3);
    pending.mark_bytes("/p/gone.rs".to_string(), 0, 1);
    let analysis = analyze(&index, &open, &pending, HashSet::new(), &Config::default());
    assert_eq!(analysis.groups.len(), 1);
}

#[test]
fn groups_without_open_documents_are_not_shown() {
    let index = SourceIndex::build_at(
        "/p".to_string(),
        Config::default(),
        None,
        vec![
            Loaded::Parsed(parsed("/p/b.rs", FN)),
            Loaded::Parsed(parsed("/p/c.rs", FN)),
        ],
    );
    let document = parsed("/p/a.rs", "fn small() {}\n");
    let open = vec![&document];
    let mut pending = PendingChanges::new();
    pending.mark_whole("/p/b.rs".to_string());
    let analysis = analyze(&index, &open, &pending, HashSet::new(), &Config::default());
    assert!(analysis.groups.is_empty());
    assert!(analysis.signatures.is_empty());
}

#[test]
fn only_small_workspace_documents_are_opened() {
    assert_eq!(
        open_document("/p/a.rs", "fn a() {}", "/p", 100),
        Some(LanguageId::Rust)
    );
    assert_eq!(open_document("/q/a.rs", "fn a() {}", "/p", 100), None);
    assert_eq!(open_document("/pp/a.rs", "fn a() {}", "/p", 100), None);
    assert_eq!(open_document("/p/a.txt", "fn a() {}", "/p", 100), None);
    assert_eq!(open_document("/p/a.rs", "fn a() {}", "/p", 8), None);
    assert_eq!(
        open_document("/p/a.rs", "fn a() {}", "/p", 9),
        Some(LanguageId::Rust)
    );
}

#[test]
fn edits_follow_each_other() {
    let changes = vec![
        TextChange {
            range: None,
            text: "one\ntwo\n".to_string(),
        },
        TextChange {
            range: Some(range(at(1, 0), at(1, 3))),
            text: "2".to_string(),
        },
        TextChange {
            range: Some(range(at(1, 1), at(1, 0))),
            text: "lost".to_string(),
        },
    ];
    let (text, regions) = edit_document("zero".to_string(), &changes);
    assert_eq!(text, "one\n2\n");
    assert_eq!(regions, vec![(0, 8), (4, 5)]);
}

#[test]
fn replacing_everything_forgets_earlier_regions() {
    let mut text = "abc".to_string();
    let mut regions = vec![(0, 1), (2, 3)];
    let change = TextChange {
        range: None,
        text: "whole".to_string(),
    };
    apply_change(&mut text, &change, &mut regions);
    assert_eq!(text, "whole");
    assert_eq!(regions, vec![(0, 5)]);
}

#[test]
fn positions_beyond_the_text_are_clamped() {
    let text = "ab\ncd";
    assert_eq!(position_to_byte(text, at(0, 99)), 2);
    assert_eq!(position_to_byte(text, at(1, 99)), 5);
    assert_eq!(position_to_byte(text, at(9, 1)), 4);
    let starts = build_line_starts(text);
    assert_eq!(byte_to_position(text, &starts, 99), at(1, 2));
}

#[test]
fn positions_of_wide_characters_round_trip() {
    let text = "a\u{e9}\u{1f600}b\n\u{4e2d}c\n";
    let starts = build_line_starts(text);
    for (byte, _) in text.char_indices() {
        let position = byte_to_position(text, &starts, byte);
        assert_eq!(position_to_byte(text, position), byte);
    }
    let after = text.find('b').unwrap();
    assert_eq!(byte_to_position(text, &starts, after), at(0, 4));
}

#[test]
fn consumed_changes_are_released() {
    let mut live = PendingChanges::new();
    live.mark_bytes("/p/a.rs".to_string(), 0, 5);
    live.mark_whole("/p/b.rs".to_string());
    let consumed = live.clone();
    live.mark_bytes("/p/a.rs".to_string(), 7, 9);
    live.mark_whole("/p/c.rs".to_string());
    live.release(&consumed);
    assert_eq!(
        live.get("/p/a.rs"),
        Some(&ChangedRegion::Bytes(vec![(0, 5), (7, 9)]))
    );
    assert_eq!(live.get("/p/b.rs"), None);
    assert_eq!(live.get("/p/c.rs"), Some(&ChangedRegion::Whole));
    assert_eq!(live.entries().len(), 2);
    assert!(!live.is_empty());
}

#[test]
fn generations_are_analyzed_once() {
    let mut schedule = Schedule::new();
    assert!(schedule.is_due(0));
    assert!(schedule.finish(0, 0, true));
    assert!(!schedule.is_due(0));
    assert!(schedule.is_due(1));
    assert!(!schedule.finish(1, 2, true));
    assert!(schedule.is_due(1));
    assert!(!schedule.finish(2, 2, false));
    assert!(!schedule.is_due(2));
}

#[test]
fn edited_documents_are_parsed_again() {
    let tables = build_kind_tables(LanguageId::Rust);
    let text = "fn main() {}\n";
    let changes = vec![TextChange {
        range: Some(range(at(0, 11), at(0, 11))),
        text: " let x = 1;".to_string(),
    }];
    match update_document(
        "/p/a.rs".to_string(),
        text.to_string(),
        &changes,
        100,
        &tables,
    ) {
        DocumentUpdate::Edited(file, regions) => {
            assert_eq!(file.text, "fn main() { let x = 1;}\n");
            assert_eq!(file.path, "/p/a.rs");
            assert_eq!(regions, vec![(11, 22)]);
            let whole = document_file(
                "/p/a.rs".to_string(),
                "fn main() { let x = 1;}\n".to_string(),
                &tables,
            )
            .unwrap();
            assert_eq!(file.tokens, whole.tokens);
            assert_eq!(file.hashes, whole.hashes);
        }
        _ => panic!("the document is edited"),
    }
    assert!(matches!(
        update_document(
            "/p/a.rs".to_string(),
            text.to_string(),
            &changes,
            20,
            &tables
        ),
        DocumentUpdate::Oversized
    ));
}

#[test]
fn ranges_are_noted_together() {
    let mut pending = PendingChanges::new();
    note_ranges(&mut pending, "/p/a.rs", &vec![(0, 5), (7, 9)]);
    note_ranges(&mut pending, "/p/a.rs", &vec![(20, 21)]);
    note_ranges(&mut pending, "/p/b.rs", &vec![]);
    assert_eq!(
        pending.get("/p/a.rs"),
        Some(&ChangedRegion::Bytes(vec![(0, 5), (7, 9), (20, 21)]))
    );
    assert_eq!(pending.get("/p/b.rs"), None);
}

#[test]
fn files_changed_on_disk_are_noted_unless_open() {
    let document = parsed("/p/a.rs", FN);
    let open = vec![&document];
    let mut pending = PendingChanges::new();
    let changed = vec!["/p/a.rs".to_string(), "/p/b.rs".to_string()];
    note_external(&mut pending, &changed, &open);
    assert_eq!(pending.get("/p/a.rs"), None);
    assert_eq!(pending.get("/p/b.rs"), Some(&ChangedRegion::Whole));
}

#[test]
fn changes_settle_after_a_pause() {
    let mut schedule = Schedule::new();
    assert!(!schedule.settled(3));
    assert!(!schedule.settled(4));
    assert!(schedule.settled(4));
    assert!(!schedule.settled(4));
    assert!(schedule.settled(4));
    assert!(schedule.is_due(4));
}
