use dup_detector::language::LanguageId;
use dup_detector::model::SourceFile;
use dup_detector::pending::{ChangedRegion, PendingChanges};
use dup_detector::positions::{
    apply_change, build_line_starts, byte_to_position, position_to_byte, range_contains, Position,
    Range, TextChange,
};
use dup_detector::regions::token_range_for_bytes;
use dup_detector::tokenize::tokenize;

#[test]
fn line_starts_and_positions_round_trip() {
    let text = "fn a() {\n  let x = 1;\n}\n";
    let starts = build_line_starts(text);
    assert_eq!(starts, vec![0, 9, 22, 24]);
    let position = byte_to_position(text, &starts, 12);
    assert_eq!(
        position,
        Position {
            line: 1,
            character: 3
        }
    );
    assert_eq!(position_to_byte(text, position), 12);
}

#[test]
fn positions_use_utf16_units() {
    let text = "let s = \"😀\";\nlet t = 1;\n";
    let starts = build_line_starts(text);
    let emoji_start = text.find('😀').unwrap();
    let after = byte_to_position(text, &starts, emoji_start + '😀'.len_utf8());
    assert_eq!(
        after.character,
        text[..emoji_start].encode_utf16().count() as u32 + 2
    );
}

#[test]
fn applies_incremental_changes() {
    let mut text = "fn main() {}\n".to_string();
    let change = TextChange {
        range: Some(Range {
            start: Position {
                line: 0,
                character: 11,
            },
            end: Position {
                line: 0,
                character: 11,
            },
        }),
        text: " let x = 1;".to_string(),
    };
    let mut regions = Vec::new();
    apply_change(&mut text, &change, &mut regions);
    assert_eq!(text, "fn main() { let x = 1;}\n");
    assert_eq!(regions, vec![(11, 22)]);
}

fn source_file(text: &str) -> SourceFile {
    let tokens = tokenize(text, LanguageId::Rust).unwrap();
    SourceFile::new(
        "test.rs".to_string(),
        LanguageId::Rust,
        text.to_string(),
        tokens,
        None,
        0,
    )
}

#[test]
fn token_range_expands_around_changed_bytes() {
    let text = "fn a() { let x = 1; let y = 2; }\n";
    let file = source_file(text);
    let insert = text.find("let y").unwrap();
    let (start, end) = token_range_for_bytes(&file, insert, insert, 2);
    assert!(start < end);
    assert!(start < file.tokens.len());
    assert!(end <= file.tokens.len());
    let tokens: Vec<&str> = file.tokens[start..end]
        .iter()
        .map(|t| &text[t.start as usize..t.end as usize])
        .collect();
    assert!(tokens.contains(&"y"));
    let whole = token_range_for_bytes(&file, 0, text.len(), 2);
    assert_eq!(whole, (0, file.tokens.len()));
}

#[test]
fn pending_changes_merge_regions() {
    let mut pending = PendingChanges::new();
    assert!(pending.is_empty());
    let path = "a.rs".to_string();
    pending.mark_bytes(path.clone(), 0, 5);
    pending.mark_bytes(path.clone(), 10, 12);
    assert_eq!(
        pending.get(&path),
        Some(&ChangedRegion::Bytes(vec![(0, 5), (10, 12)]))
    );
    pending.mark_whole(path.clone());
    assert_eq!(pending.get(&path), Some(&ChangedRegion::Whole));
    pending.mark_bytes(path.clone(), 20, 25);
    assert_eq!(pending.get(&path), Some(&ChangedRegion::Whole));
}

#[test]
fn range_contains_position() {
    let range = Range {
        start: Position {
            line: 2,
            character: 4,
        },
        end: Position {
            line: 5,
            character: 1,
        },
    };
    assert!(range_contains(
        &range,
        Position {
            line: 2,
            character: 4
        }
    ));
    assert!(range_contains(
        &range,
        Position {
            line: 4,
            character: 0
        }
    ));
    assert!(!range_contains(
        &range,
        Position {
            line: 6,
            character: 0
        }
    ));
    assert!(!range_contains(
        &range,
        Position {
            line: 2,
            character: 3
        }
    ));
}
