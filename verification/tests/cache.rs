use dup_detector::cache::{
    append_tokens, decode_entry, decode_token, dir_for, dir_in, encode_entry, entry_path, text_hash, text_hash_bytes,
    user_cache_dir, user_cache_dir_in, CACHE_DIR,
};
use dup_detector::config::CacheLocation;
use dup_detector::language::LanguageId;
use dup_detector::model::{
    FileTime, SourceFile, Token, TokenKind, FLAG_UNIT_END, FLAG_UNIT_START,
};
use dup_detector::paths::{join, parent};
use xxhash_rust::xxh3::xxh3_64;

fn source(path: &str, text: &str) -> SourceFile {
    SourceFile::new(
        path.to_string(),
        LanguageId::Rust,
        text.to_string(),
        vec![Token {
            start: 0,
            end: 3,
            unit_end_of_start: 1,
            unit_start_of_end: 0,
            container_end_of_start: 0,
            kind: TokenKind::Identifier.as_u8(),
            flags: FLAG_UNIT_START | FLAG_UNIT_END,
            _pad: [0; 2],
        }],
        Some(FileTime {
            seconds: 1_700_000_000,
            nanos: 0,
        }),
        text.len() as u64,
    )
}

#[test]
fn round_trips_entry() {
    let dir = "/cache";
    let root = "root";
    let relative = join("src", "a.rs");
    let file = source(&join(root, &relative), "let a = 1;\n");
    let bytes = encode_entry(root, &file).unwrap();
    let entry = entry_path(dir, root, &file.path).expect("entry path");
    assert_eq!(parent(&entry), Some(dir.to_string()));
    let loaded = decode_entry(&bytes).expect("entry round-trips");
    assert_eq!(loaded.path, relative);
    assert_eq!(loaded.size, file.size);
    assert_eq!(loaded.modified, file.modified.unwrap());
    assert_eq!(loaded.text_hash, text_hash(file.text.as_str()));
    assert_eq!(loaded.tokens.len(), 1);
    assert_eq!(loaded.tokens[0].kind, TokenKind::Identifier.as_u8());
    assert!(loaded.tokens[0].unit_start());
    assert_eq!(loaded.tokens, file.tokens);
    assert_eq!(loaded.hashes.as_slice(), file.hashes.as_slice());
}

#[test]
fn entries_begin_with_the_mark_of_the_format() {
    let file = source("root/a.rs", "let a = 1;\n");
    let bytes = encode_entry("root", &file).unwrap();
    assert_eq!(&bytes[..8], b"DUPCDT10");
}

#[test]
fn entries_need_a_time_and_a_place_under_the_root() {
    let outside = source("elsewhere/a.rs", "let a = 1;\n");
    assert!(encode_entry("root", &outside).is_none());
    let mut timeless = source("root/a.rs", "let a = 1;\n");
    timeless.modified = None;
    assert!(encode_entry("root", &timeless).is_none());
}

#[test]
fn shortened_entries_are_rejected() {
    let file = source("root/a.rs", "let a = 1;\n");
    let bytes = encode_entry("root", &file).unwrap();
    for len in 0..bytes.len() {
        assert!(decode_entry(&bytes[..len]).is_none(), "length {len}");
    }
    let mut longer = bytes.clone();
    longer.push(0);
    assert!(decode_entry(&longer).is_some());
}

#[test]
fn text_hashes_are_xxh3() {
    assert_eq!(text_hash("let a = 1;\n"), xxh3_64(b"let a = 1;\n"));
    assert_eq!(text_hash_bytes(b"abc"), xxh3_64(b"abc"));
    assert_ne!(text_hash("a"), text_hash("b"));
}

#[test]
fn dir_for_selects_location() {
    let root = "/tmp/project";
    assert_eq!(
        dir_for(root, CacheLocation::Project, Some("/base")),
        Some(join(root, CACHE_DIR))
    );
    assert_eq!(dir_in(root), join(root, CACHE_DIR));
    assert_eq!(
        dir_for(root, CacheLocation::UserCache, Some("/base")),
        Some(user_cache_dir_in("/base", root))
    );
    assert_eq!(dir_for(root, CacheLocation::UserCache, None), None);
    assert_eq!(
        user_cache_dir(root, Some("/base")),
        Some(user_cache_dir_in("/base", root))
    );
}

#[test]
fn user_cache_dirs_are_keyed_by_root() {
    let base = "/base";
    let a = user_cache_dir_in(base, "/p/a");
    let b = user_cache_dir_in(base, "/p/b");
    assert_eq!(a, user_cache_dir_in(base, "/p/a"));
    assert_ne!(a, b);
    assert_eq!(parent(&a), Some(base.to_string()));
    let name = a.rsplit('/').next().unwrap();
    assert_eq!(name.len(), 16);
    assert!(name.chars().all(|c| c.is_ascii_hexdigit()));
    assert_eq!(name, format!("{:016x}", xxh3_64(b"/p/a")));
}

#[test]
fn entry_names_are_relative_to_root() {
    let dir = "/cache";
    let root_a = "a";
    let root_b = "b";
    let relative = join("src", "x.rs");
    let a = entry_path(dir, root_a, &join(root_a, &relative));
    let b = entry_path(dir, root_b, &join(root_b, &relative));
    assert_eq!(a, b);
    let c = entry_path(dir, root_a, &join(&join(root_a, "src"), "y.rs"));
    assert_ne!(a, c);
}

#[test]
fn entry_names_are_hashes_of_relative_paths() {
    let entry = entry_path("/cache", "/p", "/p/src/x.rs").unwrap();
    assert_eq!(
        entry,
        format!("/cache/{:016x}.bin", xxh3_64(b"src/x.rs"))
    );
    assert_eq!(entry_path("/cache", "/p", "/q/x.rs"), None);
}

#[test]
fn rejects_corrupt_entry() {
    assert!(decode_entry(b"not a cache").is_none());
    assert!(decode_entry(b"DUPCDT05\x01\x00\x00\x00garbage").is_none());
}

#[test]
fn entries_are_distinct_per_path() {
    let dir = "/cache";
    let root = "root";
    let a = entry_path(dir, root, &join(root, "a.rs")).expect("entry path");
    let b = entry_path(dir, root, &join(root, "b.rs")).expect("entry path");
    assert_ne!(a, b);
    assert_eq!(parent(&a), Some(dir.to_string()));
}

#[test]
fn tokens_round_trip_and_the_first_22_bytes_decide() {
    let token = Token {
        start: 1,
        end: 0x0102_0304,
        unit_end_of_start: 7,
        unit_start_of_end: u32::MAX,
        container_end_of_start: 9,
        kind: TokenKind::Literal.as_u8(),
        flags: FLAG_UNIT_END,
        _pad: [0; 2],
    };
    let mut out = Vec::new();
    append_tokens(&mut out, &[token]);
    assert_eq!(out.len(), 24);
    assert_eq!(decode_token(&out), Some(token));
    out[22] = 5;
    out[23] = 6;
    assert_eq!(decode_token(&out), Some(token));
    assert_eq!(decode_token(&out[..22]), Some(token));
    assert_eq!(decode_token(&out[..21]), None);
    for kind in 0..=255u8 {
        out[20] = kind;
        assert_eq!(decode_token(&out).is_some(), kind <= 2);
    }
}
