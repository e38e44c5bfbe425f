use std::collections::HashMap;

use dup_detector::encode::{
    span_fingerprint, spans_equal, token_hashes, window_signatures, SpanScratch, IDENTIFIER_BITS,
    LITERAL_BITS, PARAM_TAG, TAG_MASK,
};
use dup_detector::language::LanguageId;
use dup_detector::model::Token;
use dup_detector::tokenize::tokenize;
use xxhash_rust::xxh3::xxh3_64;

fn hashes(source: &str) -> (Vec<Token>, Vec<u64>) {
    let tokens = tokenize(source, LanguageId::Rust).unwrap();
    let hashes = token_hashes(source, &tokens);
    (tokens, hashes)
}

fn signature(source: &str, start: usize, window: usize) -> u64 {
    let (tokens, hashes) = hashes(source);
    window_signatures(&tokens, &hashes, window, false)[start]
}

fn parameterized(previous: u32, start: usize, index: usize, tag: u64) -> u64 {
    let distance = if previous != u32::MAX && previous as usize >= start {
        (index - previous as usize) as u64
    } else {
        0
    };
    (distance & !TAG_MASK) | tag
}

fn window_signatures_naive(
    hashes: &[u64],
    window: usize,
    parameterize_literals: bool,
) -> Vec<u64> {
    let total = hashes.len();
    let base: Vec<u64> = hashes
        .iter()
        .map(|&hash| {
            let tag = hash >> 62;
            if tag == IDENTIFIER_BITS || (tag == LITERAL_BITS && parameterize_literals) {
                PARAM_TAG
            } else {
                hash
            }
        })
        .collect();
    let mut last_position: HashMap<u64, u32> = HashMap::new();
    let mut previous = vec![u32::MAX; total];
    for (index, &key) in hashes.iter().enumerate() {
        if let Some(&position) = last_position.get(&key) {
            previous[index] = position;
        }
        last_position.insert(key, index as u32);
    }
    let mut bytes = vec![0u8; window * 8];
    let mut signatures = Vec::new();
    for start in 0..=total - window {
        for i in 0..window {
            let index = start + i;
            let value = if base[index] != PARAM_TAG {
                base[index]
            } else {
                parameterized(previous[index], start, index, hashes[index] & TAG_MASK)
            };
            bytes[i * 8..i * 8 + 8].copy_from_slice(&value.to_le_bytes());
        }
        signatures.push(xxh3_64(&bytes));
    }
    signatures
}

#[test]
fn sliding_window_matches_naive() {
    let sources = [
        "let alpha = beta + gamma; x",
        "fn f(a: u64) -> u64 { a.wrapping_add(1) }",
        "let x = 1; let y = 1; let z = x + y; z",
        "let a = b; let c = b; let d = b; d",
        "fn main() { let s = \"txt\"; println!(\"{s}\"); }",
    ];
    for source in sources {
        let (tokens, hashes) = hashes(source);
        if tokens.len() < 2 {
            continue;
        }
        for window in 2..=tokens.len().min(8) {
            for parameterize_literals in [false, true] {
                assert_eq!(
                    window_signatures(&tokens, &hashes, window, parameterize_literals),
                    window_signatures_naive(&hashes, window, parameterize_literals),
                    "source: {source}, window: {window}"
                );
            }
        }
    }
}

#[test]
fn rename_invariant() {
    let a = "let alpha = beta + gamma; x";
    let b = "let p = q + r; s";
    assert_eq!(signature(a, 0, 8), signature(b, 0, 8));
}

#[test]
fn different_structure_differs() {
    let a = "let alpha = beta + gamma; x";
    let b = "let alpha = beta * gamma; x";
    assert_ne!(signature(a, 0, 8), signature(b, 0, 8));
}

#[test]
fn different_identifier_layout_differs() {
    let a = "let alpha = beta + alpha; x";
    let b = "let alpha = beta + beta; x";
    assert_ne!(signature(a, 0, 8), signature(b, 0, 8));
}

#[test]
fn literals_are_exact_by_default() {
    let a = "let x = 100 + 200; y";
    let b = "let x = 100 + 300; y";
    assert_ne!(signature(a, 0, 8), signature(b, 0, 8));
    let param = |src: &str| {
        let (tokens, hashes) = hashes(src);
        window_signatures(&tokens, &hashes, 8, true)[0]
    };
    assert_eq!(param(a), param(b));
}

#[test]
fn span_fingerprints_follow_encodings() {
    let (tokens_a, hashes_a) = hashes("let alpha = beta + 1;");
    let (tokens_b, hashes_b) = hashes("let gamma = delta + 1;");
    let (tokens_c, hashes_c) = hashes("let gamma = delta + 2;");
    let mut scratch = SpanScratch::new();
    let a = span_fingerprint(&mut scratch, &hashes_a, 0, tokens_a.len(), false);
    let b = span_fingerprint(&mut scratch, &hashes_b, 0, tokens_b.len(), false);
    let c = span_fingerprint(&mut scratch, &hashes_c, 0, tokens_c.len(), false);
    assert_eq!(a, b);
    assert_ne!(a, c);
    let a_parameterized = span_fingerprint(&mut scratch, &hashes_a, 0, tokens_a.len(), true);
    let c_parameterized = span_fingerprint(&mut scratch, &hashes_c, 0, tokens_c.len(), true);
    assert_eq!(a_parameterized, c_parameterized);
}

#[test]
fn spans_equal_handles_renames_and_literals() {
    let a = "let alpha = beta + 1;";
    let b = "let gamma = delta + 1;";
    let (tokens_a, hashes_a) = hashes(a);
    let (tokens_b, hashes_b) = hashes(b);
    let len = tokens_a.len().min(tokens_b.len());
    let mut scratch = SpanScratch::new();
    assert!(spans_equal(
        &mut scratch,
        &hashes_a,
        0,
        &hashes_b,
        0,
        len,
        false
    ));
    let c = "let gamma = delta + 2;";
    let (_tokens_c, hashes_c) = hashes(c);
    assert!(!spans_equal(
        &mut scratch,
        &hashes_a,
        0,
        &hashes_c,
        0,
        len,
        false
    ));
    assert!(spans_equal(
        &mut scratch,
        &hashes_a,
        0,
        &hashes_c,
        0,
        len,
        true
    ));
}
