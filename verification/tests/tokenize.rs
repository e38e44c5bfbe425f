use std::collections::HashMap;

use dup_detector::language::LanguageId;
use dup_detector::model::{SourceFile, Token, TokenKind};
use dup_detector::tokenize::{
    build_kind_tables, classify, collect, is_container_kind, is_unit_kind, parse_tree, token_flags,
    tokenize,
};
use tree_sitter::{Node, Parser};

fn texts<'a>(source: &'a str, tokens: &[Token]) -> Vec<&'a str> {
    tokens
        .iter()
        .map(|t| &source[t.start as usize..t.end as usize])
        .collect()
}

#[test]
fn comments_are_skipped() {
    let source = "// lead\nfn main() { /* mid */ let x = 1; }\n";
    let tokens = tokenize(source, LanguageId::Rust).unwrap();
    let texts = texts(source, &tokens);
    assert!(
        !texts
            .iter()
            .any(|t| t.contains("lead") || t.contains("mid"))
    );
    assert_eq!(texts[0], "fn");
}

#[test]
fn classifies_kinds() {
    let source = "let count = 42; let name = \"x\";";
    let tokens = tokenize(source, LanguageId::Rust).unwrap();
    let texts = texts(source, &tokens);
    let by_text: HashMap<&str, u8> = texts
        .iter()
        .zip(tokens.iter())
        .map(|(t, tok)| (*t, tok.kind))
        .collect();
    assert_eq!(by_text["count"], TokenKind::Identifier.as_u8());
    assert_eq!(by_text["42"], TokenKind::Literal.as_u8());
    assert_eq!(by_text["x"], TokenKind::Literal.as_u8());
    assert_eq!(by_text["let"], TokenKind::Fixed.as_u8());
    assert_eq!(by_text["="], TokenKind::Fixed.as_u8());
}

#[test]
fn records_line_numbers() {
    let source = "fn a() {\n  let x = 1;\n}\n";
    let tokens = tokenize(source, LanguageId::Rust).unwrap();
    let file = SourceFile::new(
        "a.rs".to_string(),
        LanguageId::Rust,
        source.to_string(),
        tokens,
        None,
        0,
    );
    assert_eq!(file.line_at(0), 1);
    assert_eq!(file.line_at(9), 2);
    let index = file
        .tokens
        .iter()
        .position(|t| &source[t.start as usize..t.end as usize] == "x")
        .unwrap();
    assert_eq!(file.token_line(index), 2);
    assert_eq!(file.token_end_line(index), 2);
}

#[test]
fn cpp_preprocessor_is_tolerated() {
    let source = "#include <vector>\nint main() { return 0; }\n";
    let tokens = tokenize(source, LanguageId::Cpp).unwrap();
    assert!(!tokens.is_empty());
    let texts = texts(source, &tokens);
    assert!(texts.contains(&"int"));
    assert!(texts.contains(&"main"));
}

fn named_single_byte(node: &Node<'_>, source: &str) -> Option<u8> {
    if node.is_named() && node.end_byte() - node.start_byte() == 1 {
        Some(source.as_bytes()[node.start_byte()])
    } else {
        None
    }
}

fn reference_collect(node: Node<'_>, source: &str, tokens: &mut Vec<Token>) {
    if node.is_extra() || node.is_missing() || node.is_error() {
        return;
    }
    if node.child_count() == 0 {
        if node.start_byte() == node.end_byte() {
            return;
        }
        let kind_name = node.kind();
        tokens.push(Token {
            start: node.start_byte() as u32,
            end: node.end_byte() as u32,
            unit_end_of_start: 0,
            unit_start_of_end: u32::MAX,
            container_end_of_start: 0,
            kind: classify(kind_name).as_u8(),
            flags: token_flags(kind_name, named_single_byte(&node, source)),
            _pad: [0; 2],
        });
        return;
    }
    let first = tokens.len();
    let mut cursor = node.walk();
    for child in node.children(&mut cursor) {
        reference_collect(child, source, tokens);
    }
    if tokens.len() > first && is_unit_kind(node.kind()) {
        let last = tokens.len() - 1;
        if is_container_kind(node.kind()) {
            tokens[first].set_container_start();
            tokens[first].container_end_of_start = tokens[first]
                .container_end_of_start
                .max(tokens.len() as u32);
        } else {
            tokens[first].set_unit_start();
            tokens[first].unit_end_of_start =
                tokens[first].unit_end_of_start.max(tokens.len() as u32);
        }
        tokens[last].set_unit_end();
        tokens[last].unit_start_of_end = tokens[last].unit_start_of_end.min(first as u32);
    }
}

fn reference_tokenize(source: &str, language: LanguageId) -> Vec<Token> {
    let mut parser = Parser::new();
    parser.set_language(&language.grammar()).unwrap();
    let tree = parser.parse(source, None).unwrap();
    let mut tokens = Vec::new();
    reference_collect(tree.root_node(), source, &mut tokens);
    tokens
}

fn fields(token: &Token) -> (u8, u8, u32, u32, u32, u32, u32) {
    (
        token.kind,
        token.flags,
        token.start,
        token.end,
        token.unit_end_of_start,
        token.unit_start_of_end,
        token.container_end_of_start,
    )
}

fn assert_matches_reference(source: &str, language: LanguageId) {
    let fast = tokenize(source, language).unwrap();
    let reference = reference_tokenize(source, language);
    assert_eq!(fast.len(), reference.len(), "token count for {language:?}");
    for (index, (a, b)) in fast.iter().zip(&reference).enumerate() {
        assert_eq!(fields(a), fields(b), "token {index} for {language:?}");
    }
}

#[test]
fn token_is_24_bytes() {
    assert_eq!(std::mem::size_of::<Token>(), 24);
}

#[test]
fn iterative_walk_matches_reference() {
    let samples: &[(LanguageId, &str)] = &[
        (LanguageId::Rust, ""),
        (LanguageId::Rust, "fn broken( { let x = ; }"),
        (
            LanguageId::Rust,
            "// c\nfn a() -> i32 { if x { 1 } else { 2 } }\nstruct S { f: u8 }\n",
        ),
        (
            LanguageId::Python,
            "def f(a):\n    for i in a:\n        if i:\n            pass\n    return None\n",
        ),
        (
            LanguageId::JavaScript,
            "function f() { return `t${x}`; }\nclass A {}\n",
        ),
        (
            LanguageId::TypeScript,
            "interface I { x: number }\nconst f = <T,>(a: T): T => a;\n",
        ),
        (
            LanguageId::Tsx,
            "const App = () => <div className=\"x\">{v}</div>;\n",
        ),
        (
            LanguageId::Cpp,
            "#include <vector>\nint main() { auto l = [](int x) { return x; }; return l(0); }\n",
        ),
    ];
    for (language, source) in samples {
        assert_matches_reference(source, *language);
    }
}


#[test]
fn the_tokens_of_a_tree_are_collected() {
    let source = "fn a(x: i32) { let y = x; }";
    let tables = build_kind_tables(LanguageId::Rust);
    let tree = parse_tree(source, LanguageId::Rust).unwrap();
    let tokens = collect(&tree, &tables, source);
    assert_eq!(
        texts(source, &tokens),
        vec!["fn", "a", "(", "x", ":", "i32", ")", "{", "let", "y", "=", "x", ";", "}"]
    );
    assert_eq!(tokens, tokenize(source, LanguageId::Rust).unwrap());
    let empty = parse_tree("", LanguageId::Python).unwrap();
    assert!(collect(&empty, &build_kind_tables(LanguageId::Python), "").is_empty());
}

#[test]
fn units_end_after_they_start_in_every_language() {
    for (source, language) in [
        ("fn a() { b(); if c { d(); } }", LanguageId::Rust),
        ("def a():\n    b()\n    if c:\n        d()\n", LanguageId::Python),
        ("function a() { b(); if (c) { d(); } }", LanguageId::JavaScript),
        ("function a(): void { b(); if (c) { d(); } }", LanguageId::TypeScript),
        ("function a() { b(); return <p>{c}</p>; }", LanguageId::Tsx),
        ("void a() { b(); if (c) { d(); } }", LanguageId::Cpp),
    ] {
        let tokens = tokenize(source, language).unwrap();
        let mut ends = 0;
        for (i, token) in tokens.iter().enumerate() {
            if token.unit_end() {
                ends += 1;
                assert!(token.unit_start_of_end as usize <= i);
            }
            if token.unit_start() {
                assert!(token.unit_end_of_start as usize > i);
            }
        }
        assert!(ends > 0);
    }
}

fn comments_of(node: Node, out: &mut Vec<(usize, usize)>) {
    if node.is_extra() {
        out.push((node.start_byte(), node.end_byte()));
    }
    for i in 0..node.child_count() {
        comments_of(node.child(i as u32).unwrap(), out);
    }
}

#[test]
fn tokens_keep_off_comments_in_every_language() {
    for (source, language) in [
        ("// one\nfn a() { /* two */ b(); }", LanguageId::Rust),
        ("# one\ndef a():\n    b() # two\n", LanguageId::Python),
        ("// one\nfunction a() { /* two */ b(); }", LanguageId::JavaScript),
        ("// one\nfunction a(): void { /* two */ b(); }", LanguageId::TypeScript),
        ("// one\nfunction a() { /* two */ return <p>{c}</p>; }", LanguageId::Tsx),
        ("// one\nvoid a() { /* two */ b(); }", LanguageId::Cpp),
    ] {
        let tree = parse_tree(source, language).unwrap();
        let tokens = collect(&tree, &build_kind_tables(language), source);
        let mut comments = Vec::new();
        comments_of(tree.root_node(), &mut comments);
        assert_eq!(comments.len(), 2);
        assert!(!tokens.is_empty());
        for token in &tokens {
            for (start, end) in &comments {
                assert!(token.end as usize <= *start || *end <= token.start as usize);
            }
        }
    }
}
