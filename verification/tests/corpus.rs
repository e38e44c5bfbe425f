use std::collections::BTreeSet;

use dup_detector::config::Config;
use dup_detector::detect::detect;
use dup_detector::language::LanguageId;
use dup_detector::model::{CloneGroup, CloneType, SourceFile};
use dup_detector::tokenize::tokenize;

const MIN_TOKENS: usize = 25;

const RUST: &str = "fn compute_total(items: Vec<i32>) -> i32 {
    let mut sum = 0;
    for item in items {
        sum = sum + item * item;
        if sum > 100 {
            sum = sum - 50;
        }
    }
    return sum;
}
";

const RUST_RENAMED: &str = "fn calc_sum(values: Vec<i32>) -> i32 {
    let mut total = 0;
    for value in values {
        total = total + value * value;
        if total > 100 {
            total = total - 50;
        }
    }
    return total;
}
";

const RUST_OTHER: &str = "struct Report {
    title: String,
    rows: Vec<String>,
}

impl Report {
    fn render(&self) -> String {
        let mut out = self.title.clone();
        for row in &self.rows {
            out.push('\\n');
            out.push_str(row);
        }
        out
    }
}
";

const PYTHON: &str = "def compute_total(items):
    sum = 0
    for item in items:
        sum = sum + item * item
        if sum > 100:
            sum = sum - 50
    return sum
";

const PYTHON_RENAMED: &str = "def calc_sum(values):
    total = 0
    for value in values:
        total = total + value * value
        if total > 100:
            total = total - 50
    return total
";

const CPP: &str = "int compute_total(std::vector<int> items) {
    int sum = 0;
    for (int item : items) {
        sum = sum + item * item;
        if (sum > 100) {
            sum = sum - 50;
        }
    }
    return sum;
}
";

const CPP_RENAMED: &str = "int calc_sum(std::vector<int> values) {
    int total = 0;
    for (int value : values) {
        total = total + value * value;
        if (total > 100) {
            total = total - 50;
        }
    }
    return total;
}
";

const TYPESCRIPT: &str = "function computeTotal(items: number[]): number {
    let sum = 0;
    for (const item of items) {
        sum = sum + item * item;
        if (sum > 100) {
            sum = sum - 50;
        }
    }
    return sum;
}
";

const TYPESCRIPT_RENAMED: &str = "function calcSum(values: number[]): number {
    let total = 0;
    for (const value of values) {
        total = total + value * value;
        if (total > 100) {
            total = total - 50;
        }
    }
    return total;
}
";

const JAVASCRIPT: &str = "function computeTotal(items) {
    let sum = 0;
    for (const item of items) {
        sum = sum + item * item;
        if (sum > 100) {
            sum = sum - 50;
        }
    }
    return sum;
}
";

const JAVASCRIPT_RENAMED: &str = "function calcSum(values) {
    let total = 0;
    for (const value of values) {
        total = total + value * value;
        if (total > 100) {
            total = total - 50;
        }
    }
    return total;
}
";

const TSX: &str = "function ItemList(items: number[]) {
    let sum = 0;
    for (const item of items) {
        sum = sum + item * item;
        if (sum > 100) {
            sum = sum - 50;
        }
    }
    return <p>{sum}</p>;
}
";

const TSX_RENAMED: &str = "function ValueList(values: number[]) {
    let total = 0;
    for (const value of values) {
        total = total + value * value;
        if (total > 100) {
            total = total - 50;
        }
    }
    return <p>{total}</p>;
}
";

const SHORTER: &str = "fn compute_total(items: Vec<i32>) -> i32 {
    let mut sum = 0;
    for item in items {
        sum = sum + item * item;
    }
    return sum;
}
";

const ADDED_LINE: &str = "fn compute_total(items: Vec<i32>) -> i32 {
    let mut sum = 0;
    for item in items {
        println!(\"{}\", item);
        sum = sum + item * item;
    }
    return sum;
}
";

const SAME_FILE: &str = "fn compute_a(items: Vec<i32>) -> i32 {
    let mut sum = 0;
    for item in items {
        sum = sum + item * item;
        if sum > 100 {
            sum = sum - 50;
        }
    }
    return sum;
}

fn compute_a(items: Vec<i32>) -> i32 {
    let mut sum = 0;
    for item in items {
        sum = sum + item * item;
        if sum > 100 {
            sum = sum - 50;
        }
    }
    return sum;
}
";

const UNRELATED: &str = "fn compute_total(items: Vec<i32>) -> i32 {
    let mut sum = 0;
    for item in items {
        sum = sum + item * item;
        if sum > 100 {
            sum = sum - 50;
        }
    }
    return sum;
}

fn compute_average(items: Vec<i32>) -> f64 {
    if items.is_empty() {
        return 0.0;
    }
    let mut sum = 0;
    for item in &items {
        sum = sum + item;
    }
    return sum as f64 / items.len() as f64;
}
";

const UNRELATED_OTHER: &str = "struct Registry {
    entries: Vec<String>,
    lookup: std::collections::HashMap<String, usize>,
}

impl Registry {
    fn insert(&mut self, name: String) {
        if !self.lookup.contains_key(&name) {
            self.lookup.insert(name.clone(), self.entries.len());
            self.entries.push(name);
        }
    }
}
";

const OTHER_CONSTANTS: &str = "fn compute_total(items: Vec<i32>) -> i32 {
    let mut sum = 7;
    for item in items {
        sum = sum + item * item;
        if sum > 200 {
            sum = sum - 25;
        }
    }
    return sum;
}
";

fn case_files(case: &str) -> Vec<(&'static str, &'static str)> {
    match case {
        "rename_rust" => vec![("a.rs", RUST), ("b.rs", RUST_RENAMED), ("c.rs", RUST_OTHER)],
        "rename_python" => vec![("a.py", PYTHON), ("b.py", PYTHON_RENAMED)],
        "rename_cpp" => vec![("a.cpp", CPP), ("b.cpp", CPP_RENAMED)],
        "rename_typescript" => vec![("a.ts", TYPESCRIPT), ("b.ts", TYPESCRIPT_RENAMED)],
        "rename_javascript" => vec![("a.js", JAVASCRIPT), ("b.js", JAVASCRIPT_RENAMED)],
        "rename_tsx" => vec![("a.tsx", TSX), ("b.tsx", TSX_RENAMED)],
        "added_line" => vec![("a.rs", SHORTER), ("b.rs", ADDED_LINE)],
        "same_file" => vec![("a.rs", SAME_FILE)],
        "unrelated" => vec![("a.rs", UNRELATED), ("b.rs", UNRELATED_OTHER)],
        "constants" => vec![("a.rs", RUST), ("b.rs", OTHER_CONSTANTS)],
        _ => unreachable!(),
    }
}

fn scan(case: &str, config: &Config) -> (Vec<SourceFile>, Vec<CloneGroup>) {
    let files: Vec<SourceFile> = case_files(case)
        .into_iter()
        .map(|(name, source)| {
            let language = LanguageId::from_path(name).unwrap();
            SourceFile::new(
                name.to_string(),
                language,
                source.to_string(),
                tokenize(source, language).unwrap(),
                None,
                0,
            )
        })
        .collect();
    let groups = detect(&files.iter().collect::<Vec<_>>(), config);
    (files, groups)
}

fn ordered(a: String, b: String) -> (String, String) {
    if a <= b {
        (a, b)
    } else {
        (b, a)
    }
}

fn reported_pairs(files: &[SourceFile], groups: &[CloneGroup]) -> BTreeSet<(String, String)> {
    let mut pairs = BTreeSet::new();
    for group in groups {
        let names: Vec<String> = group
            .occurrences
            .iter()
            .map(|o| files[o.file as usize].path.clone())
            .collect();
        for i in 0..names.len() {
            for j in i + 1..names.len() {
                pairs.insert(ordered(names[i].clone(), names[j].clone()));
            }
        }
    }
    pairs
}

fn expected(pairs: &[(&str, &str)]) -> BTreeSet<(String, String)> {
    pairs
        .iter()
        .map(|(a, b)| ordered((*a).to_string(), (*b).to_string()))
        .collect()
}

#[test]
fn corpus_precision_and_recall() {
    let cases: &[(&str, &[(&str, &str)])] = &[
        ("rename_rust", &[("a.rs", "b.rs")]),
        ("rename_python", &[("a.py", "b.py")]),
        ("rename_cpp", &[("a.cpp", "b.cpp")]),
        ("rename_typescript", &[("a.ts", "b.ts")]),
        ("rename_javascript", &[("a.js", "b.js")]),
        ("rename_tsx", &[("a.tsx", "b.tsx")]),
        ("added_line", &[]),
        ("same_file", &[("a.rs", "a.rs")]),
        ("unrelated", &[]),
        ("constants", &[]),
    ];
    let config = Config::default();
    let mut true_positives = 0usize;
    let mut false_positives = 0usize;
    let mut false_negatives = 0usize;
    for (case, expected_pairs) in cases {
        let (files, groups) = scan(case, &config);
        let reported = reported_pairs(&files, &groups);
        let wanted = expected(expected_pairs);
        for pair in &wanted {
            if reported.contains(pair) {
                true_positives += 1;
            } else {
                false_negatives += 1;
            }
        }
        for pair in &reported {
            if !wanted.contains(pair) {
                false_positives += 1;
            }
        }
    }
    let precision = true_positives as f64 / (true_positives + false_positives) as f64;
    let recall = true_positives as f64 / (true_positives + false_negatives) as f64;
    assert!(precision >= 0.9, "precision {precision}");
    assert!(recall >= 0.9, "recall {recall}");
    assert_eq!(
        (true_positives, false_positives, false_negatives),
        (7, 0, 0)
    );
}

#[test]
fn renamed_clones_are_type2() {
    let config = Config::default();
    for case in [
        "rename_rust",
        "rename_python",
        "rename_cpp",
        "rename_typescript",
        "rename_javascript",
        "rename_tsx",
    ] {
        let (_files, groups) = scan(case, &config);
        assert_eq!(groups.len(), 1, "{case}: expected a single group");
        assert_eq!(groups[0].clone_type, CloneType::Type2, "{case}");
        assert!(groups[0].token_count >= MIN_TOKENS, "{case}");
    }
}

#[test]
fn changed_constants_match_when_literals_are_parameterized() {
    let strict = Config::default();
    let (_files, groups) = scan("constants", &strict);
    assert!(
        groups.is_empty(),
        "default config must require exact literals"
    );

    let parameterized = Config {
        parameterize_literals: true,
        ..Config::default()
    };
    let (files, groups) = scan("constants", &parameterized);
    let reported = reported_pairs(&files, &groups);
    assert!(reported.contains(&ordered("a.rs".to_string(), "b.rs".to_string())));
}
