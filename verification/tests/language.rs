use dup_detector::language::LanguageId;

#[test]
fn maps_cpp_extensions() {
    for ext in [
        "cpp", "cc", "cxx", "c++", "hpp", "hh", "hxx", "h++", "h", "ipp", "inl", "tpp",
    ] {
        assert_eq!(
            LanguageId::from_extension(ext),
            Some(LanguageId::Cpp),
            "extension {ext}"
        );
    }
}

#[test]
fn extension_matching_is_case_insensitive() {
    assert_eq!(LanguageId::from_extension("CPP"), Some(LanguageId::Cpp));
    assert_eq!(LanguageId::from_extension("Rs"), Some(LanguageId::Rust));
}

#[test]
fn maps_paths() {
    let path = |parts: &[&str]| parts.join("/");
    assert_eq!(
        LanguageId::from_path(&path(&["src", "foo", "bar.cc"])),
        Some(LanguageId::Cpp)
    );
    assert_eq!(
        LanguageId::from_path(&path(&["include", "bar.hpp"])),
        Some(LanguageId::Cpp)
    );
    assert_eq!(
        LanguageId::from_path(&path(&["src", "lib.rs"])),
        Some(LanguageId::Rust)
    );
    assert_eq!(LanguageId::from_path(&path(&["README.md"])), None);
}

fn parses(language: LanguageId, source: &str) -> bool {
    let mut parser = tree_sitter::Parser::new();
    parser
        .set_language(&language.grammar())
        .expect("grammar must load");
    !parser
        .parse(source, None)
        .expect("parse must succeed")
        .root_node()
        .has_error()
}

#[test]
fn cpp_corpus_parses() {
    let source = r#"
#include <vector>

namespace sample {

template <typename T>
class Accumulator {
public:
    explicit Accumulator(T initial) : total_(initial) {}

    T add(const std::vector<T>& values) {
        for (const auto& value : values) {
            total_ = total_ + value;
        }
        return total_;
    }

private:
    T total_;
};

int compute(int n) {
    auto square = [](int x) { return x * x; };
    Accumulator<int> acc(0);
    return acc.add({square(n), square(n + 1)});
}

}  // namespace sample
"#;
    assert!(parses(LanguageId::Cpp, source));
}

#[test]
fn other_grammars_parse() {
    assert!(parses(
        LanguageId::Rust,
        "fn add(a: i32, b: i32) -> i32 { a + b }"
    ));
    assert!(parses(
        LanguageId::Python,
        "def add(a, b):\n    return a + b\n"
    ));
    assert!(parses(
        LanguageId::JavaScript,
        "function add(a, b) { return a + b; }"
    ));
    assert!(parses(
        LanguageId::TypeScript,
        "function add(a: number, b: number): number { return a + b; }"
    ));
    assert!(parses(
        LanguageId::Tsx,
        "const App = () => <div>hello</div>;"
    ));
}
