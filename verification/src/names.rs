//! The names that are known: of kinds of syntax, of languages, and of what is refused.
use vstd::prelude::*;

use crate::config::ConfigError;
use crate::language::LanguageId;
use crate::model::TokenKind;
use crate::server::RequestError;

verus! {

/// The kinds of syntax that name something.
pub open spec fn name_kinds() -> Seq<Seq<char>> {
    seq![
        "identifier"@, "type_identifier"@, "field_identifier"@, "property_identifier"@,
        "shorthand_property_identifier"@, "shorthand_property_identifier_pattern"@,
        "namespace_identifier"@, "statement_identifier"@, "operator_name"@, "destructor_name"@,
        "class_name"@, "lifetime"@, "jsx_identifier"@, "jsx_namespace_name"@,
    ]
}

/// The kinds of syntax that are values, besides those whose name ends in `_literal`.
pub open spec fn value_kinds() -> Seq<Seq<char>> {
    seq![
        "string"@, "string_fragment"@, "string_content"@, "template_chars"@, "regex"@, "number"@,
        "integer"@, "float"@, "true"@, "false"@, "null"@, "none"@, "undefined"@, "nil"@, "boolean"@,
        "raw_string_content"@, "system_lib_string"@, "char"@,
    ]
}

/// The kinds of syntax that hold a list of units.
pub open spec fn container_kinds() -> Seq<Seq<char>> {
    seq![
        "block"@, "statement_block"@, "compound_statement"@, "program"@, "module"@, "source_file"@,
        "translation_unit"@, "declaration_list"@, "class_body"@, "interface_body"@, "enum_body"@,
        "field_declaration_list"@, "switch_body"@, "match_block"@,
    ]
}

/// The kinds of syntax that are units, besides containers and those told by their endings.
pub open spec fn unit_kinds() -> Seq<Seq<char>> {
    seq![
        "declaration"@, "preproc_include"@, "preproc_def"@, "preproc_ifdef"@, "preproc_if"@,
        "preproc_call"@, "linkage_specification"@, "class_specifier"@, "enum_specifier"@,
        "if_expression"@, "for_expression"@, "while_expression"@, "loop_expression"@,
        "match_expression"@,
    ]
}

/// The name has this ending.
pub open spec fn has_ending(name: Seq<char>, ending: Seq<char>) -> bool {
    exists|stem: Seq<char>| name == #[trigger] (stem + ending)
}

proof fn lemma_ending(name: Seq<char>, ending: Seq<char>)
    ensures
        crate::tokenize::ends_in(name, ending) <==> has_ending(name, ending),
{
    if crate::tokenize::ends_in(name, ending) {
        let stem = name.take(name.len() - ending.len());
        assert(name =~= stem + ending);
    }
    if has_ending(name, ending) {
        let stem = choose|stem: Seq<char>| name == #[trigger] (stem + ending);
        assert(name.skip(name.len() - ending.len()) =~= ending);
    }
}

proof fn lemma_name_kinds(kind: Seq<char>)
    ensures
        crate::tokenize::is_identifier_kind(kind) <==> name_kinds().contains(kind),
{
    let k = name_kinds();
    assert(k[0] == "identifier"@ && k[1] == "type_identifier"@ && k[2] == "field_identifier"@ && k[3]
        == "property_identifier"@ && k[4] == "shorthand_property_identifier"@ && k[5]
        == "shorthand_property_identifier_pattern"@ && k[6] == "namespace_identifier"@ && k[7]
        == "statement_identifier"@ && k[8] == "operator_name"@ && k[9] == "destructor_name"@ && k[10]
        == "class_name"@ && k[11] == "lifetime"@ && k[12] == "jsx_identifier"@ && k[13]
        == "jsx_namespace_name"@);
}

proof fn lemma_value_kinds(kind: Seq<char>)
    ensures
        crate::tokenize::is_literal_kind(kind) <==> value_kinds().contains(kind),
{
    let k = value_kinds();
    assert(k[0] == "string"@ && k[1] == "string_fragment"@ && k[2] == "string_content"@ && k[3]
        == "template_chars"@ && k[4] == "regex"@ && k[5] == "number"@ && k[6] == "integer"@ && k[7]
        == "float"@ && k[8] == "true"@ && k[9] == "false"@ && k[10] == "null"@ && k[11] == "none"@
        && k[12] == "undefined"@ && k[13] == "nil"@ && k[14] == "boolean"@ && k[15]
        == "raw_string_content"@ && k[16] == "system_lib_string"@ && k[17] == "char"@);
}

proof fn lemma_container_kinds(kind: Seq<char>)
    ensures
        crate::tokenize::is_container(kind) <==> container_kinds().contains(kind),
{
    let k = container_kinds();
    assert(k[0] == "block"@ && k[1] == "statement_block"@ && k[2] == "compound_statement"@ && k[3]
        == "program"@ && k[4] == "module"@ && k[5] == "source_file"@ && k[6] == "translation_unit"@
        && k[7] == "declaration_list"@ && k[8] == "class_body"@ && k[9] == "interface_body"@ && k[10]
        == "enum_body"@ && k[11] == "field_declaration_list"@ && k[12] == "switch_body"@ && k[13]
        == "match_block"@);
}

proof fn lemma_unit_kinds(kind: Seq<char>)
    ensures
        crate::tokenize::is_listed_unit(kind) <==> unit_kinds().contains(kind),
{
    let k = unit_kinds();
    assert(k[0] == "declaration"@ && k[1] == "preproc_include"@ && k[2] == "preproc_def"@ && k[3]
        == "preproc_ifdef"@ && k[4] == "preproc_if"@ && k[5] == "preproc_call"@ && k[6]
        == "linkage_specification"@ && k[7] == "class_specifier"@ && k[8] == "enum_specifier"@
        && k[9] == "if_expression"@ && k[10] == "for_expression"@ && k[11] == "while_expression"@
        && k[12] == "loop_expression"@ && k[13] == "match_expression"@);
}

/// What a kind of syntax is: a name, a value or something fixed; and whether it is a container or
/// a unit.
pub proof fn kinds_are_told_by_their_names(kind: Seq<char>)
    ensures
        crate::tokenize::class_of(kind) == TokenKind::Identifier <==> name_kinds().contains(kind),
        crate::tokenize::class_of(kind) == TokenKind::Literal <==> !name_kinds().contains(kind) && (
        value_kinds().contains(kind) || has_ending(kind, "_literal"@)),
        crate::tokenize::is_container(kind) <==> container_kinds().contains(kind),
        crate::tokenize::is_unit(kind) <==> kind != "parameter_declaration"@ && (
        container_kinds().contains(kind) || unit_kinds().contains(kind) || has_ending(
            kind,
            "_statement"@,
        ) || has_ending(kind, "_item"@) || has_ending(kind, "_declaration"@) || has_ending(
            kind,
            "_definition"@,
        )),
{
    lemma_name_kinds(kind);
    lemma_value_kinds(kind);
    lemma_container_kinds(kind);
    lemma_unit_kinds(kind);
    lemma_ending(kind, "_literal"@);
    lemma_ending(kind, "_statement"@);
    lemma_ending(kind, "_item"@);
    lemma_ending(kind, "_declaration"@);
    lemma_ending(kind, "_definition"@);
}

/// The extensions of the files of a language.
pub open spec fn extensions(language: LanguageId) -> Seq<Seq<char>> {
    match language {
        LanguageId::Rust => seq!["rs"@],
        LanguageId::Python => seq!["py"@, "pyi"@],
        LanguageId::JavaScript => seq!["js"@, "mjs"@, "cjs"@, "jsx"@],
        LanguageId::TypeScript => seq!["ts"@, "mts"@, "cts"@],
        LanguageId::Tsx => seq!["tsx"@],
        LanguageId::Cpp => seq![
            "cpp"@, "cc"@, "cxx"@, "c++"@, "hpp"@, "hh"@, "hxx"@, "h++"@, "h"@, "ipp"@, "inl"@,
            "tpp"@,
        ],
    }
}

/// A number that short texts are told apart by.
spec fn spelled(text: Seq<char>) -> int {
    if text.len() == 1 {
        text[0] as int
    } else if text.len() == 2 {
        1000 * (text[0] as int) + text[1] as int
    } else {
        1_000_000 * (text[0] as int) + 1000 * (text[1] as int) + text[2] as int
    }
}

#[verifier::rlimit(30)]
#[verifier::spinoff_prover]
proof fn lemma_extension(language: LanguageId, i: int)
    requires
        0 <= i < extensions(language).len(),
    ensures
        crate::language::extension_language(extensions(language)[i]) == Some(language),
{
    reveal_strlit("rs");
    reveal_strlit("py");
    reveal_strlit("pyi");
    reveal_strlit("js");
    reveal_strlit("mjs");
    reveal_strlit("cjs");
    reveal_strlit("jsx");
    reveal_strlit("ts");
    reveal_strlit("mts");
    reveal_strlit("cts");
    reveal_strlit("tsx");
    reveal_strlit("cpp");
    reveal_strlit("cc");
    reveal_strlit("cxx");
    reveal_strlit("c++");
    reveal_strlit("hpp");
    reveal_strlit("hh");
    reveal_strlit("hxx");
    reveal_strlit("h++");
    reveal_strlit("h");
    reveal_strlit("ipp");
    reveal_strlit("inl");
    reveal_strlit("tpp");
    assert(spelled("rs"@) == 114_115);
    assert(spelled("py"@) == 112_121);
    assert(spelled("pyi"@) == 112_121_105);
    assert(spelled("js"@) == 106_115);
    assert(spelled("mjs"@) == 109_106_115);
    assert(spelled("cjs"@) == 99_106_115);
    assert(spelled("jsx"@) == 106_115_120);
    assert(spelled("ts"@) == 116_115);
    assert(spelled("mts"@) == 109_116_115);
    assert(spelled("cts"@) == 99_116_115);
    assert(spelled("tsx"@) == 116_115_120);
    assert(spelled("cpp"@) == 99_112_112);
    assert(spelled("cc"@) == 99_099);
    assert(spelled("cxx"@) == 99_120_120);
    assert(spelled("c++"@) == 99_043_043);
    assert(spelled("hpp"@) == 104_112_112);
    assert(spelled("hh"@) == 104_104);
    assert(spelled("hxx"@) == 104_120_120);
    assert(spelled("h++"@) == 104_043_043);
    assert(spelled("h"@) == 104);
    assert(spelled("ipp"@) == 105_112_112);
    assert(spelled("inl"@) == 105_110_108);
    assert(spelled("tpp"@) == 116_112_112);
    match language {
        LanguageId::Rust => {},
        LanguageId::Python => {},
        LanguageId::JavaScript => {},
        LanguageId::TypeScript => {},
        LanguageId::Tsx => {},
        LanguageId::Cpp => {},
    }
}

#[verifier::rlimit(30)]
#[verifier::spinoff_prover]
proof fn lemma_extension_of(ext: Seq<char>)
    ensures
        crate::language::extension_language(ext) matches Some(language) ==> extensions(
            language,
        ).contains(ext),
{
    let rust = extensions(LanguageId::Rust);
    let python = extensions(LanguageId::Python);
    let script = extensions(LanguageId::JavaScript);
    let typed = extensions(LanguageId::TypeScript);
    let tsx = extensions(LanguageId::Tsx);
    let cpp = extensions(LanguageId::Cpp);
    assert(rust[0] == "rs"@ && python[0] == "py"@ && python[1] == "pyi"@ && tsx[0] == "tsx"@);
    assert(script[0] == "js"@ && script[1] == "mjs"@ && script[2] == "cjs"@ && script[3] == "jsx"@);
    assert(typed[0] == "ts"@ && typed[1] == "mts"@ && typed[2] == "cts"@);
    assert(cpp[0] == "cpp"@ && cpp[1] == "cc"@ && cpp[2] == "cxx"@ && cpp[3] == "c++"@ && cpp[4]
        == "hpp"@ && cpp[5] == "hh"@ && cpp[6] == "hxx"@ && cpp[7] == "h++"@ && cpp[8] == "h"@
        && cpp[9] == "ipp"@ && cpp[10] == "inl"@ && cpp[11] == "tpp"@);
}

/// The language of an extension is the one that has it, if one does.
pub proof fn extensions_tell_languages(ext: Seq<char>, language: LanguageId)
    ensures
        crate::language::extension_language(ext) == Some(language) <==> extensions(
            language,
        ).contains(ext),
{
    lemma_extension_of(ext);
    if extensions(language).contains(ext) {
        let i = choose|i: int|
            0 <= i < extensions(language).len() && extensions(language)[i] == ext;
        lemma_extension(language, i);
    }
}

/// Capital letters of ASCII become small ones, and nothing else changes.
pub proof fn only_capitals_are_lowered(text: Seq<char>, i: int)
    requires
        0 <= i < text.len(),
    ensures
        crate::text::ascii_lowercase(text).len() == text.len(),
        'A' <= text[i] <= 'Z' ==> crate::text::ascii_lowercase(text)[i] as u32 - 'a' as u32
            == text[i] as u32 - 'A' as u32,
        !('A' <= text[i] <= 'Z') ==> crate::text::ascii_lowercase(text)[i] == text[i],
{
}

proof fn lemma_after_mark(before: Seq<char>, mark: char, after: Seq<char>)
    requires
        !after.contains(mark),
    ensures
        crate::language::after_last(before + seq![mark] + after, mark) == after,
    decreases after.len(),
{
    let text = before + seq![mark] + after;
    if after.len() == 0 {
        assert(text.last() == mark);
    } else {
        let shorter = after.drop_last();
        assert(after[after.len() - 1] == after.last());
        assert forall|c: char| shorter.contains(c) implies after.contains(c) by {
            let i = choose|i: int| 0 <= i < shorter.len() && shorter[i] == c;
            assert(after[i] == c);
        }
        lemma_after_mark(before, mark, shorter);
        assert(text.drop_last() =~= before + seq![mark] + shorter);
        assert(shorter.push(after.last()) =~= after);
    }
}

/// The language of a file is that of its extension, in any case of its letters: what follows the
/// last dot of its name, if something comes before it.
pub proof fn paths_tell_languages(dir: Seq<char>, stem: Seq<char>, ext: Seq<char>)
    requires
        stem.len() > 0,
        !stem.contains('/'),
        !ext.contains('/'),
        !ext.contains('.'),
        ext.len() > 0,
    ensures
        crate::language::path_language(
            dir + seq!['/'] + (stem + seq!['.'] + ext),
        ) == crate::language::extension_language(crate::text::ascii_lowercase(ext)),
{
    let name = stem + seq!['.'] + ext;
    let path = dir + seq!['/'] + name;
    assert(!name.contains('/')) by {
        if name.contains('/') {
            let i = choose|i: int| 0 <= i < name.len() && name[i] == '/';
            if i < stem.len() {
                assert(stem[i] == '/');
            } else if i > stem.len() {
                assert(ext[i - stem.len() - 1] == '/');
            }
        }
    }
    lemma_after_mark(dir, '/', name);
    lemma_after_mark(stem, '.', ext);
    assert(path.last() == ext.last());
    assert(ext[ext.len() - 1] == ext.last());
    assert(path.last() != '/' && path.last() != '.');
    assert(name.last() == ext.last());
    assert(name != seq!['.'] && name != seq!['.', '.']) by {
        if name == seq!['.'] || name == seq!['.', '.'] {
            assert(name.last() == '.');
        }
    }
}

/// What a refused request is answered names what was refused.
pub proof fn refusals_name_what_was_asked(error: RequestError, file: Seq<char>, root: Seq<char>)
    ensures
        crate::server::request_error_text(error, file, root) == (match error {
            RequestError::Config(inner) => match inner {
                ConfigError::Io { path, message } => "failed to read config file "@ + path@ + ": "@
                    + message@,
                ConfigError::Parse { path, message } => "failed to parse config file "@ + path@
                    + ": "@ + message@,
                ConfigError::UnknownLanguage { path, name } => "unknown language `"@ + name@
                    + "` in config file "@ + path@,
                ConfigError::InvalidValue { path, key, message } => "invalid value for `"@ + key@
                    + "` in config file "@ + path@ + ": "@ + message@,
                ConfigError::InvalidParameter { key, message } => "invalid value for parameter `"@
                    + key@ + "`: "@ + message@,
            },
            RequestError::StartLine => "`start_line` is 1-based and must be at least 1"@,
            RequestError::EndLine { start_line, end_line } => "`end_line` ("@
                + crate::text::decimal(end_line as nat) + ") must be >= `start_line` ("@
                + crate::text::decimal(start_line as nat) + ")"@,
            RequestError::Unresolved => "cannot resolve file `"@ + file + "` under `"@ + root
                + "`"@,
            RequestError::NotIndexed => "`"@ + file
                + "` is not a supported source file in the project"@,
            RequestError::Unsupported => "unsupported file type: `"@ + file + "`"@,
            RequestError::Disabled(language) => "language `"@ + (match language {
                LanguageId::Rust => "rust"@,
                LanguageId::Python => "python"@,
                LanguageId::JavaScript => "javascript"@,
                LanguageId::TypeScript => "typescript"@,
                LanguageId::Tsx => "tsx"@,
                LanguageId::Cpp => "cpp"@,
            }) + "` is disabled by configuration"@,
            RequestError::Unreadable => "cannot read or parse `"@ + file + "`"@,
        }),
{
}

proof fn lemma_no_mark(text: Seq<char>, mark: char)
    requires
        !text.contains(mark),
    ensures
        crate::language::after_last(text, mark) == text,
    decreases text.len(),
{
    if text.len() > 0 {
        let shorter = text.drop_last();
        assert(text[text.len() - 1] == text.last());
        assert forall|c: char| shorter.contains(c) implies text.contains(c) by {
            let i = choose|i: int| 0 <= i < shorter.len() && shorter[i] == c;
            assert(text[i] == c);
        }
        lemma_no_mark(shorter, mark);
        assert(shorter.push(text.last()) =~= text);
    }
}

/// A file whose name has no dot, or only one in front, is in no language.
pub proof fn names_without_extensions_tell_no_language(dir: Seq<char>, name: Seq<char>)
    requires
        name.len() > 0,
        !name.contains('/'),
        !name.contains('.'),
    ensures
        crate::language::path_language(dir + seq!['/'] + name) is None,
        crate::language::path_language(dir + seq!['/'] + (seq!['.'] + name)) is None,
{
    let plain = dir + seq!['/'] + name;
    let hidden_name = seq!['.'] + name;
    let hidden = dir + seq!['/'] + hidden_name;
    lemma_after_mark(dir, '/', name);
    assert(!hidden_name.contains('/')) by {
        if hidden_name.contains('/') {
            let i = choose|i: int| 0 <= i < hidden_name.len() && hidden_name[i] == '/';
            assert(name[i - 1] == '/');
        }
    }
    lemma_after_mark(dir, '/', hidden_name);
    lemma_no_mark(name, '.');
    assert(Seq::<char>::empty() + seq!['.'] + name =~= hidden_name);
    lemma_after_mark(Seq::empty(), '.', name);
    assert(name[name.len() - 1] == name.last());
    assert(plain.last() == name.last() && hidden.last() == name.last());
    assert(name.last() != '/' && name.last() != '.');
}

} // verus!
