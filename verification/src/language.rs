//! The languages the detector understands.
use vstd::prelude::*;

use crate::text::{chars_of, lowercase_chars, lowercase_of, spells};

verus! {

#[derive(Debug, Clone, Copy, PartialEq, Eq, Structural, PartialOrd, Ord, Hash)]
pub enum LanguageId {
    Rust,
    Python,
    JavaScript,
    TypeScript,
    Tsx,
    Cpp,
}

/// The language of a file extension given in lower case.
pub open spec fn extension_language(ext: Seq<char>) -> Option<LanguageId> {
    if ext == "rs"@ {
        Some(LanguageId::Rust)
    } else if ext == "py"@ || ext == "pyi"@ {
        Some(LanguageId::Python)
    } else if ext == "js"@ || ext == "mjs"@ || ext == "cjs"@ || ext == "jsx"@ {
        Some(LanguageId::JavaScript)
    } else if ext == "ts"@ || ext == "mts"@ || ext == "cts"@ {
        Some(LanguageId::TypeScript)
    } else if ext == "tsx"@ {
        Some(LanguageId::Tsx)
    } else if ext == "cpp"@ || ext == "cc"@ || ext == "cxx"@ || ext == "c++"@ || ext == "hpp"@ || ext
        == "hh"@ || ext == "hxx"@ || ext == "h++"@ || ext == "h"@ || ext == "ipp"@ || ext == "inl"@
        || ext == "tpp"@ {
        Some(LanguageId::Cpp)
    } else {
        None
    }
}

/// The language of a configuration name given in lower case.
pub open spec fn name_language(name: Seq<char>) -> Option<LanguageId> {
    if name == "rust"@ || name == "rs"@ {
        Some(LanguageId::Rust)
    } else if name == "python"@ || name == "py"@ {
        Some(LanguageId::Python)
    } else if name == "javascript"@ || name == "js"@ {
        Some(LanguageId::JavaScript)
    } else if name == "typescript"@ || name == "ts"@ {
        Some(LanguageId::TypeScript)
    } else if name == "tsx"@ {
        Some(LanguageId::Tsx)
    } else if name == "cpp"@ || name == "c++"@ || name == "cxx"@ {
        Some(LanguageId::Cpp)
    } else {
        None
    }
}

/// The part of `text` after its last `mark`, or all of it.
pub open spec fn after_last(text: Seq<char>, mark: char) -> Seq<char>
    decreases text.len(),
{
    if text.len() == 0 || text.last() == mark {
        Seq::empty()
    } else {
        after_last(text.drop_last(), mark).push(text.last())
    }
}

/// The final component of a `/`-separated path. Trailing separators and trailing `.` components
/// do not count; a path that ends in `..` or consists of `.` alone has no file name.
pub open spec fn file_name(path: Seq<char>) -> Option<Seq<char>>
    decreases path.len(),
{
    if path.len() == 0 {
        None
    } else if path.last() == '/' {
        file_name(path.drop_last())
    } else if path.len() >= 2 && path.last() == '.' && path[path.len() - 2] == '/' {
        file_name(path.drop_last())
    } else {
        let name = after_last(path, '/');
        if name == seq!['.'] || name == seq!['.', '.'] {
            None
        } else {
            Some(name)
        }
    }
}

/// The extension of a file name: what follows its last dot, unless that dot is the first
/// character or missing.
pub open spec fn name_extension(name: Seq<char>) -> Option<Seq<char>> {
    let ext = after_last(name, '.');
    if ext.len() + 1 < name.len() {
        Some(ext)
    } else {
        None
    }
}

/// The language of the file that `path` names.
pub open spec fn path_language(path: Seq<char>) -> Option<LanguageId> {
    match file_name(path) {
        None => None,
        Some(name) => match name_extension(name) {
            None => None,
            Some(ext) => extension_language(crate::text::ascii_lowercase(ext)),
        },
    }
}

proof fn lemma_after_last_is_suffix(text: Seq<char>, mark: char)
    ensures
        after_last(text, mark).len() <= text.len(),
        after_last(text, mark) == text.subrange(
            text.len() - after_last(text, mark).len(),
            text.len() as int,
        ),
        after_last(text, mark).len() < text.len() ==> text[text.len() - after_last(
            text,
            mark,
        ).len() - 1] == mark,
        !after_last(text, mark).contains(mark),
    decreases text.len(),
{
    if text.len() != 0 && text.last() != mark {
        lemma_after_last_is_suffix(text.drop_last(), mark);
        let inner = after_last(text.drop_last(), mark);
        let outer = after_last(text, mark);
        assert(outer =~= text.subrange(text.len() - outer.len(), text.len() as int));
        assert forall|i: int| 0 <= i < outer.len() implies outer[i] != mark by {
            if i < inner.len() {
                assert(inner.contains(inner[i]));
            }
        }
    }
}

/// Index just after the last `mark` in `chars[..end]`, or 0.
fn last_start(chars: &Vec<char>, from: usize, end: usize, mark: char) -> (start: usize)
    requires
        from <= end <= chars@.len(),
    ensures
        from <= start <= end,
        chars@.subrange(start as int, end as int) == after_last(
            chars@.subrange(from as int, end as int),
            mark,
        ),
{
    let ghost whole = chars@.subrange(from as int, end as int);
    let mut start: usize = end;
    proof {
        lemma_after_last_is_suffix(whole, mark);
    }
    let ghost suffix = after_last(whole, mark);
    while start > from && chars[start - 1] != mark
        invariant
            from <= start <= end <= chars@.len(),
            whole == chars@.subrange(from as int, end as int),
            suffix == after_last(whole, mark),
            suffix.len() <= whole.len(),
            suffix == whole.subrange(whole.len() - suffix.len(), whole.len() as int),
            suffix.len() < whole.len() ==> whole[whole.len() - suffix.len() - 1] == mark,
            !suffix.contains(mark),
            end - start <= suffix.len(),
        decreases start,
    {
        proof {
            if end - start == suffix.len() {
                assert(whole[whole.len() - suffix.len() - 1] == chars@[start - 1]);
            }
        }
        start = start - 1;
    }
    proof {
        if end - start < suffix.len() {
            let i = suffix.len() - (end - start) - 1;
            assert(suffix[i] == chars@[start - 1]);
            assert(suffix.contains(mark));
        }
        assert(chars@.subrange(start as int, end as int) =~= suffix);
    }
    start
}

fn copy_range(chars: &Vec<char>, start: usize, end: usize) -> (part: Vec<char>)
    requires
        start <= end <= chars@.len(),
    ensures
        part@ == chars@.subrange(start as int, end as int),
{
    let mut part: Vec<char> = Vec::new();
    let mut i: usize = start;
    while i < end
        invariant
            start <= i <= end <= chars@.len(),
            part@ == chars@.subrange(start as int, i as int),
        decreases end - i,
    {
        part.push(chars[i]);
        i = i + 1;
        assert(part@ =~= chars@.subrange(start as int, i as int));
    }
    part
}

/// End of the path once trailing separators and `.` components are cut off.
fn trimmed_end(chars: &Vec<char>) -> (end: usize)
    ensures
        end <= chars@.len(),
        file_name(chars@) == file_name(chars@.take(end as int)),
        end > 0 ==> chars@[end - 1] != '/',
        end >= 2 ==> !(chars@[end - 1] == '.' && chars@[end - 2] == '/'),
{
    let mut end: usize = chars.len();
    assert(chars@.take(end as int) =~= chars@);
    while end > 0 && (chars[end - 1] == '/' || (end >= 2 && chars[end - 1] == '.' && chars[end - 2]
        == '/'))
        invariant
            end <= chars@.len(),
            file_name(chars@) == file_name(chars@.take(end as int)),
        decreases end,
    {
        let ghost p = chars@.take(end as int);
        end = end - 1;
        assert(p.drop_last() =~= chars@.take(end as int));
    }
    end
}

fn lowercase_extension_language(lower: &Vec<char>) -> (language: Option<LanguageId>)
    ensures
        language == extension_language(lower@),
{
    if spells(lower, "rs") {
        Some(LanguageId::Rust)
    } else if spells(lower, "py") || spells(lower, "pyi") {
        Some(LanguageId::Python)
    } else if spells(lower, "js") || spells(lower, "mjs") || spells(lower, "cjs") || spells(
        lower,
        "jsx",
    ) {
        Some(LanguageId::JavaScript)
    } else if spells(lower, "ts") || spells(lower, "mts") || spells(lower, "cts") {
        Some(LanguageId::TypeScript)
    } else if spells(lower, "tsx") {
        Some(LanguageId::Tsx)
    } else if spells(lower, "cpp") || spells(lower, "cc") || spells(lower, "cxx") || spells(
        lower,
        "c++",
    ) || spells(lower, "hpp") || spells(lower, "hh") || spells(lower, "hxx") || spells(lower, "h++")
        || spells(lower, "h") || spells(lower, "ipp") || spells(lower, "inl") || spells(
        lower,
        "tpp",
    ) {
        Some(LanguageId::Cpp)
    } else {
        None
    }
}

impl LanguageId {
    pub const ALL: [LanguageId; 6] = [
        LanguageId::Rust,
        LanguageId::Python,
        LanguageId::JavaScript,
        LanguageId::TypeScript,
        LanguageId::Tsx,
        LanguageId::Cpp,
    ];

    /// The language of files with this extension, in any letter case.
    pub fn from_extension(extension: &str) -> (language: Option<Self>)
        ensures
            language == extension_language(crate::text::ascii_lowercase(extension@)),
    {
        let lower = lowercase_chars(extension);
        lowercase_extension_language(&lower)
    }

    /// The language of a configuration name, in any letter case.
    pub fn from_name(name: &str) -> (language: Option<Self>)
        ensures
            language == name_language(crate::text::ascii_lowercase(name@)),
    {
        let lower = lowercase_chars(name);
        if spells(&lower, "rust") || spells(&lower, "rs") {
            Some(LanguageId::Rust)
        } else if spells(&lower, "python") || spells(&lower, "py") {
            Some(LanguageId::Python)
        } else if spells(&lower, "javascript") || spells(&lower, "js") {
            Some(LanguageId::JavaScript)
        } else if spells(&lower, "typescript") || spells(&lower, "ts") {
            Some(LanguageId::TypeScript)
        } else if spells(&lower, "tsx") {
            Some(LanguageId::Tsx)
        } else if spells(&lower, "cpp") || spells(&lower, "c++") || spells(&lower, "cxx") {
            Some(LanguageId::Cpp)
        } else {
            None
        }
    }

    /// The language of the file that a `/`-separated path names.
    pub fn from_path(path: &str) -> (language: Option<Self>)
        ensures
            language == path_language(path@),
    {
        let chars = chars_of(path);
        let end = trimmed_end(&chars);
        let ghost trimmed = chars@.take(end as int);
        if end == 0 {
            return None;
        }
        let start = last_start(&chars, 0, end, '/');
        let name = copy_range(&chars, start, end);
        proof {
            assert(chars@.subrange(0, end as int) =~= trimmed);
            assert(name@ == after_last(trimmed, '/'));
        }
        if name.len() == 1 && name[0] == '.' {
            assert(name@ =~= seq!['.']);
            return None;
        }
        if name.len() == 2 && name[0] == '.' && name[1] == '.' {
            assert(name@ =~= seq!['.', '.']);
            return None;
        }
        assert(file_name(path@) == Some(name@));
        let dot = last_start(&name, 0, name.len(), '.');
        assert(name@.subrange(0, name@.len() as int) =~= name@);
        let ext = copy_range(&name, dot, name.len());
        if dot >= 2 {
            let lower = lowercase_of(&ext);
            lowercase_extension_language(&lower)
        } else {
            None
        }
    }

    /// The canonical name of the language.
    pub fn name(self) -> (name: &'static str)
        ensures
            name@ == self.name_chars(),
    {
        match self {
            LanguageId::Rust => "rust",
            LanguageId::Python => "python",
            LanguageId::JavaScript => "javascript",
            LanguageId::TypeScript => "typescript",
            LanguageId::Tsx => "tsx",
            LanguageId::Cpp => "cpp",
        }
    }

    pub open spec fn name_chars(self) -> Seq<char> {
        match self {
            LanguageId::Rust => "rust"@,
            LanguageId::Python => "python"@,
            LanguageId::JavaScript => "javascript"@,
            LanguageId::TypeScript => "typescript"@,
            LanguageId::Tsx => "tsx"@,
            LanguageId::Cpp => "cpp"@,
        }
    }

    /// Position of the language in `ALL`.
    pub fn index(self) -> (index: usize)
        ensures
            index < 6,
            LanguageId::ALL@[index as int] == self,
    {
        match self {
            LanguageId::Rust => 0,
            LanguageId::Python => 1,
            LanguageId::JavaScript => 2,
            LanguageId::TypeScript => 3,
            LanguageId::Tsx => 4,
            LanguageId::Cpp => 5,
        }
    }
}

/// Every language is read back from its name in any letter case, so no two share a name. Besides
/// the names there are only the short forms `rs`, `py`, `js`, `ts`, `c++` and `cxx`.
pub proof fn names_tell_languages_apart(name: Seq<char>, language: LanguageId)
    ensures
        crate::text::ascii_lowercase(name) == language.name_chars() ==> name_language(
            crate::text::ascii_lowercase(name),
        ) == Some(language),
        name_language(crate::text::ascii_lowercase(name)) is Some ==> ({
            let lower = crate::text::ascii_lowercase(name);
            ||| lower == name_language(lower)->0.name_chars()
            ||| lower == "rs"@ && name_language(lower) == Some(LanguageId::Rust)
            ||| lower == "py"@ && name_language(lower) == Some(LanguageId::Python)
            ||| lower == "js"@ && name_language(lower) == Some(LanguageId::JavaScript)
            ||| lower == "ts"@ && name_language(lower) == Some(LanguageId::TypeScript)
            ||| lower == "c++"@ && name_language(lower) == Some(LanguageId::Cpp)
            ||| lower == "cxx"@ && name_language(lower) == Some(LanguageId::Cpp)
        }),
{
    reveal_strlit("rust");
    reveal_strlit("rs");
    reveal_strlit("python");
    reveal_strlit("py");
    reveal_strlit("javascript");
    reveal_strlit("js");
    reveal_strlit("typescript");
    reveal_strlit("ts");
    reveal_strlit("tsx");
    reveal_strlit("cpp");
    reveal_strlit("c++");
    reveal_strlit("cxx");
    assert("rust"@[0] == 'r' && "python"@[0] == 'p' && "javascript"@[0] == 'j' && "typescript"@[0]
        == 't' && "tsx"@[0] == 't' && "cpp"@[0] == 'c');
    assert("typescript"@.len() == 10 && "tsx"@.len() == 3 && "ts"@.len() == 2 && "rs"@.len() == 2
        && "py"@.len() == 2 && "js"@.len() == 2);
    assert("rust"@.len() == 4 && "python"@.len() == 6 && "javascript"@.len() == 10 && "cpp"@.len()
        == 3 && "cxx"@.len() == 3 && "c++"@.len() == 3);
}

} // verus!
