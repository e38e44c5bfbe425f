//! From source text to its leaf tokens, with the syntactic units they delimit.
use vstd::prelude::*;
use vstd::utf8::encode_utf8;

use crate::language::LanguageId;
use crate::model::{Token, TokenKind, FLAG_BRACKET_CLOSE, FLAG_BRACKET_OPEN};
use crate::syntax::{
    goto_first_child, goto_next_sibling, goto_parent, new_parser, node_info, node_kind_count,
    node_kind_for_id, parse, set_language, walk, NodeInfo, SyntaxNode,
};
use crate::text::{chars_of, str_equal};

verus! {

#[derive(Debug, Clone, Copy, PartialEq, Eq, Structural)]
pub enum TokenizeError {
    /// The grammar of the language could not be loaded.
    Grammar(LanguageId),
    /// The parser gave no tree.
    ParseFailed,
}

/// Node kinds whose text is a name.
pub open spec fn is_identifier_kind(kind: Seq<char>) -> bool {
    ||| kind == "identifier"@
    ||| kind == "type_identifier"@
    ||| kind == "field_identifier"@
    ||| kind == "property_identifier"@
    ||| kind == "shorthand_property_identifier"@
    ||| kind == "shorthand_property_identifier_pattern"@
    ||| kind == "namespace_identifier"@
    ||| kind == "statement_identifier"@
    ||| kind == "operator_name"@
    ||| kind == "destructor_name"@
    ||| kind == "class_name"@
    ||| kind == "lifetime"@
    ||| kind == "jsx_identifier"@
    ||| kind == "jsx_namespace_name"@
}

/// Node kinds, other than those that end in `_literal`, whose text is a constant.
pub open spec fn is_literal_kind(kind: Seq<char>) -> bool {
    ||| kind == "string"@
    ||| kind == "string_fragment"@
    ||| kind == "string_content"@
    ||| kind == "template_chars"@
    ||| kind == "regex"@
    ||| kind == "number"@
    ||| kind == "integer"@
    ||| kind == "float"@
    ||| kind == "true"@
    ||| kind == "false"@
    ||| kind == "null"@
    ||| kind == "none"@
    ||| kind == "undefined"@
    ||| kind == "nil"@
    ||| kind == "boolean"@
    ||| kind == "raw_string_content"@
    ||| kind == "system_lib_string"@
    ||| kind == "char"@
}

/// Node kinds that hold a row of units.
pub open spec fn is_container(kind: Seq<char>) -> bool {
    ||| kind == "block"@
    ||| kind == "statement_block"@
    ||| kind == "compound_statement"@
    ||| kind == "program"@
    ||| kind == "module"@
    ||| kind == "source_file"@
    ||| kind == "translation_unit"@
    ||| kind == "declaration_list"@
    ||| kind == "class_body"@
    ||| kind == "interface_body"@
    ||| kind == "enum_body"@
    ||| kind == "field_declaration_list"@
    ||| kind == "switch_body"@
    ||| kind == "match_block"@
}

/// Node kinds that are units though their name does not show it.
pub open spec fn is_listed_unit(kind: Seq<char>) -> bool {
    ||| kind == "declaration"@
    ||| kind == "preproc_include"@
    ||| kind == "preproc_def"@
    ||| kind == "preproc_ifdef"@
    ||| kind == "preproc_if"@
    ||| kind == "preproc_call"@
    ||| kind == "linkage_specification"@
    ||| kind == "class_specifier"@
    ||| kind == "enum_specifier"@
    ||| kind == "if_expression"@
    ||| kind == "for_expression"@
    ||| kind == "while_expression"@
    ||| kind == "loop_expression"@
    ||| kind == "match_expression"@
}

/// `text` ends in `suffix`.
pub open spec fn ends_in(text: Seq<char>, suffix: Seq<char>) -> bool {
    text.len() >= suffix.len() && text.skip(text.len() - suffix.len()) == suffix
}

/// Node kinds that form a syntactic unit: statements, items, declarations, definitions and what
/// holds them. A parameter declaration is none.
pub open spec fn is_unit(kind: Seq<char>) -> bool {
    kind != "parameter_declaration"@ && (is_container(kind) || is_listed_unit(kind) || ends_in(
        kind,
        "_statement"@,
    ) || ends_in(kind, "_item"@) || ends_in(kind, "_declaration"@) || ends_in(kind, "_definition"@))
}

/// The class of tokens of a node kind.
pub open spec fn class_of(kind: Seq<char>) -> TokenKind {
    if is_identifier_kind(kind) {
        TokenKind::Identifier
    } else if ends_in(kind, "_literal"@) || is_literal_kind(kind) {
        TokenKind::Literal
    } else {
        TokenKind::Fixed
    }
}

fn has_suffix(text: &str, suffix: &str) -> (ends: bool)
    ensures
        ends == ends_in(text@, suffix@),
{
    let chars = chars_of(text);
    let tail = chars_of(suffix);
    if chars.len() < tail.len() {
        return false;
    }
    let count: usize = chars.len();
    let from: usize = count - tail.len();
    let ghost rest = text@.skip(text@.len() - suffix@.len());
    let mut i: usize = 0;
    while i < tail.len()
        invariant
            chars@ == text@,
            tail@ == suffix@,
            count == chars@.len(),
            from == count - tail@.len(),
            rest == text@.skip(text@.len() - suffix@.len()),
            i <= tail@.len(),
            forall|k: int| 0 <= k < i ==> rest[k] == tail@[k],
        decreases tail@.len() - i,
    {
        assert(rest[i as int] == chars@[from + i]);
        if chars[from + i] != tail[i] {
            return false;
        }
        i = i + 1;
    }
    assert(rest =~= suffix@);
    true
}

/// Whether nodes of this kind hold a row of units.
pub fn is_container_kind(kind: &str) -> (container: bool)
    ensures
        container == is_container(kind@),
{
    str_equal(kind, "block") || str_equal(kind, "statement_block") || str_equal(
        kind,
        "compound_statement",
    ) || str_equal(kind, "program") || str_equal(kind, "module") || str_equal(kind, "source_file")
        || str_equal(kind, "translation_unit") || str_equal(kind, "declaration_list") || str_equal(
        kind,
        "class_body",
    ) || str_equal(kind, "interface_body") || str_equal(kind, "enum_body") || str_equal(
        kind,
        "field_declaration_list",
    ) || str_equal(kind, "switch_body") || str_equal(kind, "match_block")
}

fn is_listed_unit_kind(kind: &str) -> (listed: bool)
    ensures
        listed == is_listed_unit(kind@),
{
    str_equal(kind, "declaration") || str_equal(kind, "preproc_include") || str_equal(
        kind,
        "preproc_def",
    ) || str_equal(kind, "preproc_ifdef") || str_equal(kind, "preproc_if") || str_equal(
        kind,
        "preproc_call",
    ) || str_equal(kind, "linkage_specification") || str_equal(kind, "class_specifier")
        || str_equal(kind, "enum_specifier") || str_equal(kind, "if_expression") || str_equal(
        kind,
        "for_expression",
    ) || str_equal(kind, "while_expression") || str_equal(kind, "loop_expression") || str_equal(
        kind,
        "match_expression",
    )
}

/// Whether nodes of this kind form a syntactic unit.
pub fn is_unit_kind(kind: &str) -> (unit: bool)
    ensures
        unit == is_unit(kind@),
{
    if str_equal(kind, "parameter_declaration") {
        return false;
    }
    is_container_kind(kind) || is_listed_unit_kind(kind) || has_suffix(kind, "_statement")
        || has_suffix(kind, "_item") || has_suffix(kind, "_declaration") || has_suffix(
        kind,
        "_definition",
    )
}

fn is_name_kind(kind: &str) -> (name: bool)
    ensures
        name == is_identifier_kind(kind@),
{
    str_equal(kind, "identifier") || str_equal(kind, "type_identifier") || str_equal(
        kind,
        "field_identifier",
    ) || str_equal(kind, "property_identifier") || str_equal(kind, "shorthand_property_identifier")
        || str_equal(kind, "shorthand_property_identifier_pattern") || str_equal(
        kind,
        "namespace_identifier",
    ) || str_equal(kind, "statement_identifier") || str_equal(kind, "operator_name") || str_equal(
        kind,
        "destructor_name",
    ) || str_equal(kind, "class_name") || str_equal(kind, "lifetime") || str_equal(
        kind,
        "jsx_identifier",
    ) || str_equal(kind, "jsx_namespace_name")
}

fn is_constant_kind(kind: &str) -> (constant: bool)
    ensures
        constant == is_literal_kind(kind@),
{
    str_equal(kind, "string") || str_equal(kind, "string_fragment") || str_equal(
        kind,
        "string_content",
    ) || str_equal(kind, "template_chars") || str_equal(kind, "regex") || str_equal(kind, "number")
        || str_equal(kind, "integer") || str_equal(kind, "float") || str_equal(kind, "true")
        || str_equal(kind, "false") || str_equal(kind, "null") || str_equal(kind, "none")
        || str_equal(kind, "undefined") || str_equal(kind, "nil") || str_equal(kind, "boolean")
        || str_equal(kind, "raw_string_content") || str_equal(kind, "system_lib_string")
        || str_equal(kind, "char")
}

/// The class of tokens of a node kind.
pub fn classify(kind: &str) -> (class: TokenKind)
    ensures
        class == class_of(kind@),
{
    if is_name_kind(kind) {
        TokenKind::Identifier
    } else if has_suffix(kind, "_literal") || is_constant_kind(kind) {
        TokenKind::Literal
    } else {
        TokenKind::Fixed
    }
}

/// The class that the grammar of a language gives to a kind number; `Fixed` for one without a
/// name.
pub open spec fn class_at(language: LanguageId, id: int) -> TokenKind {
    match crate::syntax::kind_name(language, id as u16) {
        Some(name) => class_of(name),
        None => TokenKind::Fixed,
    }
}

/// The kind number is that of a unit.
pub open spec fn is_unit_id(language: LanguageId, id: int) -> bool {
    &&& id < crate::syntax::kind_count(language)
    &&& crate::syntax::kind_name(language, id as u16) matches Some(name) && is_unit(name)
}

/// The kind number is that of a container.
pub open spec fn is_container_id(language: LanguageId, id: int) -> bool {
    &&& id < crate::syntax::kind_count(language)
    &&& crate::syntax::kind_name(language, id as u16) matches Some(name) && is_container(name)
}

/// What each kind number of a grammar stands for.
pub struct KindTables {
    language: LanguageId,
    classify: Vec<TokenKind>,
    unit: Vec<bool>,
    container: Vec<bool>,
}

impl KindTables {
    /// The language whose kinds these are.
    pub closed spec fn language(&self) -> LanguageId {
        self.language
    }

    /// The tables hold what the grammar says.
    pub closed spec fn wf(&self) -> bool {
        &&& self.classify@.len() == crate::syntax::kind_count(self.language)
        &&& self.unit@.len() == self.classify@.len()
        &&& self.container@.len() == self.classify@.len()
        &&& forall|id: int|
            0 <= id < self.classify@.len() ==> #[trigger] self.classify@[id] == class_at(
                self.language,
                id,
            )
        &&& forall|id: int|
            0 <= id < self.unit@.len() ==> #[trigger] self.unit@[id] == is_unit_id(
                self.language,
                id,
            )
        &&& forall|id: int|
            0 <= id < self.container@.len() ==> #[trigger] self.container@[id] == is_container_id(
                self.language,
                id,
            )
    }

    /// The language whose kinds these are.
    pub fn language_id(&self) -> (language: LanguageId)
        ensures
            language == self.language(),
    {
        self.language
    }

    fn class_of_node(&self, info: &NodeInfo<'_>) -> (class: TokenKind)
        requires
            self.wf(),
        ensures
            class == node_class(self.language(), info.kind_id, info.kind@),
    {
        let id: usize = info.kind_id as usize;
        if id < self.classify.len() {
            self.classify[id]
        } else {
            classify(info.kind)
        }
    }

    fn is_unit(&self, kind_id: u16) -> (unit: bool)
        requires
            self.wf(),
        ensures
            unit == is_unit_id(self.language(), kind_id as int),
    {
        let id: usize = kind_id as usize;
        id < self.unit.len() && self.unit[id]
    }

    fn is_container(&self, kind_id: u16) -> (container: bool)
        requires
            self.wf(),
        ensures
            container == is_container_id(self.language(), kind_id as int),
    {
        let id: usize = kind_id as usize;
        id < self.container.len() && self.container[id]
    }
}

/// Reads the node kinds of the language's grammar.
pub fn build_kind_tables(language: LanguageId) -> (tables: KindTables)
    ensures
        tables.wf(),
        tables.language() == language,
{
    let grammar = language.grammar();
    let count: usize = node_kind_count(&grammar);
    let mut tables = KindTables {
        language,
        classify: Vec::new(),
        unit: Vec::new(),
        container: Vec::new(),
    };
    let mut id: usize = 0;
    while id < count
        invariant
            crate::syntax::grammar_id(&grammar) == Some(language),
            count == crate::syntax::kind_count(language),
            tables.language == language,
            id <= count,
            tables.classify@.len() == id,
            tables.unit@.len() == id,
            tables.container@.len() == id,
            forall|k: int|
                0 <= k < id ==> #[trigger] tables.classify@[k] == class_at(language, k),
            forall|k: int| 0 <= k < id ==> #[trigger] tables.unit@[k] == is_unit_id(language, k),
            forall|k: int|
                0 <= k < id ==> #[trigger] tables.container@[k] == is_container_id(language, k),
        decreases count - id,
    {
        match node_kind_for_id(&grammar, id as u16) {
            Some(kind) => {
                tables.classify.push(classify(kind));
                tables.unit.push(is_unit_kind(kind));
                tables.container.push(is_container_kind(kind));
            },
            None => {
                tables.classify.push(TokenKind::Fixed);
                tables.unit.push(false);
                tables.container.push(false);
            },
        }
        id = id + 1;
    }
    tables
}

/// The class of a leaf: what the grammar says of its kind number, or of its kind's name where the
/// number is not one of the grammar.
pub open spec fn node_class(language: LanguageId, kind_id: u16, kind: Seq<char>) -> TokenKind {
    if kind_id < crate::syntax::kind_count(language) {
        class_at(language, kind_id as int)
    } else {
        class_of(kind)
    }
}

/// The bracket flag of a single byte.
pub open spec fn byte_flags(byte: u8) -> u8 {
    if byte == 40 || byte == 91 || byte == 123 {
        FLAG_BRACKET_OPEN
    } else if byte == 41 || byte == 93 || byte == 125 {
        FLAG_BRACKET_CLOSE
    } else {
        0
    }
}

/// The bracket flag of a leaf: by its kind, or else by its text where it is a named node of a
/// single byte.
pub open spec fn bracket_flags(kind: Seq<char>, single: Option<u8>) -> u8 {
    if kind == "("@ || kind == "["@ || kind == "{"@ {
        FLAG_BRACKET_OPEN
    } else if kind == ")"@ || kind == "]"@ || kind == "}"@ {
        FLAG_BRACKET_CLOSE
    } else {
        match single {
            Some(byte) => byte_flags(byte),
            None => 0,
        }
    }
}

/// The byte of a named node that has a single one.
pub open spec fn single_byte(named: bool, start: int, end: int, bytes: Seq<u8>) -> Option<u8> {
    if named && end - start == 1 {
        Some(bytes[start])
    } else {
        None
    }
}

/// The token of a leaf, before it is marked.
pub open spec fn token_of(node: SyntaxNode, language: LanguageId, bytes: Seq<u8>) -> Token {
    Token {
        start: node.start as u32,
        end: node.end as u32,
        unit_end_of_start: 0,
        unit_start_of_end: u32::MAX,
        container_end_of_start: 0,
        kind: node_class(language, node.kind_id, node.kind).as_u8(),
        flags: bracket_flags(
            node.kind,
            single_byte(node.named, node.start as int, node.end as int, bytes),
        ),
        _pad: [0u8, 0u8],
    }
}

/// The bracket flags of a kind name and of the byte of a named single-byte node.
pub fn token_flags(kind: &str, single: Option<u8>) -> (flags: u8)
    ensures
        flags == bracket_flags(kind@, single),
{
    if str_equal(kind, "(") || str_equal(kind, "[") || str_equal(kind, "{") {
        return FLAG_BRACKET_OPEN;
    }
    if str_equal(kind, ")") || str_equal(kind, "]") || str_equal(kind, "}") {
        return FLAG_BRACKET_CLOSE;
    }
    match single {
        Some(byte) => if byte == 40 || byte == 91 || byte == 123 {
            FLAG_BRACKET_OPEN
        } else if byte == 41 || byte == 93 || byte == 125 {
            FLAG_BRACKET_CLOSE
        } else {
            0
        },
        None => 0,
    }
}

/// The tokens with the leaf's token behind them; an empty leaf has none.
pub open spec fn with_leaf(
    tokens: Seq<Token>,
    node: SyntaxNode,
    language: LanguageId,
    bytes: Seq<u8>,
) -> Seq<Token> {
    if node.start == node.end {
        tokens
    } else {
        tokens.push(token_of(node, language, bytes))
    }
}

fn push_token(
    info: &NodeInfo<'_>,
    tables: &KindTables,
    source: &str,
    tokens: &mut Vec<Token>,
    Ghost(node): Ghost<SyntaxNode>,
)
    requires
        tables.wf(),
        crate::syntax::describes(*info, node),
        node.start <= node.end <= encode_utf8(source@).len() <= u32::MAX,
    ensures
        final(tokens)@ == with_leaf(
            old(tokens)@,
            node,
            tables.language(),
            encode_utf8(source@),
        ),
{
    if info.start == info.end {
        return;
    }
    let class = tables.class_of_node(info);
    let single: Option<u8> = if info.named && info.end - info.start == 1 {
        Some(source.as_bytes()[info.start])
    } else {
        None
    };
    let token = Token {
        start: info.start as u32,
        end: info.end as u32,
        unit_end_of_start: 0,
        unit_start_of_end: u32::MAX,
        container_end_of_start: 0,
        kind: class.as_u8(),
        flags: token_flags(info.kind, single),
        _pad: [0u8, 0u8],
    };
    assert(token._pad@ =~= token_of(node, tables.language(), encode_utf8(source@))._pad@);
    tokens.push(token);
}

/// The larger of two numbers.
pub open spec fn larger(a: u32, b: int) -> u32 {
    if a >= b {
        a
    } else {
        b as u32
    }
}

/// The smaller of two numbers.
pub open spec fn smaller(a: u32, b: int) -> u32 {
    if a <= b {
        a
    } else {
        b as u32
    }
}

/// The token as the first of a unit, or of a container, that ends before position `end`. Where
/// more than one starts here, the token tells the widest.
pub open spec fn opened(token: Token, container: bool, end: int) -> Token {
    if container {
        Token {
            flags: token.flags | crate::model::FLAG_CONTAINER_START,
            container_end_of_start: larger(token.container_end_of_start, end),
            ..token
        }
    } else {
        Token {
            flags: token.flags | crate::model::FLAG_UNIT_START,
            unit_end_of_start: larger(token.unit_end_of_start, end),
            ..token
        }
    }
}

/// The token as the last of a unit that starts at position `first`. Where more than one ends
/// here, the token tells the widest.
pub open spec fn closed_at(token: Token, first: int) -> Token {
    Token {
        flags: token.flags | crate::model::FLAG_UNIT_END,
        unit_start_of_end: smaller(token.unit_start_of_end, first),
        ..token
    }
}

/// The tokens with those from position `first` on marked as a unit, if they are any and the kind
/// number is that of a unit.
pub open spec fn marked(
    tokens: Seq<Token>,
    first: int,
    kind_id: u16,
    language: LanguageId,
) -> Seq<Token> {
    if !is_unit_id(language, kind_id as int) || first >= tokens.len() {
        tokens
    } else {
        let end = tokens.len() as int;
        let opening = tokens.update(
            first,
            opened(tokens[first], is_container_id(language, kind_id as int), end),
        );
        opening.update(end - 1, closed_at(opening[end - 1], first))
    }
}

fn apply_marking(tokens: &mut Vec<Token>, first: u32, kind_id: u16, tables: &KindTables)
    requires
        tables.wf(),
        old(tokens)@.len() <= u32::MAX,
    ensures
        final(tokens)@ == marked(old(tokens)@, first as int, kind_id, tables.language()),
{
    let index: usize = first as usize;
    if !tables.is_unit(kind_id) || index >= tokens.len() {
        return;
    }
    let end: u32 = tokens.len() as u32;
    let last: usize = tokens.len() - 1;
    let mut opening = tokens[index];
    if tables.is_container(kind_id) {
        opening.set_container_start();
        if opening.container_end_of_start < end {
            opening.container_end_of_start = end;
        }
    } else {
        opening.set_unit_start();
        if opening.unit_end_of_start < end {
            opening.unit_end_of_start = end;
        }
    }
    tokens.set(index, opening);
    let mut closing = tokens[last];
    closing.set_unit_end();
    if closing.unit_start_of_end > first {
        closing.unit_start_of_end = first;
    }
    tokens.set(last, closing);
}

/// A node that is left out with all that is below it: a comment, a node that is not in the text,
/// or an error.
pub open spec fn is_skipped(node: SyntaxNode) -> bool {
    node.extra || node.missing || node.error
}

/// The tokens with those of the node behind them: those of its leaves from left to right, marked
/// as a unit where the node is one.
pub open spec fn collected(
    node: SyntaxNode,
    language: LanguageId,
    bytes: Seq<u8>,
    tokens: Seq<Token>,
) -> Seq<Token>
    decreases node, 0int,
{
    if is_skipped(node) {
        tokens
    } else if node.children.len() == 0 {
        with_leaf(tokens, node, language, bytes)
    } else {
        marked(
            collected_from(node.children, 0, language, bytes, tokens),
            tokens.len() as int,
            node.kind_id,
            language,
        )
    }
}

/// The tokens with those of the nodes from the `i`-th on behind them.
pub open spec fn collected_from(
    nodes: Seq<SyntaxNode>,
    i: int,
    language: LanguageId,
    bytes: Seq<u8>,
    tokens: Seq<Token>,
) -> Seq<Token>
    decreases nodes, nodes.len() - i,
{
    if 0 <= i < nodes.len() {
        collected_from(
            nodes,
            i + 1,
            language,
            bytes,
            collected(nodes[i], language, bytes, tokens),
        )
    } else {
        tokens
    }
}

/// The tokens are not empty, follow each other, and end by `limit`.
pub open spec fn follow_each_other(tokens: Seq<Token>, limit: int) -> bool {
    &&& forall|i: int|
        0 <= i < tokens.len() ==> (#[trigger] tokens[i]).start < tokens[i].end <= limit
    &&& forall|i: int, j: int|
        0 <= i < j < tokens.len() ==> (#[trigger] tokens[i]).end <= (#[trigger] tokens[j]).start
}

/// The unit and the container that start at a token end after it, and no later than the tokens do.
spec fn mark_holds(token: Token, i: int, len: int) -> bool {
    &&& token.unit_start() ==> i < token.unit_end_of_start
    &&& token.unit_end_of_start <= len
    &&& token.container_start() ==> i < token.container_end_of_start
    &&& token.container_end_of_start <= len
}

spec fn marks_hold(tokens: Seq<Token>) -> bool {
    forall|i: int|
        0 <= i < tokens.len() ==> mark_holds(#[trigger] tokens[i], i, tokens.len() as int)
}

proof fn lemma_mark_bits(flags: u8)
    ensures
        (flags | 1) & 1 != 0,
        (flags | 1) & 4 == flags & 4,
        (flags | 4) & 4 != 0,
        (flags | 4) & 1 == flags & 1,
        (flags | 2) & 1 == flags & 1,
        (flags | 2) & 4 == flags & 4,
{
    assert((flags | 1) & 1 != 0 && (flags | 1) & 4 == flags & 4 && (flags | 4) & 4 != 0 && (flags
        | 4) & 1 == flags & 1 && (flags | 2) & 1 == flags & 1 && (flags | 2) & 4 == flags & 4)
        by (bit_vector);
}

/// Marking keeps the ranges of the tokens and the order of the marks.
proof fn lemma_marked(
    tokens: Seq<Token>,
    first: int,
    kind_id: u16,
    language: LanguageId,
    limit: int,
)
    requires
        0 <= first,
        tokens.len() <= u32::MAX,
        follow_each_other(tokens, limit),
        marks_hold(tokens),
    ensures
        follow_each_other(marked(tokens, first, kind_id, language), limit),
        marks_hold(marked(tokens, first, kind_id, language)),
        marked(tokens, first, kind_id, language).len() == tokens.len(),
{
    let after = marked(tokens, first, kind_id, language);
    if is_unit_id(language, kind_id as int) && first < tokens.len() {
        let end = tokens.len() as int;
        let container = is_container_id(language, kind_id as int);
        let opening = tokens.update(first, opened(tokens[first], container, end));
        lemma_mark_bits(tokens[first].flags);
        lemma_mark_bits(opening[end - 1].flags);
        assert forall|i: int| 0 <= i < after.len() implies (#[trigger] after[i]).start
            == tokens[i].start && after[i].end == tokens[i].end by {}
        assert forall|i: int| 0 <= i < after.len() implies mark_holds(
            #[trigger] after[i],
            i,
            after.len() as int,
        ) by {
            assert(mark_holds(tokens[i], i, end));
            assert(after[i].unit_start() == opening[i].unit_start());
            assert(after[i].container_start() == opening[i].container_start());
            if i != first {
                assert(opening[i] == tokens[i]);
            }
        }
        assert forall|i: int, j: int| 0 <= i < j < after.len() implies (#[trigger] after[i]).end <= (
        #[trigger] after[j]).start by {
            assert(tokens[i].end <= tokens[j].start);
        }
    }
}

/// There are no more tokens than bytes before the limit.
proof fn lemma_token_count(tokens: Seq<Token>, limit: int)
    requires
        follow_each_other(tokens, limit),
        0 <= limit,
    ensures
        tokens.len() <= limit,
    decreases tokens.len(),
{
    if tokens.len() > 0 {
        let shorter = tokens.drop_last();
        assert forall|i: int| 0 <= i < shorter.len() implies (#[trigger] shorter[i]).start
            < shorter[i].end <= tokens.last().start by {
            assert(tokens[i].end <= tokens[tokens.len() - 1].start);
        }
        assert forall|i: int, j: int| 0 <= i < j < shorter.len() implies (#[trigger] shorter[i]).end
            <= (#[trigger] shorter[j]).start by {
            assert(tokens[i].end <= tokens[j].start);
        }
        lemma_token_count(shorter, tokens.last().start as int);
        assert(tokens[tokens.len() - 1].start < limit);
    }
}

/// A leaf's token goes behind the others and starts no unit yet.
proof fn lemma_with_leaf(
    tokens: Seq<Token>,
    node: SyntaxNode,
    language: LanguageId,
    bytes: Seq<u8>,
    from: int,
)
    requires
        from <= node.start <= node.end <= u32::MAX,
        follow_each_other(tokens, from),
        marks_hold(tokens),
    ensures
        follow_each_other(with_leaf(tokens, node, language, bytes), node.end as int),
        marks_hold(with_leaf(tokens, node, language, bytes)),
{
    let after = with_leaf(tokens, node, language, bytes);
    if node.start != node.end {
        let token = token_of(node, language, bytes);
        assert(0u8 & 1 == 0 && 8u8 & 1 == 0 && 16u8 & 1 == 0 && 0u8 & 4 == 0 && 8u8 & 4 == 0
            && 16u8 & 4 == 0) by (bit_vector);
        assert(!token.unit_start() && !token.container_start());
        assert forall|i: int| 0 <= i < after.len() implies mark_holds(
            #[trigger] after[i],
            i,
            after.len() as int,
        ) by {
            if i < tokens.len() {
                assert(mark_holds(tokens[i], i, tokens.len() as int));
            }
        }
        assert forall|i: int, j: int| 0 <= i < j < after.len() implies (#[trigger] after[i]).end <= (
        #[trigger] after[j]).start by {
            if j < tokens.len() {
                assert(tokens[i].end <= tokens[j].start);
            }
        }
    }
}

/// The tokens of a node go behind the others.
proof fn lemma_collected(
    node: SyntaxNode,
    language: LanguageId,
    bytes: Seq<u8>,
    tokens: Seq<Token>,
    from: int,
    to: int,
)
    requires
        0 <= from,
        to <= u32::MAX,
        crate::syntax::placed(node, from, to),
        follow_each_other(tokens, from),
        marks_hold(tokens),
    ensures
        follow_each_other(collected(node, language, bytes, tokens), node.end as int),
        marks_hold(collected(node, language, bytes, tokens)),
    decreases node, 0int,
{
    if is_skipped(node) {
    } else if node.children.len() == 0 {
        lemma_with_leaf(tokens, node, language, bytes, from);
    } else {
        lemma_collected_from(
            node.children,
            0,
            language,
            bytes,
            tokens,
            node.start as int,
            node.end as int,
        );
        let all = collected_from(node.children, 0, language, bytes, tokens);
        lemma_token_count(all, node.end as int);
        lemma_marked(all, tokens.len() as int, node.kind_id, language, node.end as int);
    }
}

/// The tokens of the nodes from the `i`-th on go behind the others.
proof fn lemma_collected_from(
    nodes: Seq<SyntaxNode>,
    i: int,
    language: LanguageId,
    bytes: Seq<u8>,
    tokens: Seq<Token>,
    from: int,
    to: int,
)
    requires
        0 <= i,
        0 <= from <= to <= u32::MAX,
        crate::syntax::placed_from(nodes, i, from, to),
        follow_each_other(tokens, from),
        marks_hold(tokens),
    ensures
        follow_each_other(collected_from(nodes, i, language, bytes, tokens), to),
        marks_hold(collected_from(nodes, i, language, bytes, tokens)),
    decreases nodes, nodes.len() - i,
{
    if i < nodes.len() {
        assert(crate::syntax::placed(nodes[i], from, to));
        lemma_collected(nodes[i], language, bytes, tokens, from, to);
        lemma_collected_from(
            nodes,
            i + 1,
            language,
            bytes,
            collected(nodes[i], language, bytes, tokens),
            nodes[i].end as int,
            to,
        );
    }
}

/// Marking all tokens from `first` on keeps the units nested, where no unit that starts earlier
/// reaches beyond `first`.
proof fn lemma_marked_nests(tokens: Seq<Token>, first: int, kind_id: u16, language: LanguageId)
    requires
        0 <= first,
        tokens.len() <= u32::MAX,
        marks_hold(tokens),
        crate::spans::units_nest(tokens),
        forall|i: int|
            0 <= i < first && i < tokens.len() ==> (#[trigger] tokens[i]).unit_end_of_start <= first
                && tokens[i].container_end_of_start <= first,
    ensures
        crate::spans::units_nest(marked(tokens, first, kind_id, language)),
        forall|i: int|
            0 <= i < first && i < tokens.len() ==> #[trigger] marked(
                tokens,
                first,
                kind_id,
                language,
            )[i] == tokens[i],
{
    let after = marked(tokens, first, kind_id, language);
    if is_unit_id(language, kind_id as int) && first < tokens.len() {
        let end = tokens.len() as int;
        let container = is_container_id(language, kind_id as int);
        let opening = tokens.update(first, opened(tokens[first], container, end));
        lemma_mark_bits(tokens[first].flags);
        lemma_mark_bits(opening[end - 1].flags);
        assert forall|k: int, e: int|
            0 <= k < after.len() && crate::spans::starts_unit(#[trigger] after[k], e) implies (k
            == first && e == end) || #[trigger] crate::spans::starts_unit(tokens[k], e) by {
            assert(mark_holds(tokens[k], k, end));
            assert(after[k].unit_start() == opening[k].unit_start());
            assert(after[k].container_start() == opening[k].container_start());
            if k != first {
                assert(opening[k] == tokens[k]);
            }
        }
        assert forall|i: int, j: int, a: int, b: int|
            #![trigger crate::spans::starts_unit(after[i], a), crate::spans::starts_unit(after[j], b)]
            0 <= i < j < after.len() && crate::spans::starts_unit(after[i], a)
                && crate::spans::starts_unit(after[j], b) && j < a implies b <= a by {
            assert(mark_holds(tokens[i], i, end));
            assert(mark_holds(tokens[j], j, end));
            assert((i == first && a == end) || crate::spans::starts_unit(tokens[i], a));
            assert((j == first && b == end) || crate::spans::starts_unit(tokens[j], b));
            if j == first && b == end {
                assert(crate::spans::starts_unit(tokens[i], a));
                assert(a <= first);
            }
        }
    }
}

/// The tokens of a node leave those before them as they are, and its units nest.
proof fn lemma_collected_nests(
    node: SyntaxNode,
    language: LanguageId,
    bytes: Seq<u8>,
    tokens: Seq<Token>,
    from: int,
    to: int,
)
    requires
        0 <= from,
        to <= u32::MAX,
        crate::syntax::placed(node, from, to),
        follow_each_other(tokens, from),
        marks_hold(tokens),
        crate::spans::units_nest(tokens),
    ensures
        crate::spans::units_nest(collected(node, language, bytes, tokens)),
        collected(node, language, bytes, tokens).len() >= tokens.len(),
        forall|k: int|
            0 <= k < tokens.len() ==> #[trigger] collected(node, language, bytes, tokens)[k]
                == tokens[k],
    decreases node, 0int,
{
    if is_skipped(node) {
    } else if node.children.len() == 0 {
        let after = with_leaf(tokens, node, language, bytes);
        if node.start != node.end {
            let token = token_of(node, language, bytes);
            assert(0u8 & 1 == 0 && 8u8 & 1 == 0 && 16u8 & 1 == 0 && 0u8 & 4 == 0 && 8u8 & 4 == 0
                && 16u8 & 4 == 0) by (bit_vector);
            assert(!token.unit_start() && !token.container_start());
            assert forall|i: int, j: int, a: int, b: int|
                #![trigger crate::spans::starts_unit(after[i], a), crate::spans::starts_unit(after[j], b)]
                0 <= i < j < after.len() && crate::spans::starts_unit(after[i], a)
                    && crate::spans::starts_unit(after[j], b) && j < a implies b <= a by {
                assert(j < tokens.len());
                assert(crate::spans::starts_unit(tokens[i], a));
                assert(crate::spans::starts_unit(tokens[j], b));
            }
        }
    } else {
        let all = collected_from(node.children, 0, language, bytes, tokens);
        let start = node.start as int;
        let end = node.end as int;
        lemma_collected_from(node.children, 0, language, bytes, tokens, start, end);
        lemma_collected_from_nests(node.children, 0, language, bytes, tokens, start, end);
        lemma_token_count(all, end);
        let first = tokens.len() as int;
        assert forall|i: int| 0 <= i < first && i < all.len() implies (
        #[trigger] all[i]).unit_end_of_start <= first && all[i].container_end_of_start <= first by {
            assert(all[i] == tokens[i]);
            assert(mark_holds(tokens[i], i, first));
        }
        lemma_marked_nests(all, first, node.kind_id, language);
        lemma_marked(all, first, node.kind_id, language, end);
    }
}

proof fn lemma_collected_from_nests(
    nodes: Seq<SyntaxNode>,
    i: int,
    language: LanguageId,
    bytes: Seq<u8>,
    tokens: Seq<Token>,
    from: int,
    to: int,
)
    requires
        0 <= i,
        0 <= from <= to <= u32::MAX,
        crate::syntax::placed_from(nodes, i, from, to),
        follow_each_other(tokens, from),
        marks_hold(tokens),
        crate::spans::units_nest(tokens),
    ensures
        crate::spans::units_nest(collected_from(nodes, i, language, bytes, tokens)),
        collected_from(nodes, i, language, bytes, tokens).len() >= tokens.len(),
        forall|k: int|
            0 <= k < tokens.len() ==> #[trigger] collected_from(
                nodes,
                i,
                language,
                bytes,
                tokens,
            )[k] == tokens[k],
    decreases nodes, nodes.len() - i,
{
    if i < nodes.len() {
        let next = collected(nodes[i], language, bytes, tokens);
        assert(crate::syntax::placed(nodes[i], from, to));
        lemma_collected(nodes[i], language, bytes, tokens, from, to);
        lemma_collected_nests(nodes[i], language, bytes, tokens, from, to);
        lemma_collected_from_nests(
            nodes,
            i + 1,
            language,
            bytes,
            next,
            nodes[i].end as int,
            to,
        );
        assert forall|k: int| 0 <= k < tokens.len() implies #[trigger] collected_from(
            nodes,
            i,
            language,
            bytes,
            tokens,
        )[k] == tokens[k] by {
            assert(collected_from(nodes, i + 1, language, bytes, next)[k] == next[k]);
            assert(next[k] == tokens[k]);
        }
    }
}

/// What is left to do once the node at the path is done: the siblings behind it, then marking the
/// parent, and so on up to the root. `firsts` holds, for each node above, how many tokens there
/// were when it was entered.
spec fn resumed(
    root: SyntaxNode,
    path: Seq<int>,
    firsts: Seq<int>,
    language: LanguageId,
    bytes: Seq<u8>,
    tokens: Seq<Token>,
) -> Seq<Token>
    decreases path.len(),
{
    if path.len() == 0 {
        tokens
    } else {
        let parent = crate::syntax::node_at(root, path.drop_last());
        let all = collected_from(parent.children, path.last() + 1, language, bytes, tokens);
        resumed(
            root,
            path.drop_last(),
            firsts.drop_last(),
            language,
            bytes,
            marked(all, firsts.last(), parent.kind_id, language),
        )
    }
}

/// How many steps the walk takes for a node and what is below it.
spec fn work(node: SyntaxNode) -> nat
    decreases node, 0int,
{
    2 + work_from(node.children, 0)
}

spec fn work_from(nodes: Seq<SyntaxNode>, i: int) -> nat
    decreases nodes, nodes.len() - i,
{
    if 0 <= i < nodes.len() {
        work(nodes[i]) + work_from(nodes, i + 1)
    } else {
        0
    }
}

/// How many steps are left once the node at the path is done.
spec fn work_after(root: SyntaxNode, path: Seq<int>) -> nat
    decreases path.len(),
{
    if path.len() == 0 {
        0
    } else {
        let parent = crate::syntax::node_at(root, path.drop_last());
        1 + work_from(parent.children, path.last() + 1) + work_after(root, path.drop_last())
    }
}

/// Every position of the path is that of a child, and no node on it is skipped or a leaf but the
/// last.
spec fn is_path(root: SyntaxNode, path: Seq<int>) -> bool
    decreases path.len(),
{
    path.len() > 0 ==> {
        let parent = crate::syntax::node_at(root, path.drop_last());
        &&& is_path(root, path.drop_last())
        &&& 0 <= path.last() < parent.children.len()
    }
}

/// The kind numbers of the nodes above the path's end.
spec fn kinds_above(root: SyntaxNode, path: Seq<int>, stack: Seq<(u32, u16)>) -> bool
    decreases path.len(),
{
    &&& stack.len() == path.len()
    &&& path.len() > 0 ==> {
        &&& stack.last().1 == crate::syntax::node_at(root, path.drop_last()).kind_id
        &&& kinds_above(root, path.drop_last(), stack.drop_last())
    }
}

spec fn firsts_of(stack: Seq<(u32, u16)>) -> Seq<int> {
    stack.map_values(|entry: (u32, u16)| entry.0 as int)
}

/// The node that a path leads to lies where its tree does.
proof fn lemma_placed_at(root: SyntaxNode, path: Seq<int>, to: int)
    requires
        crate::syntax::placed(root, 0, to),
        is_path(root, path),
    ensures
        crate::syntax::placed(crate::syntax::node_at(root, path), 0, to),
    decreases path.len(),
{
    if path.len() > 0 {
        lemma_placed_at(root, path.drop_last(), to);
        let parent = crate::syntax::node_at(root, path.drop_last());
        lemma_placed_child(
            parent.children,
            0,
            parent.start as int,
            parent.end as int,
            path.last(),
        );
        let child = parent.children[path.last()];
        assert(crate::syntax::placed(child, 0, to)) by {
            lemma_placed_wider(child, parent.start as int, parent.end as int, 0, to);
        }
    }
}

proof fn lemma_placed_wider(node: SyntaxNode, from: int, to: int, lo: int, hi: int)
    requires
        crate::syntax::placed(node, from, to),
        lo <= from,
        to <= hi,
    ensures
        crate::syntax::placed(node, lo, hi),
{
}

proof fn lemma_placed_child(nodes: Seq<SyntaxNode>, i: int, from: int, to: int, k: int)
    requires
        crate::syntax::placed_from(nodes, i, from, to),
        0 <= i <= k < nodes.len(),
    ensures
        crate::syntax::placed(nodes[k], from, to),
    decreases k - i,
{
    assert(crate::syntax::placed(nodes[i], from, to));
    if i < k {
        lemma_placed_child(nodes, i + 1, nodes[i].end as int, to, k);
        lemma_placed_wider(nodes[k], nodes[i].end as int, to, from, to);
    }
}

/// Collecting keeps the tokens that are there.
proof fn lemma_collected_grows(
    node: SyntaxNode,
    language: LanguageId,
    bytes: Seq<u8>,
    tokens: Seq<Token>,
)
    ensures
        collected(node, language, bytes, tokens).len() >= tokens.len(),
    decreases node, 0int,
{
    if !is_skipped(node) && node.children.len() > 0 {
        lemma_collected_from_grows(node.children, 0, language, bytes, tokens);
    }
}

proof fn lemma_collected_from_grows(
    nodes: Seq<SyntaxNode>,
    i: int,
    language: LanguageId,
    bytes: Seq<u8>,
    tokens: Seq<Token>,
)
    ensures
        collected_from(nodes, i, language, bytes, tokens).len() >= tokens.len(),
    decreases nodes, nodes.len() - i,
{
    if 0 <= i < nodes.len() {
        lemma_collected_grows(nodes[i], language, bytes, tokens);
        lemma_collected_from_grows(
            nodes,
            i + 1,
            language,
            bytes,
            collected(nodes[i], language, bytes, tokens),
        );
    }
}

proof fn lemma_resumed_grows(
    root: SyntaxNode,
    path: Seq<int>,
    firsts: Seq<int>,
    language: LanguageId,
    bytes: Seq<u8>,
    tokens: Seq<Token>,
)
    requires
        firsts.len() == path.len(),
        forall|k: int| 0 <= k < firsts.len() ==> 0 <= #[trigger] firsts[k],
    ensures
        resumed(root, path, firsts, language, bytes, tokens).len() >= tokens.len(),
    decreases path.len(),
{
    if path.len() > 0 {
        assert(0 <= firsts[firsts.len() - 1]);
        let parent = crate::syntax::node_at(root, path.drop_last());
        let all = collected_from(parent.children, path.last() + 1, language, bytes, tokens);
        lemma_collected_from_grows(parent.children, path.last() + 1, language, bytes, tokens);
        lemma_resumed_grows(
            root,
            path.drop_last(),
            firsts.drop_last(),
            language,
            bytes,
            marked(all, firsts.last(), parent.kind_id, language),
        );
    }
}

/// Entering a node with children leaves the outcome and takes a step.
proof fn lemma_enter(
    root: SyntaxNode,
    path: Seq<int>,
    stack: Seq<(u32, u16)>,
    entry: (u32, u16),
    language: LanguageId,
    bytes: Seq<u8>,
    tokens: Seq<Token>,
)
    requires
        is_path(root, path),
        kinds_above(root, path, stack),
        !is_skipped(crate::syntax::node_at(root, path)),
        crate::syntax::node_at(root, path).children.len() > 0,
        entry.0 == tokens.len(),
        entry.1 == crate::syntax::node_at(root, path).kind_id,
    ensures
        is_path(root, path.push(0)),
        kinds_above(root, path.push(0), stack.push(entry)),
        resumed(
            root,
            path.push(0),
            firsts_of(stack.push(entry)),
            language,
            bytes,
            collected(crate::syntax::node_at(root, path.push(0)), language, bytes, tokens),
        ) == resumed(
            root,
            path,
            firsts_of(stack),
            language,
            bytes,
            collected(crate::syntax::node_at(root, path), language, bytes, tokens),
        ),
        work_after(root, path.push(0)) + work(crate::syntax::node_at(root, path.push(0))) + 1
            <= work_after(root, path) + work(crate::syntax::node_at(root, path)),
{
    let node = crate::syntax::node_at(root, path);
    let deeper = path.push(0);
    assert(deeper.drop_last() =~= path);
    assert(stack.push(entry).drop_last() =~= stack);
    assert(firsts_of(stack.push(entry)).drop_last() =~= firsts_of(stack));
    assert(crate::syntax::node_at(root, deeper) == node.children[0]);
    let first = collected(node.children[0], language, bytes, tokens);
    assert(collected_from(node.children, 0, language, bytes, tokens) == collected_from(
        node.children,
        1,
        language,
        bytes,
        first,
    ));
    assert(work(node) == 2 + work_from(node.children, 0));
    assert(work_from(node.children, 0) == work(node.children[0]) + work_from(node.children, 1));
}

/// Moving to the next sibling leaves the outcome and what is left to do.
proof fn lemma_next(
    root: SyntaxNode,
    path: Seq<int>,
    stack: Seq<(u32, u16)>,
    language: LanguageId,
    bytes: Seq<u8>,
    tokens: Seq<Token>,
)
    requires
        is_path(root, path),
        kinds_above(root, path, stack),
        crate::syntax::has_next_sibling(root, path),
    ensures
        ({
            let next = path.drop_last().push(path.last() + 1);
            &&& is_path(root, next)
            &&& kinds_above(root, next, stack)
            &&& resumed(
                root,
                next,
                firsts_of(stack),
                language,
                bytes,
                collected(crate::syntax::node_at(root, next), language, bytes, tokens),
            ) == resumed(root, path, firsts_of(stack), language, bytes, tokens)
            &&& work_after(root, next) + work(crate::syntax::node_at(root, next)) == work_after(
                root,
                path,
            )
        }),
{
    let next = path.drop_last().push(path.last() + 1);
    assert(next.drop_last() =~= path.drop_last());
    let parent = crate::syntax::node_at(root, path.drop_last());
    let at = path.last() + 1;
    assert(crate::syntax::node_at(root, next) == parent.children[at]);
    assert(collected_from(parent.children, at, language, bytes, tokens) == collected_from(
        parent.children,
        at + 1,
        language,
        bytes,
        collected(parent.children[at], language, bytes, tokens),
    ));
    assert(work_from(parent.children, at) == work(parent.children[at]) + work_from(
        parent.children,
        at + 1,
    ));
}

/// Going back to the parent behind its last child marks the parent.
proof fn lemma_leave(
    root: SyntaxNode,
    path: Seq<int>,
    stack: Seq<(u32, u16)>,
    language: LanguageId,
    bytes: Seq<u8>,
    tokens: Seq<Token>,
)
    requires
        is_path(root, path),
        kinds_above(root, path, stack),
        path.len() > 0,
        !crate::syntax::has_next_sibling(root, path),
    ensures
        is_path(root, path.drop_last()),
        kinds_above(root, path.drop_last(), stack.drop_last()),
        resumed(
            root,
            path.drop_last(),
            firsts_of(stack.drop_last()),
            language,
            bytes,
            marked(tokens, stack.last().0 as int, stack.last().1, language),
        ) == resumed(root, path, firsts_of(stack), language, bytes, tokens),
        work_after(root, path.drop_last()) < work_after(root, path),
{
    assert(firsts_of(stack).drop_last() =~= firsts_of(stack.drop_last()));
    let parent = crate::syntax::node_at(root, path.drop_last());
    assert(collected_from(parent.children, path.last() + 1, language, bytes, tokens) == tokens);
}

/// Marking keeps units starting no later than they end.
proof fn lemma_marked_ends(tokens: Seq<Token>, first: int, kind_id: u16, language: LanguageId)
    requires
        0 <= first,
        tokens.len() <= u32::MAX,
        crate::spans::ends_wf(tokens),
    ensures
        crate::spans::ends_wf(marked(tokens, first, kind_id, language)),
{
    let after = marked(tokens, first, kind_id, language);
    if is_unit_id(language, kind_id as int) && first < tokens.len() {
        let flags = tokens[first].flags;
        assert((flags | 1) & 2 == flags & 2 && (flags | 4) & 2 == flags & 2) by (bit_vector);
        assert forall|i: int| 0 <= i < after.len() && (
        #[trigger] after[i]).unit_end() implies after[i].unit_start_of_end <= i by {
            assert(tokens[i].unit_end() ==> tokens[i].unit_start_of_end <= i);
        }
    }
}

/// The units of a node start no later than they end: the last token of a unit tells where it
/// starts.
pub proof fn units_end_after_they_start(
    node: SyntaxNode,
    language: LanguageId,
    bytes: Seq<u8>,
    tokens: Seq<Token>,
)
    requires
        crate::spans::ends_wf(tokens),
        collected(node, language, bytes, tokens).len() <= u32::MAX,
    ensures
        crate::spans::ends_wf(collected(node, language, bytes, tokens)),
    decreases node, 0int,
{
    if is_skipped(node) {
    } else if node.children.len() == 0 {
        let after = with_leaf(tokens, node, language, bytes);
        if node.start != node.end {
            assert(0u8 & 2 == 0 && 8u8 & 2 == 0 && 16u8 & 2 == 0) by (bit_vector);
            assert(!token_of(node, language, bytes).unit_end());
            assert forall|i: int| 0 <= i < after.len() && (
            #[trigger] after[i]).unit_end() implies after[i].unit_start_of_end <= i by {
                assert(after[i] == tokens[i]);
            }
        }
    } else {
        let all = collected_from(node.children, 0, language, bytes, tokens);
        assert(all.len() == collected(node, language, bytes, tokens).len());
        lemma_collected_from_ends(node.children, 0, language, bytes, tokens);
        lemma_marked_ends(all, tokens.len() as int, node.kind_id, language);
    }
}

proof fn lemma_collected_from_ends(
    nodes: Seq<SyntaxNode>,
    i: int,
    language: LanguageId,
    bytes: Seq<u8>,
    tokens: Seq<Token>,
)
    requires
        crate::spans::ends_wf(tokens),
        collected_from(nodes, i, language, bytes, tokens).len() <= u32::MAX,
    ensures
        crate::spans::ends_wf(collected_from(nodes, i, language, bytes, tokens)),
    decreases nodes, nodes.len() - i,
{
    if 0 <= i < nodes.len() {
        let next = collected(nodes[i], language, bytes, tokens);
        lemma_collected_from_grows(nodes, i + 1, language, bytes, next);
        units_end_after_they_start(nodes[i], language, bytes, tokens);
        lemma_collected_from_ends(nodes, i + 1, language, bytes, next);
    }
}

/// The tokens of a tree that lies over a text.
pub fn collect(tree: &tree_sitter::Tree, tables: &KindTables, source: &str) -> (tokens: Vec<Token>)
    requires
        tables.wf(),
        encode_utf8(source@).len() <= u32::MAX,
        crate::syntax::placed(
            crate::syntax::tree_root(tree),
            0,
            encode_utf8(source@).len() as int,
        ),
    ensures
        tokens@ == collected(
            crate::syntax::tree_root(tree),
            tables.language(),
            encode_utf8(source@),
            Seq::empty(),
        ),
        follow_each_other(tokens@, encode_utf8(source@).len() as int),
        tokens@.len() <= encode_utf8(source@).len(),
        crate::spans::marks_wf(tokens@),
        crate::spans::units_nest(tokens@),
        crate::spans::ends_wf(tokens@),
{
    let mut tokens: Vec<Token> = Vec::new();
    let mut stack: Vec<(u32, u16)> = Vec::new();
    let mut cursor = walk(tree);
    let mut done: bool = false;
    let ghost root = crate::syntax::tree_root(tree);
    let ghost language = tables.language();
    let ghost bytes = encode_utf8(source@);
    let ghost goal = collected(root, language, bytes, Seq::empty());
    proof {
        lemma_collected(root, language, bytes, Seq::empty(), 0, bytes.len() as int);
        lemma_collected_nests(root, language, bytes, Seq::empty(), 0, bytes.len() as int);
        lemma_token_count(goal, root.end as int);
        units_end_after_they_start(root, language, bytes, Seq::empty());
        assert(marks_hold(goal));
        assert(crate::spans::marks_wf(goal)) by {
            assert forall|i: int| 0 <= i < goal.len() implies mark_holds(
                #[trigger] goal[i],
                i,
                goal.len() as int,
            ) by {}
        }
    }
    loop
        invariant
            tables.wf(),
            language == tables.language(),
            bytes == encode_utf8(source@),
            bytes.len() <= u32::MAX,
            root == crate::syntax::tree_root(tree),
            crate::syntax::placed(root, 0, bytes.len() as int),
            goal == collected(root, language, bytes, Seq::empty()),
            goal.len() <= bytes.len(),
            follow_each_other(goal, bytes.len() as int),
            crate::spans::marks_wf(goal),
            crate::spans::units_nest(goal),
            crate::spans::ends_wf(goal),
            crate::syntax::cursor_root(&cursor) == root,
            is_path(root, crate::syntax::cursor_path(&cursor)),
            kinds_above(root, crate::syntax::cursor_path(&cursor), stack@),
            resumed(
                root,
                crate::syntax::cursor_path(&cursor),
                firsts_of(stack@),
                language,
                bytes,
                if done {
                    tokens@
                } else {
                    collected(crate::syntax::cursor_node(&cursor), language, bytes, tokens@)
                },
            ) == goal,
        decreases
                if done {
                    2 * work_after(root, crate::syntax::cursor_path(&cursor)) + 1
                } else {
                    2 * (work_after(root, crate::syntax::cursor_path(&cursor)) + work(
                        crate::syntax::cursor_node(&cursor),
                    ))
                },
    {
        let ghost path = crate::syntax::cursor_path(&cursor);
        let ghost node = crate::syntax::cursor_node(&cursor);
        proof {
            if done {
                lemma_resumed_grows(root, path, firsts_of(stack@), language, bytes, tokens@);
            } else {
                lemma_collected_grows(node, language, bytes, tokens@);
                lemma_resumed_grows(
                    root,
                    path,
                    firsts_of(stack@),
                    language,
                    bytes,
                    collected(node, language, bytes, tokens@),
                );
            }
        }
        if !done {
            let info = node_info(&cursor);
            let skipped: bool = info.extra || info.missing || info.error;
            if !skipped && info.child_count > 0 {
                let entry: (u32, u16) = (tokens.len() as u32, info.kind_id);
                proof {
                    lemma_enter(root, path, stack@, entry, language, bytes, tokens@);
                }
                stack.push(entry);
                goto_first_child(&mut cursor);
            } else {
                if !skipped {
                    proof {
                        lemma_placed_at(root, path, bytes.len() as int);
                    }
                    push_token(&info, tables, source, &mut tokens, Ghost(node));
                }
                done = true;
            }
        } else {
            if goto_next_sibling(&mut cursor) {
                proof {
                    lemma_next(root, path, stack@, language, bytes, tokens@);
                }
                done = false;
            } else {
                if !goto_parent(&mut cursor) {
                    return tokens;
                }
                proof {
                    lemma_leave(root, path, stack@, language, bytes, tokens@);
                }
                if let Some((first, kind_id)) = stack.pop() {
                    apply_marking(&mut tokens, first, kind_id, tables);
                }
            }
        }
    }
}

/// Splits a text into its leaf tokens.
pub fn tokenize(source: &str, language: LanguageId) -> (result: Result<Vec<Token>, TokenizeError>)
    requires
        encode_utf8(source@).len() <= u32::MAX,
    ensures
        is_tokenization(source@, language, result),
{
    let tables = build_kind_tables(language);
    tokenize_with(source, &tables)
}

/// The tokens are those of a tree that was parsed from the text in the language.
pub open spec fn come_from_a_tree(
    tokens: Seq<Token>,
    source: Seq<char>,
    language: LanguageId,
) -> bool {
    exists|tree: tree_sitter::Tree| #[trigger]
        crate::syntax::is_tree_of(tree, source, language) && tokens == collected(
            crate::syntax::tree_root(&tree),
            language,
            encode_utf8(source),
            Seq::empty(),
        )
}

/// What tokenizing a text in a language gives: the tokens of a syntax tree of it, which follow
/// each other in the text and whose units nest; an error just where the grammar does not load.
/// `collect` says which tokens those of a given tree are.
pub open spec fn is_tokenization(
    source: Seq<char>,
    language: LanguageId,
    result: Result<Vec<Token>, TokenizeError>,
) -> bool {
    match result {
        Ok(tokens) => {
            &&& crate::syntax::grammar_loads(language)
            &&& come_from_a_tree(tokens@, source, language)
            &&& follow_each_other(tokens@, encode_utf8(source).len() as int)
            &&& tokens@.len() <= encode_utf8(source).len()
            &&& crate::spans::marks_wf(tokens@)
            &&& crate::spans::units_nest(tokens@)
            &&& crate::spans::ends_wf(tokens@)
        },
        Err(error) => {
            &&& error == TokenizeError::Grammar(language)
            &&& !crate::syntax::grammar_loads(language)
        },
    }
}

/// Parses a text: there is a syntax tree of it unless the grammar does not load.
pub fn parse_tree(source: &str, language: LanguageId) -> (result: Result<
    tree_sitter::Tree,
    TokenizeError,
>)
    requires
        encode_utf8(source@).len() <= u32::MAX,
    ensures
        match result {
            Ok(tree) => {
                &&& crate::syntax::grammar_loads(language)
                &&& crate::syntax::is_tree_of(tree, source@, language)
            },
            Err(error) => {
                &&& error == TokenizeError::Grammar(language)
                &&& !crate::syntax::grammar_loads(language)
            },
        },
{
    let grammar = language.grammar();
    let mut parser = new_parser();
    match set_language(&mut parser, &grammar) {
        Ok(_) => {},
        Err(_) => {
            return Err(TokenizeError::Grammar(language));
        },
    }
    match parse(&mut parser, source) {
        Some(tree) => Ok(tree),
        None => Err(TokenizeError::ParseFailed),
    }
}

/// Splits a text into its leaf tokens, with the kind tables of its language at hand.
pub fn tokenize_with(source: &str, tables: &KindTables) -> (result: Result<
    Vec<Token>,
    TokenizeError,
>)
    requires
        tables.wf(),
        encode_utf8(source@).len() <= u32::MAX,
    ensures
        is_tokenization(source@, tables.language(), result),
{
    match parse_tree(source, tables.language) {
        Ok(tree) => Ok(collect(&tree, tables, source)),
        Err(error) => Err(error),
    }
}

/// Every token is of a known kind, and its spare bytes are zero.
pub open spec fn are_plain(tokens: Seq<Token>) -> bool {
    forall|i: int|
        0 <= i < tokens.len() ==> TokenKind::from_u8((#[trigger] tokens[i]).kind) is Some
            && tokens[i]._pad@ == seq![0u8, 0u8]
}

/// The tokens of a node are of known kinds, and their spare bytes are zero.
pub proof fn collected_tokens_are_plain(
    node: SyntaxNode,
    language: LanguageId,
    bytes: Seq<u8>,
    tokens: Seq<Token>,
)
    requires
        are_plain(tokens),
    ensures
        are_plain(collected(node, language, bytes, tokens)),
    decreases node, 0int,
{
    if is_skipped(node) {
    } else if node.children.len() == 0 {
        let token = token_of(node, language, bytes);
        assert(token._pad@ =~= seq![0u8, 0u8]);
    } else {
        lemma_collected_from_plain(node.children, 0, language, bytes, tokens);
    }
}

proof fn lemma_collected_from_plain(
    nodes: Seq<SyntaxNode>,
    i: int,
    language: LanguageId,
    bytes: Seq<u8>,
    tokens: Seq<Token>,
)
    requires
        are_plain(tokens),
    ensures
        are_plain(collected_from(nodes, i, language, bytes, tokens)),
    decreases nodes, nodes.len() - i,
{
    if 0 <= i < nodes.len() {
        collected_tokens_are_plain(nodes[i], language, bytes, tokens);
        lemma_collected_from_plain(
            nodes,
            i + 1,
            language,
            bytes,
            collected(nodes[i], language, bytes, tokens),
        );
    }
}

/// A leaf below the node, not skipped and not below a skipped node, has this range.
pub open spec fn has_leaf(node: SyntaxNode, start: u32, end: u32) -> bool
    decreases node, 0int,
{
    !is_skipped(node) && if node.children.len() == 0 {
        node.start != node.end && node.start as u32 == start && node.end as u32 == end
    } else {
        has_leaf_from(node.children, 0, start, end)
    }
}

/// One of the nodes from the `i`-th on has such a leaf.
pub open spec fn has_leaf_from(nodes: Seq<SyntaxNode>, i: int, start: u32, end: u32) -> bool
    decreases nodes, nodes.len() - i,
{
    0 <= i < nodes.len() && (has_leaf(nodes[i], start, end) || has_leaf_from(
        nodes,
        i + 1,
        start,
        end,
    ))
}

/// Every token that a node adds is the text of a leaf below it. So comments, which are skipped,
/// and white space, which is in no leaf, leave no tokens.
pub proof fn added_tokens_are_leaves(
    node: SyntaxNode,
    language: LanguageId,
    bytes: Seq<u8>,
    tokens: Seq<Token>,
    k: int,
)
    requires
        tokens.len() <= k < collected(node, language, bytes, tokens).len(),
    ensures
        ({
            let token = collected(node, language, bytes, tokens)[k];
            has_leaf(node, token.start, token.end)
        }),
    decreases node, 0int,
{
    if !is_skipped(node) && node.children.len() > 0 {
        let all = collected_from(node.children, 0, language, bytes, tokens);
        let token = collected(node, language, bytes, tokens)[k];
        lemma_collected_from_grows(node.children, 0, language, bytes, tokens);
        assert(all.len() == collected(node, language, bytes, tokens).len());
        assert(token.start == all[k].start && token.end == all[k].end);
        lemma_added_from(node.children, 0, language, bytes, tokens, k);
    }
}

proof fn lemma_added_from(
    nodes: Seq<SyntaxNode>,
    i: int,
    language: LanguageId,
    bytes: Seq<u8>,
    tokens: Seq<Token>,
    k: int,
)
    requires
        0 <= i,
        tokens.len() <= k < collected_from(nodes, i, language, bytes, tokens).len(),
    ensures
        ({
            let token = collected_from(nodes, i, language, bytes, tokens)[k];
            has_leaf_from(nodes, i, token.start, token.end)
        }),
    decreases nodes, nodes.len() - i,
{
    if i < nodes.len() {
        let next = collected(nodes[i], language, bytes, tokens);
        if k < next.len() {
            added_tokens_are_leaves(nodes[i], language, bytes, tokens, k);
            lemma_ranges_stay_from(nodes, i + 1, language, bytes, next, k);
        } else {
            lemma_added_from(nodes, i + 1, language, bytes, next, k);
        }
    }
}

proof fn lemma_ranges_stay(
    node: SyntaxNode,
    language: LanguageId,
    bytes: Seq<u8>,
    tokens: Seq<Token>,
    k: int,
)
    requires
        0 <= k < tokens.len(),
    ensures
        k < collected(node, language, bytes, tokens).len(),
        collected(node, language, bytes, tokens)[k].start == tokens[k].start,
        collected(node, language, bytes, tokens)[k].end == tokens[k].end,
    decreases node, 0int,
{
    if !is_skipped(node) && node.children.len() > 0 {
        lemma_ranges_stay_from(node.children, 0, language, bytes, tokens, k);
    }
}

proof fn lemma_ranges_stay_from(
    nodes: Seq<SyntaxNode>,
    i: int,
    language: LanguageId,
    bytes: Seq<u8>,
    tokens: Seq<Token>,
    k: int,
)
    requires
        0 <= k < tokens.len(),
    ensures
        k < collected_from(nodes, i, language, bytes, tokens).len(),
        collected_from(nodes, i, language, bytes, tokens)[k].start == tokens[k].start,
        collected_from(nodes, i, language, bytes, tokens)[k].end == tokens[k].end,
    decreases nodes, nodes.len() - i,
{
    if 0 <= i < nodes.len() {
        lemma_ranges_stay(nodes[i], language, bytes, tokens, k);
        lemma_ranges_stay_from(
            nodes,
            i + 1,
            language,
            bytes,
            collected(nodes[i], language, bytes, tokens),
            k,
        );
    }
}

/// A node that is skipped, the node itself or one below it, has this range.
pub open spec fn has_skipped(node: SyntaxNode, start: int, end: int) -> bool
    decreases node, 0int,
{
    if is_skipped(node) {
        node.start == start && node.end == end
    } else {
        has_skipped_from(node.children, 0, start, end)
    }
}

/// One of the nodes from the `i`-th on has such a node.
pub open spec fn has_skipped_from(nodes: Seq<SyntaxNode>, i: int, start: int, end: int) -> bool
    decreases nodes, nodes.len() - i,
{
    0 <= i < nodes.len() && (has_skipped(nodes[i], start, end) || has_skipped_from(
        nodes,
        i + 1,
        start,
        end,
    ))
}

/// What lies below a node lies in it.
proof fn lemma_within(
    node: SyntaxNode,
    from: int,
    to: int,
    start: u32,
    end: u32,
    skipped_start: int,
    skipped_end: int,
)
    requires
        0 <= from,
        to <= u32::MAX,
        crate::syntax::placed(node, from, to),
    ensures
        has_leaf(node, start, end) ==> node.start <= start && end <= node.end,
        has_skipped(node, skipped_start, skipped_end) ==> node.start <= skipped_start
            && skipped_end <= node.end,
    decreases node, 0int,
{
    if !is_skipped(node) {
        lemma_within_from(
            node.children,
            0,
            node.start as int,
            node.end as int,
            start,
            end,
            skipped_start,
            skipped_end,
        );
    }
}

proof fn lemma_within_from(
    nodes: Seq<SyntaxNode>,
    i: int,
    from: int,
    to: int,
    start: u32,
    end: u32,
    skipped_start: int,
    skipped_end: int,
)
    requires
        0 <= i,
        0 <= from,
        to <= u32::MAX,
        crate::syntax::placed_from(nodes, i, from, to),
    ensures
        has_leaf_from(nodes, i, start, end) ==> from <= start && end <= to,
        has_skipped_from(nodes, i, skipped_start, skipped_end) ==> from <= skipped_start
            && skipped_end <= to,
    decreases nodes, nodes.len() - i,
{
    if i < nodes.len() {
        assert(crate::syntax::placed(nodes[i], from, to));
        lemma_within(nodes[i], from, to, start, end, skipped_start, skipped_end);
        lemma_within_from(
            nodes,
            i + 1,
            nodes[i].end as int,
            to,
            start,
            end,
            skipped_start,
            skipped_end,
        );
    }
}

/// A leaf that is not skipped and a node that is do not overlap.
proof fn lemma_leaf_apart(
    node: SyntaxNode,
    from: int,
    to: int,
    start: u32,
    end: u32,
    skipped_start: int,
    skipped_end: int,
)
    requires
        0 <= from,
        to <= u32::MAX,
        crate::syntax::placed(node, from, to),
        has_leaf(node, start, end),
        has_skipped(node, skipped_start, skipped_end),
    ensures
        end <= skipped_start || skipped_end <= start,
    decreases node, 0int,
{
    lemma_leaf_apart_from(
        node.children,
        0,
        node.start as int,
        node.end as int,
        start,
        end,
        skipped_start,
        skipped_end,
    );
}

proof fn lemma_leaf_apart_from(
    nodes: Seq<SyntaxNode>,
    i: int,
    from: int,
    to: int,
    start: u32,
    end: u32,
    skipped_start: int,
    skipped_end: int,
)
    requires
        0 <= i,
        0 <= from,
        to <= u32::MAX,
        crate::syntax::placed_from(nodes, i, from, to),
        has_leaf_from(nodes, i, start, end),
        has_skipped_from(nodes, i, skipped_start, skipped_end),
    ensures
        end <= skipped_start || skipped_end <= start,
    decreases nodes, nodes.len() - i,
{
    let next = nodes[i].end as int;
    lemma_within(nodes[i], from, to, start, end, skipped_start, skipped_end);
    lemma_within_from(nodes, i + 1, next, to, start, end, skipped_start, skipped_end);
    if has_leaf(nodes[i], start, end) {
        if has_skipped(nodes[i], skipped_start, skipped_end) {
            lemma_leaf_apart(nodes[i], from, to, start, end, skipped_start, skipped_end);
        }
    } else if has_leaf_from(nodes, i + 1, start, end) && has_skipped_from(
        nodes,
        i + 1,
        skipped_start,
        skipped_end,
    ) {
        lemma_leaf_apart_from(
            nodes,
            i + 1,
            next,
            to,
            start,
            end,
            skipped_start,
            skipped_end,
        );
    }
}

/// No token overlaps a comment of the tree that the tokens come from, nor anything else that is
/// skipped there; each is the text of a leaf of that tree.
pub open spec fn keep_off_skipped(tokens: Seq<Token>, root: SyntaxNode) -> bool {
    &&& forall|k: int|
        0 <= k < tokens.len() ==> has_leaf(root, (#[trigger] tokens[k]).start, tokens[k].end)
    &&& forall|k: int, start: int, end: int|
        #![trigger tokens[k], has_skipped(root, start, end)]
        0 <= k < tokens.len() && has_skipped(root, start, end) ==> tokens[k].end <= start || end
            <= tokens[k].start
}

/// The tokens of a tree are leaves of it and keep off its comments.
pub proof fn tokens_keep_off_comments(
    root: SyntaxNode,
    language: LanguageId,
    bytes: Seq<u8>,
)
    requires
        bytes.len() <= u32::MAX,
        crate::syntax::placed(root, 0, bytes.len() as int),
    ensures
        keep_off_skipped(collected(root, language, bytes, Seq::empty()), root),
{
    let tokens = collected(root, language, bytes, Seq::empty());
    let len = bytes.len() as int;
    assert forall|k: int| 0 <= k < tokens.len() implies has_leaf(
        root,
        (#[trigger] tokens[k]).start,
        tokens[k].end,
    ) by {
        added_tokens_are_leaves(root, language, bytes, Seq::empty(), k);
    }
    assert forall|k: int, start: int, end: int|
        #![trigger tokens[k], has_skipped(root, start, end)]
        0 <= k < tokens.len() && has_skipped(root, start, end) implies tokens[k].end <= start || end
        <= tokens[k].start by {
        added_tokens_are_leaves(root, language, bytes, Seq::empty(), k);
        lemma_leaf_apart(root, 0, len, tokens[k].start, tokens[k].end, start, end);
    }
}

/// The tokens of a text are leaves of a syntax tree of the text in its language, and keep off the
/// comments of that tree.
pub proof fn tokens_of_a_text_keep_off_comments(
    tokens: Seq<Token>,
    source: Seq<char>,
    language: LanguageId,
)
    requires
        encode_utf8(source).len() <= u32::MAX,
        come_from_a_tree(tokens, source, language),
    ensures
        exists|tree: tree_sitter::Tree| #[trigger]
            crate::syntax::is_tree_of(tree, source, language) && keep_off_skipped(
                tokens,
                crate::syntax::tree_root(&tree),
            ),
{
    let tree = choose|tree: tree_sitter::Tree| #[trigger]
        crate::syntax::is_tree_of(tree, source, language) && tokens == collected(
            crate::syntax::tree_root(&tree),
            language,
            encode_utf8(source),
            Seq::empty(),
        );
    tokens_keep_off_comments(crate::syntax::tree_root(&tree), language, encode_utf8(source));
    assert(crate::syntax::is_tree_of(tree, source, language));
}

} // verus!
