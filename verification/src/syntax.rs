//! Syntax trees as tree-sitter builds them.
use vstd::prelude::*;
use vstd::utf8::encode_utf8;

use crate::language::LanguageId;

verus! {

/// A tree-sitter grammar.
#[verifier::external_type_specification]
#[verifier::external_body]
pub struct ExLanguage(tree_sitter::Language);

/// Why tree-sitter refuses a grammar.
#[verifier::external_type_specification]
#[verifier::external_body]
pub struct ExLanguageError(tree_sitter::LanguageError);

/// A tree-sitter parser.
#[verifier::external_type_specification]
#[verifier::external_body]
pub struct ExParser(tree_sitter::Parser);

/// A tree-sitter syntax tree.
#[verifier::external_type_specification]
#[verifier::external_body]
pub struct ExTree(tree_sitter::Tree);

/// A position in a tree-sitter syntax tree.
#[verifier::external_type_specification]
#[verifier::external_body]
pub struct ExTreeCursor<'cursor>(tree_sitter::TreeCursor<'cursor>);

/// What a syntax tree holds, node by node.
pub struct SyntaxNode {
    /// A comment or the like, which the grammar allows anywhere.
    pub extra: bool,
    /// Made up by the parser to recover from an error.
    pub missing: bool,
    /// Text that does not fit the grammar.
    pub error: bool,
    /// Stems from a named rule.
    pub named: bool,
    pub kind_id: u16,
    pub kind: Seq<char>,
    /// First byte.
    pub start: usize,
    /// One past the last byte.
    pub end: usize,
    pub children: Seq<SyntaxNode>,
}

/// What is read of one node.
#[derive(Clone, Copy)]
pub struct NodeInfo<'tree> {
    pub extra: bool,
    pub missing: bool,
    pub error: bool,
    pub named: bool,
    pub kind_id: u16,
    pub kind: &'tree str,
    pub start: usize,
    pub end: usize,
    pub child_count: u32,
}

/// The information is that of the node.
pub open spec fn describes(info: NodeInfo<'_>, node: SyntaxNode) -> bool {
    &&& info.extra == node.extra
    &&& info.missing == node.missing
    &&& info.error == node.error
    &&& info.named == node.named
    &&& info.kind_id == node.kind_id
    &&& info.kind@ == node.kind
    &&& info.start == node.start
    &&& info.end == node.end
    &&& info.child_count == node.children.len()
}

/// The node lies between the two offsets, its children lie in it, and each child starts no
/// earlier than the one before it ends.
pub open spec fn placed(node: SyntaxNode, from: int, to: int) -> bool
    decreases node, 0int,
{
    &&& from <= node.start <= node.end <= to
    &&& placed_from(node.children, 0, node.start as int, node.end as int)
}

/// The nodes from the `i`-th on lie between the two offsets, one after the other.
pub open spec fn placed_from(nodes: Seq<SyntaxNode>, i: int, from: int, to: int) -> bool
    decreases nodes, nodes.len() - i,
{
    if 0 <= i < nodes.len() {
        &&& placed(nodes[i], from, to)
        &&& placed_from(nodes, i + 1, nodes[i].end as int, to)
    } else {
        true
    }
}

/// The node that a path of child positions leads to.
pub open spec fn node_at(root: SyntaxNode, path: Seq<int>) -> SyntaxNode
    decreases path.len(),
{
    if path.len() == 0 {
        root
    } else {
        node_at(root, path.drop_last()).children[path.last()]
    }
}

/// The language that a grammar is of, if it is the grammar of one of the known languages.
pub uninterp spec fn grammar_id(grammar: &tree_sitter::Language) -> Option<LanguageId>;

/// The language that a parser is set to.
pub uninterp spec fn parser_language(parser: &tree_sitter::Parser) -> Option<LanguageId>;

/// The root of a tree, with all that is below it.
pub uninterp spec fn tree_root(tree: &tree_sitter::Tree) -> SyntaxNode;

/// The text that a tree was parsed from.
pub uninterp spec fn tree_text(tree: &tree_sitter::Tree) -> Seq<char>;

/// The language that a tree was parsed in.
pub uninterp spec fn tree_language(tree: &tree_sitter::Tree) -> Option<LanguageId>;

/// The root of the tree that a cursor walks.
pub uninterp spec fn cursor_root(cursor: &tree_sitter::TreeCursor<'_>) -> SyntaxNode;

/// The path from the root to where a cursor stands.
pub uninterp spec fn cursor_path(cursor: &tree_sitter::TreeCursor<'_>) -> Seq<int>;

/// Whether tree-sitter accepts the grammar of a language.
pub uninterp spec fn grammar_loads(language: LanguageId) -> bool;

/// How many node kinds the grammar of a language has.
pub uninterp spec fn kind_count(language: LanguageId) -> nat;

/// The name that the grammar of a language has for a node kind.
pub uninterp spec fn kind_name(language: LanguageId, id: u16) -> Option<Seq<char>>;

/// The tree was parsed from the text in the language, and lies over the text.
pub open spec fn is_tree_of(
    tree: tree_sitter::Tree,
    source: Seq<char>,
    language: LanguageId,
) -> bool {
    &&& tree_text(&tree) == source
    &&& tree_language(&tree) == Some(language)
    &&& placed(tree_root(&tree), 0, encode_utf8(source).len() as int)
}

/// The node where a cursor stands.
pub open spec fn cursor_node(cursor: &tree_sitter::TreeCursor<'_>) -> SyntaxNode {
    node_at(cursor_root(cursor), cursor_path(cursor))
}

/// Converts the constant `tree_sitter_rust::LANGUAGE`, the grammar of Rust.
#[verifier::external_body]
fn rust_grammar() -> (grammar: tree_sitter::Language)
    ensures
        grammar_id(&grammar) == Some(LanguageId::Rust),
{
    tree_sitter_rust::LANGUAGE.into()
}

/// Converts the constant `tree_sitter_python::LANGUAGE`, the grammar of Python.
#[verifier::external_body]
fn python_grammar() -> (grammar: tree_sitter::Language)
    ensures
        grammar_id(&grammar) == Some(LanguageId::Python),
{
    tree_sitter_python::LANGUAGE.into()
}

/// Converts the constant `tree_sitter_javascript::LANGUAGE`, the grammar of JavaScript.
#[verifier::external_body]
fn javascript_grammar() -> (grammar: tree_sitter::Language)
    ensures
        grammar_id(&grammar) == Some(LanguageId::JavaScript),
{
    tree_sitter_javascript::LANGUAGE.into()
}

/// Converts the constant `tree_sitter_typescript::LANGUAGE_TYPESCRIPT`, the grammar of TypeScript.
#[verifier::external_body]
fn typescript_grammar() -> (grammar: tree_sitter::Language)
    ensures
        grammar_id(&grammar) == Some(LanguageId::TypeScript),
{
    tree_sitter_typescript::LANGUAGE_TYPESCRIPT.into()
}

/// Converts the constant `tree_sitter_typescript::LANGUAGE_TSX`, the grammar of TSX.
#[verifier::external_body]
fn tsx_grammar() -> (grammar: tree_sitter::Language)
    ensures
        grammar_id(&grammar) == Some(LanguageId::Tsx),
{
    tree_sitter_typescript::LANGUAGE_TSX.into()
}

/// Converts the constant `tree_sitter_cpp::LANGUAGE`, the grammar of C++.
#[verifier::external_body]
fn cpp_grammar() -> (grammar: tree_sitter::Language)
    ensures
        grammar_id(&grammar) == Some(LanguageId::Cpp),
{
    tree_sitter_cpp::LANGUAGE.into()
}

impl LanguageId {
    /// The grammar of the language.
    pub fn grammar(self) -> (grammar: tree_sitter::Language)
        ensures
            grammar_id(&grammar) == Some(self),
    {
        match self {
            LanguageId::Rust => rust_grammar(),
            LanguageId::Python => python_grammar(),
            LanguageId::JavaScript => javascript_grammar(),
            LanguageId::TypeScript => typescript_grammar(),
            LanguageId::Tsx => tsx_grammar(),
            LanguageId::Cpp => cpp_grammar(),
        }
    }
}

/// Calls `tree_sitter::Language::node_kind_count`: how many node kinds there are depends on the
/// grammar alone.
#[verifier::external_body]
pub(crate) fn node_kind_count(grammar: &tree_sitter::Language) -> (count: usize)
    requires
        grammar_id(grammar) is Some,
    ensures
        count == kind_count(grammar_id(grammar)->0),
{
    grammar.node_kind_count()
}

/// Calls `tree_sitter::Language::node_kind_for_id`: the name of a node kind depends on the
/// grammar and the number of the kind alone.
#[verifier::external_body]
pub(crate) fn node_kind_for_id(grammar: &tree_sitter::Language, id: u16) -> (name: Option<&str>)
    requires
        grammar_id(grammar) is Some,
    ensures
        match name {
            Some(name) => kind_name(grammar_id(grammar)->0, id) == Some(name@),
            None => kind_name(grammar_id(grammar)->0, id) is None,
        },
{
    grammar.node_kind_for_id(id)
}

/// Calls `tree_sitter::Parser::new`: the parser is set to no language.
#[verifier::external_body]
pub(crate) fn new_parser() -> (parser: tree_sitter::Parser)
    ensures
        parser_language(&parser) is None,
{
    tree_sitter::Parser::new()
}

/// Calls `tree_sitter::Parser::set_language`: whether it succeeds depends on the grammar alone,
/// and where it does the parser is set to that grammar.
#[verifier::external_body]
pub(crate) fn set_language(
    parser: &mut tree_sitter::Parser,
    grammar: &tree_sitter::Language,
) -> (result: Result<(), tree_sitter::LanguageError>)
    requires
        grammar_id(grammar) is Some,
    ensures
        result is Ok == grammar_loads(grammar_id(grammar)->0),
        parser_language(final(parser)) == (if result is Ok {
            grammar_id(grammar)
        } else {
            parser_language(old(parser))
        }),
{
    parser.set_language(grammar)
}

/// Calls `tree_sitter::Parser::parse` without an earlier tree: a parser that is set to a language
/// and has no time limit always gives a tree. It is parsed from this text in this language, and
/// its nodes are laid out over the text from left to right, the children of a node within it.
/// Which nodes there are stays open: the scanners of some grammars ask the C library whether a
/// character is a space or a letter, and what that says depends on the locale.
#[verifier::external_body]
pub(crate) fn parse(parser: &mut tree_sitter::Parser, source: &str) -> (result: Option<
    tree_sitter::Tree,
>)
    requires
        parser_language(old(parser)) is Some,
        encode_utf8(source@).len() <= u32::MAX,
    ensures
        match result {
            Some(tree) => {
                &&& tree_text(&tree) == source@
                &&& tree_language(&tree) == parser_language(old(parser))
                &&& placed(tree_root(&tree), 0, encode_utf8(source@).len() as int)
            },
            None => false,
        },
        parser_language(final(parser)) == parser_language(old(parser)),
{
    parser.parse(source, None)
}

/// Calls `tree_sitter::Tree::walk`: the cursor stands at the root.
#[verifier::external_body]
pub(crate) fn walk<'tree>(tree: &'tree tree_sitter::Tree) -> (cursor: tree_sitter::TreeCursor<
    'tree,
>)
    ensures
        cursor_root(&cursor) == tree_root(tree),
        cursor_path(&cursor) == Seq::<int>::empty(),
{
    tree.walk()
}

/// Calls `tree_sitter::TreeCursor::node` and reads the node it returns, property by property.
#[verifier::external_body]
pub(crate) fn node_info<'tree>(cursor: &tree_sitter::TreeCursor<'tree>) -> (info: NodeInfo<'tree>)
    ensures
        describes(info, cursor_node(cursor)),
{
    let node = cursor.node();
    NodeInfo {
        extra: node.is_extra(),
        missing: node.is_missing(),
        error: node.is_error(),
        named: node.is_named(),
        kind_id: node.kind_id(),
        kind: node.kind(),
        start: node.start_byte(),
        end: node.end_byte(),
        child_count: node.child_count(),
    }
}

/// Calls `tree_sitter::TreeCursor::goto_first_child`: moves to the first child where there is one.
#[verifier::external_body]
pub(crate) fn goto_first_child(cursor: &mut tree_sitter::TreeCursor<'_>) -> (moved: bool)
    ensures
        cursor_root(final(cursor)) == cursor_root(old(cursor)),
        moved == (cursor_node(old(cursor)).children.len() > 0),
        cursor_path(final(cursor)) == (if moved {
            cursor_path(old(cursor)).push(0)
        } else {
            cursor_path(old(cursor))
        }),
{
    cursor.goto_first_child()
}

/// The node at the path has a sibling after it.
pub open spec fn has_next_sibling(root: SyntaxNode, path: Seq<int>) -> bool {
    path.len() > 0 && path.last() + 1 < node_at(root, path.drop_last()).children.len()
}

/// Calls `tree_sitter::TreeCursor::goto_next_sibling`: moves to the next child of the same parent
/// where there is one.
#[verifier::external_body]
pub(crate) fn goto_next_sibling(cursor: &mut tree_sitter::TreeCursor<'_>) -> (moved: bool)
    ensures
        cursor_root(final(cursor)) == cursor_root(old(cursor)),
        moved == has_next_sibling(cursor_root(old(cursor)), cursor_path(old(cursor))),
        cursor_path(final(cursor)) == (if moved {
            cursor_path(old(cursor)).drop_last().push(cursor_path(old(cursor)).last() + 1)
        } else {
            cursor_path(old(cursor))
        }),
{
    cursor.goto_next_sibling()
}

/// Calls `tree_sitter::TreeCursor::goto_parent`: moves to the parent, except from the root.
#[verifier::external_body]
pub(crate) fn goto_parent(cursor: &mut tree_sitter::TreeCursor<'_>) -> (moved: bool)
    ensures
        cursor_root(final(cursor)) == cursor_root(old(cursor)),
        moved == (cursor_path(old(cursor)).len() > 0),
        cursor_path(final(cursor)) == (if moved {
            cursor_path(old(cursor)).drop_last()
        } else {
            cursor_path(old(cursor))
        }),
{
    cursor.goto_parent()
}

} // verus!
