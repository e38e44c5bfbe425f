//! What tokens tell of the syntax tree that they come from: its leaves, and where its units stand.
use vstd::prelude::*;

use crate::language::LanguageId;
use crate::model::{Token, TokenKind};
use crate::syntax::SyntaxNode;

verus! {

/// The leaves below a node that hold text, from the first to the last, without comments and errors.
pub open spec fn leaves(node: SyntaxNode) -> Seq<SyntaxNode>
    decreases node, 0int,
{
    if node.extra || node.missing || node.error {
        Seq::empty()
    } else if node.children.len() == 0 {
        if node.start == node.end {
            Seq::empty()
        } else {
            seq![node]
        }
    } else {
        leaves_from(node.children, 0)
    }
}

/// The leaves below the nodes from the `i`-th on.
pub open spec fn leaves_from(nodes: Seq<SyntaxNode>, i: int) -> Seq<SyntaxNode>
    decreases nodes, nodes.len() - i,
{
    if 0 <= i < nodes.len() {
        leaves(nodes[i]) + leaves_from(nodes, i + 1)
    } else {
        Seq::empty()
    }
}

/// The name of the kind of a node: the grammar's, if it knows the kind, else the node's own.
pub open spec fn kind_of(language: LanguageId, node: SyntaxNode) -> Option<Seq<char>> {
    if node.kind_id < crate::syntax::kind_count(language) {
        crate::syntax::kind_name(language, node.kind_id)
    } else {
        Some(node.kind)
    }
}

/// The leaf opens a bracket.
pub open spec fn is_opening(node: SyntaxNode, bytes: Seq<u8>) -> bool {
    ||| seq!["("@, "["@, "{"@].contains(node.kind)
    ||| !seq![")"@, "]"@, "}"@].contains(node.kind) && node.named && node.end - node.start == 1
        && seq![40u8, 91u8, 123u8].contains(bytes[node.start as int])
}

/// The leaf closes a bracket.
pub open spec fn is_closing(node: SyntaxNode, bytes: Seq<u8>) -> bool {
    &&& !seq!["("@, "["@, "{"@].contains(node.kind)
    &&& {
        ||| seq![")"@, "]"@, "}"@].contains(node.kind)
        ||| node.named && node.end - node.start == 1 && seq![41u8, 93u8, 125u8].contains(
            bytes[node.start as int],
        )
    }
}

/// The token tells where a leaf stands, what it is, and whether it is a bracket.
pub open spec fn tells(
    token: Token,
    node: SyntaxNode,
    language: LanguageId,
    bytes: Seq<u8>,
) -> bool {
    &&& token.start == node.start as u32
    &&& token.end == node.end as u32
    &&& token.kind == (match kind_of(language, node) {
        Some(name) => match crate::tokenize::class_of(name) {
            TokenKind::Identifier => 0u8,
            TokenKind::Literal => 1u8,
            TokenKind::Fixed => 2u8,
        },
        None => 2u8,
    })
    &&& token.flags & 8 != 0 <==> is_opening(node, bytes)
    &&& token.flags & 16 != 0 <==> is_closing(node, bytes)
}

/// The tokens differ at most in the marks of units.
pub open spec fn same_leaf(a: Token, b: Token) -> bool {
    &&& a.start == b.start && a.end == b.end && a.kind == b.kind
    &&& a.flags & 8 == b.flags & 8 && a.flags & 16 == b.flags & 16
}

proof fn lemma_bits(flags: u8)
    ensures
        (flags | 1) & 1 != 0 && (flags | 1) & 2 == flags & 2 && (flags | 1) & 4 == flags & 4 && (
        flags | 1) & 8 == flags & 8 && (flags | 1) & 16 == flags & 16,
        (flags | 2) & 2 != 0 && (flags | 2) & 1 == flags & 1 && (flags | 2) & 4 == flags & 4 && (
        flags | 2) & 8 == flags & 8 && (flags | 2) & 16 == flags & 16,
        (flags | 4) & 4 != 0 && (flags | 4) & 1 == flags & 1 && (flags | 4) & 2 == flags & 2 && (
        flags | 4) & 8 == flags & 8 && (flags | 4) & 16 == flags & 16,
{
    assert((flags | 1) & 1 != 0 && (flags | 1) & 2 == flags & 2 && (flags | 1) & 4 == flags & 4 && (
    flags | 1) & 8 == flags & 8 && (flags | 1) & 16 == flags & 16 && (flags | 2) & 2 != 0 && (flags
        | 2) & 1 == flags & 1 && (flags | 2) & 4 == flags & 4 && (flags | 2) & 8 == flags & 8 && (
    flags | 2) & 16 == flags & 16 && (flags | 4) & 4 != 0 && (flags | 4) & 1 == flags & 1 && (flags
        | 4) & 2 == flags & 2 && (flags | 4) & 8 == flags & 8 && (flags | 4) & 16 == flags & 16)
        by (bit_vector);
}

proof fn lemma_bracket_bits()
    ensures
        0u8 & 1 == 0 && 0u8 & 2 == 0 && 0u8 & 4 == 0 && 0u8 & 8 == 0 && 0u8 & 16 == 0,
        8u8 & 1 == 0 && 8u8 & 2 == 0 && 8u8 & 4 == 0 && 8u8 & 8 != 0 && 8u8 & 16 == 0,
        16u8 & 1 == 0 && 16u8 & 2 == 0 && 16u8 & 4 == 0 && 16u8 & 8 == 0 && 16u8 & 16 != 0,
{
    assert(0u8 & 1 == 0 && 0u8 & 2 == 0 && 0u8 & 4 == 0 && 0u8 & 8 == 0 && 0u8 & 16 == 0 && 8u8 & 1
        == 0 && 8u8 & 2 == 0 && 8u8 & 4 == 0 && 8u8 & 8 != 0 && 8u8 & 16 == 0 && 16u8 & 1 == 0
        && 16u8 & 2 == 0 && 16u8 & 4 == 0 && 16u8 & 8 == 0 && 16u8 & 16 != 0) by (bit_vector);
}

proof fn lemma_leaf(node: SyntaxNode, language: LanguageId, bytes: Seq<u8>)
    ensures
        tells(crate::tokenize::token_of(node, language, bytes), node, language, bytes),
{
    lemma_bracket_bits();
    let opening = seq!["("@, "["@, "{"@];
    let closing = seq![")"@, "]"@, "}"@];
    assert(opening[0] == "("@ && opening[1] == "["@ && opening[2] == "{"@);
    assert(closing[0] == ")"@ && closing[1] == "]"@ && closing[2] == "}"@);
    let open_bytes = seq![40u8, 91u8, 123u8];
    let close_bytes = seq![41u8, 93u8, 125u8];
    assert(open_bytes[0] == 40 && open_bytes[1] == 91 && open_bytes[2] == 123);
    assert(close_bytes[0] == 41 && close_bytes[1] == 93 && close_bytes[2] == 125);
}

proof fn lemma_marked_leaves(tokens: Seq<Token>, first: int, kind_id: u16, language: LanguageId)
    requires
        0 <= first,
    ensures
        ({
            let after = crate::tokenize::marked(tokens, first, kind_id, language);
            &&& after.len() == tokens.len()
            &&& forall|k: int| 0 <= k < tokens.len() ==> same_leaf(#[trigger] after[k], tokens[k])
        }),
{
    let after = crate::tokenize::marked(tokens, first, kind_id, language);
    assert forall|k: int| 0 <= k < tokens.len() implies same_leaf(
        #[trigger] after[k],
        tokens[k],
    ) by {
        let flags = tokens[k].flags;
        lemma_bits(flags);
        lemma_bits(flags | 1);
        lemma_bits(flags | 4);
    }
}

proof fn lemma_tells_same(
    a: Token,
    b: Token,
    node: SyntaxNode,
    language: LanguageId,
    bytes: Seq<u8>,
)
    requires
        same_leaf(a, b),
        tells(b, node, language, bytes),
    ensures
        tells(a, node, language, bytes),
{
}

/// The tokens of a node are its leaves, one by one and in order.
pub proof fn tokens_are_the_leaves(
    node: SyntaxNode,
    language: LanguageId,
    bytes: Seq<u8>,
    tokens: Seq<Token>,
)
    ensures
        ({
            let after = crate::tokenize::collected(node, language, bytes, tokens);
            &&& after.len() == tokens.len() + leaves(node).len()
            &&& forall|k: int| 0 <= k < tokens.len() ==> same_leaf(#[trigger] after[k], tokens[k])
            &&& forall|k: int|
                0 <= k < leaves(node).len() ==> tells(
                    #[trigger] after[tokens.len() + k],
                    leaves(node)[k],
                    language,
                    bytes,
                )
        }),
    decreases node, 0int,
{
    if crate::tokenize::is_skipped(node) {
    } else if node.children.len() == 0 {
        lemma_leaf(node, language, bytes);
    } else {
        let all = crate::tokenize::collected_from(node.children, 0, language, bytes, tokens);
        let after = crate::tokenize::collected(node, language, bytes, tokens);
        lemma_tokens_from(node.children, 0, language, bytes, tokens);
        lemma_marked_leaves(all, tokens.len() as int, node.kind_id, language);
        assert forall|k: int| 0 <= k < leaves(node).len() implies tells(
            #[trigger] after[tokens.len() + k],
            leaves(node)[k],
            language,
            bytes,
        ) by {
            assert(same_leaf(after[tokens.len() + k], all[tokens.len() + k]));
            lemma_tells_same(
                after[tokens.len() + k],
                all[tokens.len() + k],
                leaves(node)[k],
                language,
                bytes,
            );
        }
        assert forall|k: int| 0 <= k < tokens.len() implies same_leaf(
            #[trigger] after[k],
            tokens[k],
        ) by {
            assert(same_leaf(after[k], all[k]));
        }
    }
}

#[verifier::rlimit(30)]
#[verifier::spinoff_prover]
proof fn lemma_tokens_from(
    nodes: Seq<SyntaxNode>,
    i: int,
    language: LanguageId,
    bytes: Seq<u8>,
    tokens: Seq<Token>,
)
    ensures
        ({
            let after = crate::tokenize::collected_from(nodes, i, language, bytes, tokens);
            &&& after.len() == tokens.len() + leaves_from(nodes, i).len()
            &&& forall|k: int| 0 <= k < tokens.len() ==> same_leaf(#[trigger] after[k], tokens[k])
            &&& forall|k: int|
                0 <= k < leaves_from(nodes, i).len() ==> tells(
                    #[trigger] after[tokens.len() + k],
                    leaves_from(nodes, i)[k],
                    language,
                    bytes,
                )
        }),
    decreases nodes, nodes.len() - i,
{
    if 0 <= i < nodes.len() {
        let next = crate::tokenize::collected(nodes[i], language, bytes, tokens);
        let after = crate::tokenize::collected_from(nodes, i, language, bytes, tokens);
        tokens_are_the_leaves(nodes[i], language, bytes, tokens);
        lemma_tokens_from(nodes, i + 1, language, bytes, next);
        let own = leaves(nodes[i]);
        let rest = leaves_from(nodes, i + 1);
        assert forall|k: int| 0 <= k < tokens.len() implies same_leaf(
            #[trigger] after[k],
            tokens[k],
        ) by {
            assert(same_leaf(after[k], next[k]));
            assert(same_leaf(next[k], tokens[k]));
        }
        assert forall|k: int| 0 <= k < leaves_from(nodes, i).len() implies tells(
            #[trigger] after[tokens.len() + k],
            leaves_from(nodes, i)[k],
            language,
            bytes,
        ) by {
            if k < own.len() {
                assert(same_leaf(after[tokens.len() + k], next[tokens.len() + k]));
                lemma_tells_same(
                    after[tokens.len() + k],
                    next[tokens.len() + k],
                    own[k],
                    language,
                    bytes,
                );
            } else {
                assert(after[next.len() + (k - own.len())] == after[tokens.len() + k]);
                assert(leaves_from(nodes, i)[k] == rest[k - own.len()]);
            }
        }
    }
}

/// Where the units below a node stand among the tokens, if its own first token is the one at `at`:
/// the first token, one past the last, and whether it is a container.
pub open spec fn units_below(node: SyntaxNode, language: LanguageId, at: int) -> Seq<
    (int, int, bool),
>
    decreases node, 0int,
{
    if node.extra || node.missing || node.error || node.children.len() == 0 {
        Seq::empty()
    } else {
        let inner = units_from(node.children, 0, language, at);
        let count = leaves(node).len();
        if crate::tokenize::is_unit_id(language, node.kind_id as int) && count > 0 {
            inner.push(
                (
                    at,
                    at + count,
                    crate::tokenize::is_container_id(language, node.kind_id as int),
                ),
            )
        } else {
            inner
        }
    }
}

/// Where the units below the nodes from the `i`-th on stand.
pub open spec fn units_from(nodes: Seq<SyntaxNode>, i: int, language: LanguageId, at: int) -> Seq<
    (int, int, bool),
>
    decreases nodes, nodes.len() - i,
{
    if 0 <= i < nodes.len() {
        units_below(nodes[i], language, at) + units_from(
            nodes,
            i + 1,
            language,
            at + leaves(nodes[i]).len(),
        )
    } else {
        Seq::empty()
    }
}

/// One of the units begins with this token.
pub open spec fn begins_at(
    units: Seq<(int, int, bool)>,
    u: int,
    at: int,
    is_container: bool,
) -> bool {
    0 <= u < units.len() && units[u].0 == at && units[u].2 == is_container
}

/// One of the units ends with this token.
pub open spec fn ends_at(units: Seq<(int, int, bool)>, u: int, at: int) -> bool {
    0 <= u < units.len() && units[u].1 == at + 1
}

/// The token is marked as the first of a unit exactly if one begins with it, and tells where the
/// widest of those ends; likewise of containers.
pub open spec fn begin_marked(token: Token, at: int, units: Seq<(int, int, bool)>) -> bool {
    &&& token.flags & 1 != 0 <==> exists|u: int| begins_at(units, u, at, false)
    &&& token.flags & 4 != 0 <==> exists|u: int| begins_at(units, u, at, true)
    &&& token.flags & 1 != 0 ==> exists|u: int| #[trigger]
        begins_at(units, u, at, false) && units[u].1 == token.unit_end_of_start
    &&& token.flags & 4 != 0 ==> exists|u: int| #[trigger]
        begins_at(units, u, at, true) && units[u].1 == token.container_end_of_start
    &&& forall|u: int| #[trigger]
        begins_at(units, u, at, false) ==> units[u].1 <= token.unit_end_of_start
    &&& forall|u: int| #[trigger]
        begins_at(units, u, at, true) ==> units[u].1 <= token.container_end_of_start
    &&& token.flags & 1 == 0 ==> token.unit_end_of_start == 0
    &&& token.flags & 4 == 0 ==> token.container_end_of_start == 0
}

/// The token is marked as the last of a unit exactly if one ends with it, and tells where the
/// widest of those begins.
pub open spec fn end_marked(token: Token, at: int, units: Seq<(int, int, bool)>) -> bool {
    &&& token.flags & 2 != 0 <==> exists|u: int| ends_at(units, u, at)
    &&& token.flags & 2 != 0 ==> exists|u: int| #[trigger]
        ends_at(units, u, at) && units[u].0 == token.unit_start_of_end
    &&& forall|u: int| #[trigger] ends_at(units, u, at) ==> token.unit_start_of_end <= units[u].0
    &&& token.flags & 2 == 0 ==> token.unit_start_of_end == 0xffff_ffff
}

/// The units stand among so many tokens.
pub open spec fn stand_among(units: Seq<(int, int, bool)>, count: int) -> bool {
    forall|u: int| 0 <= u < units.len() ==> 0 <= (#[trigger] units[u]).0 < units[u].1 <= count
}

/// The tokens tell of these units, and of no others.
pub open spec fn tell_units(tokens: Seq<Token>, units: Seq<(int, int, bool)>) -> bool {
    &&& stand_among(units, tokens.len() as int)
    &&& forall|i: int| 0 <= i < tokens.len() ==> begin_marked(#[trigger] tokens[i], i, units)
    &&& forall|i: int| 0 <= i < tokens.len() ==> end_marked(#[trigger] tokens[i], i, units)
}

proof fn lemma_leaf_marks(
    tokens: Seq<Token>,
    node: SyntaxNode,
    language: LanguageId,
    bytes: Seq<u8>,
    units: Seq<(int, int, bool)>,
)
    requires
        tell_units(tokens, units),
    ensures
        tell_units(crate::tokenize::with_leaf(tokens, node, language, bytes), units),
{
    lemma_bracket_bits();
    let after = crate::tokenize::with_leaf(tokens, node, language, bytes);
    if node.start != node.end {
        let n = tokens.len() as int;
        assert forall|u: int, container: bool| !#[trigger] begins_at(units, u, n, container) by {
            if 0 <= u < units.len() {
                assert(units[u].0 < units[u].1);
            }
        }
        assert forall|u: int| !#[trigger] ends_at(units, u, n) by {
            if 0 <= u < units.len() {
                assert(units[u].1 <= n);
            }
        }
        assert forall|i: int| 0 <= i < after.len() implies begin_marked(#[trigger] after[i], i, units)
            && end_marked(after[i], i, units) by {
            if i < n {
                assert(after[i] == tokens[i]);
            }
        }
    }
}

proof fn lemma_begin_kept(token: Token, at: int, units: Seq<(int, int, bool)>, unit: (int, int, bool))
    requires
        begin_marked(token, at, units),
        unit.0 != at,
    ensures
        begin_marked(token, at, units.push(unit)),
{
    let more = units.push(unit);
    assert forall|u: int, container: bool| #[trigger]
        begins_at(more, u, at, container) <==> begins_at(units, u, at, container) by {}
    assert forall|u: int, container: bool| #[trigger] begins_at(units, u, at, container) implies
        begins_at(more, u, at, container) && more[u] == units[u] by {}
    if token.flags & 1 != 0 {
        let w = choose|w: int| #[trigger]
            begins_at(units, w, at, false) && units[w].1 == token.unit_end_of_start;
        assert(begins_at(more, w, at, false));
    }
    if token.flags & 4 != 0 {
        let w = choose|w: int| #[trigger]
            begins_at(units, w, at, true) && units[w].1 == token.container_end_of_start;
        assert(begins_at(more, w, at, true));
    }
}

proof fn lemma_end_kept(token: Token, at: int, units: Seq<(int, int, bool)>, unit: (int, int, bool))
    requires
        end_marked(token, at, units),
        unit.1 != at + 1,
    ensures
        end_marked(token, at, units.push(unit)),
{
    let more = units.push(unit);
    assert forall|u: int| #[trigger] ends_at(more, u, at) <==> ends_at(units, u, at) by {}
    assert forall|u: int| #[trigger] ends_at(units, u, at) implies ends_at(more, u, at) && more[u]
        == units[u] by {}
    if token.flags & 2 != 0 {
        let w = choose|w: int| #[trigger]
            ends_at(units, w, at) && units[w].0 == token.unit_start_of_end;
        assert(ends_at(more, w, at));
    }
}

#[verifier::rlimit(30)]
#[verifier::spinoff_prover]
proof fn lemma_begin_added(
    token: Token,
    at: int,
    units: Seq<(int, int, bool)>,
    end: int,
    is_container: bool,
)
    requires
        begin_marked(token, at, units),
        0 < end <= u32::MAX,
    ensures
        begin_marked(
            crate::tokenize::opened(token, is_container, end),
            at,
            units.push((at, end, is_container)),
        ),
{
    lemma_bits(token.flags);
    let more = units.push((at, end, is_container));
    let after = crate::tokenize::opened(token, is_container, end);
    let n = units.len() as int;
    assert(begins_at(more, n, at, is_container));
    assert forall|u: int, container: bool| #[trigger] begins_at(units, u, at, container) implies
        begins_at(more, u, at, container) && more[u] == units[u] by {}
    assert forall|u: int, container: bool| #[trigger]
        begins_at(more, u, at, container) && u != n implies begins_at(units, u, at, container)
        && more[u] == units[u] by {}
    if is_container {
        if token.flags & 4 != 0 {
            let w = choose|w: int| #[trigger]
                begins_at(units, w, at, true) && units[w].1 == token.container_end_of_start;
            assert(begins_at(more, w, at, true));
        }
        if token.flags & 1 != 0 {
            let w = choose|w: int| #[trigger]
                begins_at(units, w, at, false) && units[w].1 == token.unit_end_of_start;
            assert(begins_at(more, w, at, false));
        }
    } else {
        if token.flags & 1 != 0 {
            let w = choose|w: int| #[trigger]
                begins_at(units, w, at, false) && units[w].1 == token.unit_end_of_start;
            assert(begins_at(more, w, at, false));
        }
        if token.flags & 4 != 0 {
            let w = choose|w: int| #[trigger]
                begins_at(units, w, at, true) && units[w].1 == token.container_end_of_start;
            assert(begins_at(more, w, at, true));
        }
    }
}

proof fn lemma_end_added(
    token: Token,
    at: int,
    units: Seq<(int, int, bool)>,
    first: int,
    is_container: bool,
)
    requires
        end_marked(token, at, units),
        0 <= first <= at < u32::MAX,
    ensures
        end_marked(
            crate::tokenize::closed_at(token, first),
            at,
            units.push((first, at + 1, is_container)),
        ),
{
    lemma_bits(token.flags);
    let more = units.push((first, at + 1, is_container));
    let n = units.len() as int;
    assert(ends_at(more, n, at));
    assert forall|u: int| #[trigger] ends_at(units, u, at) implies ends_at(more, u, at) && more[u]
        == units[u] by {}
    assert forall|u: int| #[trigger] ends_at(more, u, at) && u != n implies ends_at(units, u, at)
        && more[u] == units[u] by {}
    if token.flags & 2 != 0 {
        let w = choose|w: int| #[trigger]
            ends_at(units, w, at) && units[w].0 == token.unit_start_of_end;
        assert(ends_at(more, w, at));
    }
}

#[verifier::rlimit(30)]
#[verifier::spinoff_prover]
proof fn lemma_marked_marks(
    tokens: Seq<Token>,
    first: int,
    kind_id: u16,
    language: LanguageId,
    units: Seq<(int, int, bool)>,
)
    requires
        tell_units(tokens, units),
        0 <= first < tokens.len() <= u32::MAX,
        crate::tokenize::is_unit_id(language, kind_id as int),
    ensures
        tell_units(
            crate::tokenize::marked(tokens, first, kind_id, language),
            units.push(
                (
                    first,
                    tokens.len() as int,
                    crate::tokenize::is_container_id(language, kind_id as int),
                ),
            ),
        ),
{
    let end = tokens.len() as int;
    let is_container = crate::tokenize::is_container_id(language, kind_id as int);
    let unit = (first, end, is_container);
    let more = units.push(unit);
    let after = crate::tokenize::marked(tokens, first, kind_id, language);
    assert forall|i: int| 0 <= i < after.len() implies begin_marked(#[trigger] after[i], i, more)
        && end_marked(after[i], i, more) by {
        let token = tokens[i];
        let opened = if i == first {
            crate::tokenize::opened(token, is_container, end)
        } else {
            token
        };
        let closed = if i == end - 1 {
            crate::tokenize::closed_at(opened, first)
        } else {
            opened
        };
        assert(after[i] == closed);
        lemma_bits(token.flags);
        lemma_bits(opened.flags);
        if i == first {
            lemma_begin_added(token, i, units, end, is_container);
        } else {
            lemma_begin_kept(token, i, units, unit);
        }
        assert(end_marked(opened, i, units));
        if i == end - 1 {
            lemma_end_added(opened, i, units, first, is_container);
        } else {
            lemma_end_kept(opened, i, units, unit);
        }
    }
    assert forall|u: int| 0 <= u < more.len() implies 0 <= (#[trigger] more[u]).0 < more[u].1
        <= after.len() by {
        if u < units.len() {
            assert(more[u] == units[u]);
        }
    }
}

proof fn lemma_collected_marks(
    node: SyntaxNode,
    language: LanguageId,
    bytes: Seq<u8>,
    tokens: Seq<Token>,
    units: Seq<(int, int, bool)>,
)
    requires
        tell_units(tokens, units),
        tokens.len() + leaves(node).len() <= u32::MAX,
    ensures
        tell_units(
            crate::tokenize::collected(node, language, bytes, tokens),
            units + units_below(node, language, tokens.len() as int),
        ),
    decreases node, 0int,
{
    let at = tokens.len() as int;
    let below = units_below(node, language, at);
    tokens_are_the_leaves(node, language, bytes, tokens);
    if crate::tokenize::is_skipped(node) {
        assert(units + below =~= units);
    } else if node.children.len() == 0 {
        assert(units + below =~= units);
        lemma_leaf_marks(tokens, node, language, bytes, units);
    } else {
        let all = crate::tokenize::collected_from(node.children, 0, language, bytes, tokens);
        let inner = units_from(node.children, 0, language, at);
        lemma_tokens_from(node.children, 0, language, bytes, tokens);
        lemma_collected_marks_from(node.children, 0, language, bytes, tokens, units);
        if crate::tokenize::is_unit_id(language, node.kind_id as int) && leaves(node).len() > 0 {
            lemma_marked_marks(all, at, node.kind_id, language, units + inner);
            assert(units + below =~= (units + inner).push(below.last()));
        }
    }
}

proof fn lemma_collected_marks_from(
    nodes: Seq<SyntaxNode>,
    i: int,
    language: LanguageId,
    bytes: Seq<u8>,
    tokens: Seq<Token>,
    units: Seq<(int, int, bool)>,
)
    requires
        tell_units(tokens, units),
        tokens.len() + leaves_from(nodes, i).len() <= u32::MAX,
    ensures
        tell_units(
            crate::tokenize::collected_from(nodes, i, language, bytes, tokens),
            units + units_from(nodes, i, language, tokens.len() as int),
        ),
    decreases nodes, nodes.len() - i,
{
    let at = tokens.len() as int;
    if 0 <= i < nodes.len() {
        let next = crate::tokenize::collected(nodes[i], language, bytes, tokens);
        let own = units_below(nodes[i], language, at);
        let rest = units_from(nodes, i + 1, language, at + leaves(nodes[i]).len());
        tokens_are_the_leaves(nodes[i], language, bytes, tokens);
        lemma_collected_marks(nodes[i], language, bytes, tokens, units);
        lemma_collected_marks_from(nodes, i + 1, language, bytes, next, units + own);
        assert((units + own) + rest =~= units + (own + rest));
    } else {
        assert(units + units_from(nodes, i, language, at) =~= units);
    }
}

/// The tokens of a tree tell where its units stand: a token is marked as the first or the last of
/// a unit exactly if one begins or ends with it, and tells how far the widest of those reaches.
pub proof fn tokens_tell_where_units_stand(root: SyntaxNode, language: LanguageId, bytes: Seq<u8>)
    requires
        leaves(root).len() <= u32::MAX,
    ensures
        tell_units(
            crate::tokenize::collected(root, language, bytes, Seq::empty()),
            units_below(root, language, 0),
        ),
{
    let none = Seq::<Token>::empty();
    let no_units = Seq::<(int, int, bool)>::empty();
    assert(tell_units(none, no_units));
    lemma_collected_marks(root, language, bytes, none, no_units);
    assert(no_units + units_below(root, language, 0) =~= units_below(root, language, 0));
}

} // verus!
