//! Token hashes and their rename-invariant encodings.
use std::collections::HashMap;
use vstd::prelude::*;
use vstd::slice::slice_subrange;
use vstd::utf8::encode_utf8;

use crate::bytes::push_u64;
pub use crate::fast_hash::FastHasher;
use crate::model::{Token, TokenKind};

verus! {

broadcast use vstd::std_specs::hash::group_hash_axioms;

/// The two top bits of a token hash, which hold the class of the token.
pub const TAG_MASK: u64 = 0xC000_0000_0000_0000;

pub const FIXED_TAG: u64 = 0;

pub const IDENTIFIER_TAG: u64 = 0x4000_0000_0000_0000;

pub const LITERAL_TAG: u64 = 0x8000_0000_0000_0000;

/// Stands for any token whose text does not matter.
pub const PARAM_TAG: u64 = 0xC000_0000_0000_0000;

pub const FIXED_BITS: u64 = 0;

pub const IDENTIFIER_BITS: u64 = 1;

pub const LITERAL_BITS: u64 = 2;

const FINGERPRINT_MIX: u64 = 0x9E37_79B9_7F4A_7C15;

/// What `xxhash_rust::xxh3::xxh3_64` returns on a byte sequence.
pub uninterp spec fn xxh3(bytes: Seq<u8>) -> u64;

/// Calls `xxhash_rust::xxh3::xxh3_64`: the hash is a function of the bytes alone.
#[verifier::external_body]
pub(crate) fn xxh3_64(bytes: &[u8]) -> (hash: u64)
    ensures
        hash == xxh3(bytes@),
{
    xxhash_rust::xxh3::xxh3_64(bytes)
}

/// The tag of a token kind.
#[verifier::allow_in_spec]
pub fn kind_tag(kind: u8) -> u64
    returns
        (match TokenKind::from_u8(kind) {
            Some(TokenKind::Identifier) => IDENTIFIER_TAG,
            Some(TokenKind::Literal) => LITERAL_TAG,
            _ => FIXED_TAG,
        }),
{
    match TokenKind::from_u8(kind) {
        Some(TokenKind::Identifier) => IDENTIFIER_TAG,
        Some(TokenKind::Literal) => LITERAL_TAG,
        _ => FIXED_TAG,
    }
}

/// The hash of a token: the hash of its text below the tag of its kind.
pub open spec fn token_hash(text: Seq<u8>, token: Token) -> u64 {
    (xxh3(text.subrange(token.start as int, token.end as int)) & !TAG_MASK) | kind_tag(token.kind)
}

/// The hashes of all tokens.
pub open spec fn hashes_of(text: Seq<u8>, tokens: Seq<Token>) -> Seq<u64> {
    tokens.map_values(|token: Token| token_hash(text, token))
}

/// The token lies within a text of `len` bytes.
pub open spec fn token_within(token: Token, len: nat) -> bool {
    token.start <= token.end <= len
}

/// Hashes every token by its text and its kind.
pub fn token_hashes(text: &str, tokens: &[Token]) -> (hashes: Vec<u64>)
    requires
        forall|i: int|
            0 <= i < tokens@.len() ==> token_within(#[trigger] tokens@[i], encode_utf8(text@).len()),
    ensures
        hashes@ == hashes_of(encode_utf8(text@), tokens@),
{
    let bytes = text.as_bytes();
    let mut hashes: Vec<u64> = Vec::new();
    let mut i: usize = 0;
    while i < tokens.len()
        invariant
            bytes@ == encode_utf8(text@),
            forall|i: int|
                0 <= i < tokens@.len() ==> token_within(
                    #[trigger] tokens@[i],
                    encode_utf8(text@).len(),
                ),
            i <= tokens@.len(),
            hashes@ == hashes_of(bytes@, tokens@).take(i as int),
        decreases tokens@.len() - i,
    {
        let token = tokens[i];
        assert(token_within(tokens@[i as int], bytes@.len()));
        let raw = xxh3_64(slice_subrange(bytes, token.start as usize, token.end as usize));
        hashes.push((raw & !TAG_MASK) | kind_tag(token.kind));
        i = i + 1;
        assert(hashes@ =~= hashes_of(bytes@, tokens@).take(i as int));
    }
    assert(hashes@ =~= hashes_of(bytes@, tokens@));
    hashes
}

/// The last position in `start..end` that holds `key`.
pub open spec fn last_before(hashes: Seq<u64>, start: int, end: int, key: u64) -> Option<int>
    decreases end - start,
{
    if end <= start {
        None
    } else if hashes[end - 1] == key {
        Some(end - 1)
    } else {
        last_before(hashes, start, end - 1, key)
    }
}

pub proof fn lemma_last_before(hashes: Seq<u64>, start: int, end: int, key: u64)
    requires
        start <= end,
    ensures
        match last_before(hashes, start, end, key) {
            Some(p) => start <= p < end && hashes[p] == key && forall|q: int|
                p < q < end ==> #[trigger] hashes[q] != key,
            None => forall|q: int| start <= q < end ==> #[trigger] hashes[q] != key,
        },
    decreases end - start,
{
    if start < end {
        if hashes[end - 1] != key {
            lemma_last_before(hashes, start, end - 1, key);
        }
    }
}

/// How far back from `index` the same hash last stood, at or after `start`; 0 if it did not.
pub open spec fn distance(hashes: Seq<u64>, start: int, index: int) -> int {
    match last_before(hashes, start, index, hashes[index]) {
        Some(p) => index - p,
        None => 0,
    }
}

/// A distance below the tag of its token.
pub open spec fn tagged(distance: int, tag: u64) -> u64 {
    ((distance as u64) & !TAG_MASK) | tag
}

/// The token's text does not count in window signatures, only where it last stood.
pub open spec fn is_abstracted(hash: u64, parameterize_literals: bool) -> bool {
    hash >> 62 == IDENTIFIER_BITS || (hash >> 62 == LITERAL_BITS && parameterize_literals) || hash
        == PARAM_TAG
}

/// What stands for the token at `index` in the signature of the window that begins at `start`.
pub open spec fn window_value(
    hashes: Seq<u64>,
    start: int,
    index: int,
    parameterize_literals: bool,
) -> u64 {
    if is_abstracted(hashes[index], parameterize_literals) {
        tagged(distance(hashes, start, index), hashes[index] & TAG_MASK)
    } else {
        hashes[index]
    }
}

/// The bytes of the first `n` values of the window that begins at `start`.
pub open spec fn window_bytes(
    hashes: Seq<u64>,
    start: int,
    n: int,
    parameterize_literals: bool,
) -> Seq<u8>
    decreases n,
{
    if n <= 0 {
        Seq::empty()
    } else {
        window_bytes(hashes, start, n - 1, parameterize_literals) + crate::bytes::le_u64(
            window_value(hashes, start, start + n - 1, parameterize_literals),
        )
    }
}

/// The signature of every window of `window` tokens, in order.
pub open spec fn signatures_of(
    hashes: Seq<u64>,
    window: int,
    parameterize_literals: bool,
) -> Seq<u64> {
    if window <= 0 || hashes.len() < window {
        Seq::empty()
    } else {
        Seq::new(
            (hashes.len() - window + 1) as nat,
            |start: int| xxh3(window_bytes(hashes, start, window, parameterize_literals)),
        )
    }
}

/// For every position the last earlier position with the same hash, or `u32::MAX`.
fn previous_positions(hashes: &[u64]) -> (previous: Vec<u32>)
    requires
        hashes@.len() <= u32::MAX,
    ensures
        previous@.len() == hashes@.len(),
        forall|i: int|
            0 <= i < hashes@.len() ==> #[trigger] previous@[i] == (match last_before(
                hashes@,
                0,
                i,
                hashes@[i],
            ) {
                Some(p) => p,
                None => u32::MAX as int,
            }),
{
    let mut last_position: HashMap<u64, u32> = HashMap::new();
    let mut previous: Vec<u32> = Vec::new();
    let mut index: usize = 0;
    while index < hashes.len()
        invariant
            hashes@.len() <= u32::MAX,
            index <= hashes@.len(),
            previous@.len() == index,
            forall|k: u64| #[trigger]
                last_position@.dom().contains(k) == last_before(hashes@, 0, index as int, k).is_some(),
            forall|k: u64| #[trigger]
                last_position@.dom().contains(k) ==> last_before(hashes@, 0, index as int, k) == Some(
                    last_position@[k] as int,
                ),
            forall|i: int|
                0 <= i < index ==> #[trigger] previous@[i] == (match last_before(
                    hashes@,
                    0,
                    i,
                    hashes@[i],
                ) {
                    Some(p) => p,
                    None => u32::MAX as int,
                }),
        decreases hashes@.len() - index,
    {
        let key = hashes[index];
        assert(last_position@.dom().contains(key) == last_before(
            hashes@,
            0,
            index as int,
            key,
        ).is_some());
        let position: u32 = match last_position.get(&key) {
            Some(position) => *position,
            None => u32::MAX,
        };
        previous.push(position);
        last_position.insert(key, index as u32);
        index = index + 1;
    }
    previous
}

fn parameterized(
    previous: u32,
    start: usize,
    index: usize,
    tag: u64,
    Ghost(hashes): Ghost<Seq<u64>>,
) -> (value: u64)
    requires
        start <= index < hashes.len() <= u32::MAX,
        previous == (match last_before(hashes, 0, index as int, hashes[index as int]) {
            Some(p) => p,
            None => u32::MAX as int,
        }),
    ensures
        value == tagged(distance(hashes, start as int, index as int), tag),
{
    proof {
        lemma_last_before(hashes, 0, index as int, hashes[index as int]);
        lemma_last_before(hashes, start as int, index as int, hashes[index as int]);
    }
    let distance: u64 = if previous != u32::MAX && previous as usize >= start {
        (index - previous as usize) as u64
    } else {
        0
    };
    (distance & !TAG_MASK) | tag
}

/// The rename-invariant signature of every window of `window` tokens.
pub fn window_signatures(
    tokens: &[Token],
    hashes: &[u64],
    window: usize,
    parameterize_literals: bool,
) -> (signatures: Vec<u64>)
    requires
        hashes@.len() <= u32::MAX,
        0 < window <= tokens@.len() ==> window <= hashes@.len(),
    ensures
        signatures@ == (if tokens@.len() < window {
            Seq::empty()
        } else {
            signatures_of(hashes@, window as int, parameterize_literals)
        }),
{
    if window == 0 || tokens.len() < window {
        return Vec::new();
    }
    hash_signatures(hashes, window, parameterize_literals)
}

/// `window_signatures` for a file whose tokens are all hashed.
pub fn hash_signatures(hashes: &[u64], window: usize, parameterize_literals: bool) -> (signatures:
    Vec<u64>)
    requires
        hashes@.len() <= u32::MAX,
    ensures
        signatures@ == signatures_of(hashes@, window as int, parameterize_literals),
{
    let total: usize = hashes.len();
    let mut signatures: Vec<u64> = Vec::new();
    if window == 0 || total < window {
        return signatures;
    }
    let previous = previous_positions(hashes);
    let ghost expected = signatures_of(hashes@, window as int, parameterize_literals);
    let mut start: usize = 0;
    while start <= total - window
        invariant
            total == hashes@.len(),
            0 < window <= total <= u32::MAX,
            start <= total - window + 1,
            previous@.len() == total,
            forall|i: int|
                0 <= i < hashes@.len() ==> #[trigger] previous@[i] == (match last_before(
                    hashes@,
                    0,
                    i,
                    hashes@[i],
                ) {
                    Some(p) => p,
                    None => u32::MAX as int,
                }),
            expected == signatures_of(hashes@, window as int, parameterize_literals),
            signatures@ == expected.take(start as int),
        decreases total - start,
    {
        let mut bytes: Vec<u8> = Vec::new();
        let mut i: usize = 0;
        while i < window
            invariant
                total == hashes@.len(),
                i <= window <= total <= u32::MAX,
                start <= total - window,
                previous@.len() == total,
                forall|i: int|
                    0 <= i < hashes@.len() ==> #[trigger] previous@[i] == (match last_before(
                        hashes@,
                        0,
                        i,
                        hashes@[i],
                    ) {
                        Some(p) => p,
                        None => u32::MAX as int,
                    }),
                bytes@ == window_bytes(hashes@, start as int, i as int, parameterize_literals),
            decreases window - i,
        {
            let index: usize = start + i;
            let hash: u64 = hashes[index];
            let tag: u64 = hash >> 62;
            let value: u64 = if tag == IDENTIFIER_BITS || (tag == LITERAL_BITS
                && parameterize_literals) || hash == PARAM_TAG {
                parameterized(previous[index], start, index, hash & TAG_MASK, Ghost(hashes@))
            } else {
                hash
            };
            push_u64(&mut bytes, value);
            i = i + 1;
        }
        signatures.push(xxh3_64(bytes.as_slice()));
        start = start + 1;
        assert(signatures@ =~= expected.take(start as int));
    }
    assert(signatures@ =~= expected);
    signatures
}

/// The token may be renamed: an identifier, or a literal where literals are parameterized.
pub open spec fn is_parameter(hash: u64, parameterize_literals: bool) -> bool {
    hash >> 62 == IDENTIFIER_BITS || (hash >> 62 != FIXED_BITS && parameterize_literals)
}

/// The two tokens agree, up to a renaming of parameters.
pub open spec fn tokens_agree(x: u64, y: u64, parameterize_literals: bool) -> bool {
    x >> 62 == y >> 62 && (is_parameter(x, parameterize_literals) || x == y)
}

/// The two spans are the same up to a one-to-one renaming of their parameters.
pub open spec fn is_renaming(x: Seq<u64>, y: Seq<u64>, parameterize_literals: bool) -> bool {
    &&& x.len() == y.len()
    &&& forall|i: int|
        0 <= i < x.len() ==> tokens_agree(#[trigger] x[i], y[i], parameterize_literals)
    &&& forall|i: int, j: int|
        0 <= i < x.len() && 0 <= j < x.len() && is_parameter(#[trigger] x[i], parameterize_literals)
            && is_parameter(#[trigger] x[j], parameterize_literals) ==> (x[i] == x[j] <==> y[i]
            == y[j])
}

/// The tokens `start..start + len`.
pub open spec fn span(hashes: Seq<u64>, start: int, len: int) -> Seq<u64> {
    hashes.subrange(start, start + len)
}

/// Maps reused by the span comparisons.
pub struct SpanScratch {
    pub positions: HashMap<u64, usize>,
    pub forward: HashMap<u64, usize>,
    pub reverse: HashMap<u64, usize>,
}

impl SpanScratch {
    pub fn new() -> (scratch: Self)
        ensures
            scratch.positions@ == Map::<u64, usize>::empty(),
            scratch.forward@ == Map::<u64, usize>::empty(),
            scratch.reverse@ == Map::<u64, usize>::empty(),
    {
        SpanScratch { positions: HashMap::new(), forward: HashMap::new(), reverse: HashMap::new() }
    }
}

/// What a map of positions holds for `key`.
spec fn lookup(map: Map<u64, usize>, key: u64) -> Option<int> {
    if map.dom().contains(key) {
        Some(map[key] as int)
    } else {
        None
    }
}

/// `map` holds the last position below `n` of every selected hash of `x`, and nothing else.
spec fn holds_last(
    map: Map<u64, usize>,
    x: Seq<u64>,
    n: int,
    selected: spec_fn(u64) -> bool,
) -> bool {
    forall|k: u64| #[trigger]
        lookup(map, k) == (if selected(k) {
            last_before(x, 0, n, k)
        } else {
            None
        })
}

proof fn lemma_renaming_step(x: Seq<u64>, y: Seq<u64>, i: int, pl: bool)
    requires
        0 <= i < x.len(),
        x.len() == y.len(),
        is_renaming(x.take(i), y.take(i), pl),
    ensures
        is_renaming(x.take(i + 1), y.take(i + 1), pl) <==> tokens_agree(x[i], y[i], pl) && (
        is_parameter(x[i], pl) ==> last_before(x, 0, i, x[i]) == last_before(y, 0, i, y[i])),
{
    lemma_last_before(x, 0, i, x[i]);
    lemma_last_before(y, 0, i, y[i]);
    let x0 = x.take(i);
    let y0 = y.take(i);
    let x1 = x.take(i + 1);
    let y1 = y.take(i + 1);
    assert forall|q: int| 0 <= q < i implies x0[q] == x[q] && y0[q] == y[q] && tokens_agree(
        #[trigger] x[q],
        y[q],
        pl,
    ) by {
        assert(tokens_agree(x0[q], y0[q], pl));
    }
    if is_renaming(x1, y1, pl) {
        assert(tokens_agree(x1[i], y1[i], pl));
        if is_parameter(x[i], pl) {
            assert forall|q: int| 0 <= q < i implies (#[trigger] x[q] == x[i] <==> y[q] == y[i]) by {
                assert(x1[q] == x[q] && y1[q] == y[q]);
                assert(x1[i] == x[i] && y1[i] == y[i]);
                if y[q] == y[i] {
                    assert(is_parameter(x1[q], pl));
                }
            }
            match last_before(x, 0, i, x[i]) {
                Some(p) => {
                    assert(x[p] == x[i] <==> y[p] == y[i]);
                    let q = last_before(y, 0, i, y[i]).unwrap();
                    assert(x[q] == x[i] <==> y[q] == y[i]);
                },
                None => {
                    match last_before(y, 0, i, y[i]) {
                        Some(q) => {
                            assert(x[q] == x[i] <==> y[q] == y[i]);
                        },
                        None => {},
                    }
                },
            }
        }
    }
    if tokens_agree(x[i], y[i], pl) && (is_parameter(x[i], pl) ==> last_before(x, 0, i, x[i])
        == last_before(y, 0, i, y[i])) {
        if is_parameter(x[i], pl) {
            assert forall|q: int|
                0 <= q < i && is_parameter(#[trigger] x[q], pl) implies (x[q] == x[i] <==> y[q]
                == y[i]) by {
                match last_before(x, 0, i, x[i]) {
                    Some(p) => {
                        assert(x0[p] == x[p] && x0[q] == x[q]);
                        assert(y0[p] == y[p] && y0[q] == y[q]);
                        assert(x0[q] == x0[p] <==> y0[q] == y0[p]);
                        assert(y[p] == y[i]);
                    },
                    None => {
                        assert(x[q] != x[i]);
                        assert(y[q] != y[i]);
                    },
                }
            }
        }
        assert forall|a: int, b: int|
            0 <= a < x1.len() && 0 <= b < x1.len() && is_parameter(#[trigger] x1[a], pl)
                && is_parameter(#[trigger] x1[b], pl) implies (x1[a] == x1[b] <==> y1[a] == y1[b]) by {
            if a < i && b < i {
                assert(x0[a] == x[a] && x0[b] == x[b]);
            } else if a < i {
                assert(x1[a] == x[a] && x1[b] == x[i] && y1[a] == y[a] && y1[b] == y[i]);
            } else if b < i {
                assert(x1[b] == x[b] && x1[a] == x[i] && y1[b] == y[b] && y1[a] == y[i]);
            }
        }
        assert forall|a: int| 0 <= a < x1.len() implies tokens_agree(#[trigger] x1[a], y1[a], pl) by {
            if a < i {
                assert(x1[a] == x[a]);
            }
        }
    }
}

pub proof fn lemma_renaming_prefix(x: Seq<u64>, y: Seq<u64>, i: int, pl: bool)
    requires
        0 <= i <= x.len(),
        is_renaming(x, y, pl),
    ensures
        is_renaming(x.take(i), y.take(i), pl),
{
    let x0 = x.take(i);
    let y0 = y.take(i);
    assert forall|a: int| 0 <= a < x0.len() implies tokens_agree(#[trigger] x0[a], y0[a], pl) by {
        assert(x0[a] == x[a]);
    }
    assert forall|a: int, b: int|
        0 <= a < x0.len() && 0 <= b < x0.len() && is_parameter(#[trigger] x0[a], pl)
            && is_parameter(#[trigger] x0[b], pl) implies (x0[a] == x0[b] <==> y0[a] == y0[b]) by {
        assert(x0[a] == x[a] && x0[b] == x[b]);
    }
}

/// Records that `key` stands at `index`, and gives its last position before that.
fn note_position(
    map: &mut HashMap<u64, usize>,
    key: u64,
    index: usize,
    Ghost(x): Ghost<Seq<u64>>,
    Ghost(selected): Ghost<spec_fn(u64) -> bool>,
) -> (previous: Option<usize>)
    requires
        holds_last(old(map)@, x, index as int, selected),
        index < x.len(),
        x[index as int] == key,
        selected(key),
    ensures
        holds_last(final(map)@, x, index + 1, selected),
        match previous {
            Some(p) => last_before(x, 0, index as int, key) == Some(p as int),
            None => last_before(x, 0, index as int, key) is None,
        },
{
    let ghost before = map@;
    let previous = map.insert(key, index);
    proof {
        assert(lookup(before, key) == last_before(x, 0, index as int, key));
        assert forall|k: u64| #[trigger] lookup(map@, k) == (if selected(k) {
            last_before(x, 0, index + 1, k)
        } else {
            None
        }) by {
            assert(lookup(before, k) == (if selected(k) {
                last_before(x, 0, index as int, k)
            } else {
                None
            }));
        }
    }
    previous
}

proof fn lemma_holds_last_skip(
    map: Map<u64, usize>,
    x: Seq<u64>,
    index: int,
    selected: spec_fn(u64) -> bool,
)
    requires
        holds_last(map, x, index, selected),
        0 <= index < x.len(),
        !selected(x[index]),
    ensures
        holds_last(map, x, index + 1, selected),
{
    assert forall|k: u64| #[trigger] lookup(map, k) == (if selected(k) {
        last_before(x, 0, index + 1, k)
    } else {
        None
    }) by {
        assert(lookup(map, k) == (if selected(k) {
            last_before(x, 0, index, k)
        } else {
            None
        }));
    }
}

/// Whether two spans are the same up to a one-to-one renaming of their parameters.
pub fn spans_equal(
    scratch: &mut SpanScratch,
    hashes_a: &[u64],
    start_a: usize,
    hashes_b: &[u64],
    start_b: usize,
    len: usize,
    parameterize_literals: bool,
) -> (equal: bool)
    requires
        start_a + len <= hashes_a@.len(),
        start_b + len <= hashes_b@.len(),
    ensures
        equal == is_renaming(
            span(hashes_a@, start_a as int, len as int),
            span(hashes_b@, start_b as int, len as int),
            parameterize_literals,
        ),
{
    scratch.forward.clear();
    scratch.reverse.clear();
    let total_a: usize = hashes_a.len();
    let total_b: usize = hashes_b.len();
    let ghost x = span(hashes_a@, start_a as int, len as int);
    let ghost y = span(hashes_b@, start_b as int, len as int);
    let ghost selected = |k: u64| is_parameter(k, parameterize_literals);
    let mut i: usize = 0;
    while i < len
        invariant
            start_a + len <= hashes_a@.len(),
            start_b + len <= hashes_b@.len(),
            x == span(hashes_a@, start_a as int, len as int),
            y == span(hashes_b@, start_b as int, len as int),
            i <= len,
            is_renaming(x.take(i as int), y.take(i as int), parameterize_literals),
            holds_last(scratch.forward@, x, i as int, selected),
            holds_last(scratch.reverse@, y, i as int, selected),
            selected == (|k: u64| is_parameter(k, parameterize_literals)),
            start_a + len <= total_a,
            start_b + len <= total_b,
        decreases len - i,
    {
        let hash_a: u64 = hashes_a[start_a + i];
        let hash_b: u64 = hashes_b[start_b + i];
        assert(x[i as int] == hash_a && y[i as int] == hash_b);
        proof {
            lemma_renaming_step(x, y, i as int, parameterize_literals);
            if is_renaming(x, y, parameterize_literals) {
                lemma_renaming_prefix(x, y, i + 1, parameterize_literals);
            }
        }
        let tag: u64 = hash_a >> 62;
        if tag != hash_b >> 62 {
            return false;
        }
        proof {
            if !selected(hash_a) {
                lemma_holds_last_skip(scratch.forward@, x, i as int, selected);
                lemma_holds_last_skip(scratch.reverse@, y, i as int, selected);
            }
        }
        if tag == FIXED_BITS {
            if hash_a != hash_b {
                return false;
            }
        } else if tag == IDENTIFIER_BITS || parameterize_literals {
            let previous_a = note_position(
                &mut scratch.forward,
                hash_a,
                i,
                Ghost(x),
                Ghost(selected),
            );
            let previous_b = note_position(
                &mut scratch.reverse,
                hash_b,
                i,
                Ghost(y),
                Ghost(selected),
            );
            let same: bool = match (previous_a, previous_b) {
                (Some(p), Some(q)) => p == q,
                (None, None) => true,
                _ => false,
            };
            if !same {
                return false;
            }
        } else if hash_a != hash_b {
            return false;
        }
        i = i + 1;
    }
    assert(x.take(len as int) =~= x);
    assert(y.take(len as int) =~= y);
    true
}

/// The token's text does not count in span fingerprints, only where it last stood.
pub open spec fn is_fingerprinted_by_distance(hash: u64, parameterize_literals: bool) -> bool {
    hash >> 62 == IDENTIFIER_BITS || (hash >> 62 == LITERAL_BITS && parameterize_literals)
}

/// What stands for the token at `index` in the fingerprint of the span `x`.
pub open spec fn fingerprint_value(x: Seq<u64>, index: int, parameterize_literals: bool) -> u64 {
    if x[index] >> 62 == IDENTIFIER_BITS {
        tagged(distance(x, 0, index), IDENTIFIER_TAG)
    } else if x[index] >> 62 == LITERAL_BITS && parameterize_literals {
        tagged(distance(x, 0, index), LITERAL_TAG)
    } else {
        x[index]
    }
}

/// The bits of `value` rotated eleven places to the left.
pub open spec fn rotated(value: u64) -> u64 {
    (value << 11u64) | (value >> 53u64)
}

/// The fingerprint of the first `n` tokens of the span `x`.
pub open spec fn fingerprint_of(x: Seq<u64>, n: int, parameterize_literals: bool) -> u64
    decreases n,
{
    if n <= 0 {
        0
    } else {
        rotated(fingerprint_of(x, n - 1, parameterize_literals)).wrapping_mul(
            0x9E37_79B9_7F4A_7C15u64,
        ) ^ fingerprint_value(x, n - 1, parameterize_literals)
    }
}

/// Records that `key` stands at `index`, and encodes how far back it last stood.
fn distance_value(
    scratch: &mut SpanScratch,
    key: u64,
    index: usize,
    tag: u64,
    Ghost(x): Ghost<Seq<u64>>,
    Ghost(selected): Ghost<spec_fn(u64) -> bool>,
) -> (value: u64)
    requires
        holds_last(old(scratch).positions@, x, index as int, selected),
        index < x.len(),
        x[index as int] == key,
        selected(key),
    ensures
        holds_last(final(scratch).positions@, x, index + 1, selected),
        value == tagged(distance(x, 0, index as int), tag),
{
    proof {
        lemma_last_before(x, 0, index as int, key);
    }
    let previous = note_position(&mut scratch.positions, key, index, Ghost(x), Ghost(selected));
    let distance: u64 = match previous {
        Some(previous) => (index - previous) as u64,
        None => 0,
    };
    (distance & !TAG_MASK) | tag
}

/// A fingerprint that spans equal up to renaming have in common.
pub fn span_fingerprint(
    scratch: &mut SpanScratch,
    hashes: &[u64],
    start: usize,
    len: usize,
    parameterize_literals: bool,
) -> (fingerprint: u64)
    requires
        start + len <= hashes@.len(),
    ensures
        fingerprint == fingerprint_of(
            span(hashes@, start as int, len as int),
            len as int,
            parameterize_literals,
        ),
{
    scratch.positions.clear();
    let total: usize = hashes.len();
    let ghost x = span(hashes@, start as int, len as int);
    let ghost selected = |k: u64| is_fingerprinted_by_distance(k, parameterize_literals);
    let mut fingerprint: u64 = 0;
    let mut i: usize = 0;
    while i < len
        invariant
            start + len <= hashes@.len(),
            x == span(hashes@, start as int, len as int),
            i <= len,
            fingerprint == fingerprint_of(x, i as int, parameterize_literals),
            holds_last(scratch.positions@, x, i as int, selected),
            selected == (|k: u64| is_fingerprinted_by_distance(k, parameterize_literals)),
            start + len <= total,
        decreases len - i,
    {
        let hash: u64 = hashes[start + i];
        assert(x[i as int] == hash);
        let tag: u64 = hash >> 62;
        let value: u64 = if tag == IDENTIFIER_BITS {
            distance_value(
                scratch,
                hash,
                i,
                IDENTIFIER_TAG,
                Ghost(x),
                Ghost(selected),
            )
        } else if tag == LITERAL_BITS && parameterize_literals {
            distance_value(scratch, hash, i, LITERAL_TAG, Ghost(x), Ghost(selected))
        } else {
            proof {
                lemma_holds_last_skip(scratch.positions@, x, i as int, selected);
            }
            hash
        };
        fingerprint = ((fingerprint << 11u64) | (fingerprint >> 53u64)).wrapping_mul(
            FINGERPRINT_MIX,
        ) ^ value;
        i = i + 1;
    }
    fingerprint
}

/// Every span is a renaming of itself.
pub proof fn renaming_is_reflexive(x: Seq<u64>, parameterize_literals: bool)
    ensures
        is_renaming(x, x, parameterize_literals),
{
}

/// Renaming can be undone.
pub proof fn renaming_is_symmetric(x: Seq<u64>, y: Seq<u64>, parameterize_literals: bool)
    requires
        is_renaming(x, y, parameterize_literals),
    ensures
        is_renaming(y, x, parameterize_literals),
{
    assert forall|i: int| 0 <= i < y.len() implies tokens_agree(
        #[trigger] y[i],
        x[i],
        parameterize_literals,
    ) by {
        assert(tokens_agree(x[i], y[i], parameterize_literals));
    }
    assert forall|i: int, j: int|
        0 <= i < y.len() && 0 <= j < y.len() && is_parameter(#[trigger] y[i], parameterize_literals)
            && is_parameter(#[trigger] y[j], parameterize_literals) implies (y[i] == y[j] <==> x[i]
        == x[j]) by {
        assert(tokens_agree(x[i], y[i], parameterize_literals));
        assert(tokens_agree(x[j], y[j], parameterize_literals));
    }
}

/// Two renamings in a row are a renaming.
pub proof fn renaming_is_transitive(
    x: Seq<u64>,
    y: Seq<u64>,
    z: Seq<u64>,
    parameterize_literals: bool,
)
    requires
        is_renaming(x, y, parameterize_literals),
        is_renaming(y, z, parameterize_literals),
    ensures
        is_renaming(x, z, parameterize_literals),
{
    assert forall|i: int| 0 <= i < x.len() implies tokens_agree(
        #[trigger] x[i],
        z[i],
        parameterize_literals,
    ) by {
        assert(tokens_agree(x[i], y[i], parameterize_literals));
        assert(tokens_agree(y[i], z[i], parameterize_literals));
    }
    assert forall|i: int, j: int|
        0 <= i < x.len() && 0 <= j < x.len() && is_parameter(#[trigger] x[i], parameterize_literals)
            && is_parameter(#[trigger] x[j], parameterize_literals) implies (x[i] == x[j] <==> z[i]
        == z[j]) by {
        assert(tokens_agree(x[i], y[i], parameterize_literals));
        assert(tokens_agree(x[j], y[j], parameterize_literals));
        assert(is_parameter(y[i], parameterize_literals) && is_parameter(
            y[j],
            parameterize_literals,
        ));
    }
}

/// Every hash belongs to one of the three token classes.
pub open spec fn is_classified(hashes: Seq<u64>) -> bool {
    forall|i: int| 0 <= i < hashes.len() ==> (#[trigger] hashes[i]) >> 62 < 3
}

/// The class of a token hash is the kind of its token.
pub proof fn token_hash_keeps_kind(text: Seq<u8>, token: Token)
    ensures
        token_hash(text, token) >> 62 == (match TokenKind::from_u8(token.kind) {
            Some(TokenKind::Identifier) => IDENTIFIER_BITS,
            Some(TokenKind::Literal) => LITERAL_BITS,
            _ => FIXED_BITS,
        }),
{
    let raw = xxh3(text.subrange(token.start as int, token.end as int));
    assert(((raw & !0xC000_0000_0000_0000u64) | 0x4000_0000_0000_0000u64) >> 62 == 1 && ((raw
        & !0xC000_0000_0000_0000u64) | 0x8000_0000_0000_0000u64) >> 62 == 2 && ((raw
        & !0xC000_0000_0000_0000u64) | 0u64) >> 62 == 0) by (bit_vector);
}

/// Token hashes are classified.
pub proof fn token_hashes_are_classified(text: Seq<u8>, tokens: Seq<Token>)
    ensures
        is_classified(hashes_of(text, tokens)),
{
    assert forall|i: int| 0 <= i < tokens.len() implies (#[trigger] hashes_of(text, tokens)[i])
        >> 62 < 3 by {
        token_hash_keeps_kind(text, tokens[i]);
    }
}

/// Layout does not matter: texts whose tokens have the same kinds and spellings have the same
/// hashes, wherever those tokens stand.
pub proof fn layout_does_not_matter(
    text: Seq<u8>,
    tokens: Seq<Token>,
    other: Seq<u8>,
    others: Seq<Token>,
)
    requires
        tokens.len() == others.len(),
        forall|i: int|
            0 <= i < tokens.len() ==> (#[trigger] tokens[i]).kind == (#[trigger] others[i]).kind
                && text.subrange(tokens[i].start as int, tokens[i].end as int) == other.subrange(
                others[i].start as int,
                others[i].end as int,
            ),
    ensures
        hashes_of(text, tokens) == hashes_of(other, others),
{
    assert forall|i: int| 0 <= i < tokens.len() implies #[trigger] hashes_of(text, tokens)[i]
        == hashes_of(other, others)[i] by {
        assert(tokens[i].kind == others[i].kind);
    }
    assert(hashes_of(text, tokens) =~= hashes_of(other, others));
}

proof fn lemma_last_before_shift(hashes: Seq<u64>, start: int, len: int, n: int, key: u64)
    requires
        0 <= start,
        0 <= n <= len,
        start + len <= hashes.len(),
    ensures
        last_before(span(hashes, start, len), 0, n, key) == (match last_before(
            hashes,
            start,
            start + n,
            key,
        ) {
            Some(p) => Some(p - start),
            None => None,
        }),
    decreases n,
{
    if n > 0 {
        lemma_last_before_shift(hashes, start, len, n - 1, key);
        assert(span(hashes, start, len)[n - 1] == hashes[start + n - 1]);
    }
}

proof fn lemma_renamed_distance(x: Seq<u64>, y: Seq<u64>, index: int, parameterize_literals: bool)
    requires
        is_renaming(x, y, parameterize_literals),
        0 <= index < x.len(),
        is_parameter(x[index], parameterize_literals),
    ensures
        distance(x, 0, index) == distance(y, 0, index),
{
    lemma_renaming_prefix(x, y, index, parameterize_literals);
    lemma_renaming_prefix(x, y, index + 1, parameterize_literals);
    lemma_renaming_step(x, y, index, parameterize_literals);
}

/// Renaming identifiers, and literals where those are parameterized, keeps the signature of a
/// window.
pub proof fn signature_ignores_renaming(
    x: Seq<u64>,
    s: int,
    y: Seq<u64>,
    t: int,
    window: int,
    parameterize_literals: bool,
)
    requires
        0 < window,
        0 <= s <= x.len() - window,
        0 <= t <= y.len() - window,
        is_classified(x),
        is_renaming(span(x, s, window), span(y, t, window), parameterize_literals),
    ensures
        signatures_of(x, window, parameterize_literals)[s] == signatures_of(
            y,
            window,
            parameterize_literals,
        )[t],
{
    lemma_renamed_window_bytes(x, s, y, t, window, window, parameterize_literals);
}

proof fn lemma_renamed_window_bytes(
    x: Seq<u64>,
    s: int,
    y: Seq<u64>,
    t: int,
    window: int,
    n: int,
    parameterize_literals: bool,
)
    requires
        0 <= n <= window,
        0 <= s <= x.len() - window,
        0 <= t <= y.len() - window,
        is_classified(x),
        is_renaming(span(x, s, window), span(y, t, window), parameterize_literals),
    ensures
        window_bytes(x, s, n, parameterize_literals) == window_bytes(
            y,
            t,
            n,
            parameterize_literals,
        ),
    decreases n,
{
    if n > 0 {
        lemma_renamed_window_bytes(x, s, y, t, window, n - 1, parameterize_literals);
        let a = span(x, s, window);
        let b = span(y, t, window);
        let u = a[n - 1];
        let v = b[n - 1];
        assert(u == x[s + n - 1] && v == y[t + n - 1]);
        assert(tokens_agree(u, v, parameterize_literals));
        assert(u >> 62 < 3);
        assert(u >> 62 < 3 && v >> 62 == u >> 62 ==> u != 0xC000_0000_0000_0000 && v
            != 0xC000_0000_0000_0000 && u & 0xC000_0000_0000_0000 == v & 0xC000_0000_0000_0000)
            by (bit_vector);
        if is_parameter(u, parameterize_literals) {
            lemma_renamed_distance(a, b, n - 1, parameterize_literals);
            lemma_last_before_shift(x, s, window, n - 1, u);
            lemma_last_before_shift(y, t, window, n - 1, v);
        }
    }
}

/// Spans that are equal up to renaming have the same fingerprint.
pub proof fn fingerprint_ignores_renaming(x: Seq<u64>, y: Seq<u64>, parameterize_literals: bool)
    requires
        is_classified(x),
        is_renaming(x, y, parameterize_literals),
    ensures
        fingerprint_of(x, x.len() as int, parameterize_literals) == fingerprint_of(
            y,
            y.len() as int,
            parameterize_literals,
        ),
{
    lemma_renamed_fingerprint(x, y, x.len() as int, parameterize_literals);
}

proof fn lemma_renamed_fingerprint(x: Seq<u64>, y: Seq<u64>, n: int, parameterize_literals: bool)
    requires
        0 <= n <= x.len(),
        is_classified(x),
        is_renaming(x, y, parameterize_literals),
    ensures
        fingerprint_of(x, n, parameterize_literals) == fingerprint_of(y, n, parameterize_literals),
    decreases n,
{
    if n > 0 {
        lemma_renamed_fingerprint(x, y, n - 1, parameterize_literals);
        assert(tokens_agree(x[n - 1], y[n - 1], parameterize_literals));
        assert(x[n - 1] >> 62 < 3);
        if is_parameter(x[n - 1], parameterize_literals) {
            lemma_renamed_distance(x, y, n - 1, parameterize_literals);
        }
    }
}

} // verus!
