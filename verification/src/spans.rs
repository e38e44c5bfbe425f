//! Bracket structure and syntactically complete spans of a token sequence.
use vstd::prelude::*;

use crate::model::{SpanMeta, Token};
use crate::sort::sort_by_keys;

verus! {

/// How a token changes the bracket depth.
pub open spec fn delta(token: Token) -> int {
    if token.bracket_open() {
        1
    } else if token.bracket_close() {
        -1
    } else {
        0
    }
}

/// Open brackets minus closed brackets among the first `n` tokens.
pub open spec fn balance(tokens: Seq<Token>, n: int) -> int
    decreases n,
{
    if n <= 0 {
        0
    } else {
        balance(tokens, n - 1) + delta(tokens[n - 1])
    }
}

/// `to` is the first position after `from` whose balance is lower than that at `from`.
pub open spec fn is_next_lower(tokens: Seq<Token>, from: int, to: int) -> bool {
    &&& from < to <= tokens.len()
    &&& balance(tokens, to) < balance(tokens, from)
    &&& forall|k: int| from < k < to ==> #[trigger] balance(tokens, k) >= balance(tokens, from)
}

/// The bracket at `open` is closed by the one at `close`.
pub open spec fn closes(tokens: Seq<Token>, open: int, close: int) -> bool {
    &&& 0 <= open < close < tokens.len()
    &&& tokens[open].bracket_open()
    &&& is_next_lower(tokens, open + 1, close + 1)
}

/// `meta` describes the bracket structure of `tokens`.
pub open spec fn is_span_meta(tokens: Seq<Token>, meta: SpanMeta) -> bool {
    &&& meta.pairs@.len() == tokens.len()
    &&& meta.balance@.len() == tokens.len() + 1
    &&& meta.next_lower@.len() == tokens.len() + 1
    &&& forall|i: int| 0 <= i <= tokens.len() ==> #[trigger] meta.balance@[i] == balance(tokens, i)
    &&& forall|i: int|
        0 <= i <= tokens.len() ==> if (#[trigger] meta.next_lower@[i]) == u32::MAX {
            forall|j: int| !is_next_lower(tokens, i, j)
        } else {
            is_next_lower(tokens, i, meta.next_lower@[i] as int)
        }
    &&& forall|i: int|
        0 <= i < tokens.len() ==> if (#[trigger] meta.pairs@[i]) == u32::MAX {
            forall|j: int| !closes(tokens, i, j) && !closes(tokens, j, i)
        } else {
            closes(tokens, i, meta.pairs@[i] as int) || closes(tokens, meta.pairs@[i] as int, i)
        }
}

proof fn lemma_next_lower_unique(tokens: Seq<Token>, from: int, a: int, b: int)
    requires
        is_next_lower(tokens, from, a),
        is_next_lower(tokens, from, b),
    ensures
        a == b,
{
    if a < b {
        assert(balance(tokens, a) >= balance(tokens, from));
    } else if b < a {
        assert(balance(tokens, b) >= balance(tokens, from));
    }
}

proof fn lemma_balance_bounds(tokens: Seq<Token>, n: int)
    requires
        0 <= n,
    ensures
        -n <= balance(tokens, n) <= n,
    decreases n,
{
    if n > 0 {
        lemma_balance_bounds(tokens, n - 1);
    }
}

/// The balance before every token and after the last.
fn balances(tokens: &Vec<Token>) -> (result: Vec<i64>)
    requires
        tokens@.len() < u32::MAX,
    ensures
        result@.len() == tokens@.len() + 1,
        forall|i: int| 0 <= i <= tokens@.len() ==> #[trigger] result@[i] == balance(tokens@, i),
{
    let mut result: Vec<i64> = Vec::new();
    result.push(0);
    let mut index: usize = 0;
    while index < tokens.len()
        invariant
            tokens@.len() < u32::MAX,
            index <= tokens@.len(),
            result@.len() == index + 1,
            forall|i: int| 0 <= i <= index ==> #[trigger] result@[i] == balance(tokens@, i),
        decreases tokens@.len() - index,
    {
        let token = &tokens[index];
        proof {
            lemma_balance_bounds(tokens@, index as int);
        }
        let delta: i64 = if token.bracket_open() {
            1
        } else if token.bracket_close() {
            -1
        } else {
            0
        };
        assert(result@[index as int] == balance(tokens@, index as int));
        let last: i64 = result[index];
        result.push(last + delta);
        index = index + 1;
    }
    result
}

/// The partner of every matched bracket.
fn bracket_pairs(tokens: &Vec<Token>) -> (pairs: Vec<u32>)
    requires
        tokens@.len() < u32::MAX,
    ensures
        pairs@.len() == tokens@.len(),
        forall|i: int|
            0 <= i < tokens@.len() ==> if (#[trigger] pairs@[i]) == u32::MAX {
                forall|j: int| !closes(tokens@, i, j) && !closes(tokens@, j, i)
            } else {
                closes(tokens@, i, pairs@[i] as int) || closes(tokens@, pairs@[i] as int, i)
            },
{
    let total: usize = tokens.len();
    let mut pairs: Vec<u32> = vec![u32::MAX; total];
    let mut stack: Vec<usize> = Vec::new();
    let mut index: usize = 0;
    while index < total
        invariant
            total == tokens@.len(),
            total < u32::MAX,
            index <= total,
            pairs@.len() == total,
            forall|s: int| 0 <= s < stack@.len() ==> #[trigger] stack@[s] < index,
            forall|s: int|
                0 <= s < stack@.len() ==> (#[trigger] tokens@[stack@[s] as int]).bracket_open()
                    && pairs@[stack@[s] as int] == u32::MAX,
            forall|s: int|
                0 <= s < stack@.len() ==> #[trigger] balance(tokens@, stack@[s] as int) == balance(
                    tokens@,
                    index as int,
                ) - (stack@.len() - s),
            forall|s: int, k: int|
                0 <= s < stack@.len() && stack@[s] < k <= index ==> balance(
                    tokens@,
                    #[trigger] stack@[s] as int,
                ) < #[trigger] balance(tokens@, k),
            forall|o: int|
                0 <= o < index && (#[trigger] tokens@[o]).bracket_open() && pairs@[o] == u32::MAX
                    ==> stack@.contains(o as usize),
            forall|i: int| index <= i < total ==> #[trigger] pairs@[i] == u32::MAX,
            forall|i: int|
                0 <= i < index && (#[trigger] pairs@[i]) != u32::MAX ==> pairs@[i] < index && (closes(
                    tokens@,
                    i,
                    pairs@[i] as int,
                ) || closes(tokens@, pairs@[i] as int, i)),
            forall|c: int, o: int|
                0 <= c < index && (#[trigger] pairs@[c]) == u32::MAX ==> !(#[trigger] closes(
                    tokens@,
                    o,
                    c,
                )),
        decreases total - index,
    {
        let token = &tokens[index];
        let ghost pairs0 = pairs@;
        let ghost stack0 = stack@;
        let ghost now = balance(tokens@, index as int);
        if token.bracket_open() {
            stack.push(index);
            proof {
                assert(stack@[stack0.len() as int] == index);
                assert forall|o: int|
                    0 <= o < index + 1 && (#[trigger] tokens@[o]).bracket_open() && pairs@[o]
                        == u32::MAX implies stack@.contains(o as usize) by {
                    if o < index {
                        let s = choose|s: int| 0 <= s < stack0.len() && stack0[s] == o as usize;
                        assert(stack@[s] == o as usize);
                    }
                }
                assert forall|c: int, o: int|
                    0 <= c < index + 1 && (#[trigger] pairs@[c]) == u32::MAX implies !(
                #[trigger] closes(tokens@, o, c)) by {
                    if c == index && closes(tokens@, o, c) {
                        assert(balance(tokens@, index + 1) == now + 1);
                        assert(o + 1 <= index);
                        if o + 1 < index {
                            assert(balance(tokens@, index as int) >= balance(tokens@, o + 1));
                        }
                        assert(false);
                    }
                }
            }
        } else if token.bracket_close() {
            assert(balance(tokens@, index + 1) == now - 1);
            if stack.len() > 0 {
                let top: usize = stack.len() - 1;
                let open: usize = stack[top];
                proof {
                    assert(tokens@[stack@[top as int] as int].bracket_open());
                    assert(balance(tokens@, open as int) == now - 1);
                    assert(balance(tokens@, open + 1) == now);
                    assert forall|k: int| open + 1 < k < index + 1 implies #[trigger] balance(
                        tokens@,
                        k,
                    ) >= balance(tokens@, open + 1) by {
                        assert(balance(tokens@, stack@[top as int] as int) < balance(tokens@, k));
                    }
                    assert(closes(tokens@, open as int, index as int));
                }
                stack.pop();
                pairs[open] = index as u32;
                pairs[index] = open as u32;
                proof {
                    assert forall|s: int| 0 <= s < stack@.len() implies stack@[s] != open by {
                        assert(balance(tokens@, stack0[s] as int) == now - (stack0.len() - s));
                    }
                    assert forall|o: int|
                        0 <= o < index + 1 && (#[trigger] tokens@[o]).bracket_open() && pairs@[o]
                            == u32::MAX implies stack@.contains(o as usize) by {
                        assert(o != open && o != index);
                        assert(pairs0[o] == u32::MAX);
                        let s = choose|s: int| 0 <= s < stack0.len() && stack0[s] == o as usize;
                        assert(stack@[s] == o as usize);
                    }
                    assert forall|s: int, k: int|
                        0 <= s < stack@.len() && stack@[s] < k <= index + 1 implies balance(
                        tokens@,
                        #[trigger] stack@[s] as int,
                    ) < #[trigger] balance(tokens@, k) by {
                        assert(stack0[s] == stack@[s]);
                        if k == index + 1 {
                            assert(balance(tokens@, stack0[s] as int) == now - (stack0.len() - s));
                        } else {
                            assert(balance(tokens@, stack0[s] as int) < balance(tokens@, k));
                        }
                    }
                    assert forall|s: int|
                        0 <= s < stack@.len() implies #[trigger] balance(tokens@, stack@[s] as int)
                        == balance(tokens@, index + 1) - (stack@.len() - s) by {
                        assert(balance(tokens@, stack0[s] as int) == now - (stack0.len() - s));
                    }
                    assert forall|s: int| 0 <= s < stack@.len() implies (
                    #[trigger] tokens@[stack@[s] as int]).bracket_open() && pairs@[stack@[s] as int]
                        == u32::MAX by {
                        assert(tokens@[stack0[s] as int].bracket_open());
                    }
                }
            } else {
                proof {
                    assert forall|o: int| !(#[trigger] closes(tokens@, o, index as int)) by {
                        if closes(tokens@, o, index as int) {
                            if pairs@[o] == u32::MAX {
                                assert(stack@.contains(o as usize));
                            } else {
                                let c = pairs@[o] as int;
                                if closes(tokens@, o, c) {
                                    lemma_next_lower_unique(tokens@, o + 1, c + 1, index + 1);
                                } else {
                                    assert(closes(tokens@, c, o));
                                    lemma_close_is_not_open(tokens@, c, o);
                                }
                            }
                        }
                    }
                }
            }
        } else {
            assert(balance(tokens@, index + 1) == now);
            proof {
                assert forall|o: int| !(#[trigger] closes(tokens@, o, index as int)) by {
                    if closes(tokens@, o, index as int) {
                        lemma_close_is_not_open(tokens@, o, index as int);
                    }
                }
                assert forall|s: int, k: int|
                    0 <= s < stack@.len() && stack@[s] < k <= index + 1 implies balance(
                    tokens@,
                    #[trigger] stack@[s] as int,
                ) < #[trigger] balance(tokens@, k) by {
                    if k == index + 1 {
                        assert(balance(tokens@, stack@[s] as int) < balance(
                            tokens@,
                            index as int,
                        ));
                    }
                }
            }
        }
        index = index + 1;
    }
    proof {
        assert forall|i: int| 0 <= i < total && (#[trigger] pairs@[i]) == u32::MAX implies (
        forall|j: int| !closes(tokens@, i, j) && !closes(tokens@, j, i)) by {
            assert forall|j: int| !closes(tokens@, i, j) && !closes(tokens@, j, i) by {
                if closes(tokens@, i, j) {
                    let s = choose|s: int| 0 <= s < stack@.len() && stack@[s] == i as usize;
                    assert(balance(tokens@, stack@[s] as int) < balance(tokens@, j + 1));
                }
            }
        }
    }
    pairs
}

proof fn lemma_close_is_not_open(tokens: Seq<Token>, open: int, close: int)
    requires
        closes(tokens, open, close),
    ensures
        delta(tokens[close]) == -1,
        !tokens[close].bracket_open(),
{
    if open + 1 < close {
        assert(balance(tokens, close) >= balance(tokens, open + 1));
    }
}

/// For every position the next one with a lower balance.
fn next_lower_positions(tokens: &Vec<Token>, levels: &Vec<i64>) -> (next_lower: Vec<u32>)
    requires
        tokens@.len() < u32::MAX,
        levels@.len() == tokens@.len() + 1,
        forall|i: int| 0 <= i <= tokens@.len() ==> #[trigger] levels@[i] == balance(tokens@, i),
    ensures
        next_lower@.len() == tokens@.len() + 1,
        forall|i: int|
            0 <= i <= tokens@.len() ==> if (#[trigger] next_lower@[i]) == u32::MAX {
                forall|j: int| !is_next_lower(tokens@, i, j)
            } else {
                is_next_lower(tokens@, i, next_lower@[i] as int)
            },
{
    let count: usize = levels.len();
    let mut next_lower: Vec<u32> = vec![u32::MAX; count];
    let mut stack: Vec<usize> = Vec::new();
    let mut index: usize = 0;
    while index < count
        invariant
            count == tokens@.len() + 1,
            count <= u32::MAX,
            levels@.len() == count,
            forall|i: int| 0 <= i < count ==> #[trigger] levels@[i] == balance(tokens@, i),
            index <= count,
            next_lower@.len() == count,
            forall|s: int| 0 <= s < stack@.len() ==> #[trigger] stack@[s] < index,
            forall|s: int|
                0 <= s < stack@.len() ==> next_lower@[#[trigger] stack@[s] as int] == u32::MAX,
            forall|a: int, b: int|
                0 <= a < b < stack@.len() ==> levels@[#[trigger] stack@[a] as int]
                    <= levels@[#[trigger] stack@[b] as int] && stack@[a] < stack@[b],
            forall|s: int, k: int|
                0 <= s < stack@.len() && stack@[s] < k < index ==> levels@[#[trigger] stack@[s] as int]
                    <= #[trigger] levels@[k],
            forall|i: int|
                0 <= i < index && (#[trigger] next_lower@[i]) == u32::MAX ==> stack@.contains(
                    i as usize,
                ),
            forall|i: int|
                0 <= i < index && (#[trigger] next_lower@[i]) != u32::MAX ==> is_next_lower(
                    tokens@,
                    i,
                    next_lower@[i] as int,
                ),
            forall|i: int| index <= i < count ==> #[trigger] next_lower@[i] == u32::MAX,
        decreases count - index,
    {
        let level: i64 = levels[index];
        while stack.len() > 0 && level < levels[stack[stack.len() - 1]]
            invariant
                count == tokens@.len() + 1,
                count <= u32::MAX,
                levels@.len() == count,
                forall|i: int| 0 <= i < count ==> #[trigger] levels@[i] == balance(tokens@, i),
                index < count,
                level == levels@[index as int],
                next_lower@.len() == count,
                forall|s: int| 0 <= s < stack@.len() ==> #[trigger] stack@[s] < index,
                forall|s: int|
                    0 <= s < stack@.len() ==> next_lower@[#[trigger] stack@[s] as int] == u32::MAX,
                forall|a: int, b: int|
                    0 <= a < b < stack@.len() ==> levels@[#[trigger] stack@[a] as int]
                        <= levels@[#[trigger] stack@[b] as int] && stack@[a] < stack@[b],
                forall|s: int, k: int|
                    0 <= s < stack@.len() && stack@[s] < k < index
                        ==> levels@[#[trigger] stack@[s] as int] <= #[trigger] levels@[k],
                forall|i: int|
                    0 <= i < index && (#[trigger] next_lower@[i]) == u32::MAX ==> stack@.contains(
                        i as usize,
                    ),
                forall|i: int|
                    0 <= i < index && (#[trigger] next_lower@[i]) != u32::MAX ==> is_next_lower(
                        tokens@,
                        i,
                        next_lower@[i] as int,
                    ),
                forall|i: int| index <= i < count ==> #[trigger] next_lower@[i] == u32::MAX,
            decreases stack@.len(),
        {
            let ghost stack0 = stack@;
            let ghost next0 = next_lower@;
            let last: usize = stack.len() - 1;
            let top: usize = stack[last];
            stack.pop();
            next_lower[top] = index as u32;
            proof {
                assert forall|k: int| top < k < index implies #[trigger] balance(tokens@, k)
                    >= balance(tokens@, top as int) by {
                    assert(levels@[stack0[last as int] as int] <= levels@[k]);
                }
                assert(is_next_lower(tokens@, top as int, index as int));
                assert forall|s: int| 0 <= s < stack@.len() implies #[trigger] stack@[s] != top by {
                    assert(stack0[s] < stack0[last as int]);
                }
                assert forall|i: int|
                    0 <= i < index && (#[trigger] next_lower@[i]) == u32::MAX implies stack@.contains(
                i as usize) by {
                    assert(next0[i] == u32::MAX && i != top);
                    let s = choose|s: int| 0 <= s < stack0.len() && stack0[s] == i as usize;
                    assert(stack@[s] == i as usize);
                }
            }
        }
        let ghost stack0 = stack@;
        stack.push(index);
        proof {
            assert forall|a: int, b: int|
                0 <= a < b < stack@.len() implies levels@[#[trigger] stack@[a] as int]
                <= levels@[#[trigger] stack@[b] as int] && stack@[a] < stack@[b] by {
                if b == stack0.len() {
                    if a < stack0.len() - 1 {
                        assert(levels@[stack0[a] as int] <= levels@[stack0[stack0.len() - 1] as int]);
                    }
                }
            }
            assert forall|s: int, k: int|
                0 <= s < stack@.len() && stack@[s] < k < index + 1 implies levels@[#[trigger] stack@[s] as int]
                <= #[trigger] levels@[k] by {
                if k == index {
                    if s < stack0.len() - 1 {
                        assert(levels@[stack0[s] as int] <= levels@[stack0[stack0.len() - 1] as int]);
                    }
                }
            }
            assert forall|i: int|
                0 <= i < index + 1 && (#[trigger] next_lower@[i]) == u32::MAX implies stack@.contains(
            i as usize) by {
                if i == index {
                    assert(stack@[stack0.len() as int] == i as usize);
                } else {
                    let s = choose|s: int| 0 <= s < stack0.len() && stack0[s] == i as usize;
                    assert(stack@[s] == i as usize);
                }
            }
        }
        index = index + 1;
    }
    proof {
        assert forall|i: int| 0 <= i < count && (#[trigger] next_lower@[i]) == u32::MAX implies (
        forall|j: int| !is_next_lower(tokens@, i, j)) by {
            let s = choose|s: int| 0 <= s < stack@.len() && stack@[s] == i as usize;
            assert forall|j: int| !is_next_lower(tokens@, i, j) by {
                if is_next_lower(tokens@, i, j) {
                    assert(levels@[stack@[s] as int] <= levels@[j]);
                }
            }
        }
    }
    next_lower
}

/// The bracket structure of a token sequence.
pub fn compute_span_meta(tokens: &Vec<Token>) -> (meta: SpanMeta)
    requires
        tokens@.len() < u32::MAX,
    ensures
        is_span_meta(tokens@, meta),
{
    let pairs = bracket_pairs(tokens);
    let balance = balances(tokens);
    let next_lower = next_lower_positions(tokens, &balance);
    SpanMeta { pairs, balance, next_lower }
}

/// The span begins and ends at unit borders, its brackets match, and no unit crosses its borders.
pub open spec fn is_complete(tokens: Seq<Token>, start: int, end: int) -> bool {
    &&& 0 <= start < end <= tokens.len()
    &&& tokens[start].unit_start()
    &&& tokens[end - 1].unit_end()
    &&& balance(tokens, end) == balance(tokens, start)
    &&& forall|k: int| start < k <= end ==> #[trigger] balance(tokens, k) >= balance(tokens, start)
    &&& forall|i: int|
        start <= i < end && (#[trigger] tokens[i]).unit_start() ==> tokens[i].unit_end_of_start
            <= end
    &&& forall|i: int|
        start <= i < end - 1 && (#[trigger] tokens[i]).unit_end() ==> tokens[i].unit_start_of_end
            >= start
}

/// Some position in `start + 1 ..= end` has a lower balance than `start` if the next lower one does.
proof fn lemma_lower_within(tokens: Seq<Token>, start: int, end: int)
    requires
        0 <= start <= end <= tokens.len(),
    ensures
        (forall|k: int| start < k <= end ==> #[trigger] balance(tokens, k) >= balance(tokens, start))
            || exists|j: int| is_next_lower(tokens, start, j) && j <= end,
    decreases end - start,
{
    if start < end {
        lemma_lower_within(tokens, start, end - 1);
        if forall|k: int|
            start < k <= end - 1 ==> #[trigger] balance(tokens, k) >= balance(tokens, start) {
            if balance(tokens, end) < balance(tokens, start) {
                assert(is_next_lower(tokens, start, end));
            }
        } else {
            let j = choose|j: int| is_next_lower(tokens, start, j) && j <= end - 1;
            assert(is_next_lower(tokens, start, j) && j <= end);
        }
    }
}

/// Whether a span is syntactically complete.
pub fn is_complete_span(tokens: &Vec<Token>, meta: &SpanMeta, start: usize, end: usize) -> (complete:
    bool)
    requires
        tokens@.len() < u32::MAX,
        is_span_meta(tokens@, *meta),
    ensures
        complete == is_complete(tokens@, start as int, end as int),
{
    if start >= end || end > tokens.len() {
        return false;
    }
    if !tokens[start].unit_start() || !tokens[end - 1].unit_end() {
        return false;
    }
    proof {
        assert(meta.balance@[end as int] == balance(tokens@, end as int));
        assert(meta.balance@[start as int] == balance(tokens@, start as int));
        let next = meta.next_lower@[start as int];
        lemma_lower_within(tokens@, start as int, end as int);
        if next != u32::MAX {
            assert(is_next_lower(tokens@, start as int, next as int));
            if next > end && (exists|j: int|
                is_next_lower(tokens@, start as int, j) && j <= end) {
                let j = choose|j: int| is_next_lower(tokens@, start as int, j) && j <= end;
                lemma_next_lower_unique(tokens@, start as int, next as int, j);
            }
        }
    }
    if meta.balance[end] != meta.balance[start] || meta.next_lower[start] <= end as u32 {
        return false;
    }
    let mut index: usize = start;
    while index < end - 1
        invariant
            start <= index <= end - 1,
            start < end <= tokens@.len(),
            forall|i: int|
                start <= i < index && (#[trigger] tokens@[i]).unit_start()
                    ==> tokens@[i].unit_end_of_start <= end,
            forall|i: int|
                start <= i < index && (#[trigger] tokens@[i]).unit_end()
                    ==> tokens@[i].unit_start_of_end >= start,
        decreases end - index,
    {
        let token = &tokens[index];
        if token.unit_start() && token.unit_end_of_start as usize > end {
            return false;
        }
        if token.unit_end() && (token.unit_start_of_end as usize) < start {
            return false;
        }
        index = index + 1;
    }
    let last = &tokens[end - 1];
    !(last.unit_start() && last.unit_end_of_start as usize > end)
}

/// The span is exactly one unit or container.
pub open spec fn is_single_unit(tokens: Seq<Token>, start: int, end: int) -> bool {
    &&& 0 <= start < end <= tokens.len()
    &&& (tokens[start].unit_start() && tokens[start].unit_end_of_start == end) || (
    tokens[start].container_start() && tokens[start].container_end_of_start == end)
}

/// Whether the span is exactly one unit or container.
pub fn is_single_unit_span(tokens: &Vec<Token>, start: usize, end: usize) -> (single: bool)
    ensures
        single == is_single_unit(tokens@, start as int, end as int),
{
    if start >= end || end > tokens.len() {
        return false;
    }
    let token = &tokens[start];
    (token.unit_start() && token.unit_end_of_start as usize == end) || (token.container_start()
        && token.container_end_of_start as usize == end)
}

/// Units and containers end after they start, and no later than the tokens do.
pub open spec fn marks_wf(tokens: Seq<Token>) -> bool {
    &&& forall|i: int|
        0 <= i < tokens.len() && (#[trigger] tokens[i]).unit_start() ==> i
            < tokens[i].unit_end_of_start <= tokens.len()
    &&& forall|i: int|
        0 <= i < tokens.len() && (#[trigger] tokens[i]).container_start() ==> i
            < tokens[i].container_end_of_start <= tokens.len()
}

/// Units start no later than they end.
pub open spec fn ends_wf(tokens: Seq<Token>) -> bool {
    forall|i: int|
        0 <= i < tokens.len() && (#[trigger] tokens[i]).unit_end() ==> tokens[i].unit_start_of_end
            <= i
}

/// The unit or the container that the token starts ends before position `end`.
pub open spec fn starts_unit(token: Token, end: int) -> bool {
    ||| token.unit_start() && token.unit_end_of_start == end
    ||| token.container_start() && token.container_end_of_start == end
}

/// Units and containers nest: one that starts inside another ends no later than it.
pub open spec fn units_nest(tokens: Seq<Token>) -> bool {
    forall|i: int, j: int, a: int, b: int|
        #![trigger starts_unit(tokens[i], a), starts_unit(tokens[j], b)]
        0 <= i < j < tokens.len() && starts_unit(tokens[i], a) && starts_unit(tokens[j], b) && j < a
            ==> b <= a
}

/// The larger of the unit and the container that start at `index`, if it ends by `end`.
pub open spec fn widest_end(tokens: Seq<Token>, index: int, end: int) -> Option<int> {
    let token = tokens[index];
    let unit = token.unit_start() && token.unit_end_of_start <= end;
    let container = token.container_start() && token.container_end_of_start <= end;
    if container && (!unit || token.container_end_of_start > token.unit_end_of_start) {
        Some(token.container_end_of_start as int)
    } else if unit {
        Some(token.unit_end_of_start as int)
    } else {
        None
    }
}

/// `index..end` as a row of units, each as wide as possible; `None` if it is not such a row.
pub open spec fn unit_row(tokens: Seq<Token>, index: int, end: int) -> Option<Seq<(int, int)>>
    decreases end - index,
{
    if index >= end {
        Some(Seq::empty())
    } else {
        match widest_end(tokens, index, end) {
            None => None,
            Some(next) => if next <= index {
                None
            } else {
                match unit_row(tokens, next, end) {
                    None => None,
                    Some(rest) => Some(seq![(index, next)] + rest),
                }
            },
        }
    }
}

/// The units of the row, or none if the span is not a row of units.
pub open spec fn top_units(tokens: Seq<Token>, start: int, end: int) -> Seq<(int, int)> {
    match unit_row(tokens, start, end) {
        Some(units) => units,
        None => Seq::empty(),
    }
}

proof fn lemma_unit_row(tokens: Seq<Token>, index: int, end: int)
    ensures
        match unit_row(tokens, index, end) {
            Some(units) => forall|u: int|
                0 <= u < units.len() ==> index <= (#[trigger] units[u]).0 < units[u].1 <= end,
            None => true,
        },
    decreases end - index,
{
    if index < end {
        match widest_end(tokens, index, end) {
            None => {},
            Some(next) => {
                if next > index {
                    lemma_unit_row(tokens, next, end);
                    match unit_row(tokens, next, end) {
                        None => {},
                        Some(rest) => {
                            let units = seq![(index, next)] + rest;
                            assert forall|u: int| 0 <= u < units.len() implies index <= (
                            #[trigger] units[u]).0 < units[u].1 <= end by {
                                if u > 0 {
                                    assert(units[u] == rest[u - 1]);
                                }
                            }
                        },
                    }
                }
            },
        }
    }
}

/// Top-level units lie within the span.
pub proof fn lemma_top_units(tokens: Seq<Token>, start: int, end: int)
    ensures
        forall|u: int|
            0 <= u < top_units(tokens, start, end).len() ==> start <= (#[trigger] top_units(
                tokens,
                start,
                end,
            )[u]).0 < top_units(tokens, start, end)[u].1 <= end,
{
    lemma_unit_row(tokens, start, end);
}

/// Pairs of positions as mathematical integers.
pub open spec fn pairs_view(pairs: Seq<(usize, usize)>) -> Seq<(int, int)> {
    pairs.map_values(|p: (usize, usize)| (p.0 as int, p.1 as int))
}

/// The top-level units of a span that is a row of units; nothing otherwise.
pub fn top_level_units(tokens: &Vec<Token>, start: usize, end: usize) -> (units: Vec<(usize, usize)>)
    requires
        marks_wf(tokens@),
        end <= tokens@.len(),
    ensures
        pairs_view(units@) == top_units(tokens@, start as int, end as int),
{
    let mut units: Vec<(usize, usize)> = Vec::new();
    let mut index: usize = start;
    while index < end
        invariant
            marks_wf(tokens@),
            end <= tokens@.len(),
            match unit_row(tokens@, index as int, end as int) {
                None => unit_row(tokens@, start as int, end as int) is None,
                Some(rest) => unit_row(tokens@, start as int, end as int) == Some(
                    pairs_view(units@) + rest,
                ),
            },
        decreases end - index,
    {
        let token = &tokens[index];
        let mut best: Option<usize> = None;
        if token.unit_start() {
            let unit_end: usize = token.unit_end_of_start as usize;
            if unit_end <= end {
                best = Some(unit_end);
            }
        }
        if token.container_start() {
            let unit_end: usize = token.container_end_of_start as usize;
            if unit_end <= end {
                match best {
                    None => {
                        best = Some(unit_end);
                    },
                    Some(current) => {
                        if unit_end > current {
                            best = Some(unit_end);
                        }
                    },
                }
            }
        }
        match best {
            None => {
                return Vec::new();
            },
            Some(unit_end) => {
                let ghost units0 = units@;
                units.push((index, unit_end));
                proof {
                    match unit_row(tokens@, unit_end as int, end as int) {
                        None => {},
                        Some(rest) => {
                            assert(pairs_view(units@) + rest =~= pairs_view(units0) + (seq![
                                (index as int, unit_end as int),
                            ] + rest));
                        },
                    }
                }
                index = unit_end;
            },
        }
    }
    assert(pairs_view(units@) + Seq::<(int, int)>::empty() =~= pairs_view(units@));
    units
}

/// The nearest position at or before `start` where a unit starts, or 0.
pub open spec fn unit_start_before(tokens: Seq<Token>, start: int) -> int
    decreases start,
{
    if start <= 0 || tokens[start].unit_start() {
        start
    } else {
        unit_start_before(tokens, start - 1)
    }
}

/// The nearest position at or after `end` where a unit has just ended, or the end of the tokens.
pub open spec fn unit_end_after(tokens: Seq<Token>, end: int) -> int
    decreases tokens.len() - end,
{
    if end >= tokens.len() || tokens[end - 1].unit_end() {
        end
    } else {
        unit_end_after(tokens, end + 1)
    }
}

/// The last position in `start..end` with the balance of `start`.
pub open spec fn last_at_level(tokens: Seq<Token>, start: int, end: int) -> int
    decreases end - start,
{
    if end - 1 <= start || balance(tokens, end - 1) == balance(tokens, start) {
        end - 1
    } else {
        last_at_level(tokens, start, end - 1)
    }
}

/// The first unit in `from..end` that reaches beyond `limit`, if there is one.
pub open spec fn first_unit_beyond(tokens: Seq<Token>, from: int, end: int, limit: int) -> Option<int>
    decreases end - from,
{
    if from >= end {
        None
    } else if tokens[from].unit_start() && tokens[from].unit_end_of_start > limit {
        Some(from)
    } else {
        first_unit_beyond(tokens, from + 1, end, limit)
    }
}

/// The first unit end in `from..end` whose unit starts before `limit`, if there is one.
pub open spec fn first_unit_before(tokens: Seq<Token>, from: int, end: int, limit: int) -> Option<int>
    decreases end - from,
{
    if from >= end {
        None
    } else if tokens[from].unit_end() && tokens[from].unit_start_of_end < limit {
        Some(from)
    } else {
        first_unit_before(tokens, from + 1, end, limit)
    }
}

/// One step that widens a span towards completeness: to the close of its outermost unclosed
/// bracket, else to the end of a unit that it cuts, else to the start of a unit that it cuts.
/// There is none if a bracket closes that the span does not open, if the bracket is never
/// closed, or if nothing is cut.
pub open spec fn widen(tokens: Seq<Token>, start: int, end: int) -> Option<(int, int)> {
    if exists|k: int| start < k <= end && #[trigger] balance(tokens, k) < balance(tokens, start) {
        None
    } else if balance(tokens, end) > balance(tokens, start) {
        let open = last_at_level(tokens, start, end);
        if exists|close: int| closes(tokens, open, close) {
            let close = choose|close: int| closes(tokens, open, close);
            Some((start, close + 1))
        } else {
            None
        }
    } else {
        match first_unit_beyond(tokens, start, end, end) {
            Some(i) => Some((start, tokens[i].unit_end_of_start as int)),
            None => match first_unit_before(tokens, start, end - 1, start) {
                Some(i) => Some((tokens[i].unit_start_of_end as int, end)),
                None => None,
            },
        }
    }
}

/// Widens a span at most `rounds` times until it is complete.
pub open spec fn widened(tokens: Seq<Token>, start: int, end: int, rounds: nat) -> Option<(int, int)>
    decreases rounds,
{
    if rounds == 0 {
        None
    } else if is_complete(tokens, start, end) {
        Some((start, end))
    } else {
        match widen(tokens, start, end) {
            None => None,
            Some((wider_start, wider_end)) => {
                let snapped = unit_end_after(tokens, wider_end);
                if snapped > tokens.len() {
                    None
                } else {
                    widened(tokens, wider_start, snapped, (rounds - 1) as nat)
                }
            },
        }
    }
}

/// How often a span is widened before it is given up.
pub const MAX_ROUNDS: usize = 32;

/// The complete span that a span grows to.
pub open spec fn snapped_out(tokens: Seq<Token>, start: int, end: int) -> Option<(int, int)> {
    if start >= end || end > tokens.len() {
        None
    } else {
        let snap_start = unit_start_before(tokens, start);
        let snap_end = unit_end_after(tokens, end);
        if !tokens[snap_start].unit_start() || !tokens[snap_end - 1].unit_end() {
            None
        } else {
            widened(tokens, snap_start, snap_end, MAX_ROUNDS as nat)
        }
    }
}

fn snap_end_forward(tokens: &Vec<Token>, end: usize) -> (snapped: usize)
    requires
        0 < end,
    ensures
        snapped == unit_end_after(tokens@, end as int),
        end <= snapped,
        end <= tokens@.len() ==> snapped <= tokens@.len(),
{
    let total: usize = tokens.len();
    let mut snapped: usize = end;
    while snapped < total && !tokens[snapped - 1].unit_end()
        invariant
            0 < end <= snapped,
            total == tokens@.len(),
            end <= total ==> snapped <= total,
            unit_end_after(tokens@, end as int) == unit_end_after(tokens@, snapped as int),
        decreases total - snapped,
    {
        snapped = snapped + 1;
    }
    snapped
}

fn snap_start_back(tokens: &Vec<Token>, start: usize) -> (snapped: usize)
    requires
        start < tokens@.len(),
    ensures
        snapped == unit_start_before(tokens@, start as int),
        snapped <= start,
{
    let mut snapped: usize = start;
    while snapped > 0 && !tokens[snapped].unit_start()
        invariant
            snapped <= start < tokens@.len(),
            unit_start_before(tokens@, start as int) == unit_start_before(tokens@, snapped as int),
        decreases snapped,
    {
        snapped = snapped - 1;
    }
    snapped
}

/// What a scan of the brackets of a span finds.
enum BracketScan {
    /// A bracket closes that the span does not open.
    Underflow,
    /// The outermost bracket that the span leaves open.
    Open(usize),
    Balanced,
}

fn scan_brackets(tokens: &Vec<Token>, start: usize, end: usize) -> (scan: BracketScan)
    requires
        start < end <= tokens@.len(),
    ensures
        match scan {
            BracketScan::Underflow => exists|k: int|
                start < k <= end && #[trigger] balance(tokens@, k) < balance(tokens@, start as int),
            BracketScan::Open(open) => {
                &&& forall|k: int|
                    start < k <= end ==> #[trigger] balance(tokens@, k) >= balance(
                        tokens@,
                        start as int,
                    )
                &&& balance(tokens@, end as int) > balance(tokens@, start as int)
                &&& start <= open < end
                &&& open == last_at_level(tokens@, start as int, end as int)
            },
            BracketScan::Balanced => {
                &&& forall|k: int|
                    start < k <= end ==> #[trigger] balance(tokens@, k) >= balance(
                        tokens@,
                        start as int,
                    )
                &&& balance(tokens@, end as int) == balance(tokens@, start as int)
            },
        },
{
    let mut first_open: Option<usize> = None;
    let mut depth: usize = 0;
    let mut index: usize = start;
    let ghost base = balance(tokens@, start as int);
    while index < end
        invariant
            start <= index <= end <= tokens@.len(),
            base == balance(tokens@, start as int),
            depth == balance(tokens@, index as int) - base,
            depth <= index - start,
            forall|k: int| start < k <= index ==> #[trigger] balance(tokens@, k) >= base,
            depth == 0 ==> first_open is None,
            depth > 0 ==> (first_open matches Some(open) && start <= open < index && open
                == last_at_level(tokens@, start as int, index as int)),
        decreases end - index,
    {
        let token = &tokens[index];
        assert(balance(tokens@, index + 1) == balance(tokens@, index as int) + delta(
            tokens@[index as int],
        ));
        if token.bracket_open() {
            if depth == 0 {
                first_open = Some(index);
            }
            depth = depth + 1;
        } else if token.bracket_close() {
            if depth == 0 {
                assert(balance(tokens@, index + 1) < base);
                return BracketScan::Underflow;
            }
            depth = depth - 1;
            if depth == 0 {
                first_open = None;
            }
        }
        index = index + 1;
    }
    match first_open {
        Some(open) => BracketScan::Open(open),
        None => BracketScan::Balanced,
    }
}

fn find_unit_beyond(tokens: &Vec<Token>, start: usize, end: usize) -> (found: Option<usize>)
    requires
        start <= end <= tokens@.len(),
    ensures
        match first_unit_beyond(tokens@, start as int, end as int, end as int) {
            Some(i) => found == Some(tokens@[i].unit_end_of_start as usize) && start <= i < end
                && tokens@[i].unit_end_of_start > end,
            None => found is None,
        },
{
    let mut index: usize = start;
    while index < end
        invariant
            start <= index <= end <= tokens@.len(),
            first_unit_beyond(tokens@, start as int, end as int, end as int) == first_unit_beyond(
                tokens@,
                index as int,
                end as int,
                end as int,
            ),
        decreases end - index,
    {
        let token = &tokens[index];
        if token.unit_start() && token.unit_end_of_start as usize > end {
            return Some(token.unit_end_of_start as usize);
        }
        index = index + 1;
    }
    None
}

fn find_unit_before(tokens: &Vec<Token>, start: usize, end: usize) -> (found: Option<usize>)
    requires
        start < end <= tokens@.len(),
    ensures
        match first_unit_before(tokens@, start as int, end - 1, start as int) {
            Some(i) => found == Some(tokens@[i].unit_start_of_end as usize)
                && tokens@[i].unit_start_of_end < start,
            None => found is None,
        },
{
    let mut index: usize = start;
    while index + 1 < end
        invariant
            start <= index < end <= tokens@.len(),
            first_unit_before(tokens@, start as int, end - 1, start as int) == first_unit_before(
                tokens@,
                index as int,
                end - 1,
                start as int,
            ),
        decreases end - index,
    {
        let token = &tokens[index];
        if token.unit_end() && (token.unit_start_of_end as usize) < start {
            return Some(token.unit_start_of_end as usize);
        }
        index = index + 1;
    }
    None
}

fn widen_span(tokens: &Vec<Token>, meta: &SpanMeta, start: usize, end: usize) -> (wider: Option<
    (usize, usize),
>)
    requires
        start < end <= tokens@.len(),
        tokens@.len() < u32::MAX,
        is_span_meta(tokens@, *meta),
    ensures
        match widen(tokens@, start as int, end as int) {
            Some((s, e)) => wider == Some((s as usize, e as usize)) && 0 <= s < e && e <= u32::MAX
                && s <= start && e >= end,
            None => wider is None,
        },
{
    match scan_brackets(tokens, start, end) {
        BracketScan::Underflow => None,
        BracketScan::Open(open) => {
            let close: u32 = meta.pairs[open];
            proof {
                lemma_last_at_level(tokens@, start as int, end as int);
            }
            if close == u32::MAX {
                return None;
            }
            proof {
                if closes(tokens@, close as int, open as int) {
                    lemma_close_is_not_open(tokens@, close as int, open as int);
                }
                assert(closes(tokens@, open as int, close as int));
                let chosen = choose|close: int| closes(tokens@, open as int, close);
                lemma_next_lower_unique(tokens@, open + 1, chosen + 1, close + 1);
                if close < end {
                    assert(balance(tokens@, close + 1) >= balance(tokens@, start as int));
                    assert(balance(tokens@, open + 1) == balance(tokens@, start as int) + 1);
                    assert(balance(tokens@, close + 1) == balance(tokens@, start as int));
                    lemma_last_below(tokens@, start as int, end as int, close + 1);
                }
            }
            Some((start, close as usize + 1))
        },
        BracketScan::Balanced => {
            match find_unit_beyond(tokens, start, end) {
                Some(unit_end) => Some((start, unit_end)),
                None => {
                    match find_unit_before(tokens, start, end) {
                        Some(unit_start) => Some((unit_start, end)),
                        None => None,
                    }
                },
            }
        },
    }
}

pub proof fn lemma_last_at_level(tokens: Seq<Token>, start: int, end: int)
    requires
        0 <= start < end <= tokens.len(),
        forall|k: int| start < k <= end ==> #[trigger] balance(tokens, k) >= balance(tokens, start),
        balance(tokens, end) > balance(tokens, start),
    ensures
        start <= last_at_level(tokens, start, end) < end,
        balance(tokens, last_at_level(tokens, start, end)) == balance(tokens, start),
        tokens[last_at_level(tokens, start, end)].bracket_open(),
    decreases end - start,
{
    assert(balance(tokens, end) == balance(tokens, end - 1) + delta(tokens[end - 1]));
    if end - 1 > start && balance(tokens, end - 1) != balance(tokens, start) {
        lemma_last_at_level(tokens, start, end - 1);
    }
}

proof fn lemma_last_below(tokens: Seq<Token>, start: int, end: int, k: int)
    requires
        0 <= start < end <= tokens.len(),
        last_at_level(tokens, start, end) < k <= end,
        balance(tokens, end) != balance(tokens, start),
    ensures
        balance(tokens, k) != balance(tokens, start),
    decreases end - start,
{
    if k < end && end - 1 > start && balance(tokens, end - 1) != balance(tokens, start) {
        lemma_last_below(tokens, start, end - 1, k);
    }
}

/// The complete span that `start..end` grows to, if it gets there within the allowed rounds.
pub fn snap_out(tokens: &Vec<Token>, meta: &SpanMeta, start: usize, end: usize) -> (snapped: Option<
    (usize, usize),
>)
    requires
        tokens@.len() < u32::MAX,
        is_span_meta(tokens@, *meta),
    ensures
        match snapped_out(tokens@, start as int, end as int) {
            Some((s, e)) => snapped == Some((s as usize, e as usize)) && is_complete(tokens@, s, e),
            None => snapped is None,
        },
{
    let total: usize = tokens.len();
    if start >= end || end > total {
        return None;
    }
    let mut snap_start: usize = snap_start_back(tokens, start);
    let mut snap_end: usize = snap_end_forward(tokens, end);
    if !tokens[snap_start].unit_start() || !tokens[snap_end - 1].unit_end() {
        return None;
    }
    let mut rounds: usize = 0;
    while rounds < MAX_ROUNDS
        invariant
            rounds <= MAX_ROUNDS,
            tokens@.len() < u32::MAX,
            total == tokens@.len(),
            is_span_meta(tokens@, *meta),
            snap_start < snap_end <= total,
            snapped_out(tokens@, start as int, end as int) == widened(
                tokens@,
                snap_start as int,
                snap_end as int,
                (MAX_ROUNDS - rounds) as nat,
            ),
        decreases MAX_ROUNDS - rounds,
    {
        if is_complete_span(tokens, meta, snap_start, snap_end) {
            return Some((snap_start, snap_end));
        }
        match widen_span(tokens, meta, snap_start, snap_end) {
            None => {
                return None;
            },
            Some((wider_start, wider_end)) => {
                snap_start = wider_start;
                snap_end = snap_end_forward(tokens, wider_end);
            },
        }
        if snap_end > total {
            return None;
        }
        rounds = rounds + 1;
    }
    None
}

pub proof fn lemma_unit_start_before(tokens: Seq<Token>, start: int)
    requires
        0 <= start,
    ensures
        0 <= unit_start_before(tokens, start) <= start,
    decreases start,
{
    if start > 0 && !tokens[start].unit_start() {
        lemma_unit_start_before(tokens, start - 1);
    }
}

pub proof fn lemma_unit_end_after(tokens: Seq<Token>, end: int)
    ensures
        end <= unit_end_after(tokens, end),
        end <= tokens.len() ==> unit_end_after(tokens, end) <= tokens.len(),
    decreases tokens.len() - end,
{
    if end < tokens.len() && !tokens[end - 1].unit_end() {
        lemma_unit_end_after(tokens, end + 1);
    }
}

proof fn lemma_first_unit_beyond(tokens: Seq<Token>, from: int, end: int, limit: int)
    ensures
        first_unit_beyond(tokens, from, end, limit) matches Some(i) ==> tokens[i].unit_end_of_start
            > limit,
    decreases end - from,
{
    if from < end {
        lemma_first_unit_beyond(tokens, from + 1, end, limit);
    }
}

proof fn lemma_first_unit_before(tokens: Seq<Token>, from: int, end: int, limit: int)
    ensures
        first_unit_before(tokens, from, end, limit) matches Some(i) ==> tokens[i].unit_start_of_end
            < limit,
    decreases end - from,
{
    if from < end {
        lemma_first_unit_before(tokens, from + 1, end, limit);
    }
}

/// A step that widens a span leaves none of it out.
pub proof fn lemma_widen(tokens: Seq<Token>, start: int, end: int)
    requires
        0 <= start < end <= tokens.len(),
    ensures
        widen(tokens, start, end) matches Some((s, e)) ==> 0 <= s <= start && end <= e,
{
    lemma_first_unit_beyond(tokens, start, end, end);
    lemma_first_unit_before(tokens, start, end - 1, start);
    if widen(tokens, start, end) is Some && balance(tokens, end) > balance(tokens, start) {
        let open = last_at_level(tokens, start, end);
        let close = choose|close: int| closes(tokens, open, close);
        lemma_last_at_level(tokens, start, end);
        if close < end {
            assert(balance(tokens, close + 1) >= balance(tokens, start));
            assert(balance(tokens, open + 1) == balance(tokens, start) + 1);
            lemma_last_below(tokens, start, end, close + 1);
        }
    }
}

proof fn lemma_widened(tokens: Seq<Token>, start: int, end: int, rounds: nat)
    requires
        0 <= start < end <= tokens.len(),
    ensures
        widened(tokens, start, end, rounds) matches Some((s, e)) ==> is_complete(tokens, s, e) && s
            <= start && end <= e,
    decreases rounds,
{
    if rounds > 0 && !is_complete(tokens, start, end) {
        lemma_widen(tokens, start, end);
        if let Some((wider_start, wider_end)) = widen(tokens, start, end) {
            let snapped = unit_end_after(tokens, wider_end);
            lemma_unit_end_after(tokens, wider_end);
            if snapped <= tokens.len() {
                lemma_widened(tokens, wider_start, snapped, (rounds - 1) as nat);
            }
        }
    }
}

/// The span that a span grows to is complete and holds it, and a complete span stays as it is.
pub proof fn snapped_spans_hold_what_they_grew_from(tokens: Seq<Token>, start: int, end: int)
    requires
        0 <= start,
    ensures
        snapped_out(tokens, start, end) matches Some((s, e)) ==> is_complete(tokens, s, e) && s
            <= start && end <= e,
        is_complete(tokens, start, end) ==> snapped_out(tokens, start, end) == Some((start, end)),
{
    if start < end <= tokens.len() {
        let snap_start = unit_start_before(tokens, start);
        let snap_end = unit_end_after(tokens, end);
        lemma_unit_start_before(tokens, start);
        lemma_unit_end_after(tokens, end);
        lemma_widened(tokens, snap_start, snap_end, MAX_ROUNDS as nat);
    }
}

/// The longest complete spans that begin at `start` and end at or before `end`, longest first,
/// at most `quota` of them.
pub open spec fn longest_from(tokens: Seq<Token>, start: int, end: int, quota: int) -> Seq<(int, int)>
    decreases end - start,
{
    if end <= start || quota <= 0 {
        Seq::empty()
    } else if is_complete(tokens, start, end) {
        seq![(start, end)] + longest_from(tokens, start, end - 1, quota - 1)
    } else {
        longest_from(tokens, start, end - 1, quota)
    }
}

/// How many complete spans are kept per start.
pub const SPANS_PER_START: usize = 4;

/// How many complete spans are kept in all.
pub const MAX_RANGES: usize = 64;

/// Spans longer than this are not searched for complete ranges.
pub const MAX_RANGE_TOKENS: usize = 4096;

/// The longest complete spans within `start..end` for each of the first `n` starts.
pub open spec fn ranges_from_starts(tokens: Seq<Token>, start: int, end: int, n: int) -> Seq<
    (int, int),
>
    decreases n,
{
    if n <= 0 {
        Seq::empty()
    } else {
        ranges_from_starts(tokens, start, end, n - 1) + longest_from(
            tokens,
            start + n - 1,
            end,
            SPANS_PER_START as int,
        )
    }
}

/// Sort key that puts longer ranges first.
pub open spec fn range_key(range: (int, int)) -> u128 {
    (u64::MAX - (range.1 - range.0)) as u128
}

/// The complete spans within `start..end`: per start the longest ones, all of them ordered from
/// the longest to the shortest and cut off at `MAX_RANGES`.
pub open spec fn complete_ranges_of(tokens: Seq<Token>, start: int, end: int) -> Seq<(int, int)> {
    if start >= end || end > tokens.len() || end - start > MAX_RANGE_TOKENS {
        Seq::empty()
    } else {
        let all = ranges_from_starts(tokens, start, end, end - start);
        let sorted = crate::sort::stable_sorted(all, all.map_values(|r: (int, int)| range_key(r)));
        if sorted.len() <= MAX_RANGES {
            sorted
        } else {
            sorted.take(MAX_RANGES as int)
        }
    }
}

/// `ends` holds, in ascending order, the positions in `start + 1 ..= upto` where a unit ends at
/// bracket level `level`.
spec fn is_ends(
    tokens: Seq<Token>,
    ends: Seq<usize>,
    start: int,
    upto: int,
    level: int,
) -> bool {
    &&& forall|k: int|
        0 <= k < ends.len() ==> start < #[trigger] ends[k] <= upto
            && tokens[ends[k] - 1].unit_end() && balance(tokens, ends[k] as int) == level
    &&& forall|a: int, b: int| 0 <= a < b < ends.len() ==> #[trigger] ends[a] < #[trigger] ends[b]
    &&& forall|j: int|
        start < j <= upto && tokens[j - 1].unit_end() && #[trigger] balance(tokens, j) == level
            ==> ends.contains(j as usize)
}

proof fn lemma_skip_incomplete(tokens: Seq<Token>, start: int, from: int, to: int, quota: int)
    requires
        start <= to <= from,
        forall|j: int| to < j <= from ==> !(#[trigger] is_complete(tokens, start, j)),
    ensures
        longest_from(tokens, start, from, quota) == longest_from(tokens, start, to, quota),
    decreases from - to,
{
    if to < from {
        assert(!is_complete(tokens, start, from));
        lemma_skip_incomplete(tokens, start, from - 1, to, quota);
    }
}

/// The unit ends of a span, grouped by bracket level; the level of `start` is at index `len`.
fn ends_by_level(tokens: &Vec<Token>, meta: &SpanMeta, start: usize, end: usize) -> (table: Vec<
    Vec<usize>,
>)
    requires
        start < end <= tokens@.len(),
        end - start <= MAX_RANGE_TOKENS,
        is_span_meta(tokens@, *meta),
    ensures
        table@.len() == 2 * (end - start) + 1,
        forall|d: int|
            0 <= d < table@.len() ==> is_ends(
                tokens@,
                (#[trigger] table@[d])@,
                start as int,
                end as int,
                balance(tokens@, start as int) + d - (end - start),
            ),
{
    let len: usize = end - start;
    let ghost base = balance(tokens@, start as int);
    let mut table: Vec<Vec<usize>> = Vec::new();
    let mut slot: usize = 0;
    while slot < 2 * len + 1
        invariant
            slot <= 2 * len + 1,
            len <= MAX_RANGE_TOKENS,
            table@.len() == slot,
            forall|d: int| 0 <= d < table@.len() ==> (#[trigger] table@[d])@ == Seq::<usize>::empty(),
        decreases 2 * len + 1 - slot,
    {
        table.push(Vec::new());
        slot = slot + 1;
    }
    let mut j: usize = start;
    while j < end
        invariant
            start <= j <= end <= tokens@.len(),
            len == end - start,
            len <= MAX_RANGE_TOKENS,
            is_span_meta(tokens@, *meta),
            base == balance(tokens@, start as int),
            -(j - start) <= balance(tokens@, j as int) - base <= j - start,
            table@.len() == 2 * len + 1,
            forall|d: int|
                0 <= d < table@.len() ==> is_ends(
                    tokens@,
                    (#[trigger] table@[d])@,
                    start as int,
                    j as int,
                    base + d - len,
                ),
        decreases end - j,
    {
        let ghost table0 = table@;
        assert(balance(tokens@, j + 1) == balance(tokens@, j as int) + delta(tokens@[j as int]));
        j = j + 1;
        assert(meta.balance@[j as int] == balance(tokens@, j as int));
        assert(meta.balance@[start as int] == base);
        proof {
            lemma_balance_bounds(tokens@, start as int);
            lemma_balance_bounds(tokens@, j as int);
        }
        if tokens[j - 1].unit_end() {
            let depth: i64 = meta.balance[j] - meta.balance[start];
            let index: usize = (depth + len as i64) as usize;
            table[index].push(j);
            proof {
                assert forall|d: int| 0 <= d < table@.len() implies is_ends(
                    tokens@,
                    (#[trigger] table@[d])@,
                    start as int,
                    j as int,
                    base + d - len,
                ) by {
                    let before = table0[d]@;
                    let after = table@[d]@;
                    assert(is_ends(tokens@, before, start as int, j - 1, base + d - len));
                    if d == index {
                        assert(after == before.push(j));
                        assert forall|p: int|
                            start < p <= j && tokens@[p - 1].unit_end() && #[trigger] balance(
                                tokens@,
                                p,
                            ) == base + d - len implies after.contains(p as usize) by {
                            if p == j {
                                assert(after[before.len() as int] == p as usize);
                            } else {
                                let k = choose|k: int|
                                    0 <= k < before.len() && before[k] == p as usize;
                                assert(after[k] == p as usize);
                            }
                        }
                    } else {
                        assert(after == before);
                    }
                }
            }
        } else {
            proof {
                assert forall|d: int| 0 <= d < table@.len() implies is_ends(
                    tokens@,
                    (#[trigger] table@[d])@,
                    start as int,
                    j as int,
                    base + d - len,
                ) by {
                    assert(is_ends(
                        tokens@,
                        table0[d]@,
                        start as int,
                        j - 1,
                        base + d - len,
                    ));
                }
            }
        }
    }
    table
}

/// The longest complete spans that begin at `start`, found by walking the unit ends at its level.
fn longest_spans_from(
    tokens: &Vec<Token>,
    meta: &SpanMeta,
    start: usize,
    end: usize,
    ends: &Vec<usize>,
    Ghost(first): Ghost<int>,
) -> (ranges: Vec<(usize, usize)>)
    requires
        tokens@.len() < u32::MAX,
        is_span_meta(tokens@, *meta),
        first <= start < end <= tokens@.len(),
        is_ends(tokens@, ends@, first, end as int, balance(tokens@, start as int)),
    ensures
        pairs_view(ranges@) == longest_from(
            tokens@,
            start as int,
            end as int,
            SPANS_PER_START as int,
        ),
{
    let mut ranges: Vec<(usize, usize)> = Vec::new();
    if !tokens[start].unit_start() {
        proof {
            lemma_skip_incomplete(
                tokens@,
                start as int,
                end as int,
                start as int,
                SPANS_PER_START as int,
            );
        }
        return ranges;
    }
    let unit_end: usize = tokens[start].unit_end_of_start as usize;
    let ghost whole = longest_from(tokens@, start as int, end as int, SPANS_PER_START as int);
    let ghost mut seen: int = end as int;
    let mut k: usize = ends.len();
    while k > 0
        invariant
            tokens@.len() < u32::MAX,
            is_span_meta(tokens@, *meta),
            first <= start < end <= tokens@.len(),
            is_ends(tokens@, ends@, first, end as int, balance(tokens@, start as int)),
            tokens@[start as int].unit_start(),
            unit_end == tokens@[start as int].unit_end_of_start,
            k <= ends@.len(),
            start <= seen <= end,
            k < ends@.len() ==> seen < ends@[k as int],
            seen < end ==> k < ends@.len() && seen == ends@[k as int] - 1,
            ranges@.len() <= SPANS_PER_START,
            whole == pairs_view(ranges@) + longest_from(
                tokens@,
                start as int,
                seen,
                SPANS_PER_START - ranges@.len(),
            ),
            whole == longest_from(
                tokens@,
                start as int,
                end as int,
                SPANS_PER_START as int,
            ),
        decreases k,
    {
        let j: usize = ends[k - 1];
        proof {
            // No end at this level lies between `j` and `seen`.
            assert forall|p: int| (if j < start { start as int } else { j as int }) < p <= seen implies !(
            #[trigger] is_complete(tokens@, start as int, p)) by {
                if is_complete(tokens@, start as int, p) {
                    assert(balance(tokens@, p) == balance(tokens@, start as int));
                    assert(ends@.contains(p as usize));
                    let q = choose|q: int| 0 <= q < ends@.len() && ends@[q] == p as usize;
                    if q < k - 1 {
                        assert(ends@[q] < ends@[k - 1]);
                    } else if q > k - 1 {
                        if q > k {
                            assert(ends@[k as int] < ends@[q]);
                        }
                    }
                }
            }
            let stop = if j < start { start as int } else { j as int };
            if stop <= seen {
                lemma_skip_incomplete(
                    tokens@,
                    start as int,
                    seen,
                    stop,
                    SPANS_PER_START - ranges@.len(),
                );
            }
        }
        if j <= start || ranges.len() >= SPANS_PER_START || unit_end > j {
            proof {
                if j > start && ranges@.len() < SPANS_PER_START {
                    lemma_skip_incomplete(
                        tokens@,
                        start as int,
                        j as int,
                        start as int,
                        SPANS_PER_START - ranges@.len(),
                    );
                }
                assert(pairs_view(ranges@) + Seq::<(int, int)>::empty() =~= pairs_view(ranges@));
            }
            return ranges;
        }
        if is_complete_span(tokens, meta, start, j) {
            let ghost ranges0 = ranges@;
            ranges.push((start, j));
            proof {
                let quota = SPANS_PER_START - ranges@.len();
                assert(pairs_view(ranges0) + (seq![(start as int, j as int)] + longest_from(
                    tokens@,
                    start as int,
                    j - 1,
                    quota,
                )) =~= pairs_view(ranges@) + longest_from(tokens@, start as int, j - 1, quota));
            }
        }
        proof {
            seen = j - 1;
        }
        k = k - 1;
    }
    proof {
        assert forall|p: int| start < p <= seen implies !(#[trigger] is_complete(
            tokens@,
            start as int,
            p,
        )) by {
            if is_complete(tokens@, start as int, p) {
                assert(balance(tokens@, p) == balance(tokens@, start as int));
                assert(ends@.contains(p as usize));
                let q = choose|q: int| 0 <= q < ends@.len() && ends@[q] == p as usize;
                if q > 0 {
                    assert(ends@[0] < ends@[q]);
                }
            }
        }
        lemma_skip_incomplete(
            tokens@,
            start as int,
            seen,
            start as int,
            SPANS_PER_START - ranges@.len(),
        );
        assert(pairs_view(ranges@) + Seq::<(int, int)>::empty() =~= pairs_view(ranges@));
    }
    ranges
}

proof fn lemma_level_in_table(tokens: Seq<Token>, start: int, k: int)
    requires
        0 <= start <= k,
    ensures
        -(k - start) <= balance(tokens, k) - balance(tokens, start) <= k - start,
    decreases k - start,
{
    if start < k {
        lemma_level_in_table(tokens, start, k - 1);
    }
}

/// Every range is a complete span within `start..end`.
pub open spec fn all_complete_within(
    tokens: Seq<Token>,
    ranges: Seq<(int, int)>,
    start: int,
    end: int,
) -> bool {
    forall|r: int|
        0 <= r < ranges.len() ==> is_complete(tokens, (#[trigger] ranges[r]).0, ranges[r].1) && start
            <= ranges[r].0 && ranges[r].1 <= end
}

proof fn lemma_longest_from_range(tokens: Seq<Token>, start: int, end: int, quota: int)
    ensures
        all_complete_within(tokens, longest_from(tokens, start, end, quota), start, end),
    decreases end - start,
{
    if end > start && quota > 0 {
        if is_complete(tokens, start, end) {
            lemma_longest_from_range(tokens, start, end - 1, quota - 1);
            let rest = longest_from(tokens, start, end - 1, quota - 1);
            let whole = longest_from(tokens, start, end, quota);
            assert forall|r: int| 0 <= r < whole.len() implies is_complete(
                tokens,
                (#[trigger] whole[r]).0,
                whole[r].1,
            ) && start <= whole[r].0 && whole[r].1 <= end by {
                if r > 0 {
                    assert(whole[r] == rest[r - 1]);
                }
            }
        } else {
            lemma_longest_from_range(tokens, start, end - 1, quota);
            assert(all_complete_within(
                tokens,
                longest_from(tokens, start, end - 1, quota),
                start,
                end,
            ));
        }
    }
}

pub proof fn lemma_ranges_from_starts(tokens: Seq<Token>, start: int, end: int, n: int)
    ensures
        all_complete_within(tokens, ranges_from_starts(tokens, start, end, n), start, end),
    decreases n,
{
    if n > 0 {
        lemma_ranges_from_starts(tokens, start, end, n - 1);
        lemma_longest_from_range(tokens, start + n - 1, end, SPANS_PER_START as int);
        let head = ranges_from_starts(tokens, start, end, n - 1);
        let tail = longest_from(tokens, start + n - 1, end, SPANS_PER_START as int);
        let whole = ranges_from_starts(tokens, start, end, n);
        assert forall|r: int| 0 <= r < whole.len() implies is_complete(
            tokens,
            (#[trigger] whole[r]).0,
            whole[r].1,
        ) && start <= whole[r].0 && whole[r].1 <= end by {
            if r < head.len() {
                assert(whole[r] == head[r]);
            } else {
                assert(whole[r] == tail[r - head.len()]);
            }
        }
    }
}

/// Every range that is found is a complete span within the searched one.
pub proof fn complete_ranges_are_complete(tokens: Seq<Token>, start: int, end: int)
    ensures
        all_complete_within(tokens, complete_ranges_of(tokens, start, end), start, end),
{
    if start < end && end <= tokens.len() && end - start <= MAX_RANGE_TOKENS {
        let all = ranges_from_starts(tokens, start, end, end - start);
        let keys = all.map_values(|r: (int, int)| range_key(r));
        lemma_ranges_from_starts(tokens, start, end, end - start);
        crate::sort::lemma_stable_order(keys);
        let order = crate::sort::stable_order(keys);
        let found = complete_ranges_of(tokens, start, end);
        assert forall|r: int| 0 <= r < found.len() implies is_complete(
            tokens,
            (#[trigger] found[r]).0,
            found[r].1,
        ) && start <= found[r].0 && found[r].1 <= end by {
            assert(found[r] == all[order[r]]);
        }
    }
}

/// The complete spans within `start..end`, longest first.
pub fn complete_ranges(tokens: &Vec<Token>, meta: &SpanMeta, start: usize, end: usize) -> (ranges: Vec<
    (usize, usize),
>)
    requires
        tokens@.len() < u32::MAX,
        is_span_meta(tokens@, *meta),
    ensures
        pairs_view(ranges@) == complete_ranges_of(tokens@, start as int, end as int),
{
    let mut ranges: Vec<(usize, usize)> = Vec::new();
    if start >= end || end > tokens.len() {
        return ranges;
    }
    let len: usize = end - start;
    if len > MAX_RANGE_TOKENS {
        return ranges;
    }
    let table = ends_by_level(tokens, meta, start, end);
    let mut i: usize = 0;
    while i < len
        invariant
            tokens@.len() < u32::MAX,
            is_span_meta(tokens@, *meta),
            start < end <= tokens@.len(),
            len == end - start,
            len <= MAX_RANGE_TOKENS,
            i <= len,
            table@.len() == 2 * len + 1,
            forall|d: int|
                0 <= d < table@.len() ==> is_ends(
                    tokens@,
                    (#[trigger] table@[d])@,
                    start as int,
                    end as int,
                    balance(tokens@, start as int) + d - len,
                ),
            pairs_view(ranges@) == ranges_from_starts(tokens@, start as int, end as int, i as int),
        decreases len - i,
    {
        proof {
            lemma_level_in_table(tokens@, start as int, start + i);
            lemma_balance_bounds(tokens@, start as int);
            lemma_balance_bounds(tokens@, start + i);
            assert(meta.balance@[start as int] == balance(tokens@, start as int));
            assert(meta.balance@[start + i] == balance(tokens@, start + i));
        }
        let depth: i64 = meta.balance[start + i] - meta.balance[start];
        let index: usize = (depth + len as i64) as usize;
        assert(is_ends(
            tokens@,
            table@[index as int]@,
            start as int,
            end as int,
            balance(tokens@, start as int) + index - len,
        ));
        let mut found = longest_spans_from(
            tokens,
            meta,
            start + i,
            end,
            &table[index],
            Ghost(start as int),
        );
        let ghost ranges0 = ranges@;
        let ghost found0 = found@;
        ranges.append(&mut found);
        i = i + 1;
        assert(pairs_view(ranges@) =~= pairs_view(ranges0) + pairs_view(found0));
    }
    let mut keys: Vec<u128> = Vec::new();
    let mut k: usize = 0;
    let ghost all = ranges_from_starts(tokens@, start as int, end as int, len as int);
    let ghost all_keys = all.map_values(|r: (int, int)| range_key(r));
    proof {
        lemma_ranges_from_starts(tokens@, start as int, end as int, len as int);
    }
    while k < ranges.len()
        invariant
            k <= ranges@.len(),
            pairs_view(ranges@) == all,
            all_keys == all.map_values(|r: (int, int)| range_key(r)),
            all_complete_within(tokens@, all, start as int, end as int),
            keys@ == all_keys.take(k as int),
        decreases ranges@.len() - k,
    {
        assert(all[k as int] == (ranges@[k as int].0 as int, ranges@[k as int].1 as int));
        let (range_start, range_end) = ranges[k];
        keys.push((u64::MAX - (range_end - range_start) as u64) as u128);
        k = k + 1;
        assert(keys@ =~= all_keys.take(k as int));
    }
    assert(keys@ =~= all_keys);
    let mut sorted = sort_by_keys(&ranges, &keys);
    proof {
        crate::sort::lemma_stable_order(all_keys);
        assert(pairs_view(sorted@) =~= crate::sort::stable_sorted(all, all_keys));
    }
    let ghost sorted0 = sorted@;
    sorted.truncate(MAX_RANGES);
    proof {
        if sorted0.len() > MAX_RANGES {
            assert(pairs_view(sorted@) =~= pairs_view(sorted0).take(MAX_RANGES as int));
        }
    }
    sorted
}

} // verus!
