//! The shapes of spans: brackets, complete spans and rows of units, said of the marks of tokens.
use vstd::prelude::*;

use crate::model::Token;

verus! {

/// A token that opens a bracket.
pub open spec fn opens() -> spec_fn(Token) -> bool {
    |token: Token| token.flags & 8 != 0
}

/// A token that closes a bracket and opens none.
pub open spec fn only_closes() -> spec_fn(Token) -> bool {
    |token: Token| token.flags & 8 == 0 && token.flags & 16 != 0
}

/// How many more brackets are opened than closed from one token to another.
pub open spec fn open_between(tokens: Seq<Token>, from: int, to: int) -> int {
    tokens.subrange(from, to).filter(opens()).len() - tokens.subrange(from, to).filter(
        only_closes(),
    ).len()
}

/// The balance of brackets grows with those that are opened and falls with those that are closed.
pub proof fn balances_count_brackets(tokens: Seq<Token>, from: int, to: int)
    requires
        0 <= from <= to <= tokens.len(),
    ensures
        crate::spans::balance(tokens, to) - crate::spans::balance(tokens, from) == open_between(
            tokens,
            from,
            to,
        ),
    decreases to - from,
{
    let part = tokens.subrange(from, to);
    if from == to {
        crate::sort::lemma_filter_none(part, opens());
        crate::sort::lemma_filter_none(part, only_closes());
    } else {
        balances_count_brackets(tokens, from, to - 1);
        let shorter = tokens.subrange(from, to - 1);
        assert(part =~= shorter.push(tokens[to - 1]));
        crate::sort::lemma_filter_push(shorter, tokens[to - 1], opens());
        crate::sort::lemma_filter_push(shorter, tokens[to - 1], only_closes());
    }
}

/// The span begins where a unit begins and ends where one ends, each of its brackets is matched in
/// it, and no unit reaches out of it.
pub open spec fn is_whole(tokens: Seq<Token>, start: int, end: int) -> bool {
    &&& 0 <= start < end <= tokens.len()
    &&& tokens[start].flags & 1 != 0
    &&& tokens[end - 1].flags & 2 != 0
    &&& open_between(tokens, start, end) == 0
    &&& forall|k: int| start < k <= end ==> #[trigger] open_between(tokens, start, k) >= 0
    &&& forall|i: int|
        start <= i < end && (#[trigger] tokens[i]).flags & 1 != 0 ==> tokens[i].unit_end_of_start
            <= end
    &&& forall|i: int|
        start <= i < end - 1 && (#[trigger] tokens[i]).flags & 2 != 0 ==> start
            <= tokens[i].unit_start_of_end
}

/// Complete spans are those that are whole.
pub proof fn complete_spans_are_whole(tokens: Seq<Token>, start: int, end: int)
    ensures
        crate::spans::is_complete(tokens, start, end) <==> is_whole(tokens, start, end),
{
    if 0 <= start < end <= tokens.len() {
        assert forall|k: int| start <= k <= end implies #[trigger] crate::spans::balance(tokens, k)
            - crate::spans::balance(tokens, start) == open_between(tokens, start, k) by {
            balances_count_brackets(tokens, start, k);
        }
        if is_whole(tokens, start, end) {
            assert forall|k: int| start < k <= end implies #[trigger] crate::spans::balance(
                tokens,
                k,
            ) >= crate::spans::balance(tokens, start) by {
                assert(open_between(tokens, start, k) >= 0);
            }
        }
        if crate::spans::is_complete(tokens, start, end) {
            assert forall|k: int| start < k <= end implies #[trigger] open_between(
                tokens,
                start,
                k,
            ) >= 0 by {
                assert(crate::spans::balance(tokens, k) >= crate::spans::balance(tokens, start));
            }
        }
    }
}

proof fn lemma_start_is_nearest(tokens: Seq<Token>, start: int, outer: int)
    requires
        0 <= outer <= start,
        tokens[outer].unit_start(),
    ensures
        outer <= crate::spans::unit_start_before(tokens, start),
    decreases start,
{
    if outer < start && !tokens[start].unit_start() {
        lemma_start_is_nearest(tokens, start - 1, outer);
    }
}

proof fn lemma_end_is_nearest(tokens: Seq<Token>, end: int, outer: int)
    requires
        end <= outer <= tokens.len(),
        tokens[outer - 1].unit_end(),
    ensures
        crate::spans::unit_end_after(tokens, end) <= outer,
    decreases tokens.len() - end,
{
    if end < outer && !tokens[end - 1].unit_end() {
        lemma_end_is_nearest(tokens, end + 1, outer);
    }
}

proof fn lemma_lower_by(tokens: Seq<Token>, from: int, close: int, to: int)
    requires
        crate::spans::is_next_lower(tokens, from, close),
        from <= to,
        crate::spans::balance(tokens, to) < crate::spans::balance(tokens, from),
    ensures
        close <= to,
{
    if to < close {
        assert(from < to);
        assert(crate::spans::balance(tokens, to) >= crate::spans::balance(tokens, from));
    }
}

proof fn lemma_beyond_at(tokens: Seq<Token>, from: int, end: int, limit: int)
    ensures
        crate::spans::first_unit_beyond(tokens, from, end, limit) matches Some(i) ==> from <= i < end
            && tokens[i].unit_start(),
    decreases end - from,
{
    if from < end {
        lemma_beyond_at(tokens, from + 1, end, limit);
    }
}

proof fn lemma_before_at(tokens: Seq<Token>, from: int, end: int, limit: int)
    ensures
        crate::spans::first_unit_before(tokens, from, end, limit) matches Some(i) ==> from <= i < end
            && tokens[i].unit_end(),
    decreases end - from,
{
    if from < end {
        lemma_before_at(tokens, from + 1, end, limit);
    }
}

/// A step that widens a span stays within every complete span that holds it.
proof fn lemma_widen_within(tokens: Seq<Token>, start: int, end: int, outer: int, outer_end: int)
    requires
        0 <= start < end <= tokens.len(),
        crate::spans::is_complete(tokens, outer, outer_end),
        outer <= start && end <= outer_end,
    ensures
        crate::spans::widen(tokens, start, end) matches Some((s, e)) ==> outer <= s && e
            <= outer_end,
{
    if crate::spans::widen(tokens, start, end) is Some {
        if crate::spans::balance(tokens, end) > crate::spans::balance(tokens, start) {
            let open = crate::spans::last_at_level(tokens, start, end);
            let close = choose|close: int| crate::spans::closes(tokens, open, close);
            crate::spans::lemma_last_at_level(tokens, start, end);
            assert(crate::spans::closes(tokens, open, close));
            assert(crate::spans::balance(tokens, open + 1) == crate::spans::balance(tokens, open)
                + 1);
            if outer < start {
                assert(crate::spans::balance(tokens, start) >= crate::spans::balance(tokens, outer));
            }
            lemma_lower_by(tokens, open + 1, close + 1, outer_end);
        } else {
            lemma_beyond_at(tokens, start, end, end);
            lemma_before_at(tokens, start, end - 1, start);
        }
    }
}

proof fn lemma_widened_within(
    tokens: Seq<Token>,
    start: int,
    end: int,
    rounds: nat,
    outer: int,
    outer_end: int,
)
    requires
        0 <= start < end <= tokens.len(),
        crate::spans::is_complete(tokens, outer, outer_end),
        outer <= start && end <= outer_end,
    ensures
        crate::spans::widened(tokens, start, end, rounds) matches Some((s, e)) ==> outer <= s && e
            <= outer_end,
    decreases rounds,
{
    if rounds > 0 && !crate::spans::is_complete(tokens, start, end) {
        crate::spans::lemma_widen(tokens, start, end);
        lemma_widen_within(tokens, start, end, outer, outer_end);
        if let Some((wider_start, wider_end)) = crate::spans::widen(tokens, start, end) {
            let snapped = crate::spans::unit_end_after(tokens, wider_end);
            crate::spans::lemma_unit_end_after(tokens, wider_end);
            lemma_end_is_nearest(tokens, wider_end, outer_end);
            if snapped <= tokens.len() {
                lemma_widened_within(
                    tokens,
                    wider_start,
                    snapped,
                    (rounds - 1) as nat,
                    outer,
                    outer_end,
                );
            }
        }
    }
}

/// The span that a span grows to is the least complete one that holds it: it lies in every other.
pub proof fn spans_grow_no_further_than_needed(
    tokens: Seq<Token>,
    start: int,
    end: int,
    outer: int,
    outer_end: int,
)
    requires
        is_whole(tokens, outer, outer_end),
        outer <= start < end <= outer_end,
    ensures
        crate::spans::snapped_out(tokens, start, end) matches Some((s, e)) ==> is_whole(tokens, s, e)
            && outer <= s <= start && end <= e <= outer_end,
{
    complete_spans_are_whole(tokens, outer, outer_end);
    crate::spans::snapped_spans_hold_what_they_grew_from(tokens, start, end);
    let snap_start = crate::spans::unit_start_before(tokens, start);
    let snap_end = crate::spans::unit_end_after(tokens, end);
    crate::spans::lemma_unit_start_before(tokens, start);
    crate::spans::lemma_unit_end_after(tokens, end);
    lemma_start_is_nearest(tokens, start, outer);
    lemma_end_is_nearest(tokens, end, outer_end);
    if let Some((s, e)) = crate::spans::snapped_out(tokens, start, end) {
        lemma_widened_within(
            tokens,
            snap_start,
            snap_end,
            crate::spans::MAX_ROUNDS as nat,
            outer,
            outer_end,
        );
        complete_spans_are_whole(tokens, s, e);
    }
}

/// The token begins a unit or a container that ends before position `end`.
pub open spec fn begins_unit(token: Token, end: int) -> bool {
    ||| token.flags & 1 != 0 && token.unit_end_of_start == end
    ||| token.flags & 4 != 0 && token.container_end_of_start == end
}

/// The widest unit or container that begins at a position and ends by another.
pub open spec fn is_widest(tokens: Seq<Token>, at: int, next: int, end: int) -> bool {
    &&& begins_unit(tokens[at], next)
    &&& next <= end
    &&& forall|wider: int| #[trigger]
        begins_unit(tokens[at], wider) && wider <= end ==> wider <= next
}

/// The units stand in a row from one position to another: each begins where the one before ends,
/// and none is shorter than it could be.
pub open spec fn is_row(tokens: Seq<Token>, units: Seq<(int, int)>, start: int, end: int) -> bool {
    &&& units.len() > 0
    &&& units[0].0 == start
    &&& units.last().1 == end
    &&& forall|u: int|
        0 <= u < units.len() ==> {
            let unit = #[trigger] units[u];
            unit.0 < unit.1 && is_widest(tokens, unit.0, unit.1, end)
        }
    &&& forall|u: int| 0 <= u < units.len() - 1 ==> (#[trigger] units[u]).1 == units[u + 1].0
}

proof fn lemma_widest(tokens: Seq<Token>, index: int, end: int)
    ensures
        match crate::spans::widest_end(tokens, index, end) {
            Some(next) => is_widest(tokens, index, next, end),
            None => forall|next: int|
                next <= end ==> !#[trigger] begins_unit(tokens[index], next),
        },
{
}

/// A span is broken down to the row of units that it is, and to nothing if it is none.
#[verifier::rlimit(30)]
#[verifier::spinoff_prover]
pub proof fn rows_are_broken_down_to_their_units(tokens: Seq<Token>, start: int, end: int)
    requires
        start < end,
    ensures
        crate::spans::top_units(tokens, start, end).len() > 0 ==> is_row(
            tokens,
            crate::spans::top_units(tokens, start, end),
            start,
            end,
        ),
    decreases end - start,
{
    lemma_widest(tokens, start, end);
    if let Some(next) = crate::spans::widest_end(tokens, start, end) {
        if start < next {
            if let Some(rest) = crate::spans::unit_row(tokens, next, end) {
                let units = seq![(start, next)] + rest;
                assert(crate::spans::top_units(tokens, start, end) == units);
                if next < end {
                    rows_are_broken_down_to_their_units(tokens, next, end);
                    assert(rest == crate::spans::top_units(tokens, next, end));
                    lemma_row_is_not_empty(tokens, next, end);
                    assert forall|u: int| 0 <= u < units.len() implies {
                        let unit = #[trigger] units[u];
                        unit.0 < unit.1 && is_widest(tokens, unit.0, unit.1, end)
                    } by {
                        if u > 0 {
                            assert(units[u] == rest[u - 1]);
                        }
                    }
                    assert forall|u: int| 0 <= u < units.len() - 1 implies (
                    #[trigger] units[u]).1 == units[u + 1].0 by {
                        if u > 0 {
                            assert(units[u] == rest[u - 1]);
                            assert(units[u + 1] == rest[u]);
                        } else {
                            assert(units[1] == rest[0]);
                        }
                    }
                    assert(units.last() == rest.last());
                } else {
                    assert(rest =~= Seq::empty());
                }
            }
        }
    }
}

proof fn lemma_row_is_not_empty(tokens: Seq<Token>, start: int, end: int)
    requires
        start < end,
    ensures
        crate::spans::unit_row(tokens, start, end) matches Some(units) ==> units.len() > 0,
{
}

/// A row of units is broken down.
pub proof fn rows_of_units_are_found(
    tokens: Seq<Token>,
    units: Seq<(int, int)>,
    start: int,
    end: int,
)
    requires
        is_row(tokens, units, start, end),
    ensures
        crate::spans::top_units(tokens, start, end) == units,
    decreases units.len(),
{
    let next = units[0].1;
    lemma_widest(tokens, start, end);
    assert(is_widest(tokens, units[0].0, next, end));
    assert(begins_unit(tokens[start], next));
    let found = crate::spans::widest_end(tokens, start, end)->0;
    assert(begins_unit(tokens[start], found));
    assert(found == next);
    let rest = units.skip(1);
    assert(units =~= seq![(start, next)] + rest);
    if units.len() == 1 {
        assert(rest =~= Seq::empty());
        assert(crate::spans::unit_row(tokens, next, end) == Some(Seq::<(int, int)>::empty()));
    } else {
        assert(units[0].1 == units[1].0);
        assert forall|u: int| 0 <= u < rest.len() implies {
            let unit = #[trigger] rest[u];
            unit.0 < unit.1 && is_widest(tokens, unit.0, unit.1, end)
        } by {
            assert(rest[u] == units[u + 1]);
        }
        assert forall|u: int| 0 <= u < rest.len() - 1 implies (#[trigger] rest[u]).1 == rest[u
            + 1].0 by {
            assert(rest[u] == units[u + 1]);
            assert(units[u + 1].1 == units[u + 2].0);
        }
        assert(rest.last() == units.last());
        rows_of_units_are_found(tokens, rest, next, end);
        lemma_row_found(tokens, next, end, rest);
    }
}

proof fn lemma_row_found(tokens: Seq<Token>, start: int, end: int, units: Seq<(int, int)>)
    requires
        units.len() > 0,
        crate::spans::top_units(tokens, start, end) == units,
    ensures
        crate::spans::unit_row(tokens, start, end) == Some(units),
{
}

#[verifier::rlimit(30)]
#[verifier::spinoff_prover]
proof fn lemma_longest(tokens: Seq<Token>, start: int, end: int, quota: int, at: int)
    requires
        start < at <= end,
        quota >= 0,
        crate::spans::is_complete(tokens, start, at),
    ensures
        ({
            let found = crate::spans::longest_from(tokens, start, end, quota);
            &&& found.len() <= quota
            &&& found.contains((start, at)) || found.len() == quota
            &&& forall|r: int|
                0 <= r < found.len() ==> (#[trigger] found[r]).0 == start && found[r].1 <= end
            &&& !found.contains((start, at)) ==> forall|r: int|
                0 <= r < found.len() ==> at < (#[trigger] found[r]).1
        }),
    decreases end - start,
{
    let found = crate::spans::longest_from(tokens, start, end, quota);
    if quota > 0 {
        if crate::spans::is_complete(tokens, start, end) {
            let rest = crate::spans::longest_from(tokens, start, end - 1, quota - 1);
            assert(found == seq![(start, end)] + rest);
            assert(found[0] == (start, end));
            if at < end {
                lemma_longest(tokens, start, end - 1, quota - 1, at);
                if rest.contains((start, at)) {
                    let r = choose|r: int| 0 <= r < rest.len() && rest[r] == (start, at);
                    assert(found[r + 1] == (start, at));
                }
                assert forall|r: int| 0 <= r < found.len() implies (#[trigger] found[r]).0 == start
                    && found[r].1 <= end && (!found.contains((start, at)) ==> at < found[r].1) by {
                    if r > 0 {
                        assert(found[r] == rest[r - 1]);
                    }
                }
            } else {
                lemma_longest_bound(tokens, start, end - 1, quota - 1);
                assert forall|r: int| 0 <= r < found.len() implies (#[trigger] found[r]).0 == start
                    && found[r].1 <= end by {
                    if r > 0 {
                        assert(found[r] == rest[r - 1]);
                    }
                }
            }
        } else {
            lemma_longest(tokens, start, end - 1, quota, at);
        }
    }
}

proof fn lemma_longest_bound(tokens: Seq<Token>, start: int, end: int, quota: int)
    requires
        quota >= 0,
    ensures
        ({
            let found = crate::spans::longest_from(tokens, start, end, quota);
            &&& found.len() <= quota
            &&& forall|r: int|
                0 <= r < found.len() ==> (#[trigger] found[r]).0 == start && found[r].1 <= end
        }),
    decreases end - start,
{
    if end > start && quota > 0 {
        let found = crate::spans::longest_from(tokens, start, end, quota);
        if crate::spans::is_complete(tokens, start, end) {
            let rest = crate::spans::longest_from(tokens, start, end - 1, quota - 1);
            lemma_longest_bound(tokens, start, end - 1, quota - 1);
            assert forall|r: int| 0 <= r < found.len() implies (#[trigger] found[r]).0 == start
                && found[r].1 <= end by {
                if r > 0 {
                    assert(found[r] == rest[r - 1]);
                }
            }
        } else {
            lemma_longest_bound(tokens, start, end - 1, quota);
        }
    }
}

/// The longest complete spans from one start: at most four, and one that is left out is shorter
/// than all four.
pub proof fn the_longest_from_a_start_are_kept(tokens: Seq<Token>, start: int, end: int, at: int)
    requires
        start < at <= end,
        is_whole(tokens, start, at),
    ensures
        ({
            let found = crate::spans::longest_from(
                tokens,
                start,
                end,
                crate::spans::SPANS_PER_START as int,
            );
            &&& found.len() <= 4
            &&& found.contains((start, at)) || (found.len() == 4 && forall|r: int|
                0 <= r < 4 ==> at < (#[trigger] found[r]).1)
        }),
{
    complete_spans_are_whole(tokens, start, at);
    lemma_longest(tokens, start, end, 4, at);
}

proof fn lemma_from_starts(tokens: Seq<Token>, start: int, end: int, n: int, s: int, r: int)
    requires
        0 <= s - start < n,
        0 <= r < crate::spans::longest_from(
            tokens,
            s,
            end,
            crate::spans::SPANS_PER_START as int,
        ).len(),
    ensures
        crate::spans::ranges_from_starts(tokens, start, end, n).contains(
            crate::spans::longest_from(tokens, s, end, crate::spans::SPANS_PER_START as int)[r],
        ),
    decreases n,
{
    let before = crate::spans::ranges_from_starts(tokens, start, end, n - 1);
    let all = crate::spans::ranges_from_starts(tokens, start, end, n);
    let own = crate::spans::longest_from(
        tokens,
        start + n - 1,
        end,
        crate::spans::SPANS_PER_START as int,
    );
    if s == start + n - 1 {
        assert(all[before.len() + r] == own[r]);
    } else {
        lemma_from_starts(tokens, start, end, n - 1, s, r);
        let wanted = crate::spans::longest_from(
            tokens,
            s,
            end,
            crate::spans::SPANS_PER_START as int,
        )[r];
        let k = choose|k: int| 0 <= k < before.len() && before[k] == wanted;
        assert(all[k] == wanted);
    }
}

/// The complete spans within a span come from the longest to the shortest, and at most sixty-four
/// of them. Of at most 4096 tokens none is left out but for these limits: one that is not there is
/// shorter than four from the same start, or no longer than all of the sixty-four.
#[verifier::rlimit(30)]
#[verifier::spinoff_prover]
pub proof fn the_longest_complete_spans_come_first(
    tokens: Seq<Token>,
    start: int,
    end: int,
    s: int,
    e: int,
)
    requires
        0 <= start <= s < e <= end <= tokens.len(),
        end - start <= 4096,
        is_whole(tokens, s, e),
    ensures
        ({
            let ranges = crate::spans::complete_ranges_of(tokens, start, end);
            let same = crate::spans::longest_from(
                tokens,
                s,
                end,
                crate::spans::SPANS_PER_START as int,
            );
            &&& ranges.len() <= 64
            &&& forall|a: int, b: int|
                0 <= a < b < ranges.len() ==> (#[trigger] ranges[a]).1 - ranges[a].0 >= (
                #[trigger] ranges[b]).1 - ranges[b].0
            &&& {
                ||| ranges.contains((s, e))
                ||| same.len() == 4 && forall|r: int| 0 <= r < 4 ==> e < (#[trigger] same[r]).1
                ||| ranges.len() == 64 && forall|a: int|
                    0 <= a < 64 ==> (#[trigger] ranges[a]).1 - ranges[a].0 >= e - s
            }
        }),
{
    let quota = crate::spans::SPANS_PER_START as int;
    let all = crate::spans::ranges_from_starts(tokens, start, end, end - start);
    let keys = all.map_values(|r: (int, int)| crate::spans::range_key(r));
    let sorted = crate::sort::stable_sorted(all, keys);
    let order = crate::sort::stable_order(keys);
    let ranges = crate::spans::complete_ranges_of(tokens, start, end);
    let same = crate::spans::longest_from(tokens, s, end, quota);
    crate::sort::lemma_stable_order(keys);
    crate::spans::complete_ranges_are_complete(tokens, start, end);
    crate::spans::lemma_ranges_from_starts(tokens, start, end, end - start);
    assert forall|a: int, b: int| 0 <= a < b < sorted.len() implies (#[trigger] sorted[a]).1
        - sorted[a].0 >= (#[trigger] sorted[b]).1 - sorted[b].0 by {
        assert(crate::sort::before(keys, order[a], order[b]));
        assert(sorted[a] == all[order[a]] && sorted[b] == all[order[b]]);
        assert(0 <= all[order[a]].1 - all[order[a]].0 <= 4096);
        assert(0 <= all[order[b]].1 - all[order[b]].0 <= 4096);
    }
    the_longest_from_a_start_are_kept(tokens, s, end, e);
    if same.contains((s, e)) {
        let r = choose|r: int| 0 <= r < same.len() && same[r] == (s, e);
        lemma_from_starts(tokens, start, end, end - start, s, r);
        let k = choose|k: int| 0 <= k < all.len() && all[k] == (s, e);
        assert(order.contains(k));
        let at = choose|at: int| 0 <= at < order.len() && order[at] == k;
        assert(sorted[at] == (s, e));
        if at < ranges.len() {
            assert(ranges[at] == (s, e));
        } else {
            assert forall|a: int| 0 <= a < 64 implies (#[trigger] ranges[a]).1 - ranges[a].0 >= e
                - s by {
                assert(ranges[a] == sorted[a]);
                assert(sorted[a].1 - sorted[a].0 >= sorted[at].1 - sorted[at].0);
            }
        }
    }
}

} // verus!
