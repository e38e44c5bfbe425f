//! Clustering matches into clone groups.
use std::collections::HashMap;
use vstd::prelude::*;
use vstd::utf8::encode_utf8;

use crate::config::Config;
use crate::encode::{span_fingerprint, spans_equal, SpanScratch};
use crate::model::{CloneGroup, CloneType, Occurrence, SourceFile};
use crate::partition::{group_by_label, Dsu};
use crate::sort::{sort_by_keys, sorted_order};
use crate::spans::{
    complete_ranges, is_complete_span, is_single_unit_span, snap_out, top_level_units,
};
use crate::text::{byte_range, bytes_equal};

verus! {

/// Every file is well formed and its unit marks are.
pub open spec fn files_ready(files: Seq<&SourceFile>) -> bool {
    forall|i: int|
        0 <= i < files.len() ==> (#[trigger] files[i]).wf() && crate::spans::marks_wf(
            files[i].tokens@,
        )
}

/// All occurrences lie in the files.
pub open spec fn all_occur(files: Seq<&SourceFile>, occurrences: Seq<Occurrence>) -> bool {
    forall|i: int|
        0 <= i < occurrences.len() ==> crate::matching::occurs(files, #[trigger] occurrences[i])
}

/// Sort key of an occurrence: by file, then start, then end.
pub open spec fn occurrence_key(occurrence: Occurrence) -> u128 {
    (occurrence.file * 0x1_0000_0000_0000_0000 + occurrence.start * 0x1_0000_0000
        + occurrence.end) as u128
}

/// The order of occurrences.
pub open spec fn by_occurrence() -> spec_fn(Occurrence) -> u128 {
    |occurrence: Occurrence| occurrence_key(occurrence)
}

/// Different occurrences have different keys, ordered by file, start and end.
pub proof fn lemma_occurrence_key(a: Occurrence, b: Occurrence)
    ensures
        occurrence_key(a) == occurrence_key(b) ==> a == b,
        occurrence_key(a) < occurrence_key(b) <==> a.file < b.file || (a.file == b.file && (a.start
            < b.start || (a.start == b.start && a.end < b.end))),
{
}

fn key_of(occurrence: &Occurrence) -> (key: u128)
    ensures
        key == occurrence_key(*occurrence),
{
    occurrence.file as u128 * 0x1_0000_0000_0000_0000 + occurrence.start as u128 * 0x1_0000_0000
        + occurrence.end as u128
}

/// The occurrences in ascending order.
fn sort_occurrences(occurrences: &Vec<Occurrence>) -> (sorted: Vec<Occurrence>)
    ensures
        sorted@ == crate::sort::sorted_with(occurrences@, by_occurrence()),
{
    let mut keys: Vec<u128> = Vec::new();
    let ghost wanted = occurrences@.map_values(by_occurrence());
    let mut i: usize = 0;
    while i < occurrences.len()
        invariant
            i <= occurrences@.len(),
            wanted == occurrences@.map_values(by_occurrence()),
            keys@ == wanted.take(i as int),
        decreases occurrences@.len() - i,
    {
        keys.push(key_of(&occurrences[i]));
        i = i + 1;
        assert(keys@ =~= wanted.take(i as int));
    }
    assert(keys@ =~= wanted);
    sort_by_keys(occurrences, &keys)
}

/// Sorting keeps what holds of every element.
pub proof fn lemma_sorted_members(s: Seq<Occurrence>, i: int) -> (j: int)
    requires
        0 <= i < crate::sort::sorted_with(s, by_occurrence()).len(),
    ensures
        0 <= j < s.len(),
        s[j] == crate::sort::sorted_with(s, by_occurrence())[i],
{
    let keys = s.map_values(by_occurrence());
    crate::sort::lemma_stable_order(keys);
    crate::sort::stable_order(keys)[i]
}

/// Every element is still there after sorting.
pub proof fn lemma_sorted_keeps(s: Seq<Occurrence>, j: int) -> (i: int)
    requires
        0 <= j < s.len(),
    ensures
        0 <= i < crate::sort::sorted_with(s, by_occurrence()).len(),
        crate::sort::sorted_with(s, by_occurrence())[i] == s[j],
{
    let keys = s.map_values(by_occurrence());
    crate::sort::lemma_stable_order(keys);
    let order = crate::sort::stable_order(keys);
    assert(order.contains(j));
    choose|i: int| 0 <= i < order.len() && order[i] == j
}

/// The spans of the first `n` matches, one after the other.
pub open spec fn match_ends(matches: Seq<(Occurrence, Occurrence)>, n: int) -> Seq<Occurrence>
    decreases n,
{
    if n <= 0 {
        Seq::empty()
    } else {
        match_ends(matches, n - 1).push(matches[n - 1].0).push(matches[n - 1].1)
    }
}

/// The distinct elements of the first `n`, in order of first appearance.
pub open spec fn distinct(occurrences: Seq<Occurrence>, n: int) -> Seq<Occurrence>
    decreases n,
{
    if n <= 0 {
        Seq::empty()
    } else {
        let earlier = distinct(occurrences, n - 1);
        if earlier.contains(occurrences[n - 1]) {
            earlier
        } else {
            earlier.push(occurrences[n - 1])
        }
    }
}

/// The distinct spans of the matches, in order of first appearance.
pub open spec fn distinct_ends(matches: Seq<(Occurrence, Occurrence)>) -> Seq<Occurrence> {
    let ends = match_ends(matches, matches.len() as int);
    distinct(ends, ends.len() as int)
}

/// The position at which an element first stands.
pub open spec fn first_index(occurrences: Seq<Occurrence>, occurrence: Occurrence) -> int
    decreases occurrences.len(),
{
    if occurrences.len() == 0 || occurrences[0] == occurrence {
        0
    } else {
        1 + first_index(occurrences.skip(1), occurrence)
    }
}

pub proof fn lemma_first_index(occurrences: Seq<Occurrence>, occurrence: Occurrence)
    ensures
        0 <= first_index(occurrences, occurrence) <= occurrences.len(),
        occurrences.contains(occurrence) ==> first_index(occurrences, occurrence)
            < occurrences.len() && occurrences[first_index(occurrences, occurrence)] == occurrence,
        !occurrences.contains(occurrence) ==> first_index(occurrences, occurrence)
            == occurrences.len(),
        forall|i: int|
            0 <= i < first_index(occurrences, occurrence) ==> #[trigger] occurrences[i]
                != occurrence,
    decreases occurrences.len(),
{
    if occurrences.len() > 0 && occurrences[0] != occurrence {
        let rest = occurrences.skip(1);
        lemma_first_index(rest, occurrence);
        if occurrences.contains(occurrence) {
            let i = choose|i: int| 0 <= i < occurrences.len() && occurrences[i] == occurrence;
            assert(rest[i - 1] == occurrence);
        }
        if rest.contains(occurrence) {
            let i = choose|i: int| 0 <= i < rest.len() && rest[i] == occurrence;
            assert(occurrences[i + 1] == occurrence);
        }
        assert forall|i: int| 0 <= i < first_index(occurrences, occurrence) implies #[trigger] occurrences[i]
            != occurrence by {
            if i > 0 {
                assert(occurrences[i] == rest[i - 1]);
            }
        }
    }
}

/// An element of a sequence without duplicates stands where it first stands.
proof fn lemma_first_index_at(occurrences: Seq<Occurrence>, i: int)
    requires
        occurrences.no_duplicates(),
        0 <= i < occurrences.len(),
    ensures
        first_index(occurrences, occurrences[i]) == i,
{
    lemma_first_index(occurrences, occurrences[i]);
    assert(occurrences.contains(occurrences[i]));
}

/// Each match as the pair of positions of its spans among the distinct ones.
pub open spec fn match_pairs(
    matches: Seq<(Occurrence, Occurrence)>,
    ends: Seq<Occurrence>,
) -> Seq<(int, int)> {
    matches.map_values(
        |m: (Occurrence, Occurrence)| (first_index(ends, m.0), first_index(ends, m.1)),
    )
}

pub proof fn lemma_distinct(occurrences: Seq<Occurrence>, n: int)
    requires
        0 <= n <= occurrences.len(),
    ensures
        distinct(occurrences, n).no_duplicates(),
        distinct(occurrences, n).len() <= n,
        forall|i: int|
            0 <= i < n ==> distinct(occurrences, n).contains(#[trigger] occurrences[i]),
        forall|k: int|
            0 <= k < distinct(occurrences, n).len() ==> exists|i: int|
                0 <= i < n && #[trigger] occurrences[i] == #[trigger] distinct(occurrences, n)[k],
    decreases n,
{
    if n > 0 {
        lemma_distinct(occurrences, n - 1);
        let earlier = distinct(occurrences, n - 1);
        let now = distinct(occurrences, n);
        assert forall|i: int| 0 <= i < n implies now.contains(#[trigger] occurrences[i]) by {
            if i == n - 1 {
                if !earlier.contains(occurrences[n - 1]) {
                    assert(now[earlier.len() as int] == occurrences[n - 1]);
                }
            } else {
                let k = choose|k: int| 0 <= k < earlier.len() && earlier[k] == occurrences[i];
                assert(now[k] == occurrences[i]);
            }
        }
        assert forall|k: int| 0 <= k < now.len() implies exists|i: int|
            0 <= i < n && #[trigger] occurrences[i] == #[trigger] now[k] by {
            if k < earlier.len() {
                assert(now[k] == earlier[k]);
                let i = choose|i: int| 0 <= i < n - 1 && #[trigger] occurrences[i] == earlier[k];
                assert(occurrences[i] == now[k]);
            } else {
                assert(occurrences[n - 1] == now[k]);
            }
        }
    }
}

/// The distinct spans of a prefix are a prefix of the distinct spans.
proof fn lemma_distinct_prefix(occurrences: Seq<Occurrence>, m: int, n: int)
    requires
        0 <= m <= n <= occurrences.len(),
    ensures
        distinct(occurrences, m).len() <= distinct(occurrences, n).len(),
        forall|k: int|
            0 <= k < distinct(occurrences, m).len() ==> #[trigger] distinct(occurrences, m)[k]
                == distinct(occurrences, n)[k],
    decreases n,
{
    if m < n {
        lemma_distinct_prefix(occurrences, m, n - 1);
    }
}

pub proof fn lemma_match_ends(matches: Seq<(Occurrence, Occurrence)>, n: int, total: int)
    requires
        0 <= n <= total <= matches.len(),
    ensures
        match_ends(matches, n).len() == 2 * n,
        match_ends(matches, total).len() == 2 * total,
        match_ends(matches, total).take(2 * n) == match_ends(matches, n),
        forall|i: int|
            0 <= i < n ==> match_ends(matches, n)[2 * i] == (#[trigger] matches[i]).0 && match_ends(
                matches,
                n,
            )[2 * i + 1] == matches[i].1,
    decreases total,
{
    if n < total {
        lemma_match_ends(matches, n, total - 1);
        assert(match_ends(matches, total).take(2 * n) =~= match_ends(matches, total - 1).take(
            2 * n,
        ));
    } else if n > 0 {
        lemma_match_ends(matches, n - 1, n - 1);
        assert(match_ends(matches, n).take(2 * n) =~= match_ends(matches, n));
    }
}

/// Numbers the distinct spans: gives the number of `occurrence`, a new one if it is new.
fn intern(
    occurrence: Occurrence,
    ids: &mut HashMap<u128, usize>,
    ends: &mut Vec<Occurrence>,
) -> (id: usize)
    requires
        is_numbering(old(ids)@, old(ends)@),
    ensures
        is_numbering(final(ids)@, final(ends)@),
        final(ends)@ == (if old(ends)@.contains(occurrence) {
            old(ends)@
        } else {
            old(ends)@.push(occurrence)
        }),
        id < final(ends)@.len(),
        final(ends)@[id as int] == occurrence,
{
    broadcast use vstd::std_specs::hash::group_hash_axioms;

    let key = key_of(&occurrence);
    let known = ids.get(&key);
    if let Some(id) = known {
        let id: usize = *id;
        proof {
            lemma_occurrence_key(ends@[id as int], occurrence);
            assert(ends@[id as int] == occurrence);
        }
        return id;
    }
    let id: usize = ends.len();
    proof {
        if ends@.contains(occurrence) {
            let i = choose|i: int| 0 <= i < ends@.len() && ends@[i] == occurrence;
            assert(ids@.dom().contains(occurrence_key(ends@[i])));
        }
    }
    let ghost ends0 = ends@;
    let ghost ids0 = ids@;
    ends.push(occurrence);
    ids.insert(key, id);
    proof {
        assert forall|i: int| 0 <= i < ends@.len() implies ids@.dom().contains(
            occurrence_key(#[trigger] ends@[i]),
        ) by {
            if i < ends0.len() {
                assert(ids0.dom().contains(occurrence_key(ends0[i])));
            }
        }
        assert forall|k: u128| #[trigger] ids@.dom().contains(k) implies ids@[k] < ends@.len()
            && occurrence_key(ends@[ids@[k] as int]) == k by {
            if k != key {
                assert(ids0.dom().contains(k));
            }
        }
    }
    id
}

/// `ids` numbers the spans of `ends` by their positions.
spec fn is_numbering(ids: Map<u128, usize>, ends: Seq<Occurrence>) -> bool {
    &&& forall|i: int|
        0 <= i < ends.len() ==> ids.dom().contains(occurrence_key(#[trigger] ends[i]))
    &&& forall|k: u128| #[trigger]
        ids.dom().contains(k) ==> ids[k] < ends.len() && occurrence_key(ends[ids[k] as int]) == k
}

/// Positions as mathematical integers.
pub open spec fn pair_positions(pairs: Seq<(usize, usize)>) -> Seq<(int, int)> {
    pairs.map_values(|p: (usize, usize)| (p.0 as int, p.1 as int))
}

/// The distinct spans of the matches, and each match as a pair of positions among them.
fn number_matches(matches: &Vec<(Occurrence, Occurrence)>) -> (result: (
    Vec<Occurrence>,
    Vec<(usize, usize)>,
))
    ensures
        result.0@ == distinct_ends(matches@),
        pair_positions(result.1@) == match_pairs(matches@, distinct_ends(matches@)),
        result.0@.no_duplicates(),
        forall|i: int|
            0 <= i < result.1@.len() ==> (#[trigger] result.1@[i]).0 < result.0@.len()
                && result.1@[i].1 < result.0@.len(),
{
    let mut ids: HashMap<u128, usize> = HashMap::new();
    let mut ends: Vec<Occurrence> = Vec::new();
    let mut pairs: Vec<(usize, usize)> = Vec::new();
    let ghost all = match_ends(matches@, matches@.len() as int);
    let mut n: usize = 0;
    while n < matches.len()
        invariant
            n <= matches@.len(),
            all == match_ends(matches@, matches@.len() as int),
            is_numbering(ids@, ends@),
            ends@ == distinct(all, 2 * n),
            pairs@.len() == n,
            forall|i: int|
                0 <= i < n ==> (#[trigger] pairs@[i]).0 < ends@.len() && pairs@[i].1 < ends@.len()
                    && ends@[pairs@[i].0 as int] == matches@[i].0 && ends@[pairs@[i].1 as int]
                    == matches@[i].1,
        decreases matches@.len() - n,
    {
        let (a, b) = matches[n];
        let ghost ends0 = ends@;
        proof {
            lemma_match_ends(matches@, matches@.len() as int, matches@.len() as int);
            assert(all[2 * n] == matches@[n as int].0);
            assert(all[2 * n + 1] == matches@[n as int].1);
        }
        let ia = intern(a, &mut ids, &mut ends);
        assert(ends@ == distinct(all, 2 * n + 1));
        let ib = intern(b, &mut ids, &mut ends);
        assert(ends@ == distinct(all, 2 * n + 2));
        proof {
            lemma_distinct_prefix(all, 2 * n, 2 * n + 2);
            lemma_distinct_prefix(all, 2 * n + 1, 2 * n + 2);
        }
        pairs.push((ia, ib));
        n = n + 1;
    }
    proof {
        lemma_match_ends(matches@, matches@.len() as int, matches@.len() as int);
        lemma_distinct(all, all.len() as int);
        let wanted = match_pairs(matches@, ends@);
        assert forall|i: int| 0 <= i < matches@.len() implies pair_positions(pairs@)[i]
            == #[trigger] wanted[i] by {
            assert(pairs@[i].0 < ends@.len());
            lemma_first_index_at(ends@, pairs@[i].0 as int);
            lemma_first_index_at(ends@, pairs@[i].1 as int);
        }
        assert(pair_positions(pairs@) =~= wanted);
    }
    (ends, pairs)
}

/// The labels that joining all pairs gives.
fn join_pairs(n: usize, pairs: &Vec<(usize, usize)>) -> (labels: Vec<usize>)
    requires
        forall|i: int|
            0 <= i < pairs@.len() ==> (#[trigger] pairs@[i]).0 < n && pairs@[i].1 < n,
    ensures
        crate::partition::label_view(labels@) == crate::partition::joined_labels(
            n as nat,
            pair_positions(pairs@),
            pairs@.len() as int,
        ),
        labels@.len() == n,
{
    let mut dsu = Dsu::new(n);
    let mut i: usize = 0;
    while i < pairs.len()
        invariant
            forall|i: int|
                0 <= i < pairs@.len() ==> (#[trigger] pairs@[i]).0 < n && pairs@[i].1 < n,
            i <= pairs@.len(),
            dsu.wf(),
            dsu@.len() == n,
            dsu@ == crate::partition::joined_labels(n as nat, pair_positions(pairs@), i as int),
        decreases pairs@.len() - i,
    {
        let (a, b) = pairs[i];
        assert(pairs@[i as int].0 < n);
        dsu.union(a, b);
        i = i + 1;
    }
    let mut labels: Vec<usize> = Vec::new();
    let ghost wanted = dsu@;
    let mut x: usize = 0;
    while x < n
        invariant
            x <= n,
            dsu.wf(),
            dsu@ == wanted,
            wanted.len() == n,
            crate::partition::label_view(labels@) == wanted.take(x as int),
            labels@.len() == x,
        decreases n - x,
    {
        let root = dsu.find(x);
        labels.push(root);
        x = x + 1;
        assert(crate::partition::label_view(labels@) =~= wanted.take(x as int));
    }
    assert(crate::partition::label_view(labels@) =~= wanted);
    labels
}

/// Without the occurrences that the last kept one contains.
pub open spec fn uncontained(occurrences: Seq<Occurrence>, n: int) -> Seq<Occurrence>
    decreases n,
{
    if n <= 0 {
        Seq::empty()
    } else {
        let kept = uncontained(occurrences, n - 1);
        let occurrence = occurrences[n - 1];
        if kept.len() > 0 && kept.last().file == occurrence.file && kept.last().start
            <= occurrence.start && occurrence.end <= kept.last().end {
            kept
        } else {
            kept.push(occurrence)
        }
    }
}

/// Drops occurrences that the one kept before them contains.
pub fn drop_contained(occurrences: Vec<Occurrence>) -> (kept: Vec<Occurrence>)
    ensures
        kept@ == uncontained(occurrences@, occurrences@.len() as int),
{
    let mut kept: Vec<Occurrence> = Vec::new();
    let mut i: usize = 0;
    while i < occurrences.len()
        invariant
            i <= occurrences@.len(),
            kept@ == uncontained(occurrences@, i as int),
        decreases occurrences@.len() - i,
    {
        let occurrence = occurrences[i];
        let count: usize = kept.len();
        let contained: bool = if count > 0 {
            let last = kept[count - 1];
            last.file == occurrence.file && last.start <= occurrence.start && occurrence.end
                <= last.end
        } else {
            false
        };
        if !contained {
            kept.push(occurrence);
        }
        i = i + 1;
    }
    kept
}

proof fn lemma_uncontained_members(occurrences: Seq<Occurrence>, n: int, k: int) -> (i: int)
    requires
        0 <= n <= occurrences.len(),
        0 <= k < uncontained(occurrences, n).len(),
    ensures
        0 <= i < n,
        occurrences[i] == uncontained(occurrences, n)[k],
    decreases n,
{
    let kept = uncontained(occurrences, n - 1);
    if k < kept.len() {
        lemma_uncontained_members(occurrences, n - 1, k)
    } else {
        n - 1
    }
}

/// The fingerprint of an occurrence.
pub open spec fn occurrence_fingerprint(
    files: Seq<&SourceFile>,
    occurrence: Occurrence,
    parameterize_literals: bool,
) -> u64 {
    let span = crate::matching::occurrence_span(files, occurrence);
    crate::encode::fingerprint_of(span, span.len() as int, parameterize_literals)
}

/// Two occurrences are in one class: their fingerprints agree and they are clones.
pub open spec fn same_class(
    files: Seq<&SourceFile>,
    a: Occurrence,
    b: Occurrence,
    parameterize_literals: bool,
) -> bool {
    occurrence_fingerprint(files, a, parameterize_literals) == occurrence_fingerprint(
        files,
        b,
        parameterize_literals,
    ) && crate::matching::is_clone_pair(files, a, b, parameterize_literals)
}

/// The predicate of being in the class of an occurrence.
pub open spec fn classmates(
    files: Seq<&SourceFile>,
    occurrence: Occurrence,
    parameterize_literals: bool,
) -> spec_fn(Occurrence) -> bool {
    |other: Occurrence| same_class(files, occurrence, other, parameterize_literals)
}

/// How many occurrences are in the class of the one at `i`.
pub open spec fn class_size(
    files: Seq<&SourceFile>,
    occurrences: Seq<Occurrence>,
    i: int,
    parameterize_literals: bool,
) -> nat {
    occurrences.filter(classmates(files, occurrences[i], parameterize_literals)).len()
}

/// The first of the first `n` occurrences whose class is the largest.
pub open spec fn largest_class(
    files: Seq<&SourceFile>,
    occurrences: Seq<Occurrence>,
    n: int,
    parameterize_literals: bool,
) -> int
    decreases n,
{
    if n <= 1 {
        0
    } else {
        let best = largest_class(files, occurrences, n - 1, parameterize_literals);
        if class_size(files, occurrences, n - 1, parameterize_literals) > class_size(
            files,
            occurrences,
            best,
            parameterize_literals,
        ) {
            n - 1
        } else {
            best
        }
    }
}

proof fn lemma_largest_class(
    files: Seq<&SourceFile>,
    occurrences: Seq<Occurrence>,
    n: int,
    r: int,
    pl: bool,
)
    requires
        0 <= r < n <= occurrences.len(),
        forall|j: int|
            0 <= j < n ==> #[trigger] class_size(files, occurrences, j, pl) <= class_size(
                files,
                occurrences,
                r,
                pl,
            ),
        forall|j: int|
            0 <= j < r ==> #[trigger] class_size(files, occurrences, j, pl) < class_size(
                files,
                occurrences,
                r,
                pl,
            ),
    ensures
        largest_class(files, occurrences, n, pl) == r,
    decreases n,
{
    lemma_largest_is_earlier(files, occurrences, n - 1, pl);
    if n > 1 {
        if r == n - 1 {
            let best = largest_class(files, occurrences, n - 1, pl);
            assert(class_size(files, occurrences, best, pl) < class_size(
                files,
                occurrences,
                r,
                pl,
            ));
        } else {
            lemma_largest_class(files, occurrences, n - 1, r, pl);
            assert(class_size(files, occurrences, n - 1, pl) <= class_size(
                files,
                occurrences,
                r,
                pl,
            ));
        }
    }
}

pub proof fn lemma_largest_is_earlier(
    files: Seq<&SourceFile>,
    occurrences: Seq<Occurrence>,
    n: int,
    pl: bool,
)
    ensures
        0 <= largest_class(files, occurrences, n, pl),
        n >= 1 ==> largest_class(files, occurrences, n, pl) < n,
    decreases n,
{
    if n > 1 {
        lemma_largest_is_earlier(files, occurrences, n - 1, pl);
    }
}

proof fn lemma_same_class_equivalence(
    files: Seq<&SourceFile>,
    a: Occurrence,
    b: Occurrence,
    c: Occurrence,
    pl: bool,
)
    ensures
        same_class(files, a, a, pl),
        same_class(files, a, b, pl) ==> same_class(files, b, a, pl),
        same_class(files, a, b, pl) && same_class(files, b, c, pl) ==> same_class(files, a, c, pl),
{
    let x = crate::matching::occurrence_span(files, a);
    let y = crate::matching::occurrence_span(files, b);
    let z = crate::matching::occurrence_span(files, c);
    crate::encode::renaming_is_reflexive(x, pl);
    if crate::encode::is_renaming(x, y, pl) {
        crate::encode::renaming_is_symmetric(x, y, pl);
        if crate::encode::is_renaming(y, z, pl) {
            crate::encode::renaming_is_transitive(x, y, z, pl);
        }
    }
}

/// Whether two occurrences are clones of each other.
pub fn occurrences_match(
    files: &[&SourceFile],
    a: Occurrence,
    b: Occurrence,
    parameterize_literals: bool,
    scratch: &mut SpanScratch,
) -> (clones: bool)
    requires
        crate::matching::files_wf(files@),
        crate::matching::occurs(files@, a),
        crate::matching::occurs(files@, b),
    ensures
        clones == crate::matching::is_clone_pair(files@, a, b, parameterize_literals),
{
    assert(files@[a.file as int].wf());
    assert(files@[b.file as int].wf());
    let len: usize = (a.end - a.start) as usize;
    if len != (b.end - b.start) as usize {
        return false;
    }
    spans_equal(
        scratch,
        files[a.file as usize].hashes.as_slice(),
        a.start as usize,
        files[b.file as usize].hashes.as_slice(),
        b.start as usize,
        len,
        parameterize_literals,
    )
}

fn fingerprint(
    files: &[&SourceFile],
    occurrence: Occurrence,
    parameterize_literals: bool,
    scratch: &mut SpanScratch,
) -> (value: u64)
    requires
        crate::matching::files_wf(files@),
        crate::matching::occurs(files@, occurrence),
    ensures
        value == occurrence_fingerprint(files@, occurrence, parameterize_literals),
{
    assert(files@[occurrence.file as int].wf());
    span_fingerprint(
        scratch,
        files[occurrence.file as usize].hashes.as_slice(),
        occurrence.start as usize,
        (occurrence.end - occurrence.start) as usize,
        parameterize_literals,
    )
}

/// The classes of the first `n` occurrences: each has a representative, which is its first
/// member, a fingerprint and a size; every occurrence is assigned to its class.
spec fn is_classification(
    files: Seq<&SourceFile>,
    occurrences: Seq<Occurrence>,
    n: int,
    pl: bool,
    representatives: Seq<usize>,
    fingerprints: Seq<u64>,
    sizes: Seq<usize>,
    assignments: Seq<usize>,
) -> bool {
    &&& representatives.len() == fingerprints.len()
    &&& representatives.len() == sizes.len()
    &&& assignments.len() == n
    &&& forall|c: int|
        0 <= c < representatives.len() ==> (#[trigger] representatives[c]) < n && fingerprints[c]
            == occurrence_fingerprint(files, occurrences[representatives[c] as int], pl)
            && sizes[c] == occurrences.take(n).filter(
            classmates(files, occurrences[representatives[c] as int], pl),
        ).len()
    &&& forall|c: int, d: int|
        0 <= c < d < representatives.len() ==> (#[trigger] representatives[c])
            < (#[trigger] representatives[d]) && !same_class(
            files,
            occurrences[representatives[c] as int],
            occurrences[representatives[d] as int],
            pl,
        )
    &&& forall|o: int|
        0 <= o < n ==> (#[trigger] assignments[o]) < representatives.len()
            && representatives[assignments[o] as int] <= o && same_class(
            files,
            occurrences[representatives[assignments[o] as int] as int],
            occurrences[o],
            pl,
        )
}

/// The class of an occurrence among known classes, if it is in one.
fn find_class(
    files: &[&SourceFile],
    occurrences: &Vec<Occurrence>,
    n: usize,
    parameterize_literals: bool,
    representatives: &Vec<usize>,
    fingerprints: &Vec<u64>,
    fingerprint: u64,
    scratch: &mut SpanScratch,
) -> (class: Option<usize>)
    requires
        crate::matching::files_wf(files@),
        all_occur(files@, occurrences@),
        n < occurrences@.len(),
        representatives@.len() == fingerprints@.len(),
        forall|c: int|
            0 <= c < representatives@.len() ==> (#[trigger] representatives@[c])
                < occurrences@.len() && fingerprints@[c] == occurrence_fingerprint(
                files@,
                occurrences@[representatives@[c] as int],
                parameterize_literals,
            ),
        fingerprint == occurrence_fingerprint(
            files@,
            occurrences@[n as int],
            parameterize_literals,
        ),
    ensures
        match class {
            Some(c) => c < representatives@.len() && same_class(
                files@,
                occurrences@[representatives@[c as int] as int],
                occurrences@[n as int],
                parameterize_literals,
            ),
            None => forall|c: int|
                0 <= c < representatives@.len() ==> !same_class(
                    files@,
                    occurrences@[#[trigger] representatives@[c] as int],
                    occurrences@[n as int],
                    parameterize_literals,
                ),
        },
{
    let mut c: usize = 0;
    while c < representatives.len()
        invariant
            crate::matching::files_wf(files@),
            all_occur(files@, occurrences@),
            n < occurrences@.len(),
            representatives@.len() == fingerprints@.len(),
            forall|c: int|
                0 <= c < representatives@.len() ==> (#[trigger] representatives@[c])
                    < occurrences@.len() && fingerprints@[c] == occurrence_fingerprint(
                    files@,
                    occurrences@[representatives@[c] as int],
                    parameterize_literals,
                ),
            fingerprint == occurrence_fingerprint(
                files@,
                occurrences@[n as int],
                parameterize_literals,
            ),
            c <= representatives@.len(),
            forall|d: int|
                0 <= d < c ==> !same_class(
                    files@,
                    occurrences@[#[trigger] representatives@[d] as int],
                    occurrences@[n as int],
                    parameterize_literals,
                ),
        decreases representatives@.len() - c,
    {
        assert(representatives@[c as int] < occurrences@.len());
        assert(crate::matching::occurs(files@, occurrences@[n as int]));
        assert(crate::matching::occurs(files@, occurrences@[representatives@[c as int] as int]));
        if fingerprints[c] == fingerprint && occurrences_match(
            files,
            occurrences[representatives[c]],
            occurrences[n],
            parameterize_literals,
            scratch,
        ) {
            return Some(c);
        }
        c = c + 1;
    }
    None
}

/// How the sizes of classes change with one more occurrence.
proof fn lemma_class_step(
    files: Seq<&SourceFile>,
    occurrences: Seq<Occurrence>,
    n: int,
    member: Occurrence,
    pl: bool,
)
    requires
        0 <= n < occurrences.len(),
    ensures
        occurrences.take(n + 1).filter(classmates(files, member, pl)).len() == occurrences.take(
            n,
        ).filter(classmates(files, member, pl)).len() + if same_class(
            files,
            member,
            occurrences[n],
            pl,
        ) {
            1int
        } else {
            0int
        },
{
    assert(occurrences.take(n + 1) =~= occurrences.take(n).push(occurrences[n]));
    crate::sort::lemma_filter_push(
        occurrences.take(n),
        occurrences[n],
        classmates(files, member, pl),
    );
}

/// A first occurrence of a new class is alone in it.
proof fn lemma_new_class_empty(
    files: Seq<&SourceFile>,
    occurrences: Seq<Occurrence>,
    n: int,
    pl: bool,
    representatives: Seq<usize>,
    fingerprints: Seq<u64>,
    sizes: Seq<usize>,
    assignments: Seq<usize>,
)
    requires
        0 <= n < occurrences.len(),
        is_classification(
            files,
            occurrences,
            n,
            pl,
            representatives,
            fingerprints,
            sizes,
            assignments,
        ),
        forall|c: int|
            0 <= c < representatives.len() ==> !same_class(
                files,
                occurrences[#[trigger] representatives[c] as int],
                occurrences[n],
                pl,
            ),
    ensures
        occurrences.take(n).filter(classmates(files, occurrences[n], pl)).len() == 0,
{
    let before = occurrences.take(n);
    let pred = classmates(files, occurrences[n], pl);
    assert forall|o: int| 0 <= o < before.len() implies !pred(#[trigger] before[o]) by {
        assert(before[o] == occurrences[o]);
        let c = assignments[o] as int;
        assert(assignments[o] < representatives.len());
        let r = occurrences[representatives[c] as int];
        assert(same_class(files, r, occurrences[o], pl));
        if pred(before[o]) {
            lemma_same_class_equivalence(files, occurrences[n], occurrences[o], r, pl);
            lemma_same_class_equivalence(files, r, occurrences[o], occurrences[n], pl);
        }
    }
    crate::sort::lemma_filter_none(before, pred);
}

/// Assigns every occurrence to its class.
#[verifier::rlimit(40)]
fn classify(
    files: &[&SourceFile],
    occurrences: &Vec<Occurrence>,
    parameterize_literals: bool,
    scratch: &mut SpanScratch,
) -> (result: (Vec<usize>, Vec<u64>, Vec<usize>, Vec<usize>))
    requires
        crate::matching::files_wf(files@),
        all_occur(files@, occurrences@),
    ensures
        is_classification(
            files@,
            occurrences@,
            occurrences@.len() as int,
            parameterize_literals,
            result.0@,
            result.1@,
            result.2@,
            result.3@,
        ),
{
    let mut representatives: Vec<usize> = Vec::new();
    let mut fingerprints: Vec<u64> = Vec::new();
    let mut sizes: Vec<usize> = Vec::new();
    let mut assignments: Vec<usize> = Vec::new();
    let mut n: usize = 0;
    while n < occurrences.len()
        invariant
            crate::matching::files_wf(files@),
            all_occur(files@, occurrences@),
            n <= occurrences@.len(),
            is_classification(
                files@,
                occurrences@,
                n as int,
                parameterize_literals,
                representatives@,
                fingerprints@,
                sizes@,
                assignments@,
            ),
        decreases occurrences@.len() - n,
    {
        let occurrence = occurrences[n];
        assert(crate::matching::occurs(files@, occurrences@[n as int]));
        let print = fingerprint(files, occurrence, parameterize_literals, scratch);
        let found = find_class(
            files,
            occurrences,
            n,
            parameterize_literals,
            &representatives,
            &fingerprints,
            print,
            scratch,
        );
        let ghost reps0 = representatives@;
        let ghost sizes0 = sizes@;
        let ghost assignments0 = assignments@;
        let ghost o = occurrences@;
        proof {
            assert forall|c: int| 0 <= c < reps0.len() implies o.take(n + 1).filter(
                classmates(files@, o[#[trigger] reps0[c] as int], parameterize_literals),
            ).len() == sizes0[c] + if same_class(
                files@,
                o[reps0[c] as int],
                o[n as int],
                parameterize_literals,
            ) {
                1int
            } else {
                0int
            } by {
                lemma_class_step(
                    files@,
                    o,
                    n as int,
                    o[reps0[c] as int],
                    parameterize_literals,
                );
            }
        }
        let class: usize = match found {
            Some(index) => {
                proof {
                    assert forall|c: int| 0 <= c < reps0.len() && c != index implies !same_class(
                        files@,
                        o[#[trigger] reps0[c] as int],
                        o[n as int],
                        parameterize_literals,
                    ) by {
                        let r = o[reps0[c] as int];
                        let s = o[reps0[index as int] as int];
                        if same_class(files@, r, o[n as int], parameterize_literals) {
                            lemma_same_class_equivalence(
                                files@,
                                s,
                                o[n as int],
                                r,
                                parameterize_literals,
                            );
                            lemma_same_class_equivalence(
                                files@,
                                r,
                                o[n as int],
                                s,
                                parameterize_literals,
                            );
                            if c < index {
                                assert(reps0[c] < reps0[index as int]);
                            } else {
                                assert(reps0[index as int] < reps0[c]);
                            }
                        }
                    }
                    Seq::lemma_filter_len(
                        o.take(n as int),
                        classmates(files@, o[reps0[index as int] as int], parameterize_literals),
                    );
                }
                let size: usize = sizes[index];
                assert(reps0[index as int] < n);
                sizes[index] = size + 1;
                index
            },
            None => {
                proof {
                    lemma_new_class_empty(
                        files@,
                        o,
                        n as int,
                        parameterize_literals,
                        reps0,
                        fingerprints@,
                        sizes0,
                        assignments0,
                    );
                    lemma_class_step(files@, o, n as int, o[n as int], parameterize_literals);
                    lemma_same_class_equivalence(
                        files@,
                        o[n as int],
                        o[n as int],
                        o[n as int],
                        parameterize_literals,
                    );
                }
                fingerprints.push(print);
                representatives.push(n);
                sizes.push(1);
                sizes.len() - 1
            },
        };
        assignments.push(class);
        n = n + 1;
    }
    (representatives, fingerprints, sizes, assignments)
}

/// Position of the first largest number.
fn first_largest(sizes: &Vec<usize>) -> (best: usize)
    requires
        sizes@.len() > 0,
        forall|c: int| 0 <= c < sizes@.len() ==> #[trigger] sizes@[c] > 0,
    ensures
        best < sizes@.len(),
        forall|c: int| 0 <= c < sizes@.len() ==> #[trigger] sizes@[c] <= sizes@[best as int],
        forall|c: int| 0 <= c < best ==> #[trigger] sizes@[c] < sizes@[best as int],
{
    let mut best: usize = 0;
    let mut best_size: usize = 0;
    let mut index: usize = 0;
    while index < sizes.len()
        invariant
            index <= sizes@.len(),
            sizes@.len() > 0,
            forall|c: int| 0 <= c < sizes@.len() ==> #[trigger] sizes@[c] > 0,
            best < sizes@.len(),
            index == 0 ==> best == 0 && best_size == 0,
            index > 0 ==> best < index && best_size == sizes@[best as int],
            forall|c: int| 0 <= c < index ==> #[trigger] sizes@[c] <= best_size,
            forall|c: int| 0 <= c < best ==> #[trigger] sizes@[c] < best_size,
        decreases sizes@.len() - index,
    {
        if sizes[index] > best_size {
            best = index;
            best_size = sizes[index];
        }
        index = index + 1;
    }
    best
}

/// The representative of the largest class and the members of that class: the position of the
/// first occurrence whose class is the largest, and its class in order.
pub fn representative_class(
    files: &[&SourceFile],
    occurrences: &Vec<Occurrence>,
    parameterize_literals: bool,
    scratch: &mut SpanScratch,
) -> (result: (usize, Vec<Occurrence>))
    requires
        crate::matching::files_wf(files@),
        all_occur(files@, occurrences@),
    ensures
        result.0 == largest_class(
            files@,
            occurrences@,
            occurrences@.len() as int,
            parameterize_literals,
        ),
        occurrences@.len() == 0 ==> result.1@.len() == 0,
        occurrences@.len() > 0 ==> result.0 < occurrences@.len() && result.1@
            == occurrences@.filter(
            classmates(files@, occurrences@[result.0 as int], parameterize_literals),
        ),
{
    if occurrences.len() == 0 {
        return (0, Vec::new());
    }
    let (representatives, fingerprints, sizes, assignments) = classify(
        files,
        occurrences,
        parameterize_literals,
        scratch,
    );
    let ghost o = occurrences@;
    let ghost n = o.len() as int;
    let ghost pl = parameterize_literals;
    proof {
        assert(o.take(n) =~= o);
        assert(assignments@[0] < representatives@.len());
        assert forall|c: int| 0 <= c < sizes@.len() implies #[trigger] sizes@[c] > 0 by {
            let r = representatives@[c] as int;
            assert(representatives@[c] < n);
            lemma_same_class_equivalence(files@, o[r], o[r], o[r], pl);
            Seq::lemma_filter_contains(o, classmates(files@, o[r], pl), r);
            assert(o.filter(classmates(files@, o[r], pl)).contains(o[r]));
        }
    }
    let best = first_largest(&sizes);
    let representative: usize = representatives[best];
    proof {
        let r = representative as int;
        assert(representatives@[best as int] < n);
        assert forall|j: int| 0 <= j < n implies #[trigger] class_size(files@, o, j, pl)
            == sizes@[assignments@[j] as int] by {
            let c = assignments@[j] as int;
            assert(assignments@[j] < representatives@.len());
            let s = representatives@[c] as int;
            assert(representatives@[c] < n);
            lemma_same_members(files@, o, o[s], o[j], pl);
        }
        assert(class_size(files@, o, r, pl) == sizes@[best as int]);
        assert forall|j: int| 0 <= j < r implies #[trigger] class_size(files@, o, j, pl)
            < class_size(files@, o, r, pl) by {
            let c = assignments@[j] as int;
            assert(assignments@[j] < representatives@.len());
            assert(representatives@[c] <= j);
            if c > best {
                assert(representatives@[best as int] < representatives@[c]);
            }
            assert(c != best);
            assert(sizes@[c] < sizes@[best as int]);
        }
        lemma_largest_class(files@, o, n, r, pl);
    }
    let ghost pred = classmates(files@, o[representative as int], pl);
    let mut merged: Vec<Occurrence> = Vec::new();
    let mut i: usize = 0;
    assert(o.take(0).filter(pred) =~= Seq::empty()) by {
        crate::sort::lemma_filter_none(o.take(0), pred);
    }
    while i < occurrences.len()
        invariant
            o == occurrences@,
            n == o.len(),
            i <= n,
            is_classification(
                files@,
                o,
                n,
                pl,
                representatives@,
                fingerprints@,
                sizes@,
                assignments@,
            ),
            best < representatives@.len(),
            representative == representatives@[best as int],
            pred == classmates(files@, o[representative as int], pl),
            merged@ == o.take(i as int).filter(pred),
        decreases n - i,
    {
        proof {
            let c = assignments@[i as int] as int;
            assert(assignments@[i as int] < representatives@.len());
            let s = o[representatives@[c] as int];
            let r = o[representative as int];
            assert(same_class(files@, s, o[i as int], pl));
            if c != best && same_class(files@, r, o[i as int], pl) {
                lemma_same_class_equivalence(files@, s, o[i as int], r, pl);
                lemma_same_class_equivalence(files@, r, o[i as int], s, pl);
                lemma_same_class_equivalence(files@, r, s, r, pl);
                lemma_same_class_equivalence(files@, s, r, s, pl);
                if c < best {
                    assert(representatives@[c] < representatives@[best as int]);
                } else {
                    assert(representatives@[best as int] < representatives@[c]);
                }
            }
            assert(o.take(i + 1) =~= o.take(i as int).push(o[i as int]));
            crate::sort::lemma_filter_push(o.take(i as int), o[i as int], pred);
        }
        if assignments[i] == best {
            merged.push(occurrences[i]);
        }
        i = i + 1;
    }
    assert(o.take(n) =~= o);
    (representative, merged)
}

/// Members of one class have the same classmates.
proof fn lemma_same_members(
    files: Seq<&SourceFile>,
    occurrences: Seq<Occurrence>,
    a: Occurrence,
    b: Occurrence,
    pl: bool,
)
    requires
        same_class(files, a, b, pl),
    ensures
        occurrences.filter(classmates(files, a, pl)) == occurrences.filter(
            classmates(files, b, pl),
        ),
    decreases occurrences.len(),
{
    let p = classmates(files, a, pl);
    let q = classmates(files, b, pl);
    if occurrences.len() == 0 {
        crate::sort::lemma_filter_none(occurrences, p);
        crate::sort::lemma_filter_none(occurrences, q);
    } else {
        let shorter = occurrences.drop_last();
        let x = occurrences.last();
        assert(shorter.push(x) =~= occurrences);
        lemma_same_members(files, shorter, a, b, pl);
        crate::sort::lemma_filter_push(shorter, x, p);
        crate::sort::lemma_filter_push(shorter, x, q);
        lemma_same_class_equivalence(files, a, b, x, pl);
        lemma_same_class_equivalence(files, b, a, x, pl);
    }
}

/// The tokens of a file.
pub open spec fn tokens_in(files: Seq<&SourceFile>, file: u32) -> Seq<crate::model::Token> {
    files[file as int].tokens@
}

/// The complete span that an occurrence grows to.
pub open spec fn snap_of(files: Seq<&SourceFile>, occurrence: Occurrence) -> Option<(int, int)> {
    crate::spans::snapped_out(
        tokens_in(files, occurrence.file),
        occurrence.start as int,
        occurrence.end as int,
    )
}

/// An occurrence grown to a complete span.
pub open spec fn snapped(files: Seq<&SourceFile>, occurrence: Occurrence) -> Occurrence {
    let (start, end) = snap_of(files, occurrence).unwrap();
    Occurrence { file: occurrence.file, start: start as u32, end: end as u32 }
}

/// Every occurrence grows to a complete span.
pub open spec fn all_snap(files: Seq<&SourceFile>, occurrences: Seq<Occurrence>) -> bool {
    forall|i: int| 0 <= i < occurrences.len() ==> snap_of(files, #[trigger] occurrences[i]) is Some
}

/// All occurrences grown to complete spans.
pub open spec fn snapped_all(files: Seq<&SourceFile>, occurrences: Seq<Occurrence>) -> Seq<
    Occurrence,
> {
    occurrences.map_values(|occurrence: Occurrence| snapped(files, occurrence))
}

/// Every occurrence is a clone of `base`.
pub open spec fn all_clones_of(
    files: Seq<&SourceFile>,
    base: Occurrence,
    occurrences: Seq<Occurrence>,
    parameterize_literals: bool,
) -> bool {
    forall|i: int|
        0 <= i < occurrences.len() ==> crate::matching::is_clone_pair(
            files,
            base,
            #[trigger] occurrences[i],
            parameterize_literals,
        )
}

/// An occurrence without its first `head` and its last `tail` tokens.
pub open spec fn trimmed(occurrence: Occurrence, head: int, tail: int) -> Occurrence {
    Occurrence {
        file: occurrence.file,
        start: (occurrence.start + head) as u32,
        end: (occurrence.end - tail) as u32,
    }
}

/// All occurrences without their first `head` and last `tail` tokens.
pub open spec fn trimmed_all(occurrences: Seq<Occurrence>, head: int, tail: int) -> Seq<Occurrence> {
    occurrences.map_values(|occurrence: Occurrence| trimmed(occurrence, head, tail))
}

/// Cut by `head` and `tail`, every occurrence is a complete span.
pub open spec fn all_complete_trimmed(
    files: Seq<&SourceFile>,
    occurrences: Seq<Occurrence>,
    head: int,
    tail: int,
) -> bool {
    forall|i: int|
        0 <= i < occurrences.len() ==> crate::spans::is_complete(
            tokens_in(files, (#[trigger] occurrences[i]).file),
            occurrences[i].start + head,
            occurrences[i].end - tail,
        )
}

/// The first range from `i` on that is a complete span in every occurrence.
pub open spec fn common_range(
    files: Seq<&SourceFile>,
    occurrences: Seq<Occurrence>,
    representative: Occurrence,
    ranges: Seq<(int, int)>,
    i: int,
) -> Option<(int, int)>
    decreases ranges.len() - i,
{
    if i >= ranges.len() {
        None
    } else if all_complete_trimmed(
        files,
        occurrences,
        ranges[i].0 - representative.start,
        representative.end - ranges[i].1,
    ) {
        Some(ranges[i])
    } else {
        common_range(files, occurrences, representative, ranges, i + 1)
    }
}

/// The occurrences brought to complete spans: each grown where all grow to clones of the
/// representative's, else all cut to the longest complete range that they have in common.
pub open spec fn aligned_all(
    files: Seq<&SourceFile>,
    occurrences: Seq<Occurrence>,
    representative: Occurrence,
    parameterize_literals: bool,
) -> Option<Seq<Occurrence>> {
    let grown = snapped_all(files, occurrences);
    let base = grown[first_index(occurrences, representative)];
    if all_snap(files, occurrences) && all_clones_of(files, base, grown, parameterize_literals) {
        Some(grown)
    } else {
        let ranges = crate::spans::complete_ranges_of(
            tokens_in(files, representative.file),
            representative.start as int,
            representative.end as int,
        );
        match common_range(files, occurrences, representative, ranges, 0) {
            Some((start, end)) => Some(
                trimmed_all(
                    occurrences,
                    start - representative.start,
                    representative.end - end,
                ),
            ),
            None => None,
        }
    }
}

/// Every occurrence is exactly one unit or container.
pub open spec fn all_single_units(
    files: Seq<&SourceFile>,
    occurrences: Seq<Occurrence>,
) -> bool {
    forall|i: int|
        0 <= i < occurrences.len() ==> crate::spans::is_single_unit(
            tokens_in(files, (#[trigger] occurrences[i]).file),
            occurrences[i].start as int,
            occurrences[i].end as int,
        )
}

/// The groups that the first `n` top-level units give: the occurrences cut to the unit, where
/// all of them are then single units and clones of the one at `p`.
pub open spec fn unit_groups(
    files: Seq<&SourceFile>,
    aligned: Seq<Occurrence>,
    p: int,
    units: Seq<(int, int)>,
    n: int,
    parameterize_literals: bool,
) -> Seq<Seq<Occurrence>>
    decreases n,
{
    if n <= 0 {
        Seq::empty()
    } else {
        let groups = unit_groups(files, aligned, p, units, n - 1, parameterize_literals);
        let (unit_start, unit_end) = units[n - 1];
        let refined = trimmed_all(
            aligned,
            unit_start - aligned[p].start,
            aligned[p].end - unit_end,
        );
        if all_single_units(files, refined) && all_clones_of(
            files,
            refined[p],
            refined,
            parameterize_literals,
        ) {
            groups.push(refined)
        } else {
            groups
        }
    }
}

/// The groups of single units that a class of clones breaks down to.
pub open spec fn refined_groups(
    files: Seq<&SourceFile>,
    occurrences: Seq<Occurrence>,
    representative: Occurrence,
    parameterize_literals: bool,
) -> Seq<Seq<Occurrence>> {
    match aligned_all(files, occurrences, representative, parameterize_literals) {
        None => Seq::empty(),
        Some(aligned) => {
            let p = first_index(occurrences, representative);
            let units = crate::spans::top_units(
                tokens_in(files, aligned[p].file),
                aligned[p].start as int,
                aligned[p].end as int,
            );
            unit_groups(files, aligned, p, units, units.len() as int, parameterize_literals)
        },
    }
}

/// All occurrences have the length of `base`.
pub open spec fn same_length(base: Occurrence, occurrences: Seq<Occurrence>) -> bool {
    forall|i: int|
        0 <= i < occurrences.len() ==> (#[trigger] occurrences[i]).end - occurrences[i].start
            == base.end - base.start
}

/// Grows every occurrence to a complete span, if each does.
fn snap_all(files: &[&SourceFile], occurrences: &Vec<Occurrence>) -> (grown: Option<Vec<Occurrence>>)
    requires
        files_ready(files@),
        all_occur(files@, occurrences@),
    ensures
        match grown {
            Some(grown) => all_snap(files@, occurrences@) && grown@ == snapped_all(
                files@,
                occurrences@,
            ) && all_occur(files@, grown@),
            None => !all_snap(files@, occurrences@),
        },
{
    let mut grown: Vec<Occurrence> = Vec::new();
    let mut i: usize = 0;
    while i < occurrences.len()
        invariant
            files_ready(files@),
            all_occur(files@, occurrences@),
            i <= occurrences@.len(),
            grown@ == snapped_all(files@, occurrences@).take(i as int),
            all_occur(files@, grown@),
            forall|k: int| 0 <= k < i ==> snap_of(files@, #[trigger] occurrences@[k]) is Some,
        decreases occurrences@.len() - i,
    {
        let occurrence = occurrences[i];
        assert(crate::matching::occurs(files@, occurrences@[i as int]));
        let file = files[occurrence.file as usize];
        assert(files@[occurrence.file as int].wf());
        let meta = file.cached_span_meta();
        let snap = snap_out(
            &file.tokens,
            &meta,
            occurrence.start as usize,
            occurrence.end as usize,
        );
        match snap {
            Some((start, end)) => {
                grown.push(
                    Occurrence { file: occurrence.file, start: start as u32, end: end as u32 },
                );
            },
            None => {
                return None;
            },
        }
        i = i + 1;
        assert(grown@ =~= snapped_all(files@, occurrences@).take(i as int));
    }
    assert(grown@ =~= snapped_all(files@, occurrences@));
    Some(grown)
}

/// Whether every occurrence is a clone of `base`.
fn all_match_base(
    files: &[&SourceFile],
    base: Occurrence,
    occurrences: &Vec<Occurrence>,
    parameterize_literals: bool,
    scratch: &mut SpanScratch,
) -> (all: bool)
    requires
        crate::matching::files_wf(files@),
        crate::matching::occurs(files@, base),
        all_occur(files@, occurrences@),
    ensures
        all == all_clones_of(files@, base, occurrences@, parameterize_literals),
{
    let mut i: usize = 0;
    while i < occurrences.len()
        invariant
            crate::matching::files_wf(files@),
            crate::matching::occurs(files@, base),
            all_occur(files@, occurrences@),
            i <= occurrences@.len(),
            forall|k: int|
                0 <= k < i ==> crate::matching::is_clone_pair(
                    files@,
                    base,
                    #[trigger] occurrences@[k],
                    parameterize_literals,
                ),
        decreases occurrences@.len() - i,
    {
        assert(crate::matching::occurs(files@, occurrences@[i as int]));
        if !occurrences_match(files, base, occurrences[i], parameterize_literals, scratch) {
            assert(!crate::matching::is_clone_pair(
                files@,
                base,
                occurrences@[i as int],
                parameterize_literals,
            ));
            return false;
        }
        i = i + 1;
    }
    true
}

/// Whether a range of the representative is a complete span in every occurrence.
fn is_common_range(
    files: &[&SourceFile],
    occurrences: &Vec<Occurrence>,
    head: u32,
    tail: u32,
) -> (common: bool)
    requires
        files_ready(files@),
        all_occur(files@, occurrences@),
        forall|i: int|
            0 <= i < occurrences@.len() ==> (#[trigger] occurrences@[i]).start + head + tail
                <= occurrences@[i].end,
    ensures
        common == all_complete_trimmed(files@, occurrences@, head as int, tail as int),
{
    let mut i: usize = 0;
    while i < occurrences.len()
        invariant
            files_ready(files@),
            all_occur(files@, occurrences@),
            forall|i: int|
                0 <= i < occurrences@.len() ==> (#[trigger] occurrences@[i]).start + head + tail
                    <= occurrences@[i].end,
            i <= occurrences@.len(),
            forall|k: int|
                0 <= k < i ==> crate::spans::is_complete(
                    tokens_in(files@, (#[trigger] occurrences@[k]).file),
                    occurrences@[k].start + head,
                    occurrences@[k].end - tail,
                ),
        decreases occurrences@.len() - i,
    {
        let occurrence = occurrences[i];
        assert(crate::matching::occurs(files@, occurrences@[i as int]));
        assert(occurrences@[i as int].start + head + tail <= occurrences@[i as int].end);
        let file = files[occurrence.file as usize];
        assert(files@[occurrence.file as int].wf());
        let meta = file.cached_span_meta();
        if !is_complete_span(
            &file.tokens,
            &meta,
            (occurrence.start + head) as usize,
            (occurrence.end - tail) as usize,
        ) {
            assert(!crate::spans::is_complete(
                tokens_in(files@, occurrences@[i as int].file),
                occurrences@[i as int].start + head,
                occurrences@[i as int].end - tail,
            ));
            return false;
        }
        i = i + 1;
    }
    true
}

/// All occurrences cut by `head` and `tail`.
fn trim_all(occurrences: &Vec<Occurrence>, head: u32, tail: u32) -> (cut: Vec<Occurrence>)
    requires
        forall|i: int|
            0 <= i < occurrences@.len() ==> (#[trigger] occurrences@[i]).start + head + tail
                <= occurrences@[i].end,
    ensures
        cut@ == trimmed_all(occurrences@, head as int, tail as int),
{
    let mut cut: Vec<Occurrence> = Vec::new();
    let mut i: usize = 0;
    while i < occurrences.len()
        invariant
            forall|i: int|
                0 <= i < occurrences@.len() ==> (#[trigger] occurrences@[i]).start + head + tail
                    <= occurrences@[i].end,
            i <= occurrences@.len(),
            cut@ == trimmed_all(occurrences@, head as int, tail as int).take(i as int),
        decreases occurrences@.len() - i,
    {
        let occurrence = occurrences[i];
        assert(occurrences@[i as int].start + head + tail <= occurrences@[i as int].end);
        cut.push(
            Occurrence {
                file: occurrence.file,
                start: occurrence.start + head,
                end: occurrence.end - tail,
            },
        );
        i = i + 1;
        assert(cut@ =~= trimmed_all(occurrences@, head as int, tail as int).take(i as int));
    }
    assert(cut@ =~= trimmed_all(occurrences@, head as int, tail as int));
    cut
}

/// Cuts the occurrences to the first complete range of the representative that all have.
fn cut_to_common_range(
    files: &[&SourceFile],
    occurrences: &Vec<Occurrence>,
    representative: Occurrence,
) -> (cut: Option<Vec<Occurrence>>)
    requires
        files_ready(files@),
        all_occur(files@, occurrences@),
        crate::matching::occurs(files@, representative),
        same_length(representative, occurrences@),
    ensures
        ({
            let ranges = crate::spans::complete_ranges_of(
                tokens_in(files@, representative.file),
                representative.start as int,
                representative.end as int,
            );
            match common_range(files@, occurrences@, representative, ranges, 0) {
                Some((start, end)) => cut matches Some(cut) && cut@ == trimmed_all(
                    occurrences@,
                    start - representative.start,
                    representative.end - end,
                ) && all_occur(files@, cut@) && representative.start <= start < end
                    <= representative.end,
                None => cut is None,
            }
        }),
{
    let base = files[representative.file as usize];
    assert(files@[representative.file as int].wf());
    let meta = base.cached_span_meta();
    let ranges = complete_ranges(
        &base.tokens,
        &meta,
        representative.start as usize,
        representative.end as usize,
    );
    let ghost view = crate::spans::pairs_view(ranges@);
    proof {
        crate::spans::complete_ranges_are_complete(
            tokens_in(files@, representative.file),
            representative.start as int,
            representative.end as int,
        );
    }
    let mut r: usize = 0;
    while r < ranges.len()
        invariant
            files_ready(files@),
            all_occur(files@, occurrences@),
            crate::matching::occurs(files@, representative),
            same_length(representative, occurrences@),
            view == crate::spans::pairs_view(ranges@),
            view == crate::spans::complete_ranges_of(
                tokens_in(files@, representative.file),
                representative.start as int,
                representative.end as int,
            ),
            crate::spans::all_complete_within(
                tokens_in(files@, representative.file),
                view,
                representative.start as int,
                representative.end as int,
            ),
            r <= ranges@.len(),
            common_range(files@, occurrences@, representative, view, 0) == common_range(
                files@,
                occurrences@,
                representative,
                view,
                r as int,
            ),
        decreases ranges@.len() - r,
    {
        let (start, end) = ranges[r];
        assert(view[r as int] == (start as int, end as int));
        let head: u32 = start as u32 - representative.start;
        let tail: u32 = representative.end - end as u32;
        proof {
            assert forall|i: int| 0 <= i < occurrences@.len() implies (
            #[trigger] occurrences@[i]).start + head + tail <= occurrences@[i].end by {
                assert(occurrences@[i].end - occurrences@[i].start == representative.end
                    - representative.start);
            }
        }
        if is_common_range(files, occurrences, head, tail) {
            let cut = trim_all(occurrences, head, tail);
            proof {
                assert forall|i: int| 0 <= i < cut@.len() implies crate::matching::occurs(
                    files@,
                    #[trigger] cut@[i],
                ) by {
                    assert(crate::matching::occurs(files@, occurrences@[i]));
                    assert(crate::spans::is_complete(
                        tokens_in(files@, occurrences@[i].file),
                        occurrences@[i].start + head,
                        occurrences@[i].end - tail,
                    ));
                    assert(files@[occurrences@[i].file as int].wf());
                }
            }
            return Some(cut);
        }
        r = r + 1;
    }
    None
}

/// Whether every occurrence is exactly one unit or container.
fn are_single_units(files: &[&SourceFile], occurrences: &Vec<Occurrence>) -> (all: bool)
    requires
        forall|i: int|
            0 <= i < occurrences@.len() ==> (#[trigger] occurrences@[i]).file < files@.len(),
    ensures
        all == all_single_units(files@, occurrences@),
{
    let mut i: usize = 0;
    while i < occurrences.len()
        invariant
            forall|i: int|
                0 <= i < occurrences@.len() ==> (#[trigger] occurrences@[i]).file < files@.len(),
            i <= occurrences@.len(),
            forall|k: int|
                0 <= k < i ==> crate::spans::is_single_unit(
                    tokens_in(files@, (#[trigger] occurrences@[k]).file),
                    occurrences@[k].start as int,
                    occurrences@[k].end as int,
                ),
        decreases occurrences@.len() - i,
    {
        let occurrence = occurrences[i];
        assert(occurrences@[i as int].file < files@.len());
        if !is_single_unit_span(
            &files[occurrence.file as usize].tokens,
            occurrence.start as usize,
            occurrence.end as usize,
        ) {
            assert(!crate::spans::is_single_unit(
                tokens_in(files@, occurrences@[i as int].file),
                occurrences@[i as int].start as int,
                occurrences@[i as int].end as int,
            ));
            return false;
        }
        i = i + 1;
    }
    true
}

/// Position of the first occurrence that equals `representative`.
fn position_of(occurrences: &Vec<Occurrence>, representative: Occurrence) -> (position: Option<usize>)
    ensures
        match position {
            Some(p) => occurrences@.contains(representative) && p == first_index(
                occurrences@,
                representative,
            ) && p < occurrences@.len(),
            None => !occurrences@.contains(representative),
        },
{
    let mut i: usize = 0;
    while i < occurrences.len()
        invariant
            i <= occurrences@.len(),
            forall|k: int| 0 <= k < i ==> #[trigger] occurrences@[k] != representative,
        decreases occurrences@.len() - i,
    {
        if occurrences[i] == representative {
            proof {
                assert(occurrences@.contains(representative));
                lemma_first_index(occurrences@, representative);
            }
            return Some(i);
        }
        i = i + 1;
    }
    None
}

/// Brings the occurrences to complete spans.
fn align(
    files: &[&SourceFile],
    occurrences: &Vec<Occurrence>,
    representative: Occurrence,
    p: usize,
    parameterize_literals: bool,
    scratch: &mut SpanScratch,
) -> (aligned: Option<Vec<Occurrence>>)
    requires
        files_ready(files@),
        all_occur(files@, occurrences@),
        same_length(representative, occurrences@),
        p < occurrences@.len(),
        p == first_index(occurrences@, representative),
        occurrences@[p as int] == representative,
    ensures
        match aligned_all(files@, occurrences@, representative, parameterize_literals) {
            Some(wanted) => aligned matches Some(aligned) && aligned@ == wanted && aligned@.len()
                == occurrences@.len() && all_occur(files@, aligned@) && same_length(
                aligned@[p as int],
                aligned@,
            ),
            None => aligned is None,
        },
{
    proof {
        assert(crate::matching::occurs(files@, occurrences@[p as int]));
        assert(crate::matching::files_wf(files@));
    }
    if let Some(grown) = snap_all(files, occurrences) {
        assert(crate::matching::occurs(files@, grown@[p as int]));
        if all_match_base(files, grown[p], &grown, parameterize_literals, scratch) {
            proof {
                assert forall|i: int| 0 <= i < grown@.len() implies (#[trigger] grown@[i]).end
                    - grown@[i].start == grown@[p as int].end - grown@[p as int].start by {
                    assert(crate::matching::is_clone_pair(
                        files@,
                        grown@[p as int],
                        grown@[i],
                        parameterize_literals,
                    ));
                    assert(crate::matching::occurs(files@, grown@[i]));
                    assert(files@[grown@[i].file as int].wf());
                    assert(files@[grown@[p as int].file as int].wf());
                }
            }
            return Some(grown);
        }
    }
    let cut = cut_to_common_range(files, occurrences, representative);
    proof {
        if cut is Some {
            let cut = cut.unwrap();
            assert forall|i: int| 0 <= i < cut@.len() implies (#[trigger] cut@[i]).end
                - cut@[i].start == cut@[p as int].end - cut@[p as int].start by {
                assert(occurrences@[i].end - occurrences@[i].start == representative.end
                    - representative.start);
                assert(crate::matching::occurs(files@, cut@[i]));
                assert(crate::matching::occurs(files@, occurrences@[i]));
                assert(files@[occurrences@[i].file as int].wf());
            }
        }
    }
    cut
}

/// Breaks a class of clones down to groups of single units; `None` if there are none.
pub fn refine_groups(
    files: &[&SourceFile],
    occurrences: &Vec<Occurrence>,
    representative: Occurrence,
    parameterize_literals: bool,
    scratch: &mut SpanScratch,
) -> (groups: Option<Vec<Vec<Occurrence>>>)
    requires
        files_ready(files@),
        all_occur(files@, occurrences@),
        same_length(representative, occurrences@),
    ensures
        occurrence_groups_or_empty(groups) == (if occurrences@.contains(representative) {
            refined_groups(files@, occurrences@, representative, parameterize_literals)
        } else {
            Seq::empty()
        }),
        groups matches Some(groups) ==> groups@.len() > 0,
{
    let position = position_of(occurrences, representative);
    let p: usize = match position {
        Some(p) => p,
        None => {
            return None;
        },
    };
    proof {
        lemma_first_index(occurrences@, representative);
        assert(crate::matching::files_wf(files@));
    }
    let aligned = match align(
        files,
        occurrences,
        representative,
        p,
        parameterize_literals,
        scratch,
    ) {
        Some(aligned) => aligned,
        None => {
            return None;
        },
    };
    let base = aligned[p];
    assert(crate::matching::occurs(files@, aligned@[p as int]));
    let file = files[base.file as usize];
    assert(files@[base.file as int].wf());
    let units = top_level_units(&file.tokens, base.start as usize, base.end as usize);
    let ghost view = crate::spans::pairs_view(units@);
    proof {
        crate::spans::lemma_top_units(
            tokens_in(files@, base.file),
            base.start as int,
            base.end as int,
        );
    }
    let mut groups: Vec<Vec<Occurrence>> = Vec::new();
    let mut n: usize = 0;
    assert(occurrence_groups(groups@) =~= Seq::empty());
    while n < units.len()
        invariant
            crate::matching::files_wf(files@),
            all_occur(files@, aligned@),
            p < aligned@.len(),
            base == aligned@[p as int],
            same_length(base, aligned@),
            view == crate::spans::pairs_view(units@),
            n <= units@.len(),
            forall|u: int|
                0 <= u < view.len() ==> base.start <= (#[trigger] view[u]).0 < view[u].1 <= base.end,
            occurrence_groups(groups@) == unit_groups(
                files@,
                aligned@,
                p as int,
                view,
                n as int,
                parameterize_literals,
            ),
        decreases units@.len() - n,
    {
        let (unit_start, unit_end) = units[n];
        assert(view[n as int] == (unit_start as int, unit_end as int));
        let head: u32 = unit_start as u32 - base.start;
        let tail: u32 = base.end - unit_end as u32;
        proof {
            assert forall|i: int| 0 <= i < aligned@.len() implies (#[trigger] aligned@[i]).start
                + head + tail <= aligned@[i].end by {
                assert(aligned@[i].end - aligned@[i].start == base.end - base.start);
            }
        }
        let refined = trim_all(&aligned, head, tail);
        proof {
            assert forall|i: int| 0 <= i < refined@.len() implies (#[trigger] refined@[i]).file
                < files@.len() && crate::matching::occurs(files@, refined@[i]) by {
                assert(crate::matching::occurs(files@, aligned@[i]));
                assert(aligned@[i].start + head + tail <= aligned@[i].end);
                assert(aligned@[i].end - aligned@[i].start == base.end - base.start);
            }
        }
        if are_single_units(files, &refined) && all_match_base(
            files,
            refined[p],
            &refined,
            parameterize_literals,
            scratch,
        ) {
            let ghost groups0 = groups@;
            groups.push(refined);
            assert(occurrence_groups(groups@) =~= occurrence_groups(groups0).push(refined@));
        }
        n = n + 1;
    }
    if groups.len() == 0 {
        None
    } else {
        Some(groups)
    }
}

/// The sequences that a vector of vectors holds.
pub open spec fn occurrence_groups(groups: Seq<Vec<Occurrence>>) -> Seq<Seq<Occurrence>> {
    groups.map_values(|group: Vec<Occurrence>| group@)
}

/// The groups, none where there is no vector.
pub open spec fn occurrence_groups_or_empty(groups: Option<Vec<Vec<Occurrence>>>) -> Seq<
    Seq<Occurrence>,
> {
    match groups {
        Some(groups) => occurrence_groups(groups@),
        None => Seq::empty(),
    }
}

/// A token text that shows logic rather than a declaration.
pub open spec fn is_logic_marker(text: Seq<u8>) -> bool {
    ||| text == encode_utf8("="@)
    ||| text == encode_utf8("=="@)
    ||| text == encode_utf8("!="@)
    ||| text == encode_utf8("=>"@)
    ||| text == encode_utf8("+"@)
    ||| text == encode_utf8("-"@)
    ||| text == encode_utf8("/"@)
    ||| text == encode_utf8("%"@)
    ||| text == encode_utf8("&&"@)
    ||| text == encode_utf8("||"@)
    ||| text == encode_utf8("!"@)
    ||| text == encode_utf8("."@)
    ||| text == encode_utf8("?"@)
    ||| text == encode_utf8("if"@)
    ||| text == encode_utf8("else"@)
    ||| text == encode_utf8("for"@)
    ||| text == encode_utf8("while"@)
    ||| text == encode_utf8("loop"@)
    ||| text == encode_utf8("match"@)
    ||| text == encode_utf8("return"@)
    ||| text == encode_utf8("let"@)
    ||| text == encode_utf8("fn"@)
    ||| text == encode_utf8("impl"@)
    ||| text == encode_utf8("unsafe"@)
    ||| text == encode_utf8("await"@)
    ||| text == encode_utf8("break"@)
    ||| text == encode_utf8("continue"@)
}

/// Whether a token text shows logic rather than a declaration.
fn shows_logic(text: &[u8]) -> (logic: bool)
    ensures
        logic == is_logic_marker(text@),
{
    bytes_equal(text, "=".as_bytes())
        || bytes_equal(text, "==".as_bytes())
        || bytes_equal(text, "!=".as_bytes())
        || bytes_equal(text, "=>".as_bytes())
        || bytes_equal(text, "+".as_bytes())
        || bytes_equal(text, "-".as_bytes())
        || bytes_equal(text, "/".as_bytes())
        || bytes_equal(text, "%".as_bytes())
        || bytes_equal(text, "&&".as_bytes())
        || bytes_equal(text, "||".as_bytes())
        || bytes_equal(text, "!".as_bytes())
        || bytes_equal(text, ".".as_bytes())
        || bytes_equal(text, "?".as_bytes())
        || bytes_equal(text, "if".as_bytes())
        || bytes_equal(text, "else".as_bytes())
        || bytes_equal(text, "for".as_bytes())
        || bytes_equal(text, "while".as_bytes())
        || bytes_equal(text, "loop".as_bytes())
        || bytes_equal(text, "match".as_bytes())
        || bytes_equal(text, "return".as_bytes())
        || bytes_equal(text, "let".as_bytes())
        || bytes_equal(text, "fn".as_bytes())
        || bytes_equal(text, "impl".as_bytes())
        || bytes_equal(text, "unsafe".as_bytes())
        || bytes_equal(text, "await".as_bytes())
        || bytes_equal(text, "break".as_bytes())
        || bytes_equal(text, "continue".as_bytes())
}

/// The text of a token.
pub open spec fn token_text(file: &SourceFile, index: int) -> Seq<u8> {
    file.bytes().subrange(file.tokens@[index].start as int, file.tokens@[index].end as int)
}

/// Some token of the occurrence is a logic marker.
pub open spec fn has_logic(files: Seq<&SourceFile>, occurrence: Occurrence) -> bool {
    exists|t: int|
        occurrence.start <= t < occurrence.end && is_logic_marker(
            #[trigger] token_text(files[occurrence.file as int], t),
        )
}

/// No occurrence has a logic marker.
pub open spec fn all_boilerplate(files: Seq<&SourceFile>, occurrences: Seq<Occurrence>) -> bool {
    forall|i: int| 0 <= i < occurrences.len() ==> !has_logic(files, #[trigger] occurrences[i])
}

fn occurrence_has_logic(files: &[&SourceFile], occurrence: Occurrence) -> (logic: bool)
    requires
        crate::matching::files_wf(files@),
        crate::matching::occurs(files@, occurrence),
    ensures
        logic == has_logic(files@, occurrence),
{
    let file = files[occurrence.file as usize];
    assert(files@[occurrence.file as int].wf());
    let mut t: usize = occurrence.start as usize;
    while t < occurrence.end as usize
        invariant
            file.wf(),
            file == files@[occurrence.file as int],
            file.holds(occurrence),
            occurrence.start <= t <= occurrence.end,
            forall|k: int|
                occurrence.start <= k < t ==> !is_logic_marker(
                    #[trigger] token_text(files@[occurrence.file as int], k),
                ),
        decreases occurrence.end - t,
    {
        let token = file.tokens[t];
        assert(crate::encode::token_within(file.tokens@[t as int], file.bytes().len()));
        let text = byte_range(file.text.as_str(), token.start as usize, token.end as usize);
        assert(text@ == token_text(files@[occurrence.file as int], t as int));
        if shows_logic(text) {
            return true;
        }
        t = t + 1;
    }
    false
}

/// Whether the occurrences look like pure declarations.
pub fn is_boilerplate(files: &[&SourceFile], occurrences: &Vec<Occurrence>) -> (boilerplate: bool)
    requires
        crate::matching::files_wf(files@),
        all_occur(files@, occurrences@),
    ensures
        boilerplate == all_boilerplate(files@, occurrences@),
{
    let mut i: usize = 0;
    while i < occurrences.len()
        invariant
            crate::matching::files_wf(files@),
            all_occur(files@, occurrences@),
            i <= occurrences@.len(),
            forall|k: int| 0 <= k < i ==> !has_logic(files@, #[trigger] occurrences@[k]),
        decreases occurrences@.len() - i,
    {
        assert(crate::matching::occurs(files@, occurrences@[i as int]));
        if occurrence_has_logic(files, occurrences[i]) {
            assert(has_logic(files@, occurrences@[i as int]));
            return false;
        }
        i = i + 1;
    }
    true
}

/// The two occurrences have the same token texts.
pub open spec fn same_texts(files: Seq<&SourceFile>, a: Occurrence, b: Occurrence) -> bool {
    forall|t: int|
        0 <= t < a.end - a.start ==> #[trigger] token_text(files[a.file as int], a.start + t)
            == token_text(files[b.file as int], b.start + t)
}

/// Type 1 if all occurrences have the token texts of the first, else type 2.
pub open spec fn clone_type_of(files: Seq<&SourceFile>, occurrences: Seq<Occurrence>) -> CloneType {
    if forall|i: int|
        1 <= i < occurrences.len() ==> same_texts(files, occurrences[0], #[trigger] occurrences[i]) {
        CloneType::Type1
    } else {
        CloneType::Type2
    }
}

fn texts_equal(files: &[&SourceFile], a: Occurrence, b: Occurrence) -> (equal: bool)
    requires
        crate::matching::files_wf(files@),
        crate::matching::occurs(files@, a),
        crate::matching::occurs(files@, b),
        a.end - a.start == b.end - b.start,
    ensures
        equal == same_texts(files@, a, b),
{
    let file_a = files[a.file as usize];
    let file_b = files[b.file as usize];
    assert(files@[a.file as int].wf());
    assert(files@[b.file as int].wf());
    let len: usize = (a.end - a.start) as usize;
    let mut t: usize = 0;
    while t < len
        invariant
            file_a.wf(),
            file_b.wf(),
            file_a == files@[a.file as int],
            file_b == files@[b.file as int],
            file_a.holds(a),
            file_b.holds(b),
            a.end - a.start == b.end - b.start,
            len == a.end - a.start,
            t <= len,
            forall|k: int|
                0 <= k < t ==> #[trigger] token_text(files@[a.file as int], a.start + k)
                    == token_text(files@[b.file as int], b.start + k),
        decreases len - t,
    {
        let token_a = file_a.tokens[a.start as usize + t];
        let token_b = file_b.tokens[b.start as usize + t];
        assert(crate::encode::token_within(file_a.tokens@[a.start + t], file_a.bytes().len()));
        assert(crate::encode::token_within(file_b.tokens@[b.start + t], file_b.bytes().len()));
        let text_a = byte_range(
            file_a.text.as_str(),
            token_a.start as usize,
            token_a.end as usize,
        );
        let text_b = byte_range(
            file_b.text.as_str(),
            token_b.start as usize,
            token_b.end as usize,
        );
        if !bytes_equal(text_a, text_b) {
            assert(token_text(files@[a.file as int], a.start + t) != token_text(
                files@[b.file as int],
                b.start + t,
            ));
            return false;
        }
        t = t + 1;
    }
    true
}

/// Whether the clones have the same texts or are renamed.
pub fn classify_type(files: &[&SourceFile], occurrences: &Vec<Occurrence>) -> (clone_type: CloneType)
    requires
        crate::matching::files_wf(files@),
        all_occur(files@, occurrences@),
        occurrences@.len() > 0,
        same_length(occurrences@[0], occurrences@),
    ensures
        clone_type == clone_type_of(files@, occurrences@),
{
    let first = occurrences[0];
    assert(crate::matching::occurs(files@, occurrences@[0]));
    let mut i: usize = 1;
    while i < occurrences.len()
        invariant
            crate::matching::files_wf(files@),
            all_occur(files@, occurrences@),
            occurrences@.len() > 0,
            first == occurrences@[0],
            same_length(first, occurrences@),
            1 <= i <= occurrences@.len(),
            forall|k: int|
                1 <= k < i ==> same_texts(files@, occurrences@[0], #[trigger] occurrences@[k]),
        decreases occurrences@.len() - i,
    {
        assert(crate::matching::occurs(files@, occurrences@[i as int]));
        assert(crate::matching::occurs(files@, occurrences@[0]));
        if !texts_equal(files, first, occurrences[i]) {
            assert(!same_texts(files@, occurrences@[0], occurrences@[i as int]));
            return CloneType::Type2;
        }
        i = i + 1;
    }
    CloneType::Type1
}

/// The smallest of the numbers, 0 if there are none.
pub open spec fn least(numbers: Seq<int>) -> int
    decreases numbers.len(),
{
    if numbers.len() == 0 {
        0
    } else if numbers.len() == 1 {
        numbers[0]
    } else {
        let others = least(numbers.drop_last());
        if numbers.last() < others {
            numbers.last()
        } else {
            others
        }
    }
}

/// The token counts of the occurrences.
pub open spec fn lengths(occurrences: Seq<Occurrence>) -> Seq<int> {
    occurrences.map_values(|occurrence: Occurrence| occurrence.end - occurrence.start)
}

/// The line counts of the occurrences.
pub open spec fn line_counts(files: Seq<&SourceFile>, occurrences: Seq<Occurrence>) -> Seq<int> {
    occurrences.map_values(
        |occurrence: Occurrence| files[occurrence.file as int].lines_of(occurrence),
    )
}

/// The smallest token count.
fn least_length(occurrences: &Vec<Occurrence>) -> (count: usize)
    requires
        forall|i: int|
            0 <= i < occurrences@.len() ==> (#[trigger] occurrences@[i]).start
                <= occurrences@[i].end,
    ensures
        count == least(lengths(occurrences@)),
{
    let mut count: usize = 0;
    let mut i: usize = 0;
    while i < occurrences.len()
        invariant
            forall|i: int|
                0 <= i < occurrences@.len() ==> (#[trigger] occurrences@[i]).start
                    <= occurrences@[i].end,
            i <= occurrences@.len(),
            count == least(lengths(occurrences@).take(i as int)),
        decreases occurrences@.len() - i,
    {
        let occurrence = occurrences[i];
        assert(occurrences@[i as int].start <= occurrences@[i as int].end);
        let length: usize = (occurrence.end - occurrence.start) as usize;
        proof {
            let now = lengths(occurrences@).take(i + 1);
            assert(now.drop_last() =~= lengths(occurrences@).take(i as int));
            assert(now.last() == length);
        }
        if i == 0 || length < count {
            count = length;
        }
        i = i + 1;
    }
    assert(lengths(occurrences@).take(occurrences@.len() as int) =~= lengths(occurrences@));
    count
}

/// The smallest line count.
fn least_lines(files: &[&SourceFile], occurrences: &Vec<Occurrence>) -> (count: usize)
    requires
        crate::matching::files_wf(files@),
        all_occur(files@, occurrences@),
    ensures
        count == least(line_counts(files@, occurrences@)),
{
    let mut count: usize = 0;
    let mut i: usize = 0;
    while i < occurrences.len()
        invariant
            crate::matching::files_wf(files@),
            all_occur(files@, occurrences@),
            i <= occurrences@.len(),
            count == least(line_counts(files@, occurrences@).take(i as int)),
        decreases occurrences@.len() - i,
    {
        let occurrence = occurrences[i];
        assert(crate::matching::occurs(files@, occurrences@[i as int]));
        assert(files@[occurrence.file as int].wf());
        let lines: usize = files[occurrence.file as usize].line_span(&occurrence);
        proof {
            let now = line_counts(files@, occurrences@).take(i + 1);
            assert(now.drop_last() =~= line_counts(files@, occurrences@).take(i as int));
            assert(now.last() == lines);
        }
        if i == 0 || lines < count {
            count = lines;
        }
        i = i + 1;
    }
    assert(line_counts(files@, occurrences@).take(occurrences@.len() as int) =~= line_counts(
        files@,
        occurrences@,
    ));
    count
}

/// The groups that one connected component of matches gives: its spans in order, without those
/// contained in another, reduced to the largest class of clones, broken down to single units.
pub open spec fn component_groups(
    files: Seq<&SourceFile>,
    component: Seq<Occurrence>,
    min_occurrences: int,
    parameterize_literals: bool,
) -> Seq<Seq<Occurrence>> {
    let sorted = crate::sort::sorted_with(component, by_occurrence());
    let kept = uncontained(sorted, sorted.len() as int);
    let r = largest_class(files, kept, kept.len() as int, parameterize_literals);
    let class = kept.filter(classmates(files, kept[r], parameterize_literals));
    if kept.len() < min_occurrences || class.len() < min_occurrences {
        Seq::empty()
    } else {
        refined_groups(files, class, kept[r], parameterize_literals)
    }
}

/// The elements at the positions.
pub open spec fn picked(occurrences: Seq<Occurrence>, positions: Seq<int>) -> Seq<Occurrence> {
    positions.map_values(|i: int| occurrences[i])
}

/// The groups of the first `n` components.
pub open spec fn all_component_groups(
    files: Seq<&SourceFile>,
    ends: Seq<Occurrence>,
    components: Seq<Seq<int>>,
    n: int,
    min_occurrences: int,
    parameterize_literals: bool,
) -> Seq<Seq<Occurrence>>
    decreases n,
{
    if n <= 0 {
        Seq::empty()
    } else {
        all_component_groups(
            files,
            ends,
            components,
            n - 1,
            min_occurrences,
            parameterize_literals,
        ) + component_groups(
            files,
            picked(ends, components[n - 1]),
            min_occurrences,
            parameterize_literals,
        )
    }
}

/// The groups that the matches give before groups that share a span are joined.
pub open spec fn raw_groups(
    files: Seq<&SourceFile>,
    matches: Seq<(Occurrence, Occurrence)>,
    min_occurrences: int,
    parameterize_literals: bool,
) -> Seq<Seq<Occurrence>> {
    let ends = distinct_ends(matches);
    let labels = crate::partition::joined_labels(
        ends.len(),
        match_pairs(matches, ends),
        matches.len() as int,
    );
    let components = crate::partition::classes(labels, ends.len() as int);
    all_component_groups(
        files,
        ends,
        components,
        components.len() as int,
        min_occurrences,
        parameterize_literals,
    )
}

/// The occurrences are clones of each other in every pairing.
pub open spec fn pairwise_clones(
    files: Seq<&SourceFile>,
    occurrences: Seq<Occurrence>,
    parameterize_literals: bool,
) -> bool {
    forall|i: int, j: int|
        0 <= i < occurrences.len() && 0 <= j < occurrences.len()
            ==> crate::matching::is_clone_pair(
            files,
            #[trigger] occurrences[i],
            #[trigger] occurrences[j],
            parameterize_literals,
        )
}

/// What holds of every group of clones before groups are joined: it is not empty, its spans lie
/// in the files, each is a single unit, and all are clones of each other.
pub open spec fn is_clone_class(
    files: Seq<&SourceFile>,
    group: Seq<Occurrence>,
    parameterize_literals: bool,
) -> bool {
    &&& group.len() > 0
    &&& all_occur(files, group)
    &&& all_single_units(files, group)
    &&& pairwise_clones(files, group, parameterize_literals)
}

pub open spec fn all_clone_classes(
    files: Seq<&SourceFile>,
    groups: Seq<Seq<Occurrence>>,
    parameterize_literals: bool,
) -> bool {
    forall|g: int|
        0 <= g < groups.len() ==> is_clone_class(
            files,
            #[trigger] groups[g],
            parameterize_literals,
        )
}

proof fn lemma_clones_of_base(
    files: Seq<&SourceFile>,
    base: Occurrence,
    occurrences: Seq<Occurrence>,
    pl: bool,
)
    requires
        all_clones_of(files, base, occurrences, pl),
    ensures
        pairwise_clones(files, occurrences, pl),
{
    assert forall|i: int, j: int|
        0 <= i < occurrences.len() && 0 <= j < occurrences.len() implies crate::matching::is_clone_pair(
    files, #[trigger] occurrences[i], #[trigger] occurrences[j], pl) by {
        let x = crate::matching::occurrence_span(files, base);
        let y = crate::matching::occurrence_span(files, occurrences[i]);
        let z = crate::matching::occurrence_span(files, occurrences[j]);
        assert(crate::matching::is_clone_pair(files, base, occurrences[i], pl));
        assert(crate::matching::is_clone_pair(files, base, occurrences[j], pl));
        crate::encode::renaming_is_symmetric(x, y, pl);
        crate::encode::renaming_is_transitive(y, x, z, pl);
    }
}

proof fn lemma_unit_groups(
    files: Seq<&SourceFile>,
    aligned: Seq<Occurrence>,
    p: int,
    units: Seq<(int, int)>,
    n: int,
    pl: bool,
)
    requires
        0 <= p < aligned.len(),
        forall|i: int| 0 <= i < aligned.len() ==> (#[trigger] aligned[i]).file < files.len(),
    ensures
        all_clone_classes(files, unit_groups(files, aligned, p, units, n, pl), pl),
    decreases n,
{
    if n > 0 {
        lemma_unit_groups(files, aligned, p, units, n - 1, pl);
        let refined = trimmed_all(
            aligned,
            units[n - 1].0 - aligned[p].start,
            aligned[p].end - units[n - 1].1,
        );
        if all_single_units(files, refined) && all_clones_of(files, refined[p], refined, pl) {
            lemma_clones_of_base(files, refined[p], refined, pl);
            assert forall|i: int| 0 <= i < refined.len() implies crate::matching::occurs(
                files,
                #[trigger] refined[i],
            ) by {
                assert(refined[i].file == aligned[i].file);
                assert(crate::spans::is_single_unit(
                    tokens_in(files, refined[i].file),
                    refined[i].start as int,
                    refined[i].end as int,
                ));
            }
        }
    }
}

/// Every refined group is a class of clones.
pub proof fn refined_groups_are_clone_classes(
    files: Seq<&SourceFile>,
    occurrences: Seq<Occurrence>,
    representative: Occurrence,
    parameterize_literals: bool,
)
    requires
        all_occur(files, occurrences),
        occurrences.contains(representative),
    ensures
        all_clone_classes(
            files,
            refined_groups(files, occurrences, representative, parameterize_literals),
            parameterize_literals,
        ),
{
    lemma_first_index(occurrences, representative);
    let p = first_index(occurrences, representative);
    match aligned_all(files, occurrences, representative, parameterize_literals) {
        None => {},
        Some(aligned) => {
            assert forall|i: int| 0 <= i < aligned.len() implies (#[trigger] aligned[i]).file
                < files.len() by {
                assert(crate::matching::occurs(files, occurrences[i]));
            }
            let units = crate::spans::top_units(
                tokens_in(files, aligned[p].file),
                aligned[p].start as int,
                aligned[p].end as int,
            );
            lemma_unit_groups(
                files,
                aligned,
                p,
                units,
                units.len() as int,
                parameterize_literals,
            );
        },
    }
}

/// The groups of one component.
fn refine_component(
    files: &[&SourceFile],
    component: &Vec<Occurrence>,
    config: &Config,
    scratch: &mut SpanScratch,
) -> (groups: Vec<Vec<Occurrence>>)
    requires
        files_ready(files@),
        all_occur(files@, component@),
        component@.len() > 0,
    ensures
        occurrence_groups(groups@) == component_groups(
            files@,
            component@,
            config.min_occurrences as int,
            config.parameterize_literals,
        ),
        all_clone_classes(files@, occurrence_groups(groups@), config.parameterize_literals),
{
    let ghost pl = config.parameterize_literals;
    let none: Vec<Vec<Occurrence>> = Vec::new();
    assert(occurrence_groups(none@) =~= Seq::empty());
    let sorted = sort_occurrences(component);
    let ghost sorted_seq = sorted@;
    proof {
        assert(crate::matching::files_wf(files@));
        crate::sort::lemma_sorted_with(component@, by_occurrence());
        assert forall|i: int| 0 <= i < sorted_seq.len() implies crate::matching::occurs(
            files@,
            #[trigger] sorted_seq[i],
        ) by {
            let j = lemma_sorted_members(component@, i);
            assert(crate::matching::occurs(files@, component@[j]));
        }
    }
    let kept = drop_contained(sorted);
    proof {
        assert forall|i: int| 0 <= i < kept@.len() implies crate::matching::occurs(
            files@,
            #[trigger] kept@[i],
        ) by {
            let j = lemma_uncontained_members(sorted_seq, sorted_seq.len() as int, i);
            assert(crate::matching::occurs(files@, sorted_seq[j]));
        }
        lemma_uncontained_nonempty(sorted_seq, sorted_seq.len() as int);
    }
    if kept.len() < config.min_occurrences {
        return none;
    }
    let (index, class) = representative_class(files, &kept, config.parameterize_literals, scratch);
    let representative = kept[index];
    if class.len() < config.min_occurrences {
        return none;
    }
    proof {
        let pred = classmates(files@, kept@[index as int], pl);
        assert forall|i: int| 0 <= i < class@.len() implies crate::matching::occurs(
            files@,
            #[trigger] class@[i],
        ) && class@[i].end - class@[i].start == representative.end - representative.start by {
            Seq::lemma_filter_pred(kept@, pred, i);
            assert(pred(class@[i]));
            lemma_filter_member(kept@, pred, i);
            let j = choose|j: int| 0 <= j < kept@.len() && kept@[j] == class@[i];
            assert(crate::matching::occurs(files@, kept@[j]));
            assert(crate::matching::occurs(files@, kept@[index as int]));
            assert(files@[class@[i].file as int].wf());
            assert(files@[representative.file as int].wf());
        }
        lemma_same_class_equivalence(
            files@,
            representative,
            representative,
            representative,
            pl,
        );
        Seq::lemma_filter_contains(kept@, pred, index as int);
        refined_groups_are_clone_classes(files@, class@, representative, pl);
    }
    match refine_groups(files, &class, representative, config.parameterize_literals, scratch) {
        Some(groups) => groups,
        None => none,
    }
}

proof fn lemma_uncontained_nonempty(occurrences: Seq<Occurrence>, n: int)
    ensures
        n > 0 ==> uncontained(occurrences, n).len() > 0,
    decreases n,
{
    if n > 1 {
        lemma_uncontained_nonempty(occurrences, n - 1);
    }
}

pub proof fn lemma_filter_member<A>(s: Seq<A>, pred: spec_fn(A) -> bool, i: int)
    requires
        0 <= i < s.filter(pred).len(),
    ensures
        exists|j: int| 0 <= j < s.len() && s[j] == s.filter(pred)[i],
    decreases s.len(),
{
    if s.len() == 0 {
        crate::sort::lemma_filter_none(s, pred);
    } else {
        let shorter = s.drop_last();
        assert(shorter.push(s.last()) =~= s);
        crate::sort::lemma_filter_push(shorter, s.last(), pred);
        if i < shorter.filter(pred).len() {
            lemma_filter_member(shorter, pred, i);
            let j = choose|j: int| 0 <= j < shorter.len() && shorter[j] == shorter.filter(pred)[i];
            assert(s[j] == s.filter(pred)[i]);
        } else {
            assert(s[s.len() - 1] == s.filter(pred)[i]);
        }
    }
}

/// The groups of all components.
fn refine_components(
    files: &[&SourceFile],
    ends: &Vec<Occurrence>,
    components: &Vec<Vec<usize>>,
    config: &Config,
) -> (groups: Vec<Vec<Occurrence>>)
    requires
        files_ready(files@),
        all_occur(files@, ends@),
        forall|c: int|
            0 <= c < components@.len() ==> (#[trigger] components@[c])@.len() > 0 && forall|i: int|
                0 <= i < components@[c]@.len() ==> #[trigger] components@[c]@[i] < ends@.len(),
    ensures
        occurrence_groups(groups@) == all_component_groups(
            files@,
            ends@,
            crate::partition::index_groups(components@),
            components@.len() as int,
            config.min_occurrences as int,
            config.parameterize_literals,
        ),
        all_clone_classes(files@, occurrence_groups(groups@), config.parameterize_literals),
{
    let mut scratch = SpanScratch::new();
    let mut groups: Vec<Vec<Occurrence>> = Vec::new();
    let ghost index_groups = crate::partition::index_groups(components@);
    let mut c: usize = 0;
    assert(occurrence_groups(groups@) =~= Seq::empty());
    while c < components.len()
        invariant
            files_ready(files@),
            all_occur(files@, ends@),
            forall|c: int|
                0 <= c < components@.len() ==> (#[trigger] components@[c])@.len() > 0 && forall|
                    i: int,
                |
                    0 <= i < components@[c]@.len() ==> #[trigger] components@[c]@[i] < ends@.len(),
            c <= components@.len(),
            index_groups == crate::partition::index_groups(components@),
            occurrence_groups(groups@) == all_component_groups(
                files@,
                ends@,
                index_groups,
                c as int,
                config.min_occurrences as int,
                config.parameterize_literals,
            ),
            all_clone_classes(files@, occurrence_groups(groups@), config.parameterize_literals),
        decreases components@.len() - c,
    {
        let ids = &components[c];
        assert(components@[c as int]@.len() > 0);
        let component = pick(ends, ids);
        proof {
            assert(index_groups[c as int] == ids@.map_values(|x: usize| x as int));
            assert forall|i: int| 0 <= i < component@.len() implies crate::matching::occurs(
                files@,
                #[trigger] component@[i],
            ) by {
                assert(crate::matching::occurs(files@, ends@[ids@[i] as int]));
            }
        }
        let mut found = refine_component(files, &component, config, &mut scratch);
        let ghost groups0 = groups@;
        let ghost found0 = found@;
        groups.append(&mut found);
        proof {
            assert(occurrence_groups(groups@) =~= occurrence_groups(groups0) + occurrence_groups(
                found0,
            ));
            let whole = occurrence_groups(groups@);
            assert forall|g: int| 0 <= g < whole.len() implies is_clone_class(
                files@,
                #[trigger] whole[g],
                config.parameterize_literals,
            ) by {
                if g < groups0.len() {
                    assert(whole[g] == occurrence_groups(groups0)[g]);
                } else {
                    assert(whole[g] == occurrence_groups(found0)[g - groups0.len()]);
                }
            }
        }
        c = c + 1;
    }
    groups
}

/// The elements at the positions.
fn pick(occurrences: &Vec<Occurrence>, positions: &Vec<usize>) -> (part: Vec<Occurrence>)
    requires
        forall|i: int| 0 <= i < positions@.len() ==> #[trigger] positions@[i] < occurrences@.len(),
    ensures
        part@ == picked(occurrences@, positions@.map_values(|x: usize| x as int)),
{
    let ghost wanted = picked(occurrences@, positions@.map_values(|x: usize| x as int));
    let mut part: Vec<Occurrence> = Vec::new();
    let mut i: usize = 0;
    while i < positions.len()
        invariant
            forall|i: int|
                0 <= i < positions@.len() ==> #[trigger] positions@[i] < occurrences@.len(),
            wanted == picked(occurrences@, positions@.map_values(|x: usize| x as int)),
            i <= positions@.len(),
            part@ == wanted.take(i as int),
        decreases positions@.len() - i,
    {
        assert(positions@[i as int] < occurrences@.len());
        part.push(occurrences[positions[i]]);
        i = i + 1;
        assert(part@ =~= wanted.take(i as int));
    }
    assert(part@ =~= wanted);
    part
}

/// The first group that holds the occurrence.
pub open spec fn first_holder(groups: Seq<Seq<Occurrence>>, occurrence: Occurrence, from: int) -> int
    decreases groups.len() - from,
{
    if from >= groups.len() || groups[from].contains(occurrence) {
        from
    } else {
        first_holder(groups, occurrence, from + 1)
    }
}

/// For each occurrence of the first `n` groups: its group and the first group that holds it.
pub open spec fn sharing_pairs(groups: Seq<Seq<Occurrence>>, n: int) -> Seq<(int, int)>
    decreases n,
{
    if n <= 0 {
        Seq::empty()
    } else {
        sharing_pairs(groups, n - 1) + groups[n - 1].map_values(
            |occurrence: Occurrence| (n - 1, first_holder(groups, occurrence, 0)),
        )
    }
}

proof fn lemma_first_holder(groups: Seq<Seq<Occurrence>>, occurrence: Occurrence, from: int, g: int)
    requires
        0 <= from <= g < groups.len(),
        groups[g].contains(occurrence),
    ensures
        from <= first_holder(groups, occurrence, from) <= g,
        groups[first_holder(groups, occurrence, from)].contains(occurrence),
        forall|h: int|
            from <= h < first_holder(groups, occurrence, from) ==> !(
            #[trigger] groups[h]).contains(occurrence),
    decreases groups.len() - from,
{
    if !groups[from].contains(occurrence) {
        lemma_first_holder(groups, occurrence, from + 1, g);
    }
}

proof fn lemma_first_holder_is(groups: Seq<Seq<Occurrence>>, occurrence: Occurrence, g: int)
    requires
        0 <= g < groups.len(),
        groups[g].contains(occurrence),
        forall|h: int| 0 <= h < g ==> !(#[trigger] groups[h]).contains(occurrence),
    ensures
        first_holder(groups, occurrence, 0) == g,
{
    lemma_first_holder(groups, occurrence, 0, g);
}

/// `seen` gives the first group for the occurrences of the groups below `n` and the first `k` of
/// group `n`.
spec fn is_seen(
    seen: Map<u128, usize>,
    groups: Seq<Seq<Occurrence>>,
    n: int,
    k: int,
) -> bool {
    &&& forall|key: u128| #[trigger]
        seen.dom().contains(key) ==> seen[key] <= n && seen[key] < groups.len() && exists|i: int|
            0 <= i < groups[seen[key] as int].len() && occurrence_key(
                #[trigger] groups[seen[key] as int][i],
            ) == key && forall|h: int|
                0 <= h < seen[key] ==> !(#[trigger] groups[h]).contains(groups[seen[key] as int][i])
    &&& forall|g: int, i: int|
        0 <= g < n && g < groups.len() && 0 <= i < groups[g].len() ==> seen.dom().contains(
            occurrence_key(#[trigger] groups[g][i]),
        )
    &&& n < groups.len() ==> forall|i: int|
        0 <= i < k && i < groups[n].len() ==> seen.dom().contains(
            occurrence_key(#[trigger] groups[n][i]),
        )
}

/// The first group that holds the occurrence at `k` of group `g`.
fn note_holder(
    seen: &mut HashMap<u128, usize>,
    occurrence: Occurrence,
    g: usize,
    Ghost(groups): Ghost<Seq<Seq<Occurrence>>>,
    Ghost(k): Ghost<int>,
) -> (holder: usize)
    requires
        g < groups.len(),
        0 <= k < groups[g as int].len(),
        groups[g as int][k] == occurrence,
        is_seen(old(seen)@, groups, g as int, k),
    ensures
        is_seen(final(seen)@, groups, g as int, k + 1),
        holder == first_holder(groups, occurrence, 0),
        holder <= g,
{
    broadcast use vstd::std_specs::hash::group_hash_axioms;

    let key = key_of(&occurrence);
    let known = seen.get(&key);
    if let Some(holder) = known {
        let holder: usize = *holder;
        proof {
            assert(seen@.dom().contains(key));
            let i = choose|i: int|
                0 <= i < groups[holder as int].len() && occurrence_key(
                    #[trigger] groups[holder as int][i],
                ) == key && forall|h: int|
                    0 <= h < holder ==> !(#[trigger] groups[h]).contains(groups[holder as int][i]);
            lemma_occurrence_key(groups[holder as int][i], occurrence);
            assert(groups[holder as int].contains(occurrence));
            lemma_first_holder_is(groups, occurrence, holder as int);
        }
        return holder;
    }
    let ghost seen0 = seen@;
    proof {
        assert(groups[g as int].contains(occurrence));
        assert forall|h: int| 0 <= h < g implies !(#[trigger] groups[h]).contains(occurrence) by {
            if groups[h].contains(occurrence) {
                let i = choose|i: int| 0 <= i < groups[h].len() && groups[h][i] == occurrence;
                assert(seen0.dom().contains(occurrence_key(groups[h][i])));
            }
        }
        lemma_first_holder_is(groups, occurrence, g as int);
    }
    seen.insert(key, g);
    proof {
        assert forall|other: u128| #[trigger] seen@.dom().contains(other) implies seen@[other] <= g
            && seen@[other] < groups.len() && exists|i: int|
            0 <= i < groups[seen@[other] as int].len() && occurrence_key(
                #[trigger] groups[seen@[other] as int][i],
            ) == other && forall|h: int|
                0 <= h < seen@[other] ==> !(#[trigger] groups[h]).contains(
                    groups[seen@[other] as int][i],
                ) by {
            if other == key {
                assert(occurrence_key(groups[g as int][k]) == key);
            } else {
                assert(seen0.dom().contains(other));
            }
        }
    }
    g
}

/// The pairs that join groups with a common occurrence.
fn collect_sharing_pairs(groups: &Vec<Vec<Occurrence>>) -> (pairs: Vec<(usize, usize)>)
    ensures
        pair_positions(pairs@) == sharing_pairs(
            occurrence_groups(groups@),
            groups@.len() as int,
        ),
        forall|i: int|
            0 <= i < pairs@.len() ==> (#[trigger] pairs@[i]).0 < groups@.len() && pairs@[i].1
                < groups@.len(),
{
    let ghost view = occurrence_groups(groups@);
    let mut seen: HashMap<u128, usize> = HashMap::new();
    let mut pairs: Vec<(usize, usize)> = Vec::new();
    let mut g: usize = 0;
    assert(pair_positions(pairs@) =~= sharing_pairs(view, 0));
    while g < groups.len()
        invariant
            view == occurrence_groups(groups@),
            g <= groups@.len(),
            is_seen(seen@, view, g as int, 0),
            pair_positions(pairs@) == sharing_pairs(view, g as int),
            forall|i: int|
                0 <= i < pairs@.len() ==> (#[trigger] pairs@[i]).0 < groups@.len() && pairs@[i].1
                    < groups@.len(),
        decreases groups@.len() - g,
    {
        let group = &groups[g];
        let ghost pairs0 = pair_positions(pairs@);
        let ghost row = view[g as int].map_values(
            |occurrence: Occurrence| (g as int, first_holder(view, occurrence, 0)),
        );
        let mut k: usize = 0;
        assert(view[g as int] == group@);
        assert(pairs0 + row.take(0) =~= pairs0);
        while k < group.len()
            invariant
                view == occurrence_groups(groups@),
                g < groups@.len(),
                group == groups@[g as int],
                view[g as int] == group@,
                row == view[g as int].map_values(
                    |occurrence: Occurrence| (g as int, first_holder(view, occurrence, 0)),
                ),
                k <= group@.len(),
                is_seen(seen@, view, g as int, k as int),
                pair_positions(pairs@) == pairs0 + row.take(k as int),
                forall|i: int|
                    0 <= i < pairs@.len() ==> (#[trigger] pairs@[i]).0 < groups@.len()
                        && pairs@[i].1 < groups@.len(),
            decreases group@.len() - k,
        {
            let occurrence = group[k];
            let holder = note_holder(&mut seen, occurrence, g, Ghost(view), Ghost(k as int));
            let ghost before = pairs@;
            pairs.push((g, holder));
            k = k + 1;
            assert(pair_positions(pairs@) =~= pair_positions(before).push(
                (g as int, holder as int),
            ));
            assert(row.take(k as int) =~= row.take(k - 1).push(row[k - 1]));
            assert(pair_positions(pairs@) =~= pairs0 + row.take(k as int));
        }
        assert(row.take(row.len() as int) =~= row);
        g = g + 1;
    }
    pairs
}

/// Without repetitions of neighbours.
pub open spec fn deduplicated(occurrences: Seq<Occurrence>, n: int) -> Seq<Occurrence>
    decreases n,
{
    if n <= 0 {
        Seq::empty()
    } else {
        let kept = deduplicated(occurrences, n - 1);
        if kept.len() > 0 && kept.last() == occurrences[n - 1] {
            kept
        } else {
            kept.push(occurrences[n - 1])
        }
    }
}

/// The occurrences of the groups at the first `n` positions, one after the other.
pub open spec fn concatenated(
    groups: Seq<Seq<Occurrence>>,
    positions: Seq<int>,
    n: int,
) -> Seq<Occurrence>
    decreases n,
{
    if n <= 0 {
        Seq::empty()
    } else {
        concatenated(groups, positions, n - 1) + groups[positions[n - 1]]
    }
}

/// The occurrences of the groups at the positions, in order and each once.
pub open spec fn united(groups: Seq<Seq<Occurrence>>, positions: Seq<int>) -> Seq<Occurrence> {
    let sorted = crate::sort::sorted_with(
        concatenated(groups, positions, positions.len() as int),
        by_occurrence(),
    );
    deduplicated(sorted, sorted.len() as int)
}

/// Joins the groups at the positions into one, in order and without repetitions.
fn unite(groups: &Vec<Vec<Occurrence>>, positions: &Vec<usize>) -> (merged: Vec<Occurrence>)
    requires
        forall|i: int| 0 <= i < positions@.len() ==> #[trigger] positions@[i] < groups@.len(),
    ensures
        merged@ == united(
            occurrence_groups(groups@),
            positions@.map_values(|x: usize| x as int),
        ),
{
    let ghost view = occurrence_groups(groups@);
    let ghost ids = positions@.map_values(|x: usize| x as int);
    let mut all: Vec<Occurrence> = Vec::new();
    let mut n: usize = 0;
    while n < positions.len()
        invariant
            forall|i: int| 0 <= i < positions@.len() ==> #[trigger] positions@[i] < groups@.len(),
            view == occurrence_groups(groups@),
            ids == positions@.map_values(|x: usize| x as int),
            n <= positions@.len(),
            all@ == concatenated(view, ids, n as int),
        decreases positions@.len() - n,
    {
        assert(positions@[n as int] < groups@.len());
        let group = &groups[positions[n]];
        let ghost before = all@;
        let mut k: usize = 0;
        assert(before + group@.take(0) =~= before);
        while k < group.len()
            invariant
                k <= group@.len(),
                all@ == before + group@.take(k as int),
            decreases group@.len() - k,
        {
            all.push(group[k]);
            k = k + 1;
            assert(group@.take(k as int) =~= group@.take(k - 1).push(group@[k - 1]));
            assert(all@ =~= before + group@.take(k as int));
        }
        assert(group@.take(group@.len() as int) =~= group@);
        assert(view[ids[n as int]] == group@);
        n = n + 1;
    }
    let sorted = sort_occurrences(&all);
    let mut merged: Vec<Occurrence> = Vec::new();
    let mut i: usize = 0;
    while i < sorted.len()
        invariant
            i <= sorted@.len(),
            merged@ == deduplicated(sorted@, i as int),
        decreases sorted@.len() - i,
    {
        let count: usize = merged.len();
        let repeated: bool = if count > 0 {
            merged[count - 1] == sorted[i]
        } else {
            false
        };
        if !repeated {
            merged.push(sorted[i]);
        }
        i = i + 1;
    }
    merged
}

proof fn lemma_deduplicated_member(s: Seq<Occurrence>, n: int, k: int) -> (i: int)
    requires
        0 <= n <= s.len(),
        0 <= k < deduplicated(s, n).len(),
    ensures
        0 <= i < n,
        s[i] == deduplicated(s, n)[k],
    decreases n,
{
    let kept = deduplicated(s, n - 1);
    if k < kept.len() {
        lemma_deduplicated_member(s, n - 1, k)
    } else {
        n - 1
    }
}

proof fn lemma_deduplicated_keeps(s: Seq<Occurrence>, n: int, i: int)
    requires
        0 <= i < n <= s.len(),
    ensures
        deduplicated(s, n).contains(s[i]),
    decreases n,
{
    let kept = deduplicated(s, n - 1);
    let now = deduplicated(s, n);
    if i < n - 1 {
        lemma_deduplicated_keeps(s, n - 1, i);
        let k = choose|k: int| 0 <= k < kept.len() && kept[k] == s[i];
        assert(now[k] == s[i]);
    } else {
        assert(now[now.len() - 1] == s[i]);
    }
}

/// A sorted sequence without repetitions of neighbours strictly ascends.
proof fn lemma_deduplicated_ascends(s: Seq<Occurrence>, n: int)
    requires
        0 <= n <= s.len(),
        crate::sort::ascends(s, by_occurrence()),
    ensures
        forall|a: int, b: int|
            0 <= a < b < deduplicated(s, n).len() ==> occurrence_key(
                #[trigger] deduplicated(s, n)[a],
            ) < occurrence_key(#[trigger] deduplicated(s, n)[b]),
    decreases n,
{
    if n > 0 {
        lemma_deduplicated_ascends(s, n - 1);
        let kept = deduplicated(s, n - 1);
        let now = deduplicated(s, n);
        assert forall|a: int, b: int| 0 <= a < b < now.len() implies occurrence_key(
            #[trigger] now[a],
        ) < occurrence_key(#[trigger] now[b]) by {
            if b == kept.len() {
                let i = lemma_deduplicated_member(s, n - 1, kept.len() - 1);
                assert(by_occurrence()(s[i]) <= by_occurrence()(s[n - 1]));
                lemma_occurrence_key(kept.last(), s[n - 1]);
                if a < kept.len() - 1 {
                    assert(occurrence_key(kept[a]) < occurrence_key(kept[kept.len() - 1]));
                }
            }
        }
    }
}

proof fn lemma_concatenated_member(
    groups: Seq<Seq<Occurrence>>,
    positions: Seq<int>,
    n: int,
    k: int,
) -> (result: (int, int))
    requires
        0 <= n <= positions.len(),
        0 <= k < concatenated(groups, positions, n).len(),
    ensures
        0 <= result.0 < n,
        0 <= result.1 < groups[positions[result.0]].len(),
        groups[positions[result.0]][result.1] == concatenated(groups, positions, n)[k],
    decreases n,
{
    let head = concatenated(groups, positions, n - 1);
    if k < head.len() {
        lemma_concatenated_member(groups, positions, n - 1, k)
    } else {
        (n - 1, k - head.len())
    }
}

proof fn lemma_concatenated_keeps(
    groups: Seq<Seq<Occurrence>>,
    positions: Seq<int>,
    n: int,
    p: int,
    i: int,
) -> (k: int)
    requires
        0 <= p < n <= positions.len(),
        0 <= i < groups[positions[p]].len(),
    ensures
        0 <= k < concatenated(groups, positions, n).len(),
        concatenated(groups, positions, n)[k] == groups[positions[p]][i],
    decreases n,
{
    let head = concatenated(groups, positions, n - 1);
    if p < n - 1 {
        lemma_concatenated_keeps(groups, positions, n - 1, p, i)
    } else {
        head.len() + i
    }
}

/// Every occurrence of united groups comes from one of them.
pub proof fn lemma_united_member(groups: Seq<Seq<Occurrence>>, positions: Seq<int>, k: int) -> (result: (
    int,
    int,
))
    requires
        0 <= k < united(groups, positions).len(),
    ensures
        0 <= result.0 < positions.len(),
        0 <= result.1 < groups[positions[result.0]].len(),
        groups[positions[result.0]][result.1] == united(groups, positions)[k],
{
    let all = concatenated(groups, positions, positions.len() as int);
    let sorted = crate::sort::sorted_with(all, by_occurrence());
    let i = lemma_deduplicated_member(sorted, sorted.len() as int, k);
    let j = lemma_sorted_members(all, i);
    lemma_concatenated_member(groups, positions, positions.len() as int, j)
}

/// Every occurrence of the groups is still there when they are united.
pub proof fn lemma_united_keeps(groups: Seq<Seq<Occurrence>>, positions: Seq<int>, p: int, i: int)
    requires
        0 <= p < positions.len(),
        0 <= i < groups[positions[p]].len(),
    ensures
        united(groups, positions).contains(groups[positions[p]][i]),
{
    let all = concatenated(groups, positions, positions.len() as int);
    let sorted = crate::sort::sorted_with(all, by_occurrence());
    let k = lemma_concatenated_keeps(groups, positions, positions.len() as int, p, i);
    let j = lemma_sorted_keeps(all, k);
    lemma_deduplicated_keeps(sorted, sorted.len() as int, j);
}

/// The occurrences of united groups strictly ascend.
pub proof fn lemma_united_ascends(groups: Seq<Seq<Occurrence>>, positions: Seq<int>)
    ensures
        forall|a: int, b: int|
            0 <= a < b < united(groups, positions).len() ==> occurrence_key(
                #[trigger] united(groups, positions)[a],
            ) < occurrence_key(#[trigger] united(groups, positions)[b]),
{
    let all = concatenated(groups, positions, positions.len() as int);
    let sorted = crate::sort::sorted_with(all, by_occurrence());
    crate::sort::lemma_sorted_with(all, by_occurrence());
    lemma_deduplicated_ascends(sorted, sorted.len() as int);
}

/// The labels of the groups once groups with a common occurrence are joined.
pub open spec fn sharing_labels(groups: Seq<Seq<Occurrence>>) -> Seq<int> {
    let pairs = sharing_pairs(groups, groups.len() as int);
    crate::partition::joined_labels(groups.len(), pairs, pairs.len() as int)
}

/// The groups with those joined that share an occurrence, directly or by way of others.
pub open spec fn joined_groups(groups: Seq<Seq<Occurrence>>) -> Seq<Seq<Occurrence>> {
    crate::partition::classes(sharing_labels(groups), groups.len() as int).map_values(
        |positions: Seq<int>| united(groups, positions),
    )
}

/// Two groups hold an occurrence in common.
spec fn share_occurrence(groups: Seq<Seq<Occurrence>>, g: int, h: int) -> bool {
    exists|o: Occurrence| groups[g].contains(o) && #[trigger] groups[h].contains(o)
}

/// Every pair is one of groups with a common occurrence.
proof fn lemma_sharing_pair(groups: Seq<Seq<Occurrence>>, n: int, i: int)
    requires
        0 <= n <= groups.len(),
        0 <= i < sharing_pairs(groups, n).len(),
    ensures
        0 <= sharing_pairs(groups, n)[i].0 < groups.len(),
        0 <= sharing_pairs(groups, n)[i].1 < groups.len(),
        share_occurrence(groups, sharing_pairs(groups, n)[i].0, sharing_pairs(groups, n)[i].1),
    decreases n,
{
    let head = sharing_pairs(groups, n - 1);
    let row = groups[n - 1].map_values(
        |occurrence: Occurrence| (n - 1, first_holder(groups, occurrence, 0)),
    );
    assert(sharing_pairs(groups, n) == head + row);
    if i < head.len() {
        lemma_sharing_pair(groups, n - 1, i);
    } else {
        let o = groups[n - 1][i - head.len()];
        assert(sharing_pairs(groups, n)[i] == row[i - head.len()]);
        assert(groups[n - 1].contains(o));
        lemma_first_holder(groups, o, 0, n - 1);
        assert(groups[first_holder(groups, o, 0)].contains(o));
    }
}

/// Every occurrence of a group gives a pair.
proof fn lemma_sharing_pair_of(groups: Seq<Seq<Occurrence>>, n: int, g: int, k: int) -> (i: int)
    requires
        0 <= g < n <= groups.len(),
        0 <= k < groups[g].len(),
    ensures
        0 <= i < sharing_pairs(groups, n).len(),
        sharing_pairs(groups, n)[i] == (g, first_holder(groups, groups[g][k], 0)),
    decreases n,
{
    let head = sharing_pairs(groups, n - 1);
    let row = groups[n - 1].map_values(
        |occurrence: Occurrence| (n - 1, first_holder(groups, occurrence, 0)),
    );
    assert(sharing_pairs(groups, n) == head + row);
    if g < n - 1 {
        lemma_sharing_pair_of(groups, n - 1, g, k)
    } else {
        assert(row[k] == (g, first_holder(groups, groups[g][k], 0)));
        head.len() + k
    }
}

/// Groups are related if their first occurrences are clones.
spec fn group_relation(
    files: Seq<&SourceFile>,
    groups: Seq<Seq<Occurrence>>,
    pl: bool,
) -> spec_fn(int, int) -> bool {
    |g: int, h: int|
        g == h || (0 <= g < groups.len() && 0 <= h < groups.len()
            && crate::matching::is_clone_pair(files, groups[g][0], groups[h][0], pl))
}

proof fn lemma_group_relation(files: Seq<&SourceFile>, groups: Seq<Seq<Occurrence>>, pl: bool)
    ensures
        crate::partition::is_equivalence(group_relation(files, groups, pl)),
{
    let rel = group_relation(files, groups, pl);
    assert forall|g: int, h: int| #[trigger] rel(g, h) implies rel(h, g) by {
        if g != h {
            crate::encode::renaming_is_symmetric(
                crate::matching::occurrence_span(files, groups[g][0]),
                crate::matching::occurrence_span(files, groups[h][0]),
                pl,
            );
        }
    }
    assert forall|f: int, g: int, h: int| #[trigger] rel(f, g) && #[trigger] rel(g, h) implies rel(
        f,
        h,
    ) by {
        if f != g && g != h {
            crate::encode::renaming_is_transitive(
                crate::matching::occurrence_span(files, groups[f][0]),
                crate::matching::occurrence_span(files, groups[g][0]),
                crate::matching::occurrence_span(files, groups[h][0]),
                pl,
            );
        }
    }
}

/// Groups that end up joined are related.
proof fn lemma_joined_related(files: Seq<&SourceFile>, groups: Seq<Seq<Occurrence>>, pl: bool)
    requires
        all_clone_classes(files, groups, pl),
    ensures
        sharing_labels(groups).len() == groups.len(),
        forall|g: int, h: int|
            0 <= g < groups.len() && 0 <= h < groups.len() && #[trigger] sharing_labels(groups)[g]
                == #[trigger] sharing_labels(groups)[h] ==> group_relation(files, groups, pl)(g, h),
{
    let rel = group_relation(files, groups, pl);
    let pairs = sharing_pairs(groups, groups.len() as int);
    lemma_group_relation(files, groups, pl);
    assert forall|i: int| 0 <= i < pairs.len() implies 0 <= (#[trigger] pairs[i]).0 < groups.len()
        && 0 <= pairs[i].1 < groups.len() && rel(pairs[i].0, pairs[i].1) by {
        lemma_sharing_pair(groups, groups.len() as int, i);
        let (g, h) = pairs[i];
        let o = choose|o: Occurrence| groups[g].contains(o) && #[trigger] groups[h].contains(o);
        let a = choose|a: int| 0 <= a < groups[g].len() && groups[g][a] == o;
        let b = choose|b: int| 0 <= b < groups[h].len() && groups[h][b] == o;
        assert(is_clone_class(files, groups[g], pl));
        assert(is_clone_class(files, groups[h], pl));
        assert(crate::matching::is_clone_pair(files, groups[g][0], groups[g][a], pl));
        assert(crate::matching::is_clone_pair(files, groups[h][b], groups[h][0], pl));
        crate::encode::renaming_is_transitive(
            crate::matching::occurrence_span(files, groups[g][0]),
            crate::matching::occurrence_span(files, o),
            crate::matching::occurrence_span(files, groups[h][0]),
            pl,
        );
    }
    crate::partition::joined_elements_are_related(groups.len(), pairs, pairs.len() as int, rel);
}

/// Joining groups of clones that share an occurrence gives groups of clones.
pub proof fn joined_groups_are_clone_classes(
    files: Seq<&SourceFile>,
    groups: Seq<Seq<Occurrence>>,
    parameterize_literals: bool,
)
    requires
        all_clone_classes(files, groups, parameterize_literals),
    ensures
        all_clone_classes(files, joined_groups(groups), parameterize_literals),
{
    let pl = parameterize_literals;
    let n = groups.len() as int;
    let labels = sharing_labels(groups);
    lemma_joined_related(files, groups, pl);
    crate::partition::lemma_classes(labels, n);
    let classes = crate::partition::classes(labels, n);
    let joined = joined_groups(groups);
    assert forall|c: int| 0 <= c < joined.len() implies is_clone_class(
        files,
        #[trigger] joined[c],
        pl,
    ) by {
        let positions = classes[c];
        let merged = united(groups, positions);
        assert(joined[c] == merged);
        assert(positions.len() > 0);
        assert(0 <= classes[c][0] < n);
        assert(is_clone_class(files, groups[positions[0]], pl));
        lemma_united_keeps(groups, positions, 0, 0);
        assert forall|i: int| 0 <= i < merged.len() implies crate::matching::occurs(
            files,
            #[trigger] merged[i],
        ) && crate::spans::is_single_unit(
            tokens_in(files, merged[i].file),
            merged[i].start as int,
            merged[i].end as int,
        ) by {
            let (p, k) = lemma_united_member(groups, positions, i);
            assert(0 <= classes[c][p] < n);
            assert(is_clone_class(files, groups[positions[p]], pl));
            assert(groups[positions[p]][k] == merged[i]);
        }
        assert forall|i: int, j: int|
            0 <= i < merged.len() && 0 <= j < merged.len() implies crate::matching::is_clone_pair(
        files, #[trigger] merged[i], #[trigger] merged[j], pl) by {
            let (p, a) = lemma_united_member(groups, positions, i);
            let (q, b) = lemma_united_member(groups, positions, j);
            let g = classes[c][p];
            let h = classes[c][q];
            assert(0 <= classes[c][p] < n && 0 <= classes[c][q] < n);
            assert(labels[classes[c][p]] == labels[classes[c][q]]);
            assert(group_relation(files, groups, pl)(g, h));
            assert(is_clone_class(files, groups[g], pl));
            assert(is_clone_class(files, groups[h], pl));
            let x = crate::matching::occurrence_span(files, merged[i]);
            let y = crate::matching::occurrence_span(files, groups[g][0]);
            let z = crate::matching::occurrence_span(files, groups[h][0]);
            let w = crate::matching::occurrence_span(files, merged[j]);
            assert(crate::matching::is_clone_pair(files, groups[g][a], groups[g][0], pl));
            assert(crate::matching::is_clone_pair(files, groups[h][0], groups[h][b], pl));
            if g == h {
                crate::encode::renaming_is_reflexive(y, pl);
            }
            crate::encode::renaming_is_transitive(x, y, z, pl);
            crate::encode::renaming_is_transitive(x, z, w, pl);
        }
    }
}

/// No occurrence is in two of the joined groups.
pub proof fn joined_groups_are_disjoint(
    groups: Seq<Seq<Occurrence>>,
    c: int,
    d: int,
    occurrence: Occurrence,
)
    requires
        0 <= c < joined_groups(groups).len(),
        0 <= d < joined_groups(groups).len(),
        joined_groups(groups)[c].contains(occurrence),
        joined_groups(groups)[d].contains(occurrence),
    ensures
        c == d,
{
    let n = groups.len() as int;
    let labels = sharing_labels(groups);
    let classes = crate::partition::classes(labels, n);
    let i = choose|i: int|
        0 <= i < joined_groups(groups)[c].len() && joined_groups(groups)[c][i] == occurrence;
    let j = choose|j: int|
        0 <= j < joined_groups(groups)[d].len() && joined_groups(groups)[d][j] == occurrence;
    let (p, a) = lemma_united_member(groups, classes[c], i);
    let (q, b) = lemma_united_member(groups, classes[d], j);
    lemma_sharing_len(groups);
    let g = classes[c][p];
    let h = classes[d][q];
    assert(0 <= g < n && 0 <= h < n) by {
        crate::partition::lemma_classes(labels, n);
        assert(0 <= classes[c][p] < n);
        assert(0 <= classes[d][q] < n);
    }
    lemma_shares_first_label(groups, g, a);
    lemma_shares_first_label(groups, h, b);
    if c != d {
        crate::partition::lemma_classes_differ(labels, n, c, p, d, q);
    }
}

proof fn lemma_sharing_len(groups: Seq<Seq<Occurrence>>)
    ensures
        sharing_labels(groups).len() == groups.len(),
{
    let pairs = sharing_pairs(groups, groups.len() as int);
    crate::partition::lemma_joined_len(groups.len(), pairs, pairs.len() as int);
}

/// A group ends up with the label of the first group that holds one of its occurrences.
proof fn lemma_shares_first_label(groups: Seq<Seq<Occurrence>>, g: int, k: int)
    requires
        0 <= g < groups.len(),
        0 <= k < groups[g].len(),
    ensures
        sharing_labels(groups)[g] == sharing_labels(groups)[first_holder(groups, groups[g][k], 0)],
{
    let pairs = sharing_pairs(groups, groups.len() as int);
    let i = lemma_sharing_pair_of(groups, groups.len() as int, g, k);
    assert forall|j: int| 0 <= j < pairs.len() implies 0 <= (#[trigger] pairs[j]).0 < groups.len()
        && 0 <= pairs[j].1 < groups.len() by {
        lemma_sharing_pair(groups, groups.len() as int, j);
    }
    crate::partition::joined_pairs_share_label(groups.len(), pairs, pairs.len() as int, i);
}

/// The clone type is among the wanted ones.
pub open spec fn type_wanted(types: Option<Vec<CloneType>>, clone_type: CloneType) -> bool {
    types matches Some(list) ==> list@.contains(clone_type)
}

/// The group is reported: it has enough occurrences, each long enough, it is not mere boilerplate
/// where that is filtered, and its type is wanted.
pub open spec fn is_reported(
    files: Seq<&SourceFile>,
    group: Seq<Occurrence>,
    config: Config,
) -> bool {
    &&& group.len() >= config.min_occurrences
    &&& least(line_counts(files, group)) >= config.min_lines
    &&& !(config.filter_boilerplate && all_boilerplate(files, group))
    &&& type_wanted(config.types, clone_type_of(files, group))
}

/// A reported group: its occurrences, its token count and its type.
pub open spec fn described(files: Seq<&SourceFile>, group: Seq<Occurrence>) -> (
    Seq<Occurrence>,
    int,
    CloneType,
) {
    (group, least(lengths(group)), clone_type_of(files, group))
}

/// The reported ones of the first `n` groups.
pub open spec fn reported_groups(
    files: Seq<&SourceFile>,
    groups: Seq<Seq<Occurrence>>,
    n: int,
    config: Config,
) -> Seq<(Seq<Occurrence>, int, CloneType)>
    decreases n,
{
    if n <= 0 {
        Seq::empty()
    } else {
        let reported = reported_groups(files, groups, n - 1, config);
        if is_reported(files, groups[n - 1], config) {
            reported.push(described(files, groups[n - 1]))
        } else {
            reported
        }
    }
}

/// Sort key of a group: larger groups first, then by the place of the first occurrence.
pub open spec fn group_key(group: (Seq<Occurrence>, int, CloneType)) -> u128 {
    ((0xffff_ffff - group.1) * 0x1_0000_0000_0000_0000 + group.0[0].file * 0x1_0000_0000
        + group.0[0].start) as u128
}

/// The order in which groups are reported.
pub open spec fn by_group() -> spec_fn((Seq<Occurrence>, int, CloneType)) -> u128 {
    |group: (Seq<Occurrence>, int, CloneType)| group_key(group)
}

/// The first `limit` elements, or all where there is no limit.
pub open spec fn limited<A>(items: Seq<A>, limit: Option<usize>) -> Seq<A> {
    match limit {
        Some(n) => if n < items.len() {
            items.take(n as int)
        } else {
            items
        },
        None => items,
    }
}

/// The report on raw groups: joined, described, ordered and cut to the limit.
pub open spec fn report_of(
    files: Seq<&SourceFile>,
    raw: Seq<Seq<Occurrence>>,
    config: Config,
) -> Seq<(Seq<Occurrence>, int, CloneType)> {
    let groups = joined_groups(raw);
    let reported = reported_groups(files, groups, groups.len() as int, config);
    limited(crate::sort::sorted_with(reported, by_group()), config.max_groups)
}

/// The clone groups of the matches.
pub open spec fn clusters_of(
    files: Seq<&SourceFile>,
    matches: Seq<(Occurrence, Occurrence)>,
    config: Config,
) -> Seq<(Seq<Occurrence>, int, CloneType)> {
    let raw = raw_groups(
        files,
        matches,
        config.min_occurrences as int,
        config.parameterize_literals,
    );
    report_of(files, raw, config)
}

/// What a clone group holds.
pub open spec fn group_view(group: CloneGroup) -> (Seq<Occurrence>, int, CloneType) {
    (group.occurrences@, group.token_count as int, group.clone_type)
}

/// What clone groups hold.
pub open spec fn group_views(groups: Seq<CloneGroup>) -> Seq<(Seq<Occurrence>, int, CloneType)> {
    groups.map_values(|group: CloneGroup| group_view(group))
}

/// Nothing is reported where nothing matches.
pub proof fn no_matches_give_no_groups(files: Seq<&SourceFile>, config: Config)
    ensures
        clusters_of(files, Seq::empty(), config).len() == 0,
{
    let matches = Seq::<(Occurrence, Occurrence)>::empty();
    let raw = raw_groups(
        files,
        matches,
        config.min_occurrences as int,
        config.parameterize_literals,
    );
    assert(distinct_ends(matches).len() == 0);
    assert(raw.len() == 0);
    let groups = joined_groups(raw);
    assert(groups.len() == 0);
    let reported = reported_groups(files, groups, 0, config);
    crate::sort::lemma_sorted_with(reported, by_group());
}

fn wants_type(types: &Option<Vec<CloneType>>, clone_type: CloneType) -> (wanted: bool)
    ensures
        wanted == type_wanted(*types, clone_type),
{
    match types {
        None => true,
        Some(list) => {
            let mut i: usize = 0;
            while i < list.len()
                invariant
                    *types == Some(*list),
                    i <= list@.len(),
                    forall|k: int| 0 <= k < i ==> list@[k] != clone_type,
                decreases list@.len() - i,
            {
                if list[i] == clone_type {
                    assert(list@[i as int] == clone_type);
                    return true;
                }
                i = i + 1;
            }
            false
        },
    }
}

pub proof fn lemma_clone_class_lengths(
    files: Seq<&SourceFile>,
    group: Seq<Occurrence>,
    pl: bool,
)
    requires
        crate::matching::files_wf(files),
        is_clone_class(files, group, pl),
    ensures
        same_length(group[0], group),
        0 < least(lengths(group)) < u32::MAX,
        least(lengths(group)) == group[0].end - group[0].start,
{
    assert forall|i: int| 0 <= i < group.len() implies (#[trigger] group[i]).end - group[i].start
        == group[0].end - group[0].start by {
        assert(crate::matching::is_clone_pair(files, group[0], group[i], pl));
        assert(crate::matching::occurs(files, group[i]));
        assert(crate::matching::occurs(files, group[0]));
        assert(files[group[i].file as int].wf());
        assert(files[group[0].file as int].wf());
    }
    assert(crate::matching::occurs(files, group[0]));
    assert(files[group[0].file as int].wf());
    lemma_least_of_equal(lengths(group), group[0].end - group[0].start);
}

proof fn lemma_least_of_equal(numbers: Seq<int>, value: int)
    requires
        numbers.len() > 0,
        forall|i: int| 0 <= i < numbers.len() ==> #[trigger] numbers[i] == value,
    ensures
        least(numbers) == value,
    decreases numbers.len(),
{
    if numbers.len() > 1 {
        lemma_least_of_equal(numbers.drop_last(), value);
    }
}

/// The reported groups among the joined ones, with their descriptions.
fn report_groups(
    files: &[&SourceFile],
    raw: &Vec<Vec<Occurrence>>,
    units: &Vec<Vec<usize>>,
    config: &Config,
) -> (groups: Vec<CloneGroup>)
    requires
        files_ready(files@),
        all_clone_classes(files@, occurrence_groups(raw@), config.parameterize_literals),
        crate::partition::index_groups(units@) == crate::partition::classes(
            sharing_labels(occurrence_groups(raw@)),
            raw@.len() as int,
        ),
    ensures
        group_views(groups@) == reported_groups(
            files@,
            joined_groups(occurrence_groups(raw@)),
            units@.len() as int,
            *config,
        ),
        units@.len() == joined_groups(occurrence_groups(raw@)).len(),
        forall|g: int|
            0 <= g < groups@.len() ==> (#[trigger] groups@[g]).occurrences@.len() > 0
                && groups@[g].token_count < u32::MAX,
{
    let ghost view = occurrence_groups(raw@);
    let ghost joined = joined_groups(view);
    let ghost labels = sharing_labels(view);
    let ghost index_view = crate::partition::index_groups(units@);
    proof {
        assert(crate::matching::files_wf(files@));
        joined_groups_are_clone_classes(files@, view, config.parameterize_literals);
        lemma_sharing_len(view);
        crate::partition::lemma_classes(labels, raw@.len() as int);
        assert(index_view.len() == units@.len());
    }
    let mut groups: Vec<CloneGroup> = Vec::new();
    let mut n: usize = 0;
    assert(group_views(groups@) =~= Seq::empty());
    while n < units.len()
        invariant
            crate::matching::files_wf(files@),
            view == occurrence_groups(raw@),
            joined == joined_groups(view),
            labels == sharing_labels(view),
            index_view == crate::partition::index_groups(units@),
            index_view == crate::partition::classes(labels, raw@.len() as int),
            index_view.len() == units@.len(),
            joined.len() == units@.len(),
            all_clone_classes(files@, joined, config.parameterize_literals),
            forall|c: int, i: int|
                0 <= c < index_view.len() && 0 <= i < index_view[c].len() ==> 0
                    <= #[trigger] index_view[c][i] < raw@.len(),
            n <= units@.len(),
            group_views(groups@) == reported_groups(files@, joined, n as int, *config),
            forall|g: int|
                0 <= g < groups@.len() ==> (#[trigger] groups@[g]).occurrences@.len() > 0
                    && groups@[g].token_count < u32::MAX,
        decreases units@.len() - n,
    {
        let positions = &units[n];
        let ghost ids = positions@.map_values(|x: usize| x as int);
        proof {
            assert(index_view[n as int] == ids);
            assert forall|i: int| 0 <= i < positions@.len() implies #[trigger] positions@[i]
                < raw@.len() by {
                assert(index_view[n as int][i] == positions@[i]);
            }
        }
        let merged = unite(raw, positions);
        proof {
            assert(joined[n as int] == merged@);
            assert(is_clone_class(files@, joined[n as int], config.parameterize_literals));
            lemma_clone_class_lengths(files@, merged@, config.parameterize_literals);
            assert forall|i: int| 0 <= i < merged@.len() implies (#[trigger] merged@[i]).start
                <= merged@[i].end by {
                assert(crate::matching::occurs(files@, merged@[i]));
            }
        }
        if merged.len() >= config.min_occurrences {
            let token_count: usize = least_length(&merged);
            let line_count: usize = least_lines(files, &merged);
            if line_count >= config.min_lines {
                let dropped: bool = config.filter_boilerplate && is_boilerplate(files, &merged);
                if !dropped {
                    let clone_type = classify_type(files, &merged);
                    if wants_type(&config.types, clone_type) {
                        let ghost before = groups@;
                        let ghost occurrences = merged@;
                        groups.push(CloneGroup { occurrences: merged, token_count, clone_type });
                        assert(group_views(groups@) =~= group_views(before).push(
                            described(files@, occurrences),
                        ));
                    }
                }
            }
        }
        n = n + 1;
    }
    groups
}

fn copy_group(group: &CloneGroup) -> (copy: CloneGroup)
    ensures
        group_view(copy) == group_view(*group),
{
    let mut occurrences: Vec<Occurrence> = Vec::new();
    let mut i: usize = 0;
    while i < group.occurrences.len()
        invariant
            i <= group.occurrences@.len(),
            occurrences@ == group.occurrences@.take(i as int),
        decreases group.occurrences@.len() - i,
    {
        occurrences.push(group.occurrences[i]);
        i = i + 1;
        assert(occurrences@ =~= group.occurrences@.take(i as int));
    }
    assert(occurrences@ =~= group.occurrences@);
    CloneGroup { occurrences, token_count: group.token_count, clone_type: group.clone_type }
}

/// The groups in reporting order, cut to the limit.
fn order_groups(groups: &Vec<CloneGroup>, limit: Option<usize>) -> (ordered: Vec<CloneGroup>)
    requires
        forall|g: int|
            0 <= g < groups@.len() ==> (#[trigger] groups@[g]).occurrences@.len() > 0
                && groups@[g].token_count < u32::MAX,
    ensures
        group_views(ordered@) == limited(
            crate::sort::sorted_with(group_views(groups@), by_group()),
            limit,
        ),
{
    let ghost views = group_views(groups@);
    let ghost wanted = views.map_values(by_group());
    let mut keys: Vec<u128> = Vec::new();
    let mut i: usize = 0;
    while i < groups.len()
        invariant
            forall|g: int|
                0 <= g < groups@.len() ==> (#[trigger] groups@[g]).occurrences@.len() > 0
                    && groups@[g].token_count < u32::MAX,
            views == group_views(groups@),
            wanted == views.map_values(by_group()),
            i <= groups@.len(),
            keys@ == wanted.take(i as int),
        decreases groups@.len() - i,
    {
        let group = &groups[i];
        assert(groups@[i as int].occurrences@.len() > 0);
        let first = group.occurrences[0];
        let size: u128 = 0xffff_ffff - group.token_count as u128;
        keys.push(
            size * 0x1_0000_0000_0000_0000 + first.file as u128 * 0x1_0000_0000
                + first.start as u128,
        );
        i = i + 1;
        assert(keys@ =~= wanted.take(i as int));
    }
    assert(keys@ =~= wanted);
    let order = sorted_order(&keys);
    let ghost p = crate::sort::positions(order@);
    let ghost sorted = crate::sort::sorted_with(views, by_group());
    assert(sorted == crate::sort::arrange(views, p));
    let count: usize = match limit {
        Some(n) => if n < order.len() {
            n
        } else {
            order.len()
        },
        None => order.len(),
    };
    let mut ordered: Vec<CloneGroup> = Vec::new();
    let mut k: usize = 0;
    while k < count
        invariant
            views == group_views(groups@),
            keys@.len() == groups@.len(),
            p == crate::sort::positions(order@),
            crate::sort::is_order(keys@, p, 0, keys@.len() as int),
            sorted == crate::sort::arrange(views, p),
            k <= count <= order@.len(),
            group_views(ordered@) == sorted.take(k as int),
        decreases count - k,
    {
        assert(p[k as int] == order@[k as int]);
        let copy = copy_group(&groups[order[k]]);
        let ghost before = ordered@;
        ordered.push(copy);
        k = k + 1;
        assert(group_views(ordered@) =~= group_views(before).push(group_view(copy)));
        assert(sorted.take(k as int) =~= sorted.take(k - 1).push(sorted[k - 1]));
    }
    assert(sorted.take(sorted.len() as int) =~= sorted);
    ordered
}

proof fn lemma_ends_occur(files: Seq<&SourceFile>, matches: Seq<(Occurrence, Occurrence)>)
    requires
        forall|i: int|
            0 <= i < matches.len() ==> crate::matching::occurs(files, (#[trigger] matches[i]).0)
                && crate::matching::occurs(files, matches[i].1),
    ensures
        all_occur(files, distinct_ends(matches)),
{
    let n = matches.len() as int;
    let all = match_ends(matches, n);
    lemma_match_ends(matches, n, n);
    lemma_distinct(all, all.len() as int);
    let ends = distinct_ends(matches);
    assert forall|k: int| 0 <= k < ends.len() implies crate::matching::occurs(
        files,
        #[trigger] ends[k],
    ) by {
        let i = choose|i: int| 0 <= i < all.len() && #[trigger] all[i] == ends[k];
        let m = i / 2;
        assert(all[2 * m] == matches[m].0 && all[2 * m + 1] == matches[m].1);
    }
}

/// Clusters matches into clone groups.
pub fn cluster(
    files: &[&SourceFile],
    matches: &Vec<(Occurrence, Occurrence)>,
    config: &Config,
) -> (groups: Vec<CloneGroup>)
    requires
        files_ready(files@),
        forall|i: int|
            0 <= i < matches@.len() ==> crate::matching::occurs(files@, (#[trigger] matches@[i]).0)
                && crate::matching::occurs(files@, matches@[i].1),
    ensures
        group_views(groups@) == clusters_of(files@, matches@, *config),
        crate::findings::are_findings(files@, group_views(groups@), *config),
{
    let (ends, pairs) = number_matches(matches);
    proof {
        lemma_ends_occur(files@, matches@);
    }
    let labels = join_pairs(ends.len(), &pairs);
    let components = group_by_label(&labels);
    proof {
        let view = crate::partition::label_view(labels@);
        let index_view = crate::partition::index_groups(components@);
        crate::partition::lemma_classes(view, ends@.len() as int);
        assert forall|c: int| 0 <= c < components@.len() implies (#[trigger] components@[c])@.len()
            > 0 && forall|i: int|
            0 <= i < components@[c]@.len() ==> #[trigger] components@[c]@[i] < ends@.len() by {
            assert(index_view[c] == components@[c]@.map_values(|x: usize| x as int));
            assert forall|i: int| 0 <= i < components@[c]@.len() implies #[trigger] components@[c]@[i]
                < ends@.len() by {
                assert(index_view[c][i] == components@[c]@[i]);
            }
        }
    }
    let raw = refine_components(files, &ends, &components, config);
    let ghost raw_view = occurrence_groups(raw@);
    proof {
        assert(pair_positions(pairs@).len() == matches@.len());
        assert(crate::partition::index_groups(components@).len() == components@.len());
        assert(raw_view == raw_groups(
            files@,
            matches@,
            config.min_occurrences as int,
            config.parameterize_literals,
        ));
    }
    let sharing = collect_sharing_pairs(&raw);
    let joined = join_pairs(raw.len(), &sharing);
    let units = group_by_label(&joined);
    proof {
        assert(pair_positions(sharing@).len() == sharing@.len());
        assert(raw_view.len() == raw@.len());
        assert(crate::partition::label_view(joined@) == sharing_labels(raw_view));
    }
    let groups = report_groups(files, &raw, &units, config);
    proof {
        assert(crate::matching::files_wf(files@));
        crate::findings::reported_groups_are_findings(files@, raw_view, *config);
    }
    order_groups(&groups, config.max_groups)
}

} // verus!
