//! Units that match are reported.
use vstd::prelude::*;

use crate::config::Config;
use crate::model::{Occurrence, SourceFile};

verus! {

/// The span is a unit of a file on its own: its brackets match, and no unit crosses its borders.
pub open spec fn stands_alone(files: Seq<&SourceFile>, occurrence: Occurrence) -> bool {
    let tokens = files[occurrence.file as int].tokens@;
    let start = occurrence.start as int;
    let end = occurrence.end as int;
    &&& crate::matching::occurs(files, occurrence)
    &&& crate::spans::is_complete(tokens, start, end)
    &&& crate::spans::is_single_unit(tokens, start, end)
}

/// The second span lies in the first.
pub open spec fn encloses(outer: Occurrence, inner: Occurrence) -> bool {
    outer.file == inner.file && outer.start <= inner.start && inner.end <= outer.end
}

/// The spans are units on their own, clones of each other, and none lies in another.
pub open spec fn are_matched_units(
    files: Seq<&SourceFile>,
    occurrences: Seq<Occurrence>,
    parameterize_literals: bool,
) -> bool {
    &&& occurrences.no_duplicates()
    &&& forall|i: int| 0 <= i < occurrences.len() ==> stands_alone(files, #[trigger] occurrences[i])
    &&& forall|i: int, j: int|
        #![trigger occurrences[i], occurrences[j]]
        0 <= i < occurrences.len() && 0 <= j < occurrences.len()
            ==> crate::matching::is_clone_pair(
            files,
            occurrences[i],
            occurrences[j],
            parameterize_literals,
        ) && (i != j ==> !encloses(occurrences[i], occurrences[j]))
}

#[verifier::rlimit(30)]
#[verifier::spinoff_prover]
proof fn lemma_sorted_units(
    files: Seq<&SourceFile>,
    occurrences: Seq<Occurrence>,
    pl: bool,
)
    requires
        are_matched_units(files, occurrences, pl),
    ensures
        are_matched_units(
            files,
            crate::sort::sorted_with(occurrences, crate::cluster::by_occurrence()),
            pl,
        ),
        crate::sort::sorted_with(occurrences, crate::cluster::by_occurrence()).len()
            == occurrences.len(),
{
    let keys = occurrences.map_values(crate::cluster::by_occurrence());
    let sorted = crate::sort::sorted_with(occurrences, crate::cluster::by_occurrence());
    crate::sort::lemma_stable_order(keys);
    let order = crate::sort::stable_order(keys);
    assert forall|i: int, j: int| 0 <= i < j < sorted.len() implies sorted[i] != sorted[j] by {
        assert(crate::sort::before(keys, order[i], order[j]));
        assert(order[i] != order[j]);
        assert(sorted[i] == occurrences[order[i]] && sorted[j] == occurrences[order[j]]);
    }
    assert forall|i: int| 0 <= i < sorted.len() implies stands_alone(
        files,
        #[trigger] sorted[i],
    ) by {
        assert(sorted[i] == occurrences[order[i]]);
    }
    assert forall|i: int, j: int|
        #![trigger sorted[i], sorted[j]]
        0 <= i < sorted.len() && 0 <= j < sorted.len() implies crate::matching::is_clone_pair(
        files,
        sorted[i],
        sorted[j],
        pl,
    ) && (i != j ==> !encloses(sorted[i], sorted[j])) by {
        assert(sorted[i] == occurrences[order[i]] && sorted[j] == occurrences[order[j]]);
        if i < j {
            assert(crate::sort::before(keys, order[i], order[j]));
        } else if j < i {
            assert(crate::sort::before(keys, order[j], order[i]));
        }
    }
}

proof fn lemma_none_contained(
    files: Seq<&SourceFile>,
    occurrences: Seq<Occurrence>,
    pl: bool,
    n: int,
)
    requires
        are_matched_units(files, occurrences, pl),
        0 <= n <= occurrences.len(),
    ensures
        crate::cluster::uncontained(occurrences, n) == occurrences.take(n),
    decreases n,
{
    if n > 0 {
        lemma_none_contained(files, occurrences, pl, n - 1);
        assert(occurrences.take(n) =~= occurrences.take(n - 1).push(occurrences[n - 1]));
        if n > 1 {
            assert(occurrences.take(n - 1).last() == occurrences[n - 2]);
            assert(!encloses(occurrences[n - 2], occurrences[n - 1]));
        }
    } else {
        assert(occurrences.take(0) =~= Seq::empty());
    }
}

/// Units on their own stay as they are when a class of clones is broken down to units.
#[verifier::rlimit(30)]
#[verifier::spinoff_prover]
proof fn lemma_refined_units(
    files: Seq<&SourceFile>,
    occurrences: Seq<Occurrence>,
    representative: Occurrence,
    pl: bool,
)
    requires
        crate::matching::files_wf(files),
        are_matched_units(files, occurrences, pl),
        occurrences.contains(representative),
    ensures
        crate::cluster::refined_groups(files, occurrences, representative, pl) == seq![occurrences],
{
    let p = crate::cluster::first_index(occurrences, representative);
    crate::cluster::lemma_first_index(occurrences, representative);
    let grown = crate::cluster::snapped_all(files, occurrences);
    assert forall|i: int| 0 <= i < occurrences.len() implies crate::cluster::snap_of(
        files,
        #[trigger] occurrences[i],
    ) == Some((occurrences[i].start as int, occurrences[i].end as int)) by {
        assert(stands_alone(files, occurrences[i]));
        crate::spans::snapped_spans_hold_what_they_grew_from(
            files[occurrences[i].file as int].tokens@,
            occurrences[i].start as int,
            occurrences[i].end as int,
        );
    }
    assert forall|i: int| 0 <= i < occurrences.len() implies #[trigger] grown[i]
        == occurrences[i] by {
        assert(crate::cluster::snap_of(files, occurrences[i]) is Some);
    }
    assert(grown =~= occurrences);
    assert(crate::cluster::all_snap(files, occurrences));
    assert(crate::cluster::all_clones_of(files, representative, occurrences, pl)) by {
        assert forall|i: int| 0 <= i < occurrences.len() implies crate::matching::is_clone_pair(
            files,
            representative,
            #[trigger] occurrences[i],
            pl,
        ) by {
            assert(occurrences[p] == representative);
        }
    }
    assert(crate::cluster::aligned_all(files, occurrences, representative, pl) == Some(
        occurrences,
    ));
    let unit = occurrences[p];
    let tokens = files[unit.file as int].tokens@;
    let start = unit.start as int;
    let end = unit.end as int;
    assert(stands_alone(files, unit));
    assert(crate::spans::widest_end(tokens, start, end) == Some(end));
    assert(crate::spans::unit_row(tokens, end, end) == Some(Seq::<(int, int)>::empty()));
    let units = crate::spans::top_units(tokens, start, end);
    assert(units =~= seq![(start, end)]);
    let whole = crate::cluster::trimmed_all(occurrences, 0, 0);
    assert forall|i: int| 0 <= i < occurrences.len() implies #[trigger] whole[i]
        == occurrences[i] by {}
    assert(whole =~= occurrences);
    assert(crate::cluster::all_single_units(files, occurrences)) by {
        assert forall|i: int| 0 <= i < occurrences.len() implies crate::spans::is_single_unit(
            crate::cluster::tokens_in(files, (#[trigger] occurrences[i]).file),
            occurrences[i].start as int,
            occurrences[i].end as int,
        ) by {
            assert(stands_alone(files, occurrences[i]));
        }
    }
    reveal_with_fuel(crate::cluster::unit_groups, 2);
    assert(crate::cluster::unit_groups(files, occurrences, p, units, 1, pl) =~= seq![occurrences]);
}

/// Matched units that are connected make one group, if there are enough of them.
#[verifier::rlimit(30)]
#[verifier::spinoff_prover]
proof fn lemma_component_of_units(
    files: Seq<&SourceFile>,
    component: Seq<Occurrence>,
    min_occurrences: int,
    pl: bool,
)
    requires
        crate::matching::files_wf(files),
        crate::meaning::are_hashed(files),
        component.len() > 0,
        are_matched_units(files, component, pl),
    ensures
        crate::cluster::component_groups(files, component, min_occurrences, pl) == (
        if component.len() < min_occurrences {
            Seq::<Seq<Occurrence>>::empty()
        } else {
            seq![crate::sort::sorted_with(component, crate::cluster::by_occurrence())]
        }),
{
    let sorted = crate::sort::sorted_with(component, crate::cluster::by_occurrence());
    let n = sorted.len() as int;
    lemma_sorted_units(files, component, pl);
    lemma_none_contained(files, sorted, pl, n);
    assert(sorted.take(n) =~= sorted);
    let r = crate::cluster::largest_class(files, sorted, n, pl);
    crate::cluster::lemma_largest_is_earlier(files, sorted, n, pl);
    let mates = crate::cluster::classmates(files, sorted[r], pl);
    assert forall|i: int| 0 <= i < sorted.len() implies mates(#[trigger] sorted[i]) by {
        let a = sorted[r];
        let b = sorted[i];
        assert(stands_alone(files, a) && stands_alone(files, b));
        assert(crate::matching::is_clone_pair(files, a, b, pl));
        let x = crate::matching::occurrence_span(files, a);
        let y = crate::matching::occurrence_span(files, b);
        assert(files[a.file as int].wf());
        assert(files[b.file as int].wf());
        assert(crate::encode::is_classified(x)) by {
            crate::encode::token_hashes_are_classified(
                vstd::utf8::encode_utf8(files[a.file as int].text@),
                files[a.file as int].tokens@,
            );
            assert forall|t: int| 0 <= t < x.len() implies (#[trigger] x[t]) >> 62 < 3 by {
                assert(x[t] == files[a.file as int].hashes@[a.start + t]);
            }
        }
        crate::encode::fingerprint_ignores_renaming(x, y, pl);
    }
    crate::sort::lemma_filter_all(sorted, mates);
    assert(sorted.contains(sorted[r]));
    lemma_refined_units(files, sorted, sorted[r], pl);
}

/// The spans of the matches are units on their own, and none lies in another.
pub open spec fn match_units(
    files: Seq<&SourceFile>,
    matches: Seq<(Occurrence, Occurrence)>,
    parameterize_literals: bool,
) -> bool {
    &&& forall|k: int|
        0 <= k < matches.len() ==> {
            &&& stands_alone(files, (#[trigger] matches[k]).0)
            &&& stands_alone(files, matches[k].1)
            &&& crate::matching::is_clone_pair(
                files,
                matches[k].0,
                matches[k].1,
                parameterize_literals,
            )
        }
    &&& forall|k: int, l: int|
        #![trigger matches[k], matches[l]]
        0 <= k < matches.len() && 0 <= l < matches.len() ==> {
            &&& matches[k].0 == matches[l].0 || !encloses(matches[k].0, matches[l].0)
            &&& matches[k].0 == matches[l].1 || !encloses(matches[k].0, matches[l].1)
            &&& matches[k].1 == matches[l].0 || !encloses(matches[k].1, matches[l].0)
            &&& matches[k].1 == matches[l].1 || !encloses(matches[k].1, matches[l].1)
        }
}

/// The span is one of a match.
pub open spec fn is_end(matches: Seq<(Occurrence, Occurrence)>, occurrence: Occurrence) -> bool {
    exists|k: int|
        0 <= k < matches.len() && ((#[trigger] matches[k]).0 == occurrence || matches[k].1
            == occurrence)
}

proof fn lemma_ends(matches: Seq<(Occurrence, Occurrence)>)
    ensures
        crate::cluster::distinct_ends(matches).no_duplicates(),
        forall|i: int|
            0 <= i < crate::cluster::distinct_ends(matches).len() ==> is_end(
                matches,
                #[trigger] crate::cluster::distinct_ends(matches)[i],
            ),
        forall|k: int|
            0 <= k < matches.len() ==> crate::cluster::distinct_ends(matches).contains(
                (#[trigger] matches[k]).0,
            ) && crate::cluster::distinct_ends(matches).contains(matches[k].1),
{
    let n = matches.len() as int;
    let all = crate::cluster::match_ends(matches, n);
    let ends = crate::cluster::distinct_ends(matches);
    crate::cluster::lemma_match_ends(matches, n, n);
    crate::cluster::lemma_distinct(all, all.len() as int);
    assert forall|i: int| 0 <= i < ends.len() implies is_end(matches, #[trigger] ends[i]) by {
        let j = choose|j: int| 0 <= j < all.len() && #[trigger] all[j] == ends[i];
        let k = j / 2;
        assert(all[2 * k] == matches[k].0 && all[2 * k + 1] == matches[k].1);
    }
    assert forall|k: int| 0 <= k < n implies ends.contains((#[trigger] matches[k]).0)
        && ends.contains(matches[k].1) by {
        assert(all[2 * k] == matches[k].0);
        assert(all[2 * k + 1] == matches[k].1);
    }
}

/// The labels of the spans of the matches: those that are connected have one label.
spec fn labels_of(matches: Seq<(Occurrence, Occurrence)>) -> Seq<int> {
    let ends = crate::cluster::distinct_ends(matches);
    crate::partition::joined_labels(
        ends.len(),
        crate::cluster::match_pairs(matches, ends),
        matches.len() as int,
    )
}

/// The connected components of the matches.
spec fn components_of(matches: Seq<(Occurrence, Occurrence)>) -> Seq<Seq<int>> {
    crate::partition::classes(
        labels_of(matches),
        crate::cluster::distinct_ends(matches).len() as int,
    )
}

/// The spans of a component.
spec fn component_spans(matches: Seq<(Occurrence, Occurrence)>, c: int) -> Seq<Occurrence> {
    crate::cluster::picked(crate::cluster::distinct_ends(matches), components_of(matches)[c])
}

/// The spans of a component in order.
spec fn sorted_component(matches: Seq<(Occurrence, Occurrence)>, c: int) -> Seq<Occurrence> {
    crate::sort::sorted_with(component_spans(matches, c), crate::cluster::by_occurrence())
}

/// Two distinct spans are clones, as far as they are spans of matches.
spec fn related(files: Seq<&SourceFile>, ends: Seq<Occurrence>, pl: bool) -> spec_fn(
    int,
    int,
) -> bool {
    |x: int, y: int|
        x == y || (0 <= x < ends.len() && 0 <= y < ends.len() && crate::matching::is_clone_pair(
            files,
            ends[x],
            ends[y],
            pl,
        ))
}

proof fn lemma_related(files: Seq<&SourceFile>, ends: Seq<Occurrence>, pl: bool)
    ensures
        crate::partition::is_equivalence(related(files, ends, pl)),
{
    let rel = related(files, ends, pl);
    assert forall|x: int, y: int| #[trigger] rel(x, y) implies rel(y, x) by {
        if x != y {
            crate::encode::renaming_is_symmetric(
                crate::matching::occurrence_span(files, ends[x]),
                crate::matching::occurrence_span(files, ends[y]),
                pl,
            );
        }
    }
    assert forall|x: int, y: int, z: int| #[trigger] rel(x, y) && #[trigger] rel(
        y,
        z,
    ) implies rel(x, z) by {
        if x != y && y != z {
            crate::encode::renaming_is_transitive(
                crate::matching::occurrence_span(files, ends[x]),
                crate::matching::occurrence_span(files, ends[y]),
                crate::matching::occurrence_span(files, ends[z]),
                pl,
            );
        }
    }
}

proof fn lemma_pair_positions(files: Seq<&SourceFile>, matches: Seq<(Occurrence, Occurrence)>, pl: bool)
    requires
        match_units(files, matches, pl),
    ensures
        ({
            let ends = crate::cluster::distinct_ends(matches);
            let pairs = crate::cluster::match_pairs(matches, ends);
            forall|i: int|
                0 <= i < pairs.len() ==> 0 <= (#[trigger] pairs[i]).0 < ends.len() && 0
                    <= pairs[i].1 < ends.len() && ends[pairs[i].0] == matches[i].0
                    && ends[pairs[i].1] == matches[i].1 && related(files, ends, pl)(
                    pairs[i].0,
                    pairs[i].1,
                )
        }),
{
    let ends = crate::cluster::distinct_ends(matches);
    let pairs = crate::cluster::match_pairs(matches, ends);
    lemma_ends(matches);
    assert forall|i: int| 0 <= i < pairs.len() implies 0 <= (#[trigger] pairs[i]).0 < ends.len()
        && 0 <= pairs[i].1 < ends.len() && ends[pairs[i].0] == matches[i].0 && ends[pairs[i].1]
        == matches[i].1 && related(files, ends, pl)(pairs[i].0, pairs[i].1) by {
        assert(ends.contains(matches[i].0) && ends.contains(matches[i].1));
        crate::cluster::lemma_first_index(ends, matches[i].0);
        crate::cluster::lemma_first_index(ends, matches[i].1);
    }
}

/// Two spans of matches that are connected are clones, and neither lies in the other.
proof fn lemma_connected(
    files: Seq<&SourceFile>,
    matches: Seq<(Occurrence, Occurrence)>,
    pl: bool,
    x: int,
    y: int,
)
    requires
        match_units(files, matches, pl),
        0 <= x < crate::cluster::distinct_ends(matches).len(),
        0 <= y < crate::cluster::distinct_ends(matches).len(),
        labels_of(matches)[x] == labels_of(matches)[y],
    ensures
        ({
            let ends = crate::cluster::distinct_ends(matches);
            &&& stands_alone(files, ends[x])
            &&& crate::matching::is_clone_pair(files, ends[x], ends[y], pl)
            &&& x != y ==> ends[x] != ends[y] && !encloses(ends[x], ends[y])
        }),
{
    let ends = crate::cluster::distinct_ends(matches);
    lemma_ends(matches);
    lemma_related(files, ends, pl);
    lemma_pair_positions(files, matches, pl);
    crate::partition::joined_elements_are_related(
        ends.len(),
        crate::cluster::match_pairs(matches, ends),
        matches.len() as int,
        related(files, ends, pl),
    );
    assert(related(files, ends, pl)(x, y));
    assert(is_end(matches, ends[x]) && is_end(matches, ends[y]));
    let k = choose|k: int|
        0 <= k < matches.len() && ((#[trigger] matches[k]).0 == ends[x] || matches[k].1
            == ends[x]);
    let l = choose|l: int|
        0 <= l < matches.len() && ((#[trigger] matches[l]).0 == ends[y] || matches[l].1
            == ends[y]);
    assert(stands_alone(files, matches[k].0) && stands_alone(files, matches[k].1));
    assert(matches[l] == matches[l]);
    if x == y {
        crate::encode::renaming_is_reflexive(
            crate::matching::occurrence_span(files, ends[x]),
            pl,
        );
    }
}

#[verifier::rlimit(30)]
#[verifier::spinoff_prover]
proof fn lemma_component(
    files: Seq<&SourceFile>,
    matches: Seq<(Occurrence, Occurrence)>,
    pl: bool,
    c: int,
)
    requires
        match_units(files, matches, pl),
        0 <= c < components_of(matches).len(),
    ensures
        component_spans(matches, c).len() > 0,
        component_spans(matches, c).len() == components_of(matches)[c].len(),
        are_matched_units(files, component_spans(matches, c), pl),
        forall|i: int|
            0 <= i < component_spans(matches, c).len() ==> is_end(
                matches,
                #[trigger] component_spans(matches, c)[i],
            ),
{
    let ends = crate::cluster::distinct_ends(matches);
    let n = ends.len() as int;
    let labels = labels_of(matches);
    crate::partition::lemma_joined_len(
        ends.len(),
        crate::cluster::match_pairs(matches, ends),
        matches.len() as int,
    );
    crate::partition::lemma_classes(labels, n);
    let firsts = crate::partition::first_members(labels, n);
    let component = components_of(matches)[c];
    assert(component == crate::partition::members(labels, labels[firsts[c]], n));
    crate::partition::lemma_members(labels, labels[firsts[c]], n);
    let spans = component_spans(matches, c);
    assert forall|i: int| 0 <= i < spans.len() implies #[trigger] spans[i] == ends[component[i]]
        && 0 <= component[i] < n by {}
    lemma_ends(matches);
    assert forall|i: int, j: int|
        #![trigger spans[i], spans[j]]
        0 <= i < spans.len() && 0 <= j < spans.len() implies stands_alone(files, spans[i])
        && crate::matching::is_clone_pair(files, spans[i], spans[j], pl) && (i != j ==> spans[i]
        != spans[j] && !encloses(spans[i], spans[j])) by {
        lemma_connected(files, matches, pl, component[i], component[j]);
        if i < j {
            assert(component[i] < component[j]);
        } else if j < i {
            assert(component[j] < component[i]);
        }
    }
    assert forall|i: int| 0 <= i < spans.len() implies stands_alone(files, #[trigger] spans[i])
        && is_end(matches, spans[i]) by {
        assert(spans[i] == spans[i]);
        assert(is_end(matches, ends[component[i]]));
    }
}

/// The class of an element.
proof fn lemma_class_of(labels: Seq<int>, n: int, x: int) -> (c: int)
    requires
        0 <= x < n <= labels.len(),
    ensures
        0 <= c < crate::partition::classes(labels, n).len(),
        labels[crate::partition::first_members(labels, n)[c]] == labels[x],
{
    crate::partition::lemma_first_members(labels, n);
    choose|c: int|
        0 <= c < crate::partition::first_members(labels, n).len()
            && labels[#[trigger] crate::partition::first_members(labels, n)[c]] == labels[x]
}

/// An element of one label with another is in its class.
proof fn lemma_classmate(labels: Seq<int>, n: int, c: int, x: int, y: int)
    requires
        0 <= x < n <= labels.len(),
        0 <= y < n,
        labels[x] == labels[y],
        0 <= c < crate::partition::classes(labels, n).len(),
        labels[crate::partition::first_members(labels, n)[c]] == labels[x],
    ensures
        crate::partition::classes(labels, n)[c].contains(y),
{
    crate::partition::lemma_members(labels, labels[x], n);
}

/// The component that holds both spans of a match.
proof fn lemma_match_component(
    files: Seq<&SourceFile>,
    matches: Seq<(Occurrence, Occurrence)>,
    pl: bool,
    k: int,
) -> (c: int)
    requires
        match_units(files, matches, pl),
        0 <= k < matches.len(),
    ensures
        0 <= c < components_of(matches).len(),
        component_spans(matches, c).contains(matches[k].0),
        component_spans(matches, c).contains(matches[k].1),
{
    let ends = crate::cluster::distinct_ends(matches);
    let n = ends.len() as int;
    let labels = labels_of(matches);
    let pairs = crate::cluster::match_pairs(matches, ends);
    lemma_pair_positions(files, matches, pl);
    crate::partition::joined_pairs_share_label(ends.len(), pairs, matches.len() as int, k);
    let x = pairs[k].0;
    let y = pairs[k].1;
    let c = lemma_class_of(labels, n, x);
    lemma_classmate(labels, n, c, x, y);
    lemma_classmate(labels, n, c, x, x);
    let component = components_of(matches)[c];
    let i = choose|i: int| 0 <= i < component.len() && component[i] == x;
    let j = choose|j: int| 0 <= j < component.len() && component[j] == y;
    assert(component_spans(matches, c)[i] == matches[k].0);
    assert(component_spans(matches, c)[j] == matches[k].1);
    c
}

/// The groups of the first `n` components.
spec fn raw_of(
    files: Seq<&SourceFile>,
    matches: Seq<(Occurrence, Occurrence)>,
    min_occurrences: int,
    pl: bool,
    n: int,
) -> Seq<Seq<Occurrence>> {
    crate::cluster::all_component_groups(
        files,
        crate::cluster::distinct_ends(matches),
        components_of(matches),
        n,
        min_occurrences,
        pl,
    )
}

proof fn lemma_raw_step(
    files: Seq<&SourceFile>,
    matches: Seq<(Occurrence, Occurrence)>,
    min_occurrences: int,
    pl: bool,
    n: int,
)
    requires
        crate::matching::files_wf(files),
        crate::meaning::are_hashed(files),
        match_units(files, matches, pl),
        0 < n <= components_of(matches).len(),
    ensures
        raw_of(files, matches, min_occurrences, pl, n) == raw_of(
            files,
            matches,
            min_occurrences,
            pl,
            n - 1,
        ) + (if component_spans(matches, n - 1).len() < min_occurrences {
            Seq::<Seq<Occurrence>>::empty()
        } else {
            seq![sorted_component(matches, n - 1)]
        }),
{
    lemma_component(files, matches, pl, n - 1);
    lemma_component_of_units(files, component_spans(matches, n - 1), min_occurrences, pl);
}

/// Every group is a component.
proof fn lemma_raw_from(
    files: Seq<&SourceFile>,
    matches: Seq<(Occurrence, Occurrence)>,
    min_occurrences: int,
    pl: bool,
    n: int,
    r: int,
) -> (c: int)
    requires
        crate::matching::files_wf(files),
        crate::meaning::are_hashed(files),
        match_units(files, matches, pl),
        0 <= n <= components_of(matches).len(),
        0 <= r < raw_of(files, matches, min_occurrences, pl, n).len(),
    ensures
        0 <= c < n,
        raw_of(files, matches, min_occurrences, pl, n)[r] == sorted_component(matches, c),
    decreases n,
{
    if n <= 0 {
        0
    } else {
        lemma_raw_step(files, matches, min_occurrences, pl, n);
        if r < raw_of(files, matches, min_occurrences, pl, n - 1).len() {
            lemma_raw_from(files, matches, min_occurrences, pl, n - 1, r)
        } else {
            n - 1
        }
    }
}

/// Every component with enough spans is a group.
proof fn lemma_raw_has(
    files: Seq<&SourceFile>,
    matches: Seq<(Occurrence, Occurrence)>,
    min_occurrences: int,
    pl: bool,
    n: int,
    c: int,
) -> (r: int)
    requires
        crate::matching::files_wf(files),
        crate::meaning::are_hashed(files),
        match_units(files, matches, pl),
        0 <= c < n <= components_of(matches).len(),
        component_spans(matches, c).len() >= min_occurrences,
    ensures
        0 <= r < raw_of(files, matches, min_occurrences, pl, n).len(),
        raw_of(files, matches, min_occurrences, pl, n)[r] == sorted_component(matches, c),
    decreases n,
{
    lemma_raw_step(files, matches, min_occurrences, pl, n);
    let before = raw_of(files, matches, min_occurrences, pl, n - 1);
    if c == n - 1 {
        before.len() as int
    } else {
        lemma_raw_has(files, matches, min_occurrences, pl, n - 1, c)
    }
}

/// The groups of matched units are classes of clones among the spans of the matches.
proof fn lemma_raw_classes(
    files: Seq<&SourceFile>,
    matches: Seq<(Occurrence, Occurrence)>,
    min_occurrences: int,
    pl: bool,
)
    requires
        crate::matching::files_wf(files),
        crate::meaning::are_hashed(files),
        match_units(files, matches, pl),
    ensures
        ({
            let raw = crate::cluster::raw_groups(files, matches, min_occurrences, pl);
            &&& crate::cluster::all_clone_classes(files, raw, pl)
            &&& forall|r: int, i: int|
                0 <= r < raw.len() && 0 <= i < raw[r].len() ==> is_end(
                    matches,
                    #[trigger] raw[r][i],
                )
        }),
{
    let n = components_of(matches).len() as int;
    let raw = raw_of(files, matches, min_occurrences, pl, n);
    assert(raw == crate::cluster::raw_groups(files, matches, min_occurrences, pl));
    assert forall|r: int| 0 <= r < raw.len() implies crate::cluster::is_clone_class(
        files,
        #[trigger] raw[r],
        pl,
    ) by {
        let c = lemma_raw_from(files, matches, min_occurrences, pl, n, r);
        lemma_component(files, matches, pl, c);
        lemma_sorted_units(files, component_spans(matches, c), pl);
        assert forall|i: int| 0 <= i < raw[r].len() implies stands_alone(
            files,
            #[trigger] raw[r][i],
        ) by {}
    }
    assert forall|r: int, i: int| 0 <= r < raw.len() && 0 <= i < raw[r].len() implies is_end(
        matches,
        #[trigger] raw[r][i],
    ) by {
        let c = lemma_raw_from(files, matches, min_occurrences, pl, n, r);
        lemma_component(files, matches, pl, c);
        let j = crate::cluster::lemma_sorted_members(component_spans(matches, c), i);
        assert(component_spans(matches, c)[j] == raw[r][i]);
    }
}

/// A group that two spans are in is joined to one that they are in.
proof fn lemma_joined_holds(
    groups: Seq<Seq<Occurrence>>,
    r: int,
    first: Occurrence,
    second: Occurrence,
) -> (q: int)
    requires
        0 <= r < groups.len(),
        groups[r].contains(first),
        groups[r].contains(second),
    ensures
        0 <= q < crate::cluster::joined_groups(groups).len(),
        crate::cluster::joined_groups(groups)[q].contains(first),
        crate::cluster::joined_groups(groups)[q].contains(second),
        forall|i: int|
            0 <= i < crate::cluster::joined_groups(groups)[q].len() ==> exists|h: int, j: int|
                0 <= h < groups.len() && 0 <= j < groups[h].len() && #[trigger] groups[h][j]
                    == #[trigger] crate::cluster::joined_groups(groups)[q][i],
{
    let n = groups.len() as int;
    let labels = crate::cluster::sharing_labels(groups);
    let pairs = crate::cluster::sharing_pairs(groups, n);
    crate::partition::lemma_joined_len(groups.len(), pairs, pairs.len() as int);
    let q = lemma_class_of(labels, n, r);
    lemma_classmate(labels, n, q, r, r);
    let positions = crate::partition::classes(labels, n)[q];
    let at = choose|at: int| 0 <= at < positions.len() && positions[at] == r;
    let a = choose|a: int| 0 <= a < groups[r].len() && groups[r][a] == first;
    let b = choose|b: int| 0 <= b < groups[r].len() && groups[r][b] == second;
    crate::cluster::lemma_united_keeps(groups, positions, at, a);
    crate::cluster::lemma_united_keeps(groups, positions, at, b);
    let joined = crate::cluster::joined_groups(groups)[q];
    assert(joined == crate::cluster::united(groups, positions));
    assert forall|i: int| 0 <= i < joined.len() implies exists|h: int, j: int|
        0 <= h < groups.len() && 0 <= j < groups[h].len() && #[trigger] groups[h][j]
            == #[trigger] joined[i] by {
        let (p, j) = crate::cluster::lemma_united_member(groups, positions, i);
        crate::partition::lemma_classes(labels, n);
        assert(0 <= crate::partition::classes(labels, n)[q][p] < n);
        assert(groups[positions[p]][j] == joined[i]);
    }
    q
}

/// Units that match are reported together: where every span of a match is a unit on its own, none
/// lies in another, and each of them has enough lines and tells logic where boilerplate is
/// filtered, both spans of a match are in one group of the report. This is so for reports of pairs
/// without a limit and without a choice of types, which only select from such a report.
#[verifier::rlimit(30)]
#[verifier::spinoff_prover]
pub proof fn matched_units_are_reported_together(
    files: Seq<&SourceFile>,
    matches: Seq<(Occurrence, Occurrence)>,
    config: Config,
    k: int,
)
    requires
        crate::meaning::are_ready(files),
        crate::meaning::are_hashed(files),
        match_units(files, matches, config.parameterize_literals),
        0 <= k < matches.len(),
        matches[k].0 != matches[k].1,
        config.min_occurrences <= 2,
        config.max_groups is None,
        config.types is None,
        forall|occurrence: Occurrence| #[trigger]
            is_end(matches, occurrence) ==> crate::reach::is_long_enough(files, occurrence, config)
                && (config.filter_boilerplate ==> crate::meaning::tells_logic(files, occurrence)),
    ensures
        exists|g: int|
            0 <= g < crate::cluster::clusters_of(files, matches, config).len()
                && (#[trigger] crate::cluster::clusters_of(
                files,
                matches,
                config,
            )[g]).0.contains(matches[k].0) && crate::cluster::clusters_of(
                files,
                matches,
                config,
            )[g].0.contains(matches[k].1),
{
    let pl = config.parameterize_literals;
    assert(crate::matching::files_wf(files)) by {
        assert forall|f: int| 0 <= f < files.len() implies (#[trigger] files[f]).wf() by {
            assert(crate::index::file_ready(*files[f]));
        }
    }
    let min = config.min_occurrences as int;
    let raw = crate::cluster::raw_groups(files, matches, min, pl);
    let n = components_of(matches).len() as int;
    let c = lemma_match_component(files, matches, pl, k);
    let spans = component_spans(matches, c);
    let x = choose|x: int| 0 <= x < spans.len() && spans[x] == matches[k].0;
    let y = choose|y: int| 0 <= y < spans.len() && spans[y] == matches[k].1;
    assert(x != y);
    let r = lemma_raw_has(files, matches, min, pl, n, c);
    let sx = crate::cluster::lemma_sorted_keeps(spans, x);
    let sy = crate::cluster::lemma_sorted_keeps(spans, y);
    assert(raw[r][sx] == matches[k].0 && raw[r][sy] == matches[k].1);
    lemma_raw_classes(files, matches, min, pl);
    crate::cluster::joined_groups_are_clone_classes(files, raw, pl);
    let joined = crate::cluster::joined_groups(raw);
    let q = lemma_joined_holds(raw, r, matches[k].0, matches[k].1);
    let group = joined[q];
    assert(crate::meaning::qualifies(files, group, config)) by {
        let a = choose|a: int| 0 <= a < group.len() && group[a] == matches[k].0;
        let b = choose|b: int| 0 <= b < group.len() && group[b] == matches[k].1;
        assert(a != b);
        assert forall|i: int| 0 <= i < group.len() implies is_end(matches, #[trigger] group[i]) by {
            let (h, j) = choose|h: int, j: int|
                0 <= h < raw.len() && 0 <= j < raw[h].len() && #[trigger] raw[h][j] == group[i];
            assert(is_end(matches, raw[h][j]));
        }
        assert(is_end(matches, group[0]));
    }
    crate::meaning::what_qualifies_is_reported(files, group, config);
    lemma_reported_holds(files, joined, joined.len() as int, config, q);
    let reported = crate::cluster::reported_groups(files, joined, joined.len() as int, config);
    let wanted = crate::cluster::described(files, group);
    let z = choose|z: int| 0 <= z < reported.len() && reported[z] == wanted;
    let keys = reported.map_values(crate::cluster::by_group());
    crate::sort::lemma_stable_order(keys);
    let order = crate::sort::stable_order(keys);
    assert(order.contains(z));
    let g = choose|g: int| 0 <= g < order.len() && order[g] == z;
    assert(crate::cluster::clusters_of(files, matches, config)[g] == wanted);
}

proof fn lemma_reported_holds(
    files: Seq<&SourceFile>,
    groups: Seq<Seq<Occurrence>>,
    n: int,
    config: Config,
    g: int,
)
    requires
        0 <= g < n <= groups.len(),
        crate::cluster::is_reported(files, groups[g], config),
    ensures
        crate::cluster::reported_groups(files, groups, n, config).contains(
            crate::cluster::described(files, groups[g]),
        ),
    decreases n,
{
    let before = crate::cluster::reported_groups(files, groups, n - 1, config);
    let after = crate::cluster::reported_groups(files, groups, n, config);
    let wanted = crate::cluster::described(files, groups[g]);
    if g == n - 1 {
        assert(after[before.len() as int] == wanted);
    } else {
        lemma_reported_holds(files, groups, n - 1, config, g);
        let k = choose|k: int| 0 <= k < before.len() && before[k] == wanted;
        assert(after[k] == wanted);
    }
}

proof fn lemma_filter_same<A>(items: Seq<A>, p: spec_fn(A) -> bool, q: spec_fn(A) -> bool)
    requires
        forall|i: int| 0 <= i < items.len() ==> p(#[trigger] items[i]) == q(items[i]),
    ensures
        items.filter(p) == items.filter(q),
    decreases items.len(),
{
    reveal_with_fuel(Seq::filter, 1);
    if items.len() > 0 {
        let shorter = items.drop_last();
        assert forall|i: int| 0 <= i < shorter.len() implies p(#[trigger] shorter[i]) == q(
            shorter[i],
        ) by {
            assert(shorter[i] == items[i]);
        }
        lemma_filter_same(shorter, p, q);
    }
}

/// The clones of an occurrence.
pub open spec fn clones_with(
    files: Seq<&SourceFile>,
    occurrence: Occurrence,
    parameterize_literals: bool,
) -> spec_fn(Occurrence) -> bool {
    |other: Occurrence|
        crate::matching::is_clone_pair(files, occurrence, other, parameterize_literals)
}

proof fn lemma_classmates_are_clones(
    files: Seq<&SourceFile>,
    occurrences: Seq<Occurrence>,
    r: int,
    pl: bool,
)
    requires
        crate::matching::files_wf(files),
        crate::meaning::are_hashed(files),
        crate::cluster::all_occur(files, occurrences),
        0 <= r < occurrences.len(),
    ensures
        occurrences.filter(crate::cluster::classmates(files, occurrences[r], pl))
            == occurrences.filter(clones_with(files, occurrences[r], pl)),
{
    let mates = crate::cluster::classmates(files, occurrences[r], pl);
    let clones = clones_with(files, occurrences[r], pl);
    assert forall|i: int| 0 <= i < occurrences.len() implies mates(#[trigger] occurrences[i])
        == clones(occurrences[i]) by {
        let a = occurrences[r];
        let b = occurrences[i];
        assert(crate::matching::occurs(files, occurrences[r]));
        assert(crate::matching::occurs(files, occurrences[i]));
        if crate::matching::is_clone_pair(files, a, b, pl) {
            let x = crate::matching::occurrence_span(files, a);
            let y = crate::matching::occurrence_span(files, b);
            assert(files[a.file as int].wf());
            assert(crate::encode::is_classified(x)) by {
                crate::encode::token_hashes_are_classified(
                    vstd::utf8::encode_utf8(files[a.file as int].text@),
                    files[a.file as int].tokens@,
                );
                assert forall|t: int| 0 <= t < x.len() implies (#[trigger] x[t]) >> 62 < 3 by {
                    assert(x[t] == files[a.file as int].hashes@[a.start + t]);
                }
            }
            crate::encode::fingerprint_ignores_renaming(x, y, pl);
        }
    }
    lemma_filter_same(occurrences, mates, clones);
}

proof fn lemma_largest(
    files: Seq<&SourceFile>,
    occurrences: Seq<Occurrence>,
    n: int,
    pl: bool,
)
    requires
        1 <= n <= occurrences.len(),
    ensures
        ({
            let r = crate::cluster::largest_class(files, occurrences, n, pl);
            let size = crate::cluster::class_size(files, occurrences, r, pl);
            &&& 0 <= r < n
            &&& forall|i: int|
                0 <= i < r ==> #[trigger] crate::cluster::class_size(files, occurrences, i, pl)
                    < size
            &&& forall|i: int|
                r <= i < n ==> #[trigger] crate::cluster::class_size(files, occurrences, i, pl)
                    <= size
        }),
    decreases n,
{
    if n > 1 {
        lemma_largest(files, occurrences, n - 1, pl);
    }
}

/// Of spans that are connected, the most that are clones of one of them are kept: the first of them
/// that no other has more clones than.
pub proof fn the_most_clones_are_kept(
    files: Seq<&SourceFile>,
    occurrences: Seq<Occurrence>,
    parameterize_literals: bool,
    i: int,
)
    requires
        crate::matching::files_wf(files),
        crate::meaning::are_hashed(files),
        crate::cluster::all_occur(files, occurrences),
        0 <= i < occurrences.len(),
    ensures
        ({
            let pl = parameterize_literals;
            let r = crate::cluster::largest_class(files, occurrences, occurrences.len() as int, pl);
            let most = occurrences.filter(clones_with(files, occurrences[r], pl));
            let fewer = occurrences.filter(clones_with(files, occurrences[i], pl));
            &&& 0 <= r < occurrences.len()
            &&& fewer.len() <= most.len()
            &&& i < r ==> fewer.len() < most.len()
            &&& occurrences.filter(crate::cluster::classmates(files, occurrences[r], pl)) == most
        }),
{
    let pl = parameterize_literals;
    let n = occurrences.len() as int;
    lemma_largest(files, occurrences, n, pl);
    let r = crate::cluster::largest_class(files, occurrences, n, pl);
    lemma_classmates_are_clones(files, occurrences, r, pl);
    lemma_classmates_are_clones(files, occurrences, i, pl);
    assert(crate::cluster::class_size(files, occurrences, i, pl) <= crate::cluster::class_size(
        files,
        occurrences,
        r,
        pl,
    ));
}

/// An occurrence lies in one of the kept ones.
pub open spec fn is_held(kept: Seq<Occurrence>, occurrence: Occurrence) -> bool {
    exists|k: int| 0 <= k < kept.len() && encloses(#[trigger] kept[k], occurrence)
}

proof fn lemma_kept_prefix(occurrences: Seq<Occurrence>, n: int)
    requires
        0 < n <= occurrences.len(),
    ensures
        ({
            let before = crate::cluster::uncontained(occurrences, n - 1);
            let kept = crate::cluster::uncontained(occurrences, n);
            let last = occurrences[n - 1];
            ||| kept == before && before.len() > 0 && encloses(before.last(), last)
            ||| kept == before.push(last) && (before.len() > 0 ==> !encloses(before.last(), last))
        }),
{
}

proof fn lemma_held(occurrences: Seq<Occurrence>, n: int, i: int)
    requires
        0 <= i < n <= occurrences.len(),
    ensures
        is_held(crate::cluster::uncontained(occurrences, n), occurrences[i]),
    decreases n,
{
    let before = crate::cluster::uncontained(occurrences, n - 1);
    let kept = crate::cluster::uncontained(occurrences, n);
    lemma_kept_prefix(occurrences, n);
    if i < n - 1 {
        lemma_held(occurrences, n - 1, i);
        let k = choose|k: int|
            0 <= k < before.len() && encloses(#[trigger] before[k], occurrences[i]);
        assert(kept[k] == before[k]);
    } else {
        assert(encloses(kept[kept.len() - 1], occurrences[i]));
    }
}

proof fn lemma_kept_from(occurrences: Seq<Occurrence>, n: int, k: int)
    requires
        0 <= n <= occurrences.len(),
        0 <= k < crate::cluster::uncontained(occurrences, n).len(),
    ensures
        occurrences.take(n).contains(crate::cluster::uncontained(occurrences, n)[k]),
        k > 0 ==> !encloses(
            crate::cluster::uncontained(occurrences, n)[k - 1],
            crate::cluster::uncontained(occurrences, n)[k],
        ),
    decreases n,
{
    if n > 0 {
        let before = crate::cluster::uncontained(occurrences, n - 1);
        let kept = crate::cluster::uncontained(occurrences, n);
        lemma_kept_prefix(occurrences, n);
        if k < before.len() {
            lemma_kept_from(occurrences, n - 1, k);
            let fewer = occurrences.take(n - 1);
            let i = choose|i: int| 0 <= i < fewer.len() && fewer[i] == before[k];
            assert(occurrences.take(n)[i] == kept[k]);
        } else {
            assert(occurrences.take(n)[n - 1] == kept[k]);
        }
    }
}

/// Spans that lie in the one kept before them are dropped: what is kept holds every span, comes
/// from the spans, and no two neighbours lie in each other.
pub proof fn spans_within_spans_are_dropped(occurrences: Seq<Occurrence>, n: int)
    requires
        0 <= n <= occurrences.len(),
    ensures
        ({
            let kept = crate::cluster::uncontained(occurrences, n);
            &&& forall|i: int| 0 <= i < n ==> is_held(kept, #[trigger] occurrences[i])
            &&& forall|k: int|
                0 <= k < kept.len() ==> occurrences.take(n).contains(#[trigger] kept[k])
            &&& forall|k: int| 0 < k < kept.len() ==> !encloses(kept[k - 1], #[trigger] kept[k])
        }),
{
    let kept = crate::cluster::uncontained(occurrences, n);
    assert forall|i: int| 0 <= i < n implies is_held(kept, #[trigger] occurrences[i]) by {
        lemma_held(occurrences, n, i);
    }
    assert forall|k: int| 0 <= k < kept.len() implies occurrences.take(n).contains(
        #[trigger] kept[k],
    ) by {
        lemma_kept_from(occurrences, n, k);
    }
    assert forall|k: int| 0 < k < kept.len() implies !encloses(kept[k - 1], #[trigger] kept[k]) by {
        lemma_kept_from(occurrences, n, k);
    }
}

/// Clones that all grow to complete spans which are clones of each other are grown; otherwise all
/// are cut alike to complete spans, and to the longest ones that are looked at.
#[verifier::rlimit(30)]
#[verifier::spinoff_prover]
pub proof fn clones_are_brought_to_whole_spans_together(
    files: Seq<&SourceFile>,
    occurrences: Seq<Occurrence>,
    representative: Occurrence,
    parameterize_literals: bool,
    r: int,
)
    requires
        crate::matching::files_wf(files),
        crate::cluster::all_occur(files, occurrences),
        occurrences.contains(representative),
    ensures
        ({
            let pl = parameterize_literals;
            let grown = crate::cluster::snapped_all(files, occurrences);
            let aligned = crate::cluster::aligned_all(files, occurrences, representative, pl);
            let all_grow = (forall|i: int|
                0 <= i < occurrences.len() ==> crate::cluster::snap_of(
                    files,
                    #[trigger] occurrences[i],
                ) is Some) && forall|i: int, j: int|
                #![trigger grown[i], grown[j]]
                0 <= i < grown.len() && 0 <= j < grown.len() ==> crate::matching::is_clone_pair(
                    files,
                    grown[i],
                    grown[j],
                    pl,
                );
            let ranges = crate::spans::complete_ranges_of(
                files[representative.file as int].tokens@,
                representative.start as int,
                representative.end as int,
            );
            &&& all_grow ==> (aligned matches Some(spans) && spans.len() == occurrences.len()
                && forall|i: int|
                0 <= i < spans.len() ==> encloses(#[trigger] spans[i], occurrences[i])
                    && crate::shapes::is_whole(
                    files[spans[i].file as int].tokens@,
                    spans[i].start as int,
                    spans[i].end as int,
                ))
            &&& !all_grow && 0 <= r < ranges.len() && is_cut_whole(
                files,
                occurrences,
                ranges[r].0 - representative.start,
                representative.end - ranges[r].1,
            ) ==> (aligned matches Some(spans) && spans.len() == occurrences.len() && exists|
                head: int,
                tail: int,
            |
                {
                    &&& 0 <= head && 0 <= tail
                    &&& #[trigger] is_cut_whole(files, occurrences, head, tail)
                    &&& head + tail <= representative.end - representative.start - (ranges[r].1
                        - ranges[r].0)
                    &&& forall|i: int|
                        0 <= i < spans.len() ==> #[trigger] spans[i] == (Occurrence {
                            file: occurrences[i].file,
                            start: (occurrences[i].start + head) as u32,
                            end: (occurrences[i].end - tail) as u32,
                        })
                })
        }),
{
    let pl = parameterize_literals;
    let p = crate::cluster::first_index(occurrences, representative);
    crate::cluster::lemma_first_index(occurrences, representative);
    assert(crate::matching::occurs(files, occurrences[p]));
    let tokens = files[representative.file as int].tokens@;
    let start = representative.start as int;
    let end = representative.end as int;
    let ranges = crate::spans::complete_ranges_of(tokens, start, end);
    let grown = crate::cluster::snapped_all(files, occurrences);
    let aligned = crate::cluster::aligned_all(files, occurrences, representative, pl);
    lemma_grown_clones(files, occurrences, p, pl);
    if crate::cluster::all_snap(files, occurrences) {
        assert forall|i: int| 0 <= i < grown.len() implies encloses(
            #[trigger] grown[i],
            occurrences[i],
        ) && crate::shapes::is_whole(
            files[grown[i].file as int].tokens@,
            grown[i].start as int,
            grown[i].end as int,
        ) by {
            assert(crate::cluster::snap_of(files, occurrences[i]) is Some);
            assert(crate::matching::occurs(files, occurrences[i]));
            let own = files[occurrences[i].file as int];
            assert(own.wf());
            crate::spans::snapped_spans_hold_what_they_grew_from(
                own.tokens@,
                occurrences[i].start as int,
                occurrences[i].end as int,
            );
            let (s, e) = crate::cluster::snap_of(files, occurrences[i])->0;
            crate::shapes::complete_spans_are_whole(own.tokens@, s, e);
        }
    }
    if 0 <= r < ranges.len() && is_cut_whole(
        files,
        occurrences,
        ranges[r].0 - representative.start,
        representative.end - ranges[r].1,
    ) {
        crate::spans::complete_ranges_are_complete(tokens, start, end);
        lemma_ranges_ordered(tokens, start, end);
        lemma_cut_whole(
            files,
            occurrences,
            ranges[r].0 - representative.start,
            representative.end - ranges[r].1,
        );
        let q = lemma_common_range(files, occurrences, representative, ranges, 0, r);
        let head = ranges[q].0 - representative.start;
        let tail = representative.end - ranges[q].1;
        lemma_cut_whole(files, occurrences, head, tail);
        assert(is_cut_whole(files, occurrences, head, tail));
        assert(ranges[q].1 - ranges[q].0 >= ranges[r].1 - ranges[r].0);
        assert(crate::cluster::trimmed_all(occurrences, head, tail).len() == occurrences.len());
    }
}

/// Cut by so many tokens at either end, every occurrence is a whole span.
pub open spec fn is_cut_whole(
    files: Seq<&SourceFile>,
    occurrences: Seq<Occurrence>,
    head: int,
    tail: int,
) -> bool {
    forall|i: int|
        0 <= i < occurrences.len() ==> crate::shapes::is_whole(
            files[(#[trigger] occurrences[i]).file as int].tokens@,
            occurrences[i].start + head,
            occurrences[i].end - tail,
        )
}

proof fn lemma_cut_whole(
    files: Seq<&SourceFile>,
    occurrences: Seq<Occurrence>,
    head: int,
    tail: int,
)
    ensures
        is_cut_whole(files, occurrences, head, tail) == crate::cluster::all_complete_trimmed(
            files,
            occurrences,
            head,
            tail,
        ),
{
    assert forall|i: int| 0 <= i < occurrences.len() implies crate::spans::is_complete(
        crate::cluster::tokens_in(files, (#[trigger] occurrences[i]).file),
        occurrences[i].start + head,
        occurrences[i].end - tail,
    ) == crate::shapes::is_whole(
        files[occurrences[i].file as int].tokens@,
        occurrences[i].start + head,
        occurrences[i].end - tail,
    ) by {
        crate::shapes::complete_spans_are_whole(
            files[occurrences[i].file as int].tokens@,
            occurrences[i].start + head,
            occurrences[i].end - tail,
        );
    }
}

proof fn lemma_common_range(
    files: Seq<&SourceFile>,
    occurrences: Seq<Occurrence>,
    representative: Occurrence,
    ranges: Seq<(int, int)>,
    from: int,
    r: int,
) -> (q: int)
    requires
        0 <= from <= r < ranges.len(),
        crate::cluster::all_complete_trimmed(
            files,
            occurrences,
            ranges[r].0 - representative.start,
            representative.end - ranges[r].1,
        ),
    ensures
        from <= q <= r,
        crate::cluster::common_range(files, occurrences, representative, ranges, from) == Some(
            ranges[q],
        ),
        crate::cluster::all_complete_trimmed(
            files,
            occurrences,
            ranges[q].0 - representative.start,
            representative.end - ranges[q].1,
        ),
    decreases ranges.len() - from,
{
    if crate::cluster::all_complete_trimmed(
        files,
        occurrences,
        ranges[from].0 - representative.start,
        representative.end - ranges[from].1,
    ) {
        from
    } else {
        lemma_common_range(files, occurrences, representative, ranges, from + 1, r)
    }
}

proof fn lemma_ranges_ordered(tokens: Seq<crate::model::Token>, start: int, end: int)
    requires
        0 <= start,
    ensures
        forall|a: int, b: int|
            0 <= a <= b < crate::spans::complete_ranges_of(tokens, start, end).len() ==> (
            #[trigger] crate::spans::complete_ranges_of(tokens, start, end)[a]).1
                - crate::spans::complete_ranges_of(tokens, start, end)[a].0 >= (
            #[trigger] crate::spans::complete_ranges_of(tokens, start, end)[b]).1
                - crate::spans::complete_ranges_of(tokens, start, end)[b].0,
{
    let ranges = crate::spans::complete_ranges_of(tokens, start, end);
    crate::spans::complete_ranges_are_complete(tokens, start, end);
    assert forall|a: int, b: int| 0 <= a <= b < ranges.len() implies (#[trigger] ranges[a]).1
        - ranges[a].0 >= (#[trigger] ranges[b]).1 - ranges[b].0 by {
        crate::shapes::complete_spans_are_whole(tokens, ranges[a].0, ranges[a].1);
        crate::shapes::the_longest_complete_spans_come_first(
            tokens,
            start,
            end,
            ranges[a].0,
            ranges[a].1,
        );
    }
}

proof fn lemma_grown_clones(
    files: Seq<&SourceFile>,
    occurrences: Seq<Occurrence>,
    p: int,
    pl: bool,
)
    requires
        0 <= p < occurrences.len(),
    ensures
        ({
            let grown = crate::cluster::snapped_all(files, occurrences);
            crate::cluster::all_clones_of(files, grown[p], grown, pl) <==> forall|i: int, j: int|
                #![trigger grown[i], grown[j]]
                0 <= i < grown.len() && 0 <= j < grown.len() ==> crate::matching::is_clone_pair(
                    files,
                    grown[i],
                    grown[j],
                    pl,
                )
        }),
{
    let grown = crate::cluster::snapped_all(files, occurrences);
    if crate::cluster::all_clones_of(files, grown[p], grown, pl) {
        assert forall|i: int, j: int|
            #![trigger grown[i], grown[j]]
            0 <= i < grown.len() && 0 <= j < grown.len() implies crate::matching::is_clone_pair(
            files,
            grown[i],
            grown[j],
            pl,
        ) by {
            let base = crate::matching::occurrence_span(files, grown[p]);
            let x = crate::matching::occurrence_span(files, grown[i]);
            let y = crate::matching::occurrence_span(files, grown[j]);
            assert(crate::matching::is_clone_pair(files, grown[p], grown[i], pl));
            assert(crate::matching::is_clone_pair(files, grown[p], grown[j], pl));
            crate::encode::renaming_is_symmetric(base, x, pl);
            crate::encode::renaming_is_transitive(x, base, y, pl);
        }
    }
}

/// The group of a unit: all occurrences cut to it.
pub open spec fn cut_to(
    aligned: Seq<Occurrence>,
    p: int,
    unit: (int, int),
) -> Seq<Occurrence> {
    aligned.map_values(
        |occurrence: Occurrence|
            Occurrence {
                file: occurrence.file,
                start: (occurrence.start + (unit.0 - aligned[p].start)) as u32,
                end: (occurrence.end - (aligned[p].end - unit.1)) as u32,
            },
    )
}

/// Each unit of a row gives a group exactly if it is a unit in every occurrence and those units are
/// clones of each other.
#[verifier::rlimit(30)]
#[verifier::spinoff_prover]
pub proof fn shared_units_make_groups(
    files: Seq<&SourceFile>,
    aligned: Seq<Occurrence>,
    p: int,
    units: Seq<(int, int)>,
    n: int,
    parameterize_literals: bool,
    group: Seq<Occurrence>,
)
    requires
        0 <= p < aligned.len(),
        0 <= n <= units.len(),
    ensures
        crate::cluster::unit_groups(
            files,
            aligned,
            p,
            units,
            n,
            parameterize_literals,
        ).contains(group) <==> exists|u: int|
            {
                &&& 0 <= u < n
                &&& group == cut_to(aligned, p, #[trigger] units[u])
                &&& forall|i: int|
                    0 <= i < group.len() ==> {
                        let tokens = files[(#[trigger] group[i]).file as int].tokens@;
                        &&& group[i].start < group[i].end <= tokens.len()
                        &&& crate::shapes::begins_unit(
                            tokens[group[i].start as int],
                            group[i].end as int,
                        )
                    }
                &&& forall|i: int|
                    0 <= i < group.len() ==> crate::matching::is_clone_pair(
                        files,
                        group[p],
                        #[trigger] group[i],
                        parameterize_literals,
                    )
            },
    decreases n,
{
    if n > 0 {
        shared_units_make_groups(
            files,
            aligned,
            p,
            units,
            n - 1,
            parameterize_literals,
            group,
        );
        let before = crate::cluster::unit_groups(
            files,
            aligned,
            p,
            units,
            n - 1,
            parameterize_literals,
        );
        let after = crate::cluster::unit_groups(files, aligned, p, units, n, parameterize_literals);
        let own = crate::cluster::trimmed_all(
            aligned,
            units[n - 1].0 - aligned[p].start,
            aligned[p].end - units[n - 1].1,
        );
        assert(own =~= cut_to(aligned, p, units[n - 1]));
        if after.len() > before.len() {
            assert(after == before.push(own));
            assert(after.last() == own);
        }
        if before.contains(group) {
            let k = choose|k: int| 0 <= k < before.len() && before[k] == group;
            assert(after[k] == group);
        }
        if after.contains(group) && !before.contains(group) {
            let k = choose|k: int| 0 <= k < after.len() && after[k] == group;
            if k < before.len() {
                assert(before[k] == group);
            }
            assert(group == own);
        }
    }
}

/// Groups are joined whole: what was in one group is in one group, and nothing else is there.
pub proof fn groups_are_joined_whole(groups: Seq<Seq<Occurrence>>, r: int) -> (q: int)
    requires
        0 <= r < groups.len(),
        groups[r].len() > 0,
    ensures
        0 <= q < crate::cluster::joined_groups(groups).len(),
        forall|i: int|
            0 <= i < groups[r].len() ==> crate::cluster::joined_groups(groups)[q].contains(
                #[trigger] groups[r][i],
            ),
        forall|i: int|
            0 <= i < crate::cluster::joined_groups(groups)[q].len() ==> exists|h: int, j: int|
                0 <= h < groups.len() && 0 <= j < groups[h].len() && #[trigger] groups[h][j]
                    == #[trigger] crate::cluster::joined_groups(groups)[q][i],
{
    let first = groups[r][0];
    assert(groups[r].contains(first));
    let q = lemma_joined_holds(groups, r, first, first);
    assert forall|i: int| 0 <= i < groups[r].len() implies crate::cluster::joined_groups(
        groups,
    )[q].contains(#[trigger] groups[r][i]) by {
        assert(groups[r].contains(groups[r][i]));
        let other = lemma_joined_holds(groups, r, first, groups[r][i]);
        crate::cluster::joined_groups_are_disjoint(groups, q, other, first);
    }
    q
}

} // verus!
