//! What a detection that starts from some of the windows finds again of what a full one finds.
use vstd::prelude::*;

use crate::config::Config;
use crate::matching::Candidate;
use crate::model::{Occurrence, SourceFile};

verus! {

/// Growing the candidates one after the other records a match at the `k`-th: its windows are
/// clones, and no match that was recorded before covers it.
pub open spec fn records(
    files: Seq<&SourceFile>,
    candidates: Seq<Candidate>,
    k: int,
    window: int,
    parameterize_literals: bool,
) -> bool {
    let before = crate::matching::grown_matches(
        files,
        candidates,
        k,
        window,
        parameterize_literals,
    );
    &&& crate::matching::extension(files, candidates[k], window, parameterize_literals) is Some
    &&& !exists|m: int|
        0 <= m < before.len() && crate::matching::pair_covers(#[trigger] before[m], candidates[k])
}

/// Where the match around a candidate that is left out covers a later one that is kept, it is also
/// the match around that one.
pub open spec fn undisturbed(
    files: Seq<&SourceFile>,
    candidates: Seq<Candidate>,
    window: int,
    parameterize_literals: bool,
    keep: spec_fn(Candidate) -> bool,
) -> bool {
    forall|i: int, j: int|
        #![trigger candidates[i], candidates[j]]
        0 <= i < j < candidates.len() && !keep(candidates[i]) && keep(candidates[j]) ==> match
        crate::matching::extension(files, candidates[i], window, parameterize_literals) {
            Some(pair) => crate::matching::pair_covers(pair, candidates[j])
                ==> crate::matching::extension(
                files,
                candidates[j],
                window,
                parameterize_literals,
            ) == Some(pair),
            None => true,
        }
}

/// Every match was recorded at one of the candidates.
pub proof fn lemma_recorded_at(
    files: Seq<&SourceFile>,
    candidates: Seq<Candidate>,
    n: int,
    window: int,
    pl: bool,
    m: int,
) -> (k: int)
    requires
        0 <= n <= candidates.len(),
        0 <= m < crate::matching::grown_matches(files, candidates, n, window, pl).len(),
    ensures
        0 <= k < n,
        records(files, candidates, k, window, pl),
        crate::matching::extension(files, candidates[k], window, pl) == Some(
            crate::matching::grown_matches(files, candidates, n, window, pl)[m],
        ),
    decreases n,
{
    let before = crate::matching::grown_matches(files, candidates, n - 1, window, pl);
    if m < before.len() {
        lemma_recorded_at(files, candidates, n - 1, window, pl, m)
    } else {
        n - 1
    }
}

/// The matches of the kept ones among the first `n` candidates.
spec fn kept_matches(
    files: Seq<&SourceFile>,
    candidates: Seq<Candidate>,
    n: int,
    window: int,
    pl: bool,
    keep: spec_fn(Candidate) -> bool,
) -> Seq<(Occurrence, Occurrence)> {
    crate::matching::grown_matches(
        files,
        candidates.filter(keep),
        candidates.take(n).filter(keep).len() as int,
        window,
        pl,
    )
}

proof fn lemma_kept_matches(
    files: Seq<&SourceFile>,
    candidates: Seq<Candidate>,
    n: int,
    window: int,
    pl: bool,
    keep: spec_fn(Candidate) -> bool,
)
    requires
        0 <= n <= candidates.len(),
        undisturbed(files, candidates, window, pl, keep),
    ensures
        forall|m: int|
            #![trigger kept_matches(files, candidates, n, window, pl, keep)[m]]
            0 <= m < kept_matches(files, candidates, n, window, pl, keep).len()
                ==> crate::matching::grown_matches(files, candidates, n, window, pl).contains(
                kept_matches(files, candidates, n, window, pl, keep)[m],
            ),
        forall|k: int|
            0 <= k < n && keep(#[trigger] candidates[k]) && records(
                files,
                candidates,
                k,
                window,
                pl,
            ) ==> kept_matches(files, candidates, n, window, pl, keep).contains(
                crate::matching::extension(files, candidates[k], window, pl)->0,
            ),
    decreases n,
{
    let kept = candidates.filter(keep);
    if n == 0 {
        crate::sort::lemma_filter_none(candidates.take(0), keep);
    } else {
        let full = crate::matching::grown_matches(files, candidates, n - 1, window, pl);
        let next = crate::matching::grown_matches(files, candidates, n, window, pl);
        let some = kept_matches(files, candidates, n - 1, window, pl, keep);
        let more = kept_matches(files, candidates, n, window, pl, keep);
        let candidate = candidates[n - 1];
        lemma_kept_matches(files, candidates, n - 1, window, pl, keep);
        crate::filtering::lemma_filter_place(candidates, keep, n - 1);
        assert(full.len() <= next.len());
        assert forall|m: int| 0 <= m < full.len() implies next[m] == #[trigger] full[m] by {}
        assert forall|m: int| 0 <= m < some.len() implies next.contains(#[trigger] some[m]) by {
            assert(full.contains(some[m]));
            let j = choose|j: int| 0 <= j < full.len() && full[j] == some[m];
            assert(next[j] == full[j]);
        }
        if keep(candidate) {
            let at = candidates.take(n - 1).filter(keep).len() as int;
            assert(kept[at] == candidate);
            let covered = exists|m: int|
                0 <= m < some.len() && crate::matching::pair_covers(#[trigger] some[m], candidate);
            if covered {
                assert(more == some);
                let m = choose|m: int|
                    0 <= m < some.len() && crate::matching::pair_covers(
                        #[trigger] some[m],
                        candidate,
                    );
                assert(full.contains(some[m]));
                let j = choose|j: int| 0 <= j < full.len() && full[j] == some[m];
                assert(crate::matching::pair_covers(full[j], candidate));
                assert(!records(files, candidates, n - 1, window, pl));
            } else if let Some(pair) = crate::matching::extension(files, candidate, window, pl) {
                assert(more == some.push(pair));
                assert(more[some.len() as int] == pair);
                assert(next.contains(pair)) by {
                    if exists|m: int|
                        0 <= m < full.len() && crate::matching::pair_covers(
                            #[trigger] full[m],
                            candidate,
                        ) {
                        let m = choose|m: int|
                            0 <= m < full.len() && crate::matching::pair_covers(
                                #[trigger] full[m],
                                candidate,
                            );
                        let e = lemma_recorded_at(files, candidates, n - 1, window, pl, m);
                        if keep(candidates[e]) {
                            assert(some.contains(full[m]));
                            let j = choose|j: int| 0 <= j < some.len() && some[j] == full[m];
                            assert(crate::matching::pair_covers(some[j], candidate));
                        }
                        assert(candidates[n - 1] == candidate);
                        assert(full[m] == pair);
                        assert(next[m] == pair);
                    } else {
                        assert(next == full.push(pair));
                        assert(next[full.len() as int] == pair);
                    }
                }
                assert forall|k: int|
                    0 <= k < n && keep(#[trigger] candidates[k]) && records(
                        files,
                        candidates,
                        k,
                        window,
                        pl,
                    ) implies more.contains(
                    crate::matching::extension(files, candidates[k], window, pl)->0,
                ) by {
                    if k < n - 1 {
                        let other = crate::matching::extension(
                            files,
                            candidates[k],
                            window,
                            pl,
                        )->0;
                        assert(some.contains(other));
                        let j = choose|j: int| 0 <= j < some.len() && some[j] == other;
                        assert(more[j] == other);
                    }
                }
            } else {
                assert(more == some);
            }
        } else {
            assert(more == some);
        }
    }
}

/// Growing from some of the candidates of a file pair records nothing that growing from all does
/// not, and whatever the latter records at a candidate that is kept. This holds where no candidate
/// that is left out gets in between: where its match covers a later one that is kept, it is also
/// the match of that one.
pub proof fn matches_of_kept_candidates_come_back(
    files: Seq<&SourceFile>,
    candidates: Seq<Candidate>,
    window: int,
    parameterize_literals: bool,
    keep: spec_fn(Candidate) -> bool,
)
    requires
        undisturbed(files, candidates, window, parameterize_literals, keep),
    ensures
        ({
            let pl = parameterize_literals;
            let all = candidates.len() as int;
            let kept = candidates.filter(keep);
            let full = crate::matching::grown_matches(files, candidates, all, window, pl);
            let some = crate::matching::grown_matches(
                files,
                kept,
                kept.len() as int,
                window,
                pl,
            );
            &&& forall|m: int| 0 <= m < some.len() ==> full.contains(#[trigger] some[m])
            &&& forall|k: int|
                0 <= k < all && keep(#[trigger] candidates[k]) && records(
                    files,
                    candidates,
                    k,
                    window,
                    pl,
                ) ==> some.contains(
                    crate::matching::extension(files, candidates[k], window, pl)->0,
                )
        }),
{
    let all = candidates.len() as int;
    assert(candidates.take(all) =~= candidates);
    lemma_kept_matches(files, candidates, all, window, parameterize_literals, keep);
    let some = kept_matches(files, candidates, all, window, parameterize_literals, keep);
    let full = crate::matching::grown_matches(
        files,
        candidates,
        all,
        window,
        parameterize_literals,
    );
    assert forall|m: int| 0 <= m < some.len() implies full.contains(#[trigger] some[m]) by {
        assert(full.contains(
            kept_matches(files, candidates, all, window, parameterize_literals, keep)[m],
        ));
    }
}

/// Wherever the match around one candidate covers another, it is also the match around that one.
pub open spec fn matches_agree(
    files: Seq<&SourceFile>,
    candidates: Seq<Candidate>,
    window: int,
    parameterize_literals: bool,
) -> bool {
    forall|i: int, j: int|
        #![trigger candidates[i], candidates[j]]
        0 <= i < candidates.len() && 0 <= j < candidates.len() ==> match
        crate::matching::extension(files, candidates[i], window, parameterize_literals) {
            Some(pair) => crate::matching::pair_covers(pair, candidates[j])
                ==> crate::matching::extension(
                files,
                candidates[j],
                window,
                parameterize_literals,
            ) == Some(pair),
            None => true,
        }
}

/// The match covers a candidate that is kept.
pub open spec fn covers_kept(
    candidates: Seq<Candidate>,
    keep: spec_fn(Candidate) -> bool,
    pair: (Occurrence, Occurrence),
) -> bool {
    exists|k: int|
        0 <= k < candidates.len() && keep(#[trigger] candidates[k])
            && crate::matching::pair_covers(pair, candidates[k])
}

/// A match covers the candidate that it was grown from.
proof fn lemma_covers_own(
    files: Seq<&SourceFile>,
    candidates: Seq<Candidate>,
    window: int,
    pl: bool,
    k: int,
)
    requires
        crate::matching::files_wf(files),
        window > 0,
        crate::matching::is_pair_group(files, candidates, window),
        0 <= k < candidates.len(),
    ensures
        crate::matching::extension(files, candidates[k], window, pl) matches Some(pair)
            ==> crate::matching::pair_covers(pair, candidates[k]) && pair.0.end - pair.0.start
            == pair.1.end - pair.1.start && pair.0.file == candidates[k].file_a && pair.1.file
            == candidates[k].file_b,
{
    assert(crate::matching::candidate_fits(files, candidates[k], window));
    crate::matching::extension_is_maximal(files, candidates[k], window, pl);
}

/// Where the matches agree, the match around each candidate is recorded.
proof fn lemma_all_recorded(
    files: Seq<&SourceFile>,
    candidates: Seq<Candidate>,
    window: int,
    pl: bool,
    k: int,
)
    requires
        crate::matching::files_wf(files),
        window > 0,
        crate::matching::is_pair_group(files, candidates, window),
        matches_agree(files, candidates, window, pl),
        0 <= k < candidates.len(),
        crate::matching::extension(files, candidates[k], window, pl) is Some,
    ensures
        crate::matching::grown_matches(
            files,
            candidates,
            candidates.len() as int,
            window,
            pl,
        ).contains(crate::matching::extension(files, candidates[k], window, pl)->0),
{
    let n = candidates.len() as int;
    let full = crate::matching::grown_matches(files, candidates, n, window, pl);
    crate::matching::candidates_lie_in_matches(files, candidates, n, window, pl, k);
    let m = choose|m: int|
        0 <= m < full.len() && crate::matching::pair_covers(#[trigger] full[m], candidates[k]);
    let e = lemma_recorded_at(files, candidates, n, window, pl, m);
    assert(candidates[e] == candidates[e]);
    assert(full[m] == crate::matching::extension(files, candidates[k], window, pl)->0);
}

/// What is kept of a group of a file pair is such a group, and its matches agree.
proof fn lemma_kept_group(
    files: Seq<&SourceFile>,
    candidates: Seq<Candidate>,
    window: int,
    pl: bool,
    keep: spec_fn(Candidate) -> bool,
)
    requires
        crate::matching::is_pair_group(files, candidates, window),
        matches_agree(files, candidates, window, pl),
    ensures
        crate::matching::is_pair_group(files, candidates.filter(keep), window),
        matches_agree(files, candidates.filter(keep), window, pl),
{
    let kept = candidates.filter(keep);
    assert forall|i: int| 0 <= i < kept.len() implies crate::matching::candidate_fits(
        files,
        #[trigger] kept[i],
        window,
    ) by {
        crate::cluster::lemma_filter_member(candidates, keep, i);
        let j = choose|j: int| 0 <= j < candidates.len() && candidates[j] == kept[i];
        assert(crate::matching::candidate_fits(files, candidates[j], window));
    }
    assert forall|i: int, j: int| 0 <= i < kept.len() && 0 <= j < kept.len() implies (
    #[trigger] kept[i]).file_a == (#[trigger] kept[j]).file_a && kept[i].file_b
        == kept[j].file_b by {
        crate::cluster::lemma_filter_member(candidates, keep, i);
        crate::cluster::lemma_filter_member(candidates, keep, j);
        let x = choose|x: int| 0 <= x < candidates.len() && candidates[x] == kept[i];
        let y = choose|y: int| 0 <= y < candidates.len() && candidates[y] == kept[j];
        assert(candidates[x].file_a == candidates[y].file_a);
    }
    assert forall|i: int, j: int|
        #![trigger kept[i], kept[j]]
        0 <= i < kept.len() && 0 <= j < kept.len() implies match crate::matching::extension(
        files,
        kept[i],
        window,
        pl,
    ) {
        Some(pair) => crate::matching::pair_covers(pair, kept[j]) ==> crate::matching::extension(
            files,
            kept[j],
            window,
            pl,
        ) == Some(pair),
        None => true,
    } by {
        crate::cluster::lemma_filter_member(candidates, keep, i);
        crate::cluster::lemma_filter_member(candidates, keep, j);
        let x = choose|x: int| 0 <= x < candidates.len() && candidates[x] == kept[i];
        let y = choose|y: int| 0 <= y < candidates.len() && candidates[y] == kept[j];
        assert(candidates[x] == kept[i] && candidates[y] == kept[j]);
    }
}

/// Where the matches of a file pair agree, growing from some of its candidates finds exactly those
/// matches of all candidates that cover one that is kept.
pub proof fn matches_around_kept_candidates_come_back(
    files: Seq<&SourceFile>,
    candidates: Seq<Candidate>,
    window: int,
    parameterize_literals: bool,
    keep: spec_fn(Candidate) -> bool,
    pair: (Occurrence, Occurrence),
)
    requires
        crate::matching::files_wf(files),
        window > 0,
        crate::matching::is_pair_group(files, candidates, window),
        matches_agree(files, candidates, window, parameterize_literals),
    ensures
        ({
            let kept = candidates.filter(keep);
            let full = crate::matching::grown_matches(
                files,
                candidates,
                candidates.len() as int,
                window,
                parameterize_literals,
            );
            let some = crate::matching::grown_matches(
                files,
                kept,
                kept.len() as int,
                window,
                parameterize_literals,
            );
            some.contains(pair) <==> full.contains(pair) && covers_kept(candidates, keep, pair)
        }),
{
    let pl = parameterize_literals;
    let kept = candidates.filter(keep);
    let n = candidates.len() as int;
    let full = crate::matching::grown_matches(files, candidates, n, window, pl);
    let some = crate::matching::grown_matches(files, kept, kept.len() as int, window, pl);
    lemma_kept_group(files, candidates, window, pl, keep);
    if some.contains(pair) {
        let m = choose|m: int| 0 <= m < some.len() && some[m] == pair;
        let k = lemma_recorded_at(files, kept, kept.len() as int, window, pl, m);
        crate::cluster::lemma_filter_member(candidates, keep, k);
        crate::filtering::lemma_filter_meets(candidates, keep, k);
        let x = choose|x: int| 0 <= x < candidates.len() && candidates[x] == kept[k];
        lemma_all_recorded(files, candidates, window, pl, x);
        lemma_covers_own(files, candidates, window, pl, x);
        assert(keep(candidates[x]));
    }
    if full.contains(pair) && covers_kept(candidates, keep, pair) {
        let m = choose|m: int| 0 <= m < full.len() && full[m] == pair;
        let e = lemma_recorded_at(files, candidates, n, window, pl, m);
        let k = choose|k: int|
            0 <= k < candidates.len() && keep(#[trigger] candidates[k])
                && crate::matching::pair_covers(pair, candidates[k]);
        assert(candidates[e] == candidates[e]);
        assert(crate::matching::extension(files, candidates[k], window, pl) == Some(pair));
        crate::filtering::lemma_filter_place(candidates, keep, k);
        let at = candidates.take(k).filter(keep).len() as int;
        assert(kept[at] == candidates[k]);
        lemma_all_recorded(files, kept, window, pl, at);
    }
}

/// No match is recorded twice.
proof fn lemma_recorded_once(
    files: Seq<&SourceFile>,
    candidates: Seq<Candidate>,
    n: int,
    window: int,
    pl: bool,
)
    requires
        crate::matching::files_wf(files),
        window > 0,
        crate::matching::is_pair_group(files, candidates, window),
        0 <= n <= candidates.len(),
    ensures
        crate::matching::grown_matches(files, candidates, n, window, pl).no_duplicates(),
    decreases n,
{
    if n > 0 {
        lemma_recorded_once(files, candidates, n - 1, window, pl);
        lemma_covers_own(files, candidates, window, pl, n - 1);
        let before = crate::matching::grown_matches(files, candidates, n - 1, window, pl);
        let after = crate::matching::grown_matches(files, candidates, n, window, pl);
        assert forall|i: int, j: int| 0 <= i < j < after.len() implies after[i] != after[j] by {
            if j < before.len() {
                assert(before[i] != before[j]);
            } else {
                assert(after[i] == before[i]);
                assert(!crate::matching::pair_covers(before[i], candidates[n - 1]));
            }
        }
    }
}

/// The order of matches.
spec fn by_match() -> spec_fn((Occurrence, Occurrence)) -> u128 {
    |pair: (Occurrence, Occurrence)| crate::matching::match_key(pair)
}

/// Matches that agree and begin at the same places are the same.
proof fn lemma_starts_tell(
    files: Seq<&SourceFile>,
    candidates: Seq<Candidate>,
    window: int,
    pl: bool,
    x: int,
    y: int,
)
    requires
        crate::matching::files_wf(files),
        window > 0,
        crate::matching::is_pair_group(files, candidates, window),
        matches_agree(files, candidates, window, pl),
        0 <= x < candidates.len(),
        0 <= y < candidates.len(),
        crate::matching::extension(files, candidates[x], window, pl) is Some,
        crate::matching::extension(files, candidates[y], window, pl) is Some,
        crate::matching::match_key(
            crate::matching::extension(files, candidates[x], window, pl)->0,
        ) == crate::matching::match_key(
            crate::matching::extension(files, candidates[y], window, pl)->0,
        ),
    ensures
        crate::matching::extension(files, candidates[x], window, pl)
            == crate::matching::extension(files, candidates[y], window, pl),
{
    let a = crate::matching::extension(files, candidates[x], window, pl)->0;
    let b = crate::matching::extension(files, candidates[y], window, pl)->0;
    lemma_covers_own(files, candidates, window, pl, x);
    lemma_covers_own(files, candidates, window, pl, y);
    assert(a.0.start * 0x1_0000_0000 + a.1.start == b.0.start * 0x1_0000_0000 + b.1.start);
    assert(a.0.start == b.0.start && a.1.start == b.1.start);
    if a.0.end <= b.0.end {
        assert(crate::matching::pair_covers(b, candidates[x]));
    } else {
        assert(crate::matching::pair_covers(a, candidates[y]));
    }
}

/// At most one element passes a filter that only `x` meets.
proof fn lemma_filter_one<A>(s: Seq<A>, pred: spec_fn(A) -> bool, x: A)
    requires
        s.no_duplicates(),
        s.contains(x),
        pred(x),
        forall|i: int| 0 <= i < s.len() && pred(#[trigger] s[i]) ==> s[i] == x,
    ensures
        s.filter(pred) == seq![x],
{
    let at = choose|at: int| 0 <= at < s.len() && s[at] == x;
    assert forall|k: int| 0 <= k < s.len() implies pred(#[trigger] s[k]) == (at <= k < at
        + 1) by {}
    crate::sort::lemma_filter_range(s, at, at + 1, pred);
    assert(s.subrange(at, at + 1) =~= seq![x]);
}

/// Sequences of the same elements, each once and each with its own key, sort to the same.
proof fn lemma_sort_same<A>(r: Seq<A>, t: Seq<A>, key: spec_fn(A) -> u128)
    requires
        r.no_duplicates(),
        t.no_duplicates(),
        forall|x: A| #[trigger] r.contains(x) == t.contains(x),
        forall|i: int, j: int|
            0 <= i < r.len() && 0 <= j < r.len() && key(#[trigger] r[i]) == key(#[trigger] r[j])
                ==> r[i] == r[j],
    ensures
        crate::sort::sorted_with(r, key) == crate::sort::sorted_with(t, key),
{
    crate::sort::lemma_sorted_with(r, key);
    crate::sort::lemma_sorted_with(t, key);
    let a = crate::sort::sorted_with(r, key);
    let b = crate::sort::sorted_with(t, key);
    assert forall|k: u128| #[trigger]
        a.filter(crate::sort::keyed(key, k)) == b.filter(crate::sort::keyed(key, k)) by {
        let pred = crate::sort::keyed(key, k);
        assert(a.filter(pred) == r.filter(pred));
        assert(b.filter(pred) == t.filter(pred));
        if exists|i: int| 0 <= i < r.len() && pred(#[trigger] r[i]) {
            let i = choose|i: int| 0 <= i < r.len() && pred(#[trigger] r[i]);
            let x = r[i];
            assert(r.contains(x));
            assert forall|j: int| 0 <= j < r.len() && pred(#[trigger] r[j]) implies r[j] == x by {
                assert(key(r[j]) == key(r[i]));
            }
            assert forall|j: int| 0 <= j < t.len() && pred(#[trigger] t[j]) implies t[j] == x by {
                assert(t.contains(t[j]));
                assert(r.contains(t[j]));
                let h = choose|h: int| 0 <= h < r.len() && r[h] == t[j];
                assert(key(r[h]) == key(r[i]));
            }
            lemma_filter_one(r, pred, x);
            lemma_filter_one(t, pred, x);
        } else {
            assert forall|j: int| 0 <= j < t.len() implies !pred(#[trigger] t[j]) by {
                assert(t.contains(t[j]));
                assert(r.contains(t[j]));
                let h = choose|h: int| 0 <= h < r.len() && r[h] == t[j];
                assert(!pred(r[h]));
            }
            crate::sort::lemma_filter_none(r, pred);
            crate::sort::lemma_filter_none(t, pred);
        }
    }
    crate::sort::lemma_ascending_unique(a, b, key);
}

/// Every match of the candidates covers one that is kept.
pub open spec fn all_cover_kept(
    files: Seq<&SourceFile>,
    candidates: Seq<Candidate>,
    window: int,
    parameterize_literals: bool,
    keep: spec_fn(Candidate) -> bool,
) -> bool {
    let full = crate::matching::grown_matches(
        files,
        candidates,
        candidates.len() as int,
        window,
        parameterize_literals,
    );
    forall|m: int| 0 <= m < full.len() ==> covers_kept(candidates, keep, #[trigger] full[m])
}

proof fn lemma_same_group_matches(
    files: Seq<&SourceFile>,
    candidates: Seq<Candidate>,
    config: Config,
    keep: spec_fn(Candidate) -> bool,
)
    requires
        crate::matching::files_wf(files),
        config.seed_window > 0,
        crate::matching::is_pair_group(files, candidates, config.seed_window as int),
        matches_agree(
            files,
            candidates,
            config.seed_window as int,
            config.parameterize_literals,
        ),
        all_cover_kept(
            files,
            candidates,
            config.seed_window as int,
            config.parameterize_literals,
            keep,
        ),
    ensures
        crate::detect::group_matches(files, candidates.filter(keep), config)
            == crate::detect::group_matches(files, candidates, config),
{
    let window = config.seed_window as int;
    let pl = config.parameterize_literals;
    let kept = candidates.filter(keep);
    let n = candidates.len() as int;
    let full = crate::matching::grown_matches(files, candidates, n, window, pl);
    let some = crate::matching::grown_matches(files, kept, kept.len() as int, window, pl);
    lemma_kept_group(files, candidates, window, pl, keep);
    lemma_recorded_once(files, candidates, n, window, pl);
    lemma_recorded_once(files, kept, kept.len() as int, window, pl);
    assert forall|pair: (Occurrence, Occurrence)| #[trigger] full.contains(pair) == some.contains(
        pair,
    ) by {
        matches_around_kept_candidates_come_back(files, candidates, window, pl, keep, pair);
        if full.contains(pair) {
            let m = choose|m: int| 0 <= m < full.len() && full[m] == pair;
            assert(covers_kept(candidates, keep, full[m]));
        }
    }
    let key = by_match();
    assert forall|i: int, j: int|
        0 <= i < full.len() && 0 <= j < full.len() && key(#[trigger] full[i]) == key(
            #[trigger] full[j],
        ) implies full[i] == full[j] by {
        let x = lemma_recorded_at(files, candidates, n, window, pl, i);
        let y = lemma_recorded_at(files, candidates, n, window, pl, j);
        lemma_starts_tell(files, candidates, window, pl, x, y);
    }
    lemma_sort_same(full, some, key);
    crate::sort::lemma_sorted_with(full, key);
    crate::sort::lemma_sorted_with(some, key);
    assert(full.map_values(key) =~= full.map_values(
        |pair: (Occurrence, Occurrence)| crate::matching::match_key(pair),
    ));
    assert(some.map_values(key) =~= some.map_values(
        |pair: (Occurrence, Occurrence)| crate::matching::match_key(pair),
    ));
    assert(crate::matching::merged_chain(full) == crate::matching::merged_chain(some));
}

/// What is kept of the first `n` groups, without those of which nothing is.
spec fn sifted(
    groups: Seq<Seq<Candidate>>,
    keep: spec_fn(Candidate) -> bool,
    n: int,
) -> Seq<Seq<Candidate>>
    decreases n,
{
    if n <= 0 {
        Seq::empty()
    } else if groups[n - 1].filter(keep).len() > 0 {
        sifted(groups, keep, n - 1).push(groups[n - 1].filter(keep))
    } else {
        sifted(groups, keep, n - 1)
    }
}

/// What is kept of a group has the file pair of the group.
proof fn lemma_kept_key(
    candidates: Seq<Candidate>,
    groups: Seq<Seq<Candidate>>,
    keep: spec_fn(Candidate) -> bool,
    g: int,
)
    requires
        crate::candidates::is_grouping(candidates, groups),
        0 <= g < groups.len(),
        groups[g].filter(keep).len() > 0,
    ensures
        crate::candidates::pair_key_of(groups[g].filter(keep)[0]) == crate::candidates::pair_key_of(
            groups[g][0],
        ),
        groups[g].filter(keep) == candidates.filter(keep).filter(
            crate::sort::keyed(
                crate::candidates::by_pair(),
                crate::candidates::pair_key_of(groups[g][0]),
            ),
        ),
{
    let key = crate::candidates::pair_key_of(groups[g][0]);
    let same = crate::sort::keyed(crate::candidates::by_pair(), key);
    assert(groups[g] == candidates.filter(same));
    crate::filtering::lemma_filters_commute(candidates, same, keep);
    crate::filtering::lemma_filter_meets(candidates.filter(keep), same, 0);
}

/// The groups that are left ascend, come from the groups, and leave none out that has a kept
/// candidate.
proof fn lemma_sifted(
    candidates: Seq<Candidate>,
    groups: Seq<Seq<Candidate>>,
    keep: spec_fn(Candidate) -> bool,
    n: int,
)
    requires
        crate::candidates::is_grouping(candidates, groups),
        0 <= n <= groups.len(),
    ensures
        forall|g: int|
            #![trigger sifted(groups, keep, n)[g]]
            0 <= g < sifted(groups, keep, n).len() ==> {
                let group = sifted(groups, keep, n)[g];
                &&& group.len() > 0
                &&& group == candidates.filter(keep).filter(
                    crate::sort::keyed(
                        crate::candidates::by_pair(),
                        crate::candidates::pair_key_of(group[0]),
                    ),
                )
                &&& n > 0 && crate::candidates::pair_key_of(group[0])
                    <= crate::candidates::pair_key_of(groups[n - 1][0])
            },
        forall|g: int, h: int|
            #![trigger sifted(groups, keep, n)[g], sifted(groups, keep, n)[h]]
            0 <= g < h < sifted(groups, keep, n).len() ==> crate::candidates::pair_key_of(
                sifted(groups, keep, n)[g][0],
            ) < crate::candidates::pair_key_of(sifted(groups, keep, n)[h][0]),
        forall|g: int|
            0 <= g < n && (#[trigger] groups[g]).filter(keep).len() > 0
                ==> crate::candidates::has_group(
                sifted(groups, keep, n),
                crate::candidates::pair_key_of(groups[g][0]),
            ),
    decreases n,
{
    if n > 0 {
        lemma_sifted(candidates, groups, keep, n - 1);
        let before = sifted(groups, keep, n - 1);
        let after = sifted(groups, keep, n);
        let last = groups[n - 1].filter(keep);
        if n > 1 {
            assert(crate::candidates::pair_key_of(groups[n - 2][0])
                < crate::candidates::pair_key_of(groups[n - 1][0]));
        }
        if last.len() > 0 {
            lemma_kept_key(candidates, groups, keep, n - 1);
            assert(after == before.push(last));
        }
        assert forall|g: int| #![trigger after[g]] 0 <= g < after.len() implies {
            &&& after[g].len() > 0
            &&& after[g] == candidates.filter(keep).filter(
                crate::sort::keyed(
                    crate::candidates::by_pair(),
                    crate::candidates::pair_key_of(after[g][0]),
                ),
            )
            &&& crate::candidates::pair_key_of(after[g][0]) <= crate::candidates::pair_key_of(
                groups[n - 1][0],
            )
        } by {
            if g < before.len() {
                assert(after[g] == before[g]);
            } else {
                assert(after[g] == last);
            }
        }
        assert forall|g: int, h: int|
            #![trigger after[g], after[h]]
            0 <= g < h < after.len() implies crate::candidates::pair_key_of(after[g][0])
            < crate::candidates::pair_key_of(after[h][0]) by {
            assert(after[g] == before[g]);
            if h < before.len() {
                assert(after[h] == before[h]);
            } else {
                assert(after[h] == last);
            }
        }
        assert forall|g: int| 0 <= g < n && (
        #[trigger] groups[g]).filter(keep).len() > 0 implies crate::candidates::has_group(
            after,
            crate::candidates::pair_key_of(groups[g][0]),
        ) by {
            let key = crate::candidates::pair_key_of(groups[g][0]);
            if g < n - 1 {
                assert(crate::candidates::has_group(before, key));
                let h = choose|h: int|
                    0 <= h < before.len() && crate::candidates::pair_key_of(
                        #[trigger] before[h][0],
                    ) == key;
                assert(crate::candidates::pair_key_of(after[h][0]) == key);
            } else {
                assert(crate::candidates::pair_key_of(after[before.len() as int][0]) == key);
            }
        }
    }
}

/// The kept candidates are grouped as all are, without those that are left out.
proof fn lemma_kept_groups(candidates: Seq<Candidate>, keep: spec_fn(Candidate) -> bool)
    ensures
        crate::candidates::pair_groups(candidates.filter(keep)) == sifted(
            crate::candidates::pair_groups(candidates),
            keep,
            crate::candidates::pair_groups(candidates).len() as int,
        ),
{
    let groups = crate::candidates::pair_groups(candidates);
    let kept = candidates.filter(keep);
    let left = sifted(groups, keep, groups.len() as int);
    crate::candidates::lemma_pair_groups(candidates);
    crate::candidates::lemma_pair_groups(kept);
    lemma_sifted(candidates, groups, keep, groups.len() as int);
    assert forall|i: int| 0 <= i < kept.len() implies crate::candidates::has_group(
        left,
        crate::candidates::pair_key_of(#[trigger] kept[i]),
    ) by {
        crate::cluster::lemma_filter_member(candidates, keep, i);
        crate::filtering::lemma_filter_meets(candidates, keep, i);
        let j = choose|j: int| 0 <= j < candidates.len() && candidates[j] == kept[i];
        let key = crate::candidates::pair_key_of(candidates[j]);
        let same = crate::sort::keyed(crate::candidates::by_pair(), key);
        assert(crate::candidates::has_group(groups, key));
        let g = choose|g: int|
            0 <= g < groups.len() && crate::candidates::pair_key_of(#[trigger] groups[g][0])
                == key;
        assert(groups[g] == candidates.filter(same));
        crate::filtering::lemma_filter_place(candidates, same, j);
        let at = candidates.take(j).filter(same).len() as int;
        assert(groups[g][at] == kept[i]);
        crate::filtering::lemma_filter_place(groups[g], keep, at);
        assert(groups[g].filter(keep).len() > 0);
    }
    assert(crate::candidates::is_grouping(kept, left));
    crate::candidates::lemma_grouping_unique(
        kept,
        crate::candidates::pair_groups(kept),
        left,
    );
}

/// The matches of the first `n` groups depend on these only.
proof fn lemma_matches_prefix(
    files: Seq<&SourceFile>,
    groups: Seq<Seq<Candidate>>,
    group: Seq<Candidate>,
    n: int,
    config: Config,
)
    requires
        n <= groups.len(),
    ensures
        crate::detect::all_matches(files, groups.push(group), n, config)
            == crate::detect::all_matches(files, groups, n, config),
    decreases n,
{
    if n > 0 {
        lemma_matches_prefix(files, groups, group, n - 1, config);
    }
}

proof fn lemma_same_matches(
    files: Seq<&SourceFile>,
    groups: Seq<Seq<Candidate>>,
    config: Config,
    keep: spec_fn(Candidate) -> bool,
    n: int,
)
    requires
        0 <= n <= groups.len(),
        forall|g: int|
            0 <= g < groups.len() ==> crate::detect::group_matches(
                files,
                (#[trigger] groups[g]).filter(keep),
                config,
            ) == crate::detect::group_matches(files, groups[g], config),
    ensures
        crate::detect::all_matches(
            files,
            sifted(groups, keep, n),
            sifted(groups, keep, n).len() as int,
            config,
        ) == crate::detect::all_matches(files, groups, n, config),
    decreases n,
{
    if n > 0 {
        lemma_same_matches(files, groups, config, keep, n - 1);
        let before = sifted(groups, keep, n - 1);
        let last = groups[n - 1].filter(keep);
        assert(crate::detect::group_matches(files, last, config) == crate::detect::group_matches(
            files,
            groups[n - 1],
            config,
        ));
        if last.len() > 0 {
            lemma_matches_prefix(files, before, last, before.len() as int, config);
        } else {
            lemma_nothing_matches(files, last, config);
            let full = crate::detect::all_matches(files, groups, n - 1, config);
            assert(full + Seq::<(Occurrence, Occurrence)>::empty() =~= full);
        }
    }
}

/// No candidates give no matches.
proof fn lemma_nothing_matches(files: Seq<&SourceFile>, group: Seq<Candidate>, config: Config)
    requires
        group.len() == 0,
    ensures
        crate::detect::group_matches(files, group, config) == Seq::<(Occurrence, Occurrence)>::empty(),
{
    let none = Seq::<(Occurrence, Occurrence)>::empty();
    crate::sort::lemma_filter_none(
        none,
        |pair: (Occurrence, Occurrence)|
            crate::matching::spans_lines(files, pair, config.min_lines as int),
    );
    assert(crate::matching::merged_chain(none) == none);
}

/// The matches of every file pair agree.
pub open spec fn detection_agrees(files: Seq<&SourceFile>, config: Config) -> bool {
    let groups = crate::detect::candidate_groups(files, config, None);
    forall|g: int|
        0 <= g < groups.len() ==> matches_agree(
            files,
            #[trigger] groups[g],
            config.seed_window as int,
            config.parameterize_literals,
        )
}

/// Every match of full detection covers a candidate that is kept.
pub open spec fn detection_covers(
    files: Seq<&SourceFile>,
    config: Config,
    keep: spec_fn(Candidate) -> bool,
) -> bool {
    let groups = crate::detect::candidate_groups(files, config, None);
    forall|g: int|
        0 <= g < groups.len() ==> all_cover_kept(
            files,
            #[trigger] groups[g],
            config.seed_window as int,
            config.parameterize_literals,
            keep,
        )
}

/// Filtered detection reports what full detection reports where the matches of every file pair
/// agree and each of them covers a pair of windows with an allowed signature.
pub proof fn covered_clones_come_back(files: Seq<&SourceFile>, config: Config, allowed: Set<u64>)
    requires
        crate::matching::files_wf(files),
        files.len() <= u32::MAX,
        config.seed_window > 0,
        detection_agrees(files, config),
        detection_covers(
            files,
            config,
            crate::filtering::starts_allowed(files, config, allowed),
        ),
    ensures
        crate::detect::detected(files, config, Some(allowed)) == crate::detect::detected(
            files,
            config,
            None,
        ),
{
    let keep = crate::filtering::starts_allowed(files, config, allowed);
    let candidates = crate::filtering::candidates_from(files, config, None);
    let groups = crate::detect::candidate_groups(files, config, None);
    crate::filtering::filtered_candidates_are_the_allowed_ones(files, config, allowed);
    lemma_kept_groups(candidates, keep);
    assert forall|g: int| 0 <= g < groups.len() implies crate::detect::group_matches(
        files,
        (#[trigger] groups[g]).filter(keep),
        config,
    ) == crate::detect::group_matches(files, groups[g], config) by {
        crate::detect::lemma_candidate_groups(files, config, None, g);
        lemma_same_group_matches(files, groups[g], config, keep);
    }
    lemma_same_matches(files, groups, config, keep, groups.len() as int);
}

/// A window of a candidate touches the span of the file.
pub open spec fn touches_span(
    config: Config,
    file: int,
    start: int,
    end: int,
) -> spec_fn(Candidate) -> bool {
    |candidate: Candidate|
        {
            let window = config.seed_window as int;
            ||| crate::filtering::touches(
                candidate.file_a,
                candidate.start_a,
                window,
                file,
                start,
                end,
            )
            ||| crate::filtering::touches(
                candidate.file_b,
                candidate.start_b,
                window,
                file,
                start,
                end,
            )
        }
}

/// Detection from the windows of a span reports what full detection reports where the matches of
/// every file pair agree and each of them covers a pair of windows one of which touches the span.
pub proof fn clones_at_a_span_come_back(
    files: Seq<&SourceFile>,
    config: Config,
    allowed: Set<u64>,
    file: int,
    start: int,
    end: int,
)
    requires
        crate::matching::files_wf(files),
        files.len() <= u32::MAX,
        config.seed_window > 0,
        0 <= file < files.len(),
        0 <= start < end <= files[file].tokens@.len(),
        crate::detect::span_signatures(
            *files[file],
            start,
            end,
            config.seed_window as int,
            config.parameterize_literals,
        ).subset_of(allowed),
        detection_agrees(files, config),
        detection_covers(files, config, touches_span(config, file, start, end)),
    ensures
        crate::detect::detected(files, config, Some(allowed)) == crate::detect::detected(
            files,
            config,
            None,
        ),
{
    let window = config.seed_window as int;
    let pl = config.parameterize_literals;
    let near = touches_span(config, file, start, end);
    let keep = crate::filtering::starts_allowed(files, config, allowed);
    let candidates = crate::filtering::candidates_from(files, config, None);
    let some = crate::filtering::candidates_from(files, config, Some(allowed));
    let groups = crate::detect::candidate_groups(files, config, None);
    crate::filtering::filtered_candidates_are_the_allowed_ones(files, config, allowed);
    crate::candidates::lemma_pair_groups(candidates);
    assert forall|g: int| 0 <= g < groups.len() implies all_cover_kept(
        files,
        #[trigger] groups[g],
        window,
        pl,
        keep,
    ) by {
        let group = groups[g];
        let full = crate::matching::grown_matches(files, group, group.len() as int, window, pl);
        assert(all_cover_kept(files, group, window, pl, near));
        assert forall|m: int| 0 <= m < full.len() implies covers_kept(
            group,
            keep,
            #[trigger] full[m],
        ) by {
            assert(covers_kept(group, near, full[m]));
            let k = choose|k: int|
                0 <= k < group.len() && near(#[trigger] group[k]) && crate::matching::pair_covers(
                    full[m],
                    group[k],
                );
            let key = crate::candidates::pair_key_of(group[0]);
            crate::cluster::lemma_filter_member(
                candidates,
                crate::sort::keyed(crate::candidates::by_pair(), key),
                k,
            );
            assert(candidates.contains(group[k]));
            crate::filtering::candidates_of_a_span_are_looked_at(
                files,
                config,
                allowed,
                file,
                start,
                end,
                group[k],
            );
            let i = choose|i: int| 0 <= i < some.len() && some[i] == group[k];
            crate::filtering::lemma_filter_meets(candidates, keep, i);
            assert(keep(group[k]));
        }
    }
    covered_clones_come_back(files, config, allowed);
}

} // verus!
