//! What detection reaches: from the windows of the files to the groups of a report.
use vstd::prelude::*;

use crate::config::Config;
use crate::matching::Candidate;
use crate::model::{Occurrence, SourceFile};

verus! {

/// A window of so many tokens begins at this token of the file.
pub open spec fn is_window(files: Seq<&SourceFile>, window: int, file: int, start: int) -> bool {
    0 <= file < files.len() && 0 <= start && start + window <= files[file].tokens@.len()
}

/// The signature of a window.
pub open spec fn signature_at(
    files: Seq<&SourceFile>,
    config: Config,
    file: int,
    start: int,
) -> u64 {
    crate::encode::signatures_of(
        files[file].hashes@,
        config.seed_window as int,
        config.parameterize_literals,
    )[start]
}

/// The seeds of a detection.
pub open spec fn seeds_of(files: Seq<&SourceFile>, config: Config, allowed: Option<Set<u64>>) -> Seq<
    (u64, u32, u32),
> {
    crate::candidates::all_seeds(
        files,
        config.seed_window as int,
        config.parameterize_literals,
        allowed,
        files.len() as int,
    )
}

/// The signature takes part in the detection.
pub open spec fn takes_part(allowed: Option<Set<u64>>, signature: u64) -> bool {
    match allowed {
        Some(set) => set.contains(signature),
        None => true,
    }
}

proof fn lemma_file_seed(
    signatures: Seq<u64>,
    file: int,
    allowed: Option<Set<u64>>,
    n: int,
    p: int,
)
    requires
        0 <= p < n <= signatures.len(),
        takes_part(allowed, signatures[p]),
    ensures
        crate::candidates::file_seeds(signatures, file, allowed, n).contains(
            (signatures[p], file as u32, p as u32),
        ),
    decreases n,
{
    let before = crate::candidates::file_seeds(signatures, file, allowed, n - 1);
    let seeds = crate::candidates::file_seeds(signatures, file, allowed, n);
    if p == n - 1 {
        assert(seeds[before.len() as int] == (signatures[p], file as u32, p as u32));
    } else {
        lemma_file_seed(signatures, file, allowed, n - 1, p);
        let k = choose|k: int|
            0 <= k < before.len() && before[k] == (signatures[p], file as u32, p as u32);
        assert(seeds[k] == before[k]);
    }
}

proof fn lemma_all_seed(
    files: Seq<&SourceFile>,
    config: Config,
    allowed: Option<Set<u64>>,
    n: int,
    f: int,
    p: int,
)
    requires
        config.seed_window > 0,
        0 <= f < n <= files.len(),
        is_window(files, config.seed_window as int, f, p),
        files[f].hashes@.len() == files[f].tokens@.len(),
        takes_part(allowed, signature_at(files, config, f, p)),
    ensures
        crate::candidates::all_seeds(
            files,
            config.seed_window as int,
            config.parameterize_literals,
            allowed,
            n,
        ).contains((signature_at(files, config, f, p), f as u32, p as u32)),
    decreases n,
{
    let window = config.seed_window as int;
    let pl = config.parameterize_literals;
    let before = crate::candidates::all_seeds(files, window, pl, allowed, n - 1);
    let signatures = crate::encode::signatures_of(files[n - 1].hashes@, window, pl);
    let own = crate::candidates::file_seeds(
        signatures,
        n - 1,
        allowed,
        signatures.len() as int,
    );
    let seed = (signature_at(files, config, f, p), f as u32, p as u32);
    if f == n - 1 {
        lemma_file_seed(signatures, f, allowed, signatures.len() as int, p);
        let k = choose|k: int| 0 <= k < own.len() && own[k] == seed;
        assert((before + own)[before.len() + k] == seed);
    } else {
        lemma_all_seed(files, config, allowed, n - 1, f, p);
        let k = choose|k: int| 0 <= k < before.len() && before[k] == seed;
        assert((before + own)[k] == seed);
    }
}

/// Every window with a signature that takes part is a seed.
pub proof fn every_window_is_a_seed(
    files: Seq<&SourceFile>,
    config: Config,
    allowed: Option<Set<u64>>,
    f: int,
    p: int,
)
    requires
        crate::matching::files_wf(files),
        config.seed_window > 0,
        is_window(files, config.seed_window as int, f, p),
        takes_part(allowed, signature_at(files, config, f, p)),
    ensures
        seeds_of(files, config, allowed).contains(
            (signature_at(files, config, f, p), f as u32, p as u32),
        ),
{
    assert(files[f].wf());
    lemma_all_seed(files, config, allowed, files.len() as int, f, p);
}

proof fn lemma_file_seed_of(
    signatures: Seq<u64>,
    file: int,
    allowed: Option<Set<u64>>,
    n: int,
    k: int,
)
    requires
        0 <= n <= signatures.len() <= u32::MAX,
        0 <= k < crate::candidates::file_seeds(signatures, file, allowed, n).len(),
    ensures
        ({
            let seed = crate::candidates::file_seeds(signatures, file, allowed, n)[k];
            seed.1 == file as u32 && seed.2 < n && seed.0 == signatures[seed.2 as int]
                && takes_part(allowed, seed.0)
        }),
        forall|j: int|
            0 <= j < k ==> (#[trigger] crate::candidates::file_seeds(
                signatures,
                file,
                allowed,
                n,
            )[j]).2 < crate::candidates::file_seeds(signatures, file, allowed, n)[k].2,
    decreases n,
{
    if n > 0 {
        let before = crate::candidates::file_seeds(signatures, file, allowed, n - 1);
        if k < before.len() {
            lemma_file_seed_of(signatures, file, allowed, n - 1, k);
        } else {
            let seeds = crate::candidates::file_seeds(signatures, file, allowed, n);
            assert forall|j: int| 0 <= j < k implies (#[trigger] seeds[j]).2 < seeds[k].2 by {
                lemma_file_seed_of(signatures, file, allowed, n - 1, j);
                assert(seeds[j] == before[j]);
            }
        }
    }
}

/// Every seed is a window with its signature, which takes part, and no window is two seeds.
pub proof fn seeds_are_windows(
    files: Seq<&SourceFile>,
    config: Config,
    allowed: Option<Set<u64>>,
    n: int,
    k: int,
)
    requires
        crate::matching::files_wf(files),
        config.seed_window > 0,
        0 <= n <= files.len() <= u32::MAX,
        0 <= k < crate::candidates::all_seeds(
            files,
            config.seed_window as int,
            config.parameterize_literals,
            allowed,
            n,
        ).len(),
    ensures
        ({
            let seeds = crate::candidates::all_seeds(
                files,
                config.seed_window as int,
                config.parameterize_literals,
                allowed,
                n,
            );
            let seed = seeds[k];
            &&& seed.1 < n
            &&& is_window(files, config.seed_window as int, seed.1 as int, seed.2 as int)
            &&& seed.0 == signature_at(files, config, seed.1 as int, seed.2 as int)
            &&& takes_part(allowed, seed.0)
            &&& forall|j: int| 0 <= j < k ==> #[trigger] seeds[j] != seed
        }),
    decreases n,
{
    if n > 0 {
        let window = config.seed_window as int;
        let pl = config.parameterize_literals;
        let before = crate::candidates::all_seeds(files, window, pl, allowed, n - 1);
        let seeds = crate::candidates::all_seeds(files, window, pl, allowed, n);
        let signatures = crate::encode::signatures_of(files[n - 1].hashes@, window, pl);
        assert(files[n - 1].wf());
        assert(signatures.len() <= u32::MAX);
        if k < before.len() {
            seeds_are_windows(files, config, allowed, n - 1, k);
            assert forall|j: int| 0 <= j < k implies #[trigger] seeds[j] != seeds[k] by {
                assert(seeds[j] == before[j]);
            }
        } else {
            lemma_file_seed_of(
                signatures,
                n - 1,
                allowed,
                signatures.len() as int,
                k - before.len(),
            );
            let own = crate::candidates::file_seeds(
                signatures,
                n - 1,
                allowed,
                signatures.len() as int,
            );
            assert(seeds[k] == own[k - before.len()]);
            assert forall|j: int| 0 <= j < k implies #[trigger] seeds[j] != seeds[k] by {
                if j < before.len() {
                    seeds_are_windows(files, config, allowed, n - 1, j);
                    assert(seeds[j] == before[j]);
                } else {
                    assert(seeds[j] == own[j - before.len()]);
                }
            }
        }
    }
}

proof fn lemma_row_has(
    seeds: Seq<(u64, u32, u32)>,
    i: int,
    j: int,
    n: int,
    window: int,
    max_bucket: int,
)
    requires
        0 <= i < j < n <= seeds.len(),
        crate::candidates::makes_candidate(seeds, i, j, window, max_bucket),
    ensures
        crate::candidates::candidate_row(seeds, i, n, window, max_bucket).contains(
            crate::candidates::candidate_of(seeds[i], seeds[j]),
        ),
    decreases n - i,
{
    let before = crate::candidates::candidate_row(seeds, i, n - 1, window, max_bucket);
    let row = crate::candidates::candidate_row(seeds, i, n, window, max_bucket);
    let candidate = crate::candidates::candidate_of(seeds[i], seeds[j]);
    if j == n - 1 {
        assert(row[before.len() as int] == candidate);
    } else {
        lemma_row_has(seeds, i, j, n - 1, window, max_bucket);
        let k = choose|k: int| 0 <= k < before.len() && before[k] == candidate;
        assert(row[k] == candidate);
    }
}

proof fn lemma_rows_have(
    seeds: Seq<(u64, u32, u32)>,
    i: int,
    j: int,
    n: int,
    window: int,
    max_bucket: int,
)
    requires
        0 <= i < n <= seeds.len(),
        i < j < seeds.len(),
        crate::candidates::makes_candidate(seeds, i, j, window, max_bucket),
    ensures
        crate::candidates::candidate_rows(seeds, n, window, max_bucket).contains(
            crate::candidates::candidate_of(seeds[i], seeds[j]),
        ),
    decreases n,
{
    let all = seeds.len() as int;
    let before = crate::candidates::candidate_rows(seeds, n - 1, window, max_bucket);
    let row = crate::candidates::candidate_row(seeds, n - 1, all, window, max_bucket);
    let candidate = crate::candidates::candidate_of(seeds[i], seeds[j]);
    if i == n - 1 {
        lemma_row_has(seeds, i, j, all, window, max_bucket);
        let k = choose|k: int| 0 <= k < row.len() && row[k] == candidate;
        assert((before + row)[before.len() + k] == candidate);
    } else {
        lemma_rows_have(seeds, i, j, n - 1, window, max_bucket);
        let k = choose|k: int| 0 <= k < before.len() && before[k] == candidate;
        assert((before + row)[k] == candidate);
    }
}

/// Two windows of one signature are looked at together: unless they overlap in one file, and
/// unless more windows than the bucket size have that signature.
pub proof fn windows_of_one_signature_are_paired(
    files: Seq<&SourceFile>,
    config: Config,
    allowed: Option<Set<u64>>,
    f: int,
    p: int,
    g: int,
    q: int,
)
    requires
        crate::matching::files_wf(files),
        files.len() <= u32::MAX,
        config.seed_window > 0,
        is_window(files, config.seed_window as int, f, p),
        is_window(files, config.seed_window as int, g, q),
        f < g || (f == g && p + config.seed_window <= q),
        signature_at(files, config, f, p) == signature_at(files, config, g, q),
        takes_part(allowed, signature_at(files, config, f, p)),
        seeds_of(files, config, allowed).filter(
            |seed: (u64, u32, u32)| seed.0 == signature_at(files, config, f, p),
        ).len() <= config.max_bucket,
    ensures
        crate::filtering::candidates_from(files, config, allowed).contains(
            Candidate {
                file_a: f as u32,
                file_b: g as u32,
                start_a: p as u32,
                start_b: q as u32,
            },
        ),
{
    let window = config.seed_window as int;
    let signature = signature_at(files, config, f, p);
    let all = seeds_of(files, config, allowed);
    let key = crate::candidates::by_seed();
    let seeds = crate::sort::sorted_with(all, key);
    let a = (signature, f as u32, p as u32);
    let b = (signature, g as u32, q as u32);
    assert(files[f].wf());
    assert(files[g].wf());
    every_window_is_a_seed(files, config, allowed, f, p);
    every_window_is_a_seed(files, config, allowed, g, q);
    let i = lemma_sorted_holds(all, a);
    let j = lemma_sorted_holds(all, b);
    crate::sort::lemma_sorted_with(all, key);
    assert(i < j) by {
        if j < i {
            assert(key(seeds[j]) <= key(seeds[i]));
        }
    }
    crate::filtering::lemma_sorted_count(all, signature);
    crate::filtering::lemma_signature_count(all, signature, all.len() as int);
    assert(all.take(all.len() as int) =~= all);
    assert(crate::filtering::has_signature(signature) =~= (|seed: (u64, u32, u32)|
        seed.0 == signature_at(files, config, f, p)));
    lemma_rows_have(seeds, i, j, seeds.len() as int, window, config.max_bucket as int);
}

proof fn lemma_sorted_holds(seeds: Seq<(u64, u32, u32)>, seed: (u64, u32, u32)) -> (i: int)
    requires
        seeds.contains(seed),
    ensures
        0 <= i < crate::sort::sorted_with(seeds, crate::candidates::by_seed()).len(),
        crate::sort::sorted_with(seeds, crate::candidates::by_seed())[i] == seed,
{
    let keys = seeds.map_values(crate::candidates::by_seed());
    crate::sort::lemma_stable_order(keys);
    let order = crate::sort::stable_order(keys);
    let k = choose|k: int| 0 <= k < seeds.len() && seeds[k] == seed;
    assert(order.contains(k));
    choose|i: int| 0 <= i < order.len() && order[i] == k
}

/// The first match lies in the second, in both files.
pub open spec fn lies_in(
    inner: (Occurrence, Occurrence),
    outer: (Occurrence, Occurrence),
) -> bool {
    &&& inner.0.file == outer.0.file && inner.1.file == outer.1.file
    &&& outer.0.start <= inner.0.start && inner.0.end <= outer.0.end
    &&& outer.1.start <= inner.1.start && inner.1.end <= outer.1.end
}

proof fn lemma_chained_covers(matches: Seq<(Occurrence, Occurrence)>, n: int, k: int)
    requires
        0 <= k < n <= matches.len(),
        forall|i: int, j: int|
            0 <= i < matches.len() && 0 <= j < matches.len() ==> (#[trigger] matches[i]).0.file == (
            #[trigger] matches[j]).0.file && matches[i].1.file == matches[j].1.file,
        forall|i: int|
            0 <= i < matches.len() ==> (#[trigger] matches[i]).0.start <= matches[i].0.end
                && matches[i].1.start <= matches[i].1.end,
    ensures
        exists|m: int|
            0 <= m < crate::matching::chained(matches, n).len() && lies_in(
                matches[k],
                #[trigger] crate::matching::chained(matches, n)[m],
            ),
        crate::matching::chained(matches, n).len() > 0,
        forall|m: int|
            0 <= m < crate::matching::chained(matches, n).len() ==> (
            #[trigger] crate::matching::chained(matches, n)[m]).0.file == matches[0].0.file
                && crate::matching::chained(matches, n)[m].1.file == matches[0].1.file
                && crate::matching::chained(matches, n)[m].0.start
                <= crate::matching::chained(matches, n)[m].0.end
                && crate::matching::chained(matches, n)[m].1.start
                <= crate::matching::chained(matches, n)[m].1.end,
    decreases n,
{
    let chain = crate::matching::chained(matches, n - 1);
    let after = crate::matching::chained(matches, n);
    let new = matches[n - 1];
    if n > 1 {
        let at = if k < n - 1 {
            k
        } else {
            0
        };
        lemma_chained_covers(matches, n - 1, at);
    }
    if k < n - 1 {
        let m = choose|m: int| 0 <= m < chain.len() && lies_in(matches[k], #[trigger] chain[m]);
        assert(lies_in(matches[k], after[m]));
    } else {
        assert(lies_in(new, after[after.len() - 1]));
    }
}

/// Joining matches loses none of them: each lies in one of the joined ones.
pub proof fn joined_matches_hold_all(matches: Seq<(Occurrence, Occurrence)>, k: int)
    requires
        0 <= k < matches.len(),
        forall|i: int, j: int|
            0 <= i < matches.len() && 0 <= j < matches.len() ==> (#[trigger] matches[i]).0.file == (
            #[trigger] matches[j]).0.file && matches[i].1.file == matches[j].1.file,
        forall|i: int|
            0 <= i < matches.len() ==> (#[trigger] matches[i]).0.start <= matches[i].0.end
                && matches[i].1.start <= matches[i].1.end,
    ensures
        exists|m: int|
            0 <= m < crate::matching::merged_chain(matches).len() && lies_in(
                matches[k],
                #[trigger] crate::matching::merged_chain(matches)[m],
            ),
{
    let keys = matches.map_values(
        |pair: (Occurrence, Occurrence)| crate::matching::match_key(pair),
    );
    crate::sort::lemma_stable_order(keys);
    let order = crate::sort::stable_order(keys);
    let sorted = crate::sort::stable_sorted(matches, keys);
    assert(order.contains(k));
    let i = choose|i: int| 0 <= i < order.len() && order[i] == k;
    assert(sorted[i] == matches[k]);
    assert forall|i: int| 0 <= i < sorted.len() implies (#[trigger] sorted[i]).0.start
        <= sorted[i].0.end && sorted[i].1.start <= sorted[i].1.end && sorted[i].0.file
        == matches[0].0.file && sorted[i].1.file == matches[0].1.file by {
        assert(sorted[i] == matches[order[i]]);
    }
    lemma_chained_covers(sorted, matches.len() as int, i);
    let chain = crate::matching::chained(sorted, matches.len() as int);
    let m = choose|m: int| 0 <= m < chain.len() && lies_in(sorted[i], #[trigger] chain[m]);
    assert(crate::matching::merged_chain(matches) == chain);
    assert(lies_in(matches[k], crate::matching::merged_chain(matches)[m]));
}

/// The lines of a span of tokens are as many as asked for.
pub open spec fn is_long_enough(
    files: Seq<&SourceFile>,
    occurrence: Occurrence,
    config: Config,
) -> bool {
    let file = files[occurrence.file as int];
    crate::meaning::line_ended(file, occurrence.end - 1) - crate::meaning::line_begun(
        file,
        occurrence.start as int,
    ) + 1 >= config.min_lines
}

/// Two windows that are looked at together and are clones lie in a match that is recorded or
/// joined from recorded ones. Where both of its spans have enough lines, it is one of the matches
/// that the groups are made of.
pub proof fn paired_clones_lie_in_a_match(
    files: Seq<&SourceFile>,
    config: Config,
    allowed: Option<Set<u64>>,
    candidate: Candidate,
)
    requires
        crate::meaning::are_ready(files),
        files.len() <= u32::MAX,
        config.seed_window > 0,
        crate::filtering::candidates_from(files, config, allowed).contains(candidate),
        crate::matching::is_clone_pair(
            files,
            (Occurrence {
                file: candidate.file_a,
                start: candidate.start_a,
                end: (candidate.start_a + config.seed_window) as u32,
            }),
            (Occurrence {
                file: candidate.file_b,
                start: candidate.start_b,
                end: (candidate.start_b + config.seed_window) as u32,
            }),
            config.parameterize_literals,
        ),
    ensures
        exists|pair: (Occurrence, Occurrence)|
            {
                let groups = crate::detect::candidate_groups(files, config, allowed);
                &&& pair.0.file == candidate.file_a && pair.1.file == candidate.file_b
                &&& pair.0.start <= candidate.start_a < pair.0.end
                &&& pair.1.start <= candidate.start_b < pair.1.end
                &&& #[trigger] crate::matching::is_match(files, pair)
                &&& is_long_enough(files, pair.0, config) && is_long_enough(files, pair.1, config)
                    ==> crate::detect::all_matches(
                    files,
                    groups,
                    groups.len() as int,
                    config,
                ).contains(pair)
            },
{
    let window = config.seed_window as int;
    let pl = config.parameterize_literals;
    let candidates = crate::filtering::candidates_from(files, config, allowed);
    let groups = crate::detect::candidate_groups(files, config, allowed);
    assert(crate::matching::files_wf(files)) by {
        assert forall|f: int| 0 <= f < files.len() implies (#[trigger] files[f]).wf() by {
            assert(crate::index::file_ready(*files[f]));
        }
    }
    assert(groups == crate::candidates::pair_groups(candidates));
    crate::candidates::lemma_pair_groups(candidates);
    let c = choose|c: int| 0 <= c < candidates.len() && candidates[c] == candidate;
    let key = crate::candidates::pair_key_of(candidate);
    assert(crate::candidates::has_group(groups, key));
    let g = choose|g: int|
        0 <= g < groups.len() && crate::candidates::pair_key_of(#[trigger] groups[g][0]) == key;
    let group = groups[g];
    let same = crate::sort::keyed(crate::candidates::by_pair(), key);
    assert(group == candidates.filter(same));
    crate::filtering::lemma_filter_place(candidates, same, c);
    let k = candidates.take(c).filter(same).len() as int;
    assert(group[k] == candidate);
    crate::detect::lemma_candidate_groups(files, config, allowed, g);
    assert(crate::matching::candidate_fits(files, group[k], window));
    crate::matching::extension_is_maximal(files, candidate, window, pl);
    let n = group.len() as int;
    let grown = crate::matching::grown_matches(files, group, n, window, pl);
    crate::matching::candidates_lie_in_matches(files, group, n, window, pl, k);
    let m = choose|m: int|
        0 <= m < grown.len() && crate::matching::pair_covers(#[trigger] grown[m], candidate);
    assert forall|i: int| 0 <= i < grown.len() implies crate::matching::is_match(
        files,
        #[trigger] grown[i],
    ) && grown[i].0.file == candidate.file_a && grown[i].1.file == candidate.file_b by {
        let e = crate::rescan::lemma_recorded_at(files, group, n, window, pl, i);
        assert(crate::matching::candidate_fits(files, group[e], window));
        assert(group[e].file_a == group[k].file_a && group[e].file_b == group[k].file_b);
        crate::matching::extension_is_maximal(files, group[e], window, pl);
    }
    assert(crate::matching::all_match(files, grown));
    assert(crate::matching::same_files(grown, candidate.file_a, candidate.file_b));
    joined_matches_hold_all(grown, m);
    let merged = crate::matching::merged_chain(grown);
    let h = choose|h: int| 0 <= h < merged.len() && lies_in(grown[m], #[trigger] merged[h]);
    let pair = merged[h];
    crate::matching::merged_chain_matches(files, grown, candidate.file_a, candidate.file_b);
    assert(crate::matching::is_match(files, pair));
    if is_long_enough(files, pair.0, config) && is_long_enough(files, pair.1, config) {
        crate::meaning::occurrences_stand_on_their_lines(files[pair.0.file as int], pair.0);
        crate::meaning::occurrences_stand_on_their_lines(files[pair.1.file as int], pair.1);
        let keep = |pair: (Occurrence, Occurrence)|
            crate::matching::spans_lines(files, pair, config.min_lines as int);
        crate::filtering::lemma_filter_place(merged, keep, h);
        let found = crate::detect::group_matches(files, group, config);
        let at = merged.take(h).filter(keep).len() as int;
        assert(found[at] == pair);
        lemma_matches_hold(files, groups, groups.len() as int, config, g, at);
    }
}

/// The matches of a group are among those of all groups.
proof fn lemma_matches_hold(
    files: Seq<&SourceFile>,
    groups: Seq<Seq<Candidate>>,
    n: int,
    config: Config,
    g: int,
    m: int,
)
    requires
        0 <= g < n <= groups.len(),
        0 <= m < crate::detect::group_matches(files, groups[g], config).len(),
    ensures
        crate::detect::all_matches(files, groups, n, config).contains(
            crate::detect::group_matches(files, groups[g], config)[m],
        ),
    decreases n,
{
    let before = crate::detect::all_matches(files, groups, n - 1, config);
    let own = crate::detect::group_matches(files, groups[n - 1], config);
    let wanted = crate::detect::group_matches(files, groups[g], config)[m];
    if g == n - 1 {
        assert((before + own)[before.len() + m] == wanted);
    } else {
        lemma_matches_hold(files, groups, n - 1, config, g, m);
        let k = choose|k: int| 0 <= k < before.len() && before[k] == wanted;
        assert((before + own)[k] == wanted);
    }
}

proof fn lemma_row_makes(
    seeds: Seq<(u64, u32, u32)>,
    i: int,
    n: int,
    window: int,
    max_bucket: int,
    k: int,
) -> (j: int)
    requires
        0 <= i,
        n <= seeds.len(),
        0 <= k < crate::candidates::candidate_row(seeds, i, n, window, max_bucket).len(),
    ensures
        i < j < n,
        crate::candidates::makes_candidate(seeds, i, j, window, max_bucket),
        crate::candidates::candidate_row(seeds, i, n, window, max_bucket)[k]
            == crate::candidates::candidate_of(seeds[i], seeds[j]),
    decreases n,
{
    let row = crate::candidates::candidate_row(seeds, i, n - 1, window, max_bucket);
    if k < row.len() {
        lemma_row_makes(seeds, i, n - 1, window, max_bucket, k)
    } else {
        n - 1
    }
}

proof fn lemma_rows_make(
    seeds: Seq<(u64, u32, u32)>,
    n: int,
    window: int,
    max_bucket: int,
    k: int,
) -> (pair: (int, int))
    requires
        0 <= n <= seeds.len(),
        0 <= k < crate::candidates::candidate_rows(seeds, n, window, max_bucket).len(),
    ensures
        0 <= pair.0 < pair.1 < seeds.len(),
        crate::candidates::makes_candidate(seeds, pair.0, pair.1, window, max_bucket),
        crate::candidates::candidate_rows(seeds, n, window, max_bucket)[k]
            == crate::candidates::candidate_of(seeds[pair.0], seeds[pair.1]),
    decreases n,
{
    let rows = crate::candidates::candidate_rows(seeds, n - 1, window, max_bucket);
    if k < rows.len() {
        lemma_rows_make(seeds, n - 1, window, max_bucket, k)
    } else {
        let j = lemma_row_makes(
            seeds,
            n - 1,
            seeds.len() as int,
            window,
            max_bucket,
            k - rows.len(),
        );
        (n - 1, j)
    }
}

/// Only windows of one signature are paired: both take part, they do not overlap, and the signature
/// is not that of more windows than may be compared.
pub proof fn candidates_pair_windows_of_one_signature(
    files: Seq<&SourceFile>,
    config: Config,
    allowed: Option<Set<u64>>,
    k: int,
)
    requires
        crate::matching::files_wf(files),
        config.seed_window > 0,
        files.len() <= u32::MAX,
        0 <= k < crate::filtering::candidates_from(files, config, allowed).len(),
    ensures
        ({
            let candidate = crate::filtering::candidates_from(files, config, allowed)[k];
            let window = config.seed_window as int;
            let file_a = candidate.file_a as int;
            let file_b = candidate.file_b as int;
            let signature = signature_at(files, config, file_a, candidate.start_a as int);
            &&& is_window(files, window, file_a, candidate.start_a as int)
            &&& is_window(files, window, file_b, candidate.start_b as int)
            &&& signature == signature_at(files, config, file_b, candidate.start_b as int)
            &&& takes_part(allowed, signature)
            &&& file_a == file_b ==> candidate.start_a + window <= candidate.start_b
            &&& seeds_of(files, config, allowed).filter(
                crate::filtering::has_signature(signature),
            ).len() <= config.max_bucket
        }),
{
    let window = config.seed_window as int;
    let all = seeds_of(files, config, allowed);
    let sorted = crate::sort::sorted_with(all, crate::candidates::by_seed());
    let (i, j) = lemma_rows_make(
        sorted,
        sorted.len() as int,
        window,
        config.max_bucket as int,
        k,
    );
    crate::candidates::lemma_member_of_sorted(all, i);
    crate::candidates::lemma_member_of_sorted(all, j);
    let p = choose|p: int| 0 <= p < all.len() && all[p] == sorted[i];
    let q = choose|q: int| 0 <= q < all.len() && all[q] == sorted[j];
    seeds_are_windows(files, config, allowed, files.len() as int, p);
    seeds_are_windows(files, config, allowed, files.len() as int, q);
    crate::filtering::lemma_sorted_count(all, sorted[i].0);
    crate::filtering::lemma_signature_count(all, sorted[i].0, all.len() as int);
    assert(all.take(all.len() as int) =~= all);
}

/// A token of the first span of a match lies in the first span of one of the matches, and the one
/// that it is matched with in the second.
pub open spec fn is_matched_at(
    matches: Seq<(Occurrence, Occurrence)>,
    token_a: int,
    token_b: int,
) -> bool {
    exists|k: int|
        {
            &&& 0 <= k < matches.len()
            &&& (#[trigger] matches[k]).0.start <= token_a < matches[k].0.end
            &&& token_a - matches[k].0.start == token_b - matches[k].1.start
        }
}

proof fn lemma_matched_in_more(
    matches: Seq<(Occurrence, Occurrence)>,
    n: int,
    token_a: int,
    token_b: int,
)
    requires
        0 <= n < matches.len(),
        is_matched_at(matches.take(n), token_a, token_b),
    ensures
        is_matched_at(matches.take(n + 1), token_a, token_b),
{
    let fewer = matches.take(n);
    let k = choose|k: int|
        {
            &&& 0 <= k < fewer.len()
            &&& (#[trigger] fewer[k]).0.start <= token_a < fewer[k].0.end
            &&& token_a - fewer[k].0.start == token_b - fewer[k].1.start
        };
    assert(matches.take(n + 1)[k] == fewer[k]);
}

proof fn lemma_chained_matched(matches: Seq<(Occurrence, Occurrence)>, n: int, m: int, t: int)
    requires
        0 <= n <= matches.len(),
        0 <= m < crate::matching::chained(matches, n).len(),
        crate::matching::chained(matches, n)[m].0.start <= t < crate::matching::chained(
            matches,
            n,
        )[m].0.end,
    ensures
        is_matched_at(
            matches.take(n),
            t,
            t - crate::matching::chained(matches, n)[m].0.start + crate::matching::chained(
                matches,
                n,
            )[m].1.start,
        ),
    decreases n,
{
    if n > 0 {
        let before = crate::matching::chained(matches, n - 1);
        let after = crate::matching::chained(matches, n);
        let (a, b) = matches[n - 1];
        let u = t - after[m].0.start + after[m].1.start;
        assert(matches.take(n)[n - 1] == (a, b));
        if m < before.len() && before[m].0.start <= t < before[m].0.end {
            lemma_chained_matched(matches, n - 1, m, t);
            lemma_matched_in_more(matches, n - 1, t, u);
        } else {
            assert(matches.take(n)[n - 1].0.start <= t < matches.take(n)[n - 1].0.end);
        }
    }
}

/// Joining matches adds nothing: each pair of tokens of a joined match was matched before.
pub proof fn joined_matches_add_nothing(matches: Seq<(Occurrence, Occurrence)>, m: int, t: int)
    requires
        0 <= m < crate::matching::merged_chain(matches).len(),
        crate::matching::merged_chain(matches)[m].0.start <= t < crate::matching::merged_chain(
            matches,
        )[m].0.end,
    ensures
        is_matched_at(
            matches,
            t,
            t - crate::matching::merged_chain(matches)[m].0.start + crate::matching::merged_chain(
                matches,
            )[m].1.start,
        ),
{
    let keys = matches.map_values(
        |pair: (Occurrence, Occurrence)| crate::matching::match_key(pair),
    );
    crate::sort::lemma_stable_order(keys);
    let order = crate::sort::stable_order(keys);
    let sorted = crate::sort::stable_sorted(matches, keys);
    let n = matches.len() as int;
    lemma_chained_matched(sorted, n, m, t);
    assert(sorted.take(n) =~= sorted);
    let merged = crate::matching::merged_chain(matches)[m];
    let u = t - merged.0.start + merged.1.start;
    let k = choose|k: int|
        {
            &&& 0 <= k < sorted.len()
            &&& (#[trigger] sorted[k]).0.start <= t < sorted[k].0.end
            &&& t - sorted[k].0.start == u - sorted[k].1.start
        };
    assert(matches[order[k]] == sorted[k]);
}

/// Every grown match is what one of the candidates grows to.
pub proof fn matches_grow_from_candidates(
    files: Seq<&SourceFile>,
    candidates: Seq<Candidate>,
    n: int,
    window: int,
    parameterize_literals: bool,
    m: int,
)
    requires
        0 <= n <= candidates.len(),
        0 <= m < crate::matching::grown_matches(
            files,
            candidates,
            n,
            window,
            parameterize_literals,
        ).len(),
    ensures
        exists|k: int|
            0 <= k < n && crate::matching::extension(
                files,
                #[trigger] candidates[k],
                window,
                parameterize_literals,
            ) == Some(
                crate::matching::grown_matches(
                    files,
                    candidates,
                    n,
                    window,
                    parameterize_literals,
                )[m],
            ),
    decreases n,
{
    if n > 0 {
        let before = crate::matching::grown_matches(
            files,
            candidates,
            n - 1,
            window,
            parameterize_literals,
        );
        if m < before.len() {
            matches_grow_from_candidates(
                files,
                candidates,
                n - 1,
                window,
                parameterize_literals,
                m,
            );
            let k = choose|k: int|
                0 <= k < n - 1 && crate::matching::extension(
                    files,
                    #[trigger] candidates[k],
                    window,
                    parameterize_literals,
                ) == Some(before[m]);
            assert(0 <= k < n);
        } else {
            assert(candidates[n - 1] == candidates[n - 1]);
        }
    }
}

/// A match that is too short in either file is dropped.
pub proof fn short_matches_are_dropped(
    files: Seq<&SourceFile>,
    groups: Seq<Seq<Candidate>>,
    n: int,
    config: Config,
    pair: (Occurrence, Occurrence),
)
    requires
        crate::meaning::are_ready(files),
        0 <= n <= groups.len(),
        crate::matching::is_match(files, pair),
        crate::detect::all_matches(files, groups, n, config).contains(pair),
    ensures
        is_long_enough(files, pair.0, config),
        is_long_enough(files, pair.1, config),
    decreases n,
{
    if n > 0 {
        let before = crate::detect::all_matches(files, groups, n - 1, config);
        let own = crate::detect::group_matches(files, groups[n - 1], config);
        let all = before + own;
        let k = choose|k: int| 0 <= k < all.len() && all[k] == pair;
        if k < before.len() {
            assert(before[k] == pair);
            short_matches_are_dropped(files, groups, n - 1, config, pair);
        } else {
            assert(own[k - before.len()] == pair);
            let joined = crate::matching::merged_chain(
                crate::matching::grown_matches(
                    files,
                    groups[n - 1],
                    groups[n - 1].len() as int,
                    config.seed_window as int,
                    config.parameterize_literals,
                ),
            );
            joined.lemma_filter_pred(
                |pair: (Occurrence, Occurrence)|
                    crate::matching::spans_lines(files, pair, config.min_lines as int),
                k - before.len(),
            );
            assert(crate::matching::spans_lines(files, pair, config.min_lines as int));
            let a = files[pair.0.file as int];
            let b = files[pair.1.file as int];
            assert(crate::index::file_ready(*a) && crate::index::file_ready(*b));
            crate::meaning::occurrences_stand_on_their_lines(a, pair.0);
            crate::meaning::occurrences_stand_on_their_lines(b, pair.1);
        }
    }
}

/// Two matches of which one continues the other are joined into one, in whatever order they come.
pub proof fn continuing_matches_are_joined(
    first: (Occurrence, Occurrence),
    second: (Occurrence, Occurrence),
)
    requires
        first.0.file == second.0.file && first.1.file == second.1.file,
        first.0.start < first.0.end <= second.0.end,
        first.0.end - first.0.start == first.1.end - first.1.start,
        first.1.end <= second.1.end,
        second.0.start == first.0.end && second.1.start == first.1.end,
    ensures
        ({
            let joined = (
                Occurrence { end: second.0.end, ..first.0 },
                Occurrence { end: second.1.end, ..first.1 },
            );
            &&& crate::matching::merged_chain(seq![first, second]) == seq![joined]
            &&& crate::matching::merged_chain(seq![second, first]) == seq![joined]
        }),
{
    let joined = (
        Occurrence { end: second.0.end, ..first.0 },
        Occurrence { end: second.1.end, ..first.1 },
    );
    let ordered = seq![first, second];
    lemma_two_sorted(first, second, ordered);
    lemma_two_sorted(first, second, seq![second, first]);
    reveal_with_fuel(crate::matching::chained, 3);
    assert(crate::matching::chained(ordered, 1) =~= seq![first]);
    assert(crate::matching::continues(first, second));
    assert(crate::matching::chained(ordered, 2) =~= seq![joined]);
}

proof fn lemma_two_sorted(
    first: (Occurrence, Occurrence),
    second: (Occurrence, Occurrence),
    given: Seq<(Occurrence, Occurrence)>,
)
    requires
        first.0.start < second.0.start,
        given == seq![first, second] || given == seq![second, first],
    ensures
        crate::sort::stable_sorted(
            given,
            given.map_values(|pair: (Occurrence, Occurrence)| crate::matching::match_key(pair)),
        ) == seq![first, second],
{
    let keys = given.map_values(
        |pair: (Occurrence, Occurrence)| crate::matching::match_key(pair),
    );
    crate::sort::lemma_stable_order(keys);
    let order = crate::sort::stable_order(keys);
    let sorted = crate::sort::stable_sorted(given, keys);
    assert(order.len() == 2);
    assert(crate::sort::before(keys, order[0], order[1]));
    assert(order[0] != order[1]);
    assert(0 <= order[0] < 2 && 0 <= order[1] < 2);
    assert(crate::matching::match_key(first) < crate::matching::match_key(second));
    assert(sorted =~= seq![first, second]);
}

} // verus!
