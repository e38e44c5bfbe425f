//! Clone detection over a set of files.
use std::collections::HashSet;
use vstd::prelude::*;

use crate::bijection::Bijection;
use crate::candidates::{collect_candidates, collect_seeds, group_candidates, sort_seeds};
use crate::cluster::cluster;
use crate::config::Config;
use crate::matching::{finalize_pair, process_group, Candidate, CoverIndex};
use crate::model::{CloneGroup, Occurrence, SourceFile};

verus! {

/// Above this many tokens in all, signatures are not kept between detections.
const SIGNATURE_CACHE_MAX_TOKENS: usize = 33_554_432;

/// The candidate groups of the files, per file pair.
pub open spec fn candidate_groups(
    files: Seq<&SourceFile>,
    config: Config,
    allowed: Option<Set<u64>>,
) -> Seq<Seq<Candidate>> {
    let window = config.seed_window as int;
    let seeds = crate::sort::sorted_with(
        crate::candidates::all_seeds(
            files,
            window,
            config.parameterize_literals,
            allowed,
            files.len() as int,
        ),
        crate::candidates::by_seed(),
    );
    crate::candidates::pair_groups(
        crate::candidates::candidate_rows(
            seeds,
            seeds.len() as int,
            window,
            config.max_bucket as int,
        ),
    )
}

/// The matches of one candidate group: grown, joined and long enough.
pub open spec fn group_matches(
    files: Seq<&SourceFile>,
    group: Seq<Candidate>,
    config: Config,
) -> Seq<(Occurrence, Occurrence)> {
    crate::matching::final_matches(
        files,
        crate::matching::grown_matches(
            files,
            group,
            group.len() as int,
            config.seed_window as int,
            config.parameterize_literals,
        ),
        config.min_lines as int,
    )
}

/// The matches of the first `n` candidate groups.
pub open spec fn all_matches(
    files: Seq<&SourceFile>,
    groups: Seq<Seq<Candidate>>,
    n: int,
    config: Config,
) -> Seq<(Occurrence, Occurrence)>
    decreases n,
{
    if n <= 0 {
        Seq::empty()
    } else {
        all_matches(files, groups, n - 1, config) + group_matches(files, groups[n - 1], config)
    }
}

/// The clone groups of the files, from seeds with allowed signatures.
pub open spec fn detected(
    files: Seq<&SourceFile>,
    config: Config,
    allowed: Option<Set<u64>>,
) -> Seq<(Seq<Occurrence>, int, crate::model::CloneType)> {
    let groups = candidate_groups(files, config, allowed);
    crate::cluster::clusters_of(
        files,
        all_matches(files, groups, groups.len() as int, config),
        config,
    )
}

/// The number of tokens in the first `n` files.
pub open spec fn token_sum(files: Seq<&SourceFile>, n: int) -> int
    decreases n,
{
    if n <= 0 {
        0
    } else {
        token_sum(files, n - 1) + files[n - 1].tokens@.len()
    }
}

/// The number of tokens in all files, as far as it can be counted.
fn total_tokens(files: &[&SourceFile]) -> (total: usize)
    ensures
        total == (if token_sum(files@, files@.len() as int) <= usize::MAX {
            token_sum(files@, files@.len() as int)
        } else {
            usize::MAX as int
        }),
{
    let mut total: usize = 0;
    let mut i: usize = 0;
    while i < files.len()
        invariant
            i <= files@.len(),
            total == (if token_sum(files@, i as int) <= usize::MAX {
                token_sum(files@, i as int)
            } else {
                usize::MAX as int
            }),
        decreases files@.len() - i,
    {
        total = total.saturating_add(files[i].tokens.len());
        i = i + 1;
    }
    total
}

/// The window of the seed lies in its file.
spec fn seed_fits(files: Seq<&SourceFile>, seed: (u64, u32, u32), window: int) -> bool {
    seed.1 < files.len() && seed.2 + window <= files[seed.1 as int].hashes@.len()
}

spec fn seeds_fit(files: Seq<&SourceFile>, seeds: Seq<(u64, u32, u32)>, window: int) -> bool {
    forall|i: int| 0 <= i < seeds.len() ==> seed_fits(files, #[trigger] seeds[i], window)
}

proof fn lemma_file_seeds_fit(
    files: Seq<&SourceFile>,
    signatures: Seq<u64>,
    file: int,
    allowed: Option<Set<u64>>,
    n: int,
    window: int,
)
    requires
        0 <= file < files.len() <= u32::MAX,
        0 <= n <= signatures.len(),
        signatures.len() + window - 1 <= files[file].hashes@.len() < u32::MAX,
        window > 0,
    ensures
        seeds_fit(
            files,
            crate::candidates::file_seeds(signatures, file, allowed, n),
            window,
        ),
    decreases n,
{
    if n > 0 {
        lemma_file_seeds_fit(files, signatures, file, allowed, n - 1, window);
    }
}

proof fn lemma_all_seeds_fit(
    files: Seq<&SourceFile>,
    window: int,
    pl: bool,
    allowed: Option<Set<u64>>,
    n: int,
)
    requires
        crate::matching::files_wf(files),
        0 <= n <= files.len() <= u32::MAX,
    ensures
        seeds_fit(files, crate::candidates::all_seeds(files, window, pl, allowed, n), window),
    decreases n,
{
    if n > 0 {
        lemma_all_seeds_fit(files, window, pl, allowed, n - 1);
        let signatures = crate::encode::signatures_of(files[n - 1].hashes@, window, pl);
        let head = crate::candidates::all_seeds(files, window, pl, allowed, n - 1);
        let tail = crate::candidates::file_seeds(
            signatures,
            n - 1,
            allowed,
            signatures.len() as int,
        );
        assert(files[n - 1].wf());
        if signatures.len() > 0 {
            lemma_file_seeds_fit(
                files,
                signatures,
                n - 1,
                allowed,
                signatures.len() as int,
                window,
            );
        }
        let whole = head + tail;
        assert forall|i: int| 0 <= i < whole.len() implies seed_fits(
            files,
            #[trigger] whole[i],
            window,
        ) by {
            if i < head.len() {
                assert(whole[i] == head[i]);
            } else {
                assert(whole[i] == tail[i - head.len()]);
            }
        }
    }
}

/// Windows of no tokens give no seeds.
proof fn lemma_no_windows(files: Seq<&SourceFile>, pl: bool, allowed: Option<Set<u64>>, n: int)
    ensures
        crate::candidates::all_seeds(files, 0, pl, allowed, n).len() == 0,
    decreases n,
{
    if n > 0 {
        lemma_no_windows(files, pl, allowed, n - 1);
    }
}

proof fn lemma_sorted_seeds(
    files: Seq<&SourceFile>,
    seeds: Seq<(u64, u32, u32)>,
    window: int,
)
    requires
        seeds_fit(files, seeds, window),
    ensures
        seeds_fit(
            files,
            crate::sort::sorted_with(seeds, crate::candidates::by_seed()),
            window,
        ),
        crate::candidates::is_clustered(
            crate::sort::sorted_with(seeds, crate::candidates::by_seed()),
        ),
{
    let key = crate::candidates::by_seed();
    let sorted = crate::sort::sorted_with(seeds, key);
    crate::sort::lemma_sorted_with(seeds, key);
    assert forall|i: int| 0 <= i < sorted.len() implies seed_fits(
        files,
        #[trigger] sorted[i],
        window,
    ) by {
        crate::candidates::lemma_member_of_sorted(seeds, i);
        let j = choose|j: int| 0 <= j < seeds.len() && seeds[j] == sorted[i];
        assert(seed_fits(files, seeds[j], window));
    }
    assert forall|i: int, j: int| 0 <= i < j < sorted.len() implies (#[trigger] sorted[i]).0 <= (
    #[trigger] sorted[j]).0 by {
        assert(key(sorted[i]) <= key(sorted[j]));
        crate::candidates::lemma_seed_order(sorted[i], sorted[j]);
    }
}

spec fn candidates_fit(files: Seq<&SourceFile>, candidates: Seq<Candidate>, window: int) -> bool {
    forall|i: int|
        0 <= i < candidates.len() ==> crate::matching::candidate_fits(
            files,
            #[trigger] candidates[i],
            window,
        )
}

proof fn lemma_row_fits(
    files: Seq<&SourceFile>,
    seeds: Seq<(u64, u32, u32)>,
    i: int,
    n: int,
    window: int,
    max_bucket: int,
)
    requires
        seeds_fit(files, seeds, window),
        0 <= i < seeds.len(),
        n <= seeds.len(),
    ensures
        candidates_fit(
            files,
            crate::candidates::candidate_row(seeds, i, n, window, max_bucket),
            window,
        ),
    decreases n - i,
{
    if n > i + 1 {
        lemma_row_fits(files, seeds, i, n - 1, window, max_bucket);
        assert(seed_fits(files, seeds[i], window));
        assert(seed_fits(files, seeds[n - 1], window));
    }
}

proof fn lemma_rows_fit(
    files: Seq<&SourceFile>,
    seeds: Seq<(u64, u32, u32)>,
    n: int,
    window: int,
    max_bucket: int,
)
    requires
        seeds_fit(files, seeds, window),
        0 <= n <= seeds.len(),
    ensures
        candidates_fit(
            files,
            crate::candidates::candidate_rows(seeds, n, window, max_bucket),
            window,
        ),
    decreases n,
{
    if n > 0 {
        lemma_rows_fit(files, seeds, n - 1, window, max_bucket);
        lemma_row_fits(files, seeds, n - 1, seeds.len() as int, window, max_bucket);
        let head = crate::candidates::candidate_rows(seeds, n - 1, window, max_bucket);
        let tail = crate::candidates::candidate_row(
            seeds,
            n - 1,
            seeds.len() as int,
            window,
            max_bucket,
        );
        let whole = head + tail;
        assert forall|i: int| 0 <= i < whole.len() implies crate::matching::candidate_fits(
            files,
            #[trigger] whole[i],
            window,
        ) by {
            if i < head.len() {
                assert(whole[i] == head[i]);
            } else {
                assert(whole[i] == tail[i - head.len()]);
            }
        }
    }
}

/// Every group of candidates belongs to one file pair, and its candidates fit.
proof fn lemma_groups_fit(files: Seq<&SourceFile>, candidates: Seq<Candidate>, window: int, g: int)
    requires
        candidates_fit(files, candidates, window),
        0 <= g < crate::candidates::pair_groups(candidates).len(),
    ensures
        candidates.len() > 0,
        crate::candidates::pair_groups(candidates)[g].len() > 0,
        crate::matching::is_pair_group(
            files,
            crate::candidates::pair_groups(candidates)[g],
            window,
        ),
{
    crate::candidates::lemma_pair_groups(candidates);
    let group = crate::candidates::pair_groups(candidates)[g];
    let key = crate::candidates::pair_key_of(group[0]);
    let pred = crate::sort::keyed(crate::candidates::by_pair(), key);
    assert(group == candidates.filter(pred));
    crate::cluster::lemma_filter_member(candidates, pred, 0);
    assert forall|i: int| 0 <= i < group.len() implies crate::matching::candidate_fits(
        files,
        #[trigger] group[i],
        window,
    ) && crate::candidates::pair_key_of(group[i]) == key by {
        Seq::lemma_filter_pred(candidates, pred, i);
        assert(pred(group[i]));
        crate::cluster::lemma_filter_member(candidates, pred, i);
        let j = choose|j: int| 0 <= j < candidates.len() && candidates[j] == group[i];
        assert(crate::matching::candidate_fits(files, candidates[j], window));
    }
    assert forall|i: int, j: int| 0 <= i < group.len() && 0 <= j < group.len() implies (
    #[trigger] group[i]).file_a == (#[trigger] group[j]).file_a && group[i].file_b
        == group[j].file_b by {
        assert(crate::candidates::pair_key_of(group[i]) == crate::candidates::pair_key_of(
            group[j],
        ));
    }
}

/// The candidate groups of a detection belong to one file pair each, and their candidates fit.
pub proof fn lemma_candidate_groups(
    files: Seq<&SourceFile>,
    config: Config,
    allowed: Option<Set<u64>>,
    g: int,
)
    requires
        crate::matching::files_wf(files),
        files.len() <= u32::MAX,
        0 <= g < candidate_groups(files, config, allowed).len(),
    ensures
        crate::matching::is_pair_group(
            files,
            candidate_groups(files, config, allowed)[g],
            config.seed_window as int,
        ),
{
    let window = config.seed_window as int;
    let all = crate::candidates::all_seeds(
        files,
        window,
        config.parameterize_literals,
        allowed,
        files.len() as int,
    );
    let seeds = crate::sort::sorted_with(all, crate::candidates::by_seed());
    lemma_all_seeds_fit(
        files,
        window,
        config.parameterize_literals,
        allowed,
        files.len() as int,
    );
    lemma_sorted_seeds(files, all, window);
    lemma_rows_fit(files, seeds, seeds.len() as int, window, config.max_bucket as int);
    let candidates = crate::candidates::candidate_rows(
        seeds,
        seeds.len() as int,
        window,
        config.max_bucket as int,
    );
    lemma_groups_fit(files, candidates, window, g);
}

/// The seeds of all files.
fn seed_files(files: &[&SourceFile], config: &Config, allowed: Option<&HashSet<u64>>) -> (seeds: Vec<
    (u64, u32, u32),
>)
    requires
        crate::matching::files_wf(files@),
        files@.len() <= u32::MAX,
    ensures
        seeds@ == crate::candidates::all_seeds(
            files@,
            config.seed_window as int,
            config.parameterize_literals,
            crate::candidates::allowed_view(allowed),
            files@.len() as int,
        ),
{
    let window: usize = config.seed_window;
    let parameterize_literals: bool = config.parameterize_literals;
    let cache: bool = allowed.is_some() || total_tokens(files) < SIGNATURE_CACHE_MAX_TOKENS;
    let mut seeds: Vec<(u64, u32, u32)> = Vec::new();
    let mut n: usize = 0;
    while n < files.len()
        invariant
            crate::matching::files_wf(files@),
            files@.len() <= u32::MAX,
            window == config.seed_window,
            parameterize_literals == config.parameterize_literals,
            n <= files@.len(),
            seeds@ == crate::candidates::all_seeds(
                files@,
                window as int,
                parameterize_literals,
                crate::candidates::allowed_view(allowed),
                n as int,
            ),
        decreases files@.len() - n,
    {
        let file = files[n];
        assert(files@[n as int].wf());
        let index: u32 = n as u32;
        let collect = |signatures: &[u64]| -> (local: Vec<(u64, u32, u32)>)
            requires
                signatures@.len() <= u32::MAX,
            ensures
                local@ == crate::candidates::file_seeds(
                    signatures@,
                    index as int,
                    crate::candidates::allowed_view(allowed),
                    signatures@.len() as int,
                ),
            { collect_seeds(signatures, index, allowed) };
        let mut local = file.for_each_window_signature(
            window,
            parameterize_literals,
            cache,
            collect,
        );
        seeds.append(&mut local);
        n = n + 1;
    }
    seeds
}

/// Finds the clone groups of the files.
pub fn detect(files: &[&SourceFile], config: &Config) -> (groups: Vec<CloneGroup>)
    requires
        crate::cluster::files_ready(files@),
        files@.len() <= u32::MAX,
    ensures
        crate::cluster::group_views(groups@) == detected(files@, *config, None),
        crate::findings::are_findings(files@, crate::cluster::group_views(groups@), *config),
{
    detect_filtered(files, config, None)
}

/// Finds the clone groups that grow from windows with one of the allowed signatures.
pub fn detect_filtered(
    files: &[&SourceFile],
    config: &Config,
    allowed: Option<&HashSet<u64>>,
) -> (groups: Vec<CloneGroup>)
    requires
        crate::cluster::files_ready(files@),
        files@.len() <= u32::MAX,
    ensures
        crate::cluster::group_views(groups@) == detected(
            files@,
            *config,
            crate::candidates::allowed_view(allowed),
        ),
        crate::findings::are_findings(files@, crate::cluster::group_views(groups@), *config),
{
    let window: usize = config.seed_window;
    let ghost allowed_set = crate::candidates::allowed_view(allowed);
    assert(crate::matching::files_wf(files@));
    let unsorted = seed_files(files, config, allowed);
    proof {
        lemma_all_seeds_fit(
            files@,
            window as int,
            config.parameterize_literals,
            allowed_set,
            files@.len() as int,
        );
        lemma_sorted_seeds(files@, unsorted@, window as int);
    }
    let seeds = sort_seeds(unsorted);
    proof {
        crate::sort::lemma_sorted_with(unsorted@, crate::candidates::by_seed());
        if window == 0 {
            lemma_no_windows(
                files@,
                config.parameterize_literals,
                allowed_set,
                files@.len() as int,
            );
        }
        assert forall|k: int| 0 <= k < seeds@.len() implies (#[trigger] seeds@[k]).2 + window
            <= u32::MAX by {
            assert(seed_fits(files@, seeds@[k], window as int));
            assert(files@[seeds@[k].1 as int].wf());
        }
        lemma_rows_fit(
            files@,
            seeds@,
            seeds@.len() as int,
            window as int,
            config.max_bucket as int,
        );
    }
    let candidates = collect_candidates(&seeds, window, config.max_bucket);
    let ghost candidate_seq = candidates@;
    let groups = group_candidates(candidates);
    let ghost group_seq = crate::candidates::groups_view(groups@);
    let mut bijection = Bijection::new();
    let mut cover = CoverIndex::new();
    let mut matches: Vec<(Occurrence, Occurrence)> = Vec::new();
    let mut g: usize = 0;
    while g < groups.len()
        invariant
            crate::matching::files_wf(files@),
            window == config.seed_window,
            candidates_fit(files@, candidate_seq, window as int),
            window == 0 ==> candidate_seq.len() == 0,
            group_seq == crate::candidates::groups_view(groups@),
            group_seq == crate::candidates::pair_groups(candidate_seq),
            g <= groups@.len(),
            bijection.wf(),
            matches@ == all_matches(files@, group_seq, g as int, *config),
            crate::matching::all_match(files@, matches@),
        decreases groups@.len() - g,
    {
        let group = &groups[g];
        proof {
            assert(group_seq[g as int] == group@);
            lemma_groups_fit(files@, candidate_seq, window as int, g as int);
        }
        let ghost before = matches@;
        let recorded = process_group(
            files,
            group.as_slice(),
            window,
            config.parameterize_literals,
            &mut bijection,
            &mut cover,
        );
        let ghost file_a = group@[0].file_a;
        let ghost file_b = group@[0].file_b;
        let mut found = finalize_pair(
            files,
            recorded,
            config.min_lines,
            Ghost(file_a),
            Ghost(file_b),
        );
        let ghost added = found@;
        matches.append(&mut found);
        proof {
            assert(matches@ =~= before + added);
            assert forall|i: int| 0 <= i < matches@.len() implies crate::matching::is_match(
                files@,
                #[trigger] matches@[i],
            ) by {
                if i < before.len() {
                    assert(matches@[i] == before[i]);
                } else {
                    assert(matches@[i] == added[i - before.len()]);
                }
            }
        }
        g = g + 1;
    }
    cluster(files, &matches, config)
}

/// The signatures of the windows that start from `first` up to and without `end`.
pub open spec fn signatures_from(signatures: Seq<u64>, first: int, end: int) -> Set<u64> {
    Set::new(
        |signature: u64|
            exists|at: int|
                0 <= at < signatures.len() && first <= at < end && #[trigger] signatures[at]
                    == signature,
    )
}

/// The signatures of the windows that touch the token span. An empty span, and one that does not
/// lie in the file, has none.
pub open spec fn span_signatures(
    file: SourceFile,
    start: int,
    end: int,
    window: int,
    parameterize_literals: bool,
) -> Set<u64> {
    if start >= end || end > file.tokens@.len() {
        Set::empty()
    } else {
        signatures_from(
            crate::encode::signatures_of(file.hashes@, window, parameterize_literals),
            start - window + 1,
            end,
        )
    }
}

/// The signatures of the windows that touch the token span from `start` to `end`.
pub fn span_window_signatures(file: &SourceFile, start: usize, end: usize, config: &Config) -> (allowed:
    HashSet<u64>)
    requires
        file.wf(),
    ensures
        allowed@ == span_signatures(
            *file,
            start as int,
            end as int,
            config.seed_window as int,
            config.parameterize_literals,
        ),
{
    broadcast use vstd::std_specs::hash::group_hash_axioms;

    let mut allowed: HashSet<u64> = HashSet::new();
    add_span_signatures(&mut allowed, file, start, end, config);
    assert(allowed@ =~= span_signatures(
        *file,
        start as int,
        end as int,
        config.seed_window as int,
        config.parameterize_literals,
    ));
    allowed
}

/// The signatures of the windows that start from `first` up to and without `end`, in order.
spec fn signature_list(signatures: Seq<u64>, first: int, end: int) -> Seq<u64> {
    let stop = if end < signatures.len() {
        end
    } else {
        signatures.len() as int
    };
    if first < stop {
        signatures.subrange(first, stop)
    } else {
        Seq::empty()
    }
}

fn list_between(signatures: &[u64], first: usize, end: usize) -> (list: Vec<u64>)
    ensures
        list@ == signature_list(signatures@, first as int, end as int),
{
    let stop: usize = if end < signatures.len() {
        end
    } else {
        signatures.len()
    };
    let mut list: Vec<u64> = Vec::new();
    let mut at: usize = first;
    while at < stop
        invariant
            first <= at,
            stop <= signatures@.len(),
            at <= first || at <= stop,
            first <= stop ==> list@ == signatures@.subrange(first as int, at as int),
            first > stop ==> list@.len() == 0,
        decreases stop - at,
    {
        list.push(signatures[at]);
        at = at + 1;
        assert(list@ =~= signatures@.subrange(first as int, at as int));
    }
    assert(list@ =~= signature_list(signatures@, first as int, end as int));
    list
}

/// Adds the signatures of the windows that touch the token span from `start` to `end`.
pub fn add_span_signatures(
    set: &mut HashSet<u64>,
    file: &SourceFile,
    start: usize,
    end: usize,
    config: &Config,
)
    requires
        file.wf(),
    ensures
        final(set)@ == old(set)@.union(
            span_signatures(
                *file,
                start as int,
                end as int,
                config.seed_window as int,
                config.parameterize_literals,
            ),
        ),
{
    broadcast use vstd::std_specs::hash::group_hash_axioms;

    let window: usize = config.seed_window;
    let total: usize = file.tokens.len();
    let ghost before = set@;
    let ghost wanted = span_signatures(
        *file,
        start as int,
        end as int,
        window as int,
        config.parameterize_literals,
    );
    if window == 0 || total < window || start >= end || end > total {
        assert(wanted =~= Set::empty());
        assert(set@ =~= before.union(wanted));
        return;
    }
    let ghost signatures = crate::encode::signatures_of(
        file.hashes@,
        window as int,
        config.parameterize_literals,
    );
    let first: usize = start.saturating_sub(window - 1);
    let collect = |found: &[u64]| -> (list: Vec<u64>)
        ensures
            list@ == signature_list(found@, first as int, end as int),
        { list_between(found, first, end) };
    let list = file.for_each_window_signature(
        window,
        config.parameterize_literals,
        true,
        collect,
    );
    let ghost values = list@;
    assert(values == signature_list(signatures, first as int, end as int));
    let mut i: usize = 0;
    while i < list.len()
        invariant
            values == list@,
            i <= values.len(),
            forall|signature: u64| #[trigger]
                set@.contains(signature) == (before.contains(signature) || values.take(
                    i as int,
                ).contains(signature)),
        decreases values.len() - i,
    {
        let ghost so_far = set@;
        set.insert(list[i]);
        proof {
            assert forall|signature: u64| #[trigger] set@.contains(signature) == (before.contains(
                signature,
            ) || values.take(i + 1).contains(signature)) by {
                let shorter = values.take(i as int);
                let longer = values.take(i + 1);
                assert(so_far.contains(signature) == (before.contains(signature)
                    || shorter.contains(signature)));
                if shorter.contains(signature) {
                    let k = choose|k: int| 0 <= k < shorter.len() && shorter[k] == signature;
                    assert(longer[k] == signature);
                }
                if signature == values[i as int] {
                    assert(longer[i as int] == signature);
                }
                if longer.contains(signature) && signature != values[i as int] {
                    let k = choose|k: int| 0 <= k < longer.len() && longer[k] == signature;
                    assert(shorter[k] == signature);
                }
            }
        }
        i = i + 1;
    }
    proof {
        assert(values.take(i as int) =~= values);
        assert forall|signature: u64| values.contains(signature) == wanted.contains(signature) by {
            if values.contains(signature) {
                let k = choose|k: int| 0 <= k < values.len() && values[k] == signature;
                assert(signatures[first + k] == signature);
            }
            if wanted.contains(signature) {
                let at = choose|at: int|
                    0 <= at < signatures.len() && start - window + 1 <= at < end
                        && #[trigger] signatures[at] == signature;
                assert(values[at - first] == signature);
            }
        }
        assert(set@ =~= before.union(wanted));
    }
}

} // verus!
