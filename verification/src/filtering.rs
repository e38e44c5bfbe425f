//! What becomes of a detection that starts from some of the windows only.
use vstd::prelude::*;

use crate::config::Config;
use crate::matching::Candidate;
use crate::model::SourceFile;

verus! {

/// A seed has an allowed signature.
pub open spec fn has_allowed(allowed: Option<Set<u64>>) -> spec_fn((u64, u32, u32)) -> bool {
    |seed: (u64, u32, u32)| crate::candidates::is_allowed(allowed, seed.0)
}

proof fn lemma_file_seeds_filtered(
    signatures: Seq<u64>,
    file: int,
    allowed: Option<Set<u64>>,
    n: int,
)
    requires
        n <= signatures.len(),
    ensures
        crate::candidates::file_seeds(signatures, file, allowed, n)
            == crate::candidates::file_seeds(signatures, file, None, n).filter(
            has_allowed(allowed),
        ),
    decreases n,
{
    if n <= 0 {
        crate::sort::lemma_filter_none(
            crate::candidates::file_seeds(signatures, file, None, n),
            has_allowed(allowed),
        );
    } else {
        lemma_file_seeds_filtered(signatures, file, allowed, n - 1);
        crate::sort::lemma_filter_push(
            crate::candidates::file_seeds(signatures, file, None, n - 1),
            (signatures[n - 1], file as u32, (n - 1) as u32),
            has_allowed(allowed),
        );
    }
}

/// Filtered detection starts from exactly those seeds of the first `n` files that have an allowed
/// signature, in the same order.
pub proof fn filtered_seeds_are_the_allowed_ones(
    files: Seq<&SourceFile>,
    window: int,
    parameterize_literals: bool,
    allowed: Option<Set<u64>>,
    n: int,
)
    requires
        n <= files.len(),
    ensures
        crate::candidates::all_seeds(files, window, parameterize_literals, allowed, n)
            == crate::candidates::all_seeds(files, window, parameterize_literals, None, n).filter(
            has_allowed(allowed),
        ),
    decreases n,
{
    let all = crate::candidates::all_seeds(files, window, parameterize_literals, None, n);
    if n <= 0 {
        crate::sort::lemma_filter_none(all, has_allowed(allowed));
    } else {
        filtered_seeds_are_the_allowed_ones(files, window, parameterize_literals, allowed, n - 1);
        let signatures = crate::encode::signatures_of(
            files[n - 1].hashes@,
            window,
            parameterize_literals,
        );
        lemma_file_seeds_filtered(signatures, n - 1, allowed, signatures.len() as int);
        crate::sort::lemma_filter_add(
            crate::candidates::all_seeds(files, window, parameterize_literals, None, n - 1),
            crate::candidates::file_seeds(signatures, n - 1, None, signatures.len() as int),
            has_allowed(allowed),
        );
    }
}

/// The two filters can be applied in either order.
pub proof fn lemma_filters_commute<A>(s: Seq<A>, p: spec_fn(A) -> bool, q: spec_fn(A) -> bool)
    ensures
        s.filter(p).filter(q) == s.filter(q).filter(p),
    decreases s.len(),
{
    if s.len() == 0 {
        crate::sort::lemma_filter_none(s, p);
        crate::sort::lemma_filter_none(s, q);
        crate::sort::lemma_filter_none(s.filter(p), q);
        crate::sort::lemma_filter_none(s.filter(q), p);
    } else {
        let shorter = s.drop_last();
        let x = s.last();
        assert(shorter.push(x) =~= s);
        lemma_filters_commute(shorter, p, q);
        crate::sort::lemma_filter_push(shorter, x, p);
        crate::sort::lemma_filter_push(shorter, x, q);
        crate::sort::lemma_filter_push(shorter.filter(p), x, q);
        crate::sort::lemma_filter_push(shorter.filter(q), x, p);
    }
}

/// What passes a filter still ascends.
proof fn lemma_filter_ascends<A>(s: Seq<A>, pred: spec_fn(A) -> bool, key: spec_fn(A) -> u128)
    requires
        crate::sort::ascends(s, key),
    ensures
        crate::sort::ascends(s.filter(pred), key),
    decreases s.len(),
{
    if s.len() == 0 {
        crate::sort::lemma_filter_none(s, pred);
    } else {
        let shorter = s.drop_last();
        let x = s.last();
        assert(shorter.push(x) =~= s);
        assert forall|i: int, j: int| 0 <= i < j < shorter.len() implies key(
            #[trigger] shorter[i],
        ) <= key(#[trigger] shorter[j]) by {
            assert(key(s[i]) <= key(s[j]));
        }
        lemma_filter_ascends(shorter, pred, key);
        crate::sort::lemma_filter_push(shorter, x, pred);
        let before = shorter.filter(pred);
        assert forall|i: int| 0 <= i < before.len() implies key(#[trigger] before[i]) <= key(x) by {
            crate::cluster::lemma_filter_member(shorter, pred, i);
            let at = choose|at: int| 0 <= at < shorter.len() && shorter[at] == before[i];
            assert(key(s[at]) <= key(s[s.len() - 1]));
        }
    }
}

/// Filtering and sorting can be done in either order.
pub proof fn lemma_sorted_filter<A>(s: Seq<A>, pred: spec_fn(A) -> bool, key: spec_fn(A) -> u128)
    ensures
        crate::sort::sorted_with(s.filter(pred), key) == crate::sort::sorted_with(s, key).filter(
            pred,
        ),
{
    let sorted = crate::sort::sorted_with(s, key);
    let kept = crate::sort::sorted_with(s.filter(pred), key);
    crate::sort::lemma_sorted_with(s, key);
    crate::sort::lemma_sorted_with(s.filter(pred), key);
    lemma_filter_ascends(sorted, pred, key);
    assert forall|k: u128| #[trigger]
        kept.filter(crate::sort::keyed(key, k)) == sorted.filter(pred).filter(
            crate::sort::keyed(key, k),
        ) by {
        let same = crate::sort::keyed(key, k);
        lemma_filters_commute(s, pred, same);
        lemma_filters_commute(sorted, pred, same);
        assert(sorted.filter(same) == s.filter(same));
    }
    crate::sort::lemma_ascending_unique(kept, sorted.filter(pred), key);
}

/// A seed has this signature.
pub open spec fn has_signature(signature: u64) -> spec_fn((u64, u32, u32)) -> bool {
    |seed: (u64, u32, u32)| seed.0 == signature
}

pub proof fn lemma_signature_count(seeds: Seq<(u64, u32, u32)>, signature: u64, n: int)
    requires
        0 <= n <= seeds.len(),
    ensures
        crate::candidates::signature_count(seeds, signature, n) == seeds.take(n).filter(
            has_signature(signature),
        ).len(),
    decreases n,
{
    let pred = has_signature(signature);
    if n == 0 {
        crate::sort::lemma_filter_none(seeds.take(0), pred);
    } else {
        lemma_signature_count(seeds, signature, n - 1);
        assert(seeds.take(n) =~= seeds.take(n - 1).push(seeds[n - 1]));
        crate::sort::lemma_filter_push(seeds.take(n - 1), seeds[n - 1], pred);
    }
}

/// Sorting does not change how often a signature occurs.
pub proof fn lemma_sorted_count(seeds: Seq<(u64, u32, u32)>, signature: u64)
    ensures
        ({
            let sorted = crate::sort::sorted_with(seeds, crate::candidates::by_seed());
            crate::candidates::signature_count(sorted, signature, sorted.len() as int) == crate::candidates::signature_count(
                seeds,
                signature,
                seeds.len() as int,
            )
        }),
{
    let key = crate::candidates::by_seed();
    let sorted = crate::sort::sorted_with(seeds, key);
    let pred = has_signature(signature);
    lemma_signature_count(seeds, signature, seeds.len() as int);
    lemma_signature_count(sorted, signature, sorted.len() as int);
    assert(seeds.take(seeds.len() as int) =~= seeds);
    assert(sorted.take(sorted.len() as int) =~= sorted);
    lemma_sorted_filter(seeds, pred, key);
    crate::sort::lemma_sorted_with(seeds.filter(pred), key);
}

/// A signature that is allowed occurs as often among the allowed seeds.
proof fn lemma_allowed_count(seeds: Seq<(u64, u32, u32)>, allowed: Set<u64>, signature: u64)
    requires
        allowed.contains(signature),
    ensures
        ({
            let kept = seeds.filter(has_allowed(Some(allowed)));
            crate::candidates::signature_count(kept, signature, kept.len() as int) == crate::candidates::signature_count(
                seeds,
                signature,
                seeds.len() as int,
            )
        }),
{
    let keep = has_allowed(Some(allowed));
    let pred = has_signature(signature);
    let kept = seeds.filter(keep);
    lemma_signature_count(seeds, signature, seeds.len() as int);
    lemma_signature_count(kept, signature, kept.len() as int);
    assert(seeds.take(seeds.len() as int) =~= seeds);
    assert(kept.take(kept.len() as int) =~= kept);
    lemma_filters_commute(seeds, keep, pred);
    let same = seeds.filter(pred);
    assert forall|i: int| 0 <= i < same.len() implies keep(#[trigger] same[i]) by {
        lemma_filter_meets(seeds, pred, i);
    }
    crate::sort::lemma_filter_all(same, keep);
}

/// What passes a filter meets it.
pub proof fn lemma_filter_meets<A>(s: Seq<A>, pred: spec_fn(A) -> bool, i: int)
    requires
        0 <= i < s.filter(pred).len(),
    ensures
        pred(s.filter(pred)[i]),
    decreases s.len(),
{
    if s.len() == 0 {
        crate::sort::lemma_filter_none(s, pred);
    } else {
        let shorter = s.drop_last();
        assert(shorter.push(s.last()) =~= s);
        crate::sort::lemma_filter_push(shorter, s.last(), pred);
        if i < shorter.filter(pred).len() {
            lemma_filter_meets(shorter, pred, i);
        }
    }
}

/// Where an element goes that passes a filter.
pub proof fn lemma_filter_place<A>(s: Seq<A>, pred: spec_fn(A) -> bool, i: int)
    requires
        0 <= i < s.len(),
    ensures
        s.take(i).filter(pred).len() <= s.filter(pred).len(),
        s.take(i + 1).filter(pred).len() == s.take(i).filter(pred).len() + (if pred(s[i]) {
            1int
        } else {
            0int
        }),
        pred(s[i]) ==> s.take(i).filter(pred).len() < s.filter(pred).len() && s.filter(
            pred,
        )[s.take(i).filter(pred).len() as int] == s[i],
{
    let head = s.take(i);
    let next = s.take(i + 1);
    let tail = s.skip(i + 1);
    assert(next =~= head.push(s[i]));
    assert(s =~= next + tail);
    crate::sort::lemma_filter_push(head, s[i], pred);
    crate::sort::lemma_filter_add(next, tail, pred);
}

/// Every signature that occurs more than once is allowed.
pub open spec fn allows_repeated(seeds: Seq<(u64, u32, u32)>, allowed: Set<u64>) -> bool {
    forall|signature: u64|
        crate::candidates::signature_count(seeds, signature, seeds.len() as int) >= 2
            ==> #[trigger] allowed.contains(signature)
}

/// Two seeds of one signature count twice.
proof fn lemma_two_count(seeds: Seq<(u64, u32, u32)>, i: int, j: int, n: int)
    requires
        0 <= i < j < n <= seeds.len(),
        seeds[i].0 == seeds[j].0,
    ensures
        crate::candidates::signature_count(seeds, seeds[i].0, n) >= 2,
    decreases n,
{
    if j < n - 1 {
        lemma_two_count(seeds, i, j, n - 1);
    } else {
        lemma_one_count(seeds, i, n - 1);
    }
}

proof fn lemma_one_count(seeds: Seq<(u64, u32, u32)>, i: int, n: int)
    requires
        0 <= i < n <= seeds.len(),
    ensures
        crate::candidates::signature_count(seeds, seeds[i].0, n) >= 1,
    decreases n,
{
    lemma_signature_count(seeds, seeds[i].0, n - 1);
    if i < n - 1 {
        lemma_one_count(seeds, i, n - 1);
    }
}

/// The candidates of an allowed seed are the same among the allowed seeds.
proof fn lemma_allowed_row(
    seeds: Seq<(u64, u32, u32)>,
    allowed: Set<u64>,
    i: int,
    n: int,
    window: int,
    max_bucket: int,
)
    requires
        0 <= i < n <= seeds.len(),
        allowed.contains(seeds[i].0),
    ensures
        ({
            let keep = has_allowed(Some(allowed));
            crate::candidates::candidate_row(seeds, i, n, window, max_bucket) == crate::candidates::candidate_row(
                seeds.filter(keep),
                seeds.take(i).filter(keep).len() as int,
                seeds.take(n).filter(keep).len() as int,
                window,
                max_bucket,
            )
        }),
    decreases n,
{
    let keep = has_allowed(Some(allowed));
    let kept = seeds.filter(keep);
    let at = seeds.take(i).filter(keep).len() as int;
    lemma_filter_place(seeds, keep, i);
    if n == i + 1 {
        assert(seeds.take(n).filter(keep).len() == at + 1);
    } else {
        lemma_allowed_row(seeds, allowed, i, n - 1, window, max_bucket);
        lemma_filter_place(seeds, keep, n - 1);
        lemma_allowed_count(seeds, allowed, seeds[i].0);
        let end = seeds.take(n - 1).filter(keep).len() as int;
        lemma_filter_grows(seeds, keep, i + 1, n - 1);
        assert(at + 1 <= end);
        if keep(seeds[n - 1]) {
            assert(kept[end] == seeds[n - 1]);
            assert(kept[at] == seeds[i]);
            assert(crate::candidates::makes_candidate(seeds, i, n - 1, window, max_bucket) == crate::candidates::makes_candidate(
                kept,
                at,
                end,
                window,
                max_bucket,
            ));
        } else {
            assert(seeds[n - 1].0 != seeds[i].0);
        }
    }
}

/// Of a longer prefix, no fewer pass a filter.
proof fn lemma_filter_grows<A>(s: Seq<A>, pred: spec_fn(A) -> bool, i: int, n: int)
    requires
        0 <= i <= n <= s.len(),
    ensures
        s.take(i).filter(pred).len() <= s.take(n).filter(pred).len(),
    decreases n - i,
{
    if i < n {
        lemma_filter_place(s, pred, n - 1);
        lemma_filter_grows(s, pred, i, n - 1);
    }
}

/// A seed whose signature occurs once has no candidates.
proof fn lemma_single_row(
    seeds: Seq<(u64, u32, u32)>,
    i: int,
    n: int,
    window: int,
    max_bucket: int,
)
    requires
        0 <= i < n <= seeds.len(),
        crate::candidates::signature_count(seeds, seeds[i].0, seeds.len() as int) < 2,
    ensures
        crate::candidates::candidate_row(seeds, i, n, window, max_bucket) == Seq::<Candidate>::empty(),
    decreases n,
{
    if n > i + 1 {
        lemma_single_row(seeds, i, n - 1, window, max_bucket);
        if seeds[i].0 == seeds[n - 1].0 {
            lemma_two_count(seeds, i, n - 1, seeds.len() as int);
        }
    }
}

proof fn lemma_allowed_rows(
    seeds: Seq<(u64, u32, u32)>,
    allowed: Set<u64>,
    n: int,
    window: int,
    max_bucket: int,
)
    requires
        0 <= n <= seeds.len(),
        allows_repeated(seeds, allowed),
    ensures
        ({
            let keep = has_allowed(Some(allowed));
            crate::candidates::candidate_rows(seeds, n, window, max_bucket) == crate::candidates::candidate_rows(
                seeds.filter(keep),
                seeds.take(n).filter(keep).len() as int,
                window,
                max_bucket,
            )
        }),
    decreases n,
{
    let keep = has_allowed(Some(allowed));
    let kept = seeds.filter(keep);
    if n == 0 {
        crate::sort::lemma_filter_none(seeds.take(0), keep);
    } else {
        lemma_allowed_rows(seeds, allowed, n - 1, window, max_bucket);
        lemma_filter_place(seeds, keep, n - 1);
        let all = seeds.len() as int;
        assert(seeds.take(all) =~= seeds);
        if keep(seeds[n - 1]) {
            lemma_allowed_row(seeds, allowed, n - 1, all, window, max_bucket);
        } else {
            lemma_single_row(seeds, n - 1, all, window, max_bucket);
            assert(crate::candidates::candidate_rows(seeds, n, window, max_bucket) =~= crate::candidates::candidate_rows(
                seeds,
                n - 1,
                window,
                max_bucket,
            ));
        }
    }
}

/// Filtered detection reports what full detection reports when every window signature that occurs
/// more than once in the files is allowed: windows that occur once lead to no clone.
pub proof fn windows_that_occur_once_can_be_left_out(
    files: Seq<&SourceFile>,
    config: Config,
    allowed: Set<u64>,
)
    requires
        allows_repeated(
            crate::candidates::all_seeds(
                files,
                config.seed_window as int,
                config.parameterize_literals,
                None,
                files.len() as int,
            ),
            allowed,
        ),
    ensures
        crate::detect::detected(files, config, Some(allowed)) == crate::detect::detected(files, config, None),
{
    let window = config.seed_window as int;
    let keep = has_allowed(Some(allowed));
    let all = crate::candidates::all_seeds(
        files,
        window,
        config.parameterize_literals,
        None,
        files.len() as int,
    );
    let sorted = crate::sort::sorted_with(all, crate::candidates::by_seed());
    filtered_seeds_are_the_allowed_ones(
        files,
        window,
        config.parameterize_literals,
        Some(allowed),
        files.len() as int,
    );
    lemma_sorted_filter(all, keep, crate::candidates::by_seed());
    assert(allows_repeated(sorted, allowed)) by {
        assert forall|signature: u64|
            crate::candidates::signature_count(sorted, signature, sorted.len() as int)
                >= 2 implies #[trigger] allowed.contains(signature) by {
            lemma_sorted_count(all, signature);
        }
    }
    lemma_allowed_rows(sorted, allowed, sorted.len() as int, window, config.max_bucket as int);
    assert(sorted.take(sorted.len() as int) =~= sorted);
}

/// The pairs of windows that a detection looks at.
pub open spec fn candidates_from(
    files: Seq<&SourceFile>,
    config: Config,
    allowed: Option<Set<u64>>,
) -> Seq<Candidate> {
    let window = config.seed_window as int;
    let seeds = crate::sort::sorted_with(
        crate::candidates::all_seeds(
            files,
            window,
            config.parameterize_literals,
            allowed,
            files.len() as int,
        ),
        crate::candidates::by_seed(),
    );
    crate::candidates::candidate_rows(
        seeds,
        seeds.len() as int,
        window,
        config.max_bucket as int,
    )
}

/// The signature of a window of a file.
pub open spec fn window_signature(
    files: Seq<&SourceFile>,
    file: u32,
    start: u32,
    config: Config,
) -> u64 {
    crate::encode::signatures_of(
        files[file as int].hashes@,
        config.seed_window as int,
        config.parameterize_literals,
    )[start as int]
}

/// The first window of a candidate has an allowed signature.
pub open spec fn starts_allowed(
    files: Seq<&SourceFile>,
    config: Config,
    allowed: Set<u64>,
) -> spec_fn(Candidate) -> bool {
    |candidate: Candidate|
        allowed.contains(window_signature(files, candidate.file_a, candidate.start_a, config))
}

/// A seed stands for a window of a file and carries its signature.
spec fn is_signed(files: Seq<&SourceFile>, config: Config, seed: (u64, u32, u32)) -> bool {
    &&& seed.1 < files.len()
    &&& seed.2 < crate::encode::signatures_of(
        files[seed.1 as int].hashes@,
        config.seed_window as int,
        config.parameterize_literals,
    ).len()
    &&& seed.0 == window_signature(files, seed.1, seed.2, config)
}

proof fn lemma_file_seeds_signed(
    files: Seq<&SourceFile>,
    config: Config,
    file: int,
    n: int,
    k: int,
)
    requires
        crate::matching::files_wf(files),
        0 <= file < files.len() <= u32::MAX,
        n <= crate::encode::signatures_of(
            files[file].hashes@,
            config.seed_window as int,
            config.parameterize_literals,
        ).len(),
        0 <= k < crate::candidates::file_seeds(
            crate::encode::signatures_of(
                files[file].hashes@,
                config.seed_window as int,
                config.parameterize_literals,
            ),
            file,
            None,
            n,
        ).len(),
    ensures
        is_signed(
            files,
            config,
            crate::candidates::file_seeds(
                crate::encode::signatures_of(
                    files[file].hashes@,
                    config.seed_window as int,
                    config.parameterize_literals,
                ),
                file,
                None,
                n,
            )[k],
        ),
    decreases n,
{
    if n > 0 {
        let signatures = crate::encode::signatures_of(
            files[file].hashes@,
            config.seed_window as int,
            config.parameterize_literals,
        );
        let shorter = crate::candidates::file_seeds(signatures, file, None, n - 1);
        assert(files[file].wf());
        assert(signatures.len() <= u32::MAX);
        if k < shorter.len() {
            lemma_file_seeds_signed(files, config, file, n - 1, k);
        }
    }
}

proof fn lemma_all_seeds_signed(files: Seq<&SourceFile>, config: Config, n: int, k: int)
    requires
        crate::matching::files_wf(files),
        n <= files.len() <= u32::MAX,
        0 <= k < crate::candidates::all_seeds(
            files,
            config.seed_window as int,
            config.parameterize_literals,
            None,
            n,
        ).len(),
    ensures
        is_signed(
            files,
            config,
            crate::candidates::all_seeds(
                files,
                config.seed_window as int,
                config.parameterize_literals,
                None,
                n,
            )[k],
        ),
    decreases n,
{
    if n > 0 {
        let window = config.seed_window as int;
        let literals = config.parameterize_literals;
        let shorter = crate::candidates::all_seeds(files, window, literals, None, n - 1);
        let signatures = crate::encode::signatures_of(files[n - 1].hashes@, window, literals);
        if k < shorter.len() {
            lemma_all_seeds_signed(files, config, n - 1, k);
        } else {
            lemma_file_seeds_signed(
                files,
                config,
                n - 1,
                signatures.len() as int,
                k - shorter.len(),
            );
        }
    }
}

/// A candidate of a row pairs its seed with a later one of the same signature.
proof fn lemma_row_pairs(
    seeds: Seq<(u64, u32, u32)>,
    i: int,
    n: int,
    window: int,
    max_bucket: int,
    k: int,
) -> (j: int)
    requires
        0 <= k < crate::candidates::candidate_row(seeds, i, n, window, max_bucket).len(),
    ensures
        i < j < n,
        seeds[i].0 == seeds[j].0,
        crate::candidates::candidate_row(seeds, i, n, window, max_bucket)[k]
            == crate::candidates::candidate_of(seeds[i], seeds[j]),
    decreases n - i,
{
    if n > i + 1 {
        let row = crate::candidates::candidate_row(seeds, i, n - 1, window, max_bucket);
        if k < row.len() {
            lemma_row_pairs(seeds, i, n - 1, window, max_bucket, k)
        } else {
            n - 1
        }
    } else {
        i
    }
}

/// A candidate pairs two seeds of the same signature.
pub proof fn lemma_rows_pair(
    seeds: Seq<(u64, u32, u32)>,
    n: int,
    window: int,
    max_bucket: int,
    k: int,
) -> (pair: (int, int))
    requires
        0 <= n <= seeds.len(),
        0 <= k < crate::candidates::candidate_rows(seeds, n, window, max_bucket).len(),
    ensures
        0 <= pair.0 < pair.1 < seeds.len(),
        seeds[pair.0].0 == seeds[pair.1].0,
        crate::candidates::candidate_rows(seeds, n, window, max_bucket)[k]
            == crate::candidates::candidate_of(seeds[pair.0], seeds[pair.1]),
    decreases n,
{
    if n > 0 {
        let rows = crate::candidates::candidate_rows(seeds, n - 1, window, max_bucket);
        if k < rows.len() {
            lemma_rows_pair(seeds, n - 1, window, max_bucket, k)
        } else {
            let all = seeds.len() as int;
            let j = lemma_row_pairs(seeds, n - 1, all, window, max_bucket, k - rows.len());
            (n - 1, j)
        }
    } else {
        (0, 0)
    }
}

proof fn lemma_rows_filtered(
    files: Seq<&SourceFile>,
    config: Config,
    allowed: Set<u64>,
    seeds: Seq<(u64, u32, u32)>,
    n: int,
)
    requires
        0 <= n <= seeds.len(),
        forall|i: int| 0 <= i < seeds.len() ==> is_signed(files, config, #[trigger] seeds[i]),
    ensures
        ({
            let keep = has_allowed(Some(allowed));
            let window = config.seed_window as int;
            let max_bucket = config.max_bucket as int;
            crate::candidates::candidate_rows(
                seeds.filter(keep),
                seeds.take(n).filter(keep).len() as int,
                window,
                max_bucket,
            ) == crate::candidates::candidate_rows(seeds, n, window, max_bucket).filter(
                starts_allowed(files, config, allowed),
            )
        }),
    decreases n,
{
    let keep = has_allowed(Some(allowed));
    let kept = seeds.filter(keep);
    let pred = starts_allowed(files, config, allowed);
    let window = config.seed_window as int;
    let max_bucket = config.max_bucket as int;
    if n == 0 {
        crate::sort::lemma_filter_none(seeds.take(0), keep);
        crate::sort::lemma_filter_none(
            crate::candidates::candidate_rows(seeds, 0, window, max_bucket),
            pred,
        );
    } else {
        lemma_rows_filtered(files, config, allowed, seeds, n - 1);
        lemma_filter_place(seeds, keep, n - 1);
        let all = seeds.len() as int;
        assert(seeds.take(all) =~= seeds);
        let row = crate::candidates::candidate_row(seeds, n - 1, all, window, max_bucket);
        let rows = crate::candidates::candidate_rows(seeds, n - 1, window, max_bucket);
        crate::sort::lemma_filter_add(rows, row, pred);
        assert(is_signed(files, config, seeds[n - 1]));
        assert forall|k: int| 0 <= k < row.len() implies pred(#[trigger] row[k]) == keep(
            seeds[n - 1],
        ) by {
            let j = lemma_row_pairs(seeds, n - 1, all, window, max_bucket, k);
            assert(row[k] == crate::candidates::candidate_of(seeds[n - 1], seeds[j]));
        }
        if keep(seeds[n - 1]) {
            crate::sort::lemma_filter_all(row, pred);
            lemma_allowed_row(seeds, allowed, n - 1, all, window, max_bucket);
        } else {
            crate::sort::lemma_filter_none(row, pred);
            assert(rows.filter(pred) + row.filter(pred) =~= rows.filter(pred));
        }
    }
}

/// The sorted seeds of full detection are signed.
proof fn lemma_sorted_signed(files: Seq<&SourceFile>, config: Config, i: int)
    requires
        crate::matching::files_wf(files),
        files.len() <= u32::MAX,
        0 <= i < sorted_seeds(files, config).len(),
    ensures
        is_signed(files, config, sorted_seeds(files, config)[i]),
{
    let all = crate::candidates::all_seeds(
        files,
        config.seed_window as int,
        config.parameterize_literals,
        None,
        files.len() as int,
    );
    let sorted = sorted_seeds(files, config);
    crate::candidates::lemma_member_of_sorted(all, i);
    let j = choose|j: int| 0 <= j < all.len() && all[j] == sorted[i];
    lemma_all_seeds_signed(files, config, files.len() as int, j);
}

/// The seeds of full detection, sorted.
spec fn sorted_seeds(files: Seq<&SourceFile>, config: Config) -> Seq<(u64, u32, u32)> {
    crate::sort::sorted_with(
        crate::candidates::all_seeds(
            files,
            config.seed_window as int,
            config.parameterize_literals,
            None,
            files.len() as int,
        ),
        crate::candidates::by_seed(),
    )
}

/// Filtered detection looks at exactly those candidates of full detection whose windows have an
/// allowed signature, in the same order. What it does with them is what full detection does with
/// all.
pub proof fn filtered_candidates_are_the_allowed_ones(
    files: Seq<&SourceFile>,
    config: Config,
    allowed: Set<u64>,
)
    requires
        crate::matching::files_wf(files),
        files.len() <= u32::MAX,
    ensures
        candidates_from(files, config, Some(allowed)) == candidates_from(
            files,
            config,
            None,
        ).filter(starts_allowed(files, config, allowed)),
        crate::detect::candidate_groups(files, config, Some(allowed))
            == crate::candidates::pair_groups(candidates_from(files, config, Some(allowed))),
{
    let window = config.seed_window as int;
    let keep = has_allowed(Some(allowed));
    let key = crate::candidates::by_seed();
    let all = crate::candidates::all_seeds(
        files,
        window,
        config.parameterize_literals,
        None,
        files.len() as int,
    );
    let sorted = crate::sort::sorted_with(all, key);
    filtered_seeds_are_the_allowed_ones(
        files,
        window,
        config.parameterize_literals,
        Some(allowed),
        files.len() as int,
    );
    lemma_sorted_filter(all, keep, key);
    crate::sort::lemma_sorted_with(all, key);
    assert forall|i: int| 0 <= i < sorted.len() implies is_signed(
        files,
        config,
        #[trigger] sorted[i],
    ) by {
        lemma_sorted_signed(files, config, i);
    }
    lemma_rows_filtered(files, config, allowed, sorted, sorted.len() as int);
    assert(sorted.take(sorted.len() as int) =~= sorted);
}

/// The window at `at` of file `of` touches the span of the file.
pub open spec fn touches(of: u32, at: u32, window: int, file: int, start: int, end: int) -> bool {
    of == file && start < at + window && at < end
}

/// Every candidate of full detection with a window that touches a span is looked at where the
/// signatures of the span are allowed.
pub proof fn candidates_of_a_span_are_looked_at(
    files: Seq<&SourceFile>,
    config: Config,
    allowed: Set<u64>,
    file: int,
    start: int,
    end: int,
    candidate: Candidate,
)
    requires
        crate::matching::files_wf(files),
        files.len() <= u32::MAX,
        0 <= file < files.len(),
        0 <= start < end <= files[file].tokens@.len(),
        crate::detect::span_signatures(
            *files[file],
            start,
            end,
            config.seed_window as int,
            config.parameterize_literals,
        ).subset_of(allowed),
        candidates_from(files, config, None).contains(candidate),
        touches(
            candidate.file_a,
            candidate.start_a,
            config.seed_window as int,
            file,
            start,
            end,
        ) || touches(
            candidate.file_b,
            candidate.start_b,
            config.seed_window as int,
            file,
            start,
            end,
        ),
    ensures
        candidates_from(files, config, Some(allowed)).contains(candidate),
{
    let window = config.seed_window as int;
    let pred = starts_allowed(files, config, allowed);
    let full = candidates_from(files, config, None);
    let seeds = sorted_seeds(files, config);
    let span = crate::detect::span_signatures(
        *files[file],
        start,
        end,
        window,
        config.parameterize_literals,
    );
    let signatures = crate::encode::signatures_of(
        files[file].hashes@,
        window,
        config.parameterize_literals,
    );
    filtered_candidates_are_the_allowed_ones(files, config, allowed);
    let k = choose|k: int| 0 <= k < full.len() && full[k] == candidate;
    let (i, j) = lemma_rows_pair(seeds, seeds.len() as int, window, config.max_bucket as int, k);
    lemma_sorted_signed(files, config, i);
    lemma_sorted_signed(files, config, j);
    assert(candidate == crate::candidates::candidate_of(seeds[i], seeds[j]));
    if touches(candidate.file_a, candidate.start_a, window, file, start, end) {
        assert(signatures[candidate.start_a as int] == seeds[i].0);
        assert(span.contains(seeds[i].0));
    } else {
        assert(signatures[candidate.start_b as int] == seeds[j].0);
        assert(span.contains(seeds[j].0));
    }
    assert(pred(candidate));
    lemma_filter_place(full, pred, k);
    assert(full.filter(pred)[full.take(k).filter(pred).len() as int] == candidate);
}

/// Detection that starts from no window finds nothing.
pub proof fn no_windows_find_nothing(files: Seq<&SourceFile>, config: Config)
    ensures
        crate::detect::detected(files, config, Some(Set::empty())).len() == 0,
{
    let window = config.seed_window as int;
    let none = Some(Set::<u64>::empty());
    let key = crate::candidates::by_seed();
    filtered_seeds_are_the_allowed_ones(
        files,
        window,
        config.parameterize_literals,
        none,
        files.len() as int,
    );
    let all = crate::candidates::all_seeds(
        files,
        window,
        config.parameterize_literals,
        None,
        files.len() as int,
    );
    crate::sort::lemma_filter_none(all, has_allowed(none));
    let seeds = crate::sort::sorted_with(all.filter(has_allowed(none)), key);
    crate::sort::lemma_sorted_with(all.filter(has_allowed(none)), key);
    let candidates = candidates_from(files, config, none);
    crate::sort::lemma_sorted_with(candidates, crate::candidates::by_pair());
    let groups = crate::detect::candidate_groups(files, config, none);
    assert(groups.len() == 0);
    crate::cluster::no_matches_give_no_groups(files, config);
}

} // verus!
