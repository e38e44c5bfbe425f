//! What holds of every list of clone groups that is reported.
use vstd::prelude::*;

use crate::config::Config;
use crate::model::{CloneType, Occurrence, SourceFile};

verus! {

/// What holds of a reported group: every occurrence is a single unit of a file, all are clones of
/// each other, listed once each in ascending order, as many as asked for, each of the stated
/// token count and of enough lines. Their texts read alike where hashes tell them apart. The group
/// is not mere boilerplate where that is filtered. Its type is the one that its texts give, type 1
/// exactly if every two of them are the same token by token, and a wanted one.
pub open spec fn is_finding(
    files: Seq<&SourceFile>,
    group: (Seq<Occurrence>, int, CloneType),
    config: Config,
) -> bool {
    &&& crate::cluster::is_clone_class(files, group.0, config.parameterize_literals)
    &&& forall|a: int, b: int|
        0 <= a < b < group.0.len() ==> crate::cluster::occurrence_key(#[trigger] group.0[a])
            < crate::cluster::occurrence_key(#[trigger] group.0[b])
    &&& group.0.len() >= config.min_occurrences
    &&& forall|i: int| 0 <= i < group.0.len() ==> (#[trigger] group.0[i]).end - group.0[i].start == group.1
    &&& forall|i: int|
        0 <= i < group.0.len() ==> files[(#[trigger] group.0[i]).file as int].lines_of(group.0[i])
            >= config.min_lines
    &&& config.filter_boilerplate ==> !crate::cluster::all_boilerplate(files, group.0)
    &&& group.2 == crate::cluster::clone_type_of(files, group.0)
    &&& group.2 == CloneType::Type1 <==> crate::meaning::all_spelled_alike(files, group.0)
    &&& crate::meaning::are_hashed(files) && crate::meaning::are_told_apart(files)
        ==> crate::meaning::all_read_alike(files, group.0, config.parameterize_literals)
    &&& crate::cluster::type_wanted(config.types, group.2)
}

/// The first group is reported before the second: it has more tokens, or as many and its first
/// occurrence starts no later.
pub open spec fn ranks_before(
    a: (Seq<Occurrence>, int, CloneType),
    b: (Seq<Occurrence>, int, CloneType),
) -> bool {
    ||| a.1 > b.1
    ||| a.1 == b.1 && a.0[0].file < b.0[0].file
    ||| a.1 == b.1 && a.0[0].file == b.0[0].file && a.0[0].start <= b.0[0].start
}

/// The two groups have no occurrence in common.
pub open spec fn apart(
    a: (Seq<Occurrence>, int, CloneType),
    b: (Seq<Occurrence>, int, CloneType),
) -> bool {
    forall|occurrence: Occurrence|
        !(#[trigger] a.0.contains(occurrence) && b.0.contains(occurrence))
}

/// What holds of a whole report: every group is a finding, no two share an occurrence, they come
/// in order, and there are no more of them than the limit.
pub open spec fn are_findings(
    files: Seq<&SourceFile>,
    groups: Seq<(Seq<Occurrence>, int, CloneType)>,
    config: Config,
) -> bool {
    &&& forall|g: int| 0 <= g < groups.len() ==> is_finding(files, #[trigger] groups[g], config)
    &&& forall|g: int, h: int|
        0 <= g < h < groups.len() ==> apart(#[trigger] groups[g], #[trigger] groups[h])
    &&& forall|g: int, h: int|
        0 <= g < h < groups.len() ==> ranks_before(#[trigger] groups[g], #[trigger] groups[h])
    &&& config.max_groups matches Some(limit) ==> groups.len() <= limit
}

/// The positions of the reported ones among the first `n` groups.
spec fn reported_positions(
    files: Seq<&SourceFile>,
    groups: Seq<Seq<Occurrence>>,
    n: int,
    config: Config,
) -> Seq<int>
    decreases n,
{
    if n <= 0 {
        Seq::empty()
    } else {
        let positions = reported_positions(files, groups, n - 1, config);
        if crate::cluster::is_reported(files, groups[n - 1], config) {
            positions.push(n - 1)
        } else {
            positions
        }
    }
}

proof fn lemma_reported_positions(
    files: Seq<&SourceFile>,
    groups: Seq<Seq<Occurrence>>,
    n: int,
    config: Config,
)
    requires
        0 <= n <= groups.len(),
    ensures
        ({
            let positions = reported_positions(files, groups, n, config);
            let reported = crate::cluster::reported_groups(files, groups, n, config);
            &&& positions.len() == reported.len()
            &&& forall|k: int| 0 <= k < positions.len() ==> 0 <= #[trigger] positions[k] < n
            &&& forall|k: int|
                0 <= k < positions.len() ==> crate::cluster::is_reported(
                    files,
                    groups[#[trigger] positions[k]],
                    config,
                )
            &&& forall|k: int|
                0 <= k < positions.len() ==> reported[k] == crate::cluster::described(
                    files,
                    groups[#[trigger] positions[k]],
                )
            &&& forall|k: int, l: int|
                0 <= k < l < positions.len() ==> #[trigger] positions[k] < #[trigger] positions[l]
        }),
    decreases n,
{
    if n > 0 {
        lemma_reported_positions(files, groups, n - 1, config);
    }
}

proof fn lemma_least_bounds(numbers: Seq<int>, i: int)
    requires
        0 <= i < numbers.len(),
    ensures
        crate::cluster::least(numbers) <= numbers[i],
    decreases numbers.len(),
{
    if numbers.len() > 1 {
        if i < numbers.len() - 1 {
            lemma_least_bounds(numbers.drop_last(), i);
        }
    }
}

/// A reported group of clones that strictly ascends is a finding.
proof fn lemma_described_is_finding(
    files: Seq<&SourceFile>,
    group: Seq<Occurrence>,
    config: Config,
)
    requires
        crate::matching::files_wf(files),
        crate::cluster::is_clone_class(files, group, config.parameterize_literals),
        crate::cluster::is_reported(files, group, config),
        forall|a: int, b: int|
            0 <= a < b < group.len() ==> crate::cluster::occurrence_key(#[trigger] group[a])
                < crate::cluster::occurrence_key(#[trigger] group[b]),
    ensures
        is_finding(files, crate::cluster::described(files, group), config),
        0 < crate::cluster::described(files, group).1 < u32::MAX,
{
    crate::cluster::lemma_clone_class_lengths(files, group, config.parameterize_literals);
    crate::meaning::clone_types_tell_texts(files, group);
    if crate::meaning::are_hashed(files) && crate::meaning::are_told_apart(files) {
        crate::meaning::clones_read_alike(files, group, config.parameterize_literals);
    }
    let counts = crate::cluster::line_counts(files, group);
    assert forall|i: int| 0 <= i < group.len() implies files[(#[trigger] group[i]).file as int].lines_of(
        group[i],
    ) >= config.min_lines by {
        lemma_least_bounds(counts, i);
    }
}

proof fn lemma_key_ranks(
    a: (Seq<Occurrence>, int, CloneType),
    b: (Seq<Occurrence>, int, CloneType),
)
    requires
        0 < a.1 < u32::MAX,
        0 < b.1 < u32::MAX,
        crate::cluster::group_key(a) <= crate::cluster::group_key(b),
    ensures
        ranks_before(a, b),
{
}

/// Joining groups of clones, describing the ones to report, ordering them and cutting the list to
/// the limit gives a report in which every group is a finding.
pub proof fn reported_groups_are_findings(
    files: Seq<&SourceFile>,
    raw: Seq<Seq<Occurrence>>,
    config: Config,
)
    requires
        crate::matching::files_wf(files),
        crate::cluster::all_clone_classes(files, raw, config.parameterize_literals),
    ensures
        are_findings(files, crate::cluster::report_of(files, raw, config), config),
{
    let joined = crate::cluster::joined_groups(raw);
    let n = joined.len() as int;
    let reported = crate::cluster::reported_groups(files, joined, n, config);
    let positions = reported_positions(files, joined, n, config);
    lemma_reported_positions(files, joined, n, config);
    crate::cluster::joined_groups_are_clone_classes(files, raw, config.parameterize_literals);
    let key = crate::cluster::by_group();
    let keys = reported.map_values(key);
    crate::sort::lemma_stable_order(keys);
    crate::sort::lemma_sorted_with(reported, key);
    let order = crate::sort::stable_order(keys);
    let sorted = crate::sort::sorted_with(reported, key);
    let report = crate::cluster::report_of(files, raw, config);
    assert forall|g: int| 0 <= g < sorted.len() implies is_finding(
        files,
        #[trigger] sorted[g],
        config,
    ) && 0 < sorted[g].1 < u32::MAX && sorted[g] == crate::cluster::described(
        files,
        joined[positions[order[g]]],
    ) by {
        let at = positions[order[g]];
        assert(sorted[g] == reported[order[g]]);
        assert(crate::cluster::is_clone_class(files, joined[at], config.parameterize_literals));
        let classes = crate::partition::classes(
            crate::cluster::sharing_labels(raw),
            raw.len() as int,
        );
        assert(joined[at] == crate::cluster::united(raw, classes[at]));
        crate::cluster::lemma_united_ascends(raw, classes[at]);
        lemma_described_is_finding(files, joined[at], config);
    }
    assert forall|g: int, h: int| 0 <= g < h < report.len() implies apart(
        #[trigger] report[g],
        #[trigger] report[h],
    ) by {
        assert(report[g] == sorted[g] && report[h] == sorted[h]);
        assert(crate::sort::before(keys, order[g], order[h]));
        let c = positions[order[g]];
        let d = positions[order[h]];
        assert(c != d) by {
            if order[g] < order[h] {
                assert(positions[order[g]] < positions[order[h]]);
            } else {
                assert(positions[order[h]] < positions[order[g]]);
            }
        }
        assert forall|occurrence: Occurrence| !(#[trigger] report[g].0.contains(occurrence)
            && report[h].0.contains(occurrence)) by {
            if report[g].0.contains(occurrence) && report[h].0.contains(occurrence) {
                crate::cluster::joined_groups_are_disjoint(raw, c, d, occurrence);
            }
        }
    }
    assert forall|g: int, h: int| 0 <= g < h < report.len() implies ranks_before(
        #[trigger] report[g],
        #[trigger] report[h],
    ) by {
        assert(report[g] == sorted[g] && report[h] == sorted[h]);
        assert(key(sorted[g]) <= key(sorted[h]));
        lemma_key_ranks(sorted[g], sorted[h]);
    }
    assert forall|g: int| 0 <= g < report.len() implies is_finding(
        files,
        #[trigger] report[g],
        config,
    ) by {
        assert(report[g] == sorted[g]);
    }
}

/// No two occurrences of a group overlap: in a file whose units nest, as they do in a syntax tree,
/// each one ends before the next one starts.
pub proof fn occurrences_do_not_overlap(
    files: Seq<&SourceFile>,
    groups: Seq<(Seq<Occurrence>, int, CloneType)>,
    config: Config,
    g: int,
    a: int,
    b: int,
)
    requires
        are_findings(files, groups, config),
        0 <= g < groups.len(),
        0 <= a < b < groups[g].0.len(),
        groups[g].0[a].file == groups[g].0[b].file,
        crate::spans::units_nest(files[groups[g].0[a].file as int].tokens@),
    ensures
        groups[g].0[a].end <= groups[g].0[b].start,
{
    let group = groups[g];
    assert(is_finding(files, group, config));
    let x = group.0[a];
    let y = group.0[b];
    let tokens = files[x.file as int].tokens@;
    crate::cluster::lemma_occurrence_key(x, y);
    assert(x.end - x.start == group.1 && y.end - y.start == group.1);
    assert(crate::spans::is_single_unit(tokens, x.start as int, x.end as int));
    assert(crate::spans::is_single_unit(tokens, y.start as int, y.end as int));
    assert(crate::spans::starts_unit(tokens[x.start as int], x.end as int));
    assert(crate::spans::starts_unit(tokens[y.start as int], y.end as int));
}

/// No two groups of a report rank alike: the earlier one has more tokens, or as many and its first
/// occurrence comes first.
pub proof fn groups_rank_strictly(
    files: Seq<&SourceFile>,
    groups: Seq<(Seq<Occurrence>, int, CloneType)>,
    config: Config,
    g: int,
    h: int,
)
    requires
        are_findings(files, groups, config),
        0 <= g < h < groups.len(),
    ensures
        ({
            let a = groups[g];
            let b = groups[h];
            ||| a.1 > b.1
            ||| a.1 == b.1 && a.0[0].file < b.0[0].file
            ||| a.1 == b.1 && a.0[0].file == b.0[0].file && a.0[0].start < b.0[0].start
        }),
{
    let a = groups[g];
    let b = groups[h];
    assert(is_finding(files, a, config));
    assert(is_finding(files, b, config));
    assert(ranks_before(a, b));
    assert(apart(a, b));
    let x = a.0[0];
    let y = b.0[0];
    if a.1 == b.1 && x.file == y.file && x.start == y.start {
        assert(x.end - x.start == a.1 && y.end - y.start == b.1);
        assert(x == y);
        assert(a.0.contains(x) && b.0.contains(x));
    }
}

/// The settings without a choice of clone types and without a limit on the groups.
pub open spec fn unlimited(config: Config) -> Config {
    Config { types: None, max_groups: None, ..config }
}

/// A group is of a wanted type.
pub open spec fn of_wanted_type(types: Option<Vec<CloneType>>) -> spec_fn(
    (Seq<Occurrence>, int, CloneType),
) -> bool {
    |group: (Seq<Occurrence>, int, CloneType)| crate::cluster::type_wanted(types, group.2)
}

proof fn lemma_reported_of_types(
    files: Seq<&SourceFile>,
    groups: Seq<Seq<Occurrence>>,
    n: int,
    config: Config,
)
    requires
        n <= groups.len(),
    ensures
        crate::cluster::reported_groups(files, groups, n, config)
            == crate::cluster::reported_groups(files, groups, n, unlimited(config)).filter(
            of_wanted_type(config.types),
        ),
    decreases n,
{
    let pred = of_wanted_type(config.types);
    if n <= 0 {
        crate::sort::lemma_filter_none(
            crate::cluster::reported_groups(files, groups, n, unlimited(config)),
            pred,
        );
    } else {
        lemma_reported_of_types(files, groups, n - 1, config);
        crate::sort::lemma_filter_push(
            crate::cluster::reported_groups(files, groups, n - 1, unlimited(config)),
            crate::cluster::described(files, groups[n - 1]),
            pred,
        );
    }
}

/// Choosing clone types and limiting the number of groups only selects from the report without
/// them: first the groups of a wanted type, in their order, then as many of those as the limit
/// leaves.
pub proof fn types_are_chosen_before_the_limit(
    files: Seq<&SourceFile>,
    matches: Seq<(Occurrence, Occurrence)>,
    config: Config,
)
    ensures
        crate::cluster::clusters_of(files, matches, config) == crate::cluster::limited(
            crate::cluster::clusters_of(files, matches, unlimited(config)).filter(
                of_wanted_type(config.types),
            ),
            config.max_groups,
        ),
{
    let raw = crate::cluster::raw_groups(
        files,
        matches,
        config.min_occurrences as int,
        config.parameterize_literals,
    );
    let groups = crate::cluster::joined_groups(raw);
    let n = groups.len() as int;
    lemma_reported_of_types(files, groups, n, config);
    crate::filtering::lemma_sorted_filter(
        crate::cluster::reported_groups(files, groups, n, unlimited(config)),
        of_wanted_type(config.types),
        crate::cluster::by_group(),
    );
}

proof fn lemma_same_matches(
    files: Seq<&SourceFile>,
    groups: Seq<Seq<crate::matching::Candidate>>,
    n: int,
    config: Config,
    other: Config,
)
    requires
        config.seed_window == other.seed_window,
        config.parameterize_literals == other.parameterize_literals,
        config.min_lines == other.min_lines,
    ensures
        crate::detect::all_matches(files, groups, n, config) == crate::detect::all_matches(
            files,
            groups,
            n,
            other,
        ),
    decreases n,
{
    if n > 0 {
        lemma_same_matches(files, groups, n - 1, config, other);
    }
}

/// The same of a whole detection. So a limit gives the first groups of the report without one.
pub proof fn detection_settings_only_select(
    files: Seq<&SourceFile>,
    config: Config,
    allowed: Option<Set<u64>>,
)
    ensures
        crate::detect::detected(files, config, allowed) == crate::cluster::limited(
            crate::detect::detected(files, unlimited(config), allowed).filter(
                of_wanted_type(config.types),
            ),
            config.max_groups,
        ),
        crate::detect::detected(files, config, allowed) == crate::cluster::limited(
            crate::detect::detected(files, (Config { max_groups: None, ..config }), allowed),
            config.max_groups,
        ),
{
    let bare = unlimited(config);
    let endless = Config { max_groups: None, ..config };
    let groups = crate::detect::candidate_groups(files, config, allowed);
    let n = groups.len() as int;
    assert(groups == crate::detect::candidate_groups(files, bare, allowed));
    assert(groups == crate::detect::candidate_groups(files, endless, allowed));
    lemma_same_matches(files, groups, n, config, bare);
    lemma_same_matches(files, groups, n, config, endless);
    let matches = crate::detect::all_matches(files, groups, n, config);
    types_are_chosen_before_the_limit(files, matches, config);
    types_are_chosen_before_the_limit(files, matches, endless);
    assert(unlimited(endless) == bare);
}

/// The settings without a limit on the groups that keep boilerplate.
pub open spec fn unsifted(config: Config) -> Config {
    Config { filter_boilerplate: false, max_groups: None, ..config }
}

/// Not every occurrence of a group is boilerplate.
pub open spec fn has_substance(files: Seq<&SourceFile>) -> spec_fn(
    (Seq<Occurrence>, int, CloneType),
) -> bool {
    |group: (Seq<Occurrence>, int, CloneType)| !crate::cluster::all_boilerplate(files, group.0)
}

proof fn lemma_reported_sifted(
    files: Seq<&SourceFile>,
    groups: Seq<Seq<Occurrence>>,
    n: int,
    config: Config,
)
    requires
        n <= groups.len(),
        config.filter_boilerplate,
    ensures
        crate::cluster::reported_groups(files, groups, n, config)
            == crate::cluster::reported_groups(files, groups, n, unsifted(config)).filter(
            has_substance(files),
        ),
    decreases n,
{
    let pred = has_substance(files);
    if n <= 0 {
        crate::sort::lemma_filter_none(
            crate::cluster::reported_groups(files, groups, n, unsifted(config)),
            pred,
        );
    } else {
        lemma_reported_sifted(files, groups, n - 1, config);
        crate::sort::lemma_filter_push(
            crate::cluster::reported_groups(files, groups, n - 1, unsifted(config)),
            crate::cluster::described(files, groups[n - 1]),
            pred,
        );
    }
}

/// Filtering boilerplate only leaves out of the report the groups that are boilerplate throughout.
/// The limit counts what is left.
pub proof fn boilerplate_is_only_left_out(
    files: Seq<&SourceFile>,
    config: Config,
    allowed: Option<Set<u64>>,
)
    requires
        config.filter_boilerplate,
    ensures
        crate::detect::detected(files, config, allowed) == crate::cluster::limited(
            crate::detect::detected(files, unsifted(config), allowed).filter(
                has_substance(files),
            ),
            config.max_groups,
        ),
{
    let bare = unsifted(config);
    let candidates = crate::detect::candidate_groups(files, config, allowed);
    assert(candidates == crate::detect::candidate_groups(files, bare, allowed));
    lemma_same_matches(files, candidates, candidates.len() as int, config, bare);
    let raw = crate::cluster::raw_groups(
        files,
        crate::detect::all_matches(files, candidates, candidates.len() as int, config),
        config.min_occurrences as int,
        config.parameterize_literals,
    );
    let groups = crate::cluster::joined_groups(raw);
    let n = groups.len() as int;
    lemma_reported_sifted(files, groups, n, config);
    crate::filtering::lemma_sorted_filter(
        crate::cluster::reported_groups(files, groups, n, bare),
        has_substance(files),
        crate::cluster::by_group(),
    );
}

} // verus!
