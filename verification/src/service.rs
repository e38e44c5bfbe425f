//! What requests and settings come to, said of what they give.
use vstd::prelude::*;

use crate::config::{Config, ConfigError, ConfigProblem, FileConfig};
use crate::index::SourceIndex;
use crate::language::LanguageId;
use crate::model::{CloneType, FileTime, Occurrence, SourceFile};
use crate::server::{CachedIndex, RegionTarget, RequestError};

verus! {

/// What a request gives stands, and everything else stays as it is set. The types are those of the
/// request in either case.
pub proof fn requests_override_what_they_give(
    config: Config,
    min_lines: Option<usize>,
    min_occurrences: Option<usize>,
    max_groups: Option<usize>,
    parameterize_literals: Option<bool>,
    types: Option<Vec<CloneType>>,
)
    ensures
        ({
            let settings = crate::server::request_config(
                config,
                min_lines,
                min_occurrences,
                max_groups,
                parameterize_literals,
                types,
            );
            &&& min_lines matches Some(value) ==> settings.min_lines == value
            &&& min_lines is None ==> settings.min_lines == config.min_lines
            &&& min_occurrences matches Some(value) ==> settings.min_occurrences == value
            &&& min_occurrences is None ==> settings.min_occurrences == config.min_occurrences
            &&& max_groups is Some ==> settings.max_groups == max_groups
            &&& max_groups is None ==> settings.max_groups == config.max_groups
            &&& parameterize_literals matches Some(value) ==> settings.parameterize_literals
                == value
            &&& parameterize_literals is None ==> settings.parameterize_literals
                == config.parameterize_literals
            &&& settings.types == types
            &&& settings.max_bucket == config.max_bucket
            &&& settings.seed_window == config.seed_window
            &&& settings.languages == config.languages
            &&& settings.no_ignore == config.no_ignore
            &&& settings.include_hidden == config.include_hidden
            &&& settings.max_file_bytes == config.max_file_bytes
            &&& settings.filter_boilerplate == config.filter_boilerplate
            &&& settings.cache_location == config.cache_location
        }),
{
}

/// Only zero is refused as a limit, and the limit that is refused is named; of two, the number of
/// lines.
pub proof fn zero_limits_are_refused(
    min_lines: Option<usize>,
    min_occurrences: Option<usize>,
    error: ConfigError,
)
    requires
        crate::server::limits_refused(min_lines, min_occurrences, error),
    ensures
        min_lines == Some(0usize) || min_occurrences == Some(0usize),
        error matches ConfigError::InvalidParameter { key, message } && message@
            == "must be at least 1"@ && key@ == (if min_lines == Some(0usize) {
            "min_lines"@
        } else {
            "min_occurrences"@
        }),
{
}

/// The clones that touch a span are the detected groups with an occurrence in that file that has a
/// token in common with the span.
pub proof fn touching_clones_share_a_token(
    files: Seq<&SourceFile>,
    file: int,
    start: int,
    end: int,
    config: Config,
    group: (Seq<Occurrence>, int, CloneType),
)
    ensures
        crate::server::clones_touching(files, file, start, end, config).contains(group)
            <==> crate::detect::detected(
            files,
            config,
            Some(
                crate::detect::span_signatures(
                    *files[file],
                    start,
                    end,
                    config.seed_window as int,
                    config.parameterize_literals,
                ),
            ),
        ).contains(group) && exists|i: int|
            0 <= i < group.0.len() && (#[trigger] group.0[i]).file == file && group.0[i].start < end
                && start < group.0[i].end,
{
    let found = crate::detect::detected(
        files,
        config,
        Some(
            crate::detect::span_signatures(
                *files[file],
                start,
                end,
                config.seed_window as int,
                config.parameterize_literals,
            ),
        ),
    );
    let touches = crate::server::touches(file, start, end);
    let kept = found.filter(touches);
    if kept.contains(group) {
        let g = choose|g: int| 0 <= g < kept.len() && kept[g] == group;
        found.lemma_filter_pred(touches, g);
        found.lemma_filter_contains_rev(touches, group);
    }
    if found.contains(group) && touches(group) {
        let g = choose|g: int| 0 <= g < found.len() && found[g] == group;
        found.lemma_filter_contains(touches, g);
    }
}

/// No file of the index has the path.
pub open spec fn is_unknown(files: Seq<SourceFile>, path: Seq<char>) -> bool {
    forall|f: int| 0 <= f < files.len() ==> (#[trigger] files[f]).path@ != path
}

proof fn lemma_position(files: Seq<SourceFile>, path: Seq<char>, from: int)
    requires
        0 <= from <= files.len(),
    ensures
        match crate::index::first_of(crate::index::paths_of(files), path, from) {
            Some(at) => from <= at < files.len() && files[at].path@ == path && forall|f: int|
                from <= f < at ==> (#[trigger] files[f]).path@ != path,
            None => forall|f: int| from <= f < files.len() ==> (#[trigger] files[f]).path@ != path,
        },
    decreases files.len() - from,
{
    if from < files.len() {
        if files[from].path@ != path {
            lemma_position(files, path, from + 1);
        }
    }
}

/// What a request about lines of a file leads to: lines count from 1 and do not end before they
/// begin, the file lies under the root, and it is in the index, or else of an enabled language.
pub proof fn region_requests_lead_to_their_file(
    index: &SourceIndex,
    config: Config,
    start_line: u32,
    end_line: u32,
    path: &str,
)
    requires
        index.content().len() <= usize::MAX,
    ensures
        ({
            let target = crate::server::region_target_of(
                index,
                config,
                start_line,
                end_line,
                Some(path),
            );
            let lies_under = crate::paths::relative_to(path@, index.root_path()) is Some;
            let language = crate::language::path_language(path@);
            &&& start_line == 0 <==> target == Err::<RegionTarget, RequestError>(
                RequestError::StartLine,
            )
            &&& 0 < start_line && end_line < start_line <==> target == Err::<
                RegionTarget,
                RequestError,
            >(RequestError::EndLine { start_line, end_line })
            &&& 0 < start_line <= end_line && !lies_under <==> target == Err::<
                RegionTarget,
                RequestError,
            >(RequestError::Unresolved)
            &&& 0 < start_line <= end_line && lies_under ==> {
                &&& is_unknown(index.content(), path@) && language is None ==> target == Err::<
                    RegionTarget,
                    RequestError,
                >(RequestError::Unsupported)
                &&& is_unknown(index.content(), path@) && language is Some
                    && config.languages@.contains(language->0) ==> target == Ok::<
                    RegionTarget,
                    RequestError,
                >(RegionTarget::Unindexed(language->0))
                &&& is_unknown(index.content(), path@) && language is Some
                    && !config.languages@.contains(language->0) ==> target == Err::<
                    RegionTarget,
                    RequestError,
                >(RequestError::Disabled(language->0))
                &&& !is_unknown(index.content(), path@) ==> (target matches Ok(
                    RegionTarget::Indexed(at),
                ) && at < index.content().len() && index.content()[at as int].path@ == path@)
            }
            &&& 0 < start_line <= end_line ==> crate::server::region_target_of(
                index,
                config,
                start_line,
                end_line,
                None,
            ) == Err::<RegionTarget, RequestError>(RequestError::Unresolved)
        }),
{
    lemma_position(index.content(), path@, 0);
}

proof fn lemma_kept_position<T>(indexes: Seq<CachedIndex<T>>, root: Seq<char>, from: int)
    requires
        0 <= from <= indexes.len(),
    ensures
        match crate::server::index_of(indexes, root, from) {
            Some(at) => from <= at < indexes.len() && indexes[at].root@ == root && forall|i: int|
                from <= i < at ==> (#[trigger] indexes[i]).root@ != root,
            None => forall|i: int|
                from <= i < indexes.len() ==> (#[trigger] indexes[i]).root@ != root,
        },
    decreases indexes.len() - from,
{
    if from < indexes.len() {
        if indexes[from].root@ != root {
            lemma_kept_position(indexes, root, from + 1);
        }
    }
}

proof fn lemma_least_recent<T>(indexes: Seq<CachedIndex<T>>, n: int)
    requires
        1 <= n <= indexes.len(),
    ensures
        ({
            let oldest = crate::server::least_recent(indexes, n);
            &&& 0 <= oldest < n
            &&& forall|i: int|
                0 <= i < oldest ==> indexes[oldest].last_used < (#[trigger] indexes[i]).last_used
            &&& forall|i: int|
                oldest <= i < n ==> indexes[oldest].last_used <= (#[trigger] indexes[i]).last_used
        }),
    decreases n,
{
    if n > 1 {
        lemma_least_recent(indexes, n - 1);
    }
}

/// Room is made only for a directory that has no index among eight: then the first of those that
/// were asked for longest ago goes, and the others stay in order.
pub proof fn room_is_made_by_the_least_recent<T>(
    indexes: Seq<CachedIndex<T>>,
    root: Seq<char>,
    oldest: int,
)
    requires
        0 <= oldest < indexes.len(),
        forall|i: int|
            0 <= i < oldest ==> indexes[oldest].last_used < (#[trigger] indexes[i]).last_used,
        forall|i: int|
            oldest <= i < indexes.len() ==> indexes[oldest].last_used <= (
            #[trigger] indexes[i]).last_used,
    ensures
        ({
            let is_there = exists|i: int|
                0 <= i < indexes.len() && (#[trigger] indexes[i]).root@ == root;
            let kept = crate::server::with_room(indexes, root);
            &&& indexes.len() < 8 || is_there ==> kept == indexes
            &&& indexes.len() >= 8 && !is_there ==> kept == indexes.remove(oldest)
        }),
{
    lemma_kept_position(indexes, root, 0);
    let n = indexes.len() as int;
    lemma_least_recent(indexes, n);
    let found = crate::server::least_recent(indexes, n);
    if found < oldest {
        assert(indexes[oldest].last_used < indexes[found].last_used);
        assert(indexes[found].last_used <= indexes[oldest].last_used);
    } else if oldest < found {
        assert(indexes[found].last_used < indexes[oldest].last_used);
        assert(indexes[oldest].last_used <= indexes[found].last_used);
    }
}

/// The index of a directory is the first one that is kept for it.
pub proof fn indexes_are_found_by_their_directory<T>(indexes: Seq<CachedIndex<T>>, root: Seq<char>)
    ensures
        crate::server::index_of(indexes, root, 0) is None <==> forall|i: int|
            0 <= i < indexes.len() ==> (#[trigger] indexes[i]).root@ != root,
        forall|at: int|
            0 <= at < indexes.len() && (#[trigger] indexes[at]).root@ == root && (forall|i: int|
                0 <= i < at ==> (#[trigger] indexes[i]).root@ != root)
                ==> crate::server::index_of(indexes, root, 0) == Some(at),
{
    lemma_kept_position(indexes, root, 0);
}

/// Configuration files are the same as before exactly if there are as many, and each has the path
/// and the time that the one in its place had.
pub proof fn sources_are_compared_one_by_one(
    a: Seq<(String, Option<FileTime>)>,
    b: Seq<(String, Option<FileTime>)>,
)
    ensures
        crate::server::stamps_of(a) == crate::server::stamps_of(b) <==> a.len() == b.len()
            && forall|i: int|
            0 <= i < a.len() ==> (#[trigger] a[i]).0@ == b[i].0@ && a[i].1 == b[i].1,
{
    let x = crate::server::stamps_of(a);
    let y = crate::server::stamps_of(b);
    if x == y {
        assert forall|i: int| 0 <= i < a.len() implies (#[trigger] a[i]).0@ == b[i].0@ && a[i].1
            == b[i].1 by {
            assert(x[i] == y[i]);
        }
    } else if a.len() == b.len() && forall|i: int|
        0 <= i < a.len() ==> (#[trigger] a[i]).0@ == b[i].0@ && a[i].1 == b[i].1 {
        assert forall|i: int| 0 <= i < x.len() implies x[i] == y[i] by {
            assert(a[i].0@ == b[i].0@);
        }
        assert(x =~= y);
    }
}

/// What a configuration file gives stands, and everything else stays as it was.
pub proof fn files_override_what_they_give(config: Config, file: FileConfig, result: Config)
    requires
        crate::config::is_overlay(config, file, result),
    ensures
        file.min_lines matches Some(value) ==> result.min_lines == value,
        file.min_lines is None ==> result.min_lines == config.min_lines,
        file.min_occurrences matches Some(value) ==> result.min_occurrences == value,
        file.min_occurrences is None ==> result.min_occurrences == config.min_occurrences,
        file.max_bucket matches Some(value) ==> result.max_bucket == value,
        file.max_bucket is None ==> result.max_bucket == config.max_bucket,
        file.seed_window matches Some(value) ==> result.seed_window == value,
        file.seed_window is None ==> result.seed_window == config.seed_window,
        file.max_groups is Some ==> result.max_groups == file.max_groups,
        file.max_groups is None ==> result.max_groups == config.max_groups,
        file.parameterize_literals matches Some(value) ==> result.parameterize_literals == value,
        file.parameterize_literals is None ==> result.parameterize_literals
            == config.parameterize_literals,
        file.no_ignore matches Some(value) ==> result.no_ignore == value,
        file.no_ignore is None ==> result.no_ignore == config.no_ignore,
        file.include_hidden matches Some(value) ==> result.include_hidden == value,
        file.include_hidden is None ==> result.include_hidden == config.include_hidden,
        file.max_file_bytes matches Some(value) ==> result.max_file_bytes == value,
        file.max_file_bytes is None ==> result.max_file_bytes == config.max_file_bytes,
        file.filter_boilerplate matches Some(value) ==> result.filter_boilerplate == value,
        file.filter_boilerplate is None ==> result.filter_boilerplate == config.filter_boilerplate,
        file.languages is None ==> result.languages@ == config.languages@,
        file.languages matches Some(names) ==> result.languages@.len() == names@.len(),
        file.languages matches Some(names) ==> forall|i: int|
            0 <= i < names@.len() && knows_language(names@[i]@) ==> Some(
                #[trigger] result.languages@[i],
            ) == crate::language::name_language(crate::text::ascii_lowercase(names@[i]@)),
        file.cache_location is None ==> result.cache_location == config.cache_location,
        file.cache_location matches Some(name) ==> name@ == "project"@ ==> result.cache_location
            == crate::config::CacheLocation::Project,
        file.cache_location matches Some(name) ==> name@ == "user-cache"@ ==> result.cache_location
            == crate::config::CacheLocation::UserCache,
        result.types == config.types,
{
    reveal_strlit("project");
    reveal_strlit("user-cache");
    assert("project"@.len() != "user-cache"@.len());
}

/// The name is that of a language, in any case of its letters.
pub open spec fn knows_language(name: Seq<char>) -> bool {
    crate::language::name_language(crate::text::ascii_lowercase(name)) is Some
}

proof fn lemma_first_unknown(names: Seq<String>, from: int)
    requires
        0 <= from <= names.len(),
    ensures
        match crate::config::first_unknown(names, from) {
            Some(at) => from <= at < names.len() && !knows_language(names[at]@) && forall|i: int|
                from <= i < at ==> knows_language((#[trigger] names[i])@),
            None => forall|i: int|
                from <= i < names.len() ==> knows_language((#[trigger] names[i])@),
        },
    decreases names.len() - from,
{
    if from < names.len() {
        if knows_language(names[from]@) {
            lemma_first_unknown(names, from + 1);
        }
    }
}

/// A configuration file is accepted exactly if it names only languages and places that there are,
/// and the limits that come of it are positive, the size of files below four gigabytes.
pub proof fn files_are_accepted_for_what_they_give(config: Config, file: FileConfig, result: Config)
    requires
        crate::config::is_overlay(config, file, result),
    ensures
        crate::config::config_problem(config, file) is None <==> {
            &&& file.languages matches Some(names) ==> forall|i: int|
                0 <= i < names@.len() ==> knows_language((#[trigger] names@[i])@)
            &&& file.cache_location matches Some(name) ==> name@ == "project"@ || name@
                == "user-cache"@
            &&& result.min_lines != 0 && result.min_occurrences != 0 && result.max_bucket != 0
            &&& result.seed_window != 0
            &&& 0 < result.max_file_bytes < 0x1_0000_0000
        },
{
    if let Some(names) = file.languages {
        lemma_first_unknown(names@, 0);
    }
    files_override_what_they_give(config, file, result);
}

/// The settings without any configuration: clones of seven lines, twice, in all six languages,
/// files of up to two mebibytes, and no declarations.
pub proof fn defaults_are_these(config: Config)
    requires
        crate::config::is_default(config),
    ensures
        config.min_lines == 7,
        config.min_occurrences == 2,
        config.max_bucket == 32,
        config.seed_window == 8,
        config.max_groups is None,
        config.types is None,
        !config.parameterize_literals && !config.no_ignore && !config.include_hidden,
        config.filter_boilerplate,
        config.max_file_bytes == 2_097_152,
        config.cache_location == crate::config::CacheLocation::Project,
        config.languages@.len() == 6,
        forall|language: LanguageId| config.languages@.contains(language),
{
    assert forall|language: LanguageId| config.languages@.contains(language) by {
        let all = config.languages@;
        match language {
            LanguageId::Rust => {
                assert(all[0] == language);
            },
            LanguageId::Python => {
                assert(all[1] == language);
            },
            LanguageId::JavaScript => {
                assert(all[2] == language);
            },
            LanguageId::TypeScript => {
                assert(all[3] == language);
            },
            LanguageId::Tsx => {
                assert(all[4] == language);
            },
            LanguageId::Cpp => {
                assert(all[5] == language);
            },
        }
    }
}

/// What the options of a scan give stands, and everything else stays as it is set. Switches only
/// switch on.
pub proof fn options_override_what_they_give(
    config: Config,
    options: crate::cli::ScanOptions,
    settings: Config,
)
    requires
        crate::cli::is_scan_config(config, options, settings),
    ensures
        options.min_lines matches Some(value) ==> settings.min_lines == value,
        options.min_lines is None ==> settings.min_lines == config.min_lines,
        options.min_occurrences matches Some(value) ==> settings.min_occurrences == value,
        options.min_occurrences is None ==> settings.min_occurrences == config.min_occurrences,
        options.max_groups is Some ==> settings.max_groups == options.max_groups,
        options.max_groups is None ==> settings.max_groups == config.max_groups,
        options.max_file_bytes matches Some(value) ==> settings.max_file_bytes == value,
        options.max_file_bytes is None ==> settings.max_file_bytes == config.max_file_bytes,
        settings.parameterize_literals <==> options.parameterize_literals
            || config.parameterize_literals,
        settings.no_ignore <==> options.no_ignore || config.no_ignore,
        options.languages@.len() == 0 ==> settings.languages@ == config.languages@,
        options.languages@.len() > 0 ==> settings.languages@.len() == options.languages@.len(),
        options.languages@.len() > 0 ==> forall|i: int|
            0 <= i < options.languages@.len() && knows_language(options.languages@[i]@) ==> Some(
                #[trigger] settings.languages@[i],
            ) == crate::language::name_language(
                crate::text::ascii_lowercase(options.languages@[i]@),
            ),
        settings.max_bucket == config.max_bucket && settings.seed_window == config.seed_window,
        settings.include_hidden == config.include_hidden,
        settings.filter_boilerplate == config.filter_boilerplate,
        settings.cache_location == config.cache_location && settings.types == config.types,
{
}

/// The options of a scan are accepted exactly if no limit is zero, the size of files is below four
/// gigabytes, and every language is known.
pub proof fn options_are_accepted_for_what_they_give(options: crate::cli::ScanOptions)
    ensures
        crate::cli::options_accepted(options) <==> {
            &&& options.min_lines != Some(0usize) && options.min_occurrences != Some(0usize)
            &&& options.max_file_bytes matches Some(limit) ==> 0 < limit < 0x1_0000_0000
            &&& forall|i: int|
                0 <= i < options.languages@.len() ==> knows_language(
                    (#[trigger] options.languages@[i])@,
                )
        },
{
    lemma_first_unknown(options.languages@, 0);
}

/// A response tells how many files there are and, of every group, its size, its type, and the path
/// and the lines of each occurrence.
#[verifier::rlimit(30)]
#[verifier::spinoff_prover]
pub proof fn responses_tell_what_was_found(
    response: crate::server::ScanResponse,
    files: Seq<&SourceFile>,
    groups: Seq<(Seq<Occurrence>, int, CloneType)>,
    g: int,
    k: int,
)
    requires
        crate::meaning::are_ready(files),
        crate::server::groups_occur(files, groups),
        crate::server::is_response(response, files, groups),
        0 <= g < groups.len(),
        0 <= k < groups[g].0.len(),
    ensures
        response.files_scanned == files.len(),
        response.groups@.len() == groups.len(),
        response.groups@[g].token_count == groups[g].1,
        response.groups@[g].clone_type == groups[g].2,
        response.groups@[g].occurrences@.len() == groups[g].0.len(),
        ({
            let occurrence = groups[g].0[k];
            let file = files[occurrence.file as int];
            let told = response.groups@[g].occurrences@[k];
            &&& told.path@ == file.path@
            &&& told.start_line == crate::meaning::line_begun(file, occurrence.start as int)
            &&& told.end_line == crate::meaning::line_ended(file, occurrence.end - 1)
        }),
{
    let told = response.groups@.map_values(
        |group: crate::server::CloneGroupDto| group.values(),
    );
    let wanted = groups.map_values(
        |group: (Seq<Occurrence>, int, CloneType)| crate::server::group_dto(files, group),
    );
    assert(told.len() == wanted.len());
    assert(told[g] == wanted[g]);
    assert(response.groups@[g].values() == crate::server::group_dto(files, groups[g]));
    let places = response.groups@[g].occurrences@.map_values(
        |occurrence: crate::server::OccurrenceDto| occurrence.values(),
    );
    assert(places == crate::server::group_dto(files, groups[g]).0);
    assert(places.len() == groups[g].0.len());
    assert(places[k] == response.groups@[g].occurrences@[k].values());
    let occurrence = groups[g].0[k];
    assert(crate::cluster::all_occur(files, groups[g].0));
    assert(crate::matching::occurs(files, groups[g].0[k]));
    assert(crate::index::file_ready(*files[occurrence.file as int]));
    crate::meaning::occurrences_stand_on_their_lines(files[occurrence.file as int], occurrence);
}

/// The first of the values that is given.
pub open spec fn first_given<T>(project: Option<T>, user: Option<T>, fallback: T) -> T {
    match project {
        Some(value) => value,
        None => match user {
            Some(value) => value,
            None => fallback,
        },
    }
}

/// What comes of configuration files: what the project gives, else what the user gives, else the
/// default.
#[verifier::rlimit(30)]
#[verifier::spinoff_prover]
pub proof fn projects_come_before_users(
    user: FileConfig,
    project: FileConfig,
    user_path: String,
    project_path: String,
    result: Result<Config, ConfigError>,
)
    requires
        crate::config::is_loaded(
            Some(crate::config::ConfigSource { path: user_path, content: Ok(user) }),
            Some(crate::config::ConfigSource { path: project_path, content: Ok(project) }),
            result,
        ),
        result is Ok,
    ensures
        ({
            let config = result->Ok_0;
            &&& config.min_lines == first_given(project.min_lines, user.min_lines, 7)
            &&& config.min_occurrences == first_given(
                project.min_occurrences,
                user.min_occurrences,
                2,
            )
            &&& config.max_bucket == first_given(project.max_bucket, user.max_bucket, 32)
            &&& config.seed_window == first_given(project.seed_window, user.seed_window, 8)
            &&& config.parameterize_literals == first_given(
                project.parameterize_literals,
                user.parameterize_literals,
                false,
            )
            &&& config.no_ignore == first_given(project.no_ignore, user.no_ignore, false)
            &&& config.include_hidden == first_given(
                project.include_hidden,
                user.include_hidden,
                false,
            )
            &&& config.max_file_bytes == first_given(
                project.max_file_bytes,
                user.max_file_bytes,
                2_097_152,
            )
            &&& config.filter_boilerplate == first_given(
                project.filter_boilerplate,
                user.filter_boilerplate,
                true,
            )
            &&& config.types is None
        }),
{
}

/// The key that a problem of a configuration file is about, and what is said of it.
pub open spec fn complaint(problem: ConfigProblem) -> (Seq<char>, Seq<char>) {
    match problem {
        ConfigProblem::UnknownLanguage(_) => ("languages"@, ""@),
        ConfigProblem::UnknownCacheLocation => (
            "cache_location"@,
            "expected `project` or `user-cache`"@,
        ),
        ConfigProblem::NoMinLines => ("min_lines"@, "must be at least 1"@),
        ConfigProblem::NoMinOccurrences => ("min_occurrences"@, "must be at least 1"@),
        ConfigProblem::NoMaxBucket => ("max_bucket"@, "must be at least 1"@),
        ConfigProblem::NoSeedWindow => ("seed_window"@, "must be at least 1"@),
        ConfigProblem::NoMaxFileBytes => ("max_file_bytes"@, "must be at least 1"@),
        ConfigProblem::LargeMaxFileBytes => (
            "max_file_bytes"@,
            "exceeds the 4 GiB token-offset limit"@,
        ),
    }
}

/// What is wrong with a configuration file is there, and is said: the error names the file, and the
/// first unknown language or the key.
#[verifier::rlimit(30)]
#[verifier::spinoff_prover]
pub proof fn refused_files_are_told_why(
    config: Config,
    file: FileConfig,
    result: Config,
    problem: ConfigProblem,
    error: ConfigError,
    path: Seq<char>,
)
    requires
        crate::config::is_overlay(config, file, result),
        crate::config::config_problem(config, file) == Some(problem),
        crate::config::reports(error, problem, file, path),
    ensures
        match problem {
            ConfigProblem::UnknownLanguage(i) => {
                &&& file.languages matches Some(names) && 0 <= i < names@.len() && !knows_language(
                    names@[i]@,
                ) && (forall|j: int| 0 <= j < i ==> knows_language((#[trigger] names@[j])@)) && (
                error matches ConfigError::UnknownLanguage { path: told, name } && told@ == path
                    && name@ == names@[i]@)
            },
            _ => error matches ConfigError::InvalidValue { path: told, key, message } && told@
                == path && key@ == complaint(problem).0 && message@ == complaint(problem).1,
        },
        problem is UnknownCacheLocation ==> (file.cache_location matches Some(name) && name@
            != "project"@ && name@ != "user-cache"@),
        problem is NoMinLines ==> result.min_lines == 0,
        problem is NoMinOccurrences ==> result.min_occurrences == 0,
        problem is NoMaxBucket ==> result.max_bucket == 0,
        problem is NoSeedWindow ==> result.seed_window == 0,
        problem is NoMaxFileBytes ==> result.max_file_bytes == 0,
        problem is LargeMaxFileBytes ==> result.max_file_bytes >= 0x1_0000_0000,
{
    if let Some(names) = file.languages {
        lemma_first_unknown(names@, 0);
    }
    files_override_what_they_give(config, file, result);
}

} // verus!
