//! Answers to requests for clones, and the indexes that are kept between requests.
use std::collections::HashSet;
use vstd::prelude::*;

use crate::config::{Config, ConfigError};
use crate::detect::{detect_filtered, span_window_signatures};
use crate::index::{references, SourceIndex};
use crate::language::LanguageId;
use crate::model::{CloneGroup, CloneType, FileTime, Occurrence, SourceFile};
use crate::paths::is_within;
use crate::regions::{region_lines, token_span_for_lines};
use crate::text::{push_number, push_text, str_equal, string_of};

verus! {

/// How many indexes are kept at most.
pub const MAX_CACHED_INDEXES: usize = 8;

/// What to look for in a whole project.
#[derive(Debug)]
pub struct FindClonesParams {
    /// Subdirectory to scan; defaults to the current working directory.
    pub scope: Option<String>,
    /// Minimum number of lines for a clone group.
    pub min_lines: Option<usize>,
    /// Minimum number of occurrences per group.
    pub min_occurrences: Option<usize>,
    /// Maximum number of groups to return.
    pub max_groups: Option<usize>,
    /// Restrict results to these clone types.
    pub types: Option<Vec<CloneType>>,
    /// Allow consistent literal renames to match as clones.
    pub parameterize_literals: Option<bool>,
}

/// What to look for in one file.
#[derive(Debug)]
pub struct FindClonesInFileParams {
    /// Path of the file to inspect, relative to the scope or absolute.
    pub file: String,
    pub scope: Option<String>,
    pub min_lines: Option<usize>,
    pub min_occurrences: Option<usize>,
    pub max_groups: Option<usize>,
    pub types: Option<Vec<CloneType>>,
}

/// What to look for in some lines of a file.
#[derive(Debug)]
pub struct FindClonesForRegionParams {
    /// Path of the file with the region, relative to the scope or absolute.
    pub file: String,
    /// First line of the region, counted from 1.
    pub start_line: u32,
    /// Last line of the region.
    pub end_line: u32,
    pub scope: Option<String>,
    pub min_lines: Option<usize>,
    pub max_groups: Option<usize>,
    pub types: Option<Vec<CloneType>>,
}

#[derive(Debug)]
pub struct ReindexParams {
    /// Path whose index is dropped; defaults to the current working directory.
    pub path: Option<String>,
}

#[derive(Debug)]
pub struct ScanResponse {
    pub files_scanned: usize,
    pub groups: Vec<CloneGroupDto>,
}

#[derive(Debug)]
pub struct CloneGroupDto {
    pub token_count: usize,
    pub clone_type: CloneType,
    pub occurrences: Vec<OccurrenceDto>,
}

#[derive(Debug)]
pub struct OccurrenceDto {
    pub path: String,
    pub start_line: u32,
    pub end_line: u32,
}

#[derive(Debug)]
pub struct ReindexResponse {
    pub ok: bool,
}

/// An occurrence as it is reported: path, first line and last line.
pub open spec fn occurrence_dto(files: Seq<&SourceFile>, occurrence: Occurrence) -> (
    Seq<char>,
    int,
    int,
) {
    let file = files[occurrence.file as int];
    (file.path@, file.first_line(occurrence.start as int), file.last_line(occurrence.end - 1))
}

/// A group as it is reported.
pub open spec fn group_dto(
    files: Seq<&SourceFile>,
    group: (Seq<Occurrence>, int, CloneType),
) -> (Seq<(Seq<char>, int, int)>, int, CloneType) {
    (
        group.0.map_values(|occurrence: Occurrence| occurrence_dto(files, occurrence)),
        group.1,
        group.2,
    )
}

impl OccurrenceDto {
    pub open spec fn values(&self) -> (Seq<char>, int, int) {
        (self.path@, self.start_line as int, self.end_line as int)
    }
}

impl CloneGroupDto {
    pub open spec fn values(&self) -> (Seq<(Seq<char>, int, int)>, int, CloneType) {
        (
            self.occurrences@.map_values(|occurrence: OccurrenceDto| occurrence.values()),
            self.token_count as int,
            self.clone_type,
        )
    }
}

/// The response reports these groups of these files.
pub open spec fn is_response(
    response: ScanResponse,
    files: Seq<&SourceFile>,
    groups: Seq<(Seq<Occurrence>, int, CloneType)>,
) -> bool {
    &&& response.files_scanned == files.len()
    &&& response.groups@.map_values(|group: CloneGroupDto| group.values()) == groups.map_values(
        |group: (Seq<Occurrence>, int, CloneType)| group_dto(files, group),
    )
}

/// Every occurrence of every group lies in the files.
pub open spec fn groups_occur(
    files: Seq<&SourceFile>,
    groups: Seq<(Seq<Occurrence>, int, CloneType)>,
) -> bool {
    forall|g: int|
        0 <= g < groups.len() ==> crate::cluster::all_occur(files, (#[trigger] groups[g]).0)
}

fn to_dto(files: &[&SourceFile], group: &CloneGroup) -> (dto: CloneGroupDto)
    requires
        crate::matching::files_wf(files@),
        crate::cluster::all_occur(files@, group.occurrences@),
    ensures
        dto.values() == group_dto(files@, crate::cluster::group_view(*group)),
{
    let ghost wanted = group.occurrences@.map_values(
        |occurrence: Occurrence| occurrence_dto(files@, occurrence),
    );
    let mut occurrences: Vec<OccurrenceDto> = Vec::new();
    let mut i: usize = 0;
    assert(occurrences@.map_values(|occurrence: OccurrenceDto| occurrence.values())
        =~= wanted.take(0));
    while i < group.occurrences.len()
        invariant
            crate::matching::files_wf(files@),
            crate::cluster::all_occur(files@, group.occurrences@),
            wanted == group.occurrences@.map_values(
                |occurrence: Occurrence| occurrence_dto(files@, occurrence),
            ),
            i <= group.occurrences@.len(),
            occurrences@.map_values(|occurrence: OccurrenceDto| occurrence.values())
                == wanted.take(i as int),
        decreases group.occurrences@.len() - i,
    {
        let occurrence = group.occurrences[i];
        assert(crate::matching::occurs(files@, group.occurrences@[i as int]));
        let file = files[occurrence.file as usize];
        assert(files@[occurrence.file as int].wf());
        let ghost before = occurrences@.map_values(
            |occurrence: OccurrenceDto| occurrence.values(),
        );
        occurrences.push(
            OccurrenceDto {
                path: file.path.clone(),
                start_line: file.token_line(occurrence.start as usize),
                end_line: file.token_end_line(occurrence.end as usize - 1),
            },
        );
        i = i + 1;
        assert(occurrences@.map_values(|occurrence: OccurrenceDto| occurrence.values())
            =~= before.push(wanted[i - 1]));
        assert(wanted.take(i as int) =~= wanted.take(i - 1).push(wanted[i - 1]));
    }
    assert(wanted.take(i as int) =~= wanted);
    CloneGroupDto { token_count: group.token_count, clone_type: group.clone_type, occurrences }
}

/// The response that reports these groups of these files.
fn respond(files: &[&SourceFile], groups: &Vec<CloneGroup>) -> (response: ScanResponse)
    requires
        crate::matching::files_wf(files@),
        groups_occur(files@, crate::cluster::group_views(groups@)),
    ensures
        is_response(response, files@, crate::cluster::group_views(groups@)),
{
    let ghost views = crate::cluster::group_views(groups@);
    let ghost wanted = views.map_values(
        |group: (Seq<Occurrence>, int, CloneType)| group_dto(files@, group),
    );
    let mut dtos: Vec<CloneGroupDto> = Vec::new();
    let mut g: usize = 0;
    assert(dtos@.map_values(|group: CloneGroupDto| group.values()) =~= wanted.take(0));
    while g < groups.len()
        invariant
            crate::matching::files_wf(files@),
            groups_occur(files@, views),
            views == crate::cluster::group_views(groups@),
            wanted == views.map_values(
                |group: (Seq<Occurrence>, int, CloneType)| group_dto(files@, group),
            ),
            g <= groups@.len(),
            dtos@.map_values(|group: CloneGroupDto| group.values()) == wanted.take(g as int),
        decreases groups@.len() - g,
    {
        assert(views[g as int].0 == groups@[g as int].occurrences@);
        let ghost before = dtos@.map_values(|group: CloneGroupDto| group.values());
        dtos.push(to_dto(files, &groups[g]));
        g = g + 1;
        assert(dtos@.map_values(|group: CloneGroupDto| group.values()) =~= before.push(
            wanted[g - 1],
        ));
        assert(wanted.take(g as int) =~= wanted.take(g - 1).push(wanted[g - 1]));
    }
    assert(dtos@.map_values(|group: CloneGroupDto| group.values()) =~= wanted);
    ScanResponse { files_scanned: files.len(), groups: dtos }
}

impl ScanResponse {
    /// The response that reports groups of the files of an index.
    pub fn from_groups(index: &SourceIndex, groups: &Vec<CloneGroup>) -> (response: Self)
        requires
            index.wf(),
            groups_occur(
                crate::index::file_refs(index.content()),
                crate::cluster::group_views(groups@),
            ),
        ensures
            is_response(
                response,
                crate::index::file_refs(index.content()),
                crate::cluster::group_views(groups@),
            ),
    {
        let refs = references(index.files());
        proof {
            index.lemma_files_ready();
            assert(crate::matching::files_wf(refs@));
        }
        respond(refs.as_slice(), groups)
    }
}

/// Findings occur in the files.
pub proof fn lemma_findings_occur(
    files: Seq<&SourceFile>,
    groups: Seq<(Seq<Occurrence>, int, CloneType)>,
    config: Config,
)
    requires
        crate::findings::are_findings(files, groups, config),
    ensures
        groups_occur(files, groups),
{
    assert forall|g: int| 0 <= g < groups.len() implies crate::cluster::all_occur(
        files,
        (#[trigger] groups[g]).0,
    ) by {
        assert(crate::findings::is_finding(files, groups[g], config));
    }
}

/// Why a request is not answered.
#[derive(Debug)]
pub enum RequestError {
    /// A limit is not acceptable.
    Config(ConfigError),
    /// Lines are counted from 1.
    StartLine,
    /// The region ends before it begins.
    EndLine { start_line: u32, end_line: u32 },
    /// The file does not exist under the root.
    Unresolved,
    /// The file is not one that is scanned.
    NotIndexed,
    /// The file is in no known language.
    Unsupported,
    /// The language of the file is switched off.
    Disabled(LanguageId),
    /// The file could not be read or parsed.
    Unreadable,
}

/// What is said of a request that is not answered.
pub open spec fn request_error_text(
    error: RequestError,
    file: Seq<char>,
    root: Seq<char>,
) -> Seq<char> {
    match error {
        RequestError::Config(error) => crate::config::error_text(error),
        RequestError::StartLine => "`start_line` is 1-based and must be at least 1"@,
        RequestError::EndLine { start_line, end_line } => "`end_line` ("@ + crate::text::decimal(
            end_line as nat,
        ) + ") must be >= `start_line` ("@ + crate::text::decimal(start_line as nat) + ")"@,
        RequestError::Unresolved => "cannot resolve file `"@ + file + "` under `"@ + root + "`"@,
        RequestError::NotIndexed => "`"@ + file + "` is not a supported source file in the project"@,
        RequestError::Unsupported => "unsupported file type: `"@ + file + "`"@,
        RequestError::Disabled(language) => "language `"@ + language.name_chars()
            + "` is disabled by configuration"@,
        RequestError::Unreadable => "cannot read or parse `"@ + file + "`"@,
    }
}

impl RequestError {
    /// What is said of the error, for a request about `file` under `root`.
    pub fn message(&self, file: &str, root: &str) -> (text: String)
        ensures
            text@ == request_error_text(*self, file@, root@),
    {
        let mut out: Vec<char> = Vec::new();
        match self {
            RequestError::Config(error) => {
                return error.message();
            },
            RequestError::StartLine => {
                push_text(&mut out, "`start_line` is 1-based and must be at least 1");
            },
            RequestError::EndLine { start_line, end_line } => {
                push_text(&mut out, "`end_line` (");
                push_number(&mut out, *end_line as u64);
                push_text(&mut out, ") must be >= `start_line` (");
                push_number(&mut out, *start_line as u64);
                push_text(&mut out, ")");
            },
            RequestError::Unresolved => {
                push_text(&mut out, "cannot resolve file `");
                push_text(&mut out, file);
                push_text(&mut out, "` under `");
                push_text(&mut out, root);
                push_text(&mut out, "`");
            },
            RequestError::NotIndexed => {
                push_text(&mut out, "`");
                push_text(&mut out, file);
                push_text(&mut out, "` is not a supported source file in the project");
            },
            RequestError::Unsupported => {
                push_text(&mut out, "unsupported file type: `");
                push_text(&mut out, file);
                push_text(&mut out, "`");
            },
            RequestError::Disabled(language) => {
                push_text(&mut out, "language `");
                push_text(&mut out, language.name());
                push_text(&mut out, "` is disabled by configuration");
            },
            RequestError::Unreadable => {
                push_text(&mut out, "cannot read or parse `");
                push_text(&mut out, file);
                push_text(&mut out, "`");
            },
        }
        assert(out@ =~= request_error_text(*self, file@, root@));
        string_of(&out)
    }
}

/// The limits of a request, checked: zero is refused where it makes no sense.
pub open spec fn limits_refused(
    min_lines: Option<usize>,
    min_occurrences: Option<usize>,
    error: ConfigError,
) -> bool {
    if min_lines == Some(0usize) {
        crate::config::rejects_parameter(error, "min_lines"@, "must be at least 1"@)
    } else {
        min_occurrences == Some(0usize) && crate::config::rejects_parameter(
            error,
            "min_occurrences"@,
            "must be at least 1"@,
        )
    }
}

/// The settings of a request: those of the project, with the limits that the request gives.
pub open spec fn request_config(
    config: Config,
    min_lines: Option<usize>,
    min_occurrences: Option<usize>,
    max_groups: Option<usize>,
    parameterize_literals: Option<bool>,
    types: Option<Vec<CloneType>>,
) -> Config {
    Config {
        min_lines: crate::config::given_or(min_lines, config.min_lines),
        min_occurrences: crate::config::given_or(min_occurrences, config.min_occurrences),
        max_groups: (match max_groups {
            Some(limit) => Some(limit),
            None => config.max_groups,
        }),
        parameterize_literals: crate::config::given_or(
            parameterize_literals,
            config.parameterize_literals,
        ),
        types,
        ..config
    }
}

/// Reports the clones of a project.
pub fn find_clones(index: &SourceIndex, config: Config, params: FindClonesParams) -> (result: Result<
    ScanResponse,
    RequestError,
>)
    requires
        index.wf(),
        index.content().len() <= u32::MAX,
    ensures
        match result {
            Ok(response) => params.min_lines != Some(0usize) && params.min_occurrences != Some(0usize)
                && is_response(
                response,
                crate::index::file_refs(index.content()),
                crate::detect::detected(
                    crate::index::file_refs(index.content()),
                    request_config(
                        config,
                        params.min_lines,
                        params.min_occurrences,
                        params.max_groups,
                        params.parameterize_literals,
                        params.types,
                    ),
                    None,
                ),
            ),
            Err(RequestError::Config(error)) => limits_refused(
                params.min_lines,
                params.min_occurrences,
                error,
            ),
            Err(_) => false,
        },
{
    let mut settings = match config.with_limits(
        params.min_lines,
        params.min_occurrences,
        params.max_groups,
    ) {
        Ok(settings) => settings,
        Err(error) => {
            return Err(RequestError::Config(error));
        },
    };
    if let Some(value) = params.parameterize_literals {
        settings.parameterize_literals = value;
    }
    settings.types = params.types;
    let groups = index.find_clones(&settings);
    proof {
        lemma_findings_occur(
            crate::index::file_refs(index.content()),
            crate::cluster::group_views(groups@),
            settings,
        );
    }
    Ok(ScanResponse::from_groups(index, &groups))
}

/// One of the occurrences of the group overlaps this range of tokens of the file.
pub open spec fn touches(file: int, start: int, end: int) -> spec_fn(
    (Seq<Occurrence>, int, CloneType),
) -> bool {
    |group: (Seq<Occurrence>, int, CloneType)|
        exists|i: int|
            0 <= i < group.0.len() && (#[trigger] group.0[i]).file == file && group.0[i].start < end
                && group.0[i].end > start
}

fn group_touches(group: &CloneGroup, file: usize, start: usize, end: usize) -> (found: bool)
    ensures
        found == touches(file as int, start as int, end as int)(crate::cluster::group_view(*group)),
{
    let ghost occurrences = group.occurrences@;
    assert(crate::cluster::group_view(*group).0 == occurrences);
    let mut i: usize = 0;
    while i < group.occurrences.len()
        invariant
            occurrences == group.occurrences@,
            crate::cluster::group_view(*group).0 == occurrences,
            i <= occurrences.len(),
            forall|k: int|
                0 <= k < i ==> !((#[trigger] occurrences[k]).file == file && occurrences[k].start
                    < end && occurrences[k].end > start),
        decreases occurrences.len() - i,
    {
        let occurrence = group.occurrences[i];
        if occurrence.file as usize == file && (occurrence.start as usize) < end
            && occurrence.end as usize > start {
            assert(occurrences[i as int] == occurrence);
            return true;
        }
        i = i + 1;
    }
    false
}

/// The groups that touch a range of tokens of a file.
fn groups_touching(groups: Vec<CloneGroup>, file: usize, start: usize, end: usize) -> (kept: Vec<
    CloneGroup,
>)
    ensures
        crate::cluster::group_views(kept@) == crate::cluster::group_views(groups@).filter(
            touches(file as int, start as int, end as int),
        ),
{
    let ghost views = crate::cluster::group_views(groups@);
    let ghost pred = touches(file as int, start as int, end as int);
    let mut kept: Vec<CloneGroup> = Vec::new();
    let ghost all = groups@;
    proof {
        assert(views.take(0) =~= Seq::empty());
        crate::sort::lemma_filter_none(views.take(0), pred);
        assert(crate::cluster::group_views(kept@) =~= views.take(0).filter(pred));
    }
    for group in it: groups
        invariant
            views == crate::cluster::group_views(all),
            pred == touches(file as int, start as int, end as int),
            it.seq() == all,
            crate::cluster::group_views(kept@) == views.take(it.index() as int).filter(pred),
    {
        let ghost n = it.index() as int;
        let ghost before = crate::cluster::group_views(kept@);
        proof {
            assert(views[n] == crate::cluster::group_view(group));
            assert(views.take(n + 1) =~= views.take(n).push(views[n]));
            crate::sort::lemma_filter_push(views.take(n), views[n], pred);
        }
        if group_touches(&group, file, start, end) {
            kept.push(group);
            assert(crate::cluster::group_views(kept@) =~= before.push(views[n]));
        }
    }
    assert(views.take(views.len() as int) =~= views);
    kept
}

proof fn lemma_filtered_occur(
    files: Seq<&SourceFile>,
    groups: Seq<(Seq<Occurrence>, int, CloneType)>,
    pred: spec_fn((Seq<Occurrence>, int, CloneType)) -> bool,
)
    requires
        groups_occur(files, groups),
    ensures
        groups_occur(files, groups.filter(pred)),
{
    let kept = groups.filter(pred);
    assert forall|g: int| 0 <= g < kept.len() implies crate::cluster::all_occur(
        files,
        (#[trigger] kept[g]).0,
    ) by {
        crate::cluster::lemma_filter_member(groups, pred, g);
        let h = choose|h: int| 0 <= h < groups.len() && groups[h] == kept[g];
        assert(crate::cluster::all_occur(files, groups[h].0));
    }
}

/// The clones that grow from windows of a range of tokens and touch it.
pub open spec fn clones_touching(
    files: Seq<&SourceFile>,
    file: int,
    start: int,
    end: int,
    config: Config,
) -> Seq<(Seq<Occurrence>, int, CloneType)> {
    crate::detect::detected(
        files,
        config,
        Some(
            crate::detect::span_signatures(
                *files[file],
                start,
                end,
                config.seed_window as int,
                config.parameterize_literals,
            ),
        ),
    ).filter(touches(file, start, end))
}

fn report_touching(
    files: &[&SourceFile],
    file: usize,
    start: usize,
    end: usize,
    config: &Config,
) -> (response: ScanResponse)
    requires
        crate::cluster::files_ready(files@),
        files@.len() <= u32::MAX,
        file < files@.len(),
    ensures
        is_response(
            response,
            files@,
            clones_touching(files@, file as int, start as int, end as int, *config),
        ),
{
    proof {
        assert(files@[file as int].wf());
        assert(crate::matching::files_wf(files@));
    }
    let allowed: HashSet<u64> = span_window_signatures(files[file], start, end, config);
    let groups = detect_filtered(files, config, Some(&allowed));
    proof {
        lemma_findings_occur(files@, crate::cluster::group_views(groups@), *config);
        lemma_filtered_occur(
            files@,
            crate::cluster::group_views(groups@),
            touches(file as int, start as int, end as int),
        );
    }
    let kept = groups_touching(groups, file, start, end);
    respond(files, &kept)
}

/// The path exists and lies under the root.
pub open spec fn is_resolved(canonical: Option<&str>, root: Seq<char>) -> bool {
    canonical matches Some(path) && crate::paths::relative_to(path@, root) is Some
}

/// Reports the clones that involve one file. `canonical` is the file's path in canonical form, if
/// it exists.
pub fn find_clones_in_file(
    index: &SourceIndex,
    config: Config,
    params: FindClonesInFileParams,
    canonical: Option<&str>,
) -> (result: Result<ScanResponse, RequestError>)
    requires
        index.wf(),
        index.content().len() <= u32::MAX,
    ensures
        ({
            let files = crate::index::file_refs(index.content());
            let settings = request_config(
                config,
                params.min_lines,
                params.min_occurrences,
                params.max_groups,
                None,
                params.types,
            );
            if !is_resolved(canonical, index.root_path()) {
                result == Err::<ScanResponse, RequestError>(RequestError::Unresolved)
            } else {
                match crate::index::first_of(
                    crate::index::paths_of(index.content()),
                    (canonical->0)@,
                    0,
                ) {
                    None => result == Err::<ScanResponse, RequestError>(RequestError::NotIndexed),
                    Some(at) => match result {
                        Ok(response) => params.min_lines != Some(0usize) && params.min_occurrences
                            != Some(0usize) && is_response(
                            response,
                            files,
                            clones_touching(
                                files,
                                at,
                                0,
                                index.content()[at].tokens@.len() as int,
                                settings,
                            ),
                        ),
                        Err(RequestError::Config(error)) => limits_refused(
                            params.min_lines,
                            params.min_occurrences,
                            error,
                        ),
                        Err(_) => false,
                    },
                }
            }
        }),
{
    let path = match canonical {
        Some(path) => if is_within(path, index.root()) {
            path
        } else {
            return Err(RequestError::Unresolved);
        },
        None => {
            return Err(RequestError::Unresolved);
        },
    };
    let at: usize = match index.file_by_path(path) {
        Some(at) => at,
        None => {
            return Err(RequestError::NotIndexed);
        },
    };
    let mut settings = match config.with_limits(
        params.min_lines,
        params.min_occurrences,
        params.max_groups,
    ) {
        Ok(settings) => settings,
        Err(error) => {
            return Err(RequestError::Config(error));
        },
    };
    settings.types = params.types;
    let refs = references(index.files());
    proof {
        index.lemma_files_ready();
        crate::index::lemma_first_of_found(
            crate::index::paths_of(index.content()),
            path@,
            0,
        );
    }
    let count: usize = refs[at].tokens.len();
    Ok(report_touching(refs.as_slice(), at, 0, count, &settings))
}

/// Where the file of a region is found.
#[derive(Debug, Clone, Copy, PartialEq, Eq, Structural)]
pub enum RegionTarget {
    /// At this position of the index.
    Indexed(usize),
    /// Not in the index: it is to be parsed in this language.
    Unindexed(LanguageId),
}

/// Where the file of a region is found, or why the request is not answered.
pub open spec fn region_target_of(
    index: &SourceIndex,
    config: Config,
    start_line: u32,
    end_line: u32,
    canonical: Option<&str>,
) -> Result<RegionTarget, RequestError> {
    if start_line == 0 {
        Err(RequestError::StartLine)
    } else if end_line < start_line {
        Err(RequestError::EndLine { start_line, end_line })
    } else if !is_resolved(canonical, index.root_path()) {
        Err(RequestError::Unresolved)
    } else {
        let path = (canonical->0)@;
        match crate::index::first_of(crate::index::paths_of(index.content()), path, 0) {
            Some(at) => Ok(RegionTarget::Indexed(at as usize)),
            None => match crate::language::path_language(path) {
                None => Err(RequestError::Unsupported),
                Some(language) => if config.languages@.contains(language) {
                    Ok(RegionTarget::Unindexed(language))
                } else {
                    Err(RequestError::Disabled(language))
                },
            },
        }
    }
}

/// Finds the file of a region. `canonical` is its path in canonical form, if it exists.
pub fn region_target(
    index: &SourceIndex,
    config: &Config,
    params: &FindClonesForRegionParams,
    canonical: Option<&str>,
) -> (target: Result<RegionTarget, RequestError>)
    requires
        index.wf(),
    ensures
        target == region_target_of(
            index,
            *config,
            params.start_line,
            params.end_line,
            canonical,
        ),
        target matches Ok(RegionTarget::Indexed(at)) ==> at < index.content().len(),
{
    if params.start_line == 0 {
        return Err(RequestError::StartLine);
    }
    if params.end_line < params.start_line {
        return Err(
            RequestError::EndLine { start_line: params.start_line, end_line: params.end_line },
        );
    }
    let path = match canonical {
        Some(path) => if is_within(path, index.root()) {
            path
        } else {
            return Err(RequestError::Unresolved);
        },
        None => {
            return Err(RequestError::Unresolved);
        },
    };
    proof {
        crate::index::lemma_first_of_found(
            crate::index::paths_of(index.content()),
            path@,
            0,
        );
    }
    if let Some(at) = index.file_by_path(path) {
        return Ok(RegionTarget::Indexed(at));
    }
    match LanguageId::from_path(path) {
        Some(language) => if config.language_enabled(language) {
            Ok(RegionTarget::Unindexed(language))
        } else {
            Err(RequestError::Disabled(language))
        },
        None => Err(RequestError::Unsupported),
    }
}

/// The smaller of two numbers.
pub open spec fn lesser(a: usize, b: int) -> usize {
    if a <= b {
        a
    } else {
        b as usize
    }
}

/// The answer to a request about a region of a file that is one of the files.
pub open spec fn is_region_answer(
    files: Seq<&SourceFile>,
    file: int,
    config: Config,
    params: FindClonesForRegionParams,
    result: Result<ScanResponse, RequestError>,
) -> bool {
    let (start, end) = crate::regions::lines_range(
        *files[file],
        params.start_line,
        params.end_line,
    );
    if start >= end {
        result matches Ok(response) && is_response(response, files, Seq::empty())
    } else {
        let lines = files[file].lines_of(
            Occurrence { file: 0, start: start as u32, end: end as u32 },
        );
        let min_lines = crate::config::given_or(params.min_lines, lesser(config.min_lines, lines));
        let settings = request_config(
            config,
            Some(min_lines),
            None,
            params.max_groups,
            None,
            params.types,
        );
        match result {
            Ok(response) => min_lines != 0 && is_response(
                response,
                files,
                clones_touching(files, file, start, end, settings),
            ),
            Err(RequestError::Config(error)) => limits_refused(Some(min_lines), None, error),
            Err(_) => false,
        }
    }
}

fn report_region(
    files: &[&SourceFile],
    file: usize,
    config: Config,
    params: FindClonesForRegionParams,
) -> (result: Result<ScanResponse, RequestError>)
    requires
        crate::cluster::files_ready(files@),
        files@.len() <= u32::MAX,
        file < files@.len(),
        crate::index::file_ready(*files@[file as int]),
    ensures
        is_region_answer(files@, file as int, config, params, result),
{
    let target = files[file];
    let (start, end) = match token_span_for_lines(target, params.start_line, params.end_line) {
        Some(span) => span,
        None => {
            let none: Vec<CloneGroupDto> = Vec::new();
            let response = ScanResponse { files_scanned: files.len(), groups: none };
            proof {
                let empty = Seq::<(Seq<Occurrence>, int, CloneType)>::empty();
                assert(response.groups@.map_values(|group: CloneGroupDto| group.values())
                    =~= empty.map_values(
                    |group: (Seq<Occurrence>, int, CloneType)| group_dto(files@, group),
                ));
            }
            return Ok(response);
        },
    };
    let lines: usize = region_lines(target, start, end);
    let min_lines: usize = match params.min_lines {
        Some(value) => value,
        None => if config.min_lines <= lines {
            config.min_lines
        } else {
            lines
        },
    };
    let mut settings = match config.with_limits(Some(min_lines), None, params.max_groups) {
        Ok(settings) => settings,
        Err(error) => {
            return Err(RequestError::Config(error));
        },
    };
    settings.types = params.types;
    Ok(report_touching(files, file, start, end, &settings))
}

/// The files of an index, and one more behind them.
pub open spec fn files_with<'a>(files: Seq<SourceFile>, extra: SourceFile) -> Seq<&'a SourceFile> {
    crate::index::file_refs(files).push(&extra)
}

/// Reports the clones of a region. A file that is not in the index has been parsed, if that was
/// possible.
pub fn find_clones_for_region(
    index: &SourceIndex,
    target: RegionTarget,
    parsed: Option<&SourceFile>,
    config: Config,
    params: FindClonesForRegionParams,
) -> (result: Result<ScanResponse, RequestError>)
    requires
        index.wf(),
        index.content().len() < u32::MAX,
        target matches RegionTarget::Indexed(at) ==> at < index.content().len(),
        parsed matches Some(file) ==> crate::index::file_ready(*file),
    ensures
        match (target, parsed) {
            (RegionTarget::Indexed(at), _) => is_region_answer(
                crate::index::file_refs(index.content()),
                at as int,
                config,
                params,
                result,
            ),
            (RegionTarget::Unindexed(_), Some(file)) => is_region_answer(
                files_with(index.content(), *file),
                index.content().len() as int,
                config,
                params,
                result,
            ),
            (RegionTarget::Unindexed(_), None) => result == Err::<ScanResponse, RequestError>(
                RequestError::Unreadable,
            ),
        },
{
    let mut refs = references(index.files());
    proof {
        index.lemma_files_ready();
    }
    match target {
        RegionTarget::Indexed(at) => {
            assert(crate::index::file_ready(index.content()[at as int]));
            report_region(refs.as_slice(), at, config, params)
        },
        RegionTarget::Unindexed(_) => match parsed {
            Some(file) => {
                let at: usize = refs.len();
                let ghost before = refs@;
                refs.push(file);
                proof {
                    assert forall|i: int| 0 <= i < refs@.len() implies (#[trigger] refs@[i]).wf()
                        && crate::spans::marks_wf(refs@[i].tokens@) by {
                        if i < before.len() {
                            assert(refs@[i] == before[i]);
                        }
                    }
                }
                report_region(refs.as_slice(), at, config, params)
            },
            None => Err(RequestError::Unreadable),
        },
    }
}

/// An index that is kept between requests.
pub struct CachedIndex<T> {
    /// The directory that is indexed.
    pub root: String,
    pub index: T,
    /// The configuration files that the index was built with, and their modification times.
    pub sources: Vec<(String, Option<FileTime>)>,
    /// When the index was last asked for.
    pub last_used: u64,
}

/// Configuration files and their modification times, as values.
pub open spec fn stamps_of(sources: Seq<(String, Option<FileTime>)>) -> Seq<
    (Seq<char>, Option<FileTime>),
> {
    sources.map_values(|source: (String, Option<FileTime>)| (source.0@, source.1))
}

fn same_time(a: Option<FileTime>, b: Option<FileTime>) -> (same: bool)
    ensures
        same == (a == b),
{
    match (a, b) {
        (Some(a), Some(b)) => a == b,
        (None, None) => true,
        _ => false,
    }
}

/// Whether the configuration files are the same, and have not changed.
pub fn same_sources(
    a: &Vec<(String, Option<FileTime>)>,
    b: &Vec<(String, Option<FileTime>)>,
) -> (same: bool)
    ensures
        same == (stamps_of(a@) == stamps_of(b@)),
{
    let ghost left = stamps_of(a@);
    let ghost right = stamps_of(b@);
    if a.len() != b.len() {
        assert(left.len() != right.len());
        return false;
    }
    let mut i: usize = 0;
    while i < a.len()
        invariant
            left == stamps_of(a@),
            right == stamps_of(b@),
            a@.len() == b@.len(),
            i <= a@.len(),
            forall|k: int| 0 <= k < i ==> left[k] == right[k],
        decreases a@.len() - i,
    {
        if !str_equal(a[i].0.as_str(), b[i].0.as_str()) || !same_time(a[i].1, b[i].1) {
            assert(left[i as int] != right[i as int]);
            return false;
        }
        i = i + 1;
    }
    assert(left =~= right);
    true
}

/// The position of the first index of a directory, from `from` on.
pub open spec fn index_of<T>(
    indexes: Seq<CachedIndex<T>>,
    root: Seq<char>,
    from: int,
) -> Option<int>
    decreases indexes.len() - from,
{
    if from >= indexes.len() {
        None
    } else if indexes[from].root@ == root {
        Some(from)
    } else {
        index_of(indexes, root, from + 1)
    }
}

/// The position of the first of the first `n` indexes that were asked for least recently.
pub open spec fn least_recent<T>(indexes: Seq<CachedIndex<T>>, n: int) -> int
    decreases n,
{
    if n <= 1 {
        0
    } else {
        let best = least_recent(indexes, n - 1);
        if indexes[n - 1].last_used < indexes[best].last_used {
            n - 1
        } else {
            best
        }
    }
}

/// The indexes after room has been made for one of a directory: the least recently used one goes
/// where there are as many as can be kept and none of them is of that directory.
pub open spec fn with_room<T>(indexes: Seq<CachedIndex<T>>, root: Seq<char>) -> Seq<
    CachedIndex<T>,
> {
    if indexes.len() >= MAX_CACHED_INDEXES && index_of(indexes, root, 0) is None {
        indexes.remove(least_recent(indexes, indexes.len() as int))
    } else {
        indexes
    }
}

proof fn lemma_least_recent<T>(indexes: Seq<CachedIndex<T>>, n: int)
    requires
        1 <= n <= indexes.len(),
    ensures
        0 <= least_recent(indexes, n) < n,
        forall|i: int|
            0 <= i < n ==> indexes[least_recent(indexes, n)].last_used <= (
            #[trigger] indexes[i]).last_used,
    decreases n,
{
    if n > 1 {
        lemma_least_recent(indexes, n - 1);
    }
}

/// The index that goes is one that was not asked for after any other.
pub proof fn evicted_index_is_least_recent<T>(indexes: Seq<CachedIndex<T>>, i: int)
    requires
        0 <= i < indexes.len(),
    ensures
        indexes[least_recent(indexes, indexes.len() as int)].last_used <= indexes[i].last_used,
{
    lemma_least_recent(indexes, indexes.len() as int);
}

/// The state of the server: its settings, and the indexes that are kept.
pub struct CloneServer<T> {
    default_config: Config,
    indexes: Vec<CachedIndex<T>>,
}

impl<T> CloneServer<T> {
    /// The indexes that are kept.
    pub closed spec fn kept(&self) -> Seq<CachedIndex<T>> {
        self.indexes@
    }

    /// The settings for directories without configuration files.
    pub closed spec fn fallback(&self) -> Config {
        self.default_config
    }

    /// A server that keeps no index yet.
    pub fn new(default_config: Config) -> (server: Self)
        ensures
            server.kept() == Seq::<CachedIndex<T>>::empty(),
            server.fallback() == default_config,
    {
        CloneServer { default_config, indexes: Vec::new() }
    }

    pub fn default_config(&self) -> (config: &Config)
        ensures
            *config == self.fallback(),
    {
        &self.default_config
    }

    /// The position of the index of a directory.
    pub fn position(&self, root: &str) -> (position: Option<usize>)
        ensures
            match position {
                Some(at) => at < self.kept().len() && index_of(self.kept(), root@, 0) == Some(
                    at as int,
                ),
                None => index_of(self.kept(), root@, 0) is None,
            },
    {
        let mut i: usize = 0;
        while i < self.indexes.len()
            invariant
                i <= self.indexes@.len(),
                index_of(self.indexes@, root@, i as int) == index_of(self.indexes@, root@, 0),
            decreases self.indexes@.len() - i,
        {
            if str_equal(self.indexes[i].root.as_str(), root) {
                return Some(i);
            }
            i = i + 1;
        }
        None
    }

    /// The index at a position.
    pub fn get(&self, position: usize) -> (cached: &CachedIndex<T>)
        requires
            position < self.kept().len(),
        ensures
            *cached == self.kept()[position as int],
    {
        &self.indexes[position]
    }

    /// Makes room for an index of a directory.
    pub fn make_room(&mut self, root: &str)
        ensures
            final(self).kept() == with_room(old(self).kept(), root@),
            final(self).fallback() == old(self).fallback(),
    {
        if self.indexes.len() < MAX_CACHED_INDEXES {
            return;
        }
        if self.position(root).is_some() {
            return;
        }
        let mut oldest: usize = 0;
        let mut n: usize = 1;
        while n < self.indexes.len()
            invariant
                1 <= n <= self.indexes@.len(),
                oldest < n,
                oldest == least_recent(self.indexes@, n as int),
            decreases self.indexes@.len() - n,
        {
            if self.indexes[n].last_used < self.indexes[oldest].last_used {
                oldest = n;
            }
            n = n + 1;
        }
        self.indexes.remove(oldest);
    }

    /// Notes when the index at a position was asked for.
    pub fn touch(&mut self, position: usize, now: u64)
        requires
            position < old(self).kept().len(),
        ensures
            final(self).kept() == old(self).kept().update(
                position as int,
                CachedIndex { last_used: now, ..old(self).kept()[position as int] },
            ),
            final(self).fallback() == old(self).fallback(),
    {
        self.indexes[position].last_used = now;
    }

    /// Notes the configuration files that the index at a position was built anew with.
    pub fn set_sources(&mut self, position: usize, sources: Vec<(String, Option<FileTime>)>)
        requires
            position < old(self).kept().len(),
        ensures
            final(self).kept() == old(self).kept().update(
                position as int,
                CachedIndex { sources, ..old(self).kept()[position as int] },
            ),
            final(self).fallback() == old(self).fallback(),
    {
        self.indexes[position].sources = sources;
    }

    /// Keeps an index.
    pub fn keep(&mut self, cached: CachedIndex<T>)
        ensures
            final(self).kept() == old(self).kept().push(cached),
            final(self).fallback() == old(self).fallback(),
    {
        self.indexes.push(cached);
    }

    /// Drops the index of a directory, if there is one.
    pub fn forget(&mut self, root: &str) -> (dropped: Option<CachedIndex<T>>)
        ensures
            match index_of(old(self).kept(), root@, 0) {
                Some(at) => dropped == Some(old(self).kept()[at]) && final(self).kept() == old(
                    self,
                ).kept().remove(at),
                None => dropped is None && final(self).kept() == old(self).kept(),
            },
            final(self).fallback() == old(self).fallback(),
    {
        match self.position(root) {
            Some(at) => Some(self.indexes.remove(at)),
            None => None,
        }
    }
}

/// Once room has been made for a directory that has no index, one more index can be kept.
pub proof fn room_leaves_space<T>(indexes: Seq<CachedIndex<T>>, root: Seq<char>)
    requires
        indexes.len() <= MAX_CACHED_INDEXES,
        index_of(indexes, root, 0) is None,
    ensures
        with_room(indexes, root).len() < MAX_CACHED_INDEXES,
{
    if indexes.len() > 0 {
        lemma_least_recent(indexes, indexes.len() as int);
    }
}

} // verus!
