//! Settings and report of a scan from the command line, and how editors start the server.
use vstd::prelude::*;

use crate::config::{Config, ConfigError};
use crate::language::LanguageId;
use crate::model::{CloneGroup, CloneType, Occurrence, SourceFile};
use crate::text::{push_number, push_text, string_of};

verus! {

/// What the command line says about a scan.
#[derive(Debug)]
pub struct ScanOptions {
    pub min_lines: Option<usize>,
    pub min_occurrences: Option<usize>,
    pub max_groups: Option<usize>,
    pub parameterize_literals: bool,
    /// Restrict the scan to these languages.
    pub languages: Vec<String>,
    pub no_ignore: bool,
    pub max_file_bytes: Option<u64>,
}

/// Why a scan cannot start.
#[derive(Debug)]
pub enum ScanError {
    Config(ConfigError),
    UnknownLanguage(String),
}

impl ScanError {
    /// What is said of the error.
    pub fn message(&self) -> (text: String)
        ensures
            text@ == match self {
                ScanError::Config(error) => crate::config::error_text(*error),
                ScanError::UnknownLanguage(name) => "unknown language: "@ + name@,
            },
    {
        match self {
            ScanError::Config(error) => error.message(),
            ScanError::UnknownLanguage(name) => {
                let mut out: Vec<char> = Vec::new();
                push_text(&mut out, "unknown language: ");
                push_text(&mut out, name.as_str());
                string_of(&out)
            },
        }
    }
}

fn languages_of(names: &Vec<String>) -> (result: Result<Vec<LanguageId>, String>)
    ensures
        match result {
            Ok(languages) => crate::config::first_unknown(names@, 0) is None && languages@
                == crate::config::languages_named(names@),
            Err(name) => crate::config::first_unknown(names@, 0) matches Some(i) && name@
                == names@[i]@,
        },
{
    let mut languages: Vec<LanguageId> = Vec::new();
    let mut i: usize = 0;
    while i < names.len()
        invariant
            i <= names@.len(),
            crate::config::first_unknown(names@, 0) == crate::config::first_unknown(
                names@,
                i as int,
            ),
            languages@ == crate::config::languages_named(names@).take(i as int),
        decreases names@.len() - i,
    {
        match LanguageId::from_name(names[i].as_str()) {
            Some(language) => {
                languages.push(language);
            },
            None => {
                return Err(names[i].clone());
            },
        }
        i = i + 1;
        assert(languages@ =~= crate::config::languages_named(names@).take(i as int));
    }
    assert(languages@ =~= crate::config::languages_named(names@));
    Ok(languages)
}

/// The settings of a scan are those of the project, overridden by what the command line gives.
pub open spec fn is_scan_config(config: Config, options: ScanOptions, settings: Config) -> bool {
    &&& settings.min_lines == crate::config::given_or(options.min_lines, config.min_lines)
    &&& settings.min_occurrences == crate::config::given_or(
        options.min_occurrences,
        config.min_occurrences,
    )
    &&& settings.max_groups == (match options.max_groups {
        Some(limit) => Some(limit),
        None => config.max_groups,
    })
    &&& settings.max_file_bytes == crate::config::given_or(
        options.max_file_bytes,
        config.max_file_bytes,
    )
    &&& settings.parameterize_literals == (options.parameterize_literals
        || config.parameterize_literals)
    &&& settings.no_ignore == (options.no_ignore || config.no_ignore)
    &&& settings.languages@ == (if options.languages@.len() > 0 {
        crate::config::languages_named(options.languages@)
    } else {
        config.languages@
    })
    &&& settings.max_bucket == config.max_bucket
    &&& settings.seed_window == config.seed_window
    &&& settings.include_hidden == config.include_hidden
    &&& settings.filter_boilerplate == config.filter_boilerplate
    &&& settings.cache_location == config.cache_location
    &&& settings.types == config.types
}

/// No limit is zero where that makes no sense.
pub open spec fn limits_accepted(options: ScanOptions) -> bool {
    options.min_lines != Some(0usize) && options.min_occurrences != Some(0usize)
}

/// The options can be used: no limit is zero where that makes no sense, the largest file is not
/// too large, and every language is known.
pub open spec fn options_accepted(options: ScanOptions) -> bool {
    &&& limits_accepted(options)
    &&& options.max_file_bytes matches Some(limit) ==> 1 <= limit <= u32::MAX
    &&& crate::config::first_unknown(options.languages@, 0) is None
}

/// The settings of a scan.
pub fn scan_config(config: Config, options: &ScanOptions) -> (result: Result<Config, ScanError>)
    ensures
        match result {
            Ok(settings) => options_accepted(*options) && is_scan_config(
                config,
                *options,
                settings,
            ),
            Err(ScanError::Config(error)) => if limits_accepted(*options) {
                options.max_file_bytes matches Some(limit) && crate::config::refuses_max_file_bytes(
                    error,
                    limit,
                )
            } else {
                crate::server::limits_refused(options.min_lines, options.min_occurrences, error)
            },
            Err(ScanError::UnknownLanguage(name)) => {
                &&& limits_accepted(*options)
                &&& options.max_file_bytes matches Some(limit) ==> 1 <= limit <= u32::MAX
                &&& crate::config::first_unknown(options.languages@, 0) matches Some(i) && name@
                    == options.languages@[i]@
            },
        },
{
    let mut settings = match config.with_limits(
        options.min_lines,
        options.min_occurrences,
        options.max_groups,
    ) {
        Ok(settings) => settings,
        Err(error) => {
            return Err(ScanError::Config(error));
        },
    };
    if let Some(limit) = options.max_file_bytes {
        settings = match settings.with_max_file_bytes(limit) {
            Ok(settings) => settings,
            Err(error) => {
                return Err(ScanError::Config(error));
            },
        };
    }
    if options.parameterize_literals {
        settings.parameterize_literals = true;
    }
    if options.no_ignore {
        settings.no_ignore = true;
    }
    match languages_of(&options.languages) {
        Ok(languages) => {
            if options.languages.len() > 0 {
                settings.languages = languages;
            }
        },
        Err(name) => {
            return Err(ScanError::UnknownLanguage(name));
        },
    }
    Ok(settings)
}

/// How a clone type is named in a report.
pub open spec fn clone_type_name(clone_type: CloneType) -> Seq<char> {
    match clone_type {
        CloneType::Type1 => "Type1"@,
        CloneType::Type2 => "Type2"@,
    }
}

/// The line of a report for one occurrence: path, first line and last line.
pub open spec fn occurrence_line(files: Seq<&SourceFile>, occurrence: Occurrence) -> Seq<char> {
    let file = files[occurrence.file as int];
    "  "@ + file.path@ + ":"@ + crate::text::decimal(
        file.first_line(occurrence.start as int) as nat,
    ) + ":"@ + crate::text::decimal(file.last_line(occurrence.end - 1) as nat) + "\n"@
}

/// The lines of a report for the first `n` occurrences.
pub open spec fn occurrence_lines(
    files: Seq<&SourceFile>,
    occurrences: Seq<Occurrence>,
    n: int,
) -> Seq<char>
    decreases n,
{
    if n <= 0 {
        Seq::empty()
    } else {
        occurrence_lines(files, occurrences, n - 1) + occurrence_line(files, occurrences[n - 1])
    }
}

/// The part of a report for one group.
pub open spec fn group_text(
    files: Seq<&SourceFile>,
    group: (Seq<Occurrence>, int, CloneType),
    number: int,
) -> Seq<char> {
    "#"@ + crate::text::decimal(number as nat) + ": "@ + crate::text::decimal(group.1 as nat)
        + " tokens, "@ + clone_type_name(group.2) + ", "@ + crate::text::decimal(group.0.len())
        + " occurrence(s)\n"@ + occurrence_lines(files, group.0, group.0.len() as int)
}

/// The parts of a report for the first `n` groups.
pub open spec fn group_texts(
    files: Seq<&SourceFile>,
    groups: Seq<(Seq<Occurrence>, int, CloneType)>,
    n: int,
) -> Seq<char>
    decreases n,
{
    if n <= 0 {
        Seq::empty()
    } else {
        group_texts(files, groups, n - 1) + group_text(files, groups[n - 1], n)
    }
}

/// A report.
pub open spec fn report_of(
    files: Seq<&SourceFile>,
    groups: Seq<(Seq<Occurrence>, int, CloneType)>,
) -> Seq<char> {
    crate::text::decimal(groups.len()) + " clone group(s) across "@ + crate::text::decimal(
        files.len(),
    ) + " file(s):\n"@ + group_texts(files, groups, groups.len() as int)
}

fn push_group(out: &mut Vec<char>, files: &[&SourceFile], group: &CloneGroup, number: usize)
    requires
        crate::matching::files_wf(files@),
        crate::cluster::all_occur(files@, group.occurrences@),
    ensures
        final(out)@ == old(out)@ + group_text(
            files@,
            crate::cluster::group_view(*group),
            number as int,
        ),
{
    let ghost before = out@;
    let ghost occurrences = group.occurrences@;
    push_text(out, "#");
    push_number(out, number as u64);
    push_text(out, ": ");
    push_number(out, group.token_count as u64);
    push_text(out, " tokens, ");
    match group.clone_type {
        CloneType::Type1 => {
            push_text(out, "Type1");
        },
        CloneType::Type2 => {
            push_text(out, "Type2");
        },
    }
    push_text(out, ", ");
    push_number(out, group.occurrences.len() as u64);
    push_text(out, " occurrence(s)\n");
    let ghost head = out@;
    let mut n: usize = 0;
    assert(out@ =~= head + occurrence_lines(files@, occurrences, 0));
    while n < group.occurrences.len()
        invariant
            crate::matching::files_wf(files@),
            occurrences == group.occurrences@,
            crate::cluster::all_occur(files@, occurrences),
            n <= occurrences.len(),
            out@ == head + occurrence_lines(files@, occurrences, n as int),
        decreases occurrences.len() - n,
    {
        let occurrence = group.occurrences[n];
        assert(crate::matching::occurs(files@, occurrences[n as int]));
        let file = files[occurrence.file as usize];
        assert(files@[occurrence.file as int].wf());
        let ghost so_far = out@;
        push_text(out, "  ");
        push_text(out, file.path.as_str());
        push_text(out, ":");
        push_number(out, file.token_line(occurrence.start as usize) as u64);
        push_text(out, ":");
        push_number(out, file.token_end_line(occurrence.end as usize - 1) as u64);
        push_text(out, "\n");
        n = n + 1;
        assert(out@ =~= so_far + occurrence_line(files@, occurrence));
        assert(out@ =~= head + occurrence_lines(files@, occurrences, n as int));
    }
    assert(out@ =~= before + group_text(
        files@,
        crate::cluster::group_view(*group),
        number as int,
    ));
}

/// The report on the clone groups of some files.
pub fn report_text(files: &[&SourceFile], groups: &Vec<CloneGroup>) -> (text: String)
    requires
        crate::matching::files_wf(files@),
        crate::server::groups_occur(files@, crate::cluster::group_views(groups@)),
    ensures
        text@ == report_of(files@, crate::cluster::group_views(groups@)),
{
    let ghost views = crate::cluster::group_views(groups@);
    let mut out: Vec<char> = Vec::new();
    push_number(&mut out, groups.len() as u64);
    push_text(&mut out, " clone group(s) across ");
    push_number(&mut out, files.len() as u64);
    push_text(&mut out, " file(s):\n");
    let ghost head = out@;
    let mut n: usize = 0;
    assert(out@ =~= head + group_texts(files@, views, 0));
    while n < groups.len()
        invariant
            crate::matching::files_wf(files@),
            crate::server::groups_occur(files@, views),
            views == crate::cluster::group_views(groups@),
            n <= groups@.len(),
            out@ == head + group_texts(files@, views, n as int),
        decreases groups@.len() - n,
    {
        assert(views[n as int] == crate::cluster::group_view(groups@[n as int]));
        assert(crate::cluster::all_occur(files@, views[n as int].0));
        push_group(&mut out, files, &groups[n], n + 1);
        n = n + 1;
        assert(out@ =~= head + group_texts(files@, views, n as int));
    }
    assert(out@ =~= report_of(files@, views));
    string_of(&out)
}

/// How an editor starts the language server.
#[derive(Debug)]
pub struct ServerCommand {
    pub command: String,
    pub args: Vec<String>,
}

/// The command that starts the language server: the program that was found on the search path, or
/// else the program's name.
pub fn language_server_command(found: Option<String>) -> (command: ServerCommand)
    ensures
        command.command@ == (match found {
            Some(program) => program@,
            None => "dup-detector"@,
        }),
        command.args@.len() == 1,
        command.args@[0]@ == "lsp"@,
{
    let program: String = match found {
        Some(program) => program,
        None => "dup-detector".to_owned(),
    };
    let mut args: Vec<String> = Vec::new();
    args.push("lsp".to_owned());
    ServerCommand { command: program, args }
}

} // verus!
