//! Detection settings and the rules for layering configuration files.
use vstd::prelude::*;
use vstd::string::StringExecFns;

use crate::language::LanguageId;
use crate::model::CloneType;
use crate::text::{push_text, str_equal, string_of};

verus! {

pub const CONFIG_FILE_NAME: &'static str = "dup-detector.toml";

pub const CONFIG_DIR_NAME: &'static str = "dup-detector";

/// Where per-file token caches are stored.
#[derive(Debug, Clone, Copy, PartialEq, Eq, Structural)]
pub enum CacheLocation {
    /// `<project root>/.dup-detector`, the default.
    Project,
    /// A per-root directory under the user's platform cache directory.
    UserCache,
}

impl Default for CacheLocation {
    fn default() -> (location: Self)
        ensures
            location == CacheLocation::Project,
    {
        CacheLocation::Project
    }
}

/// The location that a configuration value names.
pub open spec fn location_named(name: Seq<char>) -> Option<CacheLocation> {
    if name == "project"@ {
        Some(CacheLocation::Project)
    } else if name == "user-cache"@ {
        Some(CacheLocation::UserCache)
    } else {
        None
    }
}

impl CacheLocation {
    pub fn from_name(name: &str) -> (location: Option<Self>)
        ensures
            location == location_named(name@),
    {
        if str_equal(name, "project") {
            Some(CacheLocation::Project)
        } else if str_equal(name, "user-cache") {
            Some(CacheLocation::UserCache)
        } else {
            None
        }
    }
}

#[derive(Debug, Clone, PartialEq)]
pub struct Config {
    pub min_lines: usize,
    pub min_occurrences: usize,
    pub max_bucket: usize,
    pub seed_window: usize,
    pub max_groups: Option<usize>,
    pub parameterize_literals: bool,
    pub languages: Vec<LanguageId>,
    pub no_ignore: bool,
    pub include_hidden: bool,
    pub max_file_bytes: u64,
    /// Drop clone groups whose occurrences look like pure declarations
    /// (imports, struct fields, ...) with no logic markers.
    pub filter_boilerplate: bool,
    /// Directory for the on-disk token cache.
    pub cache_location: CacheLocation,
    /// Per-request clone type filter; applied during detection so that
    /// `max_groups` truncation happens after filtering. Not settable from the
    /// config file.
    pub types: Option<Vec<CloneType>>,
}

/// The built-in settings.
pub open spec fn is_default(config: Config) -> bool {
    &&& config.min_lines == 7
    &&& config.min_occurrences == 2
    &&& config.max_bucket == 32
    &&& config.seed_window == 8
    &&& config.max_groups is None
    &&& !config.parameterize_literals
    &&& config.languages@ == LanguageId::ALL@
    &&& !config.no_ignore
    &&& !config.include_hidden
    &&& config.max_file_bytes == 2 * 1024 * 1024
    &&& config.filter_boilerplate
    &&& config.cache_location == CacheLocation::Project
    &&& config.types is None
}

impl Default for Config {
    fn default() -> (config: Self)
        ensures
            is_default(config),
    {
        let languages: Vec<LanguageId> = vec![
            LanguageId::Rust,
            LanguageId::Python,
            LanguageId::JavaScript,
            LanguageId::TypeScript,
            LanguageId::Tsx,
            LanguageId::Cpp,
        ];
        assert(languages@ =~= LanguageId::ALL@);
        Config {
            min_lines: 7,
            min_occurrences: 2,
            max_bucket: 32,
            seed_window: 8,
            max_groups: None,
            parameterize_literals: false,
            languages,
            no_ignore: false,
            include_hidden: false,
            max_file_bytes: 2 * 1024 * 1024,
            filter_boilerplate: true,
            cache_location: CacheLocation::Project,
            types: None,
        }
    }
}

/// Why a configuration cannot be used.
#[derive(Debug, Clone)]
pub enum ConfigError {
    /// The file could not be read.
    Io { path: String, message: String },
    /// The file is not valid configuration syntax.
    Parse { path: String, message: String },
    UnknownLanguage { path: String, name: String },
    InvalidValue { path: String, key: &'static str, message: String },
    InvalidParameter { key: &'static str, message: String },
}

/// The settings that one configuration file gives.
#[derive(Debug, Clone)]
pub struct FileConfig {
    pub min_lines: Option<usize>,
    pub min_occurrences: Option<usize>,
    pub max_bucket: Option<usize>,
    pub seed_window: Option<usize>,
    pub max_groups: Option<usize>,
    pub parameterize_literals: Option<bool>,
    pub languages: Option<Vec<String>>,
    pub no_ignore: Option<bool>,
    pub include_hidden: Option<bool>,
    pub max_file_bytes: Option<u64>,
    pub filter_boilerplate: Option<bool>,
    pub cache_location: Option<String>,
}

impl Default for FileConfig {
    fn default() -> (file: Self)
        ensures
            file == (FileConfig {
                min_lines: None,
                min_occurrences: None,
                max_bucket: None,
                seed_window: None,
                max_groups: None,
                parameterize_literals: None,
                languages: None,
                no_ignore: None,
                include_hidden: None,
                max_file_bytes: None,
                filter_boilerplate: None,
                cache_location: None,
            }),
    {
        FileConfig {
            min_lines: None,
            min_occurrences: None,
            max_bucket: None,
            seed_window: None,
            max_groups: None,
            parameterize_literals: None,
            languages: None,
            no_ignore: None,
            include_hidden: None,
            max_file_bytes: None,
            filter_boilerplate: None,
            cache_location: None,
        }
    }
}

/// A configuration file as it was found: its path and what reading it gave.
pub struct ConfigSource {
    pub path: String,
    pub content: Result<FileConfig, ConfigError>,
}

/// The value that is given, or else the one that stands.
pub open spec fn given_or<T>(given: Option<T>, standing: T) -> T {
    match given {
        Some(value) => value,
        None => standing,
    }
}

/// The language that a configuration name stands for, in any letter case.
pub open spec fn language_named(name: String) -> Option<LanguageId> {
    crate::language::name_language(crate::text::ascii_lowercase(name@))
}

/// The position of the first name that is no language.
pub open spec fn first_unknown(names: Seq<String>, from: int) -> Option<int>
    decreases names.len() - from,
{
    if from >= names.len() {
        None
    } else if language_named(names[from]) is None {
        Some(from)
    } else {
        first_unknown(names, from + 1)
    }
}

/// The languages that the names stand for.
pub open spec fn languages_named(names: Seq<String>) -> Seq<LanguageId> {
    names.map_values(|name: String| language_named(name).unwrap())
}

/// What is wrong with a configuration file.
pub enum ConfigProblem {
    /// The language name at this position is unknown.
    UnknownLanguage(int),
    UnknownCacheLocation,
    NoMinLines,
    NoMinOccurrences,
    NoMaxBucket,
    NoSeedWindow,
    NoMaxFileBytes,
    LargeMaxFileBytes,
}

/// The first thing that is wrong with `file` when it is laid over `config`.
pub open spec fn config_problem(config: Config, file: FileConfig) -> Option<ConfigProblem> {
    if file.languages is Some && first_unknown(file.languages.unwrap()@, 0) is Some {
        Some(ConfigProblem::UnknownLanguage(first_unknown(file.languages.unwrap()@, 0).unwrap()))
    } else if file.cache_location is Some && location_named(file.cache_location.unwrap()@) is None {
        Some(ConfigProblem::UnknownCacheLocation)
    } else if given_or(file.min_lines, config.min_lines) == 0 {
        Some(ConfigProblem::NoMinLines)
    } else if given_or(file.min_occurrences, config.min_occurrences) == 0 {
        Some(ConfigProblem::NoMinOccurrences)
    } else if given_or(file.max_bucket, config.max_bucket) == 0 {
        Some(ConfigProblem::NoMaxBucket)
    } else if given_or(file.seed_window, config.seed_window) == 0 {
        Some(ConfigProblem::NoSeedWindow)
    } else if given_or(file.max_file_bytes, config.max_file_bytes) == 0 {
        Some(ConfigProblem::NoMaxFileBytes)
    } else if given_or(file.max_file_bytes, config.max_file_bytes) > u32::MAX {
        Some(ConfigProblem::LargeMaxFileBytes)
    } else {
        None
    }
}

/// `error` says that `key` has an invalid value in the file at `path`.
pub open spec fn rejects_value(
    error: ConfigError,
    path: Seq<char>,
    key: Seq<char>,
    message: Seq<char>,
) -> bool {
    error matches ConfigError::InvalidValue { path: p, key: k, message: m } && p@ == path && k@ == key
        && m@ == message
}

/// `error` says that the parameter `key` has an invalid value.
pub open spec fn rejects_parameter(error: ConfigError, key: Seq<char>, message: Seq<char>) -> bool {
    error matches ConfigError::InvalidParameter { key: k, message: m } && k@ == key && m@ == message
}

/// `error` reports `problem`.
pub open spec fn reports(
    error: ConfigError,
    problem: ConfigProblem,
    file: FileConfig,
    path: Seq<char>,
) -> bool {
    match problem {
        ConfigProblem::UnknownLanguage(i) => {
            error matches ConfigError::UnknownLanguage { path: p, name: n } && p@ == path && n@
                == file.languages.unwrap()@[i]@
        },
        ConfigProblem::UnknownCacheLocation => rejects_value(
            error,
            path,
            "cache_location"@,
            "expected `project` or `user-cache`"@,
        ),
        ConfigProblem::NoMinLines => rejects_value(
            error,
            path,
            "min_lines"@,
            "must be at least 1"@,
        ),
        ConfigProblem::NoMinOccurrences => rejects_value(
            error,
            path,
            "min_occurrences"@,
            "must be at least 1"@,
        ),
        ConfigProblem::NoMaxBucket => rejects_value(
            error,
            path,
            "max_bucket"@,
            "must be at least 1"@,
        ),
        ConfigProblem::NoSeedWindow => rejects_value(
            error,
            path,
            "seed_window"@,
            "must be at least 1"@,
        ),
        ConfigProblem::NoMaxFileBytes => rejects_value(
            error,
            path,
            "max_file_bytes"@,
            "must be at least 1"@,
        ),
        ConfigProblem::LargeMaxFileBytes => rejects_value(
            error,
            path,
            "max_file_bytes"@,
            "exceeds the 4 GiB token-offset limit"@,
        ),
    }
}

/// `result` has the numbers and switches of `file` laid over those of `config`.
pub open spec fn has_plain_values(config: Config, file: FileConfig, result: Config) -> bool {
    &&& result.min_lines == given_or(file.min_lines, config.min_lines)
    &&& result.min_occurrences == given_or(file.min_occurrences, config.min_occurrences)
    &&& result.max_bucket == given_or(file.max_bucket, config.max_bucket)
    &&& result.seed_window == given_or(file.seed_window, config.seed_window)
    &&& result.max_groups == (match file.max_groups {
        Some(value) => Some(value),
        None => config.max_groups,
    })
    &&& result.parameterize_literals == given_or(
        file.parameterize_literals,
        config.parameterize_literals,
    )
    &&& result.no_ignore == given_or(file.no_ignore, config.no_ignore)
    &&& result.include_hidden == given_or(file.include_hidden, config.include_hidden)
    &&& result.max_file_bytes == given_or(file.max_file_bytes, config.max_file_bytes)
    &&& result.filter_boilerplate == given_or(file.filter_boilerplate, config.filter_boilerplate)
    &&& result.types == config.types
}

/// The languages after those of `file` are laid over those of `config`.
pub open spec fn overlaid_languages(config: Config, file: FileConfig) -> Seq<LanguageId> {
    match file.languages {
        Some(names) => languages_named(names@),
        None => config.languages@,
    }
}

/// `result` is `config` with the settings of `file` laid over it.
pub open spec fn is_overlay(config: Config, file: FileConfig, result: Config) -> bool {
    &&& has_plain_values(config, file, result)
    &&& result.languages@ == overlaid_languages(config, file)
    &&& result.cache_location == (match file.cache_location {
        Some(name) => location_named(name@).unwrap(),
        None => config.cache_location,
    })
}

/// `result` is what a file that is refused leaves behind: all that was laid over `config` before
/// the problem was met. Numbers and switches come first, then the languages, then the cache
/// location; limits are checked last.
pub open spec fn is_refused_overlay(
    config: Config,
    file: FileConfig,
    problem: ConfigProblem,
    result: Config,
) -> bool {
    match problem {
        ConfigProblem::UnknownLanguage(_) => {
            &&& has_plain_values(config, file, result)
            &&& result.languages == config.languages
            &&& result.cache_location == config.cache_location
        },
        ConfigProblem::UnknownCacheLocation => {
            &&& has_plain_values(config, file, result)
            &&& result.languages@ == overlaid_languages(config, file)
            &&& result.cache_location == config.cache_location
        },
        _ => is_overlay(config, file, result),
    }
}

fn invalid(path: &str, key: &'static str, message: &str) -> (error: ConfigError)
    ensures
        rejects_value(error, path@, key@, message@),
{
    ConfigError::InvalidValue { path: path.to_owned(), key, message: message.to_owned() }
}

fn invalid_parameter(key: &'static str, message: &str) -> (error: ConfigError)
    ensures
        rejects_parameter(error, key@, message@),
{
    ConfigError::InvalidParameter { key, message: message.to_owned() }
}

/// Reads the language names of a configuration file.
fn parse_languages(names: &Vec<String>, path: &str) -> (result: Result<Vec<LanguageId>, ConfigError>)
    ensures
        match result {
            Ok(languages) => first_unknown(names@, 0) is None && languages@ == languages_named(
                names@,
            ),
            Err(error) => first_unknown(names@, 0) matches Some(i) && (error
                matches ConfigError::UnknownLanguage { path: p, name: n } && p@ == path@ && n@
                == names@[i]@),
        },
{
    let mut languages: Vec<LanguageId> = Vec::new();
    let mut i: usize = 0;
    while i < names.len()
        invariant
            i <= names@.len(),
            first_unknown(names@, 0) == first_unknown(names@, i as int),
            languages@ == languages_named(names@).take(i as int),
        decreases names@.len() - i,
    {
        match LanguageId::from_name(names[i].as_str()) {
            Some(language) => {
                languages.push(language);
            },
            None => {
                return Err(
                    ConfigError::UnknownLanguage { path: path.to_owned(), name: names[i].clone() },
                );
            },
        }
        i = i + 1;
        assert(languages@ =~= languages_named(names@).take(i as int));
    }
    assert(languages@ =~= languages_named(names@));
    Ok(languages)
}

fn pick<T: Copy>(given: Option<T>, standing: T) -> (value: T)
    ensures
        value == given_or(given, standing),
{
    match given {
        Some(value) => value,
        None => standing,
    }
}

/// The first limit of `config` that detection cannot work with.
pub open spec fn limit_problem(config: Config) -> Option<ConfigProblem> {
    if config.min_lines == 0 {
        Some(ConfigProblem::NoMinLines)
    } else if config.min_occurrences == 0 {
        Some(ConfigProblem::NoMinOccurrences)
    } else if config.max_bucket == 0 {
        Some(ConfigProblem::NoMaxBucket)
    } else if config.seed_window == 0 {
        Some(ConfigProblem::NoSeedWindow)
    } else if config.max_file_bytes == 0 {
        Some(ConfigProblem::NoMaxFileBytes)
    } else if config.max_file_bytes > u32::MAX {
        Some(ConfigProblem::LargeMaxFileBytes)
    } else {
        None
    }
}

fn check_limits(config: &Config, path: &str) -> (result: Result<(), ConfigError>)
    ensures
        match result {
            Ok(()) => limit_problem(*config) is None,
            Err(error) => limit_problem(*config) matches Some(problem) && forall|file: FileConfig|
                reports(error, problem, file, path@),
        },
{
    if config.min_lines == 0 {
        return Err(invalid(path, "min_lines", "must be at least 1"));
    }
    if config.min_occurrences == 0 {
        return Err(invalid(path, "min_occurrences", "must be at least 1"));
    }
    if config.max_bucket == 0 {
        return Err(invalid(path, "max_bucket", "must be at least 1"));
    }
    if config.seed_window == 0 {
        return Err(invalid(path, "seed_window", "must be at least 1"));
    }
    if config.max_file_bytes == 0 {
        return Err(invalid(path, "max_file_bytes", "must be at least 1"));
    }
    if config.max_file_bytes > u32::MAX as u64 {
        return Err(invalid(path, "max_file_bytes", "exceeds the 4 GiB token-offset limit"));
    }
    Ok(())
}

/// Lays the settings of a configuration file over `config` and checks the outcome.
pub fn apply_file_config(config: &mut Config, file: FileConfig, path: &str) -> (result: Result<
    (),
    ConfigError,
>)
    ensures
        match result {
            Ok(()) => config_problem(*old(config), file) is None && is_overlay(
                *old(config),
                file,
                *final(config),
            ),
            Err(error) => config_problem(*old(config), file) matches Some(problem) && reports(
                error,
                problem,
                file,
                path@,
            ) && is_refused_overlay(*old(config), file, problem, *final(config)),
        },
{
    config.min_lines = pick(file.min_lines, config.min_lines);
    config.min_occurrences = pick(file.min_occurrences, config.min_occurrences);
    config.max_bucket = pick(file.max_bucket, config.max_bucket);
    config.seed_window = pick(file.seed_window, config.seed_window);
    config.max_groups = match file.max_groups {
        Some(value) => Some(value),
        None => config.max_groups,
    };
    config.parameterize_literals = pick(file.parameterize_literals, config.parameterize_literals);
    config.max_file_bytes = pick(file.max_file_bytes, config.max_file_bytes);
    config.include_hidden = pick(file.include_hidden, config.include_hidden);
    config.no_ignore = pick(file.no_ignore, config.no_ignore);
    config.filter_boilerplate = pick(file.filter_boilerplate, config.filter_boilerplate);
    if let Some(names) = &file.languages {
        match parse_languages(names, path) {
            Ok(languages) => {
                config.languages = languages;
            },
            Err(error) => {
                return Err(error);
            },
        }
    }
    if let Some(name) = &file.cache_location {
        match CacheLocation::from_name(name.as_str()) {
            Some(location) => {
                config.cache_location = location;
            },
            None => {
                return Err(invalid(path, "cache_location", "expected `project` or `user-cache`"));
            },
        }
    }
    check_limits(config, path)
}

/// What laying one file over a configuration amounts to: `Ok` with the overlay, or the error.
pub open spec fn is_layer_result(
    config: Config,
    source: ConfigSource,
    result: Result<Config, ConfigError>,
) -> bool {
    match source.content {
        Err(error) => result == Err::<Config, ConfigError>(error),
        Ok(file) => match config_problem(config, file) {
            Some(problem) => result matches Err(error) && reports(
                error,
                problem,
                file,
                source.path@,
            ),
            None => result matches Ok(merged) && is_overlay(config, file, merged),
        },
    }
}

fn layer(config: Config, source: ConfigSource) -> (result: Result<Config, ConfigError>)
    ensures
        is_layer_result(config, source, result),
{
    match source.content {
        Err(error) => Err(error),
        Ok(file) => {
            let mut merged = config;
            match apply_file_config(&mut merged, file, source.path.as_str()) {
                Ok(()) => Ok(merged),
                Err(error) => Err(error),
            }
        },
    }
}

/// `error` says why a limit on the size of files is not accepted.
pub open spec fn refuses_max_file_bytes(error: ConfigError, limit: u64) -> bool {
    if limit == 0 {
        rejects_parameter(error, "max_file_bytes"@, "must be at least 1"@)
    } else {
        limit > u32::MAX && rejects_parameter(
            error,
            "max_file_bytes"@,
            "exceeds the 4 GiB token-offset limit"@,
        )
    }
}

impl Config {
    /// Every limit is one that detection can work with.
    pub open spec fn is_valid(&self) -> bool {
        &&& self.min_lines >= 1
        &&& self.min_occurrences >= 1
        &&& self.max_bucket >= 1
        &&& self.seed_window >= 1
        &&& 1 <= self.max_file_bytes <= u32::MAX
    }

    /// The effective configuration: built-in defaults, overridden by the user-level file,
    /// overridden by the project-level file. `None` when neither exists.
    pub fn load_layered(user: Option<ConfigSource>, project: Option<ConfigSource>) -> (result: Result<
        Option<Self>,
        ConfigError,
    >)
        ensures
            is_layered(user, project, result),
    {
        if user.is_none() && project.is_none() {
            return Ok(None);
        }
        let base = Config::default();
        let ghost base0 = base;
        let first: Result<Config, ConfigError> = match user {
            Some(source) => layer(base, source),
            None => Ok(base),
        };
        assert(is_first_layer(base0, user, first));
        match first {
            Err(error) => Err(error),
            Ok(config) => match project {
                None => Ok(Some(config)),
                Some(source) => match layer(config, source) {
                    Ok(merged) => Ok(Some(merged)),
                    Err(error) => Err(error),
                },
            },
        }
    }

    /// `load_layered`, with the defaults where no file exists.
    pub fn load_or_default(user: Option<ConfigSource>, project: Option<ConfigSource>) -> (result:
        Result<Self, ConfigError>)
        ensures
            is_loaded(user, project, result),
    {
        match Self::load_layered(user, project) {
            Ok(Some(config)) => Ok(config),
            Ok(None) => Ok(Config::default()),
            Err(error) => Err(error),
        }
    }

    /// The configuration that one file gives on top of the defaults.
    pub fn load_from_file(source: ConfigSource) -> (result: Result<Self, ConfigError>)
        ensures
            exists|base: Config| #[trigger] is_default(base) && is_layer_result(base, source, result),
    {
        let base = Config::default();
        assert(is_default(base));
        layer(base, source)
    }

    /// The configuration files in increasing priority: the user-level file, then the project's.
    pub fn source_paths(user: Option<String>, project: Option<String>) -> (paths: Vec<String>)
        ensures
            paths@ == option_seq(user) + option_seq(project),
    {
        let mut paths: Vec<String> = Vec::new();
        if let Some(path) = user {
            paths.push(path);
        }
        if let Some(path) = project {
            paths.push(path);
        }
        assert(paths@ =~= option_seq(user) + option_seq(project));
        paths
    }

    pub fn language_enabled(&self, language: LanguageId) -> (enabled: bool)
        ensures
            enabled == self.languages@.contains(language),
    {
        let mut i: usize = 0;
        while i < self.languages.len()
            invariant
                i <= self.languages@.len(),
                forall|k: int| 0 <= k < i ==> self.languages@[k] != language,
            decreases self.languages@.len() - i,
        {
            if self.languages[i] == language {
                assert(self.languages@[i as int] == language);
                return true;
            }
            i = i + 1;
        }
        false
    }

    /// Overrides limits for one request; zero is refused where it makes no sense.
    pub fn with_limits(
        self,
        min_lines: Option<usize>,
        min_occurrences: Option<usize>,
        max_groups: Option<usize>,
    ) -> (result: Result<Self, ConfigError>)
        ensures
            match result {
                Ok(config) => min_lines != Some(0usize) && min_occurrences != Some(0usize) && config == (
                Config {
                    min_lines: given_or(min_lines, self.min_lines),
                    min_occurrences: given_or(min_occurrences, self.min_occurrences),
                    max_groups: (match max_groups {
                        Some(v) => Some(v),
                        None => self.max_groups,
                    }),
                    ..self
                }),
                Err(error) => if min_lines == Some(0usize) {
                    rejects_parameter(error, "min_lines"@, "must be at least 1"@)
                } else {
                    min_occurrences == Some(0usize) && rejects_parameter(
                        error,
                        "min_occurrences"@,
                        "must be at least 1"@,
                    )
                },
            },
    {
        let mut config = self;
        if let Some(v) = min_lines {
            if v == 0 {
                return Err(invalid_parameter("min_lines", "must be at least 1"));
            }
            config.min_lines = v;
        }
        if let Some(v) = min_occurrences {
            if v == 0 {
                return Err(invalid_parameter("min_occurrences", "must be at least 1"));
            }
            config.min_occurrences = v;
        }
        if let Some(v) = max_groups {
            config.max_groups = Some(v);
        }
        Ok(config)
    }

    /// Overrides the file size limit; it must be positive and fit token offsets.
    pub fn with_max_file_bytes(self, max_file_bytes: u64) -> (result: Result<Self, ConfigError>)
        ensures
            match result {
                Ok(config) => 1 <= max_file_bytes <= u32::MAX && config == (Config {
                    max_file_bytes,
                    ..self
                }),
                Err(error) => refuses_max_file_bytes(error, max_file_bytes),
            },
    {
        if max_file_bytes == 0 {
            return Err(invalid_parameter("max_file_bytes", "must be at least 1"));
        }
        if max_file_bytes > u32::MAX as u64 {
            return Err(invalid_parameter("max_file_bytes", "exceeds the 4 GiB token-offset limit"));
        }
        let mut config = self;
        config.max_file_bytes = max_file_bytes;
        Ok(config)
    }
}

/// An optional value as a sequence of at most one.
pub open spec fn option_seq<T>(value: Option<T>) -> Seq<T> {
    match value {
        Some(v) => seq![v],
        None => Seq::empty(),
    }
}

/// The outcome of laying the user-level file, if there is one, over the defaults.
pub open spec fn is_first_layer(
    base: Config,
    user: Option<ConfigSource>,
    first: Result<Config, ConfigError>,
) -> bool {
    match user {
        Some(source) => is_layer_result(base, source, first),
        None => first == Ok::<Config, ConfigError>(base),
    }
}

/// What `load_layered` may return.
pub open spec fn is_layered(
    user: Option<ConfigSource>,
    project: Option<ConfigSource>,
    result: Result<Option<Config>, ConfigError>,
) -> bool {
    if user is None && project is None {
        result == Ok::<Option<Config>, ConfigError>(None)
    } else {
        exists|base: Config, first: Result<Config, ConfigError>|
            #![trigger is_default(base), is_first_layer(base, user, first)]
            is_default(base) && is_first_layer(base, user, first) && match (first, project) {
                (Err(error), _) => result == Err::<Option<Config>, ConfigError>(error),
                (Ok(config), None) => result == Ok::<Option<Config>, ConfigError>(Some(config)),
                (Ok(config), Some(source)) => match result {
                    Ok(Some(merged)) => is_layer_result(config, source, Ok(merged)),
                    Ok(None) => false,
                    Err(error) => is_layer_result(config, source, Err(error)),
                },
            }
    }
}

/// What `load_or_default` may return.
pub open spec fn is_loaded(
    user: Option<ConfigSource>,
    project: Option<ConfigSource>,
    result: Result<Config, ConfigError>,
) -> bool {
    exists|layered: Result<Option<Config>, ConfigError>| #[trigger]
        is_layered(user, project, layered) && match layered {
            Ok(Some(config)) => result == Ok::<Config, ConfigError>(config),
            Ok(None) => result matches Ok(config) && is_default(config),
            Err(error) => result == Err::<Config, ConfigError>(error),
        }
}

/// Only missing files fall back to the defaults: where there is a file, what `load_or_default`
/// returns is what `load_layered` may return, and a broken file is an error in both; where there
/// is none, it returns the defaults.
pub proof fn only_missing_files_fall_back(
    user: Option<ConfigSource>,
    project: Option<ConfigSource>,
    result: Result<Config, ConfigError>,
)
    requires
        is_loaded(user, project, result),
    ensures
        user is None && project is None ==> result is Ok && is_default(result->Ok_0),
        user is Some || project is Some ==> is_layered(
            user,
            project,
            match result {
                Ok(config) => Ok(Some(config)),
                Err(error) => Err(error),
            },
        ),
        user matches Some(source) && source.content is Err ==> result == Err::<
            Config,
            ConfigError,
        >(user->0.content->Err_0),
        user is None && (project matches Some(source) && source.content is Err) ==> result == Err::<
            Config,
            ConfigError,
        >(project->0.content->Err_0),
{
}

/// The built-in settings are valid.
pub proof fn defaults_are_valid(config: Config)
    requires
        is_default(config),
    ensures
        config.is_valid(),
{
}

/// A file is accepted exactly when the outcome is valid and every name in it is known, so no
/// degenerate value ever gets into effect.
pub proof fn accepted_overlay_is_valid(config: Config, file: FileConfig, result: Config)
    requires
        is_overlay(config, file, result),
    ensures
        config_problem(config, file) is None ==> result.is_valid(),
        config_problem(config, file) is None <==> (result.is_valid() && (file.languages is Some
            ==> first_unknown(file.languages.unwrap()@, 0) is None) && (file.cache_location is Some
            ==> location_named(file.cache_location.unwrap()@) is Some)),
{
}

/// A value that the project file gives wins over the user file; what it leaves out comes from
/// the user file; what both leave out keeps its default.
pub proof fn project_overrides_user(
    base: Config,
    user: FileConfig,
    project: FileConfig,
    middle: Config,
    result: Config,
)
    requires
        is_overlay(base, user, middle),
        is_overlay(middle, project, result),
    ensures
        result.min_lines == given_or(project.min_lines, given_or(user.min_lines, base.min_lines)),
        result.min_occurrences == given_or(
            project.min_occurrences,
            given_or(user.min_occurrences, base.min_occurrences),
        ),
        result.max_bucket == given_or(
            project.max_bucket,
            given_or(user.max_bucket, base.max_bucket),
        ),
        result.seed_window == given_or(
            project.seed_window,
            given_or(user.seed_window, base.seed_window),
        ),
        project.max_groups is Some ==> result.max_groups == project.max_groups,
        project.max_groups is None && user.max_groups is Some ==> result.max_groups
            == user.max_groups,
        project.max_groups is None && user.max_groups is None ==> result.max_groups
            == base.max_groups,
        result.parameterize_literals == given_or(
            project.parameterize_literals,
            given_or(user.parameterize_literals, base.parameterize_literals),
        ),
        result.no_ignore == given_or(project.no_ignore, given_or(user.no_ignore, base.no_ignore)),
        result.include_hidden == given_or(
            project.include_hidden,
            given_or(user.include_hidden, base.include_hidden),
        ),
        result.max_file_bytes == given_or(
            project.max_file_bytes,
            given_or(user.max_file_bytes, base.max_file_bytes),
        ),
        result.filter_boilerplate == given_or(
            project.filter_boilerplate,
            given_or(user.filter_boilerplate, base.filter_boilerplate),
        ),
        project.languages matches Some(names) ==> result.languages@ == languages_named(names@),
        project.languages is None ==> (user.languages matches Some(names) ==> result.languages@
            == languages_named(names@)),
        project.languages is None && user.languages is None ==> result.languages@
            == base.languages@,
        project.cache_location matches Some(name) ==> Some(result.cache_location)
            == location_named(name@) || location_named(name@) is None,
        project.cache_location is None && user.cache_location is None ==> result.cache_location
            == base.cache_location,
        project.cache_location is None ==> result.cache_location == middle.cache_location,
{
}

/// The paths at which the configuration file of a directory can stand, nearest first: in the
/// directory, in the one it lies in, and so on up.
pub fn config_candidates(dir: &str) -> (candidates: Vec<String>)
    ensures
        candidates@.map_values(|text: String| text@) == crate::paths::ancestors_of(dir@).map_values(
            |ancestor: Seq<char>| crate::paths::joined(ancestor, CONFIG_FILE_NAME@),
        ),
{
    let ancestors = crate::paths::ancestors(dir);
    let ghost wanted = crate::paths::ancestors_of(dir@).map_values(
        |ancestor: Seq<char>| crate::paths::joined(ancestor, CONFIG_FILE_NAME@),
    );
    let mut candidates: Vec<String> = Vec::new();
    let mut i: usize = 0;
    while i < ancestors.len()
        invariant
            ancestors@.map_values(|text: String| text@) == crate::paths::ancestors_of(dir@),
            wanted == crate::paths::ancestors_of(dir@).map_values(
                |ancestor: Seq<char>| crate::paths::joined(ancestor, CONFIG_FILE_NAME@),
            ),
            i <= ancestors@.len(),
            candidates@.map_values(|text: String| text@) == wanted.take(i as int),
        decreases ancestors@.len() - i,
    {
        let ghost before = candidates@.map_values(|text: String| text@);
        assert(ancestors@.map_values(|text: String| text@)[i as int] == ancestors@[i as int]@);
        candidates.push(crate::paths::join(ancestors[i].as_str(), CONFIG_FILE_NAME));
        i = i + 1;
        assert(candidates@.map_values(|text: String| text@) =~= before.push(wanted[i - 1]));
        assert(wanted.take(i as int) =~= wanted.take(i - 1).push(wanted[i - 1]));
    }
    assert(ancestors@.map_values(|text: String| text@).len() == ancestors@.len());
    assert(candidates@.map_values(|text: String| text@) =~= wanted);
    candidates
}

/// What is said of a configuration error.
pub open spec fn error_text(error: ConfigError) -> Seq<char> {
    match error {
        ConfigError::Io { path, message } => "failed to read config file "@ + path@ + ": "@ + message@,
        ConfigError::Parse { path, message } => "failed to parse config file "@ + path@ + ": "@
            + message@,
        ConfigError::UnknownLanguage { path, name } => "unknown language `"@ + name@
            + "` in config file "@ + path@,
        ConfigError::InvalidValue { path, key, message } => "invalid value for `"@ + key@
            + "` in config file "@ + path@ + ": "@ + message@,
        ConfigError::InvalidParameter { key, message } => "invalid value for parameter `"@ + key@
            + "`: "@ + message@,
    }
}

impl ConfigError {
    /// What is said of the error.
    pub fn message(&self) -> (text: String)
        ensures
            text@ == error_text(*self),
    {
        let mut out: Vec<char> = Vec::new();
        match self {
            ConfigError::Io { path, message } => {
                push_text(&mut out, "failed to read config file ");
                push_text(&mut out, path.as_str());
                push_text(&mut out, ": ");
                push_text(&mut out, message.as_str());
            },
            ConfigError::Parse { path, message } => {
                push_text(&mut out, "failed to parse config file ");
                push_text(&mut out, path.as_str());
                push_text(&mut out, ": ");
                push_text(&mut out, message.as_str());
            },
            ConfigError::UnknownLanguage { path, name } => {
                push_text(&mut out, "unknown language `");
                push_text(&mut out, name.as_str());
                push_text(&mut out, "` in config file ");
                push_text(&mut out, path.as_str());
            },
            ConfigError::InvalidValue { path, key, message } => {
                push_text(&mut out, "invalid value for `");
                push_text(&mut out, key);
                push_text(&mut out, "` in config file ");
                push_text(&mut out, path.as_str());
                push_text(&mut out, ": ");
                push_text(&mut out, message.as_str());
            },
            ConfigError::InvalidParameter { key, message } => {
                push_text(&mut out, "invalid value for parameter `");
                push_text(&mut out, key);
                push_text(&mut out, "`: ");
                push_text(&mut out, message.as_str());
            },
        }
        assert(out@ =~= error_text(*self));
        string_of(&out)
    }
}

} // verus!
