use dup_detector::config::{
    apply_file_config, config_candidates, CacheLocation, Config, ConfigError, ConfigSource, FileConfig,
    CONFIG_FILE_NAME,
};
use dup_detector::language::LanguageId;

fn parse_file(text: &str) -> FileConfig {
    let table = text.parse::<toml::Table>().unwrap();
    let number = |key: &str| {
        table
            .get(key)
            .and_then(|value| value.as_integer())
            .map(|value| value as usize)
    };
    let flag = |key: &str| table.get(key).and_then(|value| value.as_bool());
    FileConfig {
        min_lines: number("min_lines"),
        min_occurrences: number("min_occurrences"),
        max_bucket: number("max_bucket"),
        seed_window: number("seed_window"),
        max_groups: number("max_groups"),
        parameterize_literals: flag("parameterize_literals"),
        languages: table
            .get("languages")
            .and_then(|value| value.as_array())
            .map(|names| {
                names
                    .iter()
                    .map(|name| name.as_str().unwrap().to_string())
                    .collect()
            }),
        no_ignore: flag("no_ignore"),
        include_hidden: flag("include_hidden"),
        max_file_bytes: number("max_file_bytes").map(|value| value as u64),
        filter_boilerplate: flag("filter_boilerplate"),
        cache_location: table
            .get("cache_location")
            .and_then(|value| value.as_str())
            .map(|name| name.to_string()),
    }
}

fn source(path: &str, text: &str) -> ConfigSource {
    ConfigSource {
        path: path.to_string(),
        content: Ok(parse_file(text)),
    }
}

fn from_toml(text: &str) -> Result<Config, ConfigError> {
    Config::load_from_file(source(CONFIG_FILE_NAME, text))
}

#[test]
fn parses_full_config() {
    let text = r#"
            min_lines = 10
            min_occurrences = 3
            max_bucket = 16
            seed_window = 6
            max_groups = 25
            parameterize_literals = true
            languages = ["rust", "python"]
            no_ignore = true
            include_hidden = true
            max_file_bytes = 1048576
            filter_boilerplate = false
            cache_location = "user-cache"
        "#;
    let config = from_toml(text).unwrap();
    assert_eq!(
        config,
        Config {
            min_lines: 10,
            min_occurrences: 3,
            max_bucket: 16,
            seed_window: 6,
            max_groups: Some(25),
            parameterize_literals: true,
            languages: vec![LanguageId::Rust, LanguageId::Python],
            no_ignore: true,
            include_hidden: true,
            max_file_bytes: 1048576,
            filter_boilerplate: false,
            cache_location: CacheLocation::UserCache,
            types: None,
        }
    );
}

#[test]
fn parses_cache_location() {
    let user = from_toml("cache_location = \"user-cache\"\n").unwrap();
    assert_eq!(user.cache_location, CacheLocation::UserCache);
    let project = from_toml("cache_location = \"project\"\n").unwrap();
    assert_eq!(project.cache_location, CacheLocation::Project);
    let error = from_toml("cache_location = \"elsewhere\"\n");
    assert!(
        matches!(
            error,
            Err(ConfigError::InvalidValue {
                key: "cache_location",
                ..
            })
        ),
        "unknown cache location must be rejected"
    );
}

#[test]
fn project_config_overrides_user_config() {
    let user_config = "/user/dup-detector.toml".to_string();
    let project_config = "/project/dup-detector.toml".to_string();
    let config = Config::load_layered(
        Some(source(
            &user_config,
            "min_lines = 9\nmax_bucket = 64\ncache_location = \"user-cache\"\n",
        )),
        Some(source(&project_config, "min_lines = 4\n")),
    )
    .unwrap()
    .unwrap();
    assert_eq!(config.min_lines, 4, "project config wins");
    assert_eq!(
        config.max_bucket, 64,
        "user config fills the remaining keys"
    );
    assert_eq!(config.cache_location, CacheLocation::UserCache);
    assert_eq!(
        Config::source_paths(Some(user_config.clone()), Some(project_config.clone())),
        vec![user_config, project_config]
    );
}

#[test]
fn user_config_applies_without_project_config() {
    let config = Config::load_layered(
        Some(source("/user/dup-detector.toml", "min_lines = 3\n")),
        None,
    )
    .unwrap()
    .unwrap();
    assert_eq!(config.min_lines, 3);
    assert_eq!(config.min_occurrences, Config::default().min_occurrences);
}

#[test]
fn missing_file_yields_none() {
    assert_eq!(Config::load_layered(None, None).unwrap(), None);
    assert_eq!(
        Config::load_layered(None, None).unwrap().unwrap_or_default(),
        Config::default()
    );
    assert_eq!(
        Config::load_or_default(None, None).unwrap(),
        Config::default()
    );
}

#[test]
fn with_limits_rejects_degenerate_overrides() {
    let config = Config::default();
    assert!(matches!(
        config.clone().with_limits(Some(0), None, None),
        Err(ConfigError::InvalidParameter {
            key: "min_lines",
            ..
        })
    ));
    assert!(matches!(
        config.clone().with_limits(None, Some(0), None),
        Err(ConfigError::InvalidParameter {
            key: "min_occurrences",
            ..
        })
    ));
    assert!(matches!(
        config.clone().with_max_file_bytes(0),
        Err(ConfigError::InvalidParameter {
            key: "max_file_bytes",
            ..
        })
    ));
    assert!(matches!(
        config.clone().with_max_file_bytes(u32::MAX as u64 + 1),
        Err(ConfigError::InvalidParameter {
            key: "max_file_bytes",
            ..
        })
    ));
    assert_eq!(
        config
            .clone()
            .with_limits(Some(3), Some(4), Some(5))
            .unwrap(),
        Config {
            min_lines: 3,
            min_occurrences: 4,
            max_groups: Some(5),
            ..config.clone()
        }
    );
    assert_eq!(
        config.with_max_file_bytes(1024).unwrap().max_file_bytes,
        1024
    );
}

#[test]
fn rejects_degenerate_values() {
    for text in [
        "min_lines = 0",
        "min_occurrences = 0",
        "max_bucket = 0",
        "seed_window = 0",
        "max_file_bytes = 0",
        "max_file_bytes = 4294967296",
    ] {
        let error = from_toml(text);
        assert!(
            matches!(error, Err(ConfigError::InvalidValue { .. })),
            "{text} should be rejected"
        );
    }
}

#[test]
fn partial_config_keeps_defaults() {
    let config = from_toml("min_lines = 12\n").unwrap();
    assert_eq!(config.min_lines, 12);
    assert_eq!(config.min_occurrences, Config::default().min_occurrences);
    assert_eq!(config.languages, Config::default().languages);
}

#[test]
fn rejects_unknown_language() {
    let error = from_toml("languages = [\"rust\", \"cobol\"]\n");
    assert!(matches!(error, Err(ConfigError::UnknownLanguage { .. })));
}

#[test]
fn unreadable_files_are_reported() {
    let broken = ConfigSource {
        path: "/p/dup-detector.toml".to_string(),
        content: Err(ConfigError::Parse {
            path: "/p/dup-detector.toml".to_string(),
            message: "expected a value".to_string(),
        }),
    };
    let error = Config::load_layered(None, Some(broken));
    assert!(matches!(error, Err(ConfigError::Parse { .. })));
}

#[test]
fn a_broken_user_config_hides_the_project_config() {
    let error = Config::load_layered(
        Some(source("/user/dup-detector.toml", "min_lines = 0\n")),
        Some(source("/project/dup-detector.toml", "min_lines = 4\n")),
    );
    match error {
        Err(ConfigError::InvalidValue { path, key, .. }) => {
            assert_eq!(path, "/user/dup-detector.toml");
            assert_eq!(key, "min_lines");
        }
        other => panic!("unexpected {other:?}"),
    }
}

#[test]
fn configs_are_looked_for_in_every_ancestor() {
    assert_eq!(
        config_candidates("/p/src/nested"),
        vec![
            "/p/src/nested/dup-detector.toml",
            "/p/src/dup-detector.toml",
            "/p/dup-detector.toml",
            "/dup-detector.toml",
        ]
    );
}

#[test]
fn errors_explain_themselves() {
    let error = from_toml("languages = [\"cobol\"]\n").unwrap_err();
    assert_eq!(
        error.message(),
        "unknown language `cobol` in config file dup-detector.toml"
    );
    let error = from_toml("max_bucket = 0\n").unwrap_err();
    assert_eq!(
        error.message(),
        "invalid value for `max_bucket` in config file dup-detector.toml: must be at least 1"
    );
    let error = Config::default()
        .with_limits(Some(0), None, None)
        .unwrap_err();
    assert_eq!(
        error.message(),
        "invalid value for parameter `min_lines`: must be at least 1"
    );
    let error = ConfigError::Io {
        path: "/x".to_string(),
        message: "denied".to_string(),
    };
    assert_eq!(error.message(), "failed to read config file /x: denied");
    let error = ConfigError::Parse {
        path: "/x".to_string(),
        message: "bad".to_string(),
    };
    assert_eq!(error.message(), "failed to parse config file /x: bad");
}

#[test]
fn defaults_are_documented_values() {
    let config = Config::default();
    assert_eq!(config.min_lines, 7);
    assert_eq!(config.min_occurrences, 2);
    assert_eq!(config.max_bucket, 32);
    assert_eq!(config.seed_window, 8);
    assert_eq!(config.max_groups, None);
    assert!(!config.parameterize_literals);
    assert_eq!(config.languages, LanguageId::ALL.to_vec());
    assert_eq!(config.max_file_bytes, 2 * 1024 * 1024);
    assert!(config.filter_boilerplate);
    assert_eq!(config.cache_location, CacheLocation::Project);
}

#[test]
fn only_listed_languages_are_enabled() {
    let only = Config {
        languages: vec![LanguageId::Rust],
        ..Config::default()
    };
    assert!(only.language_enabled(LanguageId::Rust));
    assert!(!only.language_enabled(LanguageId::Python));
}

#[test]
fn cache_locations_have_names() {
    assert_eq!(
        CacheLocation::from_name("project"),
        Some(CacheLocation::Project)
    );
    assert_eq!(
        CacheLocation::from_name("user-cache"),
        Some(CacheLocation::UserCache)
    );
    assert_eq!(CacheLocation::from_name("elsewhere"), None);
}

#[test]
fn refused_files_leave_what_was_laid_over() {
    let mut config = Config::default();
    let file = parse_file(
        "min_lines = 9\nlanguages = [\"cobol\"]\ncache_location = \"user-cache\"\n",
    );
    assert!(apply_file_config(&mut config, file, "x.toml").is_err());
    assert_eq!(
        config,
        Config {
            min_lines: 9,
            ..Config::default()
        }
    );
    let mut config = Config::default();
    let file = parse_file(
        "max_bucket = 5\nlanguages = [\"rust\"]\ncache_location = \"elsewhere\"\n",
    );
    assert!(apply_file_config(&mut config, file, "x.toml").is_err());
    assert_eq!(
        config,
        Config {
            max_bucket: 5,
            languages: vec![LanguageId::Rust],
            ..Config::default()
        }
    );
    let mut config = Config::default();
    let file = parse_file("seed_window = 0\ncache_location = \"user-cache\"\n");
    assert!(apply_file_config(&mut config, file, "x.toml").is_err());
    assert_eq!(
        config,
        Config {
            seed_window: 0,
            cache_location: CacheLocation::UserCache,
            ..Config::default()
        }
    );
}

#[test]
fn broken_files_never_fall_back_to_the_defaults() {
    let broken = || source("/p/dup-detector.toml", "min_lines = 0\n");
    assert!(Config::load_or_default(None, Some(broken())).is_err());
    assert!(Config::load_or_default(Some(broken()), None).is_err());
    let user = || source("/u/dup-detector.toml", "min_lines = 3\n");
    assert_eq!(
        Config::load_or_default(Some(user()), None).unwrap(),
        Config::load_layered(Some(user()), None).unwrap().unwrap()
    );
}
