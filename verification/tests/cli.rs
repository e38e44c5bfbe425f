use dup_detector::cli::{language_server_command, report_text, scan_config, ScanError, ScanOptions};
use dup_detector::config::{Config, ConfigError};
use dup_detector::detect::detect;
use dup_detector::language::LanguageId;
use dup_detector::model::SourceFile;
use dup_detector::tokenize::tokenize;

fn options() -> ScanOptions {
    ScanOptions {
        min_lines: None,
        min_occurrences: None,
        max_groups: None,
        parameterize_literals: false,
        languages: vec![],
        no_ignore: false,
        max_file_bytes: None,
    }
}

fn file(path: &str, source: &str) -> SourceFile {
    SourceFile::new(
        path.to_string(),
        LanguageId::Rust,
        source.to_string(),
        tokenize(source, LanguageId::Rust).unwrap(),
        None,
        0,
    )
}

#[test]
fn flags_override_the_configuration() {
    assert_eq!(
        scan_config(Config::default(), &options()).unwrap(),
        Config::default()
    );
    let flags = ScanOptions {
        min_lines: Some(3),
        min_occurrences: Some(4),
        max_groups: Some(5),
        parameterize_literals: true,
        languages: vec!["rust".to_string(), "cpp".to_string()],
        no_ignore: true,
        max_file_bytes: Some(8388608),
    };
    assert_eq!(
        scan_config(Config::default(), &flags).unwrap(),
        Config {
            min_lines: 3,
            min_occurrences: 4,
            max_groups: Some(5),
            parameterize_literals: true,
            languages: vec![LanguageId::Rust, LanguageId::Cpp],
            no_ignore: true,
            max_file_bytes: 8388608,
            ..Config::default()
        }
    );
}

#[test]
fn flags_that_are_off_leave_the_configuration_alone() {
    let config = Config {
        parameterize_literals: true,
        no_ignore: true,
        ..Config::default()
    };
    assert_eq!(scan_config(config.clone(), &options()).unwrap(), config);
}

#[test]
fn bad_flags_are_refused() {
    let mut flags = options();
    flags.languages = vec!["rust".to_string(), "cobol".to_string()];
    let error = scan_config(Config::default(), &flags).unwrap_err();
    assert!(matches!(&error, ScanError::UnknownLanguage(name) if name == "cobol"));
    assert_eq!(error.message(), "unknown language: cobol");
    let mut flags = options();
    flags.max_file_bytes = Some(0);
    let error = scan_config(Config::default(), &flags).unwrap_err();
    assert!(matches!(
        error,
        ScanError::Config(ConfigError::InvalidParameter {
            key: "max_file_bytes",
            ..
        })
    ));
    let mut flags = options();
    flags.min_lines = Some(0);
    let error = scan_config(Config::default(), &flags).unwrap_err();
    assert_eq!(
        error.message(),
        "invalid value for parameter `min_lines`: must be at least 1"
    );
}

#[test]
fn reports_list_groups_and_places() {
    let a = file("a.rs", "fn one() -> i32 { 100 + 200 }");
    let b = file("b.rs", "\nfn one() -> i32 { 100 + 200 }");
    let config = Config {
        min_lines: 1,
        ..Config::default()
    };
    let files = [&a, &b];
    let groups = detect(&files, &config);
    assert_eq!(groups.len(), 1);
    assert_eq!(
        report_text(&files, &groups),
        format!(
            "1 clone group(s) across 2 file(s):\n#1: {} tokens, Type1, 2 occurrence(s)\n  a.rs:1:1\n  b.rs:2:2\n",
            a.tokens.len()
        )
    );
    assert_eq!(
        report_text(&files, &vec![]),
        "0 clone group(s) across 2 file(s):\n"
    );
}

#[test]
fn editors_start_the_program_that_they_found() {
    let command = language_server_command(Some("/usr/bin/dup-detector".to_string()));
    assert_eq!(command.command, "/usr/bin/dup-detector");
    assert_eq!(command.args, vec!["lsp"]);
    let command = language_server_command(None);
    assert_eq!(command.command, "dup-detector");
    assert_eq!(command.args, vec!["lsp"]);
}
