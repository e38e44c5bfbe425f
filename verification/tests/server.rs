use dup_detector::config::{Config, ConfigError};
use dup_detector::index::{parse_file, FileStamp, Loaded, SourceIndex};
use dup_detector::language::LanguageId;
use dup_detector::model::{CloneType, FileTime, SourceFile};
use dup_detector::server::{
    find_clones, find_clones_for_region, find_clones_in_file, region_target, same_sources,
    CachedIndex, CloneServer, FindClonesForRegionParams, FindClonesInFileParams, FindClonesParams,
    RegionTarget, RequestError, ScanResponse, MAX_CACHED_INDEXES,
};
use dup_detector::tokenize::build_kind_tables;

const FN: &str = "fn compute_total(items: Vec<i32>) -> i32 {
    let mut sum = 0;
    for item in items {
        sum = sum + item * item;
        if sum > 100 {
            sum = sum - 50;
        }
    }
    return sum;
}
";

fn parsed(path: &str, text: &str) -> SourceFile {
    let tables = build_kind_tables(LanguageId::Rust);
    let stamp = FileStamp {
        modified: None,
        size: text.len() as u64,
    };
    parse_file(path.to_string(), text.to_string(), stamp, 1 << 20, &tables).unwrap()
}

fn renamed() -> String {
    FN.replace("compute_total", "calc_sum")
        .replace("sum", "total")
        .replace("item", "value")
}

fn project() -> SourceIndex {
    SourceIndex::build_at(
        "/p".to_string(),
        Config::default(),
        None,
        vec![
            Loaded::Parsed(parsed("/p/a.rs", FN)),
            Loaded::Parsed(parsed("/p/b.rs", &renamed())),
            Loaded::Parsed(parsed("/p/c.rs", "fn other() -> i32 { 7 }\n")),
        ],
    )
}

fn all() -> FindClonesParams {
    FindClonesParams {
        scope: None,
        min_lines: None,
        min_occurrences: None,
        max_groups: None,
        types: None,
        parameterize_literals: None,
    }
}

fn in_file(file: &str) -> FindClonesInFileParams {
    FindClonesInFileParams {
        file: file.to_string(),
        scope: None,
        min_lines: None,
        min_occurrences: None,
        max_groups: None,
        types: None,
    }
}

fn region(file: &str, start_line: u32, end_line: u32) -> FindClonesForRegionParams {
    FindClonesForRegionParams {
        file: file.to_string(),
        start_line,
        end_line,
        scope: None,
        min_lines: None,
        max_groups: None,
        types: None,
    }
}

fn places(response: &ScanResponse) -> Vec<(String, u32, u32)> {
    response
        .groups
        .iter()
        .flat_map(|group| &group.occurrences)
        .map(|occ| (occ.path.clone(), occ.start_line, occ.end_line))
        .collect()
}

fn both() -> Vec<(String, u32, u32)> {
    vec![
        ("/p/a.rs".to_string(), 1, 10),
        ("/p/b.rs".to_string(), 1, 10),
    ]
}

#[test]
fn clones_of_a_project_are_reported() {
    let index = project();
    let response = find_clones(&index, Config::default(), all()).unwrap();
    assert_eq!(response.files_scanned, 3);
    assert_eq!(response.groups.len(), 1);
    assert_eq!(response.groups[0].clone_type, CloneType::Type2);
    assert_eq!(places(&response), both());
    let tokens = index.files()[0].tokens.len();
    assert_eq!(response.groups[0].token_count, tokens);
}

#[test]
fn requests_can_ask_for_a_clone_type() {
    let index = project();
    let mut params = all();
    params.types = Some(vec![CloneType::Type1]);
    let response = find_clones(&index, Config::default(), params).unwrap();
    assert!(response.groups.is_empty());
    let mut params = all();
    params.types = Some(vec![CloneType::Type2]);
    let response = find_clones(&index, Config::default(), params).unwrap();
    assert_eq!(response.groups.len(), 1);
}

#[test]
fn requests_can_limit_the_groups() {
    let index = project();
    let mut params = all();
    params.max_groups = Some(0);
    let response = find_clones(&index, Config::default(), params).unwrap();
    assert!(response.groups.is_empty());
    let mut params = all();
    params.min_occurrences = Some(3);
    let response = find_clones(&index, Config::default(), params).unwrap();
    assert!(response.groups.is_empty());
    let mut params = all();
    params.min_lines = Some(11);
    let response = find_clones(&index, Config::default(), params).unwrap();
    assert!(response.groups.is_empty());
}

#[test]
fn zero_limits_are_refused() {
    let index = project();
    let mut params = all();
    params.min_lines = Some(0);
    let error = find_clones(&index, Config::default(), params).unwrap_err();
    assert!(matches!(
        error,
        RequestError::Config(ConfigError::InvalidParameter {
            key: "min_lines",
            ..
        })
    ));
    assert_eq!(
        error.message("a.rs", "/p"),
        "invalid value for parameter `min_lines`: must be at least 1"
    );
    let mut params = in_file("a.rs");
    params.min_occurrences = Some(0);
    let error =
        find_clones_in_file(&index, Config::default(), params, Some("/p/a.rs")).unwrap_err();
    assert!(matches!(
        error,
        RequestError::Config(ConfigError::InvalidParameter {
            key: "min_occurrences",
            ..
        })
    ));
}

#[test]
fn clones_of_a_file_are_reported() {
    let index = project();
    let response =
        find_clones_in_file(&index, Config::default(), in_file("a.rs"), Some("/p/a.rs")).unwrap();
    assert_eq!(response.files_scanned, 3);
    assert_eq!(places(&response), both());
    let response =
        find_clones_in_file(&index, Config::default(), in_file("c.rs"), Some("/p/c.rs")).unwrap();
    assert!(response.groups.is_empty());
}

#[test]
fn files_outside_the_project_are_refused() {
    let index = project();
    let error = find_clones_in_file(&index, Config::default(), in_file("gone.rs"), None)
        .unwrap_err();
    assert_eq!(
        error.message("gone.rs", "/p"),
        "cannot resolve file `gone.rs` under `/p`"
    );
    let error =
        find_clones_in_file(&index, Config::default(), in_file("../q.rs"), Some("/q.rs"))
            .unwrap_err();
    assert!(matches!(error, RequestError::Unresolved));
    let error =
        find_clones_in_file(&index, Config::default(), in_file("new.rs"), Some("/p/new.rs"))
            .unwrap_err();
    assert_eq!(
        error.message("new.rs", "/p"),
        "`new.rs` is not a supported source file in the project"
    );
}

#[test]
fn clones_of_a_region_are_reported() {
    let index = project();
    let config = Config::default();
    let params = region("a.rs", 3, 4);
    let target = region_target(&index, &config, &params, Some("/p/a.rs")).unwrap();
    assert_eq!(target, RegionTarget::Indexed(0));
    let response =
        find_clones_for_region(&index, target, None, config, params).unwrap();
    assert!(places(&response)
        .iter()
        .any(|(path, start, end)| path == "/p/a.rs" && *start <= 3 && *end >= 4));
}

#[test]
fn regions_without_tokens_have_no_clones() {
    let index = project();
    let config = Config::default();
    let params = region("a.rs", 40, 50);
    let target = region_target(&index, &config, &params, Some("/p/a.rs")).unwrap();
    let response = find_clones_for_region(&index, target, None, config, params).unwrap();
    assert_eq!(response.files_scanned, 3);
    assert!(response.groups.is_empty());
}

#[test]
fn regions_of_new_files_are_compared_with_the_project() {
    let index = project();
    let config = Config::default();
    let new = parsed("/p/new.rs", FN);
    let params = region("new.rs", 1, 10);
    let target = region_target(&index, &config, &params, Some("/p/new.rs")).unwrap();
    assert_eq!(target, RegionTarget::Unindexed(LanguageId::Rust));
    let response =
        find_clones_for_region(&index, target, Some(&new), config, params).unwrap();
    assert_eq!(response.files_scanned, 4);
    let mut found = places(&response);
    found.sort();
    let mut expected = both();
    expected.push(("/p/new.rs".to_string(), 1, 10));
    assert_eq!(found, expected);
}

#[test]
fn unreadable_new_files_are_refused() {
    let index = project();
    let config = Config::default();
    let params = region("new.rs", 1, 10);
    let target = region_target(&index, &config, &params, Some("/p/new.rs")).unwrap();
    let error = find_clones_for_region(&index, target, None, config, params).unwrap_err();
    assert_eq!(
        error.message("new.rs", "/p"),
        "cannot read or parse `new.rs`"
    );
}

#[test]
fn bad_regions_are_refused() {
    let index = project();
    let config = Config {
        languages: vec![LanguageId::Rust],
        ..Config::default()
    };
    let error =
        region_target(&index, &config, &region("a.rs", 0, 4), Some("/p/a.rs")).unwrap_err();
    assert_eq!(
        error.message("a.rs", "/p"),
        "`start_line` is 1-based and must be at least 1"
    );
    let error =
        region_target(&index, &config, &region("a.rs", 12, 4), Some("/p/a.rs")).unwrap_err();
    assert_eq!(
        error.message("a.rs", "/p"),
        "`end_line` (4) must be >= `start_line` (12)"
    );
    let error = region_target(&index, &config, &region("a.rs", 1, 4), None).unwrap_err();
    assert!(matches!(error, RequestError::Unresolved));
    let error = region_target(&index, &config, &region("n.txt", 1, 4), Some("/p/n.txt"))
        .unwrap_err();
    assert_eq!(
        error.message("n.txt", "/p"),
        "unsupported file type: `n.txt`"
    );
    let error =
        region_target(&index, &config, &region("n.py", 1, 4), Some("/p/n.py")).unwrap_err();
    assert_eq!(
        error.message("n.py", "/p"),
        "language `python` is disabled by configuration"
    );
    let mut params = region("a.rs", 1, 10);
    params.min_lines = Some(0);
    let target = region_target(&index, &config, &params, Some("/p/a.rs")).unwrap();
    let error = find_clones_for_region(&index, target, None, config, params).unwrap_err();
    assert!(matches!(error, RequestError::Config(_)));
}

fn cached(root: &str, index: u8, last_used: u64) -> CachedIndex<u8> {
    CachedIndex {
        root: root.to_string(),
        index,
        sources: vec![],
        last_used,
    }
}

#[test]
fn the_least_recently_used_index_makes_room() {
    let mut server: CloneServer<u8> = CloneServer::new(Config::default());
    assert_eq!(server.default_config(), &Config::default());
    for n in 0..MAX_CACHED_INDEXES as u8 {
        let root = format!("/r{n}");
        server.make_room(&root);
        server.keep(cached(&root, n, n as u64));
    }
    let first = server.position("/r0").unwrap();
    server.touch(first, 100);
    server.make_room("/new");
    assert_eq!(server.position("/r1"), None);
    assert!(server.position("/r0").is_some());
    server.keep(cached("/new", 42, 101));
    let at = server.position("/new").unwrap();
    assert_eq!(server.get(at).index, 42);
    server.make_room("/r0");
    assert!(server.position("/r2").is_some());
}

#[test]
fn indexes_can_be_forgotten() {
    let mut server: CloneServer<u8> = CloneServer::new(Config::default());
    server.keep(cached("/a", 1, 1));
    server.keep(cached("/b", 2, 2));
    assert_eq!(server.forget("/a").map(|dropped| dropped.index), Some(1));
    assert_eq!(server.position("/a"), None);
    assert!(server.forget("/a").is_none());
    assert_eq!(server.get(server.position("/b").unwrap()).index, 2);
}

#[test]
fn changed_configuration_files_are_noticed() {
    let time = |seconds| Some(FileTime { seconds, nanos: 0 });
    let old = vec![("/p/dup-detector.toml".to_string(), time(1))];
    let same = vec![("/p/dup-detector.toml".to_string(), time(1))];
    let newer = vec![("/p/dup-detector.toml".to_string(), time(2))];
    let other = vec![("/q/dup-detector.toml".to_string(), time(1))];
    assert!(same_sources(&old, &same));
    assert!(!same_sources(&old, &newer));
    assert!(!same_sources(&old, &other));
    assert!(!same_sources(&old, &vec![]));
    let mut server: CloneServer<u8> = CloneServer::new(Config::default());
    server.keep(cached("/p", 1, 1));
    server.set_sources(0, newer);
    assert!(!same_sources(&server.get(0).sources, &old));
}
