use cargo_chlog::cfg::{CommitPattern, Commits, Config, LogConfig, Pat};
use cargo_chlog::git::{commit_info, normalize_remote_url, Commit};
use cargo_chlog::lint::{lint, LintError};
use cargo_chlog::log::generate_markdown;

fn config() -> Config {
    Config {
        commits: Commits {
            types: vec![
                ("feat".to_string(), "Feature".to_string()),
                ("fix".to_string(), "Fix".to_string()),
                ("docs".to_string(), "Documentation".to_string()),
                ("chore".to_string(), "Chore".to_string()),
            ],
            ignore: Some(vec![CommitPattern {
                brief: Some(Pat::Regex("^WIP:".to_string())),
                scope: None,
                body: None,
                footer: None,
            }]),
        },
        log: LogConfig {
            include_commit_url: true,
            include_commit_hash: true,
            separate_scope_lists: true,
            collect_thanks: true,
            thanks_subtitle: Some("Contributors".to_string()),
        },
    }
}

fn commit(n: u32, message: &str) -> Commit {
    let base = normalize_remote_url("git@github.com:owner/repo.git");
    commit_info(
        format!("{:040x}", n),
        Some("Test Author"),
        Some("test@example.com"),
        message.to_string(),
        base.as_deref(),
    )
}

#[test]
fn test_log_generation_full() {
    // Newest first, as history lists them.
    let commits = vec![
        commit(6, "docs: update readme"),
        commit(5, "chore: WIP: temporary stuff"),
        commit(4, "feat: add dashboard"),
        commit(3, "fix(ui): button alignment\n\nThe buttons were overlapping.\n\nRefs: #123"),
        commit(2, "feat(api)!: redesign endpoints\n\nBREAKING CHANGE: removed v1"),
    ];
    assert_eq!(commits.len(), 5);
    let config = config();
    let linted = lint(commits, &config).unwrap();
    assert_eq!(linted.len(), 4);

    let md = generate_markdown(&linted, &config.log);
    assert!(md.contains("## Breaking Changes"));
    assert!(md.contains("redesign endpoints"));
    assert!(md.contains("## Feature"));
    assert!(md.contains("### `api`"));
    assert!(md.contains("### `General`"));
    assert!(md.contains("add dashboard"));
    assert!(md.contains("## Fix"));
    assert!(md.contains("### `ui`"));
    assert!(md.contains("button alignment"));
    assert!(md.contains("The buttons were overlapping."));
    assert!(md.contains("*Refs*: #123"));
    assert!(md.contains("## Documentation"));
    assert!(md.contains("update readme"));
    assert!(md.contains("https://github.com/owner/repo/commit/"));
    assert!(md.contains("## Contributors"));
    assert!(md.contains("Test Author <test@example.com>"));
    assert!(!md.contains("temporary stuff"));
    assert!(md.starts_with("## Breaking Changes"));
    assert!(md.ends_with(">\n"));
    // Sections follow the order in which types and scopes first appear in
    // history.
    let d = md.find("## Documentation").unwrap();
    let f = md.find("## Feature").unwrap();
    let x = md.find("## Fix").unwrap();
    assert!(f < x && x < d);
    let api = md.find("### `api`").unwrap();
    let general = md.find("### `General`").unwrap();
    assert!(api < general);
}

#[test]
fn pipeline_keeps_order_and_count() {
    let mut config = config();
    config.commits.ignore = None;
    let commits = vec![
        commit(1, "fix: a"),
        commit(2, "chore: WIP: b"),
        commit(3, "feat: c"),
    ];
    let linted = lint(commits, &config).unwrap();
    let hashes: Vec<&str> = linted.iter().map(|c| c.hash.as_str()).collect();
    assert_eq!(hashes, vec![format!("{:040x}", 1), format!("{:040x}", 2), format!("{:040x}", 3)]);
    assert_eq!(linted[1].ty, "Chore");
    assert_eq!(linted[1].brief, "WIP: b");
}

#[test]
fn test_check_success() {
    let commits = vec![commit(3, "fix: resolve bug"), commit(2, "feat: add new feature")];
    assert_eq!(commits.len(), 2);
    let result = lint(commits, &config());
    assert!(result.is_ok());
    assert_eq!(result.unwrap().len(), 2);
}

#[test]
fn test_check_failure_invalid_format() {
    // Only the latest commit is linted.
    let commits = vec![commit(2, "invalid commit message")];
    assert_eq!(commits.len(), 1);
    let result = lint(commits, &config());
    assert!(result.is_err());
    match result.unwrap_err() {
        LintError::InvalidFormat { .. } => {}
        _ => panic!("Expected InvalidFormat error"),
    }
}

#[test]
fn test_check_failure_unknown_type() {
    let commits = vec![commit(1, "unknown: this type is not in config")];
    assert_eq!(commits.len(), 1);
    let result = lint(commits, &config());
    assert!(result.is_err());
    match result.unwrap_err() {
        LintError::UnknownType { ty, .. } => assert_eq!(ty, "unknown"),
        _ => panic!("Expected UnknownType error"),
    }
}
