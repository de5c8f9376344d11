use cargo_chlog::cfg::{CommitPattern, Commits, Config, Find, LogConfig, Pat};
use cargo_chlog::git::Commit;
use cargo_chlog::lint::{
    lint, lint_one, matches_commit_pattern, matches_find, matches_pat, parse_footer, parse_header,
    regex_outcome, LintError, ParsedCommit,
};
use cargo_chlog::text::chars_of;

fn mock_config() -> Config {
    let types = vec![
        ("feat".to_string(), "Feature".to_string()),
        ("fix".to_string(), "Fix".to_string()),
    ];
    Config {
        commits: Commits { types, ignore: Some(vec![]) },
        log: LogConfig {
            include_commit_url: false,
            include_commit_hash: false,
            separate_scope_lists: false,
            collect_thanks: false,
            thanks_subtitle: None,
        },
    }
}

fn mock_commit(hash: &str, message: &str) -> Commit {
    Commit {
        hash: hash.to_string(),
        author: "Test Author <test@example.com>".to_string(),
        url: None,
        message: message.to_string(),
    }
}

fn s(v: &[char]) -> String {
    v.iter().collect()
}

#[test]
fn test_lint_valid_commit() {
    let config = mock_config();
    let commits = vec![mock_commit("abc1234", "feat: add new feature")];
    let result = lint(commits, &config).unwrap();
    assert_eq!(result.len(), 1);
    assert_eq!(result[0].ty, "Feature");
    assert_eq!(result[0].brief, "add new feature");
}

#[test]
fn test_lint_invalid_format() {
    let config = mock_config();
    let commits = vec![mock_commit("abc1234", "invalid commit message")];
    let result = lint(commits, &config);
    assert!(matches!(result, Err(LintError::InvalidFormat { .. })));
}

#[test]
fn test_lint_unknown_type() {
    let config = mock_config();
    let commits = vec![mock_commit("abc1234", "chore: update dependencies")];
    let result = lint(commits, &config);
    assert!(matches!(result, Err(LintError::UnknownType { .. })));
}

#[test]
fn test_lint_with_scope_and_breaking() {
    let config = mock_config();
    let commits = vec![mock_commit(
        "abc1234",
        "feat(core)!: redesign API\n\nBREAKING CHANGE: new API",
    )];
    let result = lint(commits, &config).unwrap();
    assert_eq!(result[0].scope, Some("core".to_string()));
    assert!(result[0].breaking);
}

#[test]
fn test_lint_ignore_pattern() {
    let mut config = mock_config();
    config.commits.ignore.as_mut().unwrap().push(CommitPattern {
        brief: Some(Pat::Regex("^WIP:".to_string())),
        scope: None,
        body: None,
        footer: None,
    });

    let commits = vec![
        mock_commit("1", "feat: valid"),
        mock_commit("2", "feat: WIP: ignore me"),
    ];
    let result = lint(commits, &config).unwrap();
    assert_eq!(result.len(), 1);
    assert_eq!(result[0].hash, "1");
}

#[test]
fn test_matches_pat_prefix() {
    assert!(matches_pat(&Pat::Prefix("feat".to_string()), "feat: add"));
    assert!(!matches_pat(&Pat::Prefix("fix".to_string()), "feat: add"));
}

#[test]
fn test_matches_pat_not() {
    let pat = Pat::Not(Box::new(Pat::Exact("fix".to_string())));
    assert!(matches_pat(&pat, "feat"));
    assert!(!matches_pat(&pat, "fix"));
}

#[test]
fn test_matches_find_regex() {
    let find = Find::Regex(r"\d+".to_string());
    assert!(matches_find(&find, "version 123"));
    assert!(!matches_find(&find, "no numbers"));
}

#[test]
fn lint_error_messages() {
    let config = mock_config();
    let err = lint(vec![mock_commit("abc", "nonsense")], &config).unwrap_err();
    assert_eq!(
        err,
        LintError::InvalidFormat {
            hash: "abc".to_string(),
            message: "Header 'nonsense' does not match '<type>[(<scope>)][!]: <description>'"
                .to_string(),
        }
    );
    assert_eq!(
        err.describe(),
        "Commit abc does not follow Conventional Commits format: Header 'nonsense' does not match '<type>[(<scope>)][!]: <description>'"
    );
    let err = lint(vec![mock_commit("def", "chore: x")], &config).unwrap_err();
    assert_eq!(
        err.describe(),
        "Commit def has unknown type 'chore' (not defined in config)"
    );
}

#[test]
fn lint_stops_at_first_failing_commit() {
    let config = mock_config();
    let commits = vec![
        mock_commit("1", "feat: fine"),
        mock_commit("2", "docs: unknown"),
        mock_commit("3", "broken"),
    ];
    assert_eq!(
        lint(commits, &config),
        Err(LintError::UnknownType { hash: "2".to_string(), ty: "docs".to_string() })
    );
}

#[test]
fn lint_ignored_commits_are_still_checked() {
    let mut config = mock_config();
    config.commits.ignore = Some(vec![CommitPattern {
        brief: Some(Pat::Prefix("WIP".to_string())),
        scope: None,
        body: None,
        footer: None,
    }]);
    let commits = vec![mock_commit("1", "chore: WIP stuff")];
    assert!(matches!(lint(commits, &config), Err(LintError::UnknownType { .. })));
}

#[test]
fn lint_body_and_footers() {
    let config = mock_config();
    let msg = "fix(ui): button alignment\r\n\r\nThe buttons were\noverlapping.\n\n  \nSecond paragraph.\n\nRefs: #123\nReviewed-by: Jane\n\nCloses: #7";
    let result = lint(vec![mock_commit("h", msg)], &config).unwrap();
    let c = &result[0];
    assert_eq!(c.ty, "Fix");
    assert_eq!(c.scope.as_deref(), Some("ui"));
    assert_eq!(c.brief, "button alignment");
    assert!(!c.breaking);
    assert_eq!(
        c.body.as_deref(),
        Some("The buttons were\noverlapping.\n\nSecond paragraph.")
    );
    // Footers keep the order of the message.
    assert_eq!(
        c.footers,
        vec![
            ("Refs".to_string(), "#123".to_string()),
            ("Reviewed-by".to_string(), "Jane".to_string()),
            ("Closes".to_string(), "#7".to_string()),
        ]
    );
}

#[test]
fn lint_breaking_footer_without_bang() {
    let config = mock_config();
    let result =
        lint(vec![mock_commit("h", "feat: x\n\nBREAKING-CHANGE: gone")], &config).unwrap();
    assert!(result[0].breaking);
    assert_eq!(result[0].body, None);
}

#[test]
fn lint_one_outcomes() {
    let mut config = mock_config();
    config.commits.ignore = Some(vec![CommitPattern {
        brief: None,
        scope: Some(Pat::Exact("internal".to_string())),
        body: None,
        footer: None,
    }]);
    assert_eq!(lint_one(&mock_commit("1", "feat(internal): x"), &config), Ok(None));
    let kept = lint_one(&mock_commit("2", "feat(api): x"), &config).unwrap().unwrap();
    assert_eq!(kept.scope.as_deref(), Some("api"));
    assert_eq!(kept.author, "Test Author <test@example.com>");
}

#[test]
fn header_grammar() {
    let h = parse_header(&chars_of("feat(core)!:   redesign  ")).unwrap();
    assert_eq!(s(&h.ty), "feat");
    assert_eq!(h.scope.as_deref().map(s), Some("core".to_string()));
    assert!(h.breaking);
    assert_eq!(s(&h.brief), "redesign");
    let h = parse_header(&chars_of("fix: x")).unwrap();
    assert_eq!(h.scope, None);
    assert!(!h.breaking);
    assert!(parse_header(&chars_of("feat: ")).map(|h| h.brief.is_empty()).unwrap());
    assert!(parse_header(&chars_of("feat:")).is_none());
    assert!(parse_header(&chars_of("feat(): x")).is_none());
    assert!(parse_header(&chars_of("feat(core: x")).is_none());
    assert!(parse_header(&chars_of(": x")).is_none());
    assert!(parse_header(&chars_of("feat x")).is_none());
}

#[test]
fn footer_grammar() {
    assert!(parse_footer(&chars_of("Refs #123")).is_none());
    let (t, v) = parse_footer(&chars_of("Refs#123")).unwrap();
    assert_eq!((s(&t), s(&v)), ("Refs".to_string(), "123".to_string()));
    let (t, v) = parse_footer(&chars_of("BREAKING CHANGE: removed v1")).unwrap();
    assert_eq!((s(&t), s(&v)), ("BREAKING CHANGE".to_string(), "removed v1".to_string()));
    let (t, v) = parse_footer(&chars_of("Token:   ")).unwrap();
    assert_eq!((s(&t), s(&v)), ("Token".to_string(), " ".to_string()));
    assert!(parse_footer(&chars_of("Token:")).is_none());
    assert!(parse_footer(&chars_of("BREAKING CHANGES: x")).is_none());
}

#[test]
fn commit_pattern_conjunction() {
    let commit = ParsedCommit {
        scope: Some("api".to_string()),
        brief: "add endpoint".to_string(),
        body: None,
        footers: vec![("Refs".to_string(), "#42".to_string())],
    };
    let all = CommitPattern {
        brief: Some(Pat::Suffix("endpoint".to_string())),
        scope: Some(Pat::Exact("api".to_string())),
        body: None,
        footer: Some(Pat::Regex(r"^Refs: #\d+$".to_string())),
    };
    assert!(matches_commit_pattern(&commit, &all));
    let needs_body = CommitPattern {
        brief: None,
        scope: None,
        body: Some(Pat::Find(Find::Exact("x".to_string()))),
        footer: None,
    };
    assert!(!matches_commit_pattern(&commit, &needs_body));
    let empty = CommitPattern { brief: None, scope: None, body: None, footer: None };
    assert!(matches_commit_pattern(&commit, &empty));
}

#[test]
fn invalid_regex_matches_nothing() {
    assert!(!matches_pat(&Pat::Regex("(".to_string()), "("));
    assert!(!matches_find(&Find::Regex("[".to_string()), "["));
    assert!(matches_find(&Find::Exact("".to_string()), "anything"));
    assert!(regex_outcome(Some(true)));
    assert!(!regex_outcome(Some(false)));
    assert!(!regex_outcome(None));
}

#[test]
fn lint_footers_in_message_order() {
    let config = mock_config();
    let commit = Commit {
        hash: "h".to_string(),
        author: "A <a@x>".to_string(),
        url: None,
        message: "fix: typo\n\nRefs: #1\nReviewed-by: Z".to_string(),
    };
    let v = lint(vec![commit], &config).unwrap();
    assert_eq!(v[0].body, None);
    assert_eq!(
        v[0].footers,
        vec![
            ("Refs".to_string(), "#1".to_string()),
            ("Reviewed-by".to_string(), "Z".to_string()),
        ]
    );
}
