use cargo_chlog::cfg::LogConfig;
use cargo_chlog::lint::LintedCommit;
use cargo_chlog::log::{format_commit_details, format_commit_line, generate_markdown, shorten_hash};

fn mock_linted_commit(ty: &str, scope: Option<&str>, breaking: bool, brief: &str) -> LintedCommit {
    LintedCommit {
        hash: "1234567890abcdef".to_string(),
        author: "Test User <test@example.com>".to_string(),
        url: Some("https://github.com/owner/repo/commit/1234567890abcdef".to_string()),
        ty: ty.to_string(),
        scope: scope.map(|s| s.to_string()),
        breaking,
        brief: brief.to_string(),
        body: None,
        footers: vec![],
    }
}

fn mock_config() -> LogConfig {
    LogConfig {
        include_commit_url: true,
        include_commit_hash: true,
        separate_scope_lists: true,
        collect_thanks: true,
        thanks_subtitle: Some("Contributors".to_string()),
    }
}

#[test]
fn test_generate_markdown_basic() {
    let commits = vec![mock_linted_commit("Feature", Some("core"), false, "add new feature")];
    let config = mock_config();
    let md = generate_markdown(&commits, &config);

    assert!(md.contains("## Feature"));
    assert!(md.contains("### `core`"));
    assert!(md.contains("add new feature"));
    assert!(md.contains("[1234567]"));
    assert!(md.contains("Contributors"));
    assert!(md.contains("Test User <test@example.com>"));
}

#[test]
fn test_generate_markdown_breaking_changes() {
    let commits = vec![mock_linted_commit("Feature", None, true, "redesign API")];
    let config = mock_config();
    let md = generate_markdown(&commits, &config);

    assert!(md.contains("## Breaking Changes"));
    assert!(md.contains("redesign API"));
}

#[test]
fn test_format_commit_line_no_url() {
    let mut commit = mock_linted_commit("Fix", None, false, "fix bug");
    commit.url = None;
    let config = LogConfig {
        include_commit_url: true,
        include_commit_hash: true,
        separate_scope_lists: false,
        collect_thanks: false,
        thanks_subtitle: None,
    };

    let line = format_commit_line(&commit, &config);
    assert_eq!(line, "fix bug (`1234567`)");
}

fn readme_commit(ty: &str, scope: Option<&str>, breaking: bool, brief: &str, hash: &str) -> LintedCommit {
    let mut c = mock_linted_commit(ty, scope, breaking, brief);
    c.hash = hash.to_string();
    c.url = Some(format!("https://github.com/owner/repo/commit/{}", hash));
    c.author = "Test Author <test@example.com>".to_string();
    c
}

#[test]
fn markdown_full_document() {
    // Newest first, as history lists them.
    let mut api = readme_commit("Feature", Some("api"), true, "redesign endpoints", "abc1234aaa");
    api.footers = vec![("BREAKING CHANGE".to_string(), "removed v1".to_string())];
    let commits = vec![
        readme_commit("Documentation", None, false, "update readme", "jkl3456ddd"),
        readme_commit("Feature", None, false, "add dashboard", "def5678bbb"),
        readme_commit("Fix", Some("ui"), false, "button alignment", "ghi9012ccc"),
        api,
    ];
    let md = generate_markdown(&commits, &mock_config());
    let expected = "## Breaking Changes\n\n\
- redesign endpoints ([abc1234](https://github.com/owner/repo/commit/abc1234aaa))\n\n\
## Feature\n\n\
### `api`\n\n\
- redesign endpoints ([abc1234](https://github.com/owner/repo/commit/abc1234aaa))\n\n\
### `General`\n\n\
- add dashboard ([def5678](https://github.com/owner/repo/commit/def5678bbb))\n\n\
## Fix\n\n\
### `ui`\n\n\
- button alignment ([ghi9012](https://github.com/owner/repo/commit/ghi9012ccc))\n\n\
## Documentation\n\n\
- update readme ([jkl3456](https://github.com/owner/repo/commit/jkl3456ddd))\n\n\
## Contributors\n\n\
- Test Author <test@example.com>\n";
    assert_eq!(md, expected);
}

#[test]
fn markdown_details_and_sorted_authors() {
    let mut b = mock_linted_commit("Fix", Some("ui"), false, "button alignment");
    b.body = Some("The buttons were\noverlapping.".to_string());
    b.footers = vec![("Refs".to_string(), "#123".to_string())];
    let mut c = mock_linted_commit("Fix", Some("ui"), false, "second");
    c.author = "Alice <a@example.com>".to_string();
    let md = generate_markdown(&[b, c], &mock_config());
    assert_eq!(
        md,
        "## Fix\n\n### `ui`\n\n\
- button alignment ([1234567](https://github.com/owner/repo/commit/1234567890abcdef))\n\n  The buttons were\n  overlapping.\n\n  *Refs*: #123\n\
- second ([1234567](https://github.com/owner/repo/commit/1234567890abcdef))\n\n\
## Contributors\n\n- Alice <a@example.com>\n- Test User <test@example.com>\n"
    );
}

#[test]
fn markdown_ignores_hidden_fields() {
    let config = LogConfig {
        include_commit_url: false,
        include_commit_hash: false,
        separate_scope_lists: true,
        collect_thanks: false,
        thanks_subtitle: None,
    };
    let a = mock_linted_commit("Fix", Some("ui"), true, "one");
    let mut b = a.clone();
    b.author = "Someone Else <x@y>".to_string();
    b.url = None;
    b.hash = "ffffffffff".to_string();
    assert_eq!(generate_markdown(&[a], &config), generate_markdown(&[b], &config));
}

#[test]
fn markdown_flat_lists_and_default_thanks() {
    let a = mock_linted_commit("Fix", Some("ui"), false, "one");
    let b = mock_linted_commit("Fix", None, false, "two");
    let config = LogConfig {
        include_commit_url: false,
        include_commit_hash: false,
        separate_scope_lists: false,
        collect_thanks: true,
        thanks_subtitle: None,
    };
    let md = generate_markdown(&[a.clone(), b, a], &config);
    assert_eq!(
        md,
        "## Fix\n\n- **ui**: one\n- two\n- **ui**: one\n\n## Thanks to\n\n- Test User <test@example.com>\n"
    );
}

#[test]
fn markdown_of_nothing_is_a_newline() {
    assert_eq!(generate_markdown(&[], &mock_config()), "\n");
}

#[test]
fn commit_line_variants() {
    let c = mock_linted_commit("Fix", None, false, "b");
    let mut cfg = mock_config();
    cfg.include_commit_hash = false;
    assert_eq!(
        format_commit_line(&c, &cfg),
        "b ([link](https://github.com/owner/repo/commit/1234567890abcdef))"
    );
    cfg.include_commit_url = false;
    assert_eq!(format_commit_line(&c, &cfg), "b");
    cfg.include_commit_hash = true;
    assert_eq!(format_commit_line(&c, &cfg), "b (`1234567`)");
    let mut short = c.clone();
    short.hash = "12ab".to_string();
    assert_eq!(format_commit_line(&short, &cfg), "b (`12ab`)");
}

#[test]
fn commit_details_skip_breaking_footers() {
    let mut c = mock_linted_commit("Fix", None, false, "b");
    c.body = Some("l1\nl2".to_string());
    c.footers = vec![
        ("BREAKING-CHANGE".to_string(), "x".to_string()),
        ("Refs".to_string(), "#1".to_string()),
    ];
    assert_eq!(format_commit_details(&c), "\n\n  l1\n  l2\n\n  *Refs*: #1");
}

#[test]
fn short_hash_bytes() {
    let s = |v: Vec<char>| v.into_iter().collect::<String>();
    assert_eq!(shorten_hash("1234567890").map(s), Some("1234567".to_string()));
    assert_eq!(shorten_hash("abc").map(s), Some("abc".to_string()));
    assert_eq!(shorten_hash("ééé1").map(s), Some("ééé1".to_string()));
    assert_eq!(shorten_hash("abcdeéz").map(s), Some("abcdeé".to_string()));
    assert_eq!(shorten_hash("abcdefé"), None);
}
