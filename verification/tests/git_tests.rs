use cargo_chlog::git::{commit_info, format_author, normalize_remote_url, since_boundary, since_spec};

#[test]
fn test_normalize_remote_url() {
    assert_eq!(
        normalize_remote_url("git@github.com:owner/repo.git"),
        Some("https://github.com/owner/repo".to_string())
    );
    assert_eq!(
        normalize_remote_url("ssh://git@github.com/owner/repo.git"),
        Some("https://github.com/owner/repo".to_string())
    );
    assert_eq!(
        normalize_remote_url("https://github.com/owner/repo"),
        Some("https://github.com/owner/repo".to_string())
    );
    assert_eq!(normalize_remote_url("invalid-url"), None);
}

#[test]
fn test_format_author() {
    let sig = git2::Signature::now("John Doe", "john@example.com").unwrap();
    assert_eq!(
        format_author(sig.name().ok(), sig.email().ok()),
        "John Doe <john@example.com>"
    );
}

#[test]
fn remote_url_edge_cases() {
    assert_eq!(normalize_remote_url("git@host"), None);
    assert_eq!(
        normalize_remote_url("http://example.com/a.git"),
        Some("http://example.com/a".to_string())
    );
    assert_eq!(normalize_remote_url("git@h:a:b"), Some("https://h/a:b".to_string()));
}

#[test]
fn author_fallbacks() {
    assert_eq!(format_author(None, Some("e@x")), "unknown <e@x>");
    assert_eq!(format_author(Some("N"), None), "N <unknown>");
}

#[test]
fn commit_info_builds_url() {
    let c = commit_info(
        "abc".to_string(),
        Some("A"),
        Some("a@b"),
        "msg".to_string(),
        Some("https://github.com/o/r"),
    );
    assert_eq!(c.url.as_deref(), Some("https://github.com/o/r/commit/abc"));
    assert_eq!(c.author, "A <a@b>");
    assert_eq!(c.message, "msg");
    assert_eq!(commit_info("h".to_string(), None, None, String::new(), None).url, None);
}

#[test]
fn since_defaults() {
    assert_eq!(since_spec(None), "HEAD~1");
    assert_eq!(since_spec(Some("v1.0.0")), "v1.0.0");
    assert_eq!(since_boundary::<u32, &str>(true, Ok(3)), Ok(Some(3)));
    assert_eq!(since_boundary::<u32, &str>(true, Err("bad")), Err("bad"));
    assert_eq!(since_boundary::<u32, &str>(false, Err("bad")), Ok(None));
}
