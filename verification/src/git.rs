//! Commit information as read from git history, and the pure parts of
//! reading it: remote URLs, author names and the `--since` boundary.

use crate::text;
use crate::text::{
    chars_of, has_prefix, has_suffix, position_of, push_chars, push_str, slice_chars, string_of,
};
use vstd::prelude::*;

verus! {

/// Information about a single commit, as needed for changelog generation.
#[derive(Debug, Clone)]
pub struct Commit {
    /// Author's display name, e.g. `"Jane Doe <jane@example.com>"`.
    pub author: String,
    /// Full (40-character) commit hash.
    pub hash: String,
    /// URL of this commit on the hosting service, when the `origin` remote
    /// has a recognised URL.
    pub url: Option<String>,
    /// The whole commit message, exactly as stored by git.
    pub message: String,
}

/// The `https://host/path` web address for a remote URL, for the three forms
/// `https://host/path(.git)` (also `http://`), `git@host:path(.git)` and
/// `ssh://git@host/path(.git)`; `None` for anything else.
pub open spec fn normalized_remote(url: Seq<char>) -> Option<Seq<char>> {
    let u = if text::ends_with(url, ".git"@) { url.take(url.len() - ".git"@.len()) } else { url };
    if text::starts_with(u, "git@"@) {
        let rest = u.skip("git@"@.len() as int);
        let i = text::find_char(rest, ':', 0);
        if i < rest.len() {
            Some("https://"@ + rest.take(i) + "/"@ + rest.skip(i + 1))
        } else {
            None
        }
    } else if text::starts_with(u, "ssh://git@"@) {
        Some("https://"@ + u.skip("ssh://git@"@.len() as int))
    } else if text::starts_with(u, "https://"@) || text::starts_with(u, "http://"@) {
        Some(u)
    } else {
        None
    }
}

/// Normalises a git remote URL into an `https://host/owner/repo` web base
/// URL (GitHub-style layout).
pub fn normalize_remote_url(url: &str) -> (r: Option<String>)
    ensures
        r matches Some(s) ==> normalized_remote(url@) == Some(s@),
        r is None ==> normalized_remote(url@) is None,
{
    let raw = chars_of(url);
    let suffix = chars_of(".git");
    let u = if has_suffix(&raw, &suffix) {
        slice_chars(&raw, 0, raw.len() - suffix.len())
    } else {
        slice_chars(&raw, 0, raw.len())
    };
    assert(raw@.subrange(0, raw@.len() - suffix@.len()) =~= raw@.take(raw@.len() - suffix@.len()));
    assert(raw@.subrange(0, raw@.len() as int) =~= raw@);
    let git_at = chars_of("git@");
    let ssh = chars_of("ssh://git@");
    let https = chars_of("https://");
    let http = chars_of("http://");
    if has_prefix(&u, &git_at) {
        let rest = slice_chars(&u, git_at.len(), u.len());
        assert(rest@ =~= u@.skip(git_at@.len() as int));
        let i = position_of(&rest, ':', 0);
        proof {
            text::lemma_find_char(rest@, ':', 0);
        }
        if i < rest.len() {
            let mut out: Vec<char> = Vec::new();
            push_chars(&mut out, &https);
            let host = slice_chars(&rest, 0, i);
            push_chars(&mut out, &host);
            push_str(&mut out, "/");
            let path = slice_chars(&rest, i + 1, rest.len());
            push_chars(&mut out, &path);
            assert(host@ =~= rest@.take(i as int));
            assert(path@ =~= rest@.skip(i + 1));
            Some(string_of(&out))
        } else {
            None
        }
    } else if has_prefix(&u, &ssh) {
        let rest = slice_chars(&u, ssh.len(), u.len());
        assert(rest@ =~= u@.skip(ssh@.len() as int));
        let mut out: Vec<char> = Vec::new();
        push_chars(&mut out, &https);
        push_chars(&mut out, &rest);
        Some(string_of(&out))
    } else if has_prefix(&u, &https) || has_prefix(&u, &http) {
        Some(string_of(&u))
    } else {
        None
    }
}

/// Every address produced from a remote URL is a web address.
pub proof fn law_normalized_is_web(url: Seq<char>)
    ensures
        normalized_remote(url) matches Some(w) ==> text::starts_with(w, "https://"@) || text::starts_with(w, "http://"@),
{
    if let Some(w) = normalized_remote(url) {
        let u = if text::ends_with(url, ".git"@) { url.take(url.len() - ".git"@.len()) } else { url };
        if text::starts_with(u, "git@"@) {
            let rest = u.skip("git@"@.len() as int);
            let i = text::find_char(rest, ':', 0);
            assert(w.take("https://"@.len() as int) =~= "https://"@);
        } else if text::starts_with(u, "ssh://git@"@) {
            assert(w.take("https://"@.len() as int) =~= "https://"@);
        }
    }
}

/// The address of a commit: `{base}/commit/{hash}` when there is a base.
pub open spec fn commit_url_of(base: Option<Seq<char>>, hash: Seq<char>) -> Option<Seq<char>> {
    match base {
        Some(b) => Some(b + "/commit/"@ + hash),
        None => None,
    }
}

/// `"Name <email>"`, with `"unknown"` standing in for a part that could not
/// be read.
pub open spec fn author_of(name: Option<Seq<char>>, email: Option<Seq<char>>) -> Seq<char> {
    let n = match name { Some(n) => n, None => "unknown"@ };
    let e = match email { Some(e) => e, None => "unknown"@ };
    n + " <"@ + e + ">"@
}

/// Formats a commit signature as `"Name <email>"`; a part that is not valid
/// UTF-8 is given as `None` and shown as `"unknown"`.
pub fn format_author(name: Option<&str>, email: Option<&str>) -> (r: String)
    ensures
        r@ == author_of(
            match name { Some(n) => Some(n@), None => None },
            match email { Some(e) => Some(e@), None => None },
        ),
{
    let mut out: Vec<char> = Vec::new();
    match name {
        Some(n) => push_str(&mut out, n),
        None => push_str(&mut out, "unknown"),
    }
    push_str(&mut out, " <");
    match email {
        Some(e) => push_str(&mut out, e),
        None => push_str(&mut out, "unknown"),
    }
    push_str(&mut out, ">");
    string_of(&out)
}

/// Builds the information of one commit from what git reports of it: its
/// hash, the name and email of its author, its message and the web base
/// address of the repository, if any.
pub fn commit_info(
    hash: String,
    name: Option<&str>,
    email: Option<&str>,
    message: String,
    base_url: Option<&str>,
) -> (c: Commit)
    ensures
        c.hash@ == hash@,
        c.message@ == message@,
        c.author@ == author_of(
            match name { Some(n) => Some(n@), None => None },
            match email { Some(e) => Some(e@), None => None },
        ),
        (match c.url { Some(u) => Some(u@), None => None }) == commit_url_of(
            match base_url { Some(b) => Some(b@), None => None },
            hash@,
        ),
{
    let author = format_author(name, email);
    let url = match base_url {
        Some(base) => {
            let mut out: Vec<char> = Vec::new();
            push_str(&mut out, base);
            push_str(&mut out, "/commit/");
            push_str(&mut out, hash.as_str());
            Some(string_of(&out))
        },
        None => None,
    };
    Commit { author, hash, url, message }
}

/// The revision that history starts after: the one given, or `HEAD~1`.
pub fn since_spec<'a>(since: Option<&'a str>) -> (r: &'a str)
    ensures
        r@ == match since { Some(s) => s@, None => "HEAD~1"@ },
{
    match since {
        Some(s) => s,
        None => "HEAD~1",
    }
}

/// Decides the boundary of the history from the outcome of resolving the
/// `since` revision. A resolved revision is the boundary. A failure is an
/// error when the caller gave the revision, and means "no boundary" (the
/// whole history) when it was the default `HEAD~1`.
pub fn since_boundary<T, E>(since_given: bool, resolved: Result<T, E>) -> (r: Result<Option<T>, E>)
    ensures
        resolved matches Ok(t) ==> r == Ok::<Option<T>, E>(Some(t)),
        resolved matches Err(e) ==> r == (if since_given { Err::<Option<T>, E>(e) } else { Ok(None) }),
{
    match resolved {
        Ok(t) => Ok(Some(t)),
        Err(e) => if since_given {
            Err(e)
        } else {
            Ok(None)
        },
    }
}


/// A trailing `.git` makes no difference: for every URL `u` that does not
/// itself end with `.git`, `u + ".git"` and `u` give the same address.
pub proof fn law_git_suffix_ignored(u: Seq<char>)
    requires
        !text::ends_with(u, ".git"@),
    ensures
        normalized_remote(u + ".git"@) == normalized_remote(u),
{
    let g = ".git"@;
    let w = u + g;
    assert(w.skip(w.len() - g.len()) =~= g);
    assert(w.take(w.len() - g.len()) =~= u);
}

/// The three recognised forms, for a URL that does not end with `.git`:
/// `git@host:path` gives `https://host/path` (split at the first colon),
/// `ssh://git@rest` gives `https://rest`, and `https://rest` is kept.
pub proof fn law_remote_forms(host: Seq<char>, path: Seq<char>, rest: Seq<char>)
    requires
        forall|i: int| 0 <= i < host.len() ==> #[trigger] host[i] != ':',
    ensures
        !text::ends_with("git@"@ + host + seq![':'] + path, ".git"@) ==> normalized_remote(
            "git@"@ + host + seq![':'] + path,
        ) == Some("https://"@ + host + "/"@ + path),
        !text::ends_with("ssh://git@"@ + rest, ".git"@) ==> normalized_remote("ssh://git@"@ + rest) == Some(
            "https://"@ + rest,
        ),
        !text::ends_with("https://"@ + rest, ".git"@) ==> normalized_remote("https://"@ + rest) == Some(
            "https://"@ + rest,
        ),
{
    reveal_strlit("git@");
    reveal_strlit("ssh://git@");
    reveal_strlit("https://");
    let g = "git@"@;
    let l1 = g + host + seq![':'] + path;
    assert(l1.take(g.len() as int) =~= g);
    let r1 = l1.skip(g.len() as int);
    assert(r1 =~= host + seq![':'] + path);
    assert forall|m: int| 0 <= m < host.len() implies #[trigger] r1[m] != ':' by {
        assert(r1[m] == host[m]);
    }
    lemma_find_first(r1, ':', host.len() as int);
    assert(r1.take(host.len() as int) =~= host);
    assert(r1.skip(host.len() as int + 1) =~= path);
    let s = "ssh://git@"@;
    let l2 = s + rest;
    assert(l2.take(s.len() as int) =~= s);
    assert(l2.skip(s.len() as int) =~= rest);
    assert(l2[0] == 's');
    assert(!text::starts_with(l2, g)) by {
        assert(l2.take(g.len() as int)[0] == l2[0]);
    }
    let h = "https://"@;
    let l3 = h + rest;
    assert(l3.take(h.len() as int) =~= h);
    assert(!text::starts_with(l3, g)) by {
        assert(l3.take(g.len() as int)[0] == l3[0]);
        assert(l3[0] == 'h');
    }
    assert(!text::starts_with(l3, s)) by {
        if s.len() <= l3.len() {
            assert(l3.take(s.len() as int)[0] == l3[0]);
            assert(l3[0] == 'h');
            assert(s[0] == 's');
        }
    }
}

proof fn lemma_find_first(s: Seq<char>, c: char, j: int)
    requires
        0 <= j < s.len(),
        s[j] == c,
        forall|m: int| 0 <= m < j ==> #[trigger] s[m] != c,
    ensures
        text::find_char(s, c, 0) == j,
{
    text::lemma_find_char(s, c, 0);
    let k = text::find_char(s, c, 0);
    if k < j {
        assert(s[k] == c);
    }
}


/// A commit address is the base, then the hash; an author is the name, then
/// the email in angle brackets, with "unknown" for a missing part.
pub proof fn law_commit_url_and_author(base: Seq<char>, hash: Seq<char>, name: Seq<char>, email: Seq<char>)
    ensures
        commit_url_of(None, hash) is None,
        commit_url_of(Some(base), hash) matches Some(u) && text::starts_with(u, base) && text::ends_with(u, hash)
            && u.len() > base.len() + hash.len(),
        text::starts_with(author_of(Some(name), Some(email)), name),
        text::ends_with(author_of(Some(name), Some(email)), email + ">"@),
        author_of(None, Some(email)) == author_of(Some("unknown"@), Some(email)),
        author_of(Some(name), None) == author_of(Some(name), Some("unknown"@)),
{
    reveal_strlit("/commit/");
    let u = base + "/commit/"@ + hash;
    assert(u.take(base.len() as int) =~= base);
    assert(u.skip(u.len() - hash.len()) =~= hash);
    let a = name + " <"@ + email + ">"@;
    assert(a.take(name.len() as int) =~= name);
    assert(a.skip(a.len() - (email + ">"@).len()) =~= email + ">"@);
}

} // verus!
