//! Rendering of linted commits as a Markdown changelog.

use crate::cfg::LogConfig;
use crate::lint::{is_breaking_token, linted_views, LintedCommit, LintedView};
use crate::text;
use crate::text::{chars_eq, chars_of, less_than, push_chars, push_str, string_of, trim_end_chars};
use vstd::prelude::*;

verus! {

// ---------------------------------------------------------------------------
// One commit
// ---------------------------------------------------------------------------

/// Number of bytes of `c` in UTF-8.
pub open spec fn utf8_width(c: char) -> int {
    if (c as int) < 0x80 {
        1
    } else if (c as int) < 0x800 {
        2
    } else if (c as int) < 0x10000 {
        3
    } else {
        4
    }
}

/// The characters of `s` that make up its first `n` UTF-8 bytes, or all of
/// `s` when it is shorter; `None` when byte `n` falls inside a character.
pub open spec fn byte_prefix(s: Seq<char>, n: int) -> Option<Seq<char>>
    decreases s.len(),
{
    if n <= 0 || s.len() == 0 {
        Some(Seq::empty())
    } else if utf8_width(s[0]) > n {
        None
    } else {
        match byte_prefix(s.drop_first(), n - utf8_width(s[0])) {
            Some(r) => Some(seq![s[0]] + r),
            None => None,
        }
    }
}

/// The shortened hash: its first 7 bytes, or the whole hash when shorter.
pub open spec fn short_hash(h: Seq<char>) -> Seq<char> {
    byte_prefix(h, 7).unwrap()
}

/// A hash can be shortened when byte 7 does not fall inside a character.
pub open spec fn hash_shortens(h: Seq<char>) -> bool {
    byte_prefix(h, 7) is Some
}

fn width(c: char) -> (w: usize)
    ensures
        w == utf8_width(c),
{
    if c <= '\u{7f}' {
        1
    } else if c <= '\u{7ff}' {
        2
    } else if c <= '\u{ffff}' {
        3
    } else {
        4
    }
}

/// Shortens a commit hash to its first 7 bytes.
pub fn shorten_hash(h: &str) -> (r: Option<Vec<char>>)
    ensures
        match r {
            Some(s) => byte_prefix(h@, 7) == Some(s@),
            None => byte_prefix(h@, 7) is None,
        },
{
    let s = chars_of(h);
    let mut n: usize = 7;
    let mut i: usize = 0;
    assert(s@.skip(0) =~= s@);
    assert(s@.take(0) =~= Seq::<char>::empty());
    while n > 0 && i < s.len()
        invariant
            i <= s.len(),
            n <= 7,
            s@ == h@,
            match byte_prefix(s@.skip(i as int), n as int) {
                Some(r) => byte_prefix(s@, 7) == Some(s@.take(i as int) + r),
                None => byte_prefix(s@, 7) is None,
            },
        decreases s.len() - i,
    {
        let ghost rest = s@.skip(i as int);
        assert(rest.drop_first() =~= s@.skip(i + 1));
        let w = width(s[i]);
        if w > n {
            assert(rest[0] == s@[i as int]);
            assert(byte_prefix(rest, n as int) is None);
            return None;
        }
        proof {
            match byte_prefix(s@.skip(i + 1), n - w) {
                Some(r) => {
                    assert(s@.take(i as int) + (seq![s@[i as int]] + r) =~= s@.take(i + 1) + r);
                },
                None => {},
            }
        }
        n = n - w;
        i = i + 1;
    }
    let r = crate::text::slice_chars(&s, 0, i);
    assert(r@ =~= s@.take(i as int));
    proof {
        assert(byte_prefix(s@.skip(i as int), n as int) == Some(Seq::<char>::empty()));
        assert(s@.take(i as int) + Seq::<char>::empty() =~= s@.take(i as int));
    }
    Some(r)
}

/// The metadata shown after a commit's description, if any.
pub open spec fn commit_meta(c: LintedView, cfg: LogConfig) -> Option<Seq<char>> {
    let h = short_hash(c.hash);
    if cfg.include_commit_url {
        match c.url {
            Some(u) => if cfg.include_commit_hash {
                Some("["@ + h + "]("@ + u + ")"@)
            } else {
                Some("[link]("@ + u + ")"@)
            },
            None => if cfg.include_commit_hash {
                Some("`"@ + h + "`"@)
            } else {
                None
            },
        }
    } else if cfg.include_commit_hash {
        Some("`"@ + h + "`"@)
    } else {
        None
    }
}

/// The list item header of a commit: its description, then its metadata in
/// parentheses when there is any.
pub open spec fn commit_line(c: LintedView, cfg: LogConfig) -> Seq<char> {
    match commit_meta(c, cfg) {
        Some(m) => c.brief + " ("@ + m + ")"@,
        None => c.brief,
    }
}

/// Formats the list item header of a commit (description and metadata).
pub fn format_commit_line(commit: &LintedCommit, config: &LogConfig) -> (s: String)
    requires
        hash_shortens(commit.hash@),
    ensures
        s@ == commit_line(commit@, *config),
{
    let mut out: Vec<char> = Vec::new();
    push_commit_line(&mut out, commit, config);
    string_of(&out)
}

fn push_commit_line(out: &mut Vec<char>, commit: &LintedCommit, config: &LogConfig)
    requires
        hash_shortens(commit.hash@),
    ensures
        final(out)@ == old(out)@ + commit_line(commit@, *config),
{
    let short = match shorten_hash(commit.hash.as_str()) {
        Some(s) => s,
        None => {
            assert(false);
            Vec::new()
        },
    };
    let ghost start = out@;
    push_str(out, commit.brief.as_str());
    let mut meta: Vec<char> = Vec::new();
    let mut has_meta = false;
    if config.include_commit_url {
        match &commit.url {
            Some(u) => {
                has_meta = true;
                if config.include_commit_hash {
                    push_str(&mut meta, "[");
                    push_chars(&mut meta, &short);
                    push_str(&mut meta, "](");
                    push_str(&mut meta, u.as_str());
                    push_str(&mut meta, ")");
                } else {
                    push_str(&mut meta, "[link](");
                    push_str(&mut meta, u.as_str());
                    push_str(&mut meta, ")");
                }
            },
            None => {
                if config.include_commit_hash {
                    has_meta = true;
                    push_str(&mut meta, "`");
                    push_chars(&mut meta, &short);
                    push_str(&mut meta, "`");
                }
            },
        }
    } else if config.include_commit_hash {
        has_meta = true;
        push_str(&mut meta, "`");
        push_chars(&mut meta, &short);
        push_str(&mut meta, "`");
    }
    assert(has_meta <==> commit_meta(commit@, *config) is Some);
    assert(has_meta ==> commit_meta(commit@, *config) == Some(meta@));
    if has_meta {
        push_str(out, " (");
        push_chars(out, &meta);
        push_str(out, ")");
    }
}

/// `s` with every newline followed by two spaces (`replace("\n", "\n  ")`).
pub open spec fn indent_lines(s: Seq<char>) -> Seq<char>
    decreases s.len(),
{
    if s.len() == 0 {
        s
    } else {
        indent_lines(s.drop_last()) + if s.last() == '\n' {
            seq!['\n', ' ', ' ']
        } else {
            seq![s.last()]
        }
    }
}

/// The footers of a commit shown under it, each as an indented paragraph;
/// breaking-change footers are left out (the commit is listed under
/// "Breaking Changes" instead).
pub open spec fn footer_details(fs: Seq<(Seq<char>, Seq<char>)>) -> Seq<char>
    decreases fs.len(),
{
    if fs.len() == 0 {
        Seq::empty()
    } else {
        footer_details(fs.drop_last()) + if is_breaking_token(fs.last().0) {
            Seq::<char>::empty()
        } else {
            "\n\n  *"@ + fs.last().0 + "*: "@ + fs.last().1
        }
    }
}

/// The indented body and footers shown under a commit's list item.
pub open spec fn commit_details(c: LintedView) -> Seq<char> {
    (match c.body {
        Some(b) => "\n\n  "@ + indent_lines(b),
        None => Seq::empty(),
    }) + footer_details(c.footers)
}

fn push_indented(out: &mut Vec<char>, body: &str)
    ensures
        final(out)@ == old(out)@ + indent_lines(body@),
{
    let b = chars_of(body);
    let ghost start = out@;
    let mut k: usize = 0;
    assert(b@.take(0) =~= Seq::<char>::empty());
    assert(start + indent_lines(Seq::<char>::empty()) =~= start);
    while k < b.len()
        invariant
            k <= b.len(),
            out@ == start + indent_lines(b@.take(k as int)),
        decreases b.len() - k,
    {
        assert(b@.take(k + 1).drop_last() =~= b@.take(k as int));
        if b[k] == '\n' {
            out.push('\n');
            out.push(' ');
            out.push(' ');
            assert(out@ =~= start + indent_lines(b@.take(k + 1)));
        } else {
            out.push(b[k]);
            assert(out@ =~= start + indent_lines(b@.take(k + 1)));
        }
        k = k + 1;
    }
    assert(b@.take(b.len() as int) =~= b@);
}

fn push_details(out: &mut Vec<char>, commit: &LintedCommit)
    ensures
        final(out)@ == old(out)@ + commit_details(commit@),
{
    let ghost start = out@;
    if let Some(body) = &commit.body {
        push_str(out, "\n\n  ");
        push_indented(out, body.as_str());
    }
    let ghost mid = out@;
    let ghost fs = commit@.footers;
    let bc = chars_of("BREAKING CHANGE");
    let bh = chars_of("BREAKING-CHANGE");
    let mut i: usize = 0;
    assert(fs.take(0) =~= Seq::<(Seq<char>, Seq<char>)>::empty());
    assert(mid + footer_details(Seq::<(Seq<char>, Seq<char>)>::empty()) =~= mid);
    while i < commit.footers.len()
        invariant
            i <= commit.footers.len(),
            fs == commit@.footers,
            fs.len() == commit.footers@.len(),
            bc@ == "BREAKING CHANGE"@,
            bh@ == "BREAKING-CHANGE"@,
            out@ == mid + footer_details(fs.take(i as int)),
        decreases commit.footers.len() - i,
    {
        assert(fs.take(i + 1).drop_last() =~= fs.take(i as int));
        assert(fs[i as int] == (commit.footers@[i as int].0@, commit.footers@[i as int].1@));
        let tok = chars_of(commit.footers[i].0.as_str());
        if !(chars_eq(&tok, &bc) || chars_eq(&tok, &bh)) {
            let ghost before = out@;
            push_str(out, "\n\n  *");
            push_chars(out, &tok);
            push_str(out, "*: ");
            push_str(out, commit.footers[i].1.as_str());
            assert(out@ =~= before + ("\n\n  *"@ + fs[i as int].0 + "*: "@ + fs[i as int].1));
        } else {
            assert(out@ =~= out@ + Seq::<char>::empty());
        }
        i = i + 1;
    }
    assert(fs.take(commit.footers.len() as int) =~= fs);
    assert(out@ =~= start + commit_details(commit@));
}

/// Formats the indented body paragraphs and footers of a commit.
pub fn format_commit_details(commit: &LintedCommit) -> (s: String)
    ensures
        s@ == commit_details(commit@),
{
    let mut out: Vec<char> = Vec::new();
    push_details(&mut out, commit);
    assert(out@ =~= commit_details(commit@));
    string_of(&out)
}


// ---------------------------------------------------------------------------
// Sorted keys
// ---------------------------------------------------------------------------

/// `x` inserted into `keys` in order, unless it is already there.
pub open spec fn sorted_insert(keys: Seq<Seq<char>>, x: Seq<char>) -> Seq<Seq<char>>
    decreases keys.len(),
{
    if keys.len() == 0 {
        seq![x]
    } else if keys[0] == x {
        keys
    } else if text::str_lt(x, keys[0]) {
        seq![x] + keys
    } else {
        seq![keys[0]] + sorted_insert(keys.drop_first(), x)
    }
}

/// The keys of a stream, in order of first appearance when the stream is
/// read from its end; entries that are `None` carry no key.
pub open spec fn first_seen<K>(st: Seq<Option<K>>) -> Seq<K>
    decreases st.len(),
{
    if st.len() == 0 {
        Seq::empty()
    } else {
        let r = first_seen(st.drop_first());
        match st[0] {
            Some(k) => if r.contains(k) {
                r
            } else {
                r.push(k)
            },
            None => r,
        }
    }
}

/// The types of the commits, one entry per commit.
pub open spec fn type_stream(cs: Seq<LintedView>) -> Seq<Option<Seq<char>>> {
    cs.map_values(|c: LintedView| Some(c.ty))
}

/// The scopes of the commits of type `ty`; other commits carry no key.
pub open spec fn scope_stream(cs: Seq<LintedView>, ty: Seq<char>) -> Seq<Option<Option<Seq<char>>>> {
    cs.map_values(|c: LintedView| if c.ty == ty { Some(c.scope) } else { None })
}

/// The distinct types of the commits, in the order in which they first
/// appear in history. Commits are listed newest first, as history gives
/// them, so the list is read from its end.
pub open spec fn type_keys(cs: Seq<LintedView>) -> Seq<Seq<char>> {
    first_seen(type_stream(cs))
}

/// The distinct authors of the commits, in sorted order.
pub open spec fn author_keys(cs: Seq<LintedView>) -> Seq<Seq<char>>
    decreases cs.len(),
{
    if cs.len() == 0 {
        Seq::empty()
    } else {
        sorted_insert(author_keys(cs.drop_last()), cs.last().author)
    }
}

/// The distinct scopes (`None` for commits without one) of the commits of
/// type `ty`, in the order in which they first appear in history.
pub open spec fn scope_keys(cs: Seq<LintedView>, ty: Seq<char>) -> Seq<Option<Seq<char>>> {
    first_seen(scope_stream(cs, ty))
}

fn copy_chars(s: &[char]) -> (r: Vec<char>)
    ensures
        r@ == s@,
{
    let r = crate::text::slice_chars(s, 0, s.len());
    assert(r@ =~= s@);
    r
}

/// Inserts `x` into the sorted list `keys` unless it is already there.
fn insert_sorted(keys: &mut Vec<Vec<char>>, x: &[char])
    ensures
        text::views(final(keys)@) == sorted_insert(text::views(old(keys)@), x@),
{
    let ghost k0 = text::views(keys@);
    let mut j: usize = 0;
    assert(k0.skip(0) =~= k0);
    assert(k0.take(0) + k0 =~= k0);
    while j < keys.len() && less_than(&keys[j], x)
        invariant
            j <= keys.len(),
            k0 == text::views(keys@),
            sorted_insert(k0, x@) == k0.take(j as int) + sorted_insert(k0.skip(j as int), x@),
        decreases keys.len() - j,
    {
        let ghost rest = k0.skip(j as int);
        assert(rest[0] == keys@[j as int]@);
        proof {
            text::lemma_str_lt_irreflexive(x@);
            text::lemma_str_lt_total(rest[0], x@);
        }
        assert(rest.drop_first() =~= k0.skip(j + 1));
        assert(k0.take(j as int) + (seq![rest[0]] + sorted_insert(k0.skip(j + 1), x@)) =~= k0.take(j + 1)
            + sorted_insert(k0.skip(j + 1), x@));
        j = j + 1;
    }
    if j < keys.len() {
        let ghost rest = k0.skip(j as int);
        assert(rest[0] == keys@[j as int]@);
        if chars_eq(&keys[j], x) {
            assert(k0.take(j as int) + rest =~= k0);
            return;
        }
        proof {
            text::lemma_str_lt_total(rest[0], x@);
        }
        keys.insert(j, copy_chars(x));
        assert(text::views(keys@) =~= k0.take(j as int) + (seq![x@] + rest));
    } else {
        assert(k0.skip(j as int) =~= Seq::<Seq<char>>::empty());
        keys.push(copy_chars(x));
        assert(text::views(keys@) =~= k0.take(j as int) + seq![x@]);
    }
}

fn type_keys_of(commits: &[LintedCommit]) -> (r: Vec<Vec<char>>)
    ensures
        text::views(r@) == type_keys(linted_views(commits@)),
{
    let ghost st = type_stream(linted_views(commits@));
    let mut keys: Vec<Vec<char>> = Vec::new();
    let mut i: usize = commits.len();
    assert(st.skip(st.len() as int) =~= Seq::<Option<Seq<char>>>::empty());
    assert(text::views(keys@) =~= Seq::<Seq<char>>::empty());
    while i > 0
        invariant
            i <= commits.len(),
            st == type_stream(linted_views(commits@)),
            st.len() == commits.len(),
            text::views(keys@) == first_seen(st.skip(i as int)),
        decreases i,
    {
        i = i - 1;
        assert(st.skip(i as int).drop_first() =~= st.skip(i + 1));
        assert(st.skip(i as int)[0] == st[i as int]);
        assert(st[i as int] == Some(commits@[i as int].ty@));
        let t = chars_of(commits[i].ty.as_str());
        let ghost kv = text::views(keys@);
        let mut found = false;
        let mut j: usize = 0;
        while j < keys.len()
            invariant
                j <= keys.len(),
                kv == text::views(keys@),
                found == exists|m: int| 0 <= m < j && kv[m] == t@,
            decreases keys.len() - j,
        {
            assert(kv[j as int] == keys@[j as int]@);
            if chars_eq(&keys[j], &t) {
                found = true;
            }
            j = j + 1;
        }
        assert(found == kv.contains(t@));
        if !found {
            keys.push(t);
            assert(text::views(keys@) =~= kv.push(t@));
        }
    }
    assert(st.skip(0) =~= st);
    keys
}

fn author_keys_of(commits: &[LintedCommit]) -> (r: Vec<Vec<char>>)
    ensures
        text::views(r@) == author_keys(linted_views(commits@)),
{
    let ghost cs = linted_views(commits@);
    let mut keys: Vec<Vec<char>> = Vec::new();
    let mut i: usize = 0;
    assert(cs.take(0) =~= Seq::<LintedView>::empty());
    assert(text::views(keys@) =~= Seq::<Seq<char>>::empty());
    while i < commits.len()
        invariant
            i <= commits.len(),
            cs == linted_views(commits@),
            text::views(keys@) == author_keys(cs.take(i as int)),
        decreases commits.len() - i,
    {
        assert(cs.take(i + 1).drop_last() =~= cs.take(i as int));
        assert(cs[i as int] == commits@[i as int]@);
        let a = chars_of(commits[i].author.as_str());
        insert_sorted(&mut keys, &a);
        i = i + 1;
    }
    assert(cs.take(commits.len() as int) =~= cs);
    keys
}

/// The characters of an optional character buffer.
pub open spec fn opt_chars(o: Option<Vec<char>>) -> Option<Seq<char>> {
    match o {
        Some(x) => Some(x@),
        None => None,
    }
}

/// The views of a list of optional character buffers.
pub open spec fn opt_views(v: Seq<Option<Vec<char>>>) -> Seq<Option<Seq<char>>> {
    v.map_values(|o: Option<Vec<char>>| opt_chars(o))
}

fn opt_chars_eq(a: &Option<Vec<char>>, b: &Option<Vec<char>>) -> (r: bool)
    ensures
        r == (opt_chars(*a) == opt_chars(*b)),
{
    match (a, b) {
        (None, None) => true,
        (Some(x), Some(y)) => chars_eq(x, y),
        _ => false,
    }
}

fn scope_keys_of(commits: &[LintedCommit], ty: &[char]) -> (r: Vec<Option<Vec<char>>>)
    ensures
        opt_views(r@) == scope_keys(linted_views(commits@), ty@),
{
    let ghost st = scope_stream(linted_views(commits@), ty@);
    let mut keys: Vec<Option<Vec<char>>> = Vec::new();
    let mut i: usize = commits.len();
    assert(st.skip(st.len() as int) =~= Seq::<Option<Option<Seq<char>>>>::empty());
    assert(opt_views(keys@) =~= Seq::<Option<Seq<char>>>::empty());
    while i > 0
        invariant
            i <= commits.len(),
            st == scope_stream(linted_views(commits@), ty@),
            st.len() == commits.len(),
            opt_views(keys@) == first_seen(st.skip(i as int)),
        decreases i,
    {
        i = i - 1;
        assert(st.skip(i as int).drop_first() =~= st.skip(i + 1));
        assert(st.skip(i as int)[0] == st[i as int]);
        let t = chars_of(commits[i].ty.as_str());
        if chars_eq(&t, ty) {
            let sc: Option<Vec<char>> = match &commits[i].scope {
                Some(x) => Some(chars_of(x.as_str())),
                None => None,
            };
            let ghost sv = opt_chars(sc);
            assert(st[i as int] == Some(sv));
            let ghost kv = opt_views(keys@);
            let mut found = false;
            let mut j: usize = 0;
            while j < keys.len()
                invariant
                    j <= keys.len(),
                    kv == opt_views(keys@),
                    sv == opt_chars(sc),
                    found == exists|m: int| 0 <= m < j && kv[m] == sv,
                decreases keys.len() - j,
            {
                assert(kv[j as int] == opt_chars(keys@[j as int]));
                if opt_chars_eq(&keys[j], &sc) {
                    found = true;
                }
                j = j + 1;
            }
            assert(found == kv.contains(sv));
            if !found {
                keys.push(sc);
                assert(opt_views(keys@) =~= kv.push(sv));
            }
        } else {
            assert(st[i as int] == None::<Option<Seq<char>>>);
        }
    }
    assert(st.skip(0) =~= st);
    keys
}

// ---------------------------------------------------------------------------
// Sections
// ---------------------------------------------------------------------------

/// Every commit's hash can be shortened.
pub open spec fn hashes_shorten(cs: Seq<LintedView>) -> bool {
    forall|i: int| 0 <= i < cs.len() ==> hash_shortens(#[trigger] cs[i].hash)
}

/// A commit as a list item.
pub open spec fn commit_item(c: LintedView, cfg: LogConfig) -> Seq<char> {
    "- "@ + commit_line(c, cfg) + commit_details(c) + "\n"@
}

/// A commit as a list item with its scope in bold in front.
pub open spec fn flat_item(c: LintedView, cfg: LogConfig) -> Seq<char> {
    "- "@ + (match c.scope {
        Some(s) => "**"@ + s + "**: "@ + commit_line(c, cfg),
        None => commit_line(c, cfg),
    }) + commit_details(c) + "\n"@
}

/// The items of the breaking commits, in order.
pub open spec fn breaking_items(cs: Seq<LintedView>, cfg: LogConfig) -> Seq<char>
    decreases cs.len(),
{
    if cs.len() == 0 {
        Seq::empty()
    } else {
        breaking_items(cs.drop_last(), cfg) + if cs.last().breaking {
            commit_item(cs.last(), cfg)
        } else {
            Seq::<char>::empty()
        }
    }
}

/// The items (scope in bold) of the commits of type `ty`, in order.
pub open spec fn flat_items(cs: Seq<LintedView>, ty: Seq<char>, cfg: LogConfig) -> Seq<char>
    decreases cs.len(),
{
    if cs.len() == 0 {
        Seq::empty()
    } else {
        flat_items(cs.drop_last(), ty, cfg) + if cs.last().ty == ty {
            flat_item(cs.last(), cfg)
        } else {
            Seq::<char>::empty()
        }
    }
}

/// The items of the commits of type `ty` and the given scope, in order.
pub open spec fn scope_items(
    cs: Seq<LintedView>,
    ty: Seq<char>,
    scope: Option<Seq<char>>,
    cfg: LogConfig,
) -> Seq<char>
    decreases cs.len(),
{
    if cs.len() == 0 {
        Seq::empty()
    } else {
        scope_items(cs.drop_last(), ty, scope, cfg) + if cs.last().ty == ty && cs.last().scope == scope {
            commit_item(cs.last(), cfg)
        } else {
            Seq::<char>::empty()
        }
    }
}

/// Some commit is breaking.
pub open spec fn any_breaking(cs: Seq<LintedView>) -> bool {
    exists|i: int| 0 <= i < cs.len() && #[trigger] cs[i].breaking
}

/// The "Breaking Changes" section: present when some commit is breaking.
pub open spec fn breaking_section(cs: Seq<LintedView>, cfg: LogConfig) -> Seq<char> {
    if any_breaking(cs) {
        "## Breaking Changes\n\n"@ + breaking_items(cs, cfg) + "\n"@
    } else {
        Seq::empty()
    }
}

/// A scope subsection with its title and items.
pub open spec fn scope_block(title: Seq<char>, items: Seq<char>) -> Seq<char> {
    "### `"@ + title + "`\n\n"@ + items + "\n"@
}

/// The title of a scope subsection: the scope, or "General" for commits
/// without one.
pub open spec fn scope_title(scope: Option<Seq<char>>) -> Seq<char> {
    match scope {
        Some(s) => s,
        None => "General"@,
    }
}

/// The subsections of the given scopes of type `ty`, in the order given.
pub open spec fn scope_sections(
    keys: Seq<Option<Seq<char>>>,
    ty: Seq<char>,
    cs: Seq<LintedView>,
    cfg: LogConfig,
) -> Seq<char>
    decreases keys.len(),
{
    if keys.len() == 0 {
        Seq::empty()
    } else {
        scope_sections(keys.drop_last(), ty, cs, cfg) + scope_block(
            scope_title(keys.last()),
            scope_items(cs, ty, keys.last(), cfg),
        )
    }
}

/// Some commit of type `ty` has a scope.
pub open spec fn has_scoped(cs: Seq<LintedView>, ty: Seq<char>) -> bool {
    exists|i: int| 0 <= i < cs.len() && #[trigger] cs[i].ty == ty && cs[i].scope is Some
}

/// The section of type `ty`: a heading, then, when scope lists are
/// separated and some commit of the type has a scope, one subsection per
/// scope in order of first appearance (commits without a scope under
/// "General"); otherwise one list, with scopes in bold.
pub open spec fn type_section(ty: Seq<char>, cs: Seq<LintedView>, cfg: LogConfig) -> Seq<char> {
    "## "@ + ty + "\n\n"@ + if cfg.separate_scope_lists && has_scoped(cs, ty) {
        scope_sections(scope_keys(cs, ty), ty, cs, cfg)
    } else {
        flat_items(cs, ty, cfg) + "\n"@
    }
}

/// The sections of the given types, in the order given.
pub open spec fn type_sections(keys: Seq<Seq<char>>, cs: Seq<LintedView>, cfg: LogConfig) -> Seq<char>
    decreases keys.len(),
{
    if keys.len() == 0 {
        Seq::empty()
    } else {
        type_sections(keys.drop_last(), cs, cfg) + type_section(keys.last(), cs, cfg)
    }
}

/// One list item per author, in the order given.
pub open spec fn author_lines(keys: Seq<Seq<char>>) -> Seq<char>
    decreases keys.len(),
{
    if keys.len() == 0 {
        Seq::empty()
    } else {
        author_lines(keys.drop_last()) + "- "@ + keys.last() + "\n"@
    }
}

/// The heading of the contributors section.
pub open spec fn thanks_title(cfg: LogConfig) -> Seq<char> {
    match cfg.thanks_subtitle {
        Some(t) => t@,
        None => "Thanks to"@,
    }
}

/// The contributors section: when enabled and there are commits, each
/// author once, in sorted order.
pub open spec fn thanks_section(cs: Seq<LintedView>, cfg: LogConfig) -> Seq<char> {
    if cfg.collect_thanks && cs.len() > 0 {
        "## "@ + thanks_title(cfg) + "\n\n"@ + author_lines(author_keys(cs)) + "\n"@
    } else {
        Seq::empty()
    }
}

/// The changelog before its end is normalised: breaking changes, one
/// section per type in the order in which types first appear in history,
/// contributors.
pub open spec fn markdown_text(cs: Seq<LintedView>, cfg: LogConfig) -> Seq<char> {
    breaking_section(cs, cfg) + type_sections(type_keys(cs), cs, cfg) + thanks_section(cs, cfg)
}

/// The changelog: trailing whitespace removed, then one newline.
pub open spec fn markdown(cs: Seq<LintedView>, cfg: LogConfig) -> Seq<char> {
    text::trim_end(markdown_text(cs, cfg)) + seq!['\n']
}

fn push_item(out: &mut Vec<char>, commit: &LintedCommit, config: &LogConfig)
    requires
        hash_shortens(commit.hash@),
    ensures
        final(out)@ == old(out)@ + commit_item(commit@, *config),
{
    let ghost start = out@;
    push_str(out, "- ");
    push_commit_line(out, commit, config);
    push_details(out, commit);
    push_str(out, "\n");
    assert(out@ =~= start + commit_item(commit@, *config));
}

fn push_flat_item(out: &mut Vec<char>, commit: &LintedCommit, config: &LogConfig)
    requires
        hash_shortens(commit.hash@),
    ensures
        final(out)@ == old(out)@ + flat_item(commit@, *config),
{
    let ghost start = out@;
    push_str(out, "- ");
    if let Some(sc) = &commit.scope {
        push_str(out, "**");
        push_str(out, sc.as_str());
        push_str(out, "**: ");
    }
    push_commit_line(out, commit, config);
    push_details(out, commit);
    push_str(out, "\n");
    assert(out@ =~= start + flat_item(commit@, *config));
}

fn push_breaking_items(out: &mut Vec<char>, commits: &[LintedCommit], config: &LogConfig) -> (any: bool)
    requires
        hashes_shorten(linted_views(commits@)),
    ensures
        final(out)@ == old(out)@ + breaking_items(linted_views(commits@), *config),
        any == any_breaking(linted_views(commits@)),
{
    let ghost cs = linted_views(commits@);
    let ghost start = out@;
    let mut any = false;
    let mut i: usize = 0;
    assert(cs.take(0) =~= Seq::<LintedView>::empty());
    assert(start + breaking_items(Seq::<LintedView>::empty(), *config) =~= start);
    while i < commits.len()
        invariant
            i <= commits.len(),
            cs == linted_views(commits@),
            hashes_shorten(cs),
            out@ == start + breaking_items(cs.take(i as int), *config),
            any == exists|j: int| 0 <= j < i && #[trigger] cs[j].breaking,
        decreases commits.len() - i,
    {
        assert(cs.take(i + 1).drop_last() =~= cs.take(i as int));
        assert(cs[i as int] == commits@[i as int]@);
        assert(hash_shortens(cs[i as int].hash));
        if commits[i].breaking {
            push_item(out, &commits[i], config);
            any = true;
        }
        assert(out@ =~= start + breaking_items(cs.take(i + 1), *config));
        i = i + 1;
    }
    assert(cs.take(commits.len() as int) =~= cs);
    any
}

fn push_flat_items(out: &mut Vec<char>, commits: &[LintedCommit], ty: &[char], config: &LogConfig)
    requires
        hashes_shorten(linted_views(commits@)),
    ensures
        final(out)@ == old(out)@ + flat_items(linted_views(commits@), ty@, *config),
{
    let ghost cs = linted_views(commits@);
    let ghost start = out@;
    let mut i: usize = 0;
    assert(cs.take(0) =~= Seq::<LintedView>::empty());
    assert(start + flat_items(Seq::<LintedView>::empty(), ty@, *config) =~= start);
    while i < commits.len()
        invariant
            i <= commits.len(),
            cs == linted_views(commits@),
            hashes_shorten(cs),
            out@ == start + flat_items(cs.take(i as int), ty@, *config),
        decreases commits.len() - i,
    {
        assert(cs.take(i + 1).drop_last() =~= cs.take(i as int));
        assert(cs[i as int] == commits@[i as int]@);
        assert(hash_shortens(cs[i as int].hash));
        let t = chars_of(commits[i].ty.as_str());
        if chars_eq(&t, ty) {
            push_flat_item(out, &commits[i], config);
        }
        assert(out@ =~= start + flat_items(cs.take(i + 1), ty@, *config));
        i = i + 1;
    }
    assert(cs.take(commits.len() as int) =~= cs);
}

fn same_scope(s: &Option<String>, scope: &Option<Vec<char>>) -> (b: bool)
    ensures
        b == (crate::lint::opt_view(*s) == opt_chars(*scope)),
{
    match (s, scope) {
        (None, None) => true,
        (Some(a), Some(x)) => {
            let ac = chars_of(a.as_str());
            chars_eq(&ac, x)
        },
        _ => false,
    }
}

fn push_scope_items(
    out: &mut Vec<char>,
    commits: &[LintedCommit],
    ty: &[char],
    scope: &Option<Vec<char>>,
    config: &LogConfig,
)
    requires
        hashes_shorten(linted_views(commits@)),
    ensures
        final(out)@ == old(out)@ + scope_items(
            linted_views(commits@),
            ty@,
            opt_chars(*scope),
            *config,
        ),
{
    let ghost cs = linted_views(commits@);
    let ghost sc = opt_chars(*scope);
    let ghost start = out@;
    let mut i: usize = 0;
    assert(cs.take(0) =~= Seq::<LintedView>::empty());
    assert(start + scope_items(Seq::<LintedView>::empty(), ty@, sc, *config) =~= start);
    while i < commits.len()
        invariant
            i <= commits.len(),
            cs == linted_views(commits@),
            sc == opt_chars(*scope),
            hashes_shorten(cs),
            out@ == start + scope_items(cs.take(i as int), ty@, sc, *config),
        decreases commits.len() - i,
    {
        assert(cs.take(i + 1).drop_last() =~= cs.take(i as int));
        assert(cs[i as int] == commits@[i as int]@);
        assert(hash_shortens(cs[i as int].hash));
        let t = chars_of(commits[i].ty.as_str());
        if chars_eq(&t, ty) && same_scope(&commits[i].scope, scope) {
            push_item(out, &commits[i], config);
        }
        assert(out@ =~= start + scope_items(cs.take(i + 1), ty@, sc, *config));
        i = i + 1;
    }
    assert(cs.take(commits.len() as int) =~= cs);
}

fn push_scope_block(out: &mut Vec<char>, title: &[char], items: &[char])
    ensures
        final(out)@ == old(out)@ + scope_block(title@, items@),
{
    let ghost start = out@;
    push_str(out, "### `");
    push_chars(out, title);
    push_str(out, "`\n\n");
    push_chars(out, items);
    push_str(out, "\n");
    assert(out@ =~= start + scope_block(title@, items@));
}

fn push_type_section(out: &mut Vec<char>, commits: &[LintedCommit], ty: &[char], config: &LogConfig)
    requires
        hashes_shorten(linted_views(commits@)),
    ensures
        final(out)@ == old(out)@ + type_section(ty@, linted_views(commits@), *config),
{
    let ghost cs = linted_views(commits@);
    let ghost start = out@;
    push_str(out, "## ");
    push_chars(out, ty);
    push_str(out, "\n\n");
    let ghost mid = out@;
    let keys = scope_keys_of(commits, ty);
    let ghost kv = opt_views(keys@);
    let mut scoped = false;
    let mut j: usize = 0;
    while j < keys.len()
        invariant
            j <= keys.len(),
            kv == opt_views(keys@),
            scoped == exists|m: int| 0 <= m < j && #[trigger] kv[m] is Some,
        decreases keys.len() - j,
    {
        assert(kv[j as int] == opt_chars(keys@[j as int]));
        if keys[j].is_some() {
            scoped = true;
        }
        j = j + 1;
    }
    proof {
        law_scope_keys(cs, ty@);
        if scoped {
            let m = choose|m: int| 0 <= m < kv.len() && #[trigger] kv[m] is Some;
            assert(kv.contains(kv[m]));
            let i = choose|i: int| 0 <= i < cs.len() && cs[i].ty == ty@ && cs[i].scope == kv[m];
            assert(cs[i].ty == ty@ && cs[i].scope is Some);
        }
        if has_scoped(cs, ty@) {
            let i = choose|i: int| 0 <= i < cs.len() && #[trigger] cs[i].ty == ty@ && cs[i].scope is Some;
            assert(kv.contains(cs[i].scope));
            let m = choose|m: int| 0 <= m < kv.len() && kv[m] == cs[i].scope;
            assert(kv[m] is Some);
        }
    }
    assert(scoped == has_scoped(cs, ty@));
    if config.separate_scope_lists && scoped {
        let mut k: usize = 0;
        assert(kv.take(0) =~= Seq::<Option<Seq<char>>>::empty());
        assert(mid + scope_sections(Seq::<Option<Seq<char>>>::empty(), ty@, cs, *config) =~= mid);
        while k < keys.len()
            invariant
                k <= keys.len(),
                cs == linted_views(commits@),
                hashes_shorten(cs),
                kv == opt_views(keys@),
                out@ == mid + scope_sections(kv.take(k as int), ty@, cs, *config),
            decreases keys.len() - k,
        {
            assert(kv.take(k + 1).drop_last() =~= kv.take(k as int));
            let ghost key = kv[k as int];
            assert(key == opt_chars(keys@[k as int]));
            let mut items: Vec<char> = Vec::new();
            push_scope_items(&mut items, commits, ty, &keys[k], config);
            assert(items@ =~= scope_items(cs, ty@, key, *config));
            let title = match &keys[k] {
                Some(x) => copy_chars(x),
                None => chars_of("General"),
            };
            assert(title@ == scope_title(key));
            push_scope_block(out, &title, &items);
            assert(out@ =~= mid + scope_sections(kv.take(k + 1), ty@, cs, *config));
            k = k + 1;
        }
        assert(kv.take(keys.len() as int) =~= kv);
        assert(out@ =~= start + type_section(ty@, cs, *config));
    } else {
        push_flat_items(out, commits, ty, config);
        push_str(out, "\n");
        assert(out@ =~= start + type_section(ty@, cs, *config));
    }
}

fn push_thanks_section(out: &mut Vec<char>, commits: &[LintedCommit], config: &LogConfig)
    ensures
        final(out)@ == old(out)@ + thanks_section(linted_views(commits@), *config),
{
    let ghost cs = linted_views(commits@);
    let ghost start = out@;
    if config.collect_thanks && commits.len() > 0 {
        push_str(out, "## ");
        match &config.thanks_subtitle {
            Some(t) => push_str(out, t.as_str()),
            None => push_str(out, "Thanks to"),
        }
        push_str(out, "\n\n");
        let ghost head = out@;
        let keys = author_keys_of(commits);
        let ghost kv = text::views(keys@);
        let mut k: usize = 0;
        assert(kv.take(0) =~= Seq::<Seq<char>>::empty());
        assert(head + author_lines(Seq::<Seq<char>>::empty()) =~= head);
        while k < keys.len()
            invariant
                k <= keys.len(),
                kv == text::views(keys@),
                out@ == head + author_lines(kv.take(k as int)),
            decreases keys.len() - k,
        {
            assert(kv.take(k + 1).drop_last() =~= kv.take(k as int));
            assert(kv[k as int] == keys@[k as int]@);
            push_str(out, "- ");
            push_chars(out, &keys[k]);
            push_str(out, "\n");
            assert(out@ =~= head + author_lines(kv.take(k + 1)));
            k = k + 1;
        }
        assert(kv.take(keys.len() as int) =~= kv);
        push_str(out, "\n");
        assert(out@ =~= start + thanks_section(cs, *config));
    } else {
        assert(out@ =~= start + thanks_section(cs, *config));
    }
}

/// Generates a Markdown changelog from linted commits, listed newest first
/// as history gives them: a "Breaking Changes" section, one section per
/// type in the order in which types first appear in history (grouped by
/// scope or as a single list, as configured), and optionally the
/// contributors in sorted order. Within a list, commits keep their order.
pub fn generate_markdown(commits: &[LintedCommit], config: &LogConfig) -> (s: String)
    requires
        hashes_shorten(linted_views(commits@)),
    ensures
        s@ == markdown(linted_views(commits@), *config),
{
    let ghost cs = linted_views(commits@);
    let mut md: Vec<char> = Vec::new();
    let mut breaking: Vec<char> = Vec::new();
    let any = push_breaking_items(&mut breaking, commits, config);
    assert(breaking@ =~= breaking_items(cs, *config));
    if any {
        push_str(&mut md, "## Breaking Changes\n\n");
        push_chars(&mut md, &breaking);
        push_str(&mut md, "\n");
    }
    assert(md@ =~= breaking_section(cs, *config));
    let ghost head = md@;
    let keys = type_keys_of(commits);
    let ghost kv = text::views(keys@);
    let mut k: usize = 0;
    assert(kv.take(0) =~= Seq::<Seq<char>>::empty());
    assert(head + type_sections(Seq::<Seq<char>>::empty(), cs, *config) =~= head);
    while k < keys.len()
        invariant
            k <= keys.len(),
            cs == linted_views(commits@),
            hashes_shorten(cs),
            kv == text::views(keys@),
            md@ == head + type_sections(kv.take(k as int), cs, *config),
        decreases keys.len() - k,
    {
        assert(kv.take(k + 1).drop_last() =~= kv.take(k as int));
        assert(kv[k as int] == keys@[k as int]@);
        push_type_section(&mut md, commits, &keys[k], config);
        assert(md@ =~= head + type_sections(kv.take(k + 1), cs, *config));
        k = k + 1;
    }
    assert(kv.take(keys.len() as int) =~= kv);
    push_thanks_section(&mut md, commits, config);
    assert(md@ =~= markdown_text(cs, *config));
    let mut out = trim_end_chars(&md);
    out.push('\n');
    assert(out@ =~= markdown(cs, *config));
    string_of(&out)
}


// ---------------------------------------------------------------------------
// Laws
// ---------------------------------------------------------------------------

/// Strictly increasing: every key once, in sorted order.
pub open spec fn strictly_sorted(keys: Seq<Seq<char>>) -> bool {
    forall|i: int, j: int| 0 <= i < j < keys.len() ==> text::str_lt(#[trigger] keys[i], #[trigger] keys[j])
}

/// Inserting into a sorted list keeps it sorted and adds exactly `x`.
pub proof fn law_sorted_insert(keys: Seq<Seq<char>>, x: Seq<char>)
    requires
        strictly_sorted(keys),
    ensures
        strictly_sorted(sorted_insert(keys, x)),
        forall|y: Seq<char>| #[trigger] sorted_insert(keys, x).contains(y) <==> (keys.contains(y) || y == x),
    decreases keys.len(),
{
    let r = sorted_insert(keys, x);
    if keys.len() == 0 {
        assert(r =~= seq![x]);
        assert forall|y: Seq<char>| #[trigger] r.contains(y) <==> (keys.contains(y) || y == x) by {
            if r.contains(y) {
                let i = choose|i: int| 0 <= i < r.len() && r[i] == y;
            }
            if y == x {
                assert(r[0] == x);
            }
        }
    } else if keys[0] == x {
        assert forall|y: Seq<char>| #[trigger] r.contains(y) <==> (keys.contains(y) || y == x) by {
            if y == x {
                assert(keys[0] == x);
            }
        }
    } else if text::str_lt(x, keys[0]) {
        assert forall|i: int, j: int| 0 <= i < j < r.len() implies text::str_lt(#[trigger] r[i], #[trigger] r[j]) by {
            if i == 0 {
                if j > 1 {
                    text::lemma_str_lt_transitive(x, keys[0], keys[j - 1]);
                }
            } else {
                assert(r[i] == keys[i - 1] && r[j] == keys[j - 1]);
            }
        }
        assert forall|y: Seq<char>| #[trigger] r.contains(y) <==> (keys.contains(y) || y == x) by {
            if r.contains(y) {
                let i = choose|i: int| 0 <= i < r.len() && r[i] == y;
                if i > 0 {
                    assert(keys[i - 1] == y);
                }
            }
            if keys.contains(y) {
                let i = choose|i: int| 0 <= i < keys.len() && keys[i] == y;
                assert(r[i + 1] == y);
            }
            if y == x {
                assert(r[0] == x);
            }
        }
    } else {
        let rest = keys.drop_first();
        assert forall|i: int, j: int| 0 <= i < j < rest.len() implies text::str_lt(#[trigger] rest[i], #[trigger] rest[j]) by {
            assert(rest[i] == keys[i + 1] && rest[j] == keys[j + 1]);
        }
        law_sorted_insert(rest, x);
        let t = sorted_insert(rest, x);
        assert(r == seq![keys[0]] + t);
        text::lemma_str_lt_total(x, keys[0]);
        assert forall|k: int| 0 <= k < t.len() implies text::str_lt(keys[0], #[trigger] t[k]) by {
            assert(t.contains(t[k]));
            if t[k] != x {
                let m = choose|m: int| 0 <= m < rest.len() && rest[m] == t[k];
                assert(keys[m + 1] == t[k]);
            }
        }
        assert forall|i: int, j: int| 0 <= i < j < r.len() implies text::str_lt(#[trigger] r[i], #[trigger] r[j]) by {
            if i == 0 {
                assert(r[j] == t[j - 1]);
            } else {
                assert(r[i] == t[i - 1] && r[j] == t[j - 1]);
            }
        }
        assert forall|y: Seq<char>| #[trigger] r.contains(y) <==> (keys.contains(y) || y == x) by {
            if r.contains(y) {
                let i = choose|i: int| 0 <= i < r.len() && r[i] == y;
                if i > 0 {
                    assert(t[i - 1] == y);
                    assert(t.contains(y));
                    if rest.contains(y) {
                        let m = choose|m: int| 0 <= m < rest.len() && rest[m] == y;
                        assert(keys[m + 1] == y);
                    }
                } else {
                    assert(keys[0] == y);
                }
            }
            if keys.contains(y) {
                let i = choose|i: int| 0 <= i < keys.len() && keys[i] == y;
                if i == 0 {
                    assert(r[0] == y);
                } else {
                    assert(rest[i - 1] == y);
                    assert(rest.contains(y));
                    assert(t.contains(y));
                    let m = choose|m: int| 0 <= m < t.len() && t[m] == y;
                    assert(r[m + 1] == y);
                }
            }
            if y == x {
                assert(t.contains(x));
                let m = choose|m: int| 0 <= m < t.len() && t[m] == x;
                assert(r[m + 1] == x);
            }
        }
    }
}

/// The last position of key `k` in a stream, or -1 when it does not occur.
pub open spec fn last_index_of<K>(st: Seq<Option<K>>, k: K) -> int
    decreases st.len(),
{
    if st.len() == 0 {
        -1
    } else {
        let r = last_index_of(st.drop_first(), k);
        if r >= 0 {
            r + 1
        } else if st[0] == Some(k) {
            0
        } else {
            -1
        }
    }
}

/// `last_index_of` is the last position that holds the key, or -1 when no
/// position does.
pub proof fn law_last_index_of<K>(st: Seq<Option<K>>, k: K)
    ensures
        -1 <= last_index_of(st, k) < st.len(),
        last_index_of(st, k) >= 0 ==> st[last_index_of(st, k)] == Some(k),
        forall|j: int| last_index_of(st, k) < j < st.len() ==> st[j] != Some(k),
    decreases st.len(),
{
    if st.len() > 0 {
        let rest = st.drop_first();
        law_last_index_of(rest, k);
        assert forall|j: int| last_index_of(st, k) < j < st.len() implies st[j] != Some(k) by {
            if j > 0 {
                assert(st[j] == rest[j - 1]);
            }
        }
        if last_index_of(rest, k) >= 0 {
            assert(st[last_index_of(st, k)] == rest[last_index_of(rest, k)]);
        }
    }
}

/// The keys of a stream are the keys that occur in it, each once, ordered
/// so that a key comes before another when its last position is later.
pub proof fn law_first_seen<K>(st: Seq<Option<K>>)
    ensures
        forall|k: K| #[trigger] first_seen(st).contains(k) <==> exists|i: int| 0 <= i < st.len() && st[i] == Some(k),
        forall|a: int, b: int|
            0 <= a < b < first_seen(st).len() ==> last_index_of(st, #[trigger] first_seen(st)[a]) > last_index_of(
                st,
                #[trigger] first_seen(st)[b],
            ),
    decreases st.len(),
{
    if st.len() > 0 {
        let rest = st.drop_first();
        law_first_seen(rest);
        let r0 = first_seen(rest);
        let r = first_seen(st);
        assert forall|k: K| #[trigger] r.contains(k) <==> exists|i: int| 0 <= i < st.len() && st[i] == Some(k) by {
            if exists|i: int| 0 <= i < st.len() && st[i] == Some(k) {
                let i = choose|i: int| 0 <= i < st.len() && st[i] == Some(k);
                if i > 0 {
                    assert(rest[i - 1] == st[i]);
                    assert(r0.contains(k));
                    let m = choose|m: int| 0 <= m < r0.len() && r0[m] == k;
                    assert(r[m] == k);
                } else {
                    if !r0.contains(k) {
                        assert(r[r.len() - 1] == k);
                    }
                    if r0.contains(k) {
                        let m = choose|m: int| 0 <= m < r0.len() && r0[m] == k;
                        assert(r[m] == k);
                    }
                }
            }
            if r.contains(k) {
                let m = choose|m: int| 0 <= m < r.len() && r[m] == k;
                if m < r0.len() {
                    assert(r[m] == r0[m]);
                    assert(r0.contains(k));
                    let i = choose|i: int| 0 <= i < rest.len() && rest[i] == Some(k);
                    assert(st[i + 1] == Some(k));
                } else {
                    assert(st[0] == Some(k));
                }
            }
        }
        assert forall|k: K| #[trigger] r0.contains(k) implies last_index_of(st, k) == last_index_of(rest, k) + 1
            && last_index_of(rest, k) >= 0 by {
            let i = choose|i: int| 0 <= i < rest.len() && rest[i] == Some(k);
            law_last_index_of(rest, k);
            if last_index_of(rest, k) < 0 {
                assert(rest[i] != Some(k));
            }
        }
        assert forall|a: int, b: int| 0 <= a < b < r.len() implies last_index_of(st, #[trigger] r[a])
            > last_index_of(st, #[trigger] r[b]) by {
            assert(r[a] == r0[a]);
            assert(r0.contains(r0[a]));
            if b < r0.len() {
                assert(r[b] == r0[b]);
                assert(r0.contains(r0[b]));
            } else {
                let k = r[b];
                assert(st[0] == Some(k));
                assert(!r0.contains(k));
                law_last_index_of(rest, k);
                if last_index_of(rest, k) >= 0 {
                    assert(r0.contains(k));
                }
            }
        }
    }
}

/// The type sections are those of the types that occur among the commits,
/// each once. Commits are listed newest first; a type's section comes
/// before another's when its oldest commit is older, i.e. sections follow
/// the order in which types first appear in history.
pub proof fn law_type_keys(cs: Seq<LintedView>)
    ensures
        forall|t: Seq<char>| #[trigger] type_keys(cs).contains(t) <==> exists|i: int| 0 <= i < cs.len() && cs[i].ty == t,
        forall|a: int, b: int|
            0 <= a < b < type_keys(cs).len() ==> last_index_of(type_stream(cs), #[trigger] type_keys(cs)[a])
                > last_index_of(type_stream(cs), #[trigger] type_keys(cs)[b]),
{
    let st = type_stream(cs);
    law_first_seen(st);
    assert forall|t: Seq<char>| #[trigger] type_keys(cs).contains(t) <==> exists|i: int| 0 <= i < cs.len() && cs[i].ty == t by {
        if exists|i: int| 0 <= i < cs.len() && cs[i].ty == t {
            let i = choose|i: int| 0 <= i < cs.len() && cs[i].ty == t;
            assert(st[i] == Some(t));
        }
        if exists|i: int| 0 <= i < st.len() && st[i] == Some(t) {
            let i = choose|i: int| 0 <= i < st.len() && st[i] == Some(t);
            assert(cs[i].ty == t);
        }
    }
}

/// The contributors are listed in sorted order, each author of a commit
/// once, and nobody else.
pub proof fn law_author_keys(cs: Seq<LintedView>)
    ensures
        strictly_sorted(author_keys(cs)),
        forall|a: Seq<char>| #[trigger] author_keys(cs).contains(a) <==> exists|i: int| 0 <= i < cs.len() && cs[i].author == a,
    decreases cs.len(),
{
    if cs.len() > 0 {
        let init = cs.drop_last();
        law_author_keys(init);
        law_sorted_insert(author_keys(init), cs.last().author);
        assert forall|a: Seq<char>| #[trigger] author_keys(cs).contains(a) <==> exists|i: int| 0 <= i < cs.len() && cs[i].author == a by {
            if exists|i: int| 0 <= i < cs.len() && cs[i].author == a {
                let i = choose|i: int| 0 <= i < cs.len() && cs[i].author == a;
                if i < cs.len() - 1 {
                    assert(init[i] == cs[i]);
                }
            }
            if exists|i: int| 0 <= i < init.len() && init[i].author == a {
                let i = choose|i: int| 0 <= i < init.len() && init[i].author == a;
                assert(cs[i] == init[i]);
            }
        }
    }
}

/// Within a type, the scope subsections are those of the scopes (`None`,
/// titled "General", for commits without one) used by commits of that type,
/// each once, in the order in which they first appear in history.
pub proof fn law_scope_keys(cs: Seq<LintedView>, ty: Seq<char>)
    ensures
        forall|sc: Option<Seq<char>>| #[trigger] scope_keys(cs, ty).contains(sc) <==> exists|i: int|
            0 <= i < cs.len() && cs[i].ty == ty && cs[i].scope == sc,
        forall|a: int, b: int|
            0 <= a < b < scope_keys(cs, ty).len() ==> last_index_of(scope_stream(cs, ty), #[trigger] scope_keys(cs, ty)[a])
                > last_index_of(scope_stream(cs, ty), #[trigger] scope_keys(cs, ty)[b]),
{
    let st = scope_stream(cs, ty);
    law_first_seen(st);
    assert forall|sc: Option<Seq<char>>| #[trigger] scope_keys(cs, ty).contains(sc) <==> exists|i: int|
        0 <= i < cs.len() && cs[i].ty == ty && cs[i].scope == sc by {
        if exists|i: int| 0 <= i < cs.len() && cs[i].ty == ty && cs[i].scope == sc {
            let i = choose|i: int| 0 <= i < cs.len() && cs[i].ty == ty && cs[i].scope == sc;
            assert(st[i] == Some(sc));
        }
        if exists|i: int| 0 <= i < st.len() && st[i] == Some(sc) {
            let i = choose|i: int| 0 <= i < st.len() && st[i] == Some(sc);
            assert(cs[i].ty == ty && cs[i].scope == sc);
        }
    }
}

proof fn lemma_trim_end_shape(s: Seq<char>)
    ensures
        text::trim_end(s).len() == 0 || !text::is_ws(text::trim_end(s).last()),
        text::trim_end(s).len() <= s.len(),
    decreases s.len(),
{
    if s.len() > 0 && text::is_ws(s.last()) {
        lemma_trim_end_shape(s.drop_last());
    }
}

proof fn lemma_trim_end_keeps_prefix(p: Seq<char>, q: Seq<char>)
    requires
        p.len() > 0,
        !text::is_ws(p.last()),
    ensures
        text::trim_end(p + q) == p + text::trim_end(q),
    decreases q.len(),
{
    if q.len() > 0 && text::is_ws(q.last()) {
        assert((p + q).drop_last() =~= p + q.drop_last());
        lemma_trim_end_keeps_prefix(p, q.drop_last());
    } else if q.len() == 0 {
        assert(p + q =~= p);
        assert(!text::is_ws((p + q).last()));
    } else {
        assert((p + q).last() == q.last());
    }
}

/// The changelog ends with exactly one newline: its last character is a
/// newline and, unless the changelog is just that newline, the character
/// before it is not whitespace.
pub proof fn law_markdown_ends_with_one_newline(cs: Seq<LintedView>, cfg: LogConfig)
    ensures
        markdown(cs, cfg).last() == '\n',
        markdown(cs, cfg).len() == 1 || !text::is_ws(markdown(cs, cfg)[markdown(cs, cfg).len() - 2]),
{
    let t = text::trim_end(markdown_text(cs, cfg));
    lemma_trim_end_shape(markdown_text(cs, cfg));
    let m = markdown(cs, cfg);
    assert(m == t + seq!['\n']);
    if t.len() > 0 {
        assert(m[m.len() - 2] == t.last());
    }
}

/// When some commit is breaking, the changelog opens with the
/// "Breaking Changes" heading.
pub proof fn law_breaking_changes_first(cs: Seq<LintedView>, cfg: LogConfig)
    requires
        any_breaking(cs),
    ensures
        text::starts_with(markdown(cs, cfg), "## Breaking Changes"@),
{
    reveal_strlit("## Breaking Changes");
    reveal_strlit("## Breaking Changes\n\n");
    let p = "## Breaking Changes"@;
    let whole = markdown_text(cs, cfg);
    let q = seq!['\n', '\n'] + breaking_items(cs, cfg) + "\n"@ + type_sections(type_keys(cs), cs, cfg)
        + thanks_section(cs, cfg);
    assert("## Breaking Changes\n\n"@ =~= p + seq!['\n', '\n']);
    assert(whole =~= p + q);
    lemma_trim_end_keeps_prefix(p, q);
    assert(markdown(cs, cfg).take(p.len() as int) =~= p);
}


/// Two commits show the same in the changelog: they agree on everything
/// the changelog prints, and on the author, URL and hash whenever the
/// configuration prints those.
pub open spec fn same_shown(a: LintedView, b: LintedView, cfg: LogConfig) -> bool {
    &&& a.ty == b.ty
    &&& a.scope == b.scope
    &&& a.breaking == b.breaking
    &&& a.brief == b.brief
    &&& a.body == b.body
    &&& a.footers == b.footers
    &&& (cfg.collect_thanks ==> a.author == b.author)
    &&& (cfg.include_commit_url ==> a.url == b.url)
    &&& (cfg.include_commit_hash ==> a.hash == b.hash)
}

/// Two lists of commits show the same, commit by commit.
pub open spec fn all_same_shown(cs1: Seq<LintedView>, cs2: Seq<LintedView>, cfg: LogConfig) -> bool {
    cs1.len() == cs2.len() && forall|i: int| 0 <= i < cs1.len() ==> #[trigger] same_shown(cs1[i], cs2[i], cfg)
}

proof fn lemma_same_shown_drop_last(cs1: Seq<LintedView>, cs2: Seq<LintedView>, cfg: LogConfig)
    requires
        all_same_shown(cs1, cs2, cfg),
        cs1.len() > 0,
    ensures
        all_same_shown(cs1.drop_last(), cs2.drop_last(), cfg),
        same_shown(cs1.last(), cs2.last(), cfg),
{
    assert(same_shown(cs1[cs1.len() - 1], cs2[cs2.len() - 1], cfg));
    assert forall|i: int| 0 <= i < cs1.drop_last().len() implies #[trigger] same_shown(
        cs1.drop_last()[i],
        cs2.drop_last()[i],
        cfg,
    ) by {
        assert(same_shown(cs1[i], cs2[i], cfg));
    }
}

proof fn lemma_items_same(cs1: Seq<LintedView>, cs2: Seq<LintedView>, cfg: LogConfig, ty: Seq<char>, sc: Option<Seq<char>>)
    requires
        all_same_shown(cs1, cs2, cfg),
    ensures
        breaking_items(cs1, cfg) == breaking_items(cs2, cfg),
        flat_items(cs1, ty, cfg) == flat_items(cs2, ty, cfg),
        scope_items(cs1, ty, sc, cfg) == scope_items(cs2, ty, sc, cfg),
    decreases cs1.len(),
{
    if cs1.len() > 0 {
        lemma_same_shown_drop_last(cs1, cs2, cfg);
        lemma_items_same(cs1.drop_last(), cs2.drop_last(), cfg, ty, sc);
        let a = cs1.last();
        let b = cs2.last();
        assert(commit_meta(a, cfg) == commit_meta(b, cfg));
        assert(commit_line(a, cfg) == commit_line(b, cfg));
        assert(commit_details(a) == commit_details(b));
    }
}

proof fn lemma_author_keys_same(cs1: Seq<LintedView>, cs2: Seq<LintedView>, cfg: LogConfig)
    requires
        all_same_shown(cs1, cs2, cfg),
        cfg.collect_thanks,
    ensures
        author_keys(cs1) == author_keys(cs2),
    decreases cs1.len(),
{
    if cs1.len() > 0 {
        lemma_same_shown_drop_last(cs1, cs2, cfg);
        lemma_author_keys_same(cs1.drop_last(), cs2.drop_last(), cfg);
    }
}

proof fn lemma_scope_sections_same(
    keys: Seq<Option<Seq<char>>>,
    ty: Seq<char>,
    cs1: Seq<LintedView>,
    cs2: Seq<LintedView>,
    cfg: LogConfig,
)
    requires
        all_same_shown(cs1, cs2, cfg),
    ensures
        scope_sections(keys, ty, cs1, cfg) == scope_sections(keys, ty, cs2, cfg),
    decreases keys.len(),
{
    if keys.len() > 0 {
        lemma_scope_sections_same(keys.drop_last(), ty, cs1, cs2, cfg);
        lemma_items_same(cs1, cs2, cfg, ty, keys.last());
    }
}

proof fn lemma_type_sections_same(keys: Seq<Seq<char>>, cs1: Seq<LintedView>, cs2: Seq<LintedView>, cfg: LogConfig)
    requires
        all_same_shown(cs1, cs2, cfg),
    ensures
        type_sections(keys, cs1, cfg) == type_sections(keys, cs2, cfg),
    decreases keys.len(),
{
    if keys.len() > 0 {
        lemma_type_sections_same(keys.drop_last(), cs1, cs2, cfg);
        let ty = keys.last();
        lemma_items_same(cs1, cs2, cfg, ty, None);
        assert(scope_stream(cs1, ty) =~= scope_stream(cs2, ty)) by {
            assert forall|i: int| 0 <= i < cs1.len() implies scope_stream(cs1, ty)[i] == scope_stream(cs2, ty)[i] by {
                assert(same_shown(cs1[i], cs2[i], cfg));
            }
        }
        lemma_scope_sections_same(scope_keys(cs1, ty), ty, cs1, cs2, cfg);
        assert(has_scoped(cs1, ty) == has_scoped(cs2, ty)) by {
            if has_scoped(cs1, ty) {
                let i = choose|i: int| 0 <= i < cs1.len() && #[trigger] cs1[i].ty == ty && cs1[i].scope is Some;
                assert(same_shown(cs1[i], cs2[i], cfg));
                assert(cs2[i].ty == ty);
            }
            if has_scoped(cs2, ty) {
                let i = choose|i: int| 0 <= i < cs2.len() && #[trigger] cs2[i].ty == ty && cs2[i].scope is Some;
                assert(same_shown(cs1[i], cs2[i], cfg));
                assert(cs1[i].ty == ty);
            }
        }
    }
}

/// The changelog does not depend on what the configuration does not show:
/// commits that differ only in their authors while contributors are not
/// collected, in their URLs while URLs are not included, and in their
/// hashes while hashes are not included, give the same changelog.
pub proof fn law_markdown_ignores_hidden_fields(cs1: Seq<LintedView>, cs2: Seq<LintedView>, cfg: LogConfig)
    requires
        all_same_shown(cs1, cs2, cfg),
    ensures
        markdown(cs1, cfg) == markdown(cs2, cfg),
{
    lemma_items_same(cs1, cs2, cfg, Seq::empty(), None);
    assert(any_breaking(cs1) == any_breaking(cs2)) by {
        if any_breaking(cs1) {
            let i = choose|i: int| 0 <= i < cs1.len() && #[trigger] cs1[i].breaking;
            assert(same_shown(cs1[i], cs2[i], cfg));
            assert(cs2[i].breaking);
        }
        if any_breaking(cs2) {
            let i = choose|i: int| 0 <= i < cs2.len() && #[trigger] cs2[i].breaking;
            assert(same_shown(cs1[i], cs2[i], cfg));
            assert(cs1[i].breaking);
        }
    }
    assert(type_stream(cs1) =~= type_stream(cs2)) by {
        assert forall|i: int| 0 <= i < cs1.len() implies type_stream(cs1)[i] == type_stream(cs2)[i] by {
            assert(same_shown(cs1[i], cs2[i], cfg));
        }
    }
    lemma_type_sections_same(type_keys(cs1), cs1, cs2, cfg);
    if cfg.collect_thanks {
        lemma_author_keys_same(cs1, cs2, cfg);
    }
    assert(markdown_text(cs1, cfg) == markdown_text(cs2, cfg));
}


/// The Breaking Changes list has one item per breaking commit, in order: it
/// is additive over concatenation and a single commit gives its item when
/// it is breaking and nothing otherwise.
pub proof fn law_breaking_items(a: Seq<LintedView>, b: Seq<LintedView>, x: LintedView, cfg: LogConfig)
    ensures
        breaking_items(a + b, cfg) == breaking_items(a, cfg) + breaking_items(b, cfg),
        breaking_items(seq![x], cfg) == (if x.breaking { commit_item(x, cfg) } else { Seq::<char>::empty() }),
    decreases b.len(),
{
    if b.len() == 0 {
        assert(a + b =~= a);
        assert(breaking_items(a, cfg) + Seq::<char>::empty() =~= breaking_items(a, cfg));
    } else {
        law_breaking_items(a, b.drop_last(), x, cfg);
        assert((a + b).drop_last() =~= a + b.drop_last());
        assert((a + b).last() == b.last());
        assert(breaking_items(a + b, cfg) =~= breaking_items(a, cfg) + breaking_items(b, cfg));
    }
    assert(seq![x].drop_last() =~= Seq::<LintedView>::empty());
    assert(seq![x].last() == x);
    assert(breaking_items(Seq::<LintedView>::empty(), cfg) == Seq::<char>::empty());
    assert(breaking_items(seq![x], cfg) == breaking_items(Seq::<LintedView>::empty(), cfg) + (if x.breaking { commit_item(x, cfg) } else { Seq::<char>::empty() }));
    assert(Seq::<char>::empty() + (if x.breaking { commit_item(x, cfg) } else { Seq::<char>::empty() }) =~= (if x.breaking { commit_item(x, cfg) } else { Seq::<char>::empty() }));
}

/// A type's flat list has one item per commit of that type, in order.
pub proof fn law_flat_items(a: Seq<LintedView>, b: Seq<LintedView>, x: LintedView, ty: Seq<char>, cfg: LogConfig)
    ensures
        flat_items(a + b, ty, cfg) == flat_items(a, ty, cfg) + flat_items(b, ty, cfg),
        flat_items(seq![x], ty, cfg) == (if x.ty == ty { flat_item(x, cfg) } else { Seq::<char>::empty() }),
    decreases b.len(),
{
    if b.len() == 0 {
        assert(a + b =~= a);
        assert(flat_items(a, ty, cfg) + Seq::<char>::empty() =~= flat_items(a, ty, cfg));
    } else {
        law_flat_items(a, b.drop_last(), x, ty, cfg);
        assert((a + b).drop_last() =~= a + b.drop_last());
        assert((a + b).last() == b.last());
        assert(flat_items(a + b, ty, cfg) =~= flat_items(a, ty, cfg) + flat_items(b, ty, cfg));
    }
    assert(seq![x].drop_last() =~= Seq::<LintedView>::empty());
    assert(seq![x].last() == x);
    assert(flat_items(Seq::<LintedView>::empty(), ty, cfg) == Seq::<char>::empty());
    assert(flat_items(seq![x], ty, cfg) == flat_items(Seq::<LintedView>::empty(), ty, cfg) + (if x.ty == ty { flat_item(x, cfg) } else { Seq::<char>::empty() }));
    assert(Seq::<char>::empty() + (if x.ty == ty { flat_item(x, cfg) } else { Seq::<char>::empty() }) =~= (if x.ty == ty { flat_item(x, cfg) } else { Seq::<char>::empty() }));
}

/// A scope subsection has one item per commit of that type and scope, in
/// order.
pub proof fn law_scope_items(a: Seq<LintedView>, b: Seq<LintedView>, x: LintedView, ty: Seq<char>, sc: Option<Seq<char>>, cfg: LogConfig)
    ensures
        scope_items(a + b, ty, sc, cfg) == scope_items(a, ty, sc, cfg) + scope_items(b, ty, sc, cfg),
        scope_items(seq![x], ty, sc, cfg) == (if x.ty == ty && x.scope == sc { commit_item(x, cfg) } else { Seq::<char>::empty() }),
    decreases b.len(),
{
    if b.len() == 0 {
        assert(a + b =~= a);
        assert(scope_items(a, ty, sc, cfg) + Seq::<char>::empty() =~= scope_items(a, ty, sc, cfg));
    } else {
        law_scope_items(a, b.drop_last(), x, ty, sc, cfg);
        assert((a + b).drop_last() =~= a + b.drop_last());
        assert((a + b).last() == b.last());
        assert(scope_items(a + b, ty, sc, cfg) =~= scope_items(a, ty, sc, cfg) + scope_items(b, ty, sc, cfg));
    }
    assert(seq![x].drop_last() =~= Seq::<LintedView>::empty());
    assert(seq![x].last() == x);
    assert(scope_items(Seq::<LintedView>::empty(), ty, sc, cfg) == Seq::<char>::empty());
    assert(scope_items(seq![x], ty, sc, cfg) == scope_items(Seq::<LintedView>::empty(), ty, sc, cfg) + (if x.ty == ty && x.scope == sc { commit_item(x, cfg) } else { Seq::<char>::empty() }));
    assert(Seq::<char>::empty() + (if x.ty == ty && x.scope == sc { commit_item(x, cfg) } else { Seq::<char>::empty() }) =~= (if x.ty == ty && x.scope == sc { commit_item(x, cfg) } else { Seq::<char>::empty() }));
}

/// The changelog has one section per listed type, in the order listed.
pub proof fn law_type_sections(a: Seq<Seq<char>>, b: Seq<Seq<char>>, x: Seq<char>, cs: Seq<LintedView>, cfg: LogConfig)
    ensures
        type_sections(a + b, cs, cfg) == type_sections(a, cs, cfg) + type_sections(b, cs, cfg),
        type_sections(seq![x], cs, cfg) == type_section(x, cs, cfg),
    decreases b.len(),
{
    if b.len() == 0 {
        assert(a + b =~= a);
        assert(type_sections(a, cs, cfg) + Seq::<char>::empty() =~= type_sections(a, cs, cfg));
    } else {
        law_type_sections(a, b.drop_last(), x, cs, cfg);
        assert((a + b).drop_last() =~= a + b.drop_last());
        assert((a + b).last() == b.last());
        assert(type_sections(a + b, cs, cfg) =~= type_sections(a, cs, cfg) + type_sections(b, cs, cfg));
    }
    assert(seq![x].drop_last() =~= Seq::<Seq<char>>::empty());
    assert(seq![x].last() == x);
    assert(type_sections(Seq::<Seq<char>>::empty(), cs, cfg) == Seq::<char>::empty());
    assert(type_sections(seq![x], cs, cfg) == type_sections(Seq::<Seq<char>>::empty(), cs, cfg) + type_section(x, cs, cfg));
    assert(Seq::<char>::empty() + type_section(x, cs, cfg) =~= type_section(x, cs, cfg));
}

/// A type section has one subsection per listed scope, in the order listed.
pub proof fn law_scope_sections(a: Seq<Option<Seq<char>>>, b: Seq<Option<Seq<char>>>, x: Option<Seq<char>>, ty: Seq<char>, cs: Seq<LintedView>, cfg: LogConfig)
    ensures
        scope_sections(a + b, ty, cs, cfg) == scope_sections(a, ty, cs, cfg) + scope_sections(b, ty, cs, cfg),
        scope_sections(seq![x], ty, cs, cfg) == scope_block(scope_title(x), scope_items(cs, ty, x, cfg)),
    decreases b.len(),
{
    if b.len() == 0 {
        assert(a + b =~= a);
        assert(scope_sections(a, ty, cs, cfg) + Seq::<char>::empty() =~= scope_sections(a, ty, cs, cfg));
    } else {
        law_scope_sections(a, b.drop_last(), x, ty, cs, cfg);
        assert((a + b).drop_last() =~= a + b.drop_last());
        assert((a + b).last() == b.last());
        assert(scope_sections(a + b, ty, cs, cfg) =~= scope_sections(a, ty, cs, cfg) + scope_sections(b, ty, cs, cfg));
    }
    assert(seq![x].drop_last() =~= Seq::<Option<Seq<char>>>::empty());
    assert(seq![x].last() == x);
    assert(scope_sections(Seq::<Option<Seq<char>>>::empty(), ty, cs, cfg) == Seq::<char>::empty());
    assert(scope_sections(seq![x], ty, cs, cfg) == scope_sections(Seq::<Option<Seq<char>>>::empty(), ty, cs, cfg) + scope_block(scope_title(x), scope_items(cs, ty, x, cfg)));
    assert(Seq::<char>::empty() + scope_block(scope_title(x), scope_items(cs, ty, x, cfg)) =~= scope_block(scope_title(x), scope_items(cs, ty, x, cfg)));
}

/// The contributors list has one line per listed author, in order.
pub proof fn law_author_lines(a: Seq<Seq<char>>, b: Seq<Seq<char>>, x: Seq<char>)
    ensures
        author_lines(a + b) == author_lines(a) + author_lines(b),
        author_lines(seq![x]) == ("- "@ + x + "\n"@),
    decreases b.len(),
{
    if b.len() == 0 {
        assert(a + b =~= a);
        assert(author_lines(a) + Seq::<char>::empty() =~= author_lines(a));
    } else {
        law_author_lines(a, b.drop_last(), x);
        assert((a + b).drop_last() =~= a + b.drop_last());
        assert((a + b).last() == b.last());
        assert(author_lines(a + b) =~= author_lines(a) + author_lines(b));
    }
    assert(seq![x].drop_last() =~= Seq::<Seq<char>>::empty());
    assert(seq![x].last() == x);
    assert(author_lines(Seq::<Seq<char>>::empty()) == Seq::<char>::empty());
    assert(author_lines(seq![x]) == author_lines(Seq::<Seq<char>>::empty()) + ("- "@ + x + "\n"@));
    assert(Seq::<char>::empty() + ("- "@ + x + "\n"@) =~= ("- "@ + x + "\n"@));
}

/// Indenting replaces each newline by a newline and two spaces and keeps
/// every other character.
pub proof fn law_indent_lines(a: Seq<char>, b: Seq<char>, x: char)
    ensures
        indent_lines(a + b) == indent_lines(a) + indent_lines(b),
        indent_lines(seq![x]) == (if x == '\n' { seq!['\n', ' ', ' '] } else { seq![x] }),
    decreases b.len(),
{
    if b.len() == 0 {
        assert(a + b =~= a);
        assert(indent_lines(a) + Seq::<char>::empty() =~= indent_lines(a));
    } else {
        law_indent_lines(a, b.drop_last(), x);
        assert((a + b).drop_last() =~= a + b.drop_last());
        assert((a + b).last() == b.last());
        assert(indent_lines(a + b) =~= indent_lines(a) + indent_lines(b));
    }
    assert(seq![x].drop_last() =~= Seq::<char>::empty());
    assert(seq![x].last() == x);
    assert(indent_lines(Seq::<char>::empty()) == Seq::<char>::empty());
    assert(indent_lines(seq![x]) == indent_lines(Seq::<char>::empty()) + (if x == '\n' { seq!['\n', ' ', ' '] } else { seq![x] }));
    assert(Seq::<char>::empty() + (if x == '\n' { seq!['\n', ' ', ' '] } else { seq![x] }) =~= (if x == '\n' { seq!['\n', ' ', ' '] } else { seq![x] }));
}

/// The details show one paragraph per footer that is not a breaking-change
/// footer, in order.
pub proof fn law_footer_details(a: Seq<(Seq<char>, Seq<char>)>, b: Seq<(Seq<char>, Seq<char>)>, x: (Seq<char>, Seq<char>))
    ensures
        footer_details(a + b) == footer_details(a) + footer_details(b),
        footer_details(seq![x]) == (if is_breaking_token(x.0) { Seq::<char>::empty() } else { "\n\n  *"@ + x.0 + "*: "@ + x.1 }),
    decreases b.len(),
{
    if b.len() == 0 {
        assert(a + b =~= a);
        assert(footer_details(a) + Seq::<char>::empty() =~= footer_details(a));
    } else {
        law_footer_details(a, b.drop_last(), x);
        assert((a + b).drop_last() =~= a + b.drop_last());
        assert((a + b).last() == b.last());
        assert(footer_details(a + b) =~= footer_details(a) + footer_details(b));
    }
    assert(seq![x].drop_last() =~= Seq::<(Seq<char>, Seq<char>)>::empty());
    assert(seq![x].last() == x);
    assert(footer_details(Seq::<(Seq<char>, Seq<char>)>::empty()) == Seq::<char>::empty());
    assert(footer_details(seq![x]) == footer_details(Seq::<(Seq<char>, Seq<char>)>::empty()) + (if is_breaking_token(x.0) { Seq::<char>::empty() } else { "\n\n  *"@ + x.0 + "*: "@ + x.1 }));
    assert(Seq::<char>::empty() + (if is_breaking_token(x.0) { Seq::<char>::empty() } else { "\n\n  *"@ + x.0 + "*: "@ + x.1 }) =~= (if is_breaking_token(x.0) { Seq::<char>::empty() } else { "\n\n  *"@ + x.0 + "*: "@ + x.1 }));
}


/// Number of bytes of `s` in UTF-8.
pub open spec fn utf8_len(s: Seq<char>) -> int
    decreases s.len(),
{
    if s.len() == 0 {
        0
    } else {
        utf8_width(s[0]) + utf8_len(s.drop_first())
    }
}

/// Shortening keeps a prefix: the prefix found for `n` bytes is a prefix of
/// the text that has exactly `n` bytes, or the whole text when it has fewer;
/// on ASCII text it is the first `n` characters.
pub proof fn law_byte_prefix(h: Seq<char>, n: int)
    requires
        n >= 0,
    ensures
        byte_prefix(h, n) matches Some(p) ==> p.len() <= h.len() && h.take(p.len() as int) == p && (utf8_len(p)
            == n || (p == h && utf8_len(h) < n)),
        (forall|i: int| 0 <= i < h.len() ==> (#[trigger] h[i] as int) < 0x80) ==> byte_prefix(h, n) == Some(
            h.take(if n < h.len() { n } else { h.len() as int }),
        ),
    decreases h.len(),
{
    if n > 0 && h.len() > 0 {
        let t = h.drop_first();
        if utf8_width(h[0]) <= n {
            law_byte_prefix(t, n - utf8_width(h[0]));
            if let Some(r) = byte_prefix(t, n - utf8_width(h[0])) {
                let p = seq![h[0]] + r;
                assert(p.drop_first() =~= r);
                assert(h.take(p.len() as int) =~= seq![h[0]] + t.take(r.len() as int));
                if r == t {
                    assert(p =~= h);
                }
            }
        }
        if forall|i: int| 0 <= i < h.len() ==> (#[trigger] h[i] as int) < 0x80 {
            assert(utf8_width(h[0]) == 1);
            assert forall|i: int| 0 <= i < t.len() implies (#[trigger] t[i] as int) < 0x80 by {
                assert(t[i] == h[i + 1]);
            }
            let m = if n - 1 < t.len() { n - 1 } else { t.len() as int };
            assert(seq![h[0]] + t.take(m) =~= h.take(if n < h.len() { n } else { h.len() as int }));
        }
    } else {
        assert(h.take(0) =~= Seq::<char>::empty());
        if n > 0 {
            assert(h.take(h.len() as int) =~= h);
            assert(h =~= Seq::<char>::empty());
        }
    }
}

/// The list item header of a commit is its description, followed only by
/// what the configuration shows: nothing, the short hash in backquotes, or
/// a link to the commit labelled with the short hash or with "link".
pub proof fn law_commit_line(c: LintedView, cfg: LogConfig)
    ensures
        text::starts_with(commit_line(c, cfg), c.brief),
        !cfg.include_commit_hash && !(cfg.include_commit_url && c.url is Some) ==> commit_line(c, cfg) == c.brief,
        cfg.include_commit_hash && !(cfg.include_commit_url && c.url is Some) ==> commit_line(c, cfg) == c.brief
            + " ("@ + "`"@ + short_hash(c.hash) + "`"@ + ")"@,
        cfg.include_commit_url && cfg.include_commit_hash && c.url is Some ==> commit_line(c, cfg) == c.brief
            + " ("@ + "["@ + short_hash(c.hash) + "]("@ + c.url->0 + ")"@ + ")"@,
        cfg.include_commit_url && !cfg.include_commit_hash && c.url is Some ==> commit_line(c, cfg) == c.brief
            + " ("@ + "[link]("@ + c.url->0 + ")"@ + ")"@,
{
    let h = short_hash(c.hash);
    match commit_meta(c, cfg) {
        Some(m) => {
            assert(commit_line(c, cfg).take(c.brief.len() as int) =~= c.brief);
            if cfg.include_commit_url && c.url is Some {
                let u = c.url->0;
                if cfg.include_commit_hash {
                    assert(c.brief + " ("@ + ("["@ + h + "]("@ + u + ")"@) + ")"@ =~= c.brief + " ("@ + "["@ + h + "]("@
                        + u + ")"@ + ")"@);
                } else {
                    assert(c.brief + " ("@ + ("[link]("@ + u + ")"@) + ")"@ =~= c.brief + " ("@ + "[link]("@ + u
                        + ")"@ + ")"@);
                }
            } else {
                assert(c.brief + " ("@ + ("`"@ + h + "`"@) + ")"@ =~= c.brief + " ("@ + "`"@ + h + "`"@ + ")"@);
            }
        },
        None => {
            assert(c.brief.take(c.brief.len() as int) =~= c.brief);
        },
    }
}

} // verus!
