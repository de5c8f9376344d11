//! Linting of commit messages against the Conventional Commits grammar:
//! parsing, ignore patterns and the mapping of types to their labels.

use crate::cfg;
use crate::cfg::{CommitPattern, Config, Find, Pat};
use crate::git::Commit;
use crate::text;
use crate::text::{
    chars_of, has_prefix, position_of, push_str, slice_chars, split_on, string_of, trim_chars,
    trim_start_chars,
};
use vstd::prelude::*;

verus! {

/// A commit that has been parsed and linted.
#[derive(Debug, Clone, PartialEq)]
pub struct LintedCommit {
    /// Full commit hash.
    pub hash: String,
    /// Author's display name, e.g. `"Jane Doe <jane@example.com>"`.
    pub author: String,
    /// URL of this commit on the hosting service, if available.
    pub url: Option<String>,
    /// The configured label of the commit's type (e.g. "Feature" for "feat").
    pub ty: String,
    /// Scope of the commit, if any.
    pub scope: Option<String>,
    /// Whether the commit introduces a breaking change.
    pub breaking: bool,
    /// Brief description.
    pub brief: String,
    /// Body of the message, if any.
    pub body: Option<String>,
    /// Footers of the message, as `(token, value)` pairs.
    pub footers: Vec<(String, String)>,
}

/// The value of a [`LintedCommit`].
pub struct LintedView {
    pub hash: Seq<char>,
    pub author: Seq<char>,
    pub url: Option<Seq<char>>,
    pub ty: Seq<char>,
    pub scope: Option<Seq<char>>,
    pub breaking: bool,
    pub brief: Seq<char>,
    pub body: Option<Seq<char>>,
    pub footers: Seq<(Seq<char>, Seq<char>)>,
}

/// The characters of an optional string.
pub open spec fn opt_view(o: Option<String>) -> Option<Seq<char>> {
    match o {
        Some(s) => Some(s@),
        None => None,
    }
}

/// The characters of a list of string pairs.
pub open spec fn pairs_view(v: Seq<(String, String)>) -> Seq<(Seq<char>, Seq<char>)> {
    v.map_values(|p: (String, String)| (p.0@, p.1@))
}

impl View for LintedCommit {
    type V = LintedView;

    open spec fn view(&self) -> LintedView {
        LintedView {
            hash: self.hash@,
            author: self.author@,
            url: opt_view(self.url),
            ty: self.ty@,
            scope: opt_view(self.scope),
            breaking: self.breaking,
            brief: self.brief@,
            body: opt_view(self.body),
            footers: pairs_view(self.footers@),
        }
    }
}

/// The values of a list of linted commits.
pub open spec fn linted_views(v: Seq<LintedCommit>) -> Seq<LintedView> {
    v.map_values(|c: LintedCommit| c@)
}

/// Errors of the linting process.
#[derive(Debug, PartialEq)]
pub enum LintError {
    /// The commit message does not follow the Conventional Commits format.
    InvalidFormat {
        /// The hash of the offending commit.
        hash: String,
        /// What is wrong with the message.
        message: String,
    },
    /// The commit uses a type that the configuration does not define.
    UnknownType {
        /// The hash of the offending commit.
        hash: String,
        /// The unrecognised type.
        ty: String,
    },
}

/// The value of a [`LintError`].
pub enum LintErrorView {
    InvalidFormat { hash: Seq<char>, message: Seq<char> },
    UnknownType { hash: Seq<char>, ty: Seq<char> },
}

impl View for LintError {
    type V = LintErrorView;

    open spec fn view(&self) -> LintErrorView {
        match self {
            LintError::InvalidFormat { hash, message } => LintErrorView::InvalidFormat {
                hash: hash@,
                message: message@,
            },
            LintError::UnknownType { hash, ty } => LintErrorView::UnknownType { hash: hash@, ty: ty@ },
        }
    }
}

/// The text of a lint error for users.
pub open spec fn describe_error(e: LintErrorView) -> Seq<char> {
    match e {
        LintErrorView::InvalidFormat { hash, message } => "Commit "@ + hash
            + " does not follow Conventional Commits format: "@ + message,
        LintErrorView::UnknownType { hash, ty } => "Commit "@ + hash + " has unknown type '"@ + ty
            + "' (not defined in config)"@,
    }
}

impl LintError {
    /// Formats the error for users.
    pub fn describe(&self) -> (s: String)
        ensures
            s@ == describe_error(self@),
    {
        let mut out: Vec<char> = Vec::new();
        match self {
            LintError::InvalidFormat { hash, message } => {
                push_str(&mut out, "Commit ");
                push_str(&mut out, hash.as_str());
                push_str(&mut out, " does not follow Conventional Commits format: ");
                push_str(&mut out, message.as_str());
            },
            LintError::UnknownType { hash, ty } => {
                push_str(&mut out, "Commit ");
                push_str(&mut out, hash.as_str());
                push_str(&mut out, " has unknown type '");
                push_str(&mut out, ty.as_str());
                push_str(&mut out, "' (not defined in config)");
            },
        }
        string_of(&out)
    }
}

// ---------------------------------------------------------------------------
// Message grammar
// ---------------------------------------------------------------------------

/// Characters allowed in a commit type and in a footer token.
pub open spec fn is_type_char(c: char) -> bool {
    ('a' <= c && c <= 'z') || ('A' <= c && c <= 'Z') || ('0' <= c && c <= '9') || c == '_' || c == '-'
}

/// Whether `c` may appear in a commit type.
pub fn type_char(c: char) -> (b: bool)
    ensures
        b == is_type_char(c),
{
    ('a' <= c && c <= 'z') || ('A' <= c && c <= 'Z') || ('0' <= c && c <= '9') || c == '_' || c == '-'
}

/// The end of the run of type characters that starts at `i`.
pub open spec fn type_run_end(s: Seq<char>, i: int) -> int
    decreases s.len() - i,
{
    if 0 <= i < s.len() && is_type_char(s[i]) {
        type_run_end(s, i + 1)
    } else {
        i
    }
}

fn type_run(s: &[char], from: usize) -> (r: usize)
    requires
        from <= s.len(),
    ensures
        r == type_run_end(s@, from as int),
        from <= r <= s.len(),
{
    let mut i = from;
    while i < s.len() && type_char(s[i])
        invariant
            from <= i <= s.len(),
            type_run_end(s@, from as int) == type_run_end(s@, i as int),
        decreases s.len() - i,
    {
        i = i + 1;
    }
    i
}

/// The parts of a commit header line.
pub struct Header {
    /// The commit type as written.
    pub ty: Vec<char>,
    /// The scope between parentheses, if any.
    pub scope: Option<Vec<char>>,
    /// Whether `!` marks a breaking change.
    pub breaking: bool,
    /// The description after the colon, trimmed.
    pub brief: Vec<char>,
}

/// The value of a [`Header`].
pub struct HeaderView {
    pub ty: Seq<char>,
    pub scope: Option<Seq<char>>,
    pub breaking: bool,
    pub brief: Seq<char>,
}

impl View for Header {
    type V = HeaderView;

    open spec fn view(&self) -> HeaderView {
        HeaderView {
            ty: self.ty@,
            scope: match self.scope { Some(s) => Some(s@), None => None },
            breaking: self.breaking,
            brief: self.brief@,
        }
    }
}

/// The header grammar `<type>[(<scope>)][!]: <description>` on one line:
/// a non-empty type of letters, digits, `_` and `-`; optionally a non-empty
/// scope without `)` in parentheses; optionally `!`; a colon; and at least
/// one more character. The description is what follows the colon, trimmed.
pub open spec fn parse_header_spec(line: Seq<char>) -> Option<HeaderView> {
    let t = type_run_end(line, 0);
    let has_scope = t < line.len() && line[t] == '(';
    let c = text::find_char(line, ')', t + 1);
    let k = if has_scope { c + 1 } else { t };
    let bang = k < line.len() && line[k] == '!';
    let colon = if bang { k + 1 } else { k };
    if t == 0 || (has_scope && (c >= line.len() || c == t + 1)) {
        None
    } else if colon < line.len() && line[colon] == ':' && colon + 1 < line.len() {
        Some(HeaderView {
            ty: line.take(t),
            scope: if has_scope { Some(line.subrange(t + 1, c)) } else { None },
            breaking: bang,
            brief: text::trim(line.skip(colon + 1)),
        })
    } else {
        None
    }
}

/// Parses the header (first line) of a commit message.
pub fn parse_header(line: &[char]) -> (r: Option<Header>)
    ensures
        r matches Some(h) ==> parse_header_spec(line@) == Some(h@),
        r is None ==> parse_header_spec(line@) is None,
{
    let t = type_run(line, 0);
    if t == 0 {
        return None;
    }
    let has_scope = t < line.len() && line[t] == '(';
    let mut k = t;
    let mut scope: Option<Vec<char>> = None;
    if has_scope {
        let c = position_of(line, ')', t + 1);
        if c >= line.len() || c == t + 1 {
            return None;
        }
        scope = Some(slice_chars(line, t + 1, c));
        k = c + 1;
    }
    let bang = k < line.len() && line[k] == '!';
    let colon = if bang { k + 1 } else { k };
    if colon < line.len() && line[colon] == ':' && colon + 1 < line.len() {
        let ty = slice_chars(line, 0, t);
        assert(ty@ =~= line@.take(t as int));
        let rest = slice_chars(line, colon + 1, line.len());
        assert(rest@ =~= line@.skip(colon + 1));
        let brief = trim_chars(&rest);
        Some(Header { ty, scope, breaking: bang, brief })
    } else {
        None
    }
}

/// The literal footer token of a breaking change.
pub open spec fn breaking_change_token() -> Seq<char> {
    "BREAKING CHANGE"@
}

/// The value of a footer from the text after its separator (which is not
/// empty): the text without leading whitespace, or its last character when
/// it is all whitespace.
pub open spec fn footer_value(rest: Seq<char>) -> Seq<char> {
    if text::trim_start(rest).len() > 0 {
        text::trim_start(rest)
    } else {
        seq![rest.last()]
    }
}

/// The footer grammar `<token>[:#]<value>` on one line: the token is a
/// non-empty run of letters, digits, `_` and `-`, or `BREAKING CHANGE`;
/// the separator is `:` or `#`; at least one character follows it.
pub open spec fn parse_footer_spec(line: Seq<char>) -> Option<(Seq<char>, Seq<char>)> {
    let t = type_run_end(line, 0);
    let b = breaking_change_token();
    if t > 0 && t + 1 < line.len() && (line[t] == ':' || line[t] == '#') {
        Some((line.take(t), footer_value(line.skip(t + 1))))
    } else if text::starts_with(line, b) && b.len() + 1 < line.len() && (line[b.len() as int] == ':'
        || line[b.len() as int] == '#') {
        Some((b, footer_value(line.skip(b.len() + 1 as int))))
    } else {
        None
    }
}

fn value_of(rest: &[char]) -> (v: Vec<char>)
    requires
        rest.len() > 0,
    ensures
        v@ == footer_value(rest@),
{
    let t = trim_start_chars(rest);
    if t.len() > 0 {
        t
    } else {
        let mut v: Vec<char> = Vec::new();
        v.push(rest[rest.len() - 1]);
        assert(v@ =~= seq![rest@.last()]);
        v
    }
}

/// Parses a footer line into its token and value.
pub fn parse_footer(line: &[char]) -> (r: Option<(Vec<char>, Vec<char>)>)
    ensures
        r matches Some(p) ==> parse_footer_spec(line@) == Some((p.0@, p.1@)),
        r is None ==> parse_footer_spec(line@) is None,
{
    let t = type_run(line, 0);
    if t > 0 && t < line.len() && t + 1 < line.len() && (line[t] == ':' || line[t] == '#') {
        let tok = slice_chars(line, 0, t);
        assert(tok@ =~= line@.take(t as int));
        let rest = slice_chars(line, t + 1, line.len());
        assert(rest@ =~= line@.skip(t + 1));
        let v = value_of(&rest);
        return Some((tok, v));
    }
    let b = chars_of("BREAKING CHANGE");
    if has_prefix(line, &b) && b.len() < line.len() && b.len() + 1 < line.len() && (line[b.len()] == ':' || line[b.len()]
        == '#') {
        let rest = slice_chars(line, b.len() + 1, line.len());
        assert(rest@ =~= line@.skip(b.len() + 1));
        let v = value_of(&rest);
        Some((b, v))
    } else {
        None
    }
}

/// `s` with every `"\r\n"` replaced by `"\n"`, scanning left to right.
pub open spec fn replace_crlf(s: Seq<char>) -> Seq<char>
    decreases s.len(),
{
    if s.len() == 0 {
        s
    } else if s.len() >= 2 && s[0] == '\r' && s[1] == '\n' {
        seq!['\n'] + replace_crlf(s.skip(2))
    } else {
        seq![s[0]] + replace_crlf(s.skip(1))
    }
}

/// Replaces every `"\r\n"` by `"\n"`.
pub fn normalize_newlines(s: &[char]) -> (r: Vec<char>)
    ensures
        r@ == replace_crlf(s@),
{
    let mut out: Vec<char> = Vec::new();
    let mut i: usize = 0;
    assert(s@.skip(0) =~= s@);
    while i < s.len()
        invariant
            i <= s.len(),
            replace_crlf(s@) == out@ + replace_crlf(s@.skip(i as int)),
        decreases s.len() - i,
    {
        let ghost rest = s@.skip(i as int);
        if i + 1 < s.len() && s[i] == '\r' && s[i + 1] == '\n' {
            assert(rest.skip(2) =~= s@.skip(i + 2));
            assert(out@.push('\n') + replace_crlf(s@.skip(i + 2)) =~= out@ + (seq!['\n'] + replace_crlf(rest.skip(2))));
            out.push('\n');
            i = i + 2;
        } else {
            assert(rest.skip(1) =~= s@.skip(i + 1));
            assert(out@.push(s@[i as int]) + replace_crlf(s@.skip(i + 1)) =~= out@ + (seq![rest[0]] + replace_crlf(rest.skip(1))));
            out.push(s[i]);
            i = i + 1;
        }
    }
    assert(s@.skip(s.len() as int) =~= Seq::<char>::empty());
    assert(out@ + Seq::<char>::empty() =~= out@);
    out
}


// ---------------------------------------------------------------------------
// Body and footers
// ---------------------------------------------------------------------------

/// The views of a list of paragraphs.
pub open spec fn para_views(v: Seq<Vec<Vec<char>>>) -> Seq<Seq<Seq<char>>> {
    v.map_values(|p: Vec<Vec<char>>| text::views(p@))
}

/// The views of a list of character-buffer pairs.
pub open spec fn pair_views(v: Seq<(Vec<char>, Vec<char>)>) -> Seq<(Seq<char>, Seq<char>)> {
    v.map_values(|p: (Vec<char>, Vec<char>)| (p.0@, p.1@))
}

/// Reading lines left to right: the paragraphs completed so far and the
/// lines of the paragraph being read. Blank lines end a paragraph.
pub open spec fn para_state(ls: Seq<Seq<char>>) -> (Seq<Seq<Seq<char>>>, Seq<Seq<char>>)
    decreases ls.len(),
{
    if ls.len() == 0 {
        (Seq::empty(), Seq::empty())
    } else {
        let (ps, cur) = para_state(ls.drop_last());
        let l = ls.last();
        if text::is_blank(l) {
            if cur.len() > 0 {
                (ps.push(cur), Seq::empty())
            } else {
                (ps, cur)
            }
        } else {
            (ps, cur.push(l))
        }
    }
}

/// The paragraphs of a list of lines: maximal runs of non-blank lines.
pub open spec fn paragraphs(ls: Seq<Seq<char>>) -> Seq<Seq<Seq<char>>> {
    let (ps, cur) = para_state(ls);
    if cur.len() > 0 {
        ps.push(cur)
    } else {
        ps
    }
}

/// Groups `lines[from..]` into paragraphs.
pub fn split_paragraphs(lines: &Vec<Vec<char>>, from: usize) -> (r: Vec<Vec<Vec<char>>>)
    requires
        from <= lines.len(),
    ensures
        para_views(r@) == paragraphs(text::views(lines@).skip(from as int)),
{
    let ghost ls = text::views(lines@).skip(from as int);
    let mut paras: Vec<Vec<Vec<char>>> = Vec::new();
    let mut cur: Vec<Vec<char>> = Vec::new();
    let mut i = from;
    assert(ls.take(0) =~= Seq::<Seq<char>>::empty());
    assert(para_views(paras@) =~= Seq::<Seq<Seq<char>>>::empty());
    assert(text::views(cur@) =~= Seq::<Seq<char>>::empty());
    while i < lines.len()
        invariant
            from <= i <= lines.len(),
            ls == text::views(lines@).skip(from as int),
            (para_views(paras@), text::views(cur@)) == para_state(ls.take(i - from)),
        decreases lines.len() - i,
    {
        let ghost before_ps = para_views(paras@);
        let ghost before_cur = text::views(cur@);
        assert(ls.take(i + 1 - from).drop_last() =~= ls.take(i - from));
        assert(ls.take(i + 1 - from).last() == lines@[i as int]@);
        if crate::text::blank(&lines[i]) {
            if cur.len() > 0 {
                let done = cur;
                paras.push(done);
                cur = Vec::new();
                assert(para_views(paras@) =~= before_ps.push(before_cur));
                assert(text::views(cur@) =~= Seq::<Seq<char>>::empty());
            }
        } else {
            let line = slice_chars(&lines[i], 0, lines[i].len());
            assert(line@ =~= lines@[i as int]@);
            cur.push(line);
            assert(text::views(cur@) =~= before_cur.push(lines@[i as int]@));
        }
        i = i + 1;
    }
    assert(ls.take(lines.len() - from) =~= ls);
    let ghost last_ps = para_views(paras@);
    let ghost last_cur = text::views(cur@);
    if cur.len() > 0 {
        paras.push(cur);
        assert(para_views(paras@) =~= last_ps.push(last_cur));
    }
    paras
}

/// A paragraph is a footer block when it is not empty and every line in it
/// is a footer.
pub open spec fn is_footer_para(p: Seq<Seq<char>>) -> bool {
    p.len() > 0 && forall|i: int| 0 <= i < p.len() ==> (#[trigger] parse_footer_spec(p[i])) is Some
}

/// The footers of a footer block, line by line.
pub open spec fn para_footers(p: Seq<Seq<char>>) -> Seq<(Seq<char>, Seq<char>)> {
    p.map_values(|l: Seq<char>| parse_footer_spec(l).unwrap())
}

/// Removing footer blocks from the end: the paragraphs that remain (the
/// body) and the footers of the removed blocks, in message order.
pub open spec fn footer_split(ps: Seq<Seq<Seq<char>>>) -> (Seq<Seq<Seq<char>>>, Seq<(Seq<char>, Seq<char>)>)
    decreases ps.len(),
{
    if ps.len() > 0 && is_footer_para(ps.last()) {
        let (b, f) = footer_split(ps.drop_last());
        (b, f + para_footers(ps.last()))
    } else {
        (ps, Seq::empty())
    }
}

/// The footers of a list of footer blocks, in order.
pub open spec fn block_footers(ps: Seq<Seq<Seq<char>>>) -> Seq<(Seq<char>, Seq<char>)>
    decreases ps.len(),
{
    if ps.len() == 0 {
        Seq::empty()
    } else {
        para_footers(ps[0]) + block_footers(ps.drop_first())
    }
}

/// The footers of a paragraph, or `None` when some line is not a footer.
fn footers_of(p: &Vec<Vec<char>>) -> (r: Option<Vec<(Vec<char>, Vec<char>)>>)
    ensures
        r is Some <==> is_footer_para(text::views(p@)),
        r matches Some(f) ==> pair_views(f@) == para_footers(text::views(p@)),
{
    if p.len() == 0 {
        return None;
    }
    let ghost pv = text::views(p@);
    let mut out: Vec<(Vec<char>, Vec<char>)> = Vec::new();
    let mut k: usize = 0;
    while k < p.len()
        invariant
            k <= p.len(),
            pv == text::views(p@),
            forall|j: int| 0 <= j < k ==> (#[trigger] parse_footer_spec(pv[j])) is Some,
            pair_views(out@) == para_footers(pv.take(k as int)),
        decreases p.len() - k,
    {
        match parse_footer(&p[k]) {
            Some(f) => {
                let ghost before = pair_views(out@);
                out.push(f);
                assert(pair_views(out@) =~= before.push((f.0@, f.1@)));
                assert(para_footers(pv.take(k + 1)) =~= para_footers(pv.take(k as int)).push(
                    parse_footer_spec(pv[k as int]).unwrap()));
            },
            None => {
                assert(parse_footer_spec(pv[k as int]) is None);
                return None;
            },
        }
        k = k + 1;
    }
    assert(pv.take(p.len() as int) =~= pv);
    Some(out)
}

/// Removes the footer blocks at the end of the paragraphs; returns the
/// remaining paragraphs and the footers, in message order.
pub fn take_footers(paras: Vec<Vec<Vec<char>>>) -> (r: (Vec<Vec<Vec<char>>>, Vec<(Vec<char>, Vec<char>)>))
    ensures
        (para_views(r.0@), pair_views(r.1@)) == footer_split(para_views(paras@)),
{
    let ghost orig = para_views(paras@);
    let n = paras.len();
    let mut k = n;
    assert(orig.take(n as int) =~= orig);
    assert(orig.skip(n as int) =~= Seq::<Seq<Seq<char>>>::empty());
    assert(footer_split(orig).1 + block_footers(orig.skip(n as int)) =~= footer_split(orig).1);
    while k > 0
        invariant
            k <= n == paras.len(),
            orig == para_views(paras@),
            footer_split(orig) == (footer_split(orig.take(k as int)).0, footer_split(orig.take(k as int)).1
                + block_footers(orig.skip(k as int))),
            forall|m: int| k <= m < n ==> is_footer_para(#[trigger] orig[m]),
        ensures
            k <= n,
            forall|m: int| k <= m < n ==> is_footer_para(#[trigger] orig[m]),
            footer_split(orig) == (footer_split(orig.take(k as int)).0, footer_split(orig.take(k as int)).1
                + block_footers(orig.skip(k as int))),
            k == 0 || !is_footer_para(orig[k - 1]),
        decreases k,
    {
        assert(orig[k - 1] == text::views(paras@[k - 1]@));
        if footers_of(&paras[k - 1]).is_none() {
            break;
        }
        let ghost pre = orig.take(k as int);
        assert(pre.drop_last() =~= orig.take(k - 1));
        assert(pre.last() == orig[k - 1]);
        assert(orig.skip(k - 1).drop_first() =~= orig.skip(k as int));
        assert(orig.skip(k - 1)[0] == orig[k - 1]);
        assert(footer_split(orig.take(k - 1)).1 + block_footers(orig.skip(k - 1)) =~= footer_split(pre).1
            + block_footers(orig.skip(k as int)));
        k = k - 1;
    }
    assert(orig.take(k as int).len() == 0 || orig.take(k as int).last() == orig[k - 1]);
    assert(footer_split(orig.take(k as int)) == (orig.take(k as int), Seq::<(Seq<char>, Seq<char>)>::empty()));
    assert(Seq::<(Seq<char>, Seq<char>)>::empty() + block_footers(orig.skip(k as int)) =~= block_footers(orig.skip(k as int)));
    let mut body: Vec<Vec<Vec<char>>> = Vec::new();
    let mut footers: Vec<(Vec<char>, Vec<char>)> = Vec::new();
    let mut j: usize = 0;
    while j < n
        invariant
            k <= n == paras.len(),
            j <= n,
            orig == para_views(paras@),
            j <= k ==> para_views(body@) =~= orig.take(j as int),
            j > k ==> para_views(body@) =~= orig.take(k as int),
            j <= k ==> pair_views(footers@) =~= Seq::<(Seq<char>, Seq<char>)>::empty(),
            j > k ==> block_footers(orig.skip(k as int)) == pair_views(footers@) + block_footers(orig.skip(j as int)),
            forall|m: int| k <= m < n ==> is_footer_para(#[trigger] orig[m]),
            footer_split(orig) == (orig.take(k as int), block_footers(orig.skip(k as int))),
        decreases n - j,
    {
        assert(orig[j as int] == text::views(paras@[j as int]@));
        if j < k {
            let ghost before = para_views(body@);
            let mut copy: Vec<Vec<char>> = Vec::new();
            let mut m: usize = 0;
            while m < paras[j].len()
                invariant
                    j < paras.len(),
                    m <= paras@[j as int].len(),
                    text::views(copy@) =~= text::views(paras@[j as int]@).take(m as int),
                decreases paras@[j as int].len() - m,
            {
                let line = crate::text::slice_chars(&paras[j][m], 0, paras[j][m].len());
                assert(line@ =~= paras@[j as int]@[m as int]@);
                let ghost c0 = text::views(copy@);
                copy.push(line);
                assert(text::views(copy@) =~= c0.push(line@));
                assert(text::views(paras@[j as int]@).take(m + 1) =~= text::views(paras@[j as int]@).take(m as int).push(line@));
                m = m + 1;
            }
            assert(text::views(copy@) =~= text::views(paras@[j as int]@));
            body.push(copy);
            assert(para_views(body@) =~= before.push(orig[j as int]));
            assert(orig.take(j + 1) =~= orig.take(j as int).push(orig[j as int]));
        } else {
            if j == k {
                assert(orig.skip(j as int) =~= orig.skip(k as int));
                assert(pair_views(footers@) + block_footers(orig.skip(j as int)) =~= block_footers(orig.skip(k as int)));
            }
            assert(is_footer_para(orig[j as int]));
            let f = match footers_of(&paras[j]) {
                Some(f) => f,
                None => {
                    assert(false);
                    Vec::new()
                },
            };
            assert(orig.skip(j as int).drop_first() =~= orig.skip(j + 1));
            assert(orig.skip(j as int)[0] == orig[j as int]);
            let ghost fv = pair_views(f@);
            let ghost before = pair_views(footers@);
            let mut q: usize = 0;
            while q < f.len()
                invariant
                    q <= f.len(),
                    fv == pair_views(f@),
                    pair_views(footers@) == before + fv.take(q as int),
                decreases f.len() - q,
            {
                let pair = (crate::text::slice_chars(&f[q].0, 0, f[q].0.len()), crate::text::slice_chars(&f[q].1, 0, f[q].1.len()));
                assert(pair.0@ =~= f@[q as int].0@);
                assert(pair.1@ =~= f@[q as int].1@);
                let ghost c0 = pair_views(footers@);
                footers.push(pair);
                assert(pair_views(footers@) =~= c0.push(fv[q as int]));
                assert(fv.take(q + 1) =~= fv.take(q as int).push(fv[q as int]));
                q = q + 1;
            }
            assert(fv.take(f.len() as int) =~= fv);
            assert(pair_views(footers@) + block_footers(orig.skip(j + 1)) =~= before + block_footers(orig.skip(j as int)));
        }
        j = j + 1;
    }
    assert(orig.skip(n as int) =~= Seq::<Seq<Seq<char>>>::empty());
    if k == n {
        assert(pair_views(footers@) =~= block_footers(orig.skip(k as int)));
    }
    assert(pair_views(footers@) + Seq::<(Seq<char>, Seq<char>)>::empty() =~= pair_views(footers@));
    (body, footers)
}

/// The body of a message from its paragraphs: lines joined with a newline,
/// paragraphs with a blank line; none when there are no paragraphs.
pub open spec fn body_of(ps: Seq<Seq<Seq<char>>>) -> Option<Seq<char>> {
    if ps.len() == 0 {
        None
    } else {
        Some(text::join(ps.map_values(|p: Seq<Seq<char>>| text::join(p, seq!['\n'])), seq!['\n', '\n']))
    }
}

/// Joins paragraphs into a body.
pub fn join_body(ps: &Vec<Vec<Vec<char>>>) -> (r: Option<Vec<char>>)
    ensures
        (match r { Some(b) => Some(b@), None => None }) == body_of(para_views(ps@)),
{
    if ps.len() == 0 {
        return None;
    }
    let ghost pv = para_views(ps@);
    let mut nl: Vec<char> = Vec::new();
    nl.push('\n');
    assert(nl@ =~= seq!['\n']);
    let mut joined: Vec<Vec<char>> = Vec::new();
    let mut i: usize = 0;
    while i < ps.len()
        invariant
            i <= ps.len(),
            pv == para_views(ps@),
            nl@ == seq!['\n'],
            text::views(joined@) =~= pv.take(i as int).map_values(|p: Seq<Seq<char>>| text::join(p, seq!['\n'])),
        decreases ps.len() - i,
    {
        let j = crate::text::join_chars(&ps[i], &nl);
        let ghost before = text::views(joined@);
        joined.push(j);
        assert(text::views(joined@) =~= before.push(text::join(pv[i as int], seq!['\n'])));
        assert(pv.take(i + 1) =~= pv.take(i as int).push(pv[i as int]));
        i = i + 1;
    }
    assert(pv.take(ps.len() as int) =~= pv);
    let mut sep: Vec<char> = Vec::new();
    sep.push('\n');
    sep.push('\n');
    assert(sep@ =~= seq!['\n', '\n']);
    Some(crate::text::join_chars(&joined, &sep))
}


// ---------------------------------------------------------------------------
// Patterns
// ---------------------------------------------------------------------------

/// What compiling `pattern` with the `regex` crate and searching `text` with
/// it gives: `None` when the pattern does not compile, otherwise whether the
/// regular expression matches somewhere in `text`.
pub uninterp spec fn regex_search(pattern: Seq<char>, text: Seq<char>) -> Option<bool>;

/// Compiles `pattern` with `regex::Regex::new` and, when that succeeds,
/// searches `text` with `Regex::is_match`. The contract only names the
/// outcome: the regular-expression language is the `regex` crate's and is
/// not restated here.
#[verifier::external_body]
fn regex_is_match(pattern: &str, text: &str) -> (r: Option<bool>)
    ensures
        r == regex_search(pattern@, text@),
{
    match regex::Regex::new(pattern) {
        Ok(re) => Some(re.is_match(text)),
        Err(_) => None,
    }
}

/// How a regular-expression search counts as a match: only a pattern that
/// compiled and found a match does; an invalid pattern matches nothing.
pub fn regex_outcome(found: Option<bool>) -> (b: bool)
    ensures
        b == (found == Some(true)),
{
    match found {
        Some(true) => true,
        _ => false,
    }
}

/// Whether a [`Find`] occurs in `text`.
pub open spec fn find_matches(f: Find, t: Seq<char>) -> bool {
    match f {
        Find::Regex(r) => regex_search(r@, t) == Some(true),
        Find::Exact(e) => text::contains(t, e@),
    }
}

/// Whether a [`Pat`] matches `text`.
pub open spec fn pat_matches(p: Pat, t: Seq<char>) -> bool
    decreases p,
{
    match p {
        Pat::Prefix(s) => text::starts_with(t, s@),
        Pat::Suffix(s) => text::ends_with(t, s@),
        Pat::Not(inner) => !pat_matches(*inner, t),
        Pat::Find(f) => find_matches(f, t),
        Pat::Regex(r) => regex_search(r@, t) == Some(true),
        Pat::Exact(e) => t == e@,
    }
}

fn find_holds(find: &Find, text: &str, chars: &[char]) -> (b: bool)
    requires
        chars@ == text@,
    ensures
        b == find_matches(*find, text@),
{
    match find {
        Find::Regex(r) => regex_outcome(regex_is_match(r.as_str(), text)),
        Find::Exact(e) => {
            let ec = chars_of(e.as_str());
            crate::text::has_substring(chars, &ec)
        },
    }
}

fn pat_holds(pat: &Pat, text: &str, chars: &[char]) -> (b: bool)
    requires
        chars@ == text@,
    ensures
        b == pat_matches(*pat, text@),
    decreases pat,
{
    match pat {
        Pat::Prefix(p) => {
            let pc = chars_of(p.as_str());
            has_prefix(chars, &pc)
        },
        Pat::Suffix(p) => {
            let pc = chars_of(p.as_str());
            crate::text::has_suffix(chars, &pc)
        },
        Pat::Not(inner) => !pat_holds(inner, text, chars),
        Pat::Find(f) => find_holds(f, text, chars),
        Pat::Regex(r) => regex_outcome(regex_is_match(r.as_str(), text)),
        Pat::Exact(e) => {
            let ec = chars_of(e.as_str());
            crate::text::chars_eq(chars, &ec)
        },
    }
}

/// Evaluates a pattern against a text.
pub fn matches_pat(pat: &Pat, text: &str) -> (b: bool)
    ensures
        b == pat_matches(*pat, text@),
{
    let chars = chars_of(text);
    pat_holds(pat, text, &chars)
}

/// Evaluates a find operation against a text.
pub fn matches_find(find: &Find, text: &str) -> (b: bool)
    ensures
        b == find_matches(*find, text@),
{
    let chars = chars_of(text);
    find_holds(find, text, &chars)
}

/// A parsed commit message, before ignore patterns and type labels apply.
pub struct ParsedCommit {
    /// The scope, if any.
    pub scope: Option<String>,
    /// The brief description.
    pub brief: String,
    /// The body, if any.
    pub body: Option<String>,
    /// The footers, as `(token, value)` pairs.
    pub footers: Vec<(String, String)>,
}

/// A footer as a line of text: `token: value`.
pub open spec fn footer_line(f: (Seq<char>, Seq<char>)) -> Seq<char> {
    f.0 + ": "@ + f.1
}

/// Whether a commit pattern matches the parts of a commit: each sub-pattern
/// that is present must match; the scope and body patterns need the commit
/// to have a scope and a body; the footer pattern needs at least one footer
/// line to match.
pub open spec fn pattern_matches(
    pattern: CommitPattern,
    scope: Option<Seq<char>>,
    brief: Seq<char>,
    body: Option<Seq<char>>,
    footers: Seq<(Seq<char>, Seq<char>)>,
) -> bool {
    &&& (pattern.brief matches Some(p) ==> pat_matches(p, brief))
    &&& (pattern.scope matches Some(p) ==> (scope matches Some(s) && pat_matches(p, s)))
    &&& (pattern.body matches Some(p) ==> (body matches Some(b) && pat_matches(p, b)))
    &&& (pattern.footer matches Some(p) ==> exists|i: int|
        0 <= i < footers.len() && #[trigger] pat_matches(p, footer_line(footers[i])))
}

fn opt_pat_holds(p: &Option<Pat>, t: &Option<String>) -> (b: bool)
    ensures
        b == (*p matches Some(q) ==> (opt_view(*t) matches Some(s) && pat_matches(q, s))),
{
    match p {
        None => true,
        Some(q) => match t {
            Some(s) => matches_pat(q, s.as_str()),
            None => false,
        },
    }
}

/// Checks whether a parsed commit matches a commit pattern; every
/// sub-pattern that is present must match.
pub fn matches_commit_pattern(commit: &ParsedCommit, pattern: &CommitPattern) -> (b: bool)
    ensures
        b == pattern_matches(
            *pattern,
            opt_view(commit.scope),
            commit.brief@,
            opt_view(commit.body),
            pairs_view(commit.footers@),
        ),
{
    let mut matched = true;
    if let Some(p) = &pattern.brief {
        if !matches_pat(p, commit.brief.as_str()) {
            matched = false;
        }
    }
    if !opt_pat_holds(&pattern.scope, &commit.scope) {
        matched = false;
    }
    if !opt_pat_holds(&pattern.body, &commit.body) {
        matched = false;
    }
    if let Some(p) = &pattern.footer {
        let ghost fs = pairs_view(commit.footers@);
        let mut any_match = false;
        let mut i: usize = 0;
        while i < commit.footers.len()
            invariant
                i <= commit.footers.len(),
                fs == pairs_view(commit.footers@),
                any_match == exists|j: int| 0 <= j < i && #[trigger] pat_matches(*p, footer_line(fs[j])),
            decreases commit.footers.len() - i,
        {
            let mut line: Vec<char> = Vec::new();
            push_str(&mut line, commit.footers[i].0.as_str());
            push_str(&mut line, ": ");
            push_str(&mut line, commit.footers[i].1.as_str());
            let ls = string_of(&line);
            assert(ls@ == footer_line(fs[i as int]));
            if matches_pat(p, ls.as_str()) {
                any_match = true;
            }
            i = i + 1;
        }
        if !any_match {
            matched = false;
        }
    }
    matched
}

/// Whether any of the configured ignore patterns matches the commit parts.
pub open spec fn ignored_by(
    ignore: Option<Vec<CommitPattern>>,
    scope: Option<Seq<char>>,
    brief: Seq<char>,
    body: Option<Seq<char>>,
    footers: Seq<(Seq<char>, Seq<char>)>,
) -> bool {
    match ignore {
        None => false,
        Some(list) => ignored_in(list@, scope, brief, body, footers),
    }
}

/// Whether some pattern of the list matches the commit parts.
pub open spec fn ignored_in(
    list: Seq<CommitPattern>,
    scope: Option<Seq<char>>,
    brief: Seq<char>,
    body: Option<Seq<char>>,
    footers: Seq<(Seq<char>, Seq<char>)>,
) -> bool {
    exists|i: int| 0 <= i < list.len() && #[trigger] pattern_matches(list[i], scope, brief, body, footers)
}


// ---------------------------------------------------------------------------
// Linting
// ---------------------------------------------------------------------------

/// The message of the error for a header line that does not follow the
/// grammar.
pub open spec fn invalid_header_message(line: Seq<char>) -> Seq<char> {
    "Header '"@ + line + "' does not match '<type>[(<scope>)][!]: <description>'"@
}

/// Whether some footer marks a breaking change (`BREAKING CHANGE` or
/// `BREAKING-CHANGE`).
pub open spec fn has_breaking_footer(footers: Seq<(Seq<char>, Seq<char>)>) -> bool {
    exists|i: int| 0 <= i < footers.len() && #[trigger] is_breaking_token(footers[i].0)
}

/// The footer tokens that mark a breaking change.
pub open spec fn is_breaking_token(t: Seq<char>) -> bool {
    t == "BREAKING CHANGE"@ || t == "BREAKING-CHANGE"@
}

/// The lines of a commit message, with `\r\n` read as a line break.
pub open spec fn message_lines(message: Seq<char>) -> Seq<Seq<char>> {
    text::split(replace_crlf(message), '\n')
}

/// The outcome of linting one commit: an error, `None` when an ignore
/// pattern selects it, or the linted commit.
///
/// The header is the first line; the other lines form paragraphs; footer
/// blocks are taken from the end, and their footers are listed in the order
/// of the message; the remaining paragraphs form the body.
pub open spec fn lint_commit(c: Commit, config: Config) -> Result<Option<LintedView>, LintErrorView> {
    let lines = message_lines(c.message@);
    let first = lines[0];
    match parse_header_spec(first) {
        None => Err(LintErrorView::InvalidFormat { hash: c.hash@, message: invalid_header_message(first) }),
        Some(h) => match config.commits.label(h.ty) {
            None => Err(LintErrorView::UnknownType { hash: c.hash@, ty: h.ty }),
            Some(label) => {
                let split = footer_split(paragraphs(lines.skip(1)));
                let footers = split.1;
                let body = body_of(split.0);
                if ignored_by(config.commits.ignore, h.scope, h.brief, body, footers) {
                    Ok(None)
                } else {
                    Ok(
                        Some(
                            LintedView {
                                hash: c.hash@,
                                author: c.author@,
                                url: opt_view(c.url),
                                ty: label,
                                scope: h.scope,
                                breaking: h.breaking || has_breaking_footer(footers),
                                brief: h.brief,
                                body,
                                footers,
                            },
                        ),
                    )
                }
            },
        },
    }
}

/// The outcome of linting a list of commits: the first error, or the linted
/// commits that no ignore pattern selects, in order.
pub open spec fn lint_all(cs: Seq<Commit>, config: Config) -> Result<Seq<LintedView>, LintErrorView>
    decreases cs.len(),
{
    if cs.len() == 0 {
        Ok(Seq::empty())
    } else {
        match lint_all(cs.drop_last(), config) {
            Err(e) => Err(e),
            Ok(v) => match lint_commit(cs.last(), config) {
                Err(e) => Err(e),
                Ok(None) => Ok(v),
                Ok(Some(x)) => Ok(v.push(x)),
            },
        }
    }
}

fn opt_string(o: &Option<Vec<char>>) -> (r: Option<String>)
    ensures
        opt_view(r) == (match *o { Some(v) => Some(v@), None => None }),
{
    match o {
        Some(v) => Some(string_of(v)),
        None => None,
    }
}

fn copy_opt_string(o: &Option<String>) -> (r: Option<String>)
    ensures
        opt_view(r) == opt_view(*o),
{
    match o {
        Some(s) => Some(s.clone()),
        None => None,
    }
}

fn label_of(types: &Vec<(String, String)>, ty: &[char]) -> (r: Option<String>)
    ensures
        opt_view(r) == cfg::commits::lookup_label(types@, ty@),
{
    let mut i: usize = 0;
    assert(types@.skip(0) =~= types@);
    while i < types.len()
        invariant
            i <= types.len(),
            cfg::commits::lookup_label(types@, ty@) == cfg::commits::lookup_label(types@.skip(i as int), ty@),
        decreases types.len() - i,
    {
        assert(types@.skip(i as int).drop_first() =~= types@.skip(i + 1));
        let key = chars_of(types[i].0.as_str());
        if crate::text::chars_eq(&key, ty) {
            return Some(types[i].1.clone());
        }
        i = i + 1;
    }
    None
}

fn strings_of_pairs(v: &Vec<(Vec<char>, Vec<char>)>) -> (r: Vec<(String, String)>)
    ensures
        pairs_view(r@) == pair_views(v@),
{
    let mut out: Vec<(String, String)> = Vec::new();
    let mut i: usize = 0;
    while i < v.len()
        invariant
            i <= v.len(),
            pairs_view(out@) =~= pair_views(v@).take(i as int),
        decreases v.len() - i,
    {
        let ghost before = pairs_view(out@);
        out.push((string_of(&v[i].0), string_of(&v[i].1)));
        assert(pairs_view(out@) =~= before.push(pair_views(v@)[i as int]));
        i = i + 1;
    }
    out
}

fn ignored_exec(ignore: &Option<Vec<CommitPattern>>, parsed: &ParsedCommit) -> (b: bool)
    ensures
        b == ignored_by(
            *ignore,
            opt_view(parsed.scope),
            parsed.brief@,
            opt_view(parsed.body),
            pairs_view(parsed.footers@),
        ),
{
    match ignore {
        None => false,
        Some(list) => {
            let mut i: usize = 0;
            while i < list.len()
                invariant
                    i <= list.len(),
                    *ignore == Some(*list),
                    forall|j: int|
                        0 <= j < i ==> !#[trigger] pattern_matches(
                            list@[j],
                            opt_view(parsed.scope),
                            parsed.brief@,
                            opt_view(parsed.body),
                            pairs_view(parsed.footers@),
                        ),
                decreases list.len() - i,
            {
                if matches_commit_pattern(parsed, &list[i]) {
                    assert(pattern_matches(
                        list@[i as int],
                        opt_view(parsed.scope),
                        parsed.brief@,
                        opt_view(parsed.body),
                        pairs_view(parsed.footers@),
                    ));
                    assert(ignored_in(list@, opt_view(parsed.scope),
                        parsed.brief@,
                        opt_view(parsed.body),
                        pairs_view(parsed.footers@)));
                    return true;
                }
                i = i + 1;
            }
            false
        },
    }
}

fn breaking_footer_exec(footers: &Vec<(String, String)>) -> (b: bool)
    ensures
        b == has_breaking_footer(pairs_view(footers@)),
{
    let ghost fs = pairs_view(footers@);
    let bc = chars_of("BREAKING CHANGE");
    let bh = chars_of("BREAKING-CHANGE");
    let mut found = false;
    let mut i: usize = 0;
    while i < footers.len()
        invariant
            i <= footers.len(),
            fs == pairs_view(footers@),
            bc@ == "BREAKING CHANGE"@,
            bh@ == "BREAKING-CHANGE"@,
            found == exists|j: int| 0 <= j < i && #[trigger] is_breaking_token(fs[j].0),
        decreases footers.len() - i,
    {
        let tok = chars_of(footers[i].0.as_str());
        assert(tok@ == fs[i as int].0);
        if crate::text::chars_eq(&tok, &bc) || crate::text::chars_eq(&tok, &bh) {
            found = true;
        }
        assert(is_breaking_token(fs[i as int].0) == (tok@ == bc@ || tok@ == bh@));
        i = i + 1;
    }
    found
}

/// Lints one commit: the error it raises, `None` when an ignore pattern
/// selects it, or the linted commit.
pub fn lint_one(commit: &Commit, config: &Config) -> (r: Result<Option<LintedCommit>, LintError>)
    requires
        config.well_formed(),
    ensures
        match r {
            Ok(Some(c)) => lint_commit(*commit, *config) == Ok::<Option<LintedView>, LintErrorView>(Some(c@)),
            Ok(None) => lint_commit(*commit, *config) == Ok::<Option<LintedView>, LintErrorView>(None),
            Err(e) => lint_commit(*commit, *config) == Err::<Option<LintedView>, LintErrorView>(e@),
        },
{
    let msg = chars_of(commit.message.as_str());
    let clean = normalize_newlines(&msg);
    let lines = split_on(&clean, '\n');
    proof {
        crate::text::lemma_split_nonempty(clean@, '\n');
    }
    let ghost lv = text::views(lines@);
    assert(lv[0] == lines@[0]@);
    let header = match parse_header(&lines[0]) {
        Some(h) => h,
        None => {
            let mut m: Vec<char> = Vec::new();
            push_str(&mut m, "Header '");
            crate::text::push_chars(&mut m, &lines[0]);
            push_str(&mut m, "' does not match '<type>[(<scope>)][!]: <description>'");
            return Err(LintError::InvalidFormat { hash: commit.hash.clone(), message: string_of(&m) });
        },
    };
    let label = match label_of(&config.commits.types, &header.ty) {
        Some(l) => l,
        None => {
            return Err(LintError::UnknownType { hash: commit.hash.clone(), ty: string_of(&header.ty) });
        },
    };
    let paras = split_paragraphs(&lines, 1);
    let (body_paras, footers_chars) = take_footers(paras);
    let body_chars = join_body(&body_paras);
    let parsed = ParsedCommit {
        scope: opt_string(&header.scope),
        brief: string_of(&header.brief),
        body: opt_string(&body_chars),
        footers: strings_of_pairs(&footers_chars),
    };
    if ignored_exec(&config.commits.ignore, &parsed) {
        return Ok(None);
    }
    let breaking = header.breaking || breaking_footer_exec(&parsed.footers);
    Ok(
        Some(
            LintedCommit {
                hash: commit.hash.clone(),
                author: commit.author.clone(),
                url: copy_opt_string(&commit.url),
                ty: label,
                scope: parsed.scope,
                breaking,
                brief: parsed.brief,
                body: parsed.body,
                footers: parsed.footers,
            },
        ),
    )
}

proof fn lemma_lint_all_error_persists(cs: Seq<Commit>, config: Config, k: int)
    requires
        0 <= k <= cs.len(),
        lint_all(cs.take(k), config) is Err,
    ensures
        lint_all(cs, config) == lint_all(cs.take(k), config),
    decreases cs.len() - k,
{
    if k < cs.len() {
        assert(cs.take(k + 1).drop_last() =~= cs.take(k));
        lemma_lint_all_error_persists(cs, config, k + 1);
    } else {
        assert(cs.take(k) =~= cs);
    }
}

/// Lints a list of commits against the configuration: each message must
/// follow the Conventional Commits grammar and use a configured type;
/// commits selected by an ignore pattern are left out; types are mapped to
/// their labels. The first failing commit gives the error.
pub fn lint(commits: Vec<Commit>, config: &Config) -> (r: Result<Vec<LintedCommit>, LintError>)
    requires
        config.well_formed(),
    ensures
        match r {
            Ok(v) => lint_all(commits@, *config) == Ok::<Seq<LintedView>, LintErrorView>(linted_views(v@)),
            Err(e) => lint_all(commits@, *config) == Err::<Seq<LintedView>, LintErrorView>(e@),
        },
{
    let mut linted: Vec<LintedCommit> = Vec::new();
    let mut i: usize = 0;
    assert(commits@.take(0) =~= Seq::<Commit>::empty());
    assert(linted_views(linted@) =~= Seq::<LintedView>::empty());
    while i < commits.len()
        invariant
            i <= commits.len(),
            config.well_formed(),
            lint_all(commits@.take(i as int), *config) == Ok::<Seq<LintedView>, LintErrorView>(linted_views(linted@)),
        decreases commits.len() - i,
    {
        assert(commits@.take(i + 1).drop_last() =~= commits@.take(i as int));
        assert(commits@.take(i + 1).last() == commits@[i as int]);
        match lint_one(&commits[i], config) {
            Err(e) => {
                proof {
                    lemma_lint_all_error_persists(commits@, *config, i + 1);
                }
                return Err(e);
            },
            Ok(None) => {},
            Ok(Some(c)) => {
                let ghost before = linted_views(linted@);
                linted.push(c);
                assert(linted_views(linted@) =~= before.push(c@));
            },
        }
        i = i + 1;
    }
    assert(commits@.take(commits.len() as int) =~= commits@);
    Ok(linted)
}


// ---------------------------------------------------------------------------
// Laws
// ---------------------------------------------------------------------------

/// `not` inverts the match of the pattern it holds.
pub proof fn law_not_inverts(p: Pat, t: Seq<char>)
    ensures
        pat_matches(Pat::Not(Box::new(p)), t) == !pat_matches(p, t),
{
}

/// A commit pattern without sub-patterns matches every commit.
pub proof fn law_empty_pattern_matches_all(
    scope: Option<Seq<char>>,
    brief: Seq<char>,
    body: Option<Seq<char>>,
    footers: Seq<(Seq<char>, Seq<char>)>,
)
    ensures
        pattern_matches(CommitPattern { brief: None, scope: None, body: None, footer: None }, scope, brief, body, footers),
{
}

/// Linting fails exactly when some commit fails, and then with the error of
/// the first commit that fails.
pub proof fn law_lint_first_error(cs: Seq<Commit>, config: Config)
    ensures
        lint_all(cs, config) is Err <==> exists|i: int| 0 <= i < cs.len() && (#[trigger] lint_commit(cs[i], config)) is Err,
        lint_all(cs, config) matches Err(e) ==> exists|i: int|
            0 <= i < cs.len() && #[trigger] lint_commit(cs[i], config) == Err::<Option<LintedView>, LintErrorView>(e)
                && forall|j: int| 0 <= j < i ==> (#[trigger] lint_commit(cs[j], config)) is Ok,
    decreases cs.len(),
{
    if cs.len() > 0 {
        let init = cs.drop_last();
        law_lint_first_error(init, config);
        assert forall|i: int| 0 <= i < init.len() implies #[trigger] init[i] == cs[i] by {}
        if lint_all(init, config) is Err {
            let e = lint_all(init, config)->Err_0;
            let i = choose|i: int|
                0 <= i < init.len() && #[trigger] lint_commit(init[i], config) == Err::<Option<LintedView>, LintErrorView>(e)
                    && forall|j: int| 0 <= j < i ==> (#[trigger] lint_commit(init[j], config)) is Ok;
            assert(lint_commit(cs[i], config) == Err::<Option<LintedView>, LintErrorView>(e));
            assert forall|j: int| 0 <= j < i implies (#[trigger] lint_commit(cs[j], config)) is Ok by {
                assert(init[j] == cs[j]);
            }
        } else {
            assert(forall|i: int| 0 <= i < init.len() ==> (#[trigger] lint_commit(init[i], config)) is Ok);
            if lint_commit(cs.last(), config) is Err {
                let n = cs.len() - 1;
                assert(lint_commit(cs[n], config) is Err);
                assert forall|j: int| 0 <= j < n implies (#[trigger] lint_commit(cs[j], config)) is Ok by {
                    assert(init[j] == cs[j]);
                }
            } else {
                assert forall|i: int| 0 <= i < cs.len() implies (#[trigger] lint_commit(cs[i], config)) is Ok by {
                    if i < cs.len() - 1 {
                        assert(init[i] == cs[i]);
                    }
                }
            }
        }
    }
}

/// What linting keeps of each commit it outputs, from the configuration.
pub open spec fn kept_as(v: LintedView, config: Config) -> bool {
    &&& exists|i: int| 0 <= i < config.commits.types@.len() && #[trigger] config.commits.types@[i].1@ == v.ty
    &&& !ignored_by(config.commits.ignore, v.scope, v.brief, v.body, v.footers)
    &&& (has_breaking_footer(v.footers) ==> v.breaking)
}

proof fn lemma_lookup_label_in(types: Seq<(String, String)>, key: Seq<char>)
    ensures
        lookup_label_some(types, key),
    decreases types.len(),
{
    if types.len() > 0 && types[0].0@ != key {
        lemma_lookup_label_in(types.drop_first(), key);
        if let Some(l) = cfg::commits::lookup_label(types.drop_first(), key) {
            let i = choose|i: int| 0 <= i < types.drop_first().len() && #[trigger] types.drop_first()[i].1@ == l;
            assert(types[i + 1] == types.drop_first()[i]);
        }
    }
}

/// A label found for a type is the label of some entry.
pub open spec fn lookup_label_some(types: Seq<(String, String)>, key: Seq<char>) -> bool {
    cfg::commits::lookup_label(types, key) matches Some(l) ==> exists|i: int| 0 <= i < types.len() && #[trigger] types[i].1@ == l
}

/// Every linted commit carries a configured label, matches no ignore
/// pattern, and is breaking when a footer says so.
pub proof fn law_lint_output(cs: Seq<Commit>, config: Config)
    ensures
        lint_all(cs, config) matches Ok(v) ==> forall|k: int| 0 <= k < v.len() ==> kept_as(#[trigger] v[k], config),
    decreases cs.len(),
{
    if cs.len() > 0 {
        law_lint_output(cs.drop_last(), config);
        let c = cs.last();
        if let Ok(v) = lint_all(cs, config) {
            if let Ok(Some(x)) = lint_commit(c, config) {
                let lines = message_lines(c.message@);
                let h = parse_header_spec(lines[0]).unwrap();
                lemma_lookup_label_in(config.commits.types@, h.ty);
                assert(kept_as(x, config));
                let w = lint_all(cs.drop_last(), config)->Ok_0;
                assert(v == w.push(x));
                assert forall|k: int| 0 <= k < v.len() implies kept_as(#[trigger] v[k], config) by {
                    if k < w.len() {
                        assert(v[k] == w[k]);
                    }
                }
            }
        }
    }
}

/// Linting keeps the order of the commits: the linted commits come from
/// input commits at increasing positions, with the same hash, author and
/// URL, so there are at most as many of them.
pub proof fn law_lint_keeps_order(cs: Seq<Commit>, config: Config)
    ensures
        lint_all(cs, config) matches Ok(v) ==> v.len() <= cs.len() && exists|idx: Seq<int>| #[trigger] drawn_from(v, cs, idx),
    decreases cs.len(),
{
    if cs.len() > 0 {
        let init = cs.drop_last();
        law_lint_keeps_order(init, config);
        if let Ok(v) = lint_all(cs, config) {
            let w = lint_all(init, config)->Ok_0;
            let idx0 = choose|idx: Seq<int>| #[trigger] drawn_from(w, init, idx);
            assert(drawn_from(w, cs, idx0)) by {
                assert forall|k: int| 0 <= k < w.len() implies #[trigger] cs[idx0[k]] == init[idx0[k]] by {}
            }
            if let Ok(Some(x)) = lint_commit(cs.last(), config) {
                let idx = idx0.push(cs.len() - 1);
                assert(v == w.push(x));
                assert(drawn_from(v, cs, idx)) by {
                    assert forall|k: int| 0 <= k < v.len() implies 0 <= #[trigger] idx[k] < cs.len() && v[k].hash
                        == cs[idx[k]].hash@ && v[k].author == cs[idx[k]].author@ && v[k].url == opt_view(
                        cs[idx[k]].url,
                    ) by {
                        if k < w.len() {
                            assert(v[k] == w[k]);
                            assert(idx[k] == idx0[k]);
                        }
                    }
                }
            } else {
                assert(v == w);
            }
        }
    } else {
        if let Ok(v) = lint_all(cs, config) {
            assert(drawn_from(v, cs, Seq::<int>::empty()));
        }
    }
}

/// The linted commits `v` come from `cs` at the increasing positions `idx`.
pub open spec fn drawn_from(v: Seq<LintedView>, cs: Seq<Commit>, idx: Seq<int>) -> bool {
    &&& idx.len() == v.len()
    &&& forall|a: int, b: int| 0 <= a < b < idx.len() ==> #[trigger] idx[a] < #[trigger] idx[b]
    &&& forall|k: int|
        0 <= k < v.len() ==> 0 <= #[trigger] idx[k] < cs.len() && v[k].hash == cs[idx[k]].hash@ && v[k].author
            == cs[idx[k]].author@ && v[k].url == opt_view(cs[idx[k]].url)
}

/// Without ignore patterns, a successful lint keeps every commit.
pub proof fn law_lint_keeps_all_without_ignores(cs: Seq<Commit>, config: Config)
    requires
        config.commits.ignore is None,
    ensures
        lint_all(cs, config) matches Ok(v) ==> v.len() == cs.len(),
    decreases cs.len(),
{
    if cs.len() > 0 {
        law_lint_keeps_all_without_ignores(cs.drop_last(), config);
    }
}


// ---------------------------------------------------------------------------
// Laws of the grammar and of the patterns
// ---------------------------------------------------------------------------

/// A non-empty word of type characters.
pub open spec fn is_type_word(t: Seq<char>) -> bool {
    t.len() > 0 && forall|i: int| 0 <= i < t.len() ==> is_type_char(#[trigger] t[i])
}

proof fn lemma_type_run_stops(line: Seq<char>, i: int, j: int)
    requires
        0 <= i <= j <= line.len(),
        forall|m: int| i <= m < j ==> is_type_char(#[trigger] line[m]),
        j < line.len() ==> !is_type_char(line[j]),
    ensures
        type_run_end(line, i) == j,
    decreases j - i,
{
    if i < j {
        lemma_type_run_stops(line, i + 1, j);
    }
}

proof fn lemma_find_char_stops(line: Seq<char>, c: char, i: int, j: int)
    requires
        0 <= i <= j < line.len(),
        forall|m: int| i <= m < j ==> #[trigger] line[m] != c,
        line[j] == c,
    ensures
        text::find_char(line, c, i) == j,
    decreases j - i,
{
    if i < j {
        lemma_find_char_stops(line, c, i + 1, j);
    }
}

proof fn lemma_trim_after_space(d: Seq<char>)
    ensures
        text::trim(seq![' '] + d) == text::trim(d),
{
    assert((seq![' '] + d).drop_first() =~= d);
}

/// A header without scope: `type!: description` is breaking and
/// `type: description` is not; the type and the trimmed description are
/// what was written.
pub proof fn law_header_without_scope(t: Seq<char>, d: Seq<char>)
    requires
        is_type_word(t),
        d.len() > 0,
    ensures
        parse_header_spec(t + seq!['!', ':', ' '] + d) matches Some(h) && h.ty == t && h.scope is None
            && h.breaking && h.brief == text::trim(d),
        parse_header_spec(t + seq![':', ' '] + d) matches Some(h) && h.ty == t && h.scope is None
            && !h.breaking && h.brief == text::trim(d),
{
    let l1 = t + seq!['!', ':', ' '] + d;
    let l2 = t + seq![':', ' '] + d;
    lemma_type_run_stops(l1, 0, t.len() as int);
    lemma_type_run_stops(l2, 0, t.len() as int);
    assert(l1.take(t.len() as int) =~= t);
    assert(l2.take(t.len() as int) =~= t);
    assert(l1.skip(t.len() as int + 2) =~= seq![' '] + d);
    assert(l2.skip(t.len() as int + 1) =~= seq![' '] + d);
    lemma_trim_after_space(d);
}

/// A header with a scope: `type(scope)!: description` is breaking and
/// `type(scope): description` is not; type, scope and trimmed description
/// are what was written.
pub proof fn law_header_with_scope(t: Seq<char>, sc: Seq<char>, d: Seq<char>)
    requires
        is_type_word(t),
        sc.len() > 0,
        forall|i: int| 0 <= i < sc.len() ==> #[trigger] sc[i] != ')',
        d.len() > 0,
    ensures
        parse_header_spec(t + seq!['('] + sc + seq![')', '!', ':', ' '] + d) matches Some(h) && h.ty == t
            && h.scope == Some(sc) && h.breaking && h.brief == text::trim(d),
        parse_header_spec(t + seq!['('] + sc + seq![')', ':', ' '] + d) matches Some(h) && h.ty == t
            && h.scope == Some(sc) && !h.breaking && h.brief == text::trim(d),
{
    let n = t.len() as int;
    let m = sc.len() as int;
    let l1 = t + seq!['('] + sc + seq![')', '!', ':', ' '] + d;
    let l2 = t + seq!['('] + sc + seq![')', ':', ' '] + d;
    lemma_type_run_stops(l1, 0, n);
    lemma_type_run_stops(l2, 0, n);
    assert forall|k: int| n + 1 <= k < n + 1 + m implies #[trigger] l1[k] != ')' by {
        assert(l1[k] == sc[k - n - 1]);
    }
    assert forall|k: int| n + 1 <= k < n + 1 + m implies #[trigger] l2[k] != ')' by {
        assert(l2[k] == sc[k - n - 1]);
    }
    lemma_find_char_stops(l1, ')', n + 1, n + 1 + m);
    lemma_find_char_stops(l2, ')', n + 1, n + 1 + m);
    assert(l1.take(n) =~= t);
    assert(l2.take(n) =~= t);
    assert(l1.subrange(n + 1, n + 1 + m) =~= sc);
    assert(l2.subrange(n + 1, n + 1 + m) =~= sc);
    assert(l1.skip(n + m + 4) =~= seq![' '] + d);
    assert(l2.skip(n + m + 3) =~= seq![' '] + d);
    lemma_trim_after_space(d);
}

/// A commit pattern with a scope (or body) sub-pattern never matches a
/// commit without a scope (or body).
pub proof fn law_scope_and_body_patterns_need_parts(
    pattern: CommitPattern,
    scope: Option<Seq<char>>,
    brief: Seq<char>,
    body: Option<Seq<char>>,
    footers: Seq<(Seq<char>, Seq<char>)>,
)
    ensures
        pattern.scope is Some && scope is None ==> !pattern_matches(pattern, scope, brief, body, footers),
        pattern.body is Some && body is None ==> !pattern_matches(pattern, scope, brief, body, footers),
        pattern.footer is Some && footers.len() == 0 ==> !pattern_matches(pattern, scope, brief, body, footers),
{
}

/// `Prefix(p)` matches exactly the texts `p + u`, `Suffix(p)` exactly the
/// texts `u + p`, and `Exact(e)` exactly the text `e`.
pub proof fn law_prefix_suffix_exact(p: String, t: Seq<char>, u: Seq<char>)
    ensures
        pat_matches(Pat::Prefix(p), p@ + u),
        pat_matches(Pat::Prefix(p), t) ==> t == p@ + t.skip(p@.len() as int),
        pat_matches(Pat::Suffix(p), u + p@),
        pat_matches(Pat::Suffix(p), t) ==> t == t.take(t.len() - p@.len()) + p@,
        pat_matches(Pat::Exact(p), t) <==> t == p@,
{
    assert((p@ + u).take(p@.len() as int) =~= p@);
    assert((u + p@).skip(u.len() as int) =~= p@);
    if pat_matches(Pat::Prefix(p), t) {
        assert(t =~= t.take(p@.len() as int) + t.skip(p@.len() as int));
    }
    if pat_matches(Pat::Suffix(p), t) {
        assert(t =~= t.take(t.len() - p@.len()) + t.skip(t.len() - p@.len()));
    }
}

/// `Find(Exact(e))` matches exactly the texts `u + e + v`.
pub proof fn law_find_exact(e: String, t: Seq<char>, u: Seq<char>, v: Seq<char>)
    ensures
        find_matches(Find::Exact(e), u + e@ + v),
        find_matches(Find::Exact(e), t) ==> exists|a: Seq<char>, b: Seq<char>| t == a + e@ + b,
{
    let w = u + e@ + v;
    assert(w.subrange(u.len() as int, u.len() as int + e@.len()) =~= e@);
    assert(text::occurs_at(w, e@, u.len() as int));
    if find_matches(Find::Exact(e), t) {
        let i = choose|i: int| text::occurs_at(t, e@, i);
        assert(t =~= t.take(i) + e@ + t.skip(i + e@.len()));
    }
}

/// The footers of trailing footer blocks keep the order of the message:
/// body paragraphs followed by footer blocks split into the body and the
/// footers of the blocks, first block first, each block line by line.
pub proof fn law_footers_in_message_order(body: Seq<Seq<Seq<char>>>, blocks: Seq<Seq<Seq<char>>>)
    requires
        body.len() == 0 || !is_footer_para(body.last()),
        forall|i: int| 0 <= i < blocks.len() ==> is_footer_para(#[trigger] blocks[i]),
    ensures
        footer_split(body + blocks) == (body, block_footers(blocks)),
    decreases blocks.len(),
{
    if blocks.len() == 0 {
        assert(body + blocks =~= body);
    } else {
        let init = blocks.drop_last();
        assert forall|i: int| 0 <= i < init.len() implies is_footer_para(#[trigger] init[i]) by {
            assert(init[i] == blocks[i]);
        }
        law_footers_in_message_order(body, init);
        assert((body + blocks).drop_last() =~= body + init);
        assert((body + blocks).last() == blocks.last());
        assert(is_footer_para(blocks[blocks.len() - 1]));
        lemma_block_footers_push(init, blocks.last());
        assert(init.push(blocks.last()) =~= blocks);
    }
}

proof fn lemma_block_footers_push(ps: Seq<Seq<Seq<char>>>, p: Seq<Seq<char>>)
    ensures
        block_footers(ps.push(p)) == block_footers(ps) + para_footers(p),
    decreases ps.len(),
{
    if ps.len() == 0 {
        assert(ps.push(p).drop_first() =~= Seq::<Seq<Seq<char>>>::empty());
        assert(ps.push(p)[0] == p);
        assert(block_footers(Seq::<Seq<Seq<char>>>::empty()) == Seq::<(Seq<char>, Seq<char>)>::empty());
        assert(para_footers(p) + Seq::<(Seq<char>, Seq<char>)>::empty() =~= para_footers(p));
        assert(Seq::<(Seq<char>, Seq<char>)>::empty() + para_footers(p) =~= para_footers(p));
    } else {
        lemma_block_footers_push(ps.drop_first(), p);
        assert(ps.push(p).drop_first() =~= ps.drop_first().push(p));
        assert(ps.push(p)[0] == ps[0]);
        assert(para_footers(ps[0]) + (block_footers(ps.drop_first()) + para_footers(p)) =~= (para_footers(
            ps[0],
        ) + block_footers(ps.drop_first())) + para_footers(p));
    }
}


proof fn lemma_lookup_label_entry(types: Seq<(String, String)>, key: Seq<char>)
    ensures
        cfg::commits::lookup_label(types, key) matches Some(l) ==> exists|i: int|
            0 <= i < types.len() && types[i].0@ == key && #[trigger] types[i].1@ == l,
        cfg::commits::lookup_label(types, key) is None ==> forall|i: int| 0 <= i < types.len() ==> #[trigger] types[i].0@ != key,
    decreases types.len(),
{
    if types.len() > 0 {
        lemma_lookup_label_entry(types.drop_first(), key);
        if types[0].0@ != key {
            if let Some(l) = cfg::commits::lookup_label(types.drop_first(), key) {
                let i = choose|i: int| 0 <= i < types.drop_first().len() && types.drop_first()[i].0@ == key
                    && #[trigger] types.drop_first()[i].1@ == l;
                assert(types[i + 1] == types.drop_first()[i]);
            } else {
                assert forall|i: int| 0 <= i < types.len() implies #[trigger] types[i].0@ != key by {
                    if i > 0 {
                        assert(types[i] == types.drop_first()[i - 1]);
                    }
                }
            }
        }
    }
}

/// How one commit is linted, in terms of its header line: a header outside
/// the grammar is an `InvalidFormat` error; a type that no entry of the
/// table has is an `UnknownType` error carrying that type; otherwise a
/// linted commit (when not ignored) carries the label of an entry for its
/// type, the scope and description of its header, and is breaking exactly
/// when the header has `!` or a footer is a breaking-change footer.
pub proof fn law_lint_commit(c: Commit, config: Config)
    ensures
        ({
            let first = message_lines(c.message@)[0];
            match parse_header_spec(first) {
                None => lint_commit(c, config) is Err && lint_commit(c, config)->Err_0 is InvalidFormat,
                Some(h) => {
                    &&& (forall|i: int| 0 <= i < config.commits.types@.len() ==> #[trigger] config.commits.types@[i].0@ != h.ty)
                        ==> lint_commit(c, config) == Err::<Option<LintedView>, LintErrorView>(LintErrorView::UnknownType { hash: c.hash@, ty: h.ty })
                    &&& lint_commit(c, config) matches Ok(Some(v)) ==> {
                        &&& exists|i: int| 0 <= i < config.commits.types@.len() && config.commits.types@[i].0@ == h.ty
                            && #[trigger] config.commits.types@[i].1@ == v.ty
                        &&& v.scope == h.scope
                        &&& v.brief == h.brief
                        &&& v.hash == c.hash@
                        &&& (v.breaking <==> (h.breaking || exists|k: int| 0 <= k < v.footers.len()
                            && (#[trigger] v.footers[k].0 == "BREAKING CHANGE"@ || v.footers[k].0 == "BREAKING-CHANGE"@)))
                    }
                },
            }
        }),
{
    let first = message_lines(c.message@)[0];
    if let Some(h) = parse_header_spec(first) {
        lemma_lookup_label_entry(config.commits.types@, h.ty);
        if let Ok(Some(v)) = lint_commit(c, config) {
            assert(v.breaking == (h.breaking || has_breaking_footer(v.footers)));
            if has_breaking_footer(v.footers) {
                let k = choose|k: int| 0 <= k < v.footers.len() && #[trigger] is_breaking_token(v.footers[k].0);
                assert(v.footers[k].0 == "BREAKING CHANGE"@ || v.footers[k].0 == "BREAKING-CHANGE"@);
            }
            if exists|k: int| 0 <= k < v.footers.len() && (#[trigger] v.footers[k].0 == "BREAKING CHANGE"@
                || v.footers[k].0 == "BREAKING-CHANGE"@) {
                let k = choose|k: int| 0 <= k < v.footers.len() && (#[trigger] v.footers[k].0 == "BREAKING CHANGE"@
                    || v.footers[k].0 == "BREAKING-CHANGE"@);
                assert(is_breaking_token(v.footers[k].0));
            }
        }
        if forall|i: int| 0 <= i < config.commits.types@.len() ==> #[trigger] config.commits.types@[i].0@ != h.ty {
            if let Some(l) = cfg::commits::lookup_label(config.commits.types@, h.ty) {
                let i = choose|i: int| 0 <= i < config.commits.types@.len() && config.commits.types@[i].0@ == h.ty
                    && #[trigger] config.commits.types@[i].1@ == l;
                assert(config.commits.types@[i].0@ != h.ty);
            }
        }
    }
}


/// Reading `\r\n` as a line break: text without `\r` is unchanged, and a
/// `\r\n` after such text becomes `\n`.
pub proof fn law_replace_crlf(a: Seq<char>, b: Seq<char>)
    requires
        forall|i: int| 0 <= i < a.len() ==> #[trigger] a[i] != '\r',
    ensures
        replace_crlf(a) == a,
        replace_crlf(a + seq!['\r', '\n'] + b) == a + seq!['\n'] + replace_crlf(b),
    decreases a.len(),
{
    if a.len() > 0 {
        let r = a.skip(1);
        assert forall|i: int| 0 <= i < r.len() implies #[trigger] r[i] != '\r' by {
            assert(r[i] == a[i + 1]);
        }
        law_replace_crlf(r, b);
        assert(seq![a[0]] + r =~= a);
        assert((a + seq!['\r', '\n'] + b).skip(1) =~= r + seq!['\r', '\n'] + b);
        assert(seq![a[0]] + (r + seq!['\n'] + replace_crlf(b)) =~= a + seq!['\n'] + replace_crlf(b));
    } else {
        assert(a + seq!['\r', '\n'] + b =~= seq!['\r', '\n'] + b);
        assert((seq!['\r', '\n'] + b).skip(2) =~= b);
        assert(a + seq!['\n'] + replace_crlf(b) =~= seq!['\n'] + replace_crlf(b));
    }
}

proof fn lemma_para_state_nonblank(ls: Seq<Seq<char>>)
    requires
        forall|i: int| 0 <= i < ls.len() ==> !text::is_blank(#[trigger] ls[i]),
    ensures
        para_state(ls) == (Seq::<Seq<Seq<char>>>::empty(), ls),
    decreases ls.len(),
{
    if ls.len() > 0 {
        let init = ls.drop_last();
        assert forall|i: int| 0 <= i < init.len() implies !text::is_blank(#[trigger] init[i]) by {
            assert(init[i] == ls[i]);
        }
        lemma_para_state_nonblank(init);
        assert(!text::is_blank(ls[ls.len() - 1]));
        assert(init.push(ls.last()) =~= ls);
    } else {
        assert(ls =~= Seq::<Seq<char>>::empty());
    }
}

proof fn lemma_para_state_after_blank(a: Seq<Seq<char>>, bl: Seq<char>, b: Seq<Seq<char>>)
    requires
        text::is_blank(bl),
    ensures
        para_state(a + seq![bl] + b) == (paragraphs(a) + para_state(b).0, para_state(b).1),
    decreases b.len(),
{
    if b.len() == 0 {
        assert(a + seq![bl] + b =~= a.push(bl));
        assert(a.push(bl).drop_last() =~= a);
        assert(paragraphs(a) + Seq::<Seq<Seq<char>>>::empty() =~= paragraphs(a));
    } else {
        lemma_para_state_after_blank(a, bl, b.drop_last());
        assert((a + seq![bl] + b).drop_last() =~= a + seq![bl] + b.drop_last());
        assert((a + seq![bl] + b).last() == b.last());
        let (ps, cur) = para_state(b.drop_last());
        if text::is_blank(b.last()) {
            if cur.len() > 0 {
                assert((paragraphs(a) + ps).push(cur) =~= paragraphs(a) + ps.push(cur));
            }
        }
    }
}

/// Paragraphs are the runs of non-blank lines: lines without a blank one
/// form one paragraph, and a blank line separates the paragraphs before it
/// from those after it.
pub proof fn law_paragraphs(a: Seq<Seq<char>>, bl: Seq<char>, b: Seq<Seq<char>>)
    ensures
        a.len() > 0 && (forall|i: int| 0 <= i < a.len() ==> !text::is_blank(#[trigger] a[i])) ==> paragraphs(a)
            == seq![a],
        text::is_blank(bl) ==> paragraphs(a + seq![bl] + b) == paragraphs(a) + paragraphs(b),
{
    if a.len() > 0 && (forall|i: int| 0 <= i < a.len() ==> !text::is_blank(#[trigger] a[i])) {
        lemma_para_state_nonblank(a);
        assert(Seq::<Seq<Seq<char>>>::empty().push(a) =~= seq![a]);
    }
    if text::is_blank(bl) {
        lemma_para_state_after_blank(a, bl, b);
        let (ps, cur) = para_state(b);
        if cur.len() > 0 {
            assert((paragraphs(a) + ps).push(cur) =~= paragraphs(a) + ps.push(cur));
        }
    }
}

/// The body joins the lines of a paragraph with a newline and paragraphs
/// with a blank line.
pub proof fn law_body_joins(x: Seq<char>, y: Seq<char>)
    ensures
        body_of(seq![seq![x]]) == Some(x),
        body_of(seq![seq![x, y]]) == Some(x + seq!['\n'] + y),
        body_of(seq![seq![x], seq![y]]) == Some(x + seq!['\n', '\n'] + y),
        body_of(Seq::<Seq<Seq<char>>>::empty()) is None,
{
    let p1 = seq![seq![x]];
    assert(p1.map_values(|p: Seq<Seq<char>>| text::join(p, seq!['\n'])) =~= seq![x]);
    let p2 = seq![seq![x, y]];
    assert(seq![x, y].drop_last() =~= seq![x]);
    assert(p2.map_values(|p: Seq<Seq<char>>| text::join(p, seq!['\n'])) =~= seq![x + seq!['\n'] + y]);
    let p3 = seq![seq![x], seq![y]];
    let m3 = p3.map_values(|p: Seq<Seq<char>>| text::join(p, seq!['\n']));
    assert(m3 =~= seq![x, y]);
    assert(seq![x, y].drop_last() =~= seq![x]);
}


proof fn lemma_trim_start_of_word(v: Seq<char>)
    requires
        v.len() > 0,
        !text::is_ws(v[0]),
    ensures
        text::trim_start(v) == v,
        text::trim_start(seq![' '] + v) == v,
        footer_value(v) == v,
        footer_value(seq![' '] + v) == v,
{
    assert((seq![' '] + v).drop_first() =~= v);
}

/// The footer grammar: `token: value` and `token#value` give the token and
/// the value (a value starting with a non-blank character is kept as is),
/// `BREAKING CHANGE: value` gives the token `BREAKING CHANGE`, and a token
/// followed by a space and no separator is no footer.
pub proof fn law_footer_lines(t: Seq<char>, v: Seq<char>)
    requires
        is_type_word(t),
        v.len() > 0,
        !text::is_ws(v[0]),
    ensures
        parse_footer_spec(t + seq![':', ' '] + v) == Some((t, v)),
        parse_footer_spec(t + seq!['#'] + v) == Some((t, v)),
        parse_footer_spec("BREAKING CHANGE"@ + seq![':', ' '] + v) == Some(("BREAKING CHANGE"@, v)),
        !text::starts_with(t + seq![' '] + v, "BREAKING CHANGE"@) ==> parse_footer_spec(t + seq![' '] + v) is None,
{
    let n = t.len() as int;
    lemma_trim_start_of_word(v);
    let l1 = t + seq![':', ' '] + v;
    lemma_type_run_stops(l1, 0, n);
    assert(l1.take(n) =~= t);
    assert(l1.skip(n + 1) =~= seq![' '] + v);
    let l2 = t + seq!['#'] + v;
    lemma_type_run_stops(l2, 0, n);
    assert(l2.take(n) =~= t);
    assert(l2.skip(n + 1) =~= v);
    let l4 = t + seq![' '] + v;
    lemma_type_run_stops(l4, 0, n);
    reveal_strlit("BREAKING CHANGE");
    let b = "BREAKING CHANGE"@;
    let l3 = b + seq![':', ' '] + v;
    assert(b.len() == 15);
    lemma_type_run_stops(l3, 0, 8);
    assert(l3.take(15) =~= b);
    assert(l3.skip(16) =~= seq![' '] + v);
}

} // verus!
