//! Parsing a user's source expression (GitHub shorthand, https / ssh /
//! file URLs, or an absolute local path) into a cache key and origin.

use vstd::prelude::*;

use crate::error::Error;
use crate::text::{
    chars_of, concat2, concat3, count_char, count_in, find_first, find_last, first_index, has_prefix,
    last_index, range_eq, range_starts_with, substring, trim_end_char, trim_end_char_at,
    trim_end_lit_at, trim_end_pat, trim_ws, trim_ws_bounds,
};

verus! {

/// A parsed source: cache key, git URL for remote sources, local path otherwise.
#[derive(Clone, PartialEq, Debug)]
pub struct SourceSpec {
    pub key: String,
    pub url: Option<String>,
    pub local_path: Option<String>,
}

/// Model of a [`SourceSpec`].
pub struct SourceView {
    pub key: Seq<char>,
    pub url: Option<Seq<char>>,
    pub local_path: Option<Seq<char>>,
}

/// View of an optional string.
pub open spec fn opt_view(o: Option<String>) -> Option<Seq<char>> {
    match o {
        Some(s) => Some(s@),
        None => None,
    }
}

impl View for SourceSpec {
    type V = SourceView;

    open spec fn view(&self) -> SourceView {
        SourceView { key: self.key@, url: opt_view(self.url), local_path: opt_view(self.local_path) }
    }
}

/// Last normal component of a Unix path (`Path::file_name`): trailing
/// separators and `.` components are skipped; `..` or nothing gives `None`.
pub open spec fn file_name(p: Seq<char>) -> Option<Seq<char>>
    decreases p.len(),
{
    if p.len() == 0 {
        None
    } else if p.last() == '/' {
        file_name(p.drop_last())
    } else {
        let i = last_index(p, '/');
        let seg = p.subrange(i + 1, p.len() as int);
        if seg == seq!['.'] {
            if i < 0 {
                None
            } else {
                file_name(p.subrange(0, i))
            }
        } else if seg == seq!['.', '.'] {
            None
        } else {
            Some(seg)
        }
    }
}

/// `github.com` is abbreviated to `github` in cache keys.
pub open spec fn short_host(h: Seq<char>) -> Seq<char> {
    if h == "github.com"@ {
        "github"@
    } else {
        h
    }
}

/// Characters allowed in the `owner/repo` GitHub shorthand.
pub open spec fn shorthand_char(c: char) -> bool {
    ('a' <= c <= 'z') || ('A' <= c <= 'Z') || ('0' <= c <= '9') || c == '-' || c == '_' || c
        == '.' || c == '/'
}

/// The message for an expression that cannot be parsed.
pub open spec fn unparsable(input: Seq<char>) -> Seq<char> {
    "无法解析 source: "@ + input
}

/// Last `/`-separated segment of `s` (all of `s` when it has no `/`).
pub open spec fn last_segment(s: Seq<char>) -> Seq<char> {
    s.subrange(last_index(s, '/') + 1, s.len() as int)
}

/// A result of [`parse_source`] agrees with a modelled parse.
pub open spec fn agrees(r: Result<SourceSpec, Error>, m: Result<SourceView, Seq<char>>) -> bool {
    match (r, m) {
        (Ok(s), Ok(v)) => s@ == v,
        (Err(Error::Msg(e)), Err(msg)) => e@ == msg,
        _ => false,
    }
}

/// The text a source expression is parsed from: trimmed, without trailing `/`.
pub open spec fn source_input(raw: Seq<char>) -> Seq<char> {
    trim_end_char(trim_ws(raw), '/')
}

/// An absolute local path: keyed `local/<directory name>`.
pub open spec fn parse_local(input: Seq<char>) -> Result<SourceView, Seq<char>> {
    let name = match file_name(input) {
        Some(n) => n,
        None => "unnamed"@,
    };
    Ok(SourceView { key: "local/"@ + name, url: None, local_path: Some(input) })
}

/// `git@host:owner/repo[.git]`.
pub open spec fn parse_ssh(input: Seq<char>) -> Result<SourceView, Seq<char>> {
    let rest = input.subrange(4, input.len() as int);
    let i = first_index(rest, ':');
    if i < 0 {
        Err(unparsable(input))
    } else {
        let host = rest.subrange(0, i);
        let path = trim_end_pat(rest.subrange(i + 1, rest.len() as int), ".git"@);
        Ok(SourceView { key: short_host(host) + "/"@ + path, url: Some(input), local_path: None })
    }
}

/// `file://.../<parent>/<name>[.git]`.
pub open spec fn parse_file_url(input: Seq<char>) -> Result<SourceView, Seq<char>> {
    let rest = input.subrange(7, input.len() as int);
    let trimmed = trim_end_pat(trim_end_char(rest, '/'), ".git"@);
    let j = last_index(trimmed, '/');
    let name = trimmed.subrange(j + 1, trimmed.len() as int);
    let parent = if j < 0 {
        "root"@
    } else {
        last_segment(trimmed.subrange(0, j))
    };
    if name.len() == 0 {
        Err(unparsable(input))
    } else {
        Ok(
            SourceView {
                key: "file/"@ + parent + "/"@ + name,
                url: Some(input),
                local_path: None,
            },
        )
    }
}

/// `https://host/owner/repo[.git]` (or `http://`, normalised to https).
pub open spec fn parse_http(input: Seq<char>, rest: Seq<char>) -> Result<SourceView, Seq<char>> {
    let i = first_index(rest, '/');
    if i < 0 {
        Err(unparsable(input))
    } else {
        let host = rest.subrange(0, i);
        let path = trim_end_pat(
            trim_end_char(rest.subrange(i + 1, rest.len() as int), '/'),
            ".git"@,
        );
        if host.len() > 0 && count_char(path, '/') == 1 {
            Ok(
                SourceView {
                    key: short_host(host) + "/"@ + path,
                    url: Some("https://"@ + host + "/"@ + path),
                    local_path: None,
                },
            )
        } else {
            Err(unparsable(input))
        }
    }
}

/// GitHub shorthand `owner/repo`.
pub open spec fn parse_shorthand(input: Seq<char>) -> Result<SourceView, Seq<char>> {
    if count_char(input, '/') == 1 && (forall|k: int|
        0 <= k < input.len() ==> shorthand_char(#[trigger] input[k])) {
        Ok(
            SourceView {
                key: "github/"@ + input,
                url: Some("https://github.com/"@ + input),
                local_path: None,
            },
        )
    } else {
        Err(unparsable(input))
    }
}

/// The parse of a source expression: its view, or the error message.
pub open spec fn parse_source_spec(raw: Seq<char>) -> Result<SourceView, Seq<char>> {
    let input = source_input(raw);
    if input.len() == 0 {
        Err("source 为空"@)
    } else if input[0] == '/' {
        parse_local(input)
    } else if has_prefix(input, "git@"@) {
        parse_ssh(input)
    } else if has_prefix(input, "file://"@) {
        parse_file_url(input)
    } else if has_prefix(input, "https://"@) {
        parse_http(input, input.subrange(8, input.len() as int))
    } else if has_prefix(input, "http://"@) {
        parse_http(input, input.subrange(7, input.len() as int))
    } else {
        parse_shorthand(input)
    }
}

/// Bounds of [`file_name`] of `v[lo..hi]`, absolute positions in `v`.
fn file_name_at(v: &Vec<char>, lo: usize, hi: usize) -> (r: Option<(usize, usize)>)
    requires
        lo <= hi <= v@.len(),
    ensures
        match r {
            Some((a, b)) => lo <= a <= b <= hi && file_name(v@.subrange(lo as int, hi as int))
                == Some(v@.subrange(a as int, b as int)),
            None => file_name(v@.subrange(lo as int, hi as int)) is None,
        },
    decreases hi - lo,
{
    let ghost p = v@.subrange(lo as int, hi as int);
    if hi == lo {
        return None;
    }
    if v[hi - 1] == '/' {
        assert(p.drop_last() =~= v@.subrange(lo as int, hi - 1));
        return file_name_at(v, lo, hi - 1);
    }
    let li = find_last(v, lo, hi, '/');
    let start = match li {
        Some(i) => lo + i + 1,
        None => lo,
    };
    let ghost i = last_index(p, '/');
    assert(p.subrange(i + 1, p.len() as int) =~= v@.subrange(start as int, hi as int));
    let seg_len = hi - start;
    if seg_len == 1 && v[start] == '.' {
        assert(v@.subrange(start as int, hi as int) =~= seq!['.']);
        match li {
            None => None,
            Some(k) => {
                assert(p.subrange(0, k as int) =~= v@.subrange(lo as int, lo + k));
                file_name_at(v, lo, lo + k)
            },
        }
    } else if seg_len == 2 && v[start] == '.' && v[start + 1] == '.' {
        assert(v@.subrange(start as int, hi as int) =~= seq!['.', '.']);
        None
    } else {
        if seg_len == 1 {
            assert(v@.subrange(start as int, hi as int)[0] != '.');
        }
        if seg_len == 2 {
            assert(v@.subrange(start as int, hi as int)[0] != '.' || v@.subrange(
                start as int,
                hi as int,
            )[1] != '.');
        }
        Some((start, hi))
    }
}

/// `github` for `github.com`, else the host itself.
fn short_host_of(input: &str, v: &Vec<char>, a: usize, b: usize) -> (r: String)
    requires
        a <= b <= v@.len(),
        v@ == input@,
    ensures
        r@ == short_host(v@.subrange(a as int, b as int)),
{
    if range_eq(v, a, b, "github.com") {
        String::from_str("github")
    } else {
        substring(input, a, b)
    }
}

/// The error for an unparsable expression.
fn unparsable_err(input: &str) -> (e: Error)
    ensures
        e matches Error::Msg(m) && m@ == unparsable(input@),
{
    Error::Msg(concat2("无法解析 source: ", input))
}

/// Local-path branch of [`parse_source`].
fn local_source(input: &str, v: &Vec<char>) -> (r: Result<SourceSpec, Error>)
    requires
        v@ == input@,
    ensures
        agrees(r, parse_local(input@)),
{
    let n = v.len();
    assert(v@.subrange(0, n as int) =~= v@);
    let name = match file_name_at(v, 0, n) {
        Some((a, b)) => substring(input, a, b),
        None => String::from_str("unnamed"),
    };
    Ok(
        SourceSpec {
            key: concat2("local/", name.as_str()),
            url: None,
            local_path: Some(String::from_str(input)),
        },
    )
}

/// SSH branch of [`parse_source`].
fn ssh_source(input: &str, v: &Vec<char>) -> (r: Result<SourceSpec, Error>)
    requires
        v@ == input@,
        v@.len() >= 4,
    ensures
        agrees(r, parse_ssh(input@)),
{
    let n = v.len();
    match find_first(v, 4, n, ':') {
        None => Err(unparsable_err(input)),
        Some(i) => {
            let ghost rest = v@.subrange(4, n as int);
            assert(rest.subrange(0, i as int) =~= v@.subrange(4, 4 + i));
            assert(rest.subrange(i + 1, rest.len() as int) =~= v@.subrange(4 + i + 1, n as int));
            let pe = trim_end_lit_at(v, 4 + i + 1, n, ".git");
            let host = short_host_of(input, v, 4, 4 + i);
            let path = substring(input, 4 + i + 1, pe);
            Ok(
                SourceSpec {
                    key: concat3(host.as_str(), "/", path.as_str()),
                    url: Some(String::from_str(input)),
                    local_path: None,
                },
            )
        },
    }
}

/// `file://` branch of [`parse_source`].
fn file_source(input: &str, v: &Vec<char>) -> (r: Result<SourceSpec, Error>)
    requires
        v@ == input@,
        v@.len() >= 7,
    ensures
        agrees(r, parse_file_url(input@)),
{
    let n = v.len();
    let ghost rest = v@.subrange(7, n as int);
    let e1 = trim_end_char_at(v, 7, n, '/');
    let e2 = trim_end_lit_at(v, 7, e1, ".git");
    let ghost trimmed = v@.subrange(7, e2 as int);
    let (name_start, parent) = match find_last(v, 7, e2, '/') {
        None => (7, String::from_str("root")),
        Some(j) => {
            let ghost before = trimmed.subrange(0, j as int);
            assert(before =~= v@.subrange(7, 7 + j));
            let ps = match find_last(v, 7, 7 + j, '/') {
                Some(k) => 7 + k + 1,
                None => 7,
            };
            assert(before.subrange(last_index(before, '/') + 1, before.len() as int)
                =~= v@.subrange(ps as int, 7 + j));
            (7 + j + 1, substring(input, ps, 7 + j))
        },
    };
    assert(trimmed.subrange(last_index(trimmed, '/') + 1, trimmed.len() as int) =~= v@.subrange(
        name_start as int,
        e2 as int,
    ));
    if name_start == e2 {
        return Err(unparsable_err(input));
    }
    let name = substring(input, name_start, e2);
    Ok(
        SourceSpec {
            key: concat3(concat2("file/", parent.as_str()).as_str(), "/", name.as_str()),
            url: Some(String::from_str(input)),
            local_path: None,
        },
    )
}

/// `https://` / `http://` branch of [`parse_source`]; `start` skips the scheme.
fn http_source(input: &str, v: &Vec<char>, start: usize) -> (r: Result<SourceSpec, Error>)
    requires
        v@ == input@,
        start <= v@.len(),
    ensures
        agrees(r, parse_http(input@, input@.subrange(start as int, input@.len() as int))),
{
    let n = v.len();
    let ghost rest = v@.subrange(start as int, n as int);
    match find_first(v, start, n, '/') {
        None => Err(unparsable_err(input)),
        Some(i) => {
            assert(rest.subrange(0, i as int) =~= v@.subrange(start as int, start + i));
            assert(rest.subrange(i + 1, rest.len() as int) =~= v@.subrange(
                start + i + 1,
                n as int,
            ));
            let p1 = trim_end_char_at(v, start + i + 1, n, '/');
            let p2 = trim_end_lit_at(v, start + i + 1, p1, ".git");
            let slashes = count_in(v, start + i + 1, p2, '/');
            if i > 0 && slashes == 1 {
                let host_raw = substring(input, start, start + i);
                let host = short_host_of(input, v, start, start + i);
                let path = substring(input, start + i + 1, p2);
                let url = concat3(
                    concat2("https://", host_raw.as_str()).as_str(),
                    "/",
                    path.as_str(),
                );
                Ok(
                    SourceSpec {
                        key: concat3(host.as_str(), "/", path.as_str()),
                        url: Some(url),
                        local_path: None,
                    },
                )
            } else {
                Err(unparsable_err(input))
            }
        },
    }
}

/// Shorthand branch of [`parse_source`].
fn shorthand_source(input: &str, v: &Vec<char>) -> (r: Result<SourceSpec, Error>)
    requires
        v@ == input@,
    ensures
        agrees(r, parse_shorthand(input@)),
{
    let n = v.len();
    assert(v@.subrange(0, n as int) =~= v@);
    let slashes = count_in(v, 0, n, '/');
    let mut all_ok = true;
    let mut k: usize = 0;
    while k < n
        invariant
            n == v@.len(),
            k <= n,
            all_ok == (forall|j: int| 0 <= j < k ==> shorthand_char(#[trigger] v@[j])),
        decreases n - k,
    {
        let c = v[k];
        let ok = ('a' <= c && c <= 'z') || ('A' <= c && c <= 'Z') || ('0' <= c && c <= '9') || c
            == '-' || c == '_' || c == '.' || c == '/';
        if !ok {
            all_ok = false;
        }
        k = k + 1;
    }
    if slashes == 1 && all_ok {
        Ok(
            SourceSpec {
                key: concat2("github/", input),
                url: Some(concat2("https://github.com/", input)),
                local_path: None,
            },
        )
    } else {
        Err(unparsable_err(input))
    }
}

/// Parse a source expression.
pub fn parse_source(raw: &str) -> (r: Result<SourceSpec, Error>)
    ensures
        agrees(r, parse_source_spec(raw@)),
{
    let rv = chars_of(raw);
    let (ta, tb) = trim_ws_bounds(&rv);
    let te = trim_end_char_at(&rv, ta, tb, '/');
    let input_s = substring(raw, ta, te);
    let input = input_s.as_str();
    let v = chars_of(input);
    let n = v.len();
    assert(v@ =~= source_input(raw@));
    assert(v@.subrange(0, n as int) =~= v@);
    if n == 0 {
        return Err(Error::Msg(String::from_str("source 为空")));
    }
    if v[0] == '/' {
        return local_source(input, &v);
    }
    if range_starts_with(&v, 0, n, "git@") {
        proof {
            reveal_strlit("git@");
        }
        return ssh_source(input, &v);
    }
    if range_starts_with(&v, 0, n, "file://") {
        proof {
            reveal_strlit("file://");
        }
        return file_source(input, &v);
    }
    if range_starts_with(&v, 0, n, "https://") {
        proof {
            reveal_strlit("https://");
        }
        return http_source(input, &v, 8);
    }
    if range_starts_with(&v, 0, n, "http://") {
        proof {
            reveal_strlit("http://");
        }
        return http_source(input, &v, 7);
    }
    shorthand_source(input, &v)
}


/// A text that needs no trimming is its own source input.
proof fn lemma_input_untouched(x: Seq<char>)
    requires
        x.len() > 0,
        !crate::text::is_ws(x[0]),
        !crate::text::is_ws(x.last()),
        x.last() != '/',
    ensures
        source_input(x) == x,
{
    assert(crate::text::trim_start_ws(x) == x);
    assert(trim_ws(x) == x);
}

/// A valid shorthand is parsed as one.
#[verifier::rlimit(40)]
proof fn lemma_shorthand_branch(s: Seq<char>)
    requires
        parse_shorthand(s) is Ok,
        s.len() > 0,
        s[0] != '/',
        s.last() != '/',
    ensures
        parse_source_spec(s) == parse_shorthand(s),
{
    assert(shorthand_char(s[0]) && shorthand_char(s[s.len() - 1]));
    lemma_input_untouched(s);
    reveal_strlit("git@");
    reveal_strlit("file://");
    reveal_strlit("https://");
    reveal_strlit("http://");
    assert(!has_prefix(s, "git@"@)) by {
        if has_prefix(s, "git@"@) {
            assert(s[3] == s.subrange(0, 4)[3]);
            assert(shorthand_char(s[3]));
        }
    }
    assert(!has_prefix(s, "file://"@)) by {
        if has_prefix(s, "file://"@) {
            assert(s[4] == s.subrange(0, 7)[4]);
            assert(shorthand_char(s[4]));
        }
    }
    assert(!has_prefix(s, "https://"@)) by {
        if has_prefix(s, "https://"@) {
            assert(s[5] == s.subrange(0, 8)[5]);
            assert(shorthand_char(s[5]));
        }
    }
    assert(!has_prefix(s, "http://"@)) by {
        if has_prefix(s, "http://"@) {
            assert(s[4] == s.subrange(0, 7)[4]);
            assert(shorthand_char(s[4]));
        }
    }
}

/// `https://github.com/<s>` is parsed as an https URL.
#[verifier::rlimit(40)]
proof fn lemma_https_branch(s: Seq<char>)
    requires
        s.len() > 0,
        !crate::text::is_ws(s.last()),
        s.last() != '/',
    ensures
        parse_source_spec("https://github.com/"@ + s) == parse_http(
            "https://github.com/"@ + s,
            "github.com/"@ + s,
        ),
{
    reveal_strlit("https://github.com/");
    reveal_strlit("github.com/");
    reveal_strlit("git@");
    reveal_strlit("file://");
    reveal_strlit("https://");
    let u = "https://github.com/"@ + s;
    assert(u[0] == 'h');
    assert(u.last() == s.last());
    lemma_input_untouched(u);
    assert(!has_prefix(u, "git@"@)) by {
        assert(u.subrange(0, 4)[0] == 'h');
    }
    assert(!has_prefix(u, "file://"@)) by {
        assert(u.subrange(0, 7)[0] == 'h');
    }
    assert(u.subrange(0, 8) =~= "https://"@);
    assert(u.subrange(8, u.len() as int) =~= "github.com/"@ + s);
}

/// What the https URL of a shorthand parses to.
proof fn lemma_https_github(s: Seq<char>)
    requires
        parse_shorthand(s) is Ok,
        s.last() != '/',
        !crate::text::has_suffix(s, ".git"@),
    ensures
        parse_http("https://github.com/"@ + s, "github.com/"@ + s) == parse_shorthand(s),
{
    reveal_strlit("github.com/");
    reveal_strlit("github.com");
    reveal_strlit("github/");
    reveal_strlit("github");
    reveal_strlit("https://github.com/");
    reveal_strlit("https://");
    reveal_strlit("/");
    let rest = "github.com/"@ + s;
    crate::text::lemma_first_index(rest, '/', 10);
    assert(rest.subrange(0, 10) =~= "github.com"@);
    assert(rest.subrange(11, rest.len() as int) =~= s);
    assert(trim_end_char(s, '/') == s);
    assert(trim_end_pat(s, ".git"@) == s);
    assert("github"@ + "/"@ + s =~= "github/"@ + s);
    assert("https://"@ + "github.com"@ + "/"@ + s =~= "https://github.com/"@ + s);
}

/// A GitHub shorthand `owner/repo` and its URL
/// `https://github.com/owner/repo` name the same cache entry and the same
/// remote (a shorthand ending in `.git` excepted: the URL form drops it).
pub proof fn law_shorthand_matches_https(s: Seq<char>)
    requires
        parse_shorthand(s) is Ok,
        s.len() > 0,
        s[0] != '/',
        s.last() != '/',
        !crate::text::has_suffix(s, ".git"@),
    ensures
        parse_source_spec(s) == parse_shorthand(s),
        parse_source_spec("https://github.com/"@ + s) == parse_shorthand(s),
{
    lemma_shorthand_branch(s);
    assert(shorthand_char(s[s.len() - 1]));
    lemma_https_branch(s);
    lemma_https_github(s);
}


/// An expression starting with `git@` (and needing no trimming) is parsed
/// as an SSH source.
#[verifier::rlimit(40)]
proof fn lemma_ssh_branch(x: Seq<char>)
    requires
        x.len() > 4,
        x.subrange(0, 4) == "git@"@,
        !crate::text::is_ws(x.last()),
        x.last() != '/',
    ensures
        parse_source_spec(x) == parse_ssh(x),
{
    reveal_strlit("git@");
    assert(x[0] == x.subrange(0, 4)[0]);
    lemma_input_untouched(x);
}

/// What `git@<h>:<p>` parses to as an SSH source.
proof fn lemma_ssh_value(h: Seq<char>, p: Seq<char>)
    requires
        forall|k: int| 0 <= k < h.len() ==> #[trigger] h[k] != ':',
        !crate::text::has_suffix(p, ".git"@),
    ensures
        parse_ssh("git@"@ + h + ":"@ + p) == Ok::<SourceView, Seq<char>>(
            SourceView { key: short_host(h) + "/"@ + p, url: Some("git@"@ + h + ":"@ + p), local_path: None },
        ),
{
    reveal_strlit("git@");
    reveal_strlit(":");
    let x = "git@"@ + h + ":"@ + p;
    let rest = x.subrange(4, x.len() as int);
    assert(rest =~= h + ":"@ + p);
    crate::text::lemma_first_index(rest, ':', h.len() as int);
    assert(rest.subrange(0, h.len() as int) =~= h);
    assert(rest.subrange(h.len() as int + 1, rest.len() as int) =~= p);
    assert(trim_end_pat(p, ".git"@) == p);
}

/// An SSH source `git@<host>:<path>` is keyed by its host and path: the
/// host as it is written, but `github.com` shortened to `github`, then `/`
/// and the path. Its remote is the expression itself. A host other than
/// `github.com` thus always shows in the key.
pub proof fn law_ssh_key_keeps_host(h: Seq<char>, p: Seq<char>)
    requires
        h.len() > 0,
        p.len() > 0,
        forall|k: int| 0 <= k < h.len() ==> #[trigger] h[k] != ':',
        !crate::text::is_ws(p.last()),
        p.last() != '/',
        !crate::text::has_suffix(p, ".git"@),
    ensures
        parse_source_spec("git@"@ + h + ":"@ + p) matches Ok(v) && v.url == Some(
            "git@"@ + h + ":"@ + p,
        ) && v.local_path is None && v.key == (if h == "github.com"@ {
            "github"@
        } else {
            h
        }) + "/"@ + p,
        h != "github.com"@ ==> (parse_source_spec("git@"@ + h + ":"@ + p) matches Ok(v) && v.key
            .subrange(0, h.len() as int) == h),
{
    reveal_strlit("git@");
    let x = "git@"@ + h + ":"@ + p;
    assert(x.subrange(0, 4) =~= "git@"@);
    assert(x.last() == p.last());
    lemma_ssh_branch(x);
    lemma_ssh_value(h, p);
    let key = short_host(h) + "/"@ + p;
    if h != "github.com"@ {
        assert(key.subrange(0, h.len() as int) =~= h);
    }
}

/// An expression starting with `https://` (and needing no trimming) is
/// parsed as an https URL.
#[verifier::rlimit(40)]
proof fn lemma_https_branch_of(u: Seq<char>)
    requires
        u.len() > 8,
        u.subrange(0, 8) == "https://"@,
        !crate::text::is_ws(u.last()),
        u.last() != '/',
    ensures
        parse_source_spec(u) == parse_http(u, u.subrange(8, u.len() as int)),
{
    reveal_strlit("https://");
    reveal_strlit("git@");
    reveal_strlit("file://");
    assert(u[0] == u.subrange(0, 8)[0]);
    lemma_input_untouched(u);
    assert(!has_prefix(u, "git@"@)) by {
        assert(u.subrange(0, 4)[1] == u.subrange(0, 8)[1]);
    }
    assert(!has_prefix(u, "file://"@)) by {
        assert(u.subrange(0, 7)[0] == u.subrange(0, 8)[0]);
    }
}

/// What `https://<h>/<p>` parses to, for an `owner/repo` path.
proof fn lemma_https_value(u: Seq<char>, h: Seq<char>, p: Seq<char>)
    requires
        u == "https://"@ + h + "/"@ + p,
        h.len() > 0,
        forall|k: int| 0 <= k < h.len() ==> #[trigger] h[k] != '/',
        p.len() > 0,
        p.last() != '/',
        !crate::text::has_suffix(p, ".git"@),
        count_char(p, '/') == 1,
    ensures
        parse_http(u, u.subrange(8, u.len() as int)) matches Ok(w) && w.key == short_host(h) + "/"@ + p,
{
    reveal_strlit("https://");
    reveal_strlit("/");
    let rest = u.subrange(8, u.len() as int);
    assert(rest =~= h + "/"@ + p);
    crate::text::lemma_first_index(rest, '/', h.len() as int);
    assert(rest.subrange(0, h.len() as int) =~= h);
    assert(rest.subrange(h.len() as int + 1, rest.len() as int) =~= p);
    assert(trim_end_char(p, '/') == p);
    assert(trim_end_pat(p, ".git"@) == p);
}

/// An SSH source and the https URL of the same host and `owner/repo`
/// path name the same cache entry.
pub proof fn law_ssh_matches_https(h: Seq<char>, p: Seq<char>)
    requires
        h.len() > 0,
        p.len() > 0,
        forall|k: int| 0 <= k < h.len() ==> #[trigger] h[k] != ':' && h[k] != '/',
        !crate::text::is_ws(p.last()),
        p.last() != '/',
        !crate::text::has_suffix(p, ".git"@),
        count_char(p, '/') == 1,
    ensures
        parse_source_spec("git@"@ + h + ":"@ + p) matches Ok(v) && parse_source_spec(
            "https://"@ + h + "/"@ + p,
        ) matches Ok(w) && v.key == w.key,
{
    law_ssh_key_keeps_host(h, p);
    reveal_strlit("https://");
    let u = "https://"@ + h + "/"@ + p;
    assert(u.subrange(0, 8) =~= "https://"@);
    assert(u.last() == p.last());
    lemma_https_branch_of(u);
    lemma_https_value(u, h, p);
}

} // verus!
