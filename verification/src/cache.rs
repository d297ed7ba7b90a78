//! What scanning a cached source yields: the parsing of the minimal
//! `SKILL.md` frontmatter (`name` and `description`), the order of the
//! scanned skills, and the decision to reuse a cache.

use vstd::prelude::*;
use crate::text::{
    first_index, trim_ws, trim_start_either, trim_end_either, seq_lt, chars_of, find_first,
    trim_ws_at, trim_start_either_at, trim_end_either_at, range_eq, substring, str_order, str_eq,
    Order3, first_where, lemma_first_where, trim_start_pat, trim_start_lit_at,
};
use crate::source::opt_view;
use crate::paths::{normal_parts, path_parts};
use crate::text::views_of;
use crate::source::SourceSpec;
use crate::error::Error;

verus! {

/// A cached source: its directory, HEAD commit (empty for local sources)
/// and whether this call created it.
pub struct Cached {
    pub path: String,
    pub commit: String,
    pub fresh: bool,
}

/// A skill found in a cached source.
#[derive(Debug)]
pub struct SkillEntry {
    pub name: String,
    pub description: String,
    pub rel_path: String,
}

/// Model of a [`SkillEntry`].
pub struct SkillEntryV {
    pub name: Seq<char>,
    pub description: Seq<char>,
    pub rel_path: Seq<char>,
}

impl View for SkillEntry {
    type V = SkillEntryV;

    open spec fn view(&self) -> SkillEntryV {
        SkillEntryV { name: self.name@, description: self.description@, rel_path: self.rel_path@ }
    }
}

/// Views of a sequence of entries.
pub open spec fn entries_view(s: Seq<SkillEntry>) -> Seq<SkillEntryV> {
    s.map_values(|e: SkillEntry| e@)
}

/// The frontmatter delimiter line `---`.
pub open spec fn dashes() -> Seq<char> {
    seq!['-', '-', '-']
}

/// The key `name`.
pub open spec fn name_key() -> Seq<char> {
    seq!['n', 'a', 'm', 'e']
}

/// The key `description`.
pub open spec fn description_key() -> Seq<char> {
    seq!['d', 'e', 's', 'c', 'r', 'i', 'p', 't', 'i', 'o', 'n']
}

/// End of the first line of `s`: its first `\n`, or its end.
pub open spec fn line_end(s: Seq<char>) -> int {
    let i = first_index(s, '\n');
    if i < 0 {
        s.len() as int
    } else {
        i
    }
}

/// The first line of `s` as `str::lines` yields it: up to the first `\n`,
/// without a `\r` right before that `\n`.
pub open spec fn first_line(s: Seq<char>) -> Seq<char> {
    let k = line_end(s);
    if k < s.len() && k > 0 && s[k - 1] == '\r' {
        s.subrange(0, k - 1)
    } else {
        s.subrange(0, k)
    }
}

/// What follows the first line of `s` and its `\n`.
pub open spec fn after_line(s: Seq<char>) -> Seq<char> {
    let k = line_end(s);
    if k < s.len() {
        s.subrange(k + 1, s.len() as int)
    } else {
        Seq::empty()
    }
}

/// A frontmatter value: trimmed, surrounding `"` and `'` removed, trimmed again.
pub open spec fn clean_value(v: Seq<char>) -> Seq<char> {
    trim_ws(trim_end_either(trim_start_either(trim_ws(v), '"', '\''), '"', '\''))
}

/// The `(name, description)` after reading one frontmatter line: a line
/// `key: value` with a non-empty value sets `name` or `description`;
/// anything else changes nothing.
pub open spec fn apply_line(line: Seq<char>, name: Option<Seq<char>>, desc: Option<Seq<char>>) -> (
    Option<Seq<char>>,
    Option<Seq<char>>,
) {
    let c = first_index(line, ':');
    if c < 0 {
        (name, desc)
    } else {
        let key = trim_ws(line.subrange(0, c));
        let value = clean_value(line.subrange(c + 1, line.len() as int));
        if key == name_key() && value.len() > 0 {
            (Some(value), desc)
        } else if key == description_key() && value.len() > 0 {
            (name, Some(value))
        } else {
            (name, desc)
        }
    }
}

/// Reads the lines of `s` up to a closing `---` line: whether that line
/// comes, and the name and description set before it.
pub open spec fn body_scan(s: Seq<char>, name: Option<Seq<char>>, desc: Option<Seq<char>>) -> (
    bool,
    Option<Seq<char>>,
    Option<Seq<char>>,
)
    decreases s.len(),
{
    if s.len() == 0 {
        (false, name, desc)
    } else if trim_ws(first_line(s)) == dashes() {
        (true, name, desc)
    } else {
        let nd = apply_line(first_line(s), name, desc);
        body_scan(after_line(s), nd.0, nd.1)
    }
}

/// The `(name, description)` of a `SKILL.md`: its first line is `---`, a
/// later line `---` closes the frontmatter, and both keys were set with
/// non-empty values inside it; otherwise none.
pub open spec fn frontmatter(raw: Seq<char>) -> Option<(Seq<char>, Seq<char>)> {
    if raw.len() == 0 || trim_ws(first_line(raw)) != dashes() {
        None
    } else {
        let r = body_scan(after_line(raw), None, None);
        if r.0 && r.1 is Some && r.2 is Some {
            Some((r.1->0, r.2->0))
        } else {
            None
        }
    }
}

/// Bounds of the first line of `v[pos..]`: its end (before any `\r\n`)
/// and the start of the next line.
fn line_bounds(v: &Vec<char>, pos: usize) -> (r: (usize, usize))
    requires
        pos < v@.len(),
    ensures
        pos <= r.0 <= v@.len(),
        pos < r.1 <= v@.len(),
        v@.subrange(pos as int, r.0 as int) == first_line(v@.subrange(pos as int, v@.len() as int)),
        v@.subrange(r.1 as int, v@.len() as int) == after_line(
            v@.subrange(pos as int, v@.len() as int),
        ),
{
    let n = v.len();
    let ghost s = v@.subrange(pos as int, n as int);
    match find_first(v, pos, n, '\n') {
        Some(i) => {
            let k = pos + i;
            assert(line_end(s) == i);
            assert(s.subrange(i + 1, s.len() as int) =~= v@.subrange(k + 1, n as int));
            if i > 0 && v[k - 1] == '\r' {
                assert(s.subrange(0, i - 1) =~= v@.subrange(pos as int, k - 1));
                (k - 1, k + 1)
            } else {
                assert(s.subrange(0, i as int) =~= v@.subrange(pos as int, k as int));
                (k, k + 1)
            }
        },
        None => {
            assert(s.subrange(0, s.len() as int) =~= s);
            assert(v@.subrange(n as int, n as int) =~= Seq::<char>::empty());
            (n, n)
        },
    }
}

/// Whether `v[lo..hi]` is the delimiter line `---` once trimmed.
fn is_dashes_line(v: &Vec<char>, lo: usize, hi: usize) -> (r: bool)
    requires
        lo <= hi <= v@.len(),
    ensures
        r == (trim_ws(v@.subrange(lo as int, hi as int)) == dashes()),
{
    let (a, b) = trim_ws_at(v, lo, hi);
    proof {
        reveal_strlit("---");
        assert("---"@ =~= dashes());
    }
    range_eq(v, a, b, "---")
}

/// Reads one frontmatter line `v[lo..hi]` into `name` and `desc`.
fn read_line(
    raw: &str,
    v: &Vec<char>,
    lo: usize,
    hi: usize,
    name: &mut Option<String>,
    desc: &mut Option<String>,
)
    requires
        v@ == raw@,
        lo <= hi <= v@.len(),
    ensures
        (opt_view(*final(name)), opt_view(*final(desc))) == apply_line(
            v@.subrange(lo as int, hi as int),
            opt_view(*old(name)),
            opt_view(*old(desc)),
        ),
{
    let ghost line = v@.subrange(lo as int, hi as int);
    match find_first(v, lo, hi, ':') {
        None => {},
        Some(c) => {
            let (ka, kb) = trim_ws_at(v, lo, lo + c);
            let (a1, b1) = trim_ws_at(v, lo + c + 1, hi);
            let a2 = trim_start_either_at(v, a1, b1, '"', '\'');
            let b2 = trim_end_either_at(v, a2, b1, '"', '\'');
            let (a3, b3) = trim_ws_at(v, a2, b2);
            proof {
                assert(line.subrange(0, c as int) =~= v@.subrange(lo as int, lo + c));
                assert(line.subrange(c + 1, line.len() as int) =~= v@.subrange(
                    lo + c + 1,
                    hi as int,
                ));
                reveal_strlit("name");
                reveal_strlit("description");
                assert("name"@ =~= name_key());
                assert("description"@ =~= description_key());
            }
            if b3 > a3 {
                if range_eq(v, ka, kb, "name") {
                    *name = Some(substring(raw, a3, b3));
                } else if range_eq(v, ka, kb, "description") {
                    *desc = Some(substring(raw, a3, b3));
                }
            }
        },
    }
}

/// The `(name, description)` of the frontmatter of a `SKILL.md` text, or
/// `None` where it is missing, unclosed or lacks a non-empty key.
pub fn parse_frontmatter(raw: &str) -> (r: Option<(String, String)>)
    ensures
        match r {
            Some(p) => frontmatter(raw@) == Some((p.0@, p.1@)),
            None => frontmatter(raw@) is None,
        },
{
    let v = chars_of(raw);
    let n = v.len();
    if n == 0 {
        return None;
    }
    let (le, next) = line_bounds(&v, 0);
    assert(v@.subrange(0, n as int) =~= raw@);
    if !is_dashes_line(&v, 0, le) {
        return None;
    }
    let ghost target = body_scan(after_line(raw@), None, None);
    let mut name: Option<String> = None;
    let mut desc: Option<String> = None;
    let mut closed = false;
    let mut pos = next;
    while pos < n
        invariant
            v@ == raw@,
            n == v@.len(),
            pos <= n,
            closed ==> pos == n && target == (true, opt_view(name), opt_view(desc)),
            !closed ==> body_scan(v@.subrange(pos as int, n as int), opt_view(name), opt_view(desc))
                == target,
        decreases n - pos,
    {
        let (le, nx) = line_bounds(&v, pos);
        let ghost s = v@.subrange(pos as int, n as int);
        assert(s.len() > 0);
        if is_dashes_line(&v, pos, le) {
            assert(body_scan(s, opt_view(name), opt_view(desc)) == (true, opt_view(name), opt_view(desc)));
            closed = true;
            pos = n;
        } else {
            read_line(raw, &v, pos, le, &mut name, &mut desc);
            pos = nx;
        }
    }
    if !closed {
        assert(v@.subrange(pos as int, n as int).len() == 0);
    }
    match (closed, name, desc) {
        (true, Some(nm), Some(d)) => Some((nm, d)),
        _ => None,
    }
}

/// The skill described by the `SKILL.md` text `raw`, found at `rel_path`,
/// or `None` where its frontmatter is invalid.
pub fn entry_from_text(raw: &str, rel_path: String) -> (r: Option<SkillEntry>)
    ensures
        match r {
            Some(e) => frontmatter(raw@) == Some((e.name@, e.description@)) && e.rel_path@
                == rel_path@,
            None => frontmatter(raw@) is None,
        },
{
    match parse_frontmatter(raw) {
        Some((name, description)) => Some(SkillEntry { name, description, rel_path }),
        None => None,
    }
}

/// Lexicographic order of component lists, components in `str` order.
pub open spec fn parts_lt(a: Seq<Seq<char>>, b: Seq<Seq<char>>) -> bool
    decreases a.len(),
{
    if a.len() == 0 {
        b.len() > 0
    } else if b.len() == 0 {
        false
    } else if seq_lt(a[0], b[0]) {
        true
    } else if a[0] == b[0] {
        parts_lt(a.drop_first(), b.drop_first())
    } else {
        false
    }
}

/// `x` sorts strictly before `y`: by name, then by relative path compared
/// component by component (the order of `Path`).
pub open spec fn entry_before(x: SkillEntryV, y: SkillEntryV) -> bool {
    seq_lt(x.name, y.name) || (x.name == y.name && parts_lt(
        normal_parts(x.rel_path),
        normal_parts(y.rel_path),
    ))
}

/// Where `x` goes in sorted `t`: after every entry not above it.
pub open spec fn entry_ins_point(t: Seq<SkillEntryV>, x: SkillEntryV) -> int {
    let p = first_where(t.len() as int, |i: int| entry_before(x, t[i]));
    if p < 0 {
        t.len() as int
    } else {
        p
    }
}

/// Stable sort by name, then path (what the scan's `sort_by` does).
pub open spec fn sort_entries_spec(s: Seq<SkillEntryV>) -> Seq<SkillEntryV>
    decreases s.len(),
{
    if s.len() == 0 {
        s
    } else {
        let t = sort_entries_spec(s.drop_last());
        t.insert(entry_ins_point(t, s.last()), s.last())
    }
}

/// Whether the component list `a` sorts strictly before `b`.
fn parts_before(a: &Vec<String>, b: &Vec<String>) -> (r: bool)
    ensures
        r == parts_lt(views_of(a@), views_of(b@)),
{
    let ghost sa = views_of(a@);
    let ghost sb = views_of(b@);
    let na = a.len();
    let nb = b.len();
    let mut i: usize = 0;
    assert(sa.skip(0) =~= sa);
    assert(sb.skip(0) =~= sb);
    while i < na && i < nb && str_eq(a[i].as_str(), b[i].as_str())
        invariant
            sa == views_of(a@),
            sb == views_of(b@),
            na == a@.len(),
            nb == b@.len(),
            i <= na,
            i <= nb,
            parts_lt(sa, sb) == parts_lt(sa.skip(i as int), sb.skip(i as int)),
        decreases na - i,
    {
        assert(sa.skip(i as int).drop_first() =~= sa.skip(i + 1));
        assert(sb.skip(i as int).drop_first() =~= sb.skip(i + 1));
        assert(sa.skip(i as int)[0] == sb.skip(i as int)[0]);
        proof {
            crate::text::lemma_seq_lt_irrefl(sa.skip(i as int)[0]);
        }
        i = i + 1;
    }
    if i == na {
        i < nb
    } else if i == nb {
        false
    } else {
        assert(sa.skip(i as int)[0] == a@[i as int]@);
        assert(sb.skip(i as int)[0] == b@[i as int]@);
        str_order(a[i].as_str(), b[i].as_str()) == Order3::Less
    }
}

/// Whether `x` sorts strictly before `y`.
fn entry_is_before(x: &SkillEntry, y: &SkillEntry) -> (r: bool)
    ensures
        r == entry_before(x@, y@),
{
    match str_order(x.name.as_str(), y.name.as_str()) {
        Order3::Less => true,
        Order3::Equal => parts_before(&path_parts(x.rel_path.as_str()), &path_parts(y.rel_path.as_str())),
        Order3::Greater => false,
    }
}

/// A copy of an entry.
fn copy_entry(e: &SkillEntry) -> (r: SkillEntry)
    ensures
        r@ == e@,
{
    SkillEntry {
        name: e.name.clone(),
        description: e.description.clone(),
        rel_path: e.rel_path.clone(),
    }
}

/// Position where `x` goes in sorted `t`.
fn find_entry_ins_point(t: &Vec<SkillEntry>, x: &SkillEntry) -> (r: usize)
    ensures
        r == entry_ins_point(entries_view(t@), x@),
{
    let ghost s = entries_view(t@);
    let len = t.len();
    let ghost p = |i: int| entry_before(x@, s[i]);
    let mut i: usize = 0;
    while i < len
        invariant
            len == t@.len(),
            s == entries_view(t@),
            i <= len,
            p == (|i: int| entry_before(x@, s[i])),
            forall|j: int| 0 <= j < i ==> !#[trigger] p(j),
        decreases len - i,
    {
        if entry_is_before(x, &t[i]) {
            proof {
                lemma_first_where(len as int, p, i as int);
            }
            return i;
        }
        i = i + 1;
    }
    proof {
        lemma_first_where(len as int, p, -1);
    }
    len
}

/// The scanned skills sorted by name, then relative path; entries with
/// equal keys keep their order.
pub fn sort_entries(v: &Vec<SkillEntry>) -> (r: Vec<SkillEntry>)
    ensures
        entries_view(r@) == sort_entries_spec(entries_view(v@)),
{
    let ghost s = entries_view(v@);
    let n = v.len();
    let mut out: Vec<SkillEntry> = Vec::new();
    let mut k: usize = 0;
    assert(s.subrange(0, 0) =~= Seq::<SkillEntryV>::empty());
    while k < n
        invariant
            n == v@.len(),
            s == entries_view(v@),
            k <= n,
            entries_view(out@) == sort_entries_spec(s.subrange(0, k as int)),
        decreases n - k,
    {
        let x = copy_entry(&v[k]);
        let p = find_entry_ins_point(&out, &x);
        let ghost before = entries_view(out@);
        assert(s.subrange(0, k + 1).drop_last() =~= s.subrange(0, k as int));
        assert(s.subrange(0, k + 1).last() == x@);
        out.insert(p, x);
        assert(entries_view(out@) =~= before.insert(p as int, x@));
        k = k + 1;
    }
    assert(s.subrange(0, n as int) =~= s);
    out
}

/// What to do with the cache directory of a source.
#[derive(Debug)]
pub enum CacheStep {
    /// Reuse the cache as it is; it is at this commit (empty for a local source).
    Reuse(String),
    /// Clone this URL into a fresh cache.
    Clone(String),
    /// Copy this local directory into a fresh cache.
    Copy(String),
}

/// The step [`plan_cache`] takes: a remote source reuses a cache whose
/// HEAD (`head`, read from an existing git checkout) is non-blank, else
/// clones; a local source reuses a non-empty cache directory, else copies;
/// a source with both or neither of URL and path has nothing to cache.
pub open spec fn cache_step(
    url: Option<Seq<char>>,
    local: Option<Seq<char>>,
    head: Option<Seq<char>>,
    nonempty: bool,
) -> Option<(int, Seq<char>)> {
    match (url, local) {
        (Some(u), None) => match head {
            Some(c) if trim_ws(c).len() > 0 => Some((0, c)),
            _ => Some((1, u)),
        },
        (None, Some(l)) => if nonempty {
            Some((0, Seq::empty()))
        } else {
            Some((2, l))
        },
        _ => None,
    }
}

/// The number [`cache_step`] gives each step.
pub open spec fn step_code(s: CacheStep) -> (int, Seq<char>) {
    match s {
        CacheStep::Reuse(c) => (0, c@),
        CacheStep::Clone(u) => (1, u@),
        CacheStep::Copy(l) => (2, l@),
    }
}

/// Decide whether the cache of `spec` can be reused. `head` is the HEAD
/// commit of the cache directory where it is a git checkout (read only for
/// remote sources), `nonempty` whether it is a non-empty directory.
pub fn plan_cache(spec: &SourceSpec, head: Option<String>, nonempty: bool) -> (r: Result<
    CacheStep,
    Error,
>)
    ensures
        match r {
            Ok(s) => cache_step(opt_view(spec.url), opt_view(spec.local_path), opt_view(head), nonempty)
                == Some(step_code(s)),
            Err(e) => cache_step(opt_view(spec.url), opt_view(spec.local_path), opt_view(head), nonempty)
                is None && (e matches Error::Msg(m) && m@ == "source 缺少 url 或本地路径"@),
        },
{
    match (&spec.url, &spec.local_path) {
        (Some(u), None) => match head {
            Some(c) => {
                let v = chars_of(c.as_str());
                let (a, b) = trim_ws_at(&v, 0, v.len());
                assert(v@.subrange(0, v@.len() as int) =~= c@);
                if a < b {
                    Ok(CacheStep::Reuse(c))
                } else {
                    Ok(CacheStep::Clone(u.clone()))
                }
            },
            None => Ok(CacheStep::Clone(u.clone())),
        },
        (None, Some(l)) => if nonempty {
            Ok(CacheStep::Reuse(String::new()))
        } else {
            Ok(CacheStep::Copy(l.clone()))
        },
        _ => Err(Error::Msg(String::from_str("source 缺少 url 或本地路径"))),
    }
}


/// The cache step when bookmarking: a local source is copied afresh, so
/// that bookmarking a folder again takes its skills as they are now; a
/// remote source is planned as [`plan_cache`] plans it.
pub fn plan_bookmark_cache(spec: &SourceSpec, head: Option<String>, nonempty: bool) -> (r: Result<
    CacheStep,
    Error,
>)
    ensures
        spec.url is None && spec.local_path is Some ==> (r matches Ok(CacheStep::Copy(l)) && l@
            == spec.local_path->0@),
        !(spec.url is None && spec.local_path is Some) ==> match r {
            Ok(s) => cache_step(opt_view(spec.url), opt_view(spec.local_path), opt_view(head), nonempty)
                == Some(step_code(s)),
            Err(e) => cache_step(opt_view(spec.url), opt_view(spec.local_path), opt_view(head), nonempty)
                is None && (e matches Error::Msg(m) && m@ == "source 缺少 url 或本地路径"@),
        },
{
    match (&spec.url, &spec.local_path) {
        (None, Some(l)) => Ok(CacheStep::Copy(l.clone())),
        _ => plan_cache(spec, head, nonempty),
    }
}

/// The remote-tracking ref of the local `branch` on `remote`:
/// `refs/remotes/<remote>/<branch without its leading refs/heads/>`.
pub fn upstream_ref(remote: &str, branch: &str) -> (r: String)
    ensures
        r@ == "refs/remotes/"@ + remote@ + "/"@ + trim_start_pat(branch@, "refs/heads/"@),
{
    let v = chars_of(branch);
    let n = v.len();
    let a = trim_start_lit_at(&v, 0, n, "refs/heads/");
    assert(v@.subrange(0, n as int) =~= branch@);
    let short = substring(branch, a, n);
    let head = crate::text::concat3("refs/remotes/", remote, "/");
    crate::text::concat2(head.as_str(), short.as_str())
}

/// After a fetch: the new commit when the tracking ref moved away from
/// `before`, nothing when it still points there.
pub fn moved_to(before: &str, now: String) -> (r: Option<String>)
    ensures
        r == (if now@ == before@ {
            None
        } else {
            Some(now)
        }),
{
    if str_eq(now.as_str(), before) {
        None
    } else {
        Some(now)
    }
}

proof fn lemma_parts_irrefl(a: Seq<Seq<char>>)
    ensures
        !parts_lt(a, a),
    decreases a.len(),
{
    if a.len() > 0 {
        crate::text::lemma_seq_lt_irrefl(a[0]);
        lemma_parts_irrefl(a.drop_first());
    }
}

proof fn lemma_parts_trans(a: Seq<Seq<char>>, b: Seq<Seq<char>>, c: Seq<Seq<char>>)
    requires
        parts_lt(a, b),
        parts_lt(b, c),
    ensures
        parts_lt(a, c),
    decreases a.len(),
{
    if a.len() > 0 {
        if seq_lt(a[0], b[0]) {
            if seq_lt(b[0], c[0]) {
                crate::text::lemma_seq_lt_trans(a[0], b[0], c[0]);
            }
        } else if seq_lt(b[0], c[0]) {
        } else {
            lemma_parts_trans(a.drop_first(), b.drop_first(), c.drop_first());
        }
    }
}

proof fn lemma_parts_total(a: Seq<Seq<char>>, b: Seq<Seq<char>>)
    ensures
        parts_lt(a, b) || parts_lt(b, a) || a == b,
    decreases a.len(),
{
    if a.len() > 0 && b.len() > 0 {
        crate::text::lemma_seq_lt_total(a[0], b[0]);
        if a[0] == b[0] {
            lemma_parts_total(a.drop_first(), b.drop_first());
            if a.drop_first() == b.drop_first() {
                assert(a =~= seq![a[0]] + a.drop_first());
                assert(b =~= seq![b[0]] + b.drop_first());
            }
        } else {
            crate::text::lemma_seq_lt_asym(a[0], b[0]);
        }
    } else if a.len() == 0 && b.len() == 0 {
        assert(a =~= b);
    }
}

/// Two entries with the same sort key: same name and path components.
pub open spec fn same_key(x: SkillEntryV, y: SkillEntryV) -> bool {
    x.name == y.name && normal_parts(x.rel_path) == normal_parts(y.rel_path)
}

proof fn lemma_before_order(x: SkillEntryV, y: SkillEntryV, z: SkillEntryV)
    ensures
        !entry_before(x, x),
        entry_before(x, y) || entry_before(y, x) || same_key(x, y),
        entry_before(x, y) && entry_before(y, z) ==> entry_before(x, z),
        !(entry_before(x, y) && entry_before(y, x)),
{
    crate::text::lemma_seq_lt_irrefl(x.name);
    lemma_parts_irrefl(normal_parts(x.rel_path));
    crate::text::lemma_seq_lt_total(x.name, y.name);
    lemma_parts_total(normal_parts(x.rel_path), normal_parts(y.rel_path));
    if entry_before(x, y) && entry_before(y, z) {
        if seq_lt(x.name, y.name) && seq_lt(y.name, z.name) {
            crate::text::lemma_seq_lt_trans(x.name, y.name, z.name);
        } else if x.name == y.name && y.name == z.name {
            lemma_parts_trans(normal_parts(x.rel_path), normal_parts(y.rel_path), normal_parts(z.rel_path));
        }
    }
    if entry_before(x, y) && entry_before(y, x) {
        crate::text::lemma_seq_lt_asym(x.name, y.name);
        if x.name == y.name {
            lemma_parts_trans(normal_parts(x.rel_path), normal_parts(y.rel_path), normal_parts(x.rel_path));
            lemma_parts_irrefl(normal_parts(x.rel_path));
        }
    }
}

/// The scanned skills come out ordered: no entry sorts before an earlier
/// one (by name, then path), and there are as many as were scanned.
pub proof fn law_scan_order(s: Seq<SkillEntryV>)
    ensures
        forall|i: int, j: int|
            0 <= i < j < sort_entries_spec(s).len() ==> !entry_before(
                #[trigger] sort_entries_spec(s)[j],
                #[trigger] sort_entries_spec(s)[i],
            ),
        sort_entries_spec(s).len() == s.len(),
    decreases s.len(),
{
    if s.len() > 0 {
        let t = sort_entries_spec(s.drop_last());
        law_scan_order(s.drop_last());
        let x = s.last();
        let p = entry_ins_point(t, x);
        let pr = |i: int| entry_before(x, t[i]);
        let f = first_where(t.len() as int, pr);
        if f >= 0 {
            assert(0 <= f < t.len() && pr(f) && (forall|j: int| 0 <= j < f ==> !#[trigger] pr(j))) by {
                let w = choose|w: int| 0 <= w < t.len() as int && #[trigger] pr(w) && (forall|j: int|
                    0 <= j < w ==> !#[trigger] pr(j));
            }
        }
        assert forall|i: int| 0 <= i < p implies !entry_before(x, #[trigger] t[i]) by {
            if f < 0 && pr(i) {
                crate::text::lemma_first_where_exists(t.len() as int, pr, i);
            }
            if f >= 0 {
                assert(!pr(i));
            }
        }
        assert forall|i: int| p <= i < t.len() implies entry_before(x, #[trigger] t[i]) by {
            if i > p {
                lemma_before_order(t[p], t[i], x);
                lemma_before_order(x, t[p], t[i]);
            }
        }
        let u = t.insert(p, x);
        assert(u == sort_entries_spec(s));
        assert forall|i: int, j: int| 0 <= i < j < u.len() implies !entry_before(#[trigger] u[j], #[trigger] u[i]) by {
            if j < p {
                assert(u[i] == t[i] && u[j] == t[j]);
            } else if j == p {
                assert(u[i] == t[i] && u[j] == x);
            } else if i == p {
                assert(u[i] == x && u[j] == t[j - 1]);
                lemma_before_order(x, t[j - 1], x);
            } else if i < p {
                assert(u[i] == t[i] && u[j] == t[j - 1]);
                lemma_before_order(x, t[i], t[j - 1]);
                lemma_before_order(t[j - 1], t[i], x);
                lemma_before_order(t[i], x, t[j - 1]);
            } else {
                assert(u[i] == t[i - 1] && u[j] == t[j - 1]);
            }
        }
    }
}


/// A source already cached is not fetched again: a remote source whose
/// cache has a HEAD is reused at that commit, a local source whose cache
/// is a non-empty directory is reused; otherwise it is cloned or copied.
pub proof fn law_cache_is_reused(url: Seq<char>, local: Seq<char>, head: Seq<char>)
    ensures
        trim_ws(head).len() > 0 ==> cache_step(Some(url), None, Some(head), false) == Some(
            (0int, head),
        ),
        cache_step(Some(url), None, None, true) == Some((1int, url)),
        cache_step(None, Some(local), None, true) == Some((0int, Seq::<char>::empty())),
        cache_step(None, Some(local), Some(head), false) == Some((2int, local)),
{
}

} // verus!
