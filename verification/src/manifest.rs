//! The `.skills-manifest` of a copy install: content digests of its files
//! and the detection of local modifications against that baseline.

use vstd::prelude::*;
use sha2::Digest;
use crate::error::Error;
use crate::paths::{is_absolute, leading_curdir, normal_parts, is_absolute_str,
    has_leading_curdir, path_parts};
use crate::strmap::{StrMap, has_key, insert_spec, keys_sorted};
use crate::text::{concat2, concat3, range_eq, chars_of, seq_lt, sort_strs, sort_strings, views_of};

verus! {

/// File name of the ownership and baseline file at the root of a copy.
pub const COPY_MANIFEST: &'static str = ".skills-manifest";

/// The lowercase hex SHA-256 digest of `data`.
pub uninterp spec fn sha256_hex_of(data: Seq<u8>) -> Seq<char>;

/// `sha2::Sha256::digest(data)` formatted with `{:x}`: the digest's 32
/// bytes as 64 lowercase hex digits. The digest itself is left unstated
/// and named by [`sha256_hex_of`].
#[verifier::external_body]
fn sha256_hex(data: &[u8]) -> (r: String)
    ensures
        r@ == sha256_hex_of(data@),
        r@.len() == 64,
{
    format!("{:x}", sha2::Sha256::digest(data))
}

/// The digest recorded for a file with these contents.
pub fn content_digest(data: &Vec<u8>) -> (r: String)
    ensures
        r@ == sha256_hex_of(data@),
        r@.len() == 64,
{
    sha256_hex(data.as_slice())
}

/// The component `..`.
pub open spec fn dotdot() -> Seq<char> {
    seq!['.', '.']
}

/// A relative path made of normal components only: not absolute, no
/// leading `.`, no `..`.
pub open spec fn checked_rel(p: Seq<char>) -> bool {
    &&& !is_absolute(p)
    &&& !leading_curdir(p)
    &&& forall|i: int| 0 <= i < normal_parts(p).len() ==> normal_parts(p)[i] != dotdot()
}

/// Whether `rel` is a relative path of normal components only.
pub fn checked_relative_path(rel: &str) -> (r: bool)
    ensures
        r == checked_rel(rel@),
{
    if is_absolute_str(rel) || has_leading_curdir(rel) {
        return false;
    }
    let parts = path_parts(rel);
    let ghost ps = views_of(parts@);
    let n = parts.len();
    let mut i: usize = 0;
    while i < n
        invariant
            n == parts@.len(),
            ps == views_of(parts@),
            ps == normal_parts(rel@),
            i <= n,
            forall|j: int| 0 <= j < i ==> ps[j] != dotdot(),
        decreases n - i,
    {
        proof {
            reveal_strlit("..");
        }
        let v = chars_of(parts[i].as_str());
        let m = v.len();
        assert(v@.subrange(0, m as int) =~= v@);
        if range_eq(&v, 0, m, "..") {
            assert(ps[i as int] == dotdot());
            return false;
        }
        assert(".."@ =~= dotdot());
        i = i + 1;
    }
    true
}

/// Components joined with `/`.
pub open spec fn join_slash(ps: Seq<Seq<char>>) -> Seq<char>
    decreases ps.len(),
{
    if ps.len() == 0 {
        Seq::empty()
    } else if ps.len() == 1 {
        ps[0]
    } else {
        join_slash(ps.drop_last()) + seq!['/'] + ps.last()
    }
}

/// The manifest key of a file at relative path `rel` inside a copy: its
/// components joined with `/`; a component other than a normal one is an
/// error.
pub fn forward_slash_relative(rel: &str) -> (r: Result<String, Error>)
    ensures
        match r {
            Ok(s) => checked_rel(rel@) && s@ == join_slash(normal_parts(rel@)),
            Err(e) => !checked_rel(rel@) && (e matches Error::Msg(m) && m@ == "副本内含非法路径组件: "@
                + rel@),
        },
{
    if !checked_relative_path(rel) {
        return Err(Error::Msg(concat2("副本内含非法路径组件: ", rel)));
    }
    let parts = path_parts(rel);
    let ghost ps = views_of(parts@);
    let n = parts.len();
    let mut out = String::new();
    let mut i: usize = 0;
    while i < n
        invariant
            n == parts@.len(),
            ps == views_of(parts@),
            i <= n,
            out@ == join_slash(ps.subrange(0, i as int)),
        decreases n - i,
    {
        let ghost prev = ps.subrange(0, i as int);
        assert(ps.subrange(0, i + 1).drop_last() =~= prev);
        if i == 0 {
            out = parts[i].clone();
            assert(ps.subrange(0, 1) =~= seq![ps[0]]);
        } else {
            proof {
                reveal_strlit("/");
            }
            out = concat3(out.as_str(), "/", parts[i].as_str());
            assert("/"@ =~= seq!['/']);
        }
        i = i + 1;
    }
    assert(ps.subrange(0, n as int) =~= ps);
    Ok(out)
}

/// What was found of the manifest of a copy.
pub enum Baseline {
    /// No manifest file.
    Absent,
    /// A manifest that does not parse or has no `files` table.
    NoFiles,
    /// The `files` table: relative path to recorded digest, in key order.
    Files(StrMap<String>),
}

/// The `files` table of a manifest's JSON text: its (path, digest) pairs,
/// or nothing when the text is not JSON or has no such table of strings.
pub uninterp spec fn manifest_files_of(text: Seq<char>) -> Option<Seq<(Seq<char>, Seq<char>)>>;

/// Views of (path, digest) pairs.
pub open spec fn pair_views(s: Seq<(String, String)>) -> Seq<(Seq<char>, Seq<char>)> {
    s.map_values(|p: (String, String)| (p.0@, p.1@))
}

/// A digest table with its digests viewed.
pub open spec fn digests_view(s: Seq<(Seq<char>, String)>) -> Seq<(Seq<char>, Seq<char>)> {
    s.map_values(|p: (Seq<char>, String)| (p.0, p.1@))
}

/// `serde_json::from_str` of `text` into a JSON value, its member `files`,
/// and `serde_json::from_value` of that into a `BTreeMap<String, String>`,
/// whose entries are handed out in key order (a `BTreeMap` iterates sorted
/// by key, and `String`s order by their characters). The parse itself is
/// left unstated and named by [`manifest_files_of`].
#[verifier::external_body]
fn manifest_files(text: &str) -> (r: Option<Vec<(String, String)>>)
    ensures
        match r {
            Some(v) => manifest_files_of(text@) == Some(pair_views(v@)) && keys_sorted(pair_views(v@)),
            None => manifest_files_of(text@) is None,
        },
{
    let body = serde_json::from_str::<serde_json::Value>(text).ok()?;
    let files = body.get("files")?.clone();
    let map = serde_json::from_value::<std::collections::BTreeMap<String, String>>(files).ok()?;
    Some(map.into_iter().collect())
}

/// The baseline of a copy from its manifest's text (`None`: no manifest
/// file): absent, without a `files` table (or not JSON), or that table.
pub fn baseline_of(text: Option<&str>) -> (r: Baseline)
    ensures
        match text {
            None => r is Absent,
            Some(t) => match manifest_files_of(t@) {
                None => r is NoFiles,
                Some(e) => r matches Baseline::Files(m) && m.wf() && digests_view(m@) == e,
            },
        },
{
    let t = match text {
        None => {
            return Baseline::Absent;
        },
        Some(t) => t,
    };
    let v = match manifest_files(t) {
        None => {
            return Baseline::NoFiles;
        },
        Some(v) => v,
    };
    let ghost e = pair_views(v@);
    let n = v.len();
    let mut m: StrMap<String> = StrMap::new();
    let mut i: usize = 0;
    while i < n
        invariant
            n == v@.len(),
            e == pair_views(v@),
            keys_sorted(e),
            i <= n,
            m.wf(),
            digests_view(m@) == e.subrange(0, i as int),
        decreases n - i,
    {
        let k = v[i].0.clone();
        let d = v[i].1.clone();
        let ghost before = m@;
        proof {
            assert(e[i as int] == (k@, d@));
            assert(digests_view(before).len() == before.len());
            assert(before.len() == i);
            assert forall|j: int| 0 <= j < before.len() implies seq_lt(#[trigger] before[j].0, k@) by {
                assert(digests_view(before)[j] == e.subrange(0, i as int)[j]);
                assert(e.subrange(0, i as int)[j] == e[j]);
                assert(seq_lt(e[j].0, e[i as int].0));
            }
            assert(!has_key(before, k@)) by {
                if has_key(before, k@) {
                    let j = choose|j: int| 0 <= j < before.len() && #[trigger] before[j].0 == k@;
                    assert(seq_lt(before[j].0, k@));
                    crate::text::lemma_seq_lt_irrefl(k@);
                }
            }
            crate::strmap::lemma_insert_pos(before, k@, before.len() as int);
            assert(insert_spec(before, k@, d) =~= before.push((k@, d)));
        }
        m.insert(k, d);
        proof {
            assert(digests_view(m@) =~= e.subrange(0, i + 1));
        }
        i = i + 1;
    }
    assert(e.subrange(0, n as int) =~= e);
    Baseline::Files(m)
}

/// Views of optional file contents.
pub open spec fn contents_view(c: Seq<Option<Vec<u8>>>) -> Seq<Option<Seq<u8>>> {
    c.map_values(
        |o: Option<Vec<u8>>|
            match o {
                Some(v) => Some(v@),
                None => None,
            },
    )
}

/// The line for one baseline entry, if it diverges: an illegal path, a
/// missing file (`None`), or contents whose digest differs.
pub open spec fn entry_line(rel: Seq<char>, expected: Seq<char>, content: Option<Seq<u8>>) -> Option<
    Seq<char>,
> {
    if !checked_rel(rel) {
        Some("基线条目含非法路径: "@ + rel)
    } else {
        match content {
            None => Some("文件缺失: "@ + rel),
            Some(b) => if sha256_hex_of(b) != expected {
                Some("内容被修改: "@ + rel)
            } else {
                None
            },
        }
    }
}

/// Lines for the first `n` baseline entries, in order.
pub open spec fn baseline_lines(
    entries: Seq<(Seq<char>, String)>,
    contents: Seq<Option<Seq<u8>>>,
    n: nat,
) -> Seq<Seq<char>>
    decreases n,
{
    if n == 0 {
        Seq::empty()
    } else {
        let prev = baseline_lines(entries, contents, (n - 1) as nat);
        match entry_line(entries[n - 1].0, entries[n - 1].1@, contents[n - 1]) {
            Some(l) => prev.push(l),
            None => prev,
        }
    }
}

/// The files of the copy that the baseline does not list, in their order.
pub open spec fn extras_of(entries: Seq<(Seq<char>, String)>, files: Seq<Seq<char>>) -> Seq<
    Seq<char>,
>
    decreases files.len(),
{
    if files.len() == 0 {
        Seq::empty()
    } else {
        let p = extras_of(entries, files.drop_last());
        if has_key(entries, files.last()) {
            p
        } else {
            p.push(files.last())
        }
    }
}

/// The line reporting a file added inside the copy.
pub open spec fn added_line(rel: Seq<char>) -> Seq<char> {
    "副本内新增: "@ + rel + "（更新后将被删除）"@
}

/// The added-file lines for `s`, in order.
pub open spec fn added_lines(s: Seq<Seq<char>>) -> Seq<Seq<char>>
    decreases s.len(),
{
    if s.len() == 0 {
        Seq::empty()
    } else {
        added_lines(s.drop_last()).push(added_line(s.last()))
    }
}

/// Every divergence of a copy from its manifest, one human-readable line
/// each; empty for a clean copy. `contents[i]` is what the file of the
/// `i`-th baseline entry holds (`None`: missing); `files` lists the
/// relative paths of all files in the copy but the manifest.
pub open spec fn modification_lines(
    baseline: Baseline,
    contents: Seq<Option<Seq<u8>>>,
    files: Seq<Seq<char>>,
) -> Seq<Seq<char>> {
    match baseline {
        Baseline::Absent => seq!["缺少 .skills-manifest：无校验基线（旧版安装或非本工具副本）"@],
        Baseline::NoFiles => seq!["manifest 无校验基线（旧版安装或文件损坏）；本次确认更新后将写入基线"@],
        Baseline::Files(m) => baseline_lines(m@, contents, m@.len()) + added_lines(
            sort_strs(extras_of(m@, files)),
        ),
    }
}

/// The divergences of a copy from its manifest baseline (see
/// [`modification_lines`]).
pub fn local_modifications(
    baseline: &Baseline,
    contents: &Vec<Option<Vec<u8>>>,
    files: &Vec<String>,
) -> (r: Vec<String>)
    requires
        baseline matches Baseline::Files(m) ==> contents@.len() == m@.len(),
    ensures
        views_of(r@) == modification_lines(*baseline, contents_view(contents@), views_of(files@)),
{
    match baseline {
        Baseline::Absent => {
            let mut r = Vec::new();
            r.push(String::from_str("缺少 .skills-manifest：无校验基线（旧版安装或非本工具副本）"));
            assert(views_of(r@) =~= seq!["缺少 .skills-manifest：无校验基线（旧版安装或非本工具副本）"@]);
            r
        },
        Baseline::NoFiles => {
            let mut r = Vec::new();
            r.push(String::from_str("manifest 无校验基线（旧版安装或文件损坏）；本次确认更新后将写入基线"));
            assert(views_of(r@) =~= seq!["manifest 无校验基线（旧版安装或文件损坏）；本次确认更新后将写入基线"@]);
            r
        },
        Baseline::Files(m) => {
            let ghost cv = contents_view(contents@);
            let n = m.len();
            let mut lines: Vec<String> = Vec::new();
            let mut i: usize = 0;
            while i < n
                invariant
                    n == m@.len(),
                    contents@.len() == n,
                    cv == contents_view(contents@),
                    i <= n,
                    views_of(lines@) == baseline_lines(m@, cv, i as nat),
                decreases n - i,
            {
                let rel = m.key_at(i);
                let expected = m.value_at(i);
                let ghost before = views_of(lines@);
                if !checked_relative_path(rel.as_str()) {
                    lines.push(concat2("基线条目含非法路径: ", rel.as_str()));
                } else {
                    match &contents[i] {
                        None => {
                            lines.push(concat2("文件缺失: ", rel.as_str()));
                        },
                        Some(bytes) => {
                            let d = content_digest(bytes);
                            if !crate::text::str_eq(d.as_str(), expected.as_str()) {
                                lines.push(concat2("内容被修改: ", rel.as_str()));
                            }
                        },
                    }
                }
                assert(views_of(lines@) =~= baseline_lines(m@, cv, (i + 1) as nat));
                i = i + 1;
            }
            let ghost fv = views_of(files@);
            let nf = files.len();
            let mut extras: Vec<String> = Vec::new();
            let mut k: usize = 0;
            assert(fv.subrange(0, 0) =~= Seq::<Seq<char>>::empty());
            while k < nf
                invariant
                    nf == files@.len(),
                    fv == views_of(files@),
                    k <= nf,
                    views_of(extras@) == extras_of(m@, fv.subrange(0, k as int)),
                decreases nf - k,
            {
                assert(fv.subrange(0, k + 1).drop_last() =~= fv.subrange(0, k as int));
                if !m.contains_key(files[k].as_str()) {
                    extras.push(files[k].clone());
                }
                assert(views_of(extras@) =~= extras_of(m@, fv.subrange(0, k + 1)));
                k = k + 1;
            }
            assert(fv.subrange(0, nf as int) =~= fv);
            let sorted = sort_strings(&extras);
            let ghost base = views_of(lines@);
            let ghost sv = views_of(sorted@);
            let ns = sorted.len();
            let mut j: usize = 0;
            while j < ns
                invariant
                    ns == sorted@.len(),
                    sv == views_of(sorted@),
                    j <= ns,
                    views_of(lines@) == base + added_lines(sv.subrange(0, j as int)),
                decreases ns - j,
            {
                let ghost pre = views_of(lines@);
                let line = concat3("副本内新增: ", sorted[j].as_str(), "（更新后将被删除）");
                lines.push(line);
                assert(views_of(lines@) =~= pre.push(line@));
                assert(sv.subrange(0, j + 1).drop_last() =~= sv.subrange(0, j as int));
                assert(sv[j as int] == sorted@[j as int]@);
                assert(added_lines(sv.subrange(0, j + 1)) == added_lines(sv.subrange(0, j as int)).push(
                    added_line(sv[j as int]),
                ));
                assert(views_of(lines@) =~= base + added_lines(sv.subrange(0, j + 1)));
                j = j + 1;
            }
            assert(sv.subrange(0, ns as int) =~= sv);
            lines
        },
    }
}


/// A copy whose every baseline file is present with its recorded digest,
/// under a legal path, and which holds no file the baseline does not list,
/// reports no divergence.
pub proof fn law_clean_copy_reports_nothing(
    baseline: Baseline,
    contents: Seq<Option<Seq<u8>>>,
    files: Seq<Seq<char>>,
)
    requires
        baseline matches Baseline::Files(m) && contents.len() == m@.len() && (forall|i: int|
            0 <= i < m@.len() ==> checked_rel(#[trigger] m@[i].0) && (contents[i] matches Some(b)
                && sha256_hex_of(b) == m@[i].1@)) && (forall|j: int|
            0 <= j < files.len() ==> has_key(m@, #[trigger] files[j])),
    ensures
        modification_lines(baseline, contents, files).len() == 0,
{
    if let Baseline::Files(m) = baseline {
        lemma_clean_baseline(m@, contents, m@.len());
        lemma_no_extras(m@, files);
        assert(sort_strs(extras_of(m@, files)) == extras_of(m@, files));
    }
}

proof fn lemma_clean_baseline(entries: Seq<(Seq<char>, String)>, contents: Seq<Option<Seq<u8>>>, n: nat)
    requires
        n <= entries.len(),
        contents.len() == entries.len(),
        forall|i: int|
            0 <= i < entries.len() ==> checked_rel(#[trigger] entries[i].0) && (contents[i] matches Some(b)
                && sha256_hex_of(b) == entries[i].1@),
    ensures
        baseline_lines(entries, contents, n).len() == 0,
    decreases n,
{
    if n > 0 {
        lemma_clean_baseline(entries, contents, (n - 1) as nat);
        assert(checked_rel(entries[n - 1].0));
    }
}

proof fn lemma_no_extras(entries: Seq<(Seq<char>, String)>, files: Seq<Seq<char>>)
    requires
        forall|j: int| 0 <= j < files.len() ==> has_key(entries, #[trigger] files[j]),
    ensures
        extras_of(entries, files).len() == 0,
    decreases files.len(),
{
    if files.len() > 0 {
        assert forall|j: int| 0 <= j < files.drop_last().len() implies has_key(entries, #[trigger] files.drop_last()[j]) by {
            assert(files.drop_last()[j] == files[j]);
        }
        lemma_no_extras(entries, files.drop_last());
        assert(has_key(entries, files[files.len() - 1]));
    }
}

/// The files reported as added come in `str` order, as many of them as
/// the copy holds outside the baseline.
pub proof fn law_extras_sorted(entries: Seq<(Seq<char>, String)>, files: Seq<Seq<char>>)
    ensures
        crate::text::sorted_le(sort_strs(extras_of(entries, files))),
        sort_strs(extras_of(entries, files)).len() == extras_of(entries, files).len(),
{
    crate::text::lemma_sort_strs_sorted(extras_of(entries, files));
}

} // verus!
