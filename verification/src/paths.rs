//! Install targets and the on-disk layout under the skills home.
//! Paths are Unix path text; joining follows `PathBuf::push`.

use vstd::prelude::*;

use crate::config::Config;
use crate::error::Error;
use crate::strmap::lookup;
use crate::text::{first_index, range_eq, find_first, chars_of, substring, views_of};

verus! {

/// A path is absolute when it starts at the root.
pub open spec fn is_absolute(p: Seq<char>) -> bool {
    p.len() > 0 && p[0] == '/'
}

/// `PathBuf::from(base).join(rest)`: an absolute `rest` replaces `base`,
/// otherwise a separator is put between them when `base` lacks one.
pub open spec fn path_join(base: Seq<char>, rest: Seq<char>) -> Seq<char> {
    if is_absolute(rest) {
        rest
    } else if base.len() > 0 && base.last() != '/' {
        base + seq!['/'] + rest
    } else {
        base + rest
    }
}

/// Exec form of [`is_absolute`].
pub fn is_absolute_str(p: &str) -> (r: bool)
    ensures
        r == is_absolute(p@),
{
    p.unicode_len() > 0 && p.get_char(0) == '/'
}

/// Join two path texts as [`path_join`] does.
pub fn join(base: &str, rest: &str) -> (r: String)
    ensures
        r@ == path_join(base@, rest@),
{
    if is_absolute_str(rest) {
        return String::from_str(rest);
    }
    let n = base.unicode_len();
    proof {
        reveal_strlit("/");
    }
    if n > 0 && base.get_char(n - 1) != '/' {
        crate::text::concat3(base, "/", rest)
    } else {
        crate::text::concat2(base, rest)
    }
}

/// Model of a target: a named global target or a project root.
pub enum TargetV {
    Global(Seq<char>),
    Project(Seq<char>),
}

/// Where skills are installed: a configured global target, or
/// `<root>/.agents/skills` of a project.
#[derive(Clone, PartialEq, Debug)]
pub enum Target {
    Global { name: String },
    Project { root: String },
}

impl View for Target {
    type V = TargetV;

    open spec fn view(&self) -> TargetV {
        match self {
            Target::Global { name } => TargetV::Global(name@),
            Target::Project { root } => TargetV::Project(root@),
        }
    }
}

/// What `global:<name>` / `project:<absolute path>` denotes, if well formed.
pub open spec fn parse_target_spec(s: Seq<char>) -> Option<TargetV> {
    let i = first_index(s, ':');
    if i < 0 {
        None
    } else {
        let kind = s.subrange(0, i);
        let rest = s.subrange(i + 1, s.len() as int);
        if kind == "global"@ && rest.len() > 0 {
            Some(TargetV::Global(rest))
        } else if kind == "project"@ && is_absolute(rest) {
            Some(TargetV::Project(rest))
        } else {
            None
        }
    }
}

/// The install directory a target denotes under `targets`.
pub open spec fn install_dir_spec(
    t: TargetV,
    targets: Seq<(Seq<char>, String)>,
) -> Option<Seq<char>> {
    match t {
        TargetV::Global(name) => match lookup(targets, name) {
            Some(p) => Some(p@),
            None => None,
        },
        TargetV::Project(root) => Some(path_join(path_join(root, ".agents"@), "skills"@)),
    }
}

impl Target {
    /// Parse `global:<name>` or `project:<absolute path>`.
    pub fn parse(s: &str) -> (r: Result<Target, Error>)
        ensures
            match r {
                Ok(t) => parse_target_spec(s@) == Some(t@),
                Err(e) => parse_target_spec(s@) is None && (e matches Error::BadTarget(m) && m@
                    == s@),
            },
    {
        let v = chars_of(s);
        let n = v.len();
        match find_first(&v, 0, n, ':') {
            None => {
                assert(v@.subrange(0, n as int) =~= s@);
                Err(Error::BadTarget(String::from_str(s)))
            },
            Some(i) => {
                assert(v@.subrange(0, n as int) =~= s@);
                let ghost kind = s@.subrange(0, i as int);
                let ghost rest = s@.subrange(i + 1, n as int);
                let is_global = range_eq(&v, 0, i, "global");
                let is_project = range_eq(&v, 0, i, "project");
                let rest_s = substring(s, i + 1, n);
                if is_global && i + 1 < n {
                    Ok(Target::Global { name: rest_s })
                } else if is_project && is_absolute_str(rest_s.as_str()) {
                    Ok(Target::Project { root: rest_s })
                } else {
                    Err(Error::BadTarget(String::from_str(s)))
                }
            },
        }
    }

    /// The directory skills of this target are installed into.
    pub fn install_dir(&self, cfg: &Config) -> (r: Result<String, Error>)
        requires
            cfg.targets.wf(),
        ensures
            match r {
                Ok(p) => install_dir_spec(self@, cfg.targets@) == Some(p@),
                Err(e) => install_dir_spec(self@, cfg.targets@) is None && (match self {
                    Target::Global { name } => (e matches Error::UnknownTarget(m) && m@ == name@),
                    Target::Project { .. } => false,
                }),
            },
    {
        match self {
            Target::Global { name } => match cfg.targets.get(name.as_str()) {
                Some(p) => Ok(p.clone()),
                None => Err(Error::UnknownTarget(name.clone())),
            },
            Target::Project { root } => {
                let a = join(root.as_str(), ".agents");
                Ok(join(a.as_str(), "skills"))
            },
        }
    }
}

/// Model of a [`Layout`]: the skills home.
pub struct Layout {
    pub root: String,
}

/// The skills home: `$SKILLS_HOME` when set and non-empty, else `~/.skills`.
pub open spec fn layout_root_spec(
    skills_home: Option<Seq<char>>,
    home: Option<Seq<char>>,
) -> Option<Seq<char>> {
    match skills_home {
        Some(p) if p.len() > 0 => Some(p),
        _ => match home {
            Some(h) => Some(path_join(h, ".skills"@)),
            None => None,
        },
    }
}

impl Layout {
    /// Layout rooted at `root`.
    pub fn at(root: String) -> (l: Layout)
        ensures
            l.root@ == root@,
    {
        Layout { root }
    }

    /// Layout from the `SKILLS_HOME` value and the user's home directory
    /// (an empty `SKILLS_HOME` counts as unset).
    pub fn new(skills_home: Option<String>, home: Option<String>) -> (r: Result<
        Layout,
        Error,
    >)
        ensures
            match r {
                Ok(l) => layout_root_spec(
                    match skills_home {
                        Some(s) => Some(s@),
                        None => None,
                    },
                    match home {
                        Some(h) => Some(h@),
                        None => None,
                    },
                ) == Some(l.root@),
                Err(e) => (e matches Error::NoHome) && home is None && (skills_home is None
                    || skills_home->0@.len() == 0),
            },
    {
        if let Some(p) = skills_home {
            if p.unicode_len() > 0 {
                return Ok(Layout { root: p });
            }
        }
        match home {
            Some(h) => Ok(Layout { root: join(h.as_str(), ".skills") }),
            None => Err(Error::NoHome),
        }
    }

    /// Cache directory of a source key.
    pub fn cache_dir(&self, key: &str) -> (r: String)
        ensures
            r@ == path_join(self.root@, key@),
    {
        join(self.root.as_str(), key)
    }

    /// Path of `registry.json`.
    pub fn registry_path(&self) -> (r: String)
        ensures
            r@ == path_join(self.root@, "registry.json"@),
    {
        join(self.root.as_str(), "registry.json")
    }

    /// Path of `config.toml`.
    pub fn config_path(&self) -> (r: String)
        ensures
            r@ == path_join(self.root@, "config.toml"@),
    {
        join(self.root.as_str(), "config.toml")
    }
}


/// A segment that is a normal path component (not empty, not `.`).
pub open spec fn keep_segment(s: Seq<char>) -> Seq<Seq<char>> {
    if s.len() > 0 && s != seq!['.'] {
        seq![s]
    } else {
        Seq::empty()
    }
}

/// The non-`.` components of a Unix path, in order (`..` included).
#[verifier::opaque]
pub open spec fn normal_parts(p: Seq<char>) -> Seq<Seq<char>>
    decreases p.len(),
{
    let i = first_index(p, '/');
    if i < 0 {
        keep_segment(p)
    } else {
        keep_segment(p.subrange(0, i)) + normal_parts(p.subrange(i + 1, p.len() as int))
    }
}

/// A relative path that starts with a `.` component.
pub open spec fn leading_curdir(p: Seq<char>) -> bool {
    let i = first_index(p, '/');
    !is_absolute(p) && (if i < 0 {
        p
    } else {
        p.subrange(0, i)
    }) == seq!['.']
}

/// Equality of targets as their derived `==` has it: global targets by
/// name, project targets by root compared as paths (`/x/` is `/x`).
pub open spec fn target_same(a: TargetV, b: TargetV) -> bool {
    match (a, b) {
        (TargetV::Global(x), TargetV::Global(y)) => x == y,
        (TargetV::Project(x), TargetV::Project(y)) => same_path(x, y),
        _ => false,
    }
}

/// `Path` equality: the same component sequence.
pub open spec fn same_path(a: Seq<char>, b: Seq<char>) -> bool {
    is_absolute(a) == is_absolute(b) && leading_curdir(a) == leading_curdir(b) && normal_parts(a)
        == normal_parts(b)
}

pub proof fn lemma_parts_step(v: Seq<char>, start: int, j: int)
    requires
        0 <= start <= j < v.len(),
        v[j] == '/',
        forall|k: int| start <= k < j ==> v[k] != '/',
    ensures
        normal_parts(v.subrange(start, v.len() as int)) == keep_segment(v.subrange(start, j))
            + normal_parts(v.subrange(j + 1, v.len() as int)),
{
    reveal(normal_parts);
    let rest = v.subrange(start, v.len() as int);
    crate::text::lemma_first_index(rest, '/', j - start);
    assert(rest.subrange(0, j - start) =~= v.subrange(start, j));
    assert(rest.subrange(j - start + 1, rest.len() as int) =~= v.subrange(j + 1, v.len() as int));
}

pub proof fn lemma_parts_last(v: Seq<char>, start: int)
    requires
        0 <= start <= v.len(),
        forall|k: int| start <= k < v.len() ==> v[k] != '/',
    ensures
        normal_parts(v.subrange(start, v.len() as int)) == keep_segment(
            v.subrange(start, v.len() as int),
        ),
{
    reveal(normal_parts);
    let rest = v.subrange(start, v.len() as int);
    crate::text::lemma_first_index(rest, '/', -1);
}

/// The normal components of `p`.
pub fn path_parts(p: &str) -> (r: Vec<String>)
    ensures
        views_of(r@) == normal_parts(p@),
{
    let v = chars_of(p);
    let n = v.len();
    let mut out: Vec<String> = Vec::new();
    let mut start: usize = 0;
    let mut j: usize = 0;
    assert(v@.subrange(0, n as int) =~= v@);
    assert(views_of(out@) =~= Seq::<Seq<char>>::empty());
    while j < n
        invariant
            v@ == p@,
            n == v@.len(),
            start <= j <= n,
            forall|k: int| start <= k < j ==> v@[k] != '/',
            normal_parts(p@) == views_of(out@) + normal_parts(v@.subrange(start as int, n as int)),
        decreases n - j,
    {
        if v[j] == '/' {
            proof {
                lemma_parts_step(v@, start as int, j as int);
            }
            let seg = segment_of(p, &v, start, j);
            let ghost before = views_of(out@);
            match seg {
                Some(s) => {
                    out.push(s);
                    assert(views_of(out@) =~= before + keep_segment(v@.subrange(
                        start as int,
                        j as int,
                    )));
                },
                None => {
                    assert(views_of(out@) =~= before + keep_segment(v@.subrange(
                        start as int,
                        j as int,
                    )));
                },
            }
            assert(normal_parts(p@) == views_of(out@) + normal_parts(v@.subrange(j + 1, n as int)));
            start = j + 1;
        }
        j = j + 1;
    }
    proof {
        lemma_parts_last(v@, start as int);
    }
    let seg = segment_of(p, &v, start, n);
    let ghost before = views_of(out@);
    match seg {
        Some(s) => {
            out.push(s);
            assert(views_of(out@) =~= before + keep_segment(v@.subrange(start as int, n as int)));
        },
        None => {
            assert(views_of(out@) =~= before + keep_segment(v@.subrange(start as int, n as int)));
        },
    }
    out
}

/// The segment `p[a..b]` when it is a normal component.
fn segment_of(p: &str, v: &Vec<char>, a: usize, b: usize) -> (r: Option<String>)
    requires
        v@ == p@,
        a <= b <= v@.len(),
    ensures
        match r {
            Some(s) => keep_segment(v@.subrange(a as int, b as int)) == seq![s@],
            None => keep_segment(v@.subrange(a as int, b as int)) == Seq::<Seq<char>>::empty(),
        },
{
    let ghost seg = v@.subrange(a as int, b as int);
    if b == a {
        return None;
    }
    if b - a == 1 && v[a] == '.' {
        assert(seg =~= seq!['.']);
        return None;
    }
    if b - a == 1 {
        assert(seg[0] != '.');
    }
    if b - a != 1 {
        assert(seg.len() != 1);
    }
    Some(crate::text::substring(p, a, b))
}

/// Whether `p` starts with a `.` component.
pub fn has_leading_curdir(p: &str) -> (r: bool)
    ensures
        r == leading_curdir(p@),
{
    let v = chars_of(p);
    let n = v.len();
    assert(v@.subrange(0, n as int) =~= v@);
    if n == 0 || v[0] == '/' {
        return false;
    }
    let first = match find_first(&v, 0, n, '/') {
        Some(i) => i,
        None => n,
    };
    let r = first == 1 && v[0] == '.';
    if r {
        assert(v@.subrange(0, 1) =~= seq!['.']);
    }
    if first == 1 && !r {
        assert(v@.subrange(0, 1)[0] != '.');
    }
    if first != 1 {
        assert(v@.subrange(0, first as int).len() != 1);
    }
    r
}

/// Whether two paths are equal as `Path`s.
pub fn paths_equal(a: &str, b: &str) -> (r: bool)
    ensures
        r == same_path(a@, b@),
{
    if is_absolute_str(a) != is_absolute_str(b) {
        return false;
    }
    if has_leading_curdir(a) != has_leading_curdir(b) {
        return false;
    }
    let pa = path_parts(a);
    let pb = path_parts(b);
    if pa.len() != pb.len() {
        assert(views_of(pa@).len() != views_of(pb@).len());
        return false;
    }
    let n = pa.len();
    let mut k: usize = 0;
    while k < n
        invariant
            n == pa@.len(),
            n == pb@.len(),
            k <= n,
            forall|j: int| 0 <= j < k ==> pa@[j]@ == pb@[j]@,
            views_of(pa@) == normal_parts(a@),
            views_of(pb@) == normal_parts(b@),
        decreases n - k,
    {
        if !crate::text::str_eq(pa[k].as_str(), pb[k].as_str()) {
            assert(views_of(pa@)[k as int] != views_of(pb@)[k as int]);
            return false;
        }
        k = k + 1;
    }
    assert(views_of(pa@) =~= views_of(pb@));
    true
}


/// A target written as `global:<name>` or `project:<root>` reads back as
/// that target (`<name>` non-empty, `<root>` absolute).
pub proof fn law_target_text_round_trip(name: Seq<char>, root: Seq<char>)
    ensures
        name.len() > 0 ==> parse_target_spec("global:"@ + name) == Some(TargetV::Global(name)),
        is_absolute(root) ==> parse_target_spec("project:"@ + root) == Some(TargetV::Project(root)),
{
    reveal_strlit("global:");
    reveal_strlit("global");
    reveal_strlit("project:");
    reveal_strlit("project");
    let g = "global:"@ + name;
    crate::text::lemma_first_index(g, ':', 6);
    assert(g.subrange(0, 6) =~= "global"@);
    assert(g.subrange(7, g.len() as int) =~= name);
    let p = "project:"@ + root;
    crate::text::lemma_first_index(p, ':', 7);
    assert(p.subrange(0, 7) =~= "project"@);
    assert(p.subrange(8, p.len() as int) =~= root);
    assert("project"@ != "global"@) by {
        assert("project"@.len() != "global"@.len());
    }
}

} // verus!
