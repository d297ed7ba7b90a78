//! Two-level update planning: a source is pulled only when its own
//! `auto_update` is on; a copy install is re-copied when its own flag (or,
//! unset, its source's) allows it and its source is pulled; symlinks follow
//! their source. An explicit skill + target selection forces the update.

use vstd::prelude::*;

use crate::error::Error;
use crate::paths::TargetV;
use crate::registry::{install_index, Install, Method, Registry, SourceRecord, TargetRec};
use crate::strmap::{has_key, lookup, StrMap};
use crate::text::{concat2, concat3, str_eq, take_chars, take_chars_text, first_where, lemma_first_where, views_of};
use crate::remove::{record_ok, validate_record};

verus! {

/// `Debug` text of a string (quoted and escaped), as `{:?}` prints it.
pub uninterp spec fn str_debug(s: Seq<char>) -> Seq<char>;

/// `format!("{:?}", s)` for a string.
#[verifier::external_body]
pub(crate) fn debug_text(s: &str) -> (r: String)
    ensures
        r@ == str_debug(s@),
{
    format!("{:?}", s)
}

/// `Debug` text of a path (quoted and escaped), as `{:?}` prints a `Path`.
pub uninterp spec fn path_debug(s: Seq<char>) -> Seq<char>;

/// `format!("{:?}", Path::new(s))`: the path `s` as `Debug` prints it.
#[verifier::external_body]
pub(crate) fn path_debug_text(s: &str) -> (r: String)
    ensures
        r@ == path_debug(s@),
{
    format!("{:?}", std::path::Path::new(s))
}

/// `Debug` text of a target record.
pub open spec fn target_debug(t: TargetV) -> Seq<char> {
    match t {
        TargetV::Global(n) => "Global { name: "@ + str_debug(n) + " }"@,
        TargetV::Project(r) => "Project { root: "@ + path_debug(r) + " }"@,
    }
}

/// `format!("{:?}", target)`.
pub fn target_debug_text(t: &TargetRec) -> (r: String)
    ensures
        r@ == target_debug(t@),
{
    match t {
        TargetRec::Global { name } => {
            let q = debug_text(name.as_str());
            concat3("Global { name: ", q.as_str(), " }")
        },
        TargetRec::Project { root } => {
            let q = path_debug_text(root.as_str());
            concat3("Project { root: ", q.as_str(), " }")
        },
    }
}

/// `"<skill> @ <target debug>"`, how a missing install is named.
pub open spec fn skill_at(skill: Seq<char>, t: TargetV) -> Seq<char> {
    skill + " @ "@ + target_debug(t)
}

/// Exec form of [`skill_at`].
pub fn skill_at_text(skill: &str, t: &TargetRec) -> (r: String)
    ensures
        r@ == skill_at(skill@, t@),
{
    let d = target_debug_text(t);
    concat3(skill, " @ ", d.as_str())
}

/// A source is pulled when its flag is on; unset means off.
pub open spec fn repo_allowed(src: SourceRecord) -> bool {
    src.auto_update == Some(true)
}

/// The effective flag of a copy: its own, else its source's, else off.
pub open spec fn copy_allowed(sources: Seq<(Seq<char>, SourceRecord)>, i: Install) -> bool {
    match i.auto_update {
        Some(b) => b,
        None => match lookup(sources, i.source@) {
            Some(s) => s.auto_update == Some(true),
            None => false,
        },
    }
}

/// Whether the source's repository is pulled by `update`.
pub fn repo_should_update(src: &SourceRecord) -> (r: bool)
    ensures
        r == repo_allowed(*src),
{
    match src.auto_update {
        Some(b) => b,
        None => false,
    }
}

/// Whether a copy install follows an update of its source.
pub fn copy_should_update(reg: &Registry, inst: &Install) -> (r: bool)
    requires
        reg.wf(),
    ensures
        r == copy_allowed(reg.sources@, *inst),
{
    match inst.auto_update {
        Some(b) => b,
        None => match reg.sources.get(inst.source.as_str()) {
            Some(s) => match s.auto_update {
                Some(b) => b,
                None => false,
            },
            None => false,
        },
    }
}

/// An explicit skill + target to update.
pub struct Selection {
    pub skill: String,
    pub target: TargetRec,
}

/// What happens to one copy install, with the reason shown by `--dry-run`.
#[derive(Debug)]
pub struct CopyDecision {
    pub skill: String,
    pub target: TargetRec,
    pub update: bool,
    pub reason: String,
}

/// Model of a [`CopyDecision`].
pub struct CopyDecisionV {
    pub skill: Seq<char>,
    pub target: TargetV,
    pub update: bool,
    pub reason: Seq<char>,
}

impl View for CopyDecision {
    type V = CopyDecisionV;

    open spec fn view(&self) -> CopyDecisionV {
        CopyDecisionV {
            skill: self.skill@,
            target: self.target@,
            update: self.update,
            reason: self.reason@,
        }
    }
}

/// An update plan.
#[derive(Debug)]
pub struct Plan {
    pub sources: Vec<String>,
    pub symlinks: Vec<String>,
    pub copies: Vec<CopyDecision>,
    pub missing: Option<String>,
}

/// Model of a [`Plan`].
pub struct PlanV {
    pub sources: Seq<Seq<char>>,
    pub symlinks: Seq<Seq<char>>,
    pub copies: Seq<CopyDecisionV>,
    pub missing: Option<Seq<char>>,
}

impl View for Plan {
    type V = PlanV;

    open spec fn view(&self) -> PlanV {
        PlanV {
            sources: views_of(self.sources@),
            symlinks: views_of(self.symlinks@),
            copies: self.copies@.map_values(|c: CopyDecision| c@),
            missing: match self.missing {
                Some(m) => Some(m@),
                None => None,
            },
        }
    }
}

/// Keys of the sources whose repository is pulled, in key order.
pub open spec fn pulled(sources: Seq<(Seq<char>, SourceRecord)>) -> Seq<Seq<char>> {
    sources.filter(|e: (Seq<char>, SourceRecord)| repo_allowed(e.1)).map_values(
        |e: (Seq<char>, SourceRecord)| e.0,
    )
}

/// Reason text of a copy decision.
pub open spec fn copy_reason(in_plan: bool, allowed: bool) -> Seq<char> {
    if !in_plan {
        "仓库不更新"@
    } else if !allowed {
        "副本级/包级配置关闭"@
    } else {
        "更新"@
    }
}

/// The decision for copy install `i` when `pull` is pulled.
pub open spec fn copy_decision(
    sources: Seq<(Seq<char>, SourceRecord)>,
    pull: Seq<Seq<char>>,
    i: Install,
) -> CopyDecisionV {
    let in_plan = pull.contains(i.source@);
    let allowed = copy_allowed(sources, i);
    CopyDecisionV {
        skill: i.skill@,
        target: i.target@,
        update: in_plan && allowed,
        reason: copy_reason(in_plan, allowed),
    }
}

/// The plan `build_plan(reg, None)` makes.
pub open spec fn policy_plan(reg: Registry) -> PlanV {
    let pull = pulled(reg.sources@);
    PlanV {
        sources: pull,
        symlinks: reg.installs@.filter(
            |i: Install| i.method == Method::Symlink && pull.contains(i.source@),
        ).map_values(|i: Install| i.skill@),
        copies: reg.installs@.filter(|i: Install| i.method == Method::Copy).map_values(
            |i: Install| copy_decision(reg.sources@, pull, i),
        ),
        missing: None,
    }
}

/// The plan `build_plan(reg, Some(sel))` makes for selection `skill` @ `t`.
pub open spec fn selected_plan(reg: Registry, skill: Seq<char>, t: TargetV) -> PlanV {
    let k = install_index(reg.installs@, skill, t);
    if k < 0 {
        PlanV {
            sources: Seq::empty(),
            symlinks: Seq::empty(),
            copies: Seq::empty(),
            missing: Some(skill_at(skill, t)),
        }
    } else {
        let inst = reg.installs@[k];
        PlanV {
            sources: seq![inst.source@],
            symlinks: if inst.method == Method::Symlink {
                seq![inst.skill@]
            } else {
                Seq::empty()
            },
            copies: if inst.method == Method::Copy {
                seq![
                    CopyDecisionV {
                        skill: inst.skill@,
                        target: t,
                        update: true,
                        reason: "显式指定"@,
                    },
                ]
            } else {
                Seq::empty()
            },
            missing: None,
        }
    }
}

/// Whether `v` holds `s`.
fn contains_str(v: &Vec<String>, s: &str) -> (r: bool)
    ensures
        r == views_of(v@).contains(s@),
{
    let n = v.len();
    let mut k: usize = 0;
    while k < n
        invariant
            n == v@.len(),
            k <= n,
            forall|j: int| 0 <= j < k ==> (#[trigger] v@[j])@ != s@,
        decreases n - k,
    {
        if str_eq(v[k].as_str(), s) {
            assert(views_of(v@)[k as int] == s@);
            return true;
        }
        k = k + 1;
    }
    assert forall|j: int| 0 <= j < views_of(v@).len() implies views_of(v@)[j] != s@ by {
        assert(views_of(v@)[j] == v@[j]@);
    }
    false
}

/// Keys of the sources to pull, in key order.
fn pulled_sources(sources: &StrMap<SourceRecord>) -> (r: Vec<String>)
    ensures
        views_of(r@) == pulled(sources@),
{
    let n = sources.len();
    let mut out: Vec<String> = Vec::new();
    let mut k: usize = 0;
    let ghost f = |e: (Seq<char>, SourceRecord)| repo_allowed(e.1);
    let ghost g = |e: (Seq<char>, SourceRecord)| e.0;
    while k < n
        invariant
            n == sources@.len(),
            k <= n,
            f == (|e: (Seq<char>, SourceRecord)| repo_allowed(e.1)),
            g == (|e: (Seq<char>, SourceRecord)| e.0),
            views_of(out@) == sources@.subrange(0, k as int).filter(f).map_values(g),
        decreases n - k,
    {
        let ghost sub = sources@.subrange(0, k as int);
        proof {
            sub.lemma_filter_push(sources@[k as int], f);
            assert(sources@.subrange(0, k + 1) =~= sub.push(sources@[k as int]));
        }
        if repo_should_update(sources.value_at(k)) {
            let key = sources.key_at(k).clone();
            let ghost before = out@;
            out.push(key);
            assert(views_of(out@) =~= views_of(before).push(sources@[k as int].0));
            assert(sub.filter(f).push(sources@[k as int]).map_values(g) =~= sub.filter(
                f,
            ).map_values(g).push(sources@[k as int].0));
        }
        k = k + 1;
    }
    assert(sources@.subrange(0, n as int) =~= sources@);
    out
}

/// Build the update plan. With a selection only that install is planned,
/// and it is updated whatever its flags say.
pub fn build_plan(reg: &Registry, selection: Option<&Selection>) -> (p: Plan)
    requires
        reg.wf(),
    ensures
        p@ == match selection {
            Some(sel) => selected_plan(*reg, sel.skill@, sel.target@),
            None => policy_plan(*reg),
        },
{
    match selection {
        Some(sel) => match reg.position(sel.skill.as_str(), &sel.target) {
            Some(k) => {
                let inst = &reg.installs[k];
                let mut sources: Vec<String> = Vec::new();
                sources.push(inst.source.clone());
                let mut symlinks: Vec<String> = Vec::new();
                let mut copies: Vec<CopyDecision> = Vec::new();
                match inst.method {
                    Method::Symlink => {
                        symlinks.push(inst.skill.clone());
                    },
                    Method::Copy => {
                        copies.push(
                            CopyDecision {
                                skill: inst.skill.clone(),
                                target: sel.target.clone(),
                                update: true,
                                reason: String::from_str("显式指定"),
                            },
                        );
                    },
                }
                let p = Plan { sources, symlinks, copies, missing: None };
                assert(p@.sources =~= selected_plan(*reg, sel.skill@, sel.target@).sources);
                assert(p@.symlinks =~= selected_plan(*reg, sel.skill@, sel.target@).symlinks);
                assert(p@.copies =~= selected_plan(*reg, sel.skill@, sel.target@).copies);
                p
            },
            None => {
                let p = Plan {
                    sources: Vec::new(),
                    symlinks: Vec::new(),
                    copies: Vec::new(),
                    missing: Some(skill_at_text(sel.skill.as_str(), &sel.target)),
                };
                assert(p@.sources =~= Seq::<Seq<char>>::empty());
                assert(p@.symlinks =~= Seq::<Seq<char>>::empty());
                assert(p@.copies =~= Seq::<CopyDecisionV>::empty());
                p
            },
        },
        None => {
            let pull = pulled_sources(&reg.sources);
            let ghost pv = pulled(reg.sources@);
            let n = reg.installs.len();
            let mut symlinks: Vec<String> = Vec::new();
            let mut copies: Vec<CopyDecision> = Vec::new();
            let ghost fs = |i: Install| i.method == Method::Symlink && pv.contains(i.source@);
            let ghost ms = |i: Install| i.skill@;
            let ghost fc = |i: Install| i.method == Method::Copy;
            let ghost mc = |i: Install| copy_decision(reg.sources@, pv, i);
            let mut k: usize = 0;
            while k < n
                invariant
                    reg.wf(),
                    n == reg.installs@.len(),
                    k <= n,
                    views_of(pull@) == pv,
                    pv == pulled(reg.sources@),
                    fs == (|i: Install| i.method == Method::Symlink && pv.contains(i.source@)),
                    ms == (|i: Install| i.skill@),
                    fc == (|i: Install| i.method == Method::Copy),
                    mc == (|i: Install| copy_decision(reg.sources@, pv, i)),
                    views_of(symlinks@) == reg.installs@.subrange(0, k as int).filter(fs).map_values(
                        ms,
                    ),
                    copies@.map_values(|c: CopyDecision| c@) == reg.installs@.subrange(
                        0,
                        k as int,
                    ).filter(fc).map_values(mc),
                decreases n - k,
            {
                let inst = &reg.installs[k];
                let ghost sub = reg.installs@.subrange(0, k as int);
                proof {
                    sub.lemma_filter_push(*inst, fs);
                    sub.lemma_filter_push(*inst, fc);
                    assert(reg.installs@.subrange(0, k + 1) =~= sub.push(*inst));
                }
                let in_plan = contains_str(&pull, inst.source.as_str());
                match inst.method {
                    Method::Symlink => {
                        if in_plan {
                            let ghost before = symlinks@;
                            symlinks.push(inst.skill.clone());
                            assert(views_of(symlinks@) =~= views_of(before).push(inst.skill@));
                            assert(sub.filter(fs).push(*inst).map_values(ms) =~= sub.filter(
                                fs,
                            ).map_values(ms).push(inst.skill@));
                        }
                    },
                    Method::Copy => {
                        let allowed = copy_should_update(reg, inst);
                        let reason = if !in_plan {
                            String::from_str("仓库不更新")
                        } else if !allowed {
                            String::from_str("副本级/包级配置关闭")
                        } else {
                            String::from_str("更新")
                        };
                        let ghost before = copies@;
                        copies.push(
                            CopyDecision {
                                skill: inst.skill.clone(),
                                target: inst.target.clone(),
                                update: in_plan && allowed,
                                reason,
                            },
                        );
                        assert(copies@.map_values(|c: CopyDecision| c@) =~= before.map_values(
                            |c: CopyDecision| c@,
                        ).push(mc(*inst)));
                        assert(sub.filter(fc).push(*inst).map_values(mc) =~= sub.filter(
                            fc,
                        ).map_values(mc).push(mc(*inst)));
                    },
                }
                k = k + 1;
            }
            assert(reg.installs@.subrange(0, n as int) =~= reg.installs@);
            Plan { sources: pull, symlinks, copies, missing: None }
        },
    }
}


/// A source record after a fetch moved it to `commit` at time `at`.
pub open spec fn with_fetch(r: SourceRecord, commit: String, at: String) -> SourceRecord {
    SourceRecord { commit: commit, fetched_at: at, ..r }
}

/// The line reporting that source `key` moved to `commit`.
pub open spec fn fetched_line(key: Seq<char>, commit: Seq<char>) -> Seq<char> {
    "仓库 "@ + key + " → "@ + take_chars(commit, 8)
}

/// Record that the cache of source `key` was fetched to `commit` at `at`
/// (a source not in the registry is left as it is), and report it.
pub fn record_fetch(reg: &mut Registry, key: &str, commit: String, at: String) -> (line: String)
    requires
        old(reg).wf(),
    ensures
        final(reg).wf(),
        final(reg).version == old(reg).version,
        final(reg).installs == old(reg).installs,
        final(reg).favorites == old(reg).favorites,
        final(reg).sources@.len() == old(reg).sources@.len(),
        forall|i: int|
            0 <= i < old(reg).sources@.len() ==> {
                let (k, r) = #[trigger] old(reg).sources@[i];
                final(reg).sources@[i] == if k == key@ {
                    (k, with_fetch(r, commit, at))
                } else {
                    (k, r)
                }
            },
        line@ == fetched_line(key@, commit@),
{
    let short = take_chars_text(commit.as_str(), 8);
    let line = concat3("仓库 ", key, " → ");
    let line = concat2(line.as_str(), short.as_str());
    match reg.sources.find(key) {
        Some(i) => {
            let ghost before = reg.sources@;
            proof {
                crate::strmap::lemma_key_index(before, i as int);
            }
            let dummy = SourceRecord {
                url: String::new(),
                commit: String::new(),
                fetched_at: String::new(),
                auto_update: None,
            };
            let old_rec = reg.sources.replace_at(i, dummy);
            let new_rec = SourceRecord { commit: commit, fetched_at: at, ..old_rec };
            reg.sources.replace_at(i, new_rec);
            assert forall|j: int| 0 <= j < before.len() && j != i implies before[j].0 != key@ by {
                assert(crate::text::seq_lt(before[j].0, before[i as int].0) || crate::text::seq_lt(
                    before[i as int].0,
                    before[j].0,
                ));
                crate::text::lemma_seq_lt_irrefl(before[j].0);
            }
        },
        None => {},
    }
    line
}

/// The registry after source `key` was fetched to `commit`: that source's
/// commit is `commit` (its url and flag kept), all else is as it was.
pub open spec fn fetch_recorded(old: Registry, new: Registry, key: Seq<char>, commit: String) -> bool {
    &&& new.version == old.version
    &&& new.installs == old.installs
    &&& new.favorites == old.favorites
    &&& new.sources@.len() == old.sources@.len()
    &&& forall|i: int|
        0 <= i < old.sources@.len() ==> {
            let (k, r) = #[trigger] old.sources@[i];
            let (k2, r2) = new.sources@[i];
            k2 == k && if k == key {
                r2.commit == commit && r2.url == r.url && r2.auto_update == r.auto_update
            } else {
                r2 == r
            }
        }
}

/// [`record_fetch`] stamped with the current time.
pub fn record_fetch_now(reg: &mut Registry, key: &str, commit: String) -> (line: String)
    requires
        old(reg).wf(),
    ensures
        final(reg).wf(),
        fetch_recorded(*old(reg), *final(reg), key@, commit),
        line@ == fetched_line(key@, commit@),
{
    let now = crate::favorites::now_rfc3339();
    record_fetch(reg, key, commit, now)
}

/// The error for pulling a source whose cache is not a git checkout.
pub fn no_remote_error(key: &str) -> (e: Error)
    ensures
        e matches Error::Msg(m) && m@ == "source "@ + key@
            + " 的缓存不是 git 仓库，没有远端可拉取；本地源请重新 add 对应本地路径刷新"@,
{
    Error::Msg(
        concat3("source ", key, " 的缓存不是 git 仓库，没有远端可拉取；本地源请重新 add 对应本地路径刷新"),
    )
}

/// The install to re-copy for a planned copy update: the first record of
/// `skill` in `target`, checked as remove checks it before touching disk.
pub fn checked_install(reg: &Registry, skill: &str, target: &TargetRec) -> (r: Result<
    usize,
    Error,
>)
    ensures
        ({
            let k = install_index(reg.installs@, skill@, target@);
            match r {
                Ok(j) => j == k && k >= 0 && record_ok(reg.installs@[k]),
                Err(e) => if k < 0 {
                    e matches Error::NotInstalled(m) && m@ == skill_at(skill@, target@)
                } else {
                    !record_ok(reg.installs@[k]) && e is Mismatch
                },
            }
        }),
{
    match reg.position(skill, target) {
        None => Err(Error::NotInstalled(skill_at_text(skill, target))),
        Some(k) => {
            match validate_record(&reg.installs[k]) {
                Ok(()) => Ok(k),
                Err(e) => Err(e),
            }
        },
    }
}

/// An install whose recorded commit is now `c`.
pub open spec fn with_commit(i: Install, c: String) -> Install {
    Install { commit: c, ..i }
}

/// The error for an install whose source is not registered.
pub open spec fn unregistered_message(source: Seq<char>) -> Seq<char> {
    "安装记录引用的 source 未登记: "@ + source
}

/// The line reporting that the copy of `skill` in `t` was updated.
pub open spec fn copied_line(skill: Seq<char>, t: TargetV) -> Seq<char> {
    "副本 "@ + skill_at(skill, t) + " 已更新"@
}

/// The registry after the copy of install `k` was re-copied: the install
/// takes its source's commit when that source is registered; all else is
/// as it was.
pub open spec fn copy_synced(old: Registry, new: Registry, k: int) -> bool {
    let i = old.installs@[k];
    &&& new.version == old.version
    &&& new.sources == old.sources
    &&& new.favorites == old.favorites
    &&& match lookup(old.sources@, i.source@) {
        Some(src) => new.installs@ == old.installs@.update(k, with_commit(i, src.commit)),
        None => new.installs@ == old.installs@,
    }
}

/// After install `k` was re-copied, record its source's commit on it; the
/// line names the copy by its skill and `shown`, the target it was asked for.
pub fn sync_copy_commit(reg: &mut Registry, k: usize, shown: &TargetRec) -> (r: Result<String, Error>)
    requires
        old(reg).wf(),
        k < old(reg).installs@.len(),
    ensures
        copy_synced(*old(reg), *final(reg), k as int),
        ({
            let i = old(reg).installs@[k as int];
            match lookup(old(reg).sources@, i.source@) {
                Some(src) => r matches Ok(line) && line@ == copied_line(i.skill@, shown@),
                None => r matches Err(Error::Mismatch(m)) && m@ == unregistered_message(i.source@),
            }
        }),
{
    let commit = match reg.sources.get(reg.installs[k].source.as_str()) {
        Some(s) => s.commit.clone(),
        None => {
            return Err(
                Error::Mismatch(concat2("安装记录引用的 source 未登记: ", reg.installs[k].source.as_str())),
            );
        },
    };
    let mut inst = reg.installs.remove(k);
    let head = skill_at_text(inst.skill.as_str(), shown);
    let line = concat3("副本 ", head.as_str(), " 已更新");
    inst.commit = commit;
    reg.installs.insert(k, inst);
    assert(reg.installs@ =~= old(reg).installs@.update(
        k as int,
        with_commit(old(reg).installs@[k as int], commit),
    ));
    Ok(line)
}


/// Install `i` is a symlink install of skill `name`.
pub open spec fn follows(i: Install, name: Seq<char>) -> bool {
    i.skill@ == name && i.method == Method::Symlink
}

/// Index of the first symlink install of `name` whose source is not
/// registered, or -1.
pub open spec fn unregistered_at(
    s: Seq<Install>,
    sources: Seq<(Seq<char>, SourceRecord)>,
    name: Seq<char>,
) -> int {
    first_where(s.len() as int, |j: int| follows(s[j], name) && !has_key(sources, s[j].source@))
}

/// The install after following its source: its commit is the source's.
pub open spec fn synced(i: Install, sources: Seq<(Seq<char>, SourceRecord)>) -> Install {
    with_commit(i, lookup(sources, i.source@)->0.commit)
}

/// The line reporting that the symlinks of `name` follow their source.
pub open spec fn followed_line(name: Seq<char>) -> Seq<char> {
    "软连接 "@ + name + " 跟随仓库"@
}

/// The registry after the symlink installs of `name` followed their
/// sources, in registry order up to the first whose source is not
/// registered; all else is as it was.
pub open spec fn links_followed(old: Registry, new: Registry, name: Seq<char>) -> bool {
    let s = old.installs@;
    let k = unregistered_at(s, old.sources@, name);
    let upto = if k < 0 {
        s.len() as int
    } else {
        k
    };
    &&& new.version == old.version
    &&& new.sources == old.sources
    &&& new.favorites == old.favorites
    &&& new.installs@.len() == s.len()
    &&& forall|j: int|
        0 <= j < s.len() ==> #[trigger] new.installs@[j] == if j < upto && follows(s[j], name) {
            synced(s[j], old.sources@)
        } else {
            s[j]
        }
}

/// Point every symlink install of `name` at its source's current commit,
/// in registry order; an install whose source is not registered stops the
/// walk with an error, those before it already updated.
pub fn sync_symlink_commits(reg: &mut Registry, name: &str) -> (r: Result<String, Error>)
    requires
        old(reg).wf(),
    ensures
        links_followed(*old(reg), *final(reg), name@),
        ({
            let s = old(reg).installs@;
            let k = unregistered_at(s, old(reg).sources@, name@);
            match r {
                Ok(line) => k < 0 && line@ == followed_line(name@),
                Err(e) => k >= 0 && (e matches Error::Mismatch(m) && m@ == unregistered_message(
                    s[k].source@,
                )),
            }
        }),
{
    let ghost s = reg.installs@;
    let ghost src = reg.sources@;
    let ghost p = |j: int| follows(s[j], name@) && !has_key(src, s[j].source@);
    let n = reg.installs.len();
    let mut j: usize = 0;
    while j < n
        invariant
            reg.wf(),
            reg.version == old(reg).version,
            reg.sources == old(reg).sources,
            reg.favorites == old(reg).favorites,
            s == old(reg).installs@,
            src == reg.sources@,
            p == (|j: int| follows(s[j], name@) && !has_key(src, s[j].source@)),
            n == s.len(),
            reg.installs@.len() == n,
            j <= n,
            forall|i: int| 0 <= i < j ==> !#[trigger] p(i),
            forall|i: int|
                0 <= i < n ==> #[trigger] reg.installs@[i] == if i < j && follows(s[i], name@) {
                    synced(s[i], src)
                } else {
                    s[i]
                },
        decreases n - j,
    {
        let is_link = str_eq(reg.installs[j].skill.as_str(), name) && reg.installs[j].method
            == Method::Symlink;
        if is_link {
            let commit = match reg.sources.get(reg.installs[j].source.as_str()) {
                Some(sr) => sr.commit.clone(),
                None => {
                    proof {
                        lemma_first_where(n as int, p, j as int);
                    }
                    return Err(
                        Error::Mismatch(
                            concat2("安装记录引用的 source 未登记: ", reg.installs[j].source.as_str()),
                        ),
                    );
                },
            };
            let ghost before = reg.installs@;
            let mut inst = reg.installs.remove(j);
            inst.commit = commit;
            reg.installs.insert(j, inst);
            assert(reg.installs@ =~= before.update(j as int, synced(s[j as int], src)));
        }
        j = j + 1;
    }
    proof {
        lemma_first_where(n as int, p, -1);
    }
    Ok(concat3("软连接 ", name, " 跟随仓库"))
}

/// The refusal to overwrite a copy that has local modifications: which
/// copy, then one line per divergence.
pub open spec fn local_change_report(skill: Seq<char>, t: TargetV, lines: Seq<Seq<char>>) -> Seq<
    char,
>
    decreases lines.len(),
{
    if lines.len() == 0 {
        "副本 "@ + skill_at(skill, t) + " 有本地修改（更新会覆盖）："@
    } else {
        local_change_report(skill, t, lines.drop_last()) + "\n  "@ + lines.last()
    }
}

/// Exec form of [`local_change_report`].
pub fn local_change_text(skill: &str, t: &TargetRec, lines: &Vec<String>) -> (r: String)
    ensures
        r@ == local_change_report(skill@, t@, views_of(lines@)),
{
    let head = skill_at_text(skill, t);
    let mut out = concat3("副本 ", head.as_str(), " 有本地修改（更新会覆盖）：");
    let n = lines.len();
    let mut i: usize = 0;
    assert(views_of(lines@).subrange(0, 0) =~= Seq::<Seq<char>>::empty());
    while i < n
        invariant
            n == lines@.len(),
            i <= n,
            out@ == local_change_report(skill@, t@, views_of(lines@).subrange(0, i as int)),
        decreases n - i,
    {
        assert(views_of(lines@).subrange(0, i + 1).drop_last() =~= views_of(lines@).subrange(0, i as int));
        out = concat3(out.as_str(), "\n  ", lines[i].as_str());
        i = i + 1;
    }
    assert(views_of(lines@).subrange(0, n as int) =~= views_of(lines@));
    out
}


/// The pre-scan report of one copy: its local changes, if it has any.
pub fn prescan_report(skill: &str, t: &TargetRec, lines: &Vec<String>) -> (r: Option<String>)
    ensures
        lines@.len() == 0 ==> r is None,
        lines@.len() > 0 ==> (r matches Some(s) && s@ == local_change_report(
            skill@,
            t@,
            views_of(lines@),
        )),
{
    if lines.len() == 0 {
        None
    } else {
        Some(local_change_text(skill, t, lines))
    }
}

/// Lines joined with `\n` between them.
pub open spec fn join_lines(s: Seq<Seq<char>>) -> Seq<char>
    decreases s.len(),
{
    if s.len() == 0 {
        Seq::empty()
    } else if s.len() == 1 {
        s[0]
    } else {
        join_lines(s.drop_last()) + "\n"@ + s.last()
    }
}

/// The verdict of the pre-scan before an update: it goes on when no copy
/// to replace has local changes, and is refused with every report, one
/// per line, when some have.
pub fn prescan_refusal(reports: &Vec<String>) -> (r: Result<(), Error>)
    ensures
        reports@.len() == 0 ==> r is Ok,
        reports@.len() > 0 ==> (r matches Err(e) && e matches Error::Mismatch(m) && m@
            == join_lines(views_of(reports@))),
{
    let n = reports.len();
    if n == 0 {
        return Ok(());
    }
    let mut out = reports[0].clone();
    let mut i: usize = 1;
    assert(views_of(reports@).subrange(0, 1).drop_last().len() == 0);
    while i < n
        invariant
            n == reports@.len(),
            1 <= i <= n,
            out@ == join_lines(views_of(reports@).subrange(0, i as int)),
        decreases n - i,
    {
        assert(views_of(reports@).subrange(0, i + 1).drop_last() =~= views_of(reports@).subrange(
            0,
            i as int,
        ));
        out = concat3(out.as_str(), "\n", reports[i].as_str());
        i = i + 1;
    }
    assert(views_of(reports@).subrange(0, n as int) =~= views_of(reports@));
    Err(Error::Mismatch(out))
}

/// The two-level policy: `update` pulls a source exactly when its own
/// flag is on. A copy install whose own flag is off is never re-copied;
/// one whose own flag is on is re-copied exactly when its source is
/// pulled; one without a flag follows its source's flag.
pub proof fn law_two_level_policy(reg: Registry, k: Seq<char>, i: Install)
    requires
        reg.wf(),
    ensures
        policy_plan(reg).sources.contains(k) <==> (lookup(reg.sources@, k) matches Some(r)
            && r.auto_update == Some(true)),
        i.auto_update == Some(false) ==> !copy_decision(
            reg.sources@,
            policy_plan(reg).sources,
            i,
        ).update,
        i.auto_update == Some(true) ==> (copy_decision(
            reg.sources@,
            policy_plan(reg).sources,
            i,
        ).update <==> policy_plan(reg).sources.contains(i.source@)),
        i.auto_update is None ==> (copy_decision(reg.sources@, policy_plan(reg).sources, i).update
            <==> (lookup(reg.sources@, i.source@) matches Some(r) && r.auto_update == Some(true))),
{
    assert forall|key: Seq<char>| #[trigger] policy_plan(reg).sources.contains(key) <==> (lookup(
        reg.sources@,
        key,
    ) matches Some(r) && r.auto_update == Some(true)) by {
        lemma_pulled_contains(reg.sources@, key);
    }
}

/// A key is pulled exactly when its source's flag is on.
proof fn lemma_pulled_contains(s: Seq<(Seq<char>, SourceRecord)>, k: Seq<char>)
    requires
        crate::strmap::keys_sorted(s),
    ensures
        pulled(s).contains(k) <==> (lookup(s, k) matches Some(r) && r.auto_update == Some(true)),
{
    let pred = |e: (Seq<char>, SourceRecord)| repo_allowed(e.1);
    let f = s.filter(pred);
    s.filter_lemma(pred);
    if pulled(s).contains(k) {
        let idx = pulled(s).lemma_contains_to_index(k);
        assert(f[idx].0 == k);
        assert(pred(f[idx]));
        assert(f.contains(f[idx]));
        s.lemma_filter_contains_rev(pred, f[idx]);
        let w = s.lemma_contains_to_index(f[idx]);
        crate::strmap::lemma_key_index(s, w);
    }
    if lookup(s, k) matches Some(r) && r.auto_update == Some(true) {
        let j = crate::strmap::key_index(s, k);
        assert(0 <= j < s.len() && s[j].0 == k);
        crate::strmap::lemma_key_index(s, j);
        assert(pred(s[j]));
        assert(f.contains(s[j]));
        let idx = f.lemma_contains_to_index(s[j]);
        assert(pulled(s)[idx] == k);
    }
}

/// An explicit skill + target updates that install whatever its flags
/// say: its source is pulled, and a copy is re-copied.
pub proof fn law_explicit_selection_forces(reg: Registry, skill: Seq<char>, t: TargetV)
    requires
        install_index(reg.installs@, skill, t) >= 0,
    ensures
        ({
            let inst = reg.installs@[install_index(reg.installs@, skill, t)];
            let p = selected_plan(reg, skill, t);
            &&& p.missing is None
            &&& p.sources == seq![inst.source@]
            &&& inst.method == Method::Copy ==> p.copies.len() == 1 && p.copies[0].update
                && p.symlinks.len() == 0
            &&& inst.method == Method::Symlink ==> p.symlinks == seq![skill] && p.copies.len() == 0
        }),
{
}


/// Which part of an update run is under way.
#[derive(PartialEq, Eq, Structural, Clone, Copy, Debug)]
pub enum UpdatePhase {
    /// Scanning the copies to replace for local changes.
    Scan,
    /// Pulling the planned sources.
    Fetch,
    /// Re-copying the copies to replace.
    Copy,
    /// Letting the symlink installs follow their sources.
    Follow,
    /// Finished: the registry is to be saved.
    Done,
}

/// Where an update run stands: its phase, the position in that phase's
/// list (planned copies, sources or symlink names), the install acted on,
/// the local-change reports gathered and the lines of what was done.
#[derive(Debug)]
pub struct UpdateState {
    pub phase: UpdatePhase,
    pub next: usize,
    pub install: usize,
    pub reports: Vec<String>,
    pub done: Vec<String>,
}

/// What the outside world reports back to an update run.
#[derive(Debug)]
pub enum UpdateEvent {
    /// The run begins.
    Start,
    /// The copy asked for was scanned: its divergences from its manifest
    /// (none when it is intact or not on disk).
    Scanned(Vec<String>),
    /// The cache of the source asked for is not a git checkout.
    NotGit,
    /// The source asked for was fetched: the new commit, when HEAD moved.
    Fetched(Option<String>),
    /// The copy asked for was replaced from the cache.
    Copied,
    /// Go on (after an action that needs no outside work).
    Proceed,
}

/// What an update run asks of the outside world next.
#[derive(Debug)]
pub enum UpdateAction {
    /// Check that install `k`'s copy is ours and scan it for local changes.
    Scan(usize),
    /// Fetch the cache of this source and reset it to its upstream.
    Fetch(String),
    /// Check that install `k`'s copy is ours and replace it from the cache.
    Copy(usize),
    /// Nothing outside: the symlinks of this skill follow their sources.
    Follow(String),
    /// Save the registry; the run is over.
    Save,
}

/// The first planned copy at or after `from` that is to be replaced, or
/// the number of planned copies.
pub open spec fn next_update(c: Seq<CopyDecisionV>, from: int) -> int
    decreases c.len() - from,
{
    if from >= c.len() {
        c.len() as int
    } else if c[from].update {
        from
    } else {
        next_update(c, from + 1)
    }
}

/// Where a run waits next: a position in a phase, a refusal, or the end.
pub enum UpdateStop {
    At(UpdatePhase, int),
    Refused,
}

/// The symlink phase from position `i` on.
pub open spec fn follow_from(p: PlanV, i: int) -> UpdateStop {
    if i < p.symlinks.len() {
        UpdateStop::At(UpdatePhase::Follow, i)
    } else {
        UpdateStop::At(UpdatePhase::Done, 0)
    }
}

/// The copy phase from position `j` on.
pub open spec fn copy_from(p: PlanV, j: int) -> UpdateStop {
    let j2 = next_update(p.copies, j);
    if j2 < p.copies.len() {
        UpdateStop::At(UpdatePhase::Copy, j2)
    } else {
        follow_from(p, 0)
    }
}

/// The fetch phase from position `i` on.
pub open spec fn fetch_from(p: PlanV, i: int) -> UpdateStop {
    if i < p.sources.len() {
        UpdateStop::At(UpdatePhase::Fetch, i)
    } else {
        copy_from(p, 0)
    }
}

/// The scan phase from position `j` on, with `clean` telling whether no
/// copy scanned so far had local changes: after the last copy the run is
/// refused unless all were clean.
pub open spec fn scan_from(p: PlanV, j: int, clean: bool) -> UpdateStop {
    let j2 = next_update(p.copies, j);
    if j2 < p.copies.len() {
        UpdateStop::At(UpdatePhase::Scan, j2)
    } else if !clean {
        UpdateStop::Refused
    } else {
        fetch_from(p, 0)
    }
}

/// Action `a` is the one of `phase`, on install `k` or on `name`.
pub open spec fn asks(a: UpdateAction, phase: UpdatePhase, k: int, name: Seq<char>) -> bool {
    match a {
        UpdateAction::Scan(x) => phase == UpdatePhase::Scan && x == k,
        UpdateAction::Copy(x) => phase == UpdatePhase::Copy && x == k,
        UpdateAction::Fetch(s) => phase == UpdatePhase::Fetch && s@ == name,
        UpdateAction::Follow(s) => phase == UpdatePhase::Follow && s@ == name,
        UpdateAction::Save => phase == UpdatePhase::Done,
    }
}

/// What a run that stops at `stop` gives, for registry `reg`: the state
/// (keeping `reports` and `done`) and the action, or the error of the
/// install check at a copy, or the refusal carrying every report.
pub open spec fn stopped_at(
    reg: Registry,
    p: PlanV,
    stop: UpdateStop,
    reports: Seq<Seq<char>>,
    done: Seq<Seq<char>>,
    r: Result<(UpdateState, UpdateAction), Error>,
) -> bool {
    match stop {
        UpdateStop::Refused => r matches Err(Error::Mismatch(m)) && m@ == join_lines(reports),
        UpdateStop::At(phase, n) => {
            let keeps = |st: UpdateState|
                st.phase == phase && st.next == n && views_of(st.reports@) == reports && views_of(
                    st.done@,
                ) == done;
            match phase {
                UpdatePhase::Scan | UpdatePhase::Copy => {
                    let d = p.copies[n];
                    let k = install_index(reg.installs@, d.skill, d.target);
                    if k >= 0 && record_ok(reg.installs@[k]) {
                        r matches Ok((st, a)) && keeps(st) && st.install == k && asks(a, phase, k, Seq::empty())
                    } else if k < 0 {
                        r matches Err(Error::NotInstalled(m)) && m@ == skill_at(d.skill, d.target)
                    } else {
                        r matches Err(e) && e is Mismatch
                    }
                },
                UpdatePhase::Fetch => r matches Ok((st, a)) && keeps(st) && asks(a, phase, 0, p.sources[n]),
                UpdatePhase::Follow => r matches Ok((st, a)) && keeps(st) && asks(a, phase, 0, p.symlinks[n]),
                UpdatePhase::Done => r matches Ok((st, a)) && keeps(st) && a is Save,
            }
        },
    }
}


/// Where a run that resumes in `phase` at position `from` stops next.
pub open spec fn resume(p: PlanV, phase: UpdatePhase, from: int, clean: bool) -> UpdateStop {
    match phase {
        UpdatePhase::Scan => scan_from(p, from, clean),
        UpdatePhase::Fetch => fetch_from(p, from),
        UpdatePhase::Copy => copy_from(p, from),
        UpdatePhase::Follow => follow_from(p, from),
        UpdatePhase::Done => UpdateStop::At(UpdatePhase::Done, 0),
    }
}

/// The first copy to replace at or after `from`.
fn next_update_at(copies: &Vec<CopyDecision>, from: usize) -> (r: usize)
    requires
        from <= copies@.len(),
    ensures
        r == next_update(copies@.map_values(|c: CopyDecision| c@), from as int),
        r <= copies@.len(),
    decreases copies@.len() - from,
{
    let ghost c = copies@.map_values(|c: CopyDecision| c@);
    if from >= copies.len() {
        return from;
    }
    assert(c[from as int] == copies@[from as int]@);
    if copies[from].update {
        from
    } else {
        next_update_at(copies, from + 1)
    }
}

/// The state and action at a copy to scan or replace, after checking its
/// install record.
fn at_copy(
    reg: &Registry,
    plan: &Plan,
    phase: UpdatePhase,
    j: usize,
    reports: Vec<String>,
    done: Vec<String>,
) -> (r: Result<(UpdateState, UpdateAction), Error>)
    requires
        j < plan@.copies.len(),
        phase == UpdatePhase::Scan || phase == UpdatePhase::Copy,
    ensures
        stopped_at(*reg, plan@, UpdateStop::At(phase, j as int), views_of(reports@), views_of(done@), r),
{
    let ghost p = plan@;
    assert(p.copies[j as int] == plan.copies@[j as int]@);
    let d = &plan.copies[j];
    match checked_install(reg, d.skill.as_str(), &d.target) {
        Ok(k) => {
            let a = if phase == UpdatePhase::Scan {
                UpdateAction::Scan(k)
            } else {
                UpdateAction::Copy(k)
            };
            Ok((UpdateState { phase, next: j, install: k, reports, done }, a))
        },
        Err(e) => Err(e),
    }
}

/// Run on from `phase` at position `from` until outside work is needed.
fn run_to(
    reg: &Registry,
    plan: &Plan,
    phase: UpdatePhase,
    from: usize,
    reports: Vec<String>,
    done: Vec<String>,
) -> (r: Result<(UpdateState, UpdateAction), Error>)
    requires
        phase == UpdatePhase::Scan ==> from <= plan@.copies.len(),
        phase == UpdatePhase::Fetch ==> from <= plan@.sources.len(),
        phase == UpdatePhase::Copy ==> from <= plan@.copies.len(),
        phase == UpdatePhase::Follow ==> from <= plan@.symlinks.len(),
    ensures
        stopped_at(
            *reg,
            plan@,
            resume(plan@, phase, from as int, reports@.len() == 0),
            views_of(reports@),
            views_of(done@),
            r,
        ),
{
    let ghost p = plan@;
    assert(p.copies =~= plan.copies@.map_values(|c: CopyDecision| c@));
    let mut phase = phase;
    let mut from = from;
    if phase == UpdatePhase::Scan {
        let j = next_update_at(&plan.copies, from);
        if j < plan.copies.len() {
            return at_copy(reg, plan, phase, j, reports, done);
        }
        match prescan_refusal(&reports) {
            Ok(()) => {},
            Err(e) => {
                return Err(e);
            },
        }
        phase = UpdatePhase::Fetch;
        from = 0;
    }
    if phase == UpdatePhase::Fetch {
        if from < plan.sources.len() {
            let key = plan.sources[from].clone();
            assert(p.sources[from as int] == plan.sources@[from as int]@);
            return Ok((UpdateState { phase, next: from, install: 0, reports, done }, UpdateAction::Fetch(key)));
        }
        phase = UpdatePhase::Copy;
        from = 0;
    }
    if phase == UpdatePhase::Copy {
        let j = next_update_at(&plan.copies, from);
        if j < plan.copies.len() {
            return at_copy(reg, plan, phase, j, reports, done);
        }
        phase = UpdatePhase::Follow;
        from = 0;
    }
    if phase == UpdatePhase::Follow {
        if from < plan.symlinks.len() {
            let name = plan.symlinks[from].clone();
            assert(p.symlinks[from as int] == plan.symlinks@[from as int]@);
            return Ok((UpdateState { phase, next: from, install: 0, reports, done }, UpdateAction::Follow(name)));
        }
    }
    Ok((UpdateState { phase: UpdatePhase::Done, next: 0, install: 0, reports, done }, UpdateAction::Save))
}


/// The message of [`no_remote_error`].
pub open spec fn no_remote_message(key: Seq<char>) -> Seq<char> {
    "source "@ + key + " 的缓存不是 git 仓库，没有远端可拉取；本地源请重新 add 对应本地路径刷新"@
}

/// Event `ev` is one that state `st` waits for.
pub open spec fn step_fits(reg: Registry, p: PlanV, st: UpdateState, ev: UpdateEvent) -> bool {
    match ev {
        UpdateEvent::Start => true,
        UpdateEvent::Scanned(_) => st.phase == UpdatePhase::Scan && st.next < p.copies.len(),
        UpdateEvent::NotGit => st.phase == UpdatePhase::Fetch && st.next < p.sources.len(),
        UpdateEvent::Fetched(_) => st.phase == UpdatePhase::Fetch && st.next < p.sources.len(),
        UpdateEvent::Copied => st.phase == UpdatePhase::Copy && st.next < p.copies.len() && st.install
            < reg.installs@.len(),
        UpdateEvent::Proceed => st.phase == UpdatePhase::Follow && st.next < p.symlinks.len(),
    }
}

/// The reports after scanning the copy of `d` and finding `lines`.
pub open spec fn with_report(reports: Seq<Seq<char>>, d: CopyDecisionV, lines: Seq<Seq<char>>) -> Seq<
    Seq<char>,
> {
    if lines.len() == 0 {
        reports
    } else {
        reports.push(local_change_report(d.skill, d.target, lines))
    }
}

/// One step of an update run: what event `ev` does to the registry, and
/// where the run then stops. Scanning changes nothing; a run without
/// `force` starts with the scan, and leaves it only when every copy to
/// replace was scanned clean.
pub open spec fn step_effect(
    old: Registry,
    new: Registry,
    p: PlanV,
    force: bool,
    st: UpdateState,
    ev: UpdateEvent,
    r: Result<(UpdateState, UpdateAction), Error>,
) -> bool {
    let reports = views_of(st.reports@);
    let done = views_of(st.done@);
    match ev {
        UpdateEvent::Start => new == old && stopped_at(
            old,
            p,
            if force {
                fetch_from(p, 0)
            } else {
                scan_from(p, 0, true)
            },
            Seq::empty(),
            Seq::empty(),
            r,
        ),
        UpdateEvent::Scanned(lines) => {
            let reps = with_report(reports, p.copies[st.next as int], views_of(lines@));
            new == old && stopped_at(old, p, scan_from(p, st.next + 1, reps.len() == 0), reps, done, r)
        },
        UpdateEvent::NotGit => new == old && (r matches Err(Error::Msg(m)) && m@ == no_remote_message(
            p.sources[st.next as int],
        )),
        UpdateEvent::Fetched(None) => new == old && stopped_at(
            old,
            p,
            fetch_from(p, st.next + 1),
            reports,
            done,
            r,
        ),
        UpdateEvent::Fetched(Some(c)) => {
            let key = p.sources[st.next as int];
            fetch_recorded(old, new, key, c) && stopped_at(
                new,
                p,
                fetch_from(p, st.next + 1),
                reports,
                done.push(fetched_line(key, c@)),
                r,
            )
        },
        UpdateEvent::Copied => {
            let i = old.installs@[st.install as int];
            let d = p.copies[st.next as int];
            copy_synced(old, new, st.install as int) && match lookup(old.sources@, i.source@) {
                Some(_) => stopped_at(
                    new,
                    p,
                    copy_from(p, st.next + 1),
                    reports,
                    done.push(copied_line(i.skill@, d.target)),
                    r,
                ),
                None => r matches Err(Error::Mismatch(m)) && m@ == unregistered_message(i.source@),
            }
        },
        UpdateEvent::Proceed => {
            let name = p.symlinks[st.next as int];
            let k = unregistered_at(old.installs@, old.sources@, name);
            links_followed(old, new, name) && if k < 0 {
                stopped_at(new, p, follow_from(p, st.next + 1), reports, done.push(followed_line(name)), r)
            } else {
                r matches Err(Error::Mismatch(m)) && m@ == unregistered_message(old.installs@[k].source@)
            }
        },
    }
}

/// Advance an update run by one event. A plan naming a missing install is
/// refused at once; otherwise [`step_effect`] says what happens.
pub fn update_step(
    reg: &mut Registry,
    plan: &Plan,
    force: bool,
    st: UpdateState,
    ev: UpdateEvent,
) -> (r: Result<(UpdateState, UpdateAction), Error>)
    requires
        old(reg).wf(),
        step_fits(*old(reg), plan@, st, ev),
    ensures
        final(reg).wf(),
        plan@.missing is Some ==> *final(reg) == *old(reg) && (r matches Err(Error::NotInstalled(m))
            && m@ == plan@.missing->0),
        plan@.missing is None ==> step_effect(*old(reg), *final(reg), plan@, force, st, ev, r),
{
    if let Some(m) = &plan.missing {
        return Err(Error::NotInstalled(m.clone()));
    }
    let ghost p = plan@;
    let ghost old_reg = *reg;
    let ghost ev0 = ev;
    let _n_copies = plan.copies.len();
    let _n_sources = plan.sources.len();
    let _n_links = plan.symlinks.len();
    assert(p.copies.len() == plan.copies@.len());
    assert(p.sources.len() == plan.sources@.len());
    assert(p.symlinks.len() == plan.symlinks@.len());
    match ev {
        UpdateEvent::Start => {
            let reports: Vec<String> = Vec::new();
            let done: Vec<String> = Vec::new();
            assert(views_of(reports@) =~= Seq::<Seq<char>>::empty());
            assert(views_of(done@) =~= Seq::<Seq<char>>::empty());
            if force {
                run_to(reg, plan, UpdatePhase::Fetch, 0, reports, done)
            } else {
                run_to(reg, plan, UpdatePhase::Scan, 0, reports, done)
            }
        },
        UpdateEvent::Scanned(lines) => {
            let j = st.next;
            let mut reports = st.reports;
            assert(p.copies[j as int] == plan.copies@[j as int]@);
            let d = &plan.copies[j];
            let ghost before = reports@;
            match prescan_report(d.skill.as_str(), &d.target, &lines) {
                Some(rep) => {
                    reports.push(rep);
                    assert(views_of(reports@) =~= views_of(before).push(views_of(reports@).last()));
                },
                None => {},
            }
            run_to(reg, plan, UpdatePhase::Scan, j + 1, reports, st.done)
        },
        UpdateEvent::NotGit => Err(no_remote_error(plan.sources[st.next].as_str())),
        UpdateEvent::Fetched(None) => run_to(reg, plan, UpdatePhase::Fetch, st.next + 1, st.reports, st.done),
        UpdateEvent::Fetched(Some(c)) => {
            let key = plan.sources[st.next].as_str();
            let line = record_fetch_now(reg, key, c);
            let mut done = st.done;
            let ghost before = done@;
            done.push(line);
            assert(views_of(done@) =~= views_of(before).push(line@));
            run_to(reg, plan, UpdatePhase::Fetch, st.next + 1, st.reports, done)
        },
        UpdateEvent::Copied => {
            let d = &plan.copies[st.next];
            assert(p.copies[st.next as int] == plan.copies@[st.next as int]@);
            match sync_copy_commit(reg, st.install, &d.target) {
                Ok(line) => {
                    let mut done = st.done;
                    let ghost before = done@;
                    done.push(line);
                    assert(views_of(done@) =~= views_of(before).push(line@));
                    run_to(reg, plan, UpdatePhase::Copy, st.next + 1, st.reports, done)
                },
                Err(e) => Err(e),
            }
        },
        UpdateEvent::Proceed => {
            assert(p.symlinks[st.next as int] == plan.symlinks@[st.next as int]@);
            match sync_symlink_commits(reg, plan.symlinks[st.next].as_str()) {
                Ok(line) => {
                    let mut done = st.done;
                    let ghost before = done@;
                    done.push(line);
                    assert(views_of(done@) =~= views_of(before).push(line@));
                    run_to(reg, plan, UpdatePhase::Follow, st.next + 1, st.reports, done)
                },
                Err(e) => Err(e),
            }
        },
    }
}


/// Without `force` an update changes nothing before every copy to replace
/// was scanned and none had local changes: from the scan, a run gets to
/// fetching, copying, following or saving only when no copy is left to
/// scan and every report so far was clean; otherwise it scans on, or is
/// refused.
pub proof fn law_scan_before_change(p: PlanV, j: int, clean: bool)
    requires
        0 <= j,
    ensures
        scan_from(p, j, clean) matches UpdateStop::At(ph, _) && ph != UpdatePhase::Scan
            ==> next_update(p.copies, j) == p.copies.len() && clean,
        scan_from(p, j, clean) is Refused ==> next_update(p.copies, j) == p.copies.len() && !clean,
{
    lemma_next_update_bound(p.copies, j);
}

/// The next copy to replace is never past the end.
proof fn lemma_next_update_bound(c: Seq<CopyDecisionV>, from: int)
    requires
        0 <= from,
    ensures
        next_update(c, from) <= c.len(),
    decreases c.len() - from,
{
    if from < c.len() && !c[from].update {
        lemma_next_update_bound(c, from + 1);
    }
}


/// Letting a skill's symlinks follow their sources, when every such
/// source is registered, brings every symlink install of that skill (in
/// whatever target) to its source's current commit, keeping all else of
/// it; every other install is left exactly as it was.
pub proof fn law_follow_reaches_every_link(old: Registry, new: Registry, name: Seq<char>)
    requires
        links_followed(old, new, name),
        unregistered_at(old.installs@, old.sources@, name) < 0,
    ensures
        new.installs@.len() == old.installs@.len(),
        forall|j: int|
            0 <= j < old.installs@.len() && (#[trigger] old.installs@[j]).skill@ == name
                && old.installs@[j].method == Method::Symlink ==> has_key(
                old.sources@,
                old.installs@[j].source@,
            ) && new.installs@[j].commit == lookup(old.sources@, old.installs@[j].source@)->0.commit
                && new.installs@[j] == with_commit(old.installs@[j], new.installs@[j].commit),
        forall|j: int|
            0 <= j < old.installs@.len() && !((#[trigger] old.installs@[j]).skill@ == name
                && old.installs@[j].method == Method::Symlink) ==> new.installs@[j] == old.installs@[j],
{
    let s = old.installs@;
    let p = |j: int| follows(s[j], name) && !has_key(old.sources@, s[j].source@);
    assert forall|j: int| 0 <= j < s.len() && follows(s[j], name) implies has_key(old.sources@, s[j].source@) by {
        if !has_key(old.sources@, s[j].source@) {
            assert(p(j));
            crate::text::lemma_first_where_exists(s.len() as int, p, j);
        }
    }
    assert forall|j: int|
        0 <= j < s.len() && (#[trigger] s[j]).skill@ == name && s[j].method == Method::Symlink implies has_key(
        old.sources@,
        s[j].source@,
    ) && new.installs@[j].commit == lookup(old.sources@, s[j].source@)->0.commit && new.installs@[j]
        == with_commit(s[j], new.installs@[j].commit) by {
        assert(follows(s[j], name));
        assert(new.installs@[j] == synced(s[j], old.sources@));
    }
    assert forall|j: int|
        0 <= j < s.len() && !((#[trigger] s[j]).skill@ == name && s[j].method == Method::Symlink)
            implies new.installs@[j] == s[j] by {
        assert(!follows(s[j], name));
        assert(new.installs@[j] == s[j]);
    }
}


/// After a copy was re-copied from a registered source, that install
/// records its source's current commit and keeps everything else; every
/// other install, and the sources and bookmarks, are as they were.
pub proof fn law_copy_takes_source_commit(old: Registry, new: Registry, k: int)
    requires
        0 <= k < old.installs@.len(),
        copy_synced(old, new, k),
        has_key(old.sources@, old.installs@[k].source@),
    ensures
        new.installs@.len() == old.installs@.len(),
        new.installs@[k].commit == lookup(old.sources@, old.installs@[k].source@)->0.commit,
        new.installs@[k].skill == old.installs@[k].skill,
        new.installs@[k].target == old.installs@[k].target,
        new.installs@[k].source == old.installs@[k].source,
        new.installs@[k].method == old.installs@[k].method,
        new.installs@[k].tags == old.installs@[k].tags,
        new.installs@[k].auto_update == old.installs@[k].auto_update,
        forall|j: int| 0 <= j < old.installs@.len() && j != k ==> #[trigger] new.installs@[j] == old.installs@[j],
        new.sources == old.sources,
        new.favorites == old.favorites,
{
}

} // verus!
