//! What each command decides from its arguments and the registry: the
//! update plan for the given skills, the installs a removal touches, the
//! rows `list` shows, the favorites listing, and the auto-update switch.

use vstd::prelude::*;

use crate::error::Error;
use crate::paths::{parse_target_spec, target_same, Target, TargetV};
use crate::registry::{install_index, Install, Registry, TargetRec};
use crate::install::to_rec;
use crate::text::{first_where, lemma_first_where, sort_strs, sort_strings, str_eq, views_of, seq_lt, sorted_le, strictly_sorted, lemma_sort_strs_sorted, lemma_seq_lt_total, lemma_seq_lt_trans};
use crate::tags::{has_tag, install_has_tag};
use crate::remove::{method_debug, method_debug_text};
use crate::registry::{Favorite, FavSkill, SourceRecord, Method};
use crate::strmap::{has_key, lookup};
use crate::tui::single_skill;
use crate::favorites::{is_single_skill_repo, first_missing, entry_index, find_entry, find_name, name_index, now_rfc3339};
use crate::cache::SkillEntry;
use crate::config::{Config, default_global_target};
use crate::source::{opt_view, SourceSpec};
use crate::registry::fav_skills_view;
use crate::strmap::insert_spec;
use crate::tags::{set_tags, with_tags};
use crate::text::{take_chars, take_chars_text};
use crate::text::{concat2, concat3};
use crate::update::{path_debug, path_debug_text, str_debug, debug_text, target_debug, target_debug_text, build_plan, selected_plan, policy_plan, skill_at, CopyDecision, CopyDecisionV,
    Plan, PlanV, Selection};

verus! {

/// `s` with each run of equal neighbours kept once (`Vec::dedup`).
pub open spec fn dedup_adjacent(s: Seq<Seq<char>>) -> Seq<Seq<char>>
    decreases s.len(),
{
    if s.len() == 0 {
        s
    } else {
        let d = dedup_adjacent(s.drop_last());
        if d.len() > 0 && d.last() == s.last() {
            d
        } else {
            d.push(s.last())
        }
    }
}

/// The explicit plans of `skills` in target `t`, concatenated in order.
pub open spec fn merged_plans(reg: Registry, skills: Seq<Seq<char>>, t: TargetV) -> PlanV
    decreases skills.len(),
{
    if skills.len() == 0 {
        PlanV { sources: Seq::empty(), symlinks: Seq::empty(), copies: Seq::empty(), missing: None }
    } else {
        let a = merged_plans(reg, skills.drop_last(), t);
        let b = selected_plan(reg, skills.last(), t);
        PlanV {
            sources: a.sources + b.sources,
            symlinks: a.symlinks + b.symlinks,
            copies: a.copies + b.copies,
            missing: None,
        }
    }
}

/// Index of the first of `skills` with no install in `t`, or -1.
pub open spec fn first_uninstalled(reg: Registry, skills: Seq<Seq<char>>, t: TargetV) -> int {
    first_where(skills.len() as int, |j: int| install_index(reg.installs@, skills[j], t) < 0)
}

/// The message for `--all` with skills or a target.
pub open spec fn all_conflict_message() -> Seq<char> {
    "--all 是显式全量更新，不能与技能名/--target 同用"@
}

/// Vec of strings with adjacent duplicates removed.
fn dedup_strings(v: Vec<String>) -> (r: Vec<String>)
    ensures
        views_of(r@) == dedup_adjacent(views_of(v@)),
{
    let ghost s = views_of(v@);
    let n = v.len();
    let mut out: Vec<String> = Vec::new();
    let mut i: usize = 0;
    assert(s.subrange(0, 0) =~= Seq::<Seq<char>>::empty());
    while i < n
        invariant
            n == v@.len(),
            s == views_of(v@),
            i <= n,
            views_of(out@) == dedup_adjacent(s.subrange(0, i as int)),
        decreases n - i,
    {
        assert(s.subrange(0, i + 1).drop_last() =~= s.subrange(0, i as int));
        let ghost before = views_of(out@);
        let m = out.len();
        let keep = m == 0 || !str_eq(out[m - 1].as_str(), v[i].as_str());
        if keep {
            out.push(v[i].clone());
            assert(views_of(out@) =~= before.push(s[i as int]));
        }
        i = i + 1;
    }
    assert(s.subrange(0, n as int) =~= s);
    out
}

/// The plan `skills update` runs for its arguments: everything by policy
/// with no skill and no target; each named skill forced in `--target`
/// otherwise, their plans merged (sources sorted, duplicates dropped).
/// `--all` with skills or a target, a target without skills, skills
/// without a target, a bad target and a named skill not installed there
/// are errors.
pub fn plan_for_args(reg: &Registry, skills: &Vec<String>, target: &Option<String>, all: bool) -> (r:
    Result<Plan, Error>)
    requires
        reg.wf(),
    ensures
        all && (skills@.len() > 0 || target is Some) ==> (r matches Err(Error::Msg(m)) && m@
            == all_conflict_message()),
        !(all && (skills@.len() > 0 || target is Some)) ==> match (skills@.len() > 0, target) {
            (false, None) => r matches Ok(p) && p@ == policy_plan(*reg),
            (false, Some(_)) => r matches Err(Error::Msg(m)) && m@
                == "--target 需搭配技能名：skills update <技能> --target <目标>"@,
            (true, None) => r matches Err(Error::Msg(m)) && m@
                == "显式更新技能必须同时给出 --target（或不带技能名做全量更新）"@,
            (true, Some(t)) => match parse_target_spec(t@) {
                None => r matches Err(Error::BadTarget(m)) && m@ == t@,
                Some(tv) => {
                    let k = first_uninstalled(*reg, views_of(skills@), tv);
                    let mp = merged_plans(*reg, views_of(skills@), tv);
                    if k >= 0 {
                        r matches Err(Error::NotInstalled(m)) && m@ == skill_at(skills@[k]@, tv)
                    } else {
                        r matches Ok(p) && p@ == PlanV {
                            sources: dedup_adjacent(sort_strs(mp.sources)),
                            symlinks: mp.symlinks,
                            copies: mp.copies,
                            missing: None,
                        }
                    }
                },
            },
        },
{
    if all && (skills.len() > 0 || target.is_some()) {
        return Err(Error::Msg(String::from_str("--all 是显式全量更新，不能与技能名/--target 同用")));
    }
    match target {
        None => {
            if skills.len() == 0 {
                Ok(build_plan(reg, None))
            } else {
                Err(
                    Error::Msg(
                        String::from_str("显式更新技能必须同时给出 --target（或不带技能名做全量更新）"),
                    ),
                )
            }
        },
        Some(t) => {
            if skills.len() == 0 {
                return Err(
                    Error::Msg(String::from_str("--target 需搭配技能名：skills update <技能> --target <目标>")),
                );
            }
            let parsed = match Target::parse(t.as_str()) {
                Ok(p) => p,
                Err(e) => {
                    return Err(e);
                },
            };
            let rec = to_rec(&parsed);
            let ghost tv = rec@;
            let ghost sk = views_of(skills@);
            let ghost pr = |j: int| install_index(reg.installs@, sk[j], tv) < 0;
            let n = skills.len();
            let mut sources: Vec<String> = Vec::new();
            let mut symlinks: Vec<String> = Vec::new();
            let mut copies: Vec<CopyDecision> = Vec::new();
            let mut i: usize = 0;
            assert(sk.subrange(0, 0) =~= Seq::<Seq<char>>::empty());
            while i < n
                invariant
                    reg.wf(),
                    !all,
                    n > 0,
                    (*target) matches Some(tt) && tt@ == t@,
                    parse_target_spec(t@) == Some(tv),
                    n == skills@.len(),
                    sk == views_of(skills@),
                    tv == rec@,
                    pr == (|j: int| install_index(reg.installs@, sk[j], tv) < 0),
                    i <= n,
                    forall|j: int| 0 <= j < i ==> !#[trigger] pr(j),
                    views_of(sources@) == merged_plans(*reg, sk.subrange(0, i as int), tv).sources,
                    views_of(symlinks@) == merged_plans(*reg, sk.subrange(0, i as int), tv).symlinks,
                    copies@.map_values(|c: CopyDecision| c@) == merged_plans(
                        *reg,
                        sk.subrange(0, i as int),
                        tv,
                    ).copies,
                decreases n - i,
            {
                let sel = Selection { skill: skills[i].clone(), target: rec.clone() };
                let mut p = build_plan(reg, Some(&sel));
                assert(sk.subrange(0, i + 1).drop_last() =~= sk.subrange(0, i as int));
                assert(sk.subrange(0, i + 1).last() == sk[i as int]);
                match p.missing {
                    Some(m) => {
                        proof {
                            lemma_first_where(n as int, pr, i as int);
                        }
                        return Err(Error::NotInstalled(m));
                    },
                    None => {},
                }
                let ghost s0 = views_of(sources@);
                let ghost l0 = views_of(symlinks@);
                let ghost c0 = copies@.map_values(|c: CopyDecision| c@);
                let ghost ps = views_of(p.sources@);
                let ghost pl = views_of(p.symlinks@);
                let ghost pc = p.copies@.map_values(|c: CopyDecision| c@);
                let ghost cs = copies@;
                let ghost pcs = p.copies@;
                sources.append(&mut p.sources);
                symlinks.append(&mut p.symlinks);
                copies.append(&mut p.copies);
                assert(views_of(sources@) =~= s0 + ps);
                assert(views_of(symlinks@) =~= l0 + pl);
                assert(copies@ =~= cs + pcs);
                assert(copies@.map_values(|c: CopyDecision| c@) =~= c0 + pc);
                i = i + 1;
            }
            proof {
                lemma_first_where(n as int, pr, -1);
            }
            assert(sk.subrange(0, n as int) =~= sk);
            let sorted = sort_strings(&sources);
            let uniq = dedup_strings(sorted);
            Ok(Plan { sources: uniq, symlinks, copies, missing: None })
        },
    }
}


/// A (skill, target) pair of the removal list.
pub open spec fn pair_of(i: Install) -> (Seq<char>, TargetV) {
    (i.skill@, i.target@)
}

/// Views of removal pairs.
pub open spec fn pairs_view(s: Seq<(String, TargetRec)>) -> Seq<(Seq<char>, TargetV)> {
    s.map_values(|p: (String, TargetRec)| (p.0@, p.1@))
}

/// The pairs of the installs carrying `tag`, in order.
pub open spec fn tag_pairs(s: Seq<Install>, tag: Seq<char>) -> Seq<(Seq<char>, TargetV)>
    decreases s.len(),
{
    if s.len() == 0 {
        Seq::empty()
    } else {
        let p = tag_pairs(s.drop_last(), tag);
        if has_tag(s.last(), tag) {
            p.push(pair_of(s.last()))
        } else {
            p
        }
    }
}

/// The pairs of the installs of `skill`, in order.
pub open spec fn skill_pairs(s: Seq<Install>, skill: Seq<char>) -> Seq<(Seq<char>, TargetV)>
    decreases s.len(),
{
    if s.len() == 0 {
        Seq::empty()
    } else {
        let p = skill_pairs(s.drop_last(), skill);
        if s.last().skill@ == skill {
            p.push(pair_of(s.last()))
        } else {
            p
        }
    }
}

/// The pairs named by `skills`: each skill with every target of `ts`, or,
/// with no target, every install of that skill.
pub open spec fn named_pairs(s: Seq<Install>, skills: Seq<Seq<char>>, ts: Seq<TargetV>) -> Seq<
    (Seq<char>, TargetV),
>
    decreases skills.len(),
{
    if skills.len() == 0 {
        Seq::empty()
    } else {
        named_pairs(s, skills.drop_last(), ts) + if ts.len() == 0 {
            skill_pairs(s, skills.last())
        } else {
            ts.map_values(|t: TargetV| (skills.last(), t))
        }
    }
}

/// The same skill in the same target (targets compared as [`target_same`]).
pub open spec fn same_pair(a: (Seq<char>, TargetV), b: (Seq<char>, TargetV)) -> bool {
    a.0 == b.0 && target_same(a.1, b.1)
}

/// Whether `s` already holds a pair the same as `p`.
pub open spec fn holds_pair(s: Seq<(Seq<char>, TargetV)>, p: (Seq<char>, TargetV)) -> bool {
    exists|j: int| 0 <= j < s.len() && same_pair(#[trigger] s[j], p)
}

/// `s` with later repeats of a pair dropped.
pub open spec fn dedup_pairs(s: Seq<(Seq<char>, TargetV)>) -> Seq<(Seq<char>, TargetV)>
    decreases s.len(),
{
    if s.len() == 0 {
        s
    } else {
        let d = dedup_pairs(s.drop_last());
        if holds_pair(d, s.last()) {
            d
        } else {
            d.push(s.last())
        }
    }
}

/// Index of the first target text that does not parse, or -1.
pub open spec fn first_bad_target(ts: Seq<Seq<char>>) -> int {
    first_where(ts.len() as int, |j: int| parse_target_spec(ts[j]) is None)
}

/// What the target texts denote (each parses).
pub open spec fn parsed_targets(ts: Seq<Seq<char>>) -> Seq<TargetV> {
    ts.map_values(|t: Seq<char>| parse_target_spec(t)->0)
}

/// Parse every target text, stopping at the first that does not parse.
pub fn parse_targets(ts: &Vec<String>) -> (r: Result<Vec<TargetRec>, Error>)
    ensures
        ({
            let k = first_bad_target(views_of(ts@));
            match r {
                Ok(v) => k < 0 && v@.map_values(|t: TargetRec| t@) == parsed_targets(views_of(ts@)),
                Err(e) => k >= 0 && (e matches Error::BadTarget(m) && m@ == ts@[k]@),
            }
        }),
{
    let ghost tv = views_of(ts@);
    let ghost pr = |j: int| parse_target_spec(tv[j]) is None;
    let n = ts.len();
    let mut out: Vec<TargetRec> = Vec::new();
    let mut i: usize = 0;
    while i < n
        invariant
            n == ts@.len(),
            tv == views_of(ts@),
            pr == (|j: int| parse_target_spec(tv[j]) is None),
            i <= n,
            forall|j: int| 0 <= j < i ==> !#[trigger] pr(j),
            out@.map_values(|t: TargetRec| t@) == parsed_targets(tv).subrange(0, i as int),
        decreases n - i,
    {
        match Target::parse(ts[i].as_str()) {
            Ok(t) => {
                let ghost before = out@.map_values(|t: TargetRec| t@);
                out.push(to_rec(&t));
                assert(out@.map_values(|t: TargetRec| t@) =~= before.push(t@));
                assert(parsed_targets(tv).subrange(0, i + 1) =~= parsed_targets(tv).subrange(
                    0,
                    i as int,
                ).push(t@));
            },
            Err(e) => {
                proof {
                    lemma_first_where(n as int, pr, i as int);
                }
                return Err(e);
            },
        }
        i = i + 1;
    }
    proof {
        lemma_first_where(n as int, pr, -1);
    }
    assert(parsed_targets(tv).subrange(0, n as int) =~= parsed_targets(tv));
    Ok(out)
}

/// Whether the pair list already holds (`skill`, `t`).
fn has_pair(v: &Vec<(String, TargetRec)>, skill: &str, t: &TargetRec) -> (r: bool)
    ensures
        r == holds_pair(pairs_view(v@), (skill@, t@)),
{
    let n = v.len();
    let mut i: usize = 0;
    while i < n
        invariant
            n == v@.len(),
            i <= n,
            forall|j: int| 0 <= j < i ==> !same_pair(#[trigger] pairs_view(v@)[j], (skill@, t@)),
        decreases n - i,
    {
        if str_eq(v[i].0.as_str(), skill) && v[i].1.same(t) {
            assert(same_pair(pairs_view(v@)[i as int], (skill@, t@)));
            return true;
        }
        i = i + 1;
    }
    false
}

/// Push (`skill`, `t`) unless already there.
fn push_pair(v: &mut Vec<(String, TargetRec)>, skill: &String, t: &TargetRec)
    ensures
        pairs_view(final(v)@) == if holds_pair(pairs_view(old(v)@), (skill@, t@)) {
            pairs_view(old(v)@)
        } else {
            pairs_view(old(v)@).push((skill@, t@))
        },
{
    if !has_pair(v, skill.as_str(), t) {
        let ghost before = pairs_view(v@);
        v.push((skill.clone(), t.clone()));
        assert(pairs_view(v@) =~= before.push((skill@, t@)));
    }
}

/// Appending to a deduplicated list one by one deduplicates the whole.
proof fn lemma_dedup_append(a: Seq<(Seq<char>, TargetV)>, b: Seq<(Seq<char>, TargetV)>)
    ensures
        dedup_pairs(a + b) == dedup_append(dedup_pairs(a), b),
    decreases b.len(),
{
    if b.len() == 0 {
        assert(a + b =~= a);
    } else {
        lemma_dedup_append(a, b.drop_last());
        assert((a + b).drop_last() =~= a + b.drop_last());
    }
}

/// `d` extended by the pairs of `b` it does not hold yet.
pub open spec fn dedup_append(d: Seq<(Seq<char>, TargetV)>, b: Seq<(Seq<char>, TargetV)>) -> Seq<
    (Seq<char>, TargetV),
>
    decreases b.len(),
{
    if b.len() == 0 {
        d
    } else {
        let e = dedup_append(d, b.drop_last());
        if holds_pair(e, b.last()) {
            e
        } else {
            e.push(b.last())
        }
    }
}

/// The (skill, target) pairs `skills remove` acts on: the installs
/// carrying `--tag`, then each named skill in every `--target` (or, with
/// none, every install of it), each pair once in first-seen order. A
/// target that does not parse is an error when skills are named.
pub fn removal_pairs(reg: &Registry, tag: &Option<String>, skills: &Vec<String>, targets: &Vec<
    String,
>) -> (r: Result<Vec<(String, TargetRec)>, Error>)
    ensures
        ({
            let tv = views_of(targets@);
            let k = first_bad_target(tv);
            let tp = match tag {
                Some(t) => tag_pairs(reg.installs@, t@),
                None => Seq::empty(),
            };
            match r {
                Ok(v) => !(skills@.len() > 0 && k >= 0) && pairs_view(v@) == dedup_pairs(
                    tp + named_pairs(reg.installs@, views_of(skills@), parsed_targets(tv)),
                ),
                Err(e) => skills@.len() > 0 && k >= 0 && (e matches Error::BadTarget(m) && m@
                    == targets@[k]@),
            }
        }),
{
    let recs: Vec<TargetRec> = if skills.len() > 0 {
        match parse_targets(targets) {
            Ok(v) => v,
            Err(e) => {
                return Err(e);
            },
        }
    } else {
        Vec::new()
    };
    let ghost tv = views_of(targets@);
    let ghost ts: Seq<TargetV> = if skills@.len() > 0 {
        parsed_targets(tv)
    } else {
        Seq::empty()
    };
    assert(recs@.map_values(|t: TargetRec| t@) == ts);
    let ghost inst = reg.installs@;
    let ghost sk = views_of(skills@);
    let ghost tp = match tag {
        Some(t) => tag_pairs(inst, t@),
        None => Seq::<(Seq<char>, TargetV)>::empty(),
    };
    let mut out: Vec<(String, TargetRec)> = Vec::new();
    let n = reg.installs.len();
    // the tag part
    match tag {
        Some(t) => {
            let mut j: usize = 0;
            assert(inst.subrange(0, 0) =~= Seq::<Install>::empty());
            while j < n
                invariant
                    n == inst.len(),
                    inst == reg.installs@,
                    j <= n,
                    pairs_view(out@) == dedup_pairs(tag_pairs(inst.subrange(0, j as int), t@)),
                decreases n - j,
            {
                assert(inst.subrange(0, j + 1).drop_last() =~= inst.subrange(0, j as int));
                if install_has_tag(&reg.installs[j], t.as_str()) {
                    push_pair(&mut out, &reg.installs[j].skill, &reg.installs[j].target);
                    proof {
                        let a = tag_pairs(inst.subrange(0, j as int), t@);
                        assert(a.push(pair_of(inst[j as int])).drop_last() =~= a);
                    }
                }
                j = j + 1;
            }
            assert(inst.subrange(0, n as int) =~= inst);
        },
        None => {
            assert(pairs_view(out@) =~= dedup_pairs(tp));
        },
    }
    assert(pairs_view(out@) == dedup_pairs(tp));
    // the named part
    let m = skills.len();
    let mut i: usize = 0;
    assert(sk.subrange(0, 0) =~= Seq::<Seq<char>>::empty());
    assert(tp + named_pairs(inst, sk.subrange(0, 0), ts) =~= tp);
    while i < m
        invariant
            m == skills@.len(),
            sk == views_of(skills@),
            n == inst.len(),
            inst == reg.installs@,
            recs@.map_values(|t: TargetRec| t@) == ts,
            i <= m,
            pairs_view(out@) == dedup_pairs(tp + named_pairs(inst, sk.subrange(0, i as int), ts)),
        decreases m - i,
    {
        let ghost base = tp + named_pairs(inst, sk.subrange(0, i as int), ts);
        assert(sk.subrange(0, i + 1).drop_last() =~= sk.subrange(0, i as int));
        let ghost part = if ts.len() == 0 {
            skill_pairs(inst, sk[i as int])
        } else {
            ts.map_values(|t: TargetV| (sk[i as int], t))
        };
        assert(tp + named_pairs(inst, sk.subrange(0, i + 1), ts) =~= base + part);
        proof {
            lemma_dedup_append(base, part);
        }
        let nt = recs.len();
        if nt == 0 {
            let mut j: usize = 0;
            assert(inst.subrange(0, 0) =~= Seq::<Install>::empty());
            assert(skill_pairs(inst.subrange(0, 0), sk[i as int]) =~= Seq::<(Seq<char>, TargetV)>::empty());
            while j < n
                invariant
                    n == inst.len(),
                    inst == reg.installs@,
                    sk == views_of(skills@),
                    i < m,
                    m == skills@.len(),
                    j <= n,
                    pairs_view(out@) == dedup_append(
                        dedup_pairs(base),
                        skill_pairs(inst.subrange(0, j as int), sk[i as int]),
                    ),
                decreases n - j,
            {
                assert(inst.subrange(0, j + 1).drop_last() =~= inst.subrange(0, j as int));
                let ghost b = skill_pairs(inst.subrange(0, j as int), sk[i as int]);
                assert(inst.subrange(0, j + 1).last() == inst[j as int]);
                if str_eq(reg.installs[j].skill.as_str(), skills[i].as_str()) {
                    push_pair(&mut out, &reg.installs[j].skill, &reg.installs[j].target);
                    assert(b.push(pair_of(inst[j as int])).drop_last() =~= b);
                    assert(skill_pairs(inst.subrange(0, j + 1), sk[i as int]) == b.push(pair_of(inst[j as int])));
                } else {
                    assert(skill_pairs(inst.subrange(0, j + 1), sk[i as int]) == b);
                }
                j = j + 1;
            }
            assert(inst.subrange(0, n as int) =~= inst);
        } else {
            let mut j: usize = 0;
            assert(ts.map_values(|t: TargetV| (sk[i as int], t)).subrange(0, 0) =~= Seq::<(Seq<char>, TargetV)>::empty());
            while j < nt
                invariant
                    nt == recs@.len(),
                    recs@.map_values(|t: TargetRec| t@) == ts,
                    sk == views_of(skills@),
                    i < m,
                    m == skills@.len(),
                    j <= nt,
                    pairs_view(out@) == dedup_append(
                        dedup_pairs(base),
                        ts.map_values(|t: TargetV| (sk[i as int], t)).subrange(0, j as int),
                    ),
                decreases nt - j,
            {
                let ghost q = ts.map_values(|t: TargetV| (sk[i as int], t));
                assert(q.subrange(0, j + 1).drop_last() =~= q.subrange(0, j as int));
                assert(q[j as int] == (skills@[i as int]@, recs@[j as int]@));
                push_pair(&mut out, &skills[i], &recs[j]);
                j = j + 1;
            }
            assert(ts.map_values(|t: TargetV| (sk[i as int], t)).subrange(0, nt as int) =~= ts.map_values(|t: TargetV| (sk[i as int], t)));
        }
        i = i + 1;
    }
    assert(sk.subrange(0, m as int) =~= sk);
    Ok(out)
}


/// The items of a `Debug` list, comma separated.
pub open spec fn debug_items(t: Seq<Seq<char>>) -> Seq<char>
    decreases t.len(),
{
    if t.len() == 0 {
        Seq::empty()
    } else if t.len() == 1 {
        str_debug(t[0])
    } else {
        debug_items(t.drop_last()) + ", "@ + str_debug(t.last())
    }
}

/// `{:?}` of a list of strings.
pub open spec fn tags_debug(t: Seq<Seq<char>>) -> Seq<char> {
    "["@ + debug_items(t) + "]"@
}

/// `{:?}` of an optional flag.
pub open spec fn opt_bool_debug(o: Option<bool>) -> Seq<char> {
    match o {
        None => "None"@,
        Some(true) => "Some(true)"@,
        Some(false) => "Some(false)"@,
    }
}

/// The line `list` prints for an install.
pub open spec fn install_line(i: Install) -> Seq<char> {
    i.skill@ + "\t"@ + method_debug(i.method) + "\t"@ + target_debug(i.target@) + "\ttags="@
        + tags_debug(views_of(i.tags@)) + "\tauto_update="@ + opt_bool_debug(i.auto_update)
}

/// Whether `list` shows install `i`: it carries `tag` (when given) and is
/// in `target` (when given), or else is global when `global` is set.
pub open spec fn list_keep(i: Install, tag: Option<Seq<char>>, target: Option<TargetV>, global: bool) -> bool {
    (match tag {
        Some(t) => has_tag(i, t),
        None => true,
    }) && match target {
        Some(t) => target_same(i.target@, t),
        None => !global || i.target@ is Global,
    }
}

/// The lines of the installs `list` shows, in registry order.
pub open spec fn list_rows(s: Seq<Install>, tag: Option<Seq<char>>, target: Option<TargetV>, global: bool) -> Seq<Seq<char>>
    decreases s.len(),
{
    if s.len() == 0 {
        Seq::empty()
    } else {
        let p = list_rows(s.drop_last(), tag, target, global);
        if list_keep(s.last(), tag, target, global) {
            p.push(install_line(s.last()))
        } else {
            p
        }
    }
}

/// `{:?}` text of a list of strings.
fn tags_debug_text(t: &Vec<String>) -> (r: String)
    ensures
        r@ == tags_debug(views_of(t@)),
{
    let ghost tv = views_of(t@);
    let n = t.len();
    let mut out = String::new();
    let mut i: usize = 0;
    assert(tv.subrange(0, 0) =~= Seq::<Seq<char>>::empty());
    while i < n
        invariant
            n == t@.len(),
            tv == views_of(t@),
            i <= n,
            out@ == debug_items(tv.subrange(0, i as int)),
        decreases n - i,
    {
        assert(tv.subrange(0, i + 1).drop_last() =~= tv.subrange(0, i as int));
        let d = debug_text(t[i].as_str());
        if i == 0 {
            assert(tv.subrange(0, 1) =~= seq![tv[0]]);
            out = d;
        } else {
            out = concat3(out.as_str(), ", ", d.as_str());
        }
        i = i + 1;
    }
    assert(tv.subrange(0, n as int) =~= tv);
    concat3("[", out.as_str(), "]")
}

/// The line `list` prints for an install.
pub fn install_line_text(i: &Install) -> (r: String)
    ensures
        r@ == install_line(*i),
{
    let m = method_debug_text(i.method);
    let t = target_debug_text(&i.target);
    let tags = tags_debug_text(&i.tags);
    let a = match i.auto_update {
        None => String::from_str("None"),
        Some(true) => String::from_str("Some(true)"),
        Some(false) => String::from_str("Some(false)"),
    };
    let s = concat3(i.skill.as_str(), "\t", m.as_str());
    let s = concat3(s.as_str(), "\t", t.as_str());
    let s = concat3(s.as_str(), "\ttags=", tags.as_str());
    concat3(s.as_str(), "\tauto_update=", a.as_str())
}

/// What `skills list` prints: one line per shown install, or a single
/// line saying there is none. A `--target` that does not parse is an error.
pub fn list_lines(reg: &Registry, tag: &Option<String>, target: &Option<String>, global: bool) -> (r:
    Result<Vec<String>, Error>)
    ensures
        match target {
            Some(t) => parse_target_spec(t@) is None ==> (r matches Err(Error::BadTarget(m)) && m@ == t@),
            None => true,
        },
        r is Err ==> ((*target) matches Some(t) && parse_target_spec(t@) is None),
        r matches Ok(v) ==> {
            let tg = match tag {
                Some(t) => Some(t@),
                None => None,
            };
            let tt = match target {
                Some(t) => parse_target_spec(t@),
                None => None,
            };
            (target is Some ==> tt is Some) && views_of(v@) == if list_rows(reg.installs@, tg, tt, global).len() == 0 {
                seq!["（无已安装技能）"@]
            } else {
                list_rows(reg.installs@, tg, tt, global)
            }
        },
{
    let parsed: Option<TargetRec> = match target {
        Some(t) => match Target::parse(t.as_str()) {
            Ok(p) => Some(to_rec(&p)),
            Err(e) => {
                return Err(e);
            },
        },
        None => None,
    };
    let ghost tg = match tag {
        Some(t) => Some(t@),
        None => None,
    };
    let ghost tt = match target {
        Some(t) => parse_target_spec(t@),
        None => None,
    };
    assert(tt == match parsed {
        Some(p) => Some(p@),
        None => None::<TargetV>,
    });
    let ghost inst = reg.installs@;
    let n = reg.installs.len();
    let mut out: Vec<String> = Vec::new();
    let mut j: usize = 0;
    assert(inst.subrange(0, 0) =~= Seq::<Install>::empty());
    while j < n
        invariant
            n == inst.len(),
            inst == reg.installs@,
            j <= n,
            tt == match parsed {
                Some(p) => Some(p@),
                None => None::<TargetV>,
            },
            tg == match tag {
                Some(t) => Some(t@),
                None => None::<Seq<char>>,
            },
            views_of(out@) == list_rows(inst.subrange(0, j as int), tg, tt, global),
        decreases n - j,
    {
        assert(inst.subrange(0, j + 1).drop_last() =~= inst.subrange(0, j as int));
        assert(inst.subrange(0, j + 1).last() == inst[j as int]);
        let i = &reg.installs[j];
        let tag_ok = match tag {
            Some(t) => install_has_tag(i, t.as_str()),
            None => true,
        };
        let target_ok = match &parsed {
            Some(p) => i.target.same(p),
            None => !global || (match &i.target {
                TargetRec::Global { .. } => true,
                TargetRec::Project { .. } => false,
            }),
        };
        if tag_ok && target_ok {
            let ghost before = views_of(out@);
            let line = install_line_text(i);
            out.push(line);
            assert(views_of(out@) =~= before.push(install_line(inst[j as int])));
        }
        j = j + 1;
    }
    assert(inst.subrange(0, n as int) =~= inst);
    if out.len() == 0 {
        let mut v = Vec::new();
        v.push(String::from_str("（无已安装技能）"));
        assert(views_of(v@) =~= seq!["（无已安装技能）"@]);
        Ok(v)
    } else {
        Ok(out)
    }
}


/// The bracketed note after a favorite: short commit and bookmark date for
/// a remote source, or that it is local.
pub open spec fn fav_meta(f: Favorite) -> Seq<char> {
    if f.url is Some {
        "("@ + take_chars(f.commit@, 7) + ", 收藏于 "@ + take_chars(f.bookmarked_at@, 10) + ")"@
    } else {
        "(本地源)"@
    }
}

/// The second-level line of skill `i` of a favorite with `n` skills.
pub open spec fn fav_skill_line(s: FavSkill, i: int, n: int) -> Seq<char> {
    "  "@ + (if i + 1 == n {
        "└─"@
    } else {
        "├─"@
    }) + " "@ + s.name@ + " — "@ + s.description@
}

/// The second-level lines of the first `k` skills.
pub open spec fn fav_skill_lines(skills: Seq<FavSkill>, k: nat) -> Seq<Seq<char>>
    decreases k,
{
    if k == 0 {
        Seq::empty()
    } else {
        fav_skill_lines(skills, (k - 1) as nat).push(
            fav_skill_line(skills[k - 1], k - 1, skills.len() as int),
        )
    }
}

/// The lines of one favorite: a single-skill repository is one line with
/// its purpose; any other is its key, then a tree line per skill.
pub open spec fn fav_lines(key: Seq<char>, f: Favorite) -> Seq<Seq<char>> {
    if single_skill(f) {
        seq![key + " — "@ + f.skills@[0].description@ + "    "@ + fav_meta(f)]
    } else {
        seq![key + "    "@ + fav_meta(f)] + fav_skill_lines(f.skills@, f.skills@.len())
    }
}

/// The lines of the first `k` favorites.
pub open spec fn favorites_lines(favs: Seq<(Seq<char>, Favorite)>, k: nat) -> Seq<Seq<char>>
    decreases k,
{
    if k == 0 {
        Seq::empty()
    } else {
        favorites_lines(favs, (k - 1) as nat) + fav_lines(favs[k - 1].0, favs[k - 1].1)
    }
}

/// The meta note of a favorite.
fn fav_meta_text(f: &Favorite) -> (r: String)
    ensures
        r@ == fav_meta(*f),
{
    if f.url.is_some() {
        let c = take_chars_text(f.commit.as_str(), 7);
        let d = take_chars_text(f.bookmarked_at.as_str(), 10);
        let s = concat3("(", c.as_str(), ", 收藏于 ");
        concat3(s.as_str(), d.as_str(), ")")
    } else {
        String::from_str("(本地源)")
    }
}

/// What `skills fav` prints: the favorites in key order, two levels each,
/// or a single line saying there is none.
pub fn format_favorites(reg: &Registry) -> (r: Vec<String>)
    ensures
        views_of(r@) == if reg.favorites@.len() == 0 {
            seq!["（无收藏）"@]
        } else {
            favorites_lines(reg.favorites@, reg.favorites@.len())
        },
{
    let n = reg.favorites.len();
    if n == 0 {
        let mut v = Vec::new();
        v.push(String::from_str("（无收藏）"));
        assert(views_of(v@) =~= seq!["（无收藏）"@]);
        return v;
    }
    let ghost favs = reg.favorites@;
    let mut out: Vec<String> = Vec::new();
    let mut k: usize = 0;
    while k < n
        invariant
            n == favs.len(),
            favs == reg.favorites@,
            k <= n,
            views_of(out@) == favorites_lines(favs, k as nat),
        decreases n - k,
    {
        let key = reg.favorites.key_at(k);
        let f = reg.favorites.value_at(k);
        let meta = fav_meta_text(f);
        let ghost before = views_of(out@);
        if is_single_skill_repo(f) {
            let a = concat3(key.as_str(), " — ", f.skills[0].description.as_str());
            let line = concat3(a.as_str(), "    ", meta.as_str());
            out.push(line);
            assert(views_of(out@) =~= before + fav_lines(favs[k as int].0, favs[k as int].1));
        } else {
            let line = concat3(key.as_str(), "    ", meta.as_str());
            out.push(line);
            let ghost head = views_of(out@);
            let m = f.skills.len();
            let mut i: usize = 0;
            while i < m
                invariant
                    m == f.skills@.len(),
                    i <= m,
                    views_of(out@) == head + fav_skill_lines(f.skills@, i as nat),
                decreases m - i,
            {
                let s = &f.skills[i];
                let branch = if i + 1 == m {
                    "└─"
                } else {
                    "├─"
                };
                let a = concat3("  ", branch, " ");
                let b = concat3(a.as_str(), s.name.as_str(), " — ");
                let line = concat2(b.as_str(), s.description.as_str());
                let ghost pre = views_of(out@);
                out.push(line);
                assert(views_of(out@) =~= pre.push(line@));
                assert(line@ == fav_skill_line(f.skills@[i as int], i as int, m as int));
                i = i + 1;
            }
            assert(views_of(out@) =~= before + fav_lines(favs[k as int].0, favs[k as int].1));
        }
        k = k + 1;
    }
    out
}


/// An install with its own auto-update flag set to `v`.
pub open spec fn with_auto(i: Install, v: Option<bool>) -> Install {
    Install { auto_update: v, ..i }
}

/// What switching an auto-update flag does: `source` names a source whose
/// flag is set; otherwise `skill` and `target` name an install whose flag
/// is set (the result tells whether it is a symlink install given an
/// explicit value, whose own flag its source overrides); otherwise the
/// request names nothing.
pub open spec fn auto_update_effect(
    old: Registry,
    new: Registry,
    skill: Option<Seq<char>>,
    target: Option<TargetV>,
    source: Option<Seq<char>>,
    val: Option<bool>,
    r: Result<bool, Error>,
) -> bool {
    &&& new.version == old.version
    &&& new.favorites == old.favorites
    &&& match source {
        Some(src) => new.installs == old.installs && if has_key(old.sources@, src) {
            &&& r == Ok::<bool, Error>(false)
            &&& new.sources@.len() == old.sources@.len()
            &&& forall|i: int|
                0 <= i < old.sources@.len() ==> {
                    let (k, rec) = #[trigger] old.sources@[i];
                    new.sources@[i] == if k == src {
                        (k, SourceRecord { auto_update: val, ..rec })
                    } else {
                        (k, rec)
                    }
                }
        } else {
            new.sources == old.sources && (r matches Err(Error::Msg(m)) && m@ == "未知来源 "@ + src)
        },
        None => new.sources == old.sources && match (skill, target) {
            (Some(sk), Some(t)) => {
                let k = install_index(old.installs@, sk, t);
                if k < 0 {
                    new.installs == old.installs && (r matches Err(Error::NotInstalled(m)) && m@
                        == sk)
                } else {
                    new.installs@ == old.installs@.update(k, with_auto(old.installs@[k], val))
                        && r == Ok::<bool, Error>(
                        old.installs@[k].method == Method::Symlink && val is Some,
                    )
                }
            },
            _ => new.installs == old.installs && (r matches Err(Error::Msg(m)) && m@
                == "需指定 --source <包> 或 <技能> + --target"@),
        },
    }
}

/// Set the auto-update flag of a source or of one install (see
/// [`auto_update_effect`]).
pub fn apply_auto_update(
    reg: &mut Registry,
    skill: &Option<String>,
    target: &Option<TargetRec>,
    source: &Option<String>,
    val: Option<bool>,
) -> (r: Result<bool, Error>)
    requires
        old(reg).wf(),
    ensures
        final(reg).wf(),
        auto_update_effect(
            *old(reg),
            *final(reg),
            match skill {
                Some(s) => Some(s@),
                None => None,
            },
            match target {
                Some(t) => Some(t@),
                None => None,
            },
            match source {
                Some(s) => Some(s@),
                None => None,
            },
            val,
            r,
        ),
{
    match source {
        Some(src) => match reg.sources.find(src.as_str()) {
            Some(i) => {
                let ghost before = reg.sources@;
                proof {
                    crate::strmap::lemma_key_index(before, i as int);
                }
                let dummy = SourceRecord {
                    url: String::new(),
                    commit: String::new(),
                    fetched_at: String::new(),
                    auto_update: None,
                };
                let old_rec = reg.sources.replace_at(i, dummy);
                let new_rec = SourceRecord { auto_update: val, ..old_rec };
                reg.sources.replace_at(i, new_rec);
                assert forall|j: int| 0 <= j < before.len() && j != i implies before[j].0 != src@ by {
                    assert(crate::text::seq_lt(before[j].0, before[i as int].0)
                        || crate::text::seq_lt(before[i as int].0, before[j].0));
                    crate::text::lemma_seq_lt_irrefl(before[j].0);
                }
                assert(has_key(before, src@)) by {
                    assert(before[i as int].0 == src@);
                }
                Ok(false)
            },
            None => Err(Error::Msg(concat2("未知来源 ", src.as_str()))),
        },
        None => match (skill, target) {
            (Some(s), Some(t)) => match reg.position(s.as_str(), t) {
                None => Err(Error::NotInstalled(s.clone())),
                Some(k) => {
                    let mut inst = reg.installs.remove(k);
                    let hint = inst.method == Method::Symlink && val.is_some();
                    inst.auto_update = val;
                    reg.installs.insert(k, inst);
                    assert(reg.installs@ =~= old(reg).installs@.update(
                        k as int,
                        with_auto(old(reg).installs@[k as int], val),
                    ));
                    Ok(hint)
                },
            },
            _ => Err(Error::Msg(String::from_str("需指定 --source <包> 或 <技能> + --target"))),
        },
    }
}

/// `skills auto-update`: as [`apply_auto_update`], the target given as
/// text; it is parsed only when no source is given and a skill is, and a
/// target that does not parse leaves the registry as it was.
pub fn auto_update_args(
    reg: &mut Registry,
    skill: &Option<String>,
    target: &Option<String>,
    source: &Option<String>,
    val: Option<bool>,
) -> (r: Result<bool, Error>)
    requires
        old(reg).wf(),
    ensures
        final(reg).wf(),
        ({
            let sk = match skill {
                Some(s) => Some(s@),
                None => None,
            };
            let src = match source {
                Some(s) => Some(s@),
                None => None,
            };
            match (*source, *skill, *target) {
                (None, Some(_), Some(t)) => match parse_target_spec(t@) {
                    None => *final(reg) == *old(reg) && (r matches Err(Error::BadTarget(m)) && m@
                        == t@),
                    Some(tv) => auto_update_effect(*old(reg), *final(reg), sk, Some(tv), src, val, r),
                },
                _ => auto_update_effect(*old(reg), *final(reg), sk, None, src, val, r),
            }
        }),
{
    let parsed: Option<TargetRec> = match (source, skill, target) {
        (None, Some(_), Some(t)) => match Target::parse(t.as_str()) {
            Ok(p) => Some(to_rec(&p)),
            Err(e) => {
                return Err(e);
            },
        },
        _ => None,
    };
    apply_auto_update(reg, skill, &parsed, source, val)
}


/// Where `add` and `fav install` install: each `--target`; with none,
/// `-g` means the first configured global target and no flag means the
/// project in the working directory `cwd`.
pub fn resolve_targets(target: &Vec<String>, global: bool, cfg: &Config, cwd: &str) -> (r: Result<
    Vec<Target>,
    Error,
>)
    ensures
        target@.len() > 0 ==> ({
            let k = first_bad_target(views_of(target@));
            match r {
                Ok(v) => k < 0 && v@.map_values(|t: Target| t@) == parsed_targets(
                    views_of(target@),
                ),
                Err(e) => k >= 0 && (e matches Error::BadTarget(m) && m@ == target@[k]@),
            }
        }),
        target@.len() == 0 && global ==> match r {
            Ok(v) => cfg.targets@.len() > 0 && v@.len() == 1 && v@[0]@ == TargetV::Global(
                cfg.targets@[0].0,
            ),
            Err(e) => cfg.targets@.len() == 0 && (e matches Error::Msg(m) && m@
                == "没有可用的全局 target：请先 skills config targets add <name> <路径>"@),
        },
        target@.len() == 0 && !global ==> (r matches Ok(v) && v@.len() == 1 && v@[0]@
            == TargetV::Project(cwd@)),
{
    if target.len() > 0 {
        let recs = match parse_targets(target) {
            Ok(v) => v,
            Err(e) => {
                return Err(e);
            },
        };
        let n = recs.len();
        let mut out: Vec<Target> = Vec::new();
        let mut i: usize = 0;
        while i < n
            invariant
                n == recs@.len(),
                i <= n,
                out@.map_values(|t: Target| t@) == recs@.map_values(|t: TargetRec| t@).subrange(
                    0,
                    i as int,
                ),
            decreases n - i,
        {
            let ghost before = out@.map_values(|t: Target| t@);
            out.push(recs[i].to_target());
            assert(out@.map_values(|t: Target| t@) =~= before.push(recs@[i as int]@));
            assert(recs@.map_values(|t: TargetRec| t@).subrange(0, i + 1) =~= recs@.map_values(
                |t: TargetRec| t@,
            ).subrange(0, i as int).push(recs@[i as int]@));
            i = i + 1;
        }
        assert(recs@.map_values(|t: TargetRec| t@).subrange(0, n as int) =~= recs@.map_values(
            |t: TargetRec| t@,
        ));
        return Ok(out);
    }
    let mut out: Vec<Target> = Vec::new();
    if global {
        match default_global_target(cfg) {
            Ok(t) => out.push(t),
            Err(e) => {
                return Err(e);
            },
        }
    } else {
        out.push(Target::Project { root: String::from_str(cwd) });
    }
    Ok(out)
}

/// Before `add` installs anything: every requested skill must be among
/// the scanned ones; the first that is not is the error.
pub fn check_picked(all: &Vec<SkillEntry>, picked: &Vec<String>) -> (r: Result<(), Error>)
    ensures
        ({
            let k = first_missing(all@, views_of(picked@));
            match r {
                Ok(()) => k == -1,
                Err(e) => k >= 0 && (e matches Error::Msg(m) && m@ == "仓库中无技能 "@ + picked@[k]@),
            }
        }),
{
    let ghost nv = views_of(picked@);
    let ghost miss = |k: int| entry_index(all@, nv[k]) < 0;
    let n = picked.len();
    let mut i: usize = 0;
    while i < n
        invariant
            n == picked@.len(),
            nv == views_of(picked@),
            miss == (|k: int| entry_index(all@, nv[k]) < 0),
            i <= n,
            forall|j: int| 0 <= j < i ==> !#[trigger] miss(j),
        decreases n - i,
    {
        if find_entry(all, picked[i].as_str()).is_none() {
            proof {
                lemma_first_where(n as int, miss, i as int);
            }
            return Err(Error::Msg(concat2("仓库中无技能 ", picked[i].as_str())));
        }
        i = i + 1;
    }
    proof {
        lemma_first_where(n as int, miss, -1);
    }
    Ok(())
}

/// The record a newly cached source gets.
pub open spec fn new_source_record(r: SourceRecord, spec: SourceSpec, commit: Seq<char>, at: Seq<char>) -> bool {
    &&& r.url@ == match spec.url {
        Some(u) => u@,
        None => Seq::<char>::empty(),
    }
    &&& r.commit@ == commit
    &&& r.fetched_at@ == at
    &&& r.auto_update is None
}

/// Register a freshly cached source unless it is registered already,
/// stamped `at`.
pub fn register_source_at(reg: &mut Registry, spec: &SourceSpec, commit: &str, at: String)
    requires
        old(reg).wf(),
    ensures
        final(reg).wf(),
        final(reg).version == old(reg).version,
        final(reg).installs == old(reg).installs,
        final(reg).favorites == old(reg).favorites,
        has_key(old(reg).sources@, spec.key@) ==> final(reg).sources == old(reg).sources,
        !has_key(old(reg).sources@, spec.key@) ==> exists|r: SourceRecord|
            new_source_record(r, *spec, commit@, at@) && final(reg).sources@ == insert_spec(
                old(reg).sources@,
                spec.key@,
                r,
            ),
{
    if !reg.sources.contains_key(spec.key.as_str()) {
        let url = match &spec.url {
            Some(u) => u.clone(),
            None => String::new(),
        };
        let rec = SourceRecord { url, commit: String::from_str(commit), fetched_at: at, auto_update: None };
        let ghost r = rec;
        reg.sources.insert(spec.key.clone(), rec);
        assert(new_source_record(r, *spec, commit@, at@));
    }
}

/// Register a freshly cached source unless it is registered already,
/// stamped now.
pub fn register_source(reg: &mut Registry, spec: &SourceSpec, commit: &str)
    requires
        old(reg).wf(),
    ensures
        final(reg).wf(),
        final(reg).version == old(reg).version,
        final(reg).installs == old(reg).installs,
        final(reg).favorites == old(reg).favorites,
        has_key(old(reg).sources@, spec.key@) ==> final(reg).sources == old(reg).sources,
        !has_key(old(reg).sources@, spec.key@) ==> exists|r: SourceRecord, at: Seq<char>|
            new_source_record(r, *spec, commit@, at) && final(reg).sources@ == insert_spec(
                old(reg).sources@,
                spec.key@,
                r,
            ),
{
    let now = now_rfc3339();
    let ghost at = now@;
    register_source_at(reg, spec, commit, now);
}

/// For installing a bookmarked skill: the source to cache (from the
/// favorite's origin) and the skill's path in it. A source or skill that
/// is not bookmarked is an error.
pub fn favorite_skill(reg: &Registry, key: &str, name: &str) -> (r: Result<(SourceSpec, String), Error>)
    requires
        reg.wf(),
    ensures
        match lookup(reg.favorites@, key@) {
            None => r matches Err(Error::NotBookmarked(m)) && m@ == key@,
            Some(f) => {
                let k = name_index(fav_skills_view(f.skills@), name@);
                if k < 0 {
                    r matches Err(Error::NotBookmarked(m)) && m@ == key@ + " 中无技能 "@ + name@
                } else {
                    r matches Ok(p) && p.0.key@ == key@ && opt_view(p.0.url) == opt_view(f.url)
                        && opt_view(p.0.local_path) == opt_view(f.local_path) && p.1@
                        == f.skills@[k].source_path@
                }
            },
        },
{
    match reg.favorites.get(key) {
        None => Err(Error::NotBookmarked(String::from_str(key))),
        Some(f) => match find_name(&f.skills, name) {
            None => {
                let a = concat3(key, " 中无技能 ", name);
                Err(Error::NotBookmarked(a))
            },
            Some(k) => {
                let url = match &f.url {
                    Some(u) => Some(u.clone()),
                    None => None,
                };
                let local = match &f.local_path {
                    Some(l) => Some(l.clone()),
                    None => None,
                };
                Ok((SourceSpec { key: String::from_str(key), url, local_path: local }, f.skills[k].source_path.clone()))
            },
        },
    }
}

/// `skills fav install` without `--skill`: a favorite with one skill
/// installs it; otherwise the user is asked.
pub fn fav_default_pick(fav: &Favorite) -> (r: Option<Vec<String>>)
    ensures
        match r {
            Some(v) => fav.skills@.len() == 1 && views_of(v@) == seq![fav.skills@[0].name@],
            None => fav.skills@.len() != 1,
        },
{
    if fav.skills.len() == 1 {
        let mut v = Vec::new();
        v.push(fav.skills[0].name.clone());
        assert(views_of(v@) =~= seq![fav.skills@[0].name@]);
        Some(v)
    } else {
        None
    }
}

/// `skills fav` with no source lists favorites; `--skill` needs a source.
pub fn check_fav_list_args(skill: &Vec<String>) -> (r: Result<(), Error>)
    ensures
        match r {
            Ok(()) => skill@.len() == 0,
            Err(e) => skill@.len() > 0 && (e matches Error::Msg(m) && m@
                == "--skill 需搭配 source：skills fav <仓库> --skill <名>"@),
        },
{
    if skill.len() > 0 {
        Err(Error::Msg(String::from_str("--skill 需搭配 source：skills fav <仓库> --skill <名>")))
    } else {
        Ok(())
    }
}

/// `skills tag`: the install of `skill` in `target` gets `tags`, or none
/// with `--remove`; a target that does not parse changes nothing.
pub fn tag_command(reg: &mut Registry, skill: &str, target: &str, tags: Vec<String>, remove: bool) -> (r:
    Result<(), Error>)
    ensures
        final(reg).version == old(reg).version,
        final(reg).sources == old(reg).sources,
        final(reg).favorites == old(reg).favorites,
        match parse_target_spec(target@) {
            None => final(reg).installs@ == old(reg).installs@ && (r matches Err(Error::BadTarget(m))
                && m@ == target@),
            Some(tv) => {
                let k = install_index(old(reg).installs@, skill@, tv);
                match r {
                    Ok(()) => k >= 0 && final(reg).installs@.len() == old(reg).installs@.len()
                        && (forall|j: int| 0 <= j < old(reg).installs@.len() && j != k
                        ==> final(reg).installs@[j] == old(reg).installs@[j])
                        && final(reg).installs@[k] == with_tags(old(reg).installs@[k], final(reg).installs@[k].tags)
                        && views_of(final(reg).installs@[k].tags@) == if remove {
                        Seq::<Seq<char>>::empty()
                    } else {
                        views_of(tags@)
                    },
                    Err(e) => k == -1 && final(reg).installs@ == old(reg).installs@ && (e matches Error::NotInstalled(m) && m@ == skill@),
                }
            },
        },
{
    let t = match Target::parse(target) {
        Ok(t) => t,
        Err(e) => {
            return Err(e);
        },
    };
    let rec = to_rec(&t);
    let new_tags = if remove {
        Vec::new()
    } else {
        tags
    };
    let ghost nt = new_tags;
    let r = set_tags(reg, skill, &rec, new_tags);
    proof {
        if r is Ok {
            let k = install_index(old(reg).installs@, skill@, rec@);
            assert(final(reg).installs@[k] == with_tags(old(reg).installs@[k], nt));
            assert(final(reg).installs@[k].tags == nt);
            if remove {
                assert(views_of(nt@) =~= Seq::<Seq<char>>::empty());
            }
        }
    }
    r
}


/// Dropping repeats from an ordered sequence leaves it strictly
/// increasing, ending where it ended.
pub proof fn lemma_dedup_sorted(s: Seq<Seq<char>>)
    requires
        sorted_le(s),
    ensures
        strictly_sorted(dedup_adjacent(s)),
        s.len() > 0 ==> dedup_adjacent(s).len() > 0 && dedup_adjacent(s).last() == s.last(),
        forall|i: int| 0 <= i < dedup_adjacent(s).len() ==> #[trigger] s.contains(dedup_adjacent(s)[i]),
    decreases s.len(),
{
    if s.len() > 0 {
        let t = s.drop_last();
        assert(sorted_le(t));
        lemma_dedup_sorted(t);
        let d = dedup_adjacent(t);
        let x = s.last();
        assert forall|i: int| 0 <= i < d.len() implies !seq_lt(x, #[trigger] d[i]) by {
            assert(t.contains(d[i]));
            let w = choose|w: int| 0 <= w < t.len() && t[w] == d[i];
            assert(s[w] == d[i]);
            assert(!seq_lt(s[s.len() - 1], s[w]));
        }
        if d.len() > 0 && d.last() == x {
            assert forall|i: int| 0 <= i < d.len() implies #[trigger] s.contains(d[i]) by {
                assert(t.contains(d[i]));
                let w = choose|w: int| 0 <= w < t.len() && t[w] == d[i];
                assert(s[w] == d[i]);
            }
        } else {
            let u = d.push(x);
            assert forall|i: int, j: int| 0 <= i < j < u.len() implies seq_lt(#[trigger] u[i], #[trigger] u[j]) by {
                if j == d.len() {
                    assert(u[i] == d[i]);
                    assert(!seq_lt(x, d[i]));
                    lemma_seq_lt_total(d[i], x);
                    if d[i] == x {
                        // d is strictly increasing and ends in its last element
                        if i < d.len() - 1 {
                            assert(seq_lt(d[i], d[d.len() - 1]));
                            assert(!seq_lt(x, d[d.len() - 1]));
                        }
                    }
                } else {
                    assert(u[i] == d[i] && u[j] == d[j]);
                }
            }
            assert forall|i: int| 0 <= i < u.len() implies #[trigger] s.contains(u[i]) by {
                if i < d.len() {
                    assert(t.contains(d[i]));
                    let w = choose|w: int| 0 <= w < t.len() && t[w] == d[i];
                    assert(s[w] == d[i]);
                } else {
                    assert(s[s.len() - 1] == u[i]);
                }
            }
        }
    }
}

/// The sources an explicit multi-skill update pulls are strictly sorted:
/// each at most once, in `str` order.
pub proof fn law_merged_sources_strictly_sorted(x: Seq<Seq<char>>)
    ensures
        strictly_sorted(dedup_adjacent(sort_strs(x))),
{
    lemma_sort_strs_sorted(x);
    lemma_dedup_sorted(sort_strs(x));
}


/// `remove` acts on each (skill, target) pair once: no two pairs of the
/// list name the same skill in the same target, and every pair it was
/// built from is held by it.
pub proof fn law_removal_pairs_distinct(s: Seq<(Seq<char>, TargetV)>)
    ensures
        forall|i: int, j: int|
            0 <= i < j < dedup_pairs(s).len() ==> !same_pair(
                #[trigger] dedup_pairs(s)[i],
                #[trigger] dedup_pairs(s)[j],
            ),
        forall|i: int| 0 <= i < s.len() ==> holds_pair(dedup_pairs(s), #[trigger] s[i]),
    decreases s.len(),
{
    if s.len() > 0 {
        law_removal_pairs_distinct(s.drop_last());
        let d = dedup_pairs(s.drop_last());
        let e = dedup_pairs(s);
        if !holds_pair(d, s.last()) {
            assert(e == d.push(s.last()));
            assert forall|i: int, j: int| 0 <= i < j < e.len() implies !same_pair(
                #[trigger] e[i],
                #[trigger] e[j],
            ) by {
                if j < d.len() {
                    assert(e[i] == d[i] && e[j] == d[j]);
                } else {
                    assert(e[i] == d[i] && e[j] == s.last());
                }
            }
        }
        assert forall|i: int| 0 <= i < s.len() implies holds_pair(e, #[trigger] s[i]) by {
            if i < s.len() - 1 {
                assert(s.drop_last()[i] == s[i]);
                assert(holds_pair(d, s.drop_last()[i]));
                let w = choose|w: int| 0 <= w < d.len() && same_pair(#[trigger] d[w], s[i]);
                if !holds_pair(d, s.last()) {
                    assert(e[w] == d[w]);
                }
            } else {
                if !holds_pair(d, s.last()) {
                    assert(e[d.len() as int] == s.last());
                    assert(same_pair(e[d.len() as int], s[i]));
                }
            }
        }
    }
}


/// The error closing a removal in which `n` items failed.
pub fn removal_failures_error(n: usize) -> (e: Error)
    ensures
        e matches Error::Msg(m) && m@ == crate::text::decimal(n as nat) + " 项删除失败（详见 stderr）"@,
{
    let d = crate::text::decimal_text(n);
    Error::Msg(concat2(d.as_str(), " 项删除失败（详见 stderr）"))
}

/// The line `--dry-run` prints for one copy decision.
pub open spec fn decision_line(c: CopyDecisionV) -> Seq<char> {
    c.skill + " @ "@ + target_debug(c.target) + ": "@ + (if c.update {
        "更新"@
    } else {
        "跳过"@
    }) + "（"@ + c.reason + "）"@
}

/// What `skills update --dry-run` prints: the sources to pull, the
/// symlinks that follow, then one line per copy decision.
pub open spec fn dry_run_spec(p: PlanV) -> Seq<Seq<char>> {
    seq!["将拉取仓库: "@ + tags_debug(p.sources), "软连接跟随: "@ + tags_debug(p.symlinks)]
        + p.copies.map_values(|c: CopyDecisionV| decision_line(c))
}

/// The lines of `skills update --dry-run` for a plan.
pub fn dry_run_lines(p: &Plan) -> (r: Vec<String>)
    ensures
        views_of(r@) == dry_run_spec(p@),
{
    let mut out: Vec<String> = Vec::new();
    let a = tags_debug_text(&p.sources);
    out.push(concat2("将拉取仓库: ", a.as_str()));
    let b = tags_debug_text(&p.symlinks);
    out.push(concat2("软连接跟随: ", b.as_str()));
    let ghost head = views_of(out@);
    assert(head =~= seq!["将拉取仓库: "@ + tags_debug(p@.sources), "软连接跟随: "@ + tags_debug(p@.symlinks)]);
    let ghost cv = p.copies@.map_values(|c: CopyDecision| c@);
    let n = p.copies.len();
    let mut i: usize = 0;
    while i < n
        invariant
            n == p.copies@.len(),
            cv == p.copies@.map_values(|c: CopyDecision| c@),
            i <= n,
            views_of(out@) == head + cv.subrange(0, i as int).map_values(|c: CopyDecisionV| decision_line(c)),
        decreases n - i,
    {
        let c = &p.copies[i];
        let t = target_debug_text(&c.target);
        let x = concat3(c.skill.as_str(), " @ ", t.as_str());
        let x = concat3(x.as_str(), ": ", if c.update {
            "更新"
        } else {
            "跳过"
        });
        let x = concat3(x.as_str(), "（", c.reason.as_str());
        let line = concat2(x.as_str(), "）");
        let ghost pre = views_of(out@);
        out.push(line);
        assert(views_of(out@) =~= pre.push(line@));
        assert(line@ == decision_line(cv[i as int]));
        assert(cv.subrange(0, i + 1).map_values(|c: CopyDecisionV| decision_line(c)) =~= cv.subrange(0, i as int).map_values(|c: CopyDecisionV| decision_line(c)).push(decision_line(cv[i as int])));
        i = i + 1;
    }
    assert(cv.subrange(0, n as int) =~= cv);
    out
}


/// How one install attempt of the install loop ended.
pub enum Attempt {
    /// The skill went in.
    Installed,
    /// The destination (this path) already holds a skill of that name.
    Conflict(String),
    /// It failed otherwise.
    Failed(Error),
}

/// What the install loop learns next.
pub enum LoopEvent {
    /// The first attempt for a (skill, target) pair ended.
    Attempted(Attempt),
    /// The user answered whether to overwrite.
    Answered(bool),
    /// The attempt after removing the old install ended.
    Retried(Attempt),
}

/// What the install loop does next.
pub enum LoopStep {
    /// Print the line, if any, save the registry, go on with the next pair.
    Save(Option<String>),
    /// Print the line, if any, and go on with the next pair.
    Next(Option<String>),
    /// Ask this question.
    Ask(String),
    /// Remove the recorded install (ignoring failure) and try again.
    Retry,
    /// Stop with this error.
    Stop(Error),
}

/// The line printed when `skill` went into `t` by `m`.
pub open spec fn installed_line(skill: Seq<char>, t: TargetV, m: Method) -> Seq<char> {
    "已安装 "@ + skill + " → "@ + target_debug(t) + " ("@ + method_debug(m) + ")"@
}

/// The line printed when a conflict at `p` is skipped.
pub open spec fn skipped_line(p: Seq<char>) -> Seq<char> {
    "跳过已存在: "@ + path_debug(p)
}

/// The question asked before overwriting the skill at `p`.
pub open spec fn overwrite_question(p: Seq<char>) -> Seq<char> {
    path_debug(p) + " 已存在，覆盖？"@
}

/// The line printed when the old install at `skill` in `t` was replaced by one by `m`.
pub open spec fn overwritten_line(skill: Seq<char>, t: TargetV, m: Method) -> Seq<char> {
    "已覆盖安装 "@ + skill + " → "@ + target_debug(t) + " ("@ + method_debug(m) + ")"@
}

/// The answer of the web page to a conflict at `p`.
pub open spec fn conflict_reply(p: Seq<char>) -> Seq<char> {
    path_debug(p) + " 已存在"@
}

fn arrow_line(lead: &str, skill: &str, t: &Target, m: Method) -> (r: String)
    ensures
        r@ == lead@ + skill@ + " → "@ + target_debug(t@) + " ("@ + method_debug(m) + ")"@,
{
    let rec = to_rec(t);
    let td = target_debug_text(&rec);
    let md = method_debug_text(m);
    let head = concat3(lead, skill, " → ");
    let mid = concat3(head.as_str(), td.as_str(), " (");
    concat3(mid.as_str(), md.as_str(), ")")
}

/// Exec form of [`installed_line`].
pub fn installed_text(skill: &str, t: &Target, m: Method) -> (r: String)
    ensures
        r@ == installed_line(skill@, t@, m),
{
    arrow_line("已安装 ", skill, t, m)
}

/// Exec form of [`overwritten_line`].
pub fn overwritten_text(skill: &str, t: &Target, m: Method) -> (r: String)
    ensures
        r@ == overwritten_line(skill@, t@, m),
{
    arrow_line("已覆盖安装 ", skill, t, m)
}

/// Exec form of [`overwrite_question`].
pub fn overwrite_question_text(p: &str) -> (r: String)
    ensures
        r@ == overwrite_question(p@),
{
    let d = path_debug_text(p);
    concat2(d.as_str(), " 已存在，覆盖？")
}

/// Exec form of [`conflict_reply`].
pub fn conflict_reply_text(p: &str) -> (r: String)
    ensures
        r@ == conflict_reply(p@),
{
    let d = path_debug_text(p);
    concat2(d.as_str(), " 已存在")
}

/// The decision of the install loop for `skill` in `t` by `m` after `ev`:
/// an install is saved at once (a reinstall silently); a conflict is skipped with `--yes`, else
/// the user is asked, and a yes removes the old install and tries once
/// more, whose conflict or failure ends the loop.
pub fn install_loop_step(skill: &str, t: &Target, m: Method, yes: bool, ev: LoopEvent) -> (r: LoopStep)
    ensures
        match ev {
            LoopEvent::Attempted(Attempt::Installed) => r matches LoopStep::Save(Some(l)) && l@
                == installed_line(skill@, t@, m),
            LoopEvent::Retried(Attempt::Installed) => r == LoopStep::Save(None),
            LoopEvent::Attempted(Attempt::Conflict(p)) => if yes {
                r matches LoopStep::Next(Some(l)) && l@ == skipped_line(p@)
            } else {
                r matches LoopStep::Ask(q) && q@ == overwrite_question(p@)
            },
            LoopEvent::Retried(Attempt::Conflict(p)) => r == LoopStep::Stop(Error::Conflict(p)),
            LoopEvent::Attempted(Attempt::Failed(e)) => r == LoopStep::Stop(e),
            LoopEvent::Retried(Attempt::Failed(e)) => r == LoopStep::Stop(e),
            LoopEvent::Answered(true) => r is Retry,
            LoopEvent::Answered(false) => r == LoopStep::Next(None),
        },
{
    match ev {
        LoopEvent::Attempted(Attempt::Installed) => LoopStep::Save(Some(installed_text(skill, t, m))),
        LoopEvent::Retried(Attempt::Installed) => LoopStep::Save(None),
        LoopEvent::Attempted(Attempt::Conflict(p)) => {
            if yes {
                let d = path_debug_text(p.as_str());
                LoopStep::Next(Some(concat2("跳过已存在: ", d.as_str())))
            } else {
                LoopStep::Ask(overwrite_question_text(p.as_str()))
            }
        },
        LoopEvent::Retried(Attempt::Conflict(p)) => LoopStep::Stop(Error::Conflict(p)),
        LoopEvent::Attempted(Attempt::Failed(e)) | LoopEvent::Retried(Attempt::Failed(e)) => LoopStep::Stop(e),
        LoopEvent::Answered(true) => LoopStep::Retry,
        LoopEvent::Answered(false) => LoopStep::Next(None),
    }
}


/// The line printed when the wizard leaves `skill` as it was.
pub open spec fn kept_line(skill: Seq<char>) -> Seq<char> {
    "跳过 "@ + skill
}

/// The decision of the TUI install wizard for `skill` in `t` by `m` after
/// `ev`: an install is reported; a conflict is asked about; a yes removes
/// the old install and tries once more, reported as an overwrite; a no
/// leaves it; a failure, or a conflict on the second try, ends the wizard.
/// The wizard saves the registry once, at its end.
pub fn wizard_install_step(skill: &str, t: &Target, m: Method, ev: LoopEvent) -> (r: LoopStep)
    ensures
        match ev {
            LoopEvent::Attempted(Attempt::Installed) => r matches LoopStep::Next(Some(l)) && l@
                == installed_line(skill@, t@, m),
            LoopEvent::Retried(Attempt::Installed) => r matches LoopStep::Next(Some(l)) && l@
                == overwritten_line(skill@, t@, m),
            LoopEvent::Attempted(Attempt::Conflict(p)) => r matches LoopStep::Ask(q) && q@
                == overwrite_question(p@),
            LoopEvent::Retried(Attempt::Conflict(p)) => r == LoopStep::Stop(Error::Conflict(p)),
            LoopEvent::Attempted(Attempt::Failed(e)) => r == LoopStep::Stop(e),
            LoopEvent::Retried(Attempt::Failed(e)) => r == LoopStep::Stop(e),
            LoopEvent::Answered(true) => r is Retry,
            LoopEvent::Answered(false) => r matches LoopStep::Next(Some(l)) && l@ == kept_line(skill@),
        },
{
    match ev {
        LoopEvent::Attempted(Attempt::Installed) => LoopStep::Next(Some(installed_text(skill, t, m))),
        LoopEvent::Retried(Attempt::Installed) => LoopStep::Next(Some(overwritten_text(skill, t, m))),
        LoopEvent::Attempted(Attempt::Conflict(p)) => LoopStep::Ask(overwrite_question_text(p.as_str())),
        LoopEvent::Retried(Attempt::Conflict(p)) => LoopStep::Stop(Error::Conflict(p)),
        LoopEvent::Attempted(Attempt::Failed(e)) | LoopEvent::Retried(Attempt::Failed(e)) => LoopStep::Stop(e),
        LoopEvent::Answered(true) => LoopStep::Retry,
        LoopEvent::Answered(false) => LoopStep::Next(Some(concat2("跳过 ", skill))),
    }
}

/// What the web page's install of a bookmarked skill does next.
#[derive(Debug)]
pub enum WebInstallStep {
    /// Save the registry and answer that the skill is installed.
    Save,
    /// Remove the recorded install (ignoring failure) and try again.
    Retry,
    /// Answer with this HTTP status and text.
    Reply(u16, String),
}

/// The answer text for a failure `e`, after the words `what`.
pub open spec fn failure_text(what: Seq<char>, e: Error) -> Seq<char> {
    what + crate::error::error_message(e)
}

/// The decision of the web install of a bookmarked skill after `ev`: an
/// install is saved; a conflict is answered 409 unless `overwrite` asks to
/// replace it, in which case it is tried again once; an unknown bookmark
/// is answered 404 and any other failure 500.
pub fn web_install_step(overwrite: bool, ev: LoopEvent) -> (r: WebInstallStep)
    requires
        !(ev is Answered),
    ensures
        match ev {
            LoopEvent::Attempted(Attempt::Installed) => r is Save,
            LoopEvent::Retried(Attempt::Installed) => r is Save,
            LoopEvent::Attempted(Attempt::Conflict(p)) => if overwrite {
                r is Retry
            } else {
                r matches WebInstallStep::Reply(c, m) && c == 409 && m@ == conflict_reply(p@)
            },
            LoopEvent::Attempted(Attempt::Failed(e)) => match e {
                Error::NotBookmarked(k) => r matches WebInstallStep::Reply(c, m) && c == 404 && m@ == k@,
                _ => r matches WebInstallStep::Reply(c, m) && c == 500 && m@ == failure_text(
                    "安装失败: "@,
                    e,
                ),
            },
            LoopEvent::Retried(Attempt::Conflict(p)) => r matches WebInstallStep::Reply(c, m) && c
                == 500 && m@ == failure_text("覆盖安装失败: "@, Error::Conflict(p)),
            LoopEvent::Retried(Attempt::Failed(e)) => r matches WebInstallStep::Reply(c, m) && c
                == 500 && m@ == failure_text("覆盖安装失败: "@, e),
            LoopEvent::Answered(_) => true,
        },
{
    match ev {
        LoopEvent::Attempted(Attempt::Installed) | LoopEvent::Retried(Attempt::Installed) => WebInstallStep::Save,
        LoopEvent::Attempted(Attempt::Conflict(p)) => if overwrite {
            WebInstallStep::Retry
        } else {
            WebInstallStep::Reply(409, conflict_reply_text(p.as_str()))
        },
        LoopEvent::Attempted(Attempt::Failed(e)) => match e {
            Error::NotBookmarked(k) => WebInstallStep::Reply(404, k),
            _ => {
                let m = e.message();
                WebInstallStep::Reply(500, concat2("安装失败: ", m.as_str()))
            },
        },
        LoopEvent::Retried(Attempt::Conflict(p)) => {
            let m = Error::Conflict(p).message();
            WebInstallStep::Reply(500, concat2("覆盖安装失败: ", m.as_str()))
        },
        LoopEvent::Retried(Attempt::Failed(e)) => {
            let m = e.message();
            WebInstallStep::Reply(500, concat2("覆盖安装失败: ", m.as_str()))
        },
        LoopEvent::Answered(_) => WebInstallStep::Retry,
    }
}


/// Each named skill is paired with every given target.
proof fn lemma_named_pairs_cross(s: Seq<Install>, skills: Seq<Seq<char>>, ts: Seq<TargetV>, a: int, b: int)
    requires
        0 <= a < skills.len(),
        0 <= b < ts.len(),
    ensures
        named_pairs(s, skills, ts).contains((skills[a], ts[b])),
    decreases skills.len(),
{
    let prefix = named_pairs(s, skills.drop_last(), ts);
    let part = ts.map_values(|t: TargetV| (skills.last(), t));
    assert(named_pairs(s, skills, ts) == prefix + part);
    if a == skills.len() - 1 {
        assert((prefix + part)[prefix.len() + b] == (skills[a], ts[b]));
    } else {
        lemma_named_pairs_cross(s, skills.drop_last(), ts, a, b);
        assert(skills.drop_last()[a] == skills[a]);
        let w = choose|w: int| 0 <= w < prefix.len() && prefix[w] == (skills[a], ts[b]);
        assert((prefix + part)[w] == (skills[a], ts[b]));
    }
}

/// `remove` with named skills and targets acts on every skill in every
/// target: for each named skill and each given target, the list of pairs to
/// remove holds that skill in that target (a target spelled otherwise
/// counting as the same); and every install picked by the tag is in it too.
pub proof fn law_removal_covers_every_target(
    s: Seq<Install>,
    tp: Seq<(Seq<char>, TargetV)>,
    skills: Seq<Seq<char>>,
    ts: Seq<TargetV>,
)
    requires
        ts.len() > 0,
    ensures
        forall|a: int, b: int|
            0 <= a < skills.len() && 0 <= b < ts.len() ==> exists|j: int|
                0 <= j < dedup_pairs(tp + named_pairs(s, skills, ts)).len() && (#[trigger] dedup_pairs(
                    tp + named_pairs(s, skills, ts),
                )[j]).0 == #[trigger] skills[a] && target_same(
                    dedup_pairs(tp + named_pairs(s, skills, ts))[j].1,
                    #[trigger] ts[b],
                ),
        forall|c: int|
            0 <= c < tp.len() ==> exists|j: int|
                0 <= j < dedup_pairs(tp + named_pairs(s, skills, ts)).len() && (#[trigger] dedup_pairs(
                    tp + named_pairs(s, skills, ts),
                )[j]).0 == (#[trigger] tp[c]).0 && target_same(
                    dedup_pairs(tp + named_pairs(s, skills, ts))[j].1,
                    tp[c].1,
                ),
{
    let x = tp + named_pairs(s, skills, ts);
    let d = dedup_pairs(x);
    law_removal_pairs_distinct(x);
    assert forall|a: int, b: int| 0 <= a < skills.len() && 0 <= b < ts.len() implies exists|j: int|
        0 <= j < d.len() && (#[trigger] d[j]).0 == #[trigger] skills[a] && target_same(
            d[j].1,
            #[trigger] ts[b],
        ) by {
        lemma_named_pairs_cross(s, skills, ts, a, b);
        let np = named_pairs(s, skills, ts);
        let w = choose|w: int| 0 <= w < np.len() && np[w] == (skills[a], ts[b]);
        assert(x[tp.len() + w] == (skills[a], ts[b]));
        assert(holds_pair(d, x[tp.len() + w]));
        let j = choose|j: int| 0 <= j < d.len() && same_pair(#[trigger] d[j], x[tp.len() + w]);
        assert(d[j].0 == skills[a] && target_same(d[j].1, ts[b]));
    }
    assert forall|c: int| 0 <= c < tp.len() implies exists|j: int|
        0 <= j < d.len() && (#[trigger] d[j]).0 == (#[trigger] tp[c]).0 && target_same(d[j].1, tp[c].1) by {
        assert(x[c] == tp[c]);
        assert(holds_pair(d, x[c]));
        let j = choose|j: int| 0 <= j < d.len() && same_pair(#[trigger] d[j], x[c]);
        assert(d[j].0 == tp[c].0 && target_same(d[j].1, tp[c].1));
    }
}


/// Pair `x` is the (skill, target) of an install of `s` one of whose tags,
/// at any position, is `tag`.
pub open spec fn pair_of_tagged(s: Seq<Install>, tag: Seq<char>, x: (Seq<char>, TargetV)) -> bool {
    exists|k: int, j: int|
        0 <= k < s.len() && 0 <= j < s[k].tags@.len() && (#[trigger] s[k].tags@[j])@ == tag && x == (
        s[k].skill@,
        s[k].target@,
    )
}

/// Pair `x` is (`skill`, the target of an install of `skill` in `s`).
pub open spec fn pair_of_skill(s: Seq<Install>, skill: Seq<char>, x: (Seq<char>, TargetV)) -> bool {
    exists|k: int| 0 <= k < s.len() && (#[trigger] s[k]).skill@ == skill && x == (skill, s[k].target@)
}

/// `remove --tag` picks every install carrying the tag, whatever the
/// tag's position among its tags, and nothing else: each such install's
/// (skill, target) is in the tag's pairs, and each of those pairs is the
/// (skill, target) of an install carrying the tag.
pub proof fn law_tag_pairs_pick_tagged(s: Seq<Install>, tag: Seq<char>)
    ensures
        forall|k: int, j: int|
            0 <= k < s.len() && 0 <= j < s[k].tags@.len() && (#[trigger] s[k].tags@[j])@ == tag
                ==> tag_pairs(s, tag).contains((s[k].skill@, s[k].target@)),
        forall|c: int|
            0 <= c < tag_pairs(s, tag).len() ==> pair_of_tagged(s, tag, #[trigger] tag_pairs(s, tag)[c]),
    decreases s.len(),
{
    if s.len() > 0 {
        let t = s.drop_last();
        law_tag_pairs_pick_tagged(t, tag);
        let p = tag_pairs(t, tag);
        assert forall|k: int, j: int|
            0 <= k < s.len() && 0 <= j < s[k].tags@.len() && (#[trigger] s[k].tags@[j])@ == tag
                implies tag_pairs(s, tag).contains((s[k].skill@, s[k].target@)) by {
            if k < s.len() - 1 {
                assert(t[k] == s[k]);
                assert(t[k].tags@[j] == s[k].tags@[j]);
                assert(p.contains((t[k].skill@, t[k].target@)));
                let w = choose|w: int| 0 <= w < p.len() && p[w] == (t[k].skill@, t[k].target@);
                if has_tag(s.last(), tag) {
                    assert(tag_pairs(s, tag)[w] == p[w]);
                }
            } else {
                assert(has_tag(s.last(), tag));
                assert(tag_pairs(s, tag)[p.len() as int] == pair_of(s.last()));
            }
        }
        assert forall|c: int| 0 <= c < tag_pairs(s, tag).len() implies pair_of_tagged(
            s,
            tag,
            #[trigger] tag_pairs(s, tag)[c],
        ) by {
            if c < p.len() {
                assert(tag_pairs(s, tag)[c] == p[c]);
                assert(pair_of_tagged(t, tag, p[c]));
                let (k, j) = choose|k: int, j: int|
                    0 <= k < t.len() && 0 <= j < t[k].tags@.len() && (#[trigger] t[k].tags@[j])@ == tag
                        && p[c] == (t[k].skill@, t[k].target@);
                assert(t[k] == s[k]);
                assert(s[k].tags@[j] == t[k].tags@[j]);
            } else {
                let k = s.len() - 1;
                assert(has_tag(s.last(), tag));
                assert(tag_pairs(s, tag) == p.push(pair_of(s.last())));
                let j = choose|j: int| 0 <= j < s.last().tags@.len() && (#[trigger] s.last().tags@[j])@ == tag;
                assert(s[k] == s.last());
                assert(s[k].tags@[j] == s.last().tags@[j]);
            }
        }
    }
}

/// `remove <skill>` without a target picks every install of that skill,
/// in every target, and nothing else.
pub proof fn law_skill_pairs_pick_every_install(s: Seq<Install>, skill: Seq<char>)
    ensures
        forall|k: int|
            0 <= k < s.len() && (#[trigger] s[k]).skill@ == skill ==> skill_pairs(s, skill).contains(
                (skill, s[k].target@),
            ),
        forall|c: int|
            0 <= c < skill_pairs(s, skill).len() ==> pair_of_skill(s, skill, #[trigger] skill_pairs(s, skill)[c]),
    decreases s.len(),
{
    if s.len() > 0 {
        let t = s.drop_last();
        law_skill_pairs_pick_every_install(t, skill);
        let p = skill_pairs(t, skill);
        assert forall|k: int| 0 <= k < s.len() && (#[trigger] s[k]).skill@ == skill implies skill_pairs(
            s,
            skill,
        ).contains((skill, s[k].target@)) by {
            if k < s.len() - 1 {
                assert(t[k] == s[k]);
                let w = choose|w: int| 0 <= w < p.len() && p[w] == (skill, t[k].target@);
                if s.last().skill@ == skill {
                    assert(skill_pairs(s, skill)[w] == p[w]);
                }
            } else {
                assert(skill_pairs(s, skill)[p.len() as int] == pair_of(s.last()));
            }
        }
        assert forall|c: int| 0 <= c < skill_pairs(s, skill).len() implies pair_of_skill(
            s,
            skill,
            #[trigger] skill_pairs(s, skill)[c],
        ) by {
            if c < p.len() {
                assert(skill_pairs(s, skill)[c] == p[c]);
                assert(pair_of_skill(t, skill, p[c]));
                let k = choose|k: int| 0 <= k < t.len() && (#[trigger] t[k]).skill@ == skill && p[c] == (skill, t[k].target@);
                assert(t[k] == s[k]);
            } else {
                let k = s.len() - 1;
                assert(skill_pairs(s, skill) == p.push(pair_of(s.last())));
                assert(s[k] == s.last());
            }
        }
    }
}

} // verus!
