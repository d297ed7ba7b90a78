//! Favorites: bookmarks of sources and the description snapshot of their
//! skills. Bookmarks never install anything and never touch installs.

use vstd::prelude::*;

use crate::cache::SkillEntry;
use crate::error::Error;
use crate::registry::{fav_skills_view, FavSkill, FavSkillV, Favorite, Registry, SourceRecord};
use crate::source::{opt_view, parse_source, parse_source_spec, SourceSpec};
use crate::strmap::{has_key, insert_spec, key_index, keys_sorted, lemma_key_index, lookup};
use crate::text::{
    concat2, concat3, first_where, lemma_first_where, lemma_seq_lt_irrefl, seq_lt, str_eq,
    str_order, Order3, views_of,
};

verus! {

/// The favorite snapshot of a scanned skill.
pub open spec fn entry_fav(e: SkillEntry) -> FavSkillV {
    FavSkillV { name: e.name@, description: e.description@, source_path: e.rel_path@ }
}

/// Index of the first scanned skill called `n`, or -1.
pub open spec fn entry_index(all: Seq<SkillEntry>, n: Seq<char>) -> int {
    first_where(all.len() as int, |i: int| all[i].name@ == n)
}

/// Index of the first requested name not among the scanned skills, or -1.
pub open spec fn first_missing(all: Seq<SkillEntry>, names: Seq<Seq<char>>) -> int {
    first_where(names.len() as int, |k: int| entry_index(all, names[k]) < 0)
}

/// The skills a bookmark takes: all scanned ones, or those named.
pub open spec fn picked_view(all: Seq<SkillEntry>, names: Seq<Seq<char>>) -> Seq<FavSkillV> {
    if names.len() == 0 {
        all.map_values(|e: SkillEntry| entry_fav(e))
    } else {
        names.map_values(|n: Seq<char>| entry_fav(all[entry_index(all, n)]))
    }
}

/// Index of the first skill named `n` in `s`, or -1.
pub open spec fn name_index(s: Seq<FavSkillV>, n: Seq<char>) -> int {
    first_where(s.len() as int, |i: int| s[i].name == n)
}

/// `x` overwrites the first skill of its name, or is appended.
pub open spec fn upsert_one(s: Seq<FavSkillV>, x: FavSkillV) -> Seq<FavSkillV> {
    let i = name_index(s, x.name);
    if i >= 0 {
        s.update(i, x)
    } else {
        s.push(x)
    }
}

/// Upsert every element of `p` in order.
pub open spec fn upsert_all(s: Seq<FavSkillV>, p: Seq<FavSkillV>) -> Seq<FavSkillV>
    decreases p.len(),
{
    if p.len() == 0 {
        s
    } else {
        upsert_one(upsert_all(s, p.drop_last()), p.last())
    }
}

/// Where `x` goes in name-sorted `t`: after every skill not above it.
pub open spec fn ins_point(t: Seq<FavSkillV>, x: FavSkillV) -> int {
    let p = first_where(t.len() as int, |i: int| seq_lt(x.name, t[i].name));
    if p < 0 {
        t.len() as int
    } else {
        p
    }
}

/// Stable sort by name (what `sort_by` on names does).
pub open spec fn sort_by_name(s: Seq<FavSkillV>) -> Seq<FavSkillV>
    decreases s.len(),
{
    if s.len() == 0 {
        s
    } else {
        let t = sort_by_name(s.drop_last());
        t.insert(ins_point(t, s.last()), s.last())
    }
}

/// Favorite `f` has exactly these fields.
pub open spec fn fav_is(
    f: Favorite,
    url: Option<Seq<char>>,
    local: Option<Seq<char>>,
    commit: Seq<char>,
    at: Seq<char>,
    skills: Seq<FavSkillV>,
) -> bool {
    &&& opt_view(f.url) == url
    &&& opt_view(f.local_path) == local
    &&& f.commit@ == commit
    &&& f.bookmarked_at@ == at
    &&& fav_skills_view(f.skills@) == skills
}

/// The source record a bookmark registers for a new source.
pub open spec fn source_is(r: SourceRecord, spec: SourceSpec, commit: Seq<char>, at: Seq<char>) -> bool {
    &&& r.url@ == match spec.url {
        Some(u) => u@,
        None => Seq::<char>::empty(),
    }
    &&& r.commit@ == commit
    &&& r.fetched_at@ == at
    &&& r.auto_update is None
}

/// A copy of a bookmarked skill.
pub fn copy_fav_skill(f: &FavSkill) -> (r: FavSkill)
    ensures
        r@ == f@,
{
    FavSkill {
        name: f.name.clone(),
        description: f.description.clone(),
        source_path: f.source_path.clone(),
    }
}

/// The favorite snapshot of a scanned skill.
pub fn to_fav_skill(e: &SkillEntry) -> (r: FavSkill)
    ensures
        r@ == entry_fav(*e),
{
    FavSkill {
        name: e.name.clone(),
        description: e.description.clone(),
        source_path: e.rel_path.clone(),
    }
}

/// Position of the first scanned skill named `n`.
pub(crate) fn find_entry(all: &Vec<SkillEntry>, n: &str) -> (r: Option<usize>)
    ensures
        match r {
            Some(i) => i < all@.len() && entry_index(all@, n@) == i,
            None => entry_index(all@, n@) == -1,
        },
{
    let len = all.len();
    let ghost p = |i: int| all@[i].name@ == n@;
    let mut i: usize = 0;
    while i < len
        invariant
            len == all@.len(),
            i <= len,
            p == (|i: int| all@[i].name@ == n@),
            forall|j: int| 0 <= j < i ==> !#[trigger] p(j),
        decreases len - i,
    {
        if str_eq(all[i].name.as_str(), n) {
            proof {
                lemma_first_where(len as int, p, i as int);
            }
            return Some(i);
        }
        i = i + 1;
    }
    proof {
        lemma_first_where(len as int, p, -1);
    }
    None
}

/// The skills a bookmark takes, or the error for the first unknown name.
pub fn pick_skills(all: &Vec<SkillEntry>, names: &Vec<String>) -> (r: Result<Vec<FavSkill>, Error>)
    ensures
        match r {
            Ok(v) => first_missing(all@, views_of(names@)) == -1 && fav_skills_view(v@)
                == picked_view(all@, views_of(names@)),
            Err(e) => {
                let k = first_missing(all@, views_of(names@));
                k >= 0 && (e matches Error::Msg(m) && m@ == "仓库中无技能 "@ + names@[k]@)
            },
        },
{
    let ghost nv = views_of(names@);
    let ghost miss = |k: int| entry_index(all@, nv[k]) < 0;
    let mut out: Vec<FavSkill> = Vec::new();
    if names.len() == 0 {
        let n = all.len();
        let mut i: usize = 0;
        while i < n
            invariant
                n == all@.len(),
                i <= n,
                fav_skills_view(out@) == all@.subrange(0, i as int).map_values(
                    |e: SkillEntry| entry_fav(e),
                ),
            decreases n - i,
        {
            let ghost before = out@;
            out.push(to_fav_skill(&all[i]));
            assert(fav_skills_view(out@) =~= fav_skills_view(before).push(entry_fav(all@[i as int])));
            assert(all@.subrange(0, i + 1).map_values(|e: SkillEntry| entry_fav(e)) =~= all@.subrange(
                0,
                i as int,
            ).map_values(|e: SkillEntry| entry_fav(e)).push(entry_fav(all@[i as int])));
            i = i + 1;
        }
        assert(all@.subrange(0, n as int) =~= all@);
        proof {
            lemma_first_where(0, miss, -1);
        }
        return Ok(out);
    }
    let m = names.len();
    let mut k: usize = 0;
    while k < m
        invariant
            m == names@.len(),
            m > 0,
            k <= m,
            nv == views_of(names@),
            miss == (|k: int| entry_index(all@, nv[k]) < 0),
            forall|j: int| 0 <= j < k ==> !#[trigger] miss(j),
            fav_skills_view(out@) == nv.subrange(0, k as int).map_values(
                |n: Seq<char>| entry_fav(all@[entry_index(all@, n)]),
            ),
        decreases m - k,
    {
        match find_entry(all, names[k].as_str()) {
            None => {
                proof {
                    lemma_first_where(m as int, miss, k as int);
                }
                return Err(Error::Msg(concat2("仓库中无技能 ", names[k].as_str())));
            },
            Some(i) => {
                let ghost before = out@;
                out.push(to_fav_skill(&all[i]));
                assert(fav_skills_view(out@) =~= fav_skills_view(before).push(
                    entry_fav(all@[i as int]),
                ));
                assert(nv.subrange(0, k + 1).map_values(
                    |n: Seq<char>| entry_fav(all@[entry_index(all@, n)]),
                ) =~= nv.subrange(0, k as int).map_values(
                    |n: Seq<char>| entry_fav(all@[entry_index(all@, n)]),
                ).push(entry_fav(all@[i as int])));
            },
        }
        k = k + 1;
    }
    assert(nv.subrange(0, m as int) =~= nv);
    proof {
        lemma_first_where(m as int, miss, -1);
    }
    Ok(out)
}

/// Position of the first skill named `n`.
pub(crate) fn find_name(v: &Vec<FavSkill>, n: &str) -> (r: Option<usize>)
    ensures
        match r {
            Some(i) => i < v@.len() && name_index(fav_skills_view(v@), n@) == i,
            None => name_index(fav_skills_view(v@), n@) == -1,
        },
{
    let ghost s = fav_skills_view(v@);
    let len = v.len();
    let ghost p = |i: int| s[i].name == n@;
    let mut i: usize = 0;
    while i < len
        invariant
            len == v@.len(),
            s == fav_skills_view(v@),
            i <= len,
            p == (|i: int| s[i].name == n@),
            forall|j: int| 0 <= j < i ==> !#[trigger] p(j),
        decreases len - i,
    {
        if str_eq(v[i].name.as_str(), n) {
            proof {
                lemma_first_where(len as int, p, i as int);
            }
            return Some(i);
        }
        i = i + 1;
    }
    proof {
        lemma_first_where(len as int, p, -1);
    }
    None
}

/// Upsert every picked skill into `skills`, in order.
fn upsert_skills(skills: &mut Vec<FavSkill>, picked: &Vec<FavSkill>)
    ensures
        fav_skills_view(final(skills)@) == upsert_all(
            fav_skills_view(old(skills)@),
            fav_skills_view(picked@),
        ),
{
    let ghost s0 = fav_skills_view(skills@);
    let ghost pv = fav_skills_view(picked@);
    let n = picked.len();
    let mut k: usize = 0;
    assert(pv.subrange(0, 0) =~= Seq::<FavSkillV>::empty());
    while k < n
        invariant
            n == picked@.len(),
            pv == fav_skills_view(picked@),
            k <= n,
            fav_skills_view(skills@) == upsert_all(s0, pv.subrange(0, k as int)),
        decreases n - k,
    {
        let x = copy_fav_skill(&picked[k]);
        let ghost before = fav_skills_view(skills@);
        assert(pv.subrange(0, k + 1).drop_last() =~= pv.subrange(0, k as int));
        match find_name(skills, picked[k].name.as_str()) {
            Some(j) => {
                skills.set(j, x);
                assert(fav_skills_view(skills@) =~= before.update(j as int, x@));
            },
            None => {
                skills.push(x);
                assert(fav_skills_view(skills@) =~= before.push(x@));
            },
        }
        k = k + 1;
    }
    assert(pv.subrange(0, n as int) =~= pv);
}

/// Position where `x` goes in name-sorted `t`.
fn find_ins_point(t: &Vec<FavSkill>, x: &FavSkill) -> (r: usize)
    ensures
        r == ins_point(fav_skills_view(t@), x@),
{
    let ghost s = fav_skills_view(t@);
    let len = t.len();
    let ghost p = |i: int| seq_lt(x@.name, s[i].name);
    let mut i: usize = 0;
    while i < len
        invariant
            len == t@.len(),
            s == fav_skills_view(t@),
            i <= len,
            p == (|i: int| seq_lt(x@.name, s[i].name)),
            forall|j: int| 0 <= j < i ==> !#[trigger] p(j),
        decreases len - i,
    {
        if str_order(x.name.as_str(), t[i].name.as_str()) == Order3::Less {
            proof {
                lemma_first_where(len as int, p, i as int);
            }
            return i;
        }
        i = i + 1;
    }
    proof {
        lemma_first_where(len as int, p, -1);
    }
    len
}

/// Stable sort of skills by name.
fn sort_skills(v: &Vec<FavSkill>) -> (r: Vec<FavSkill>)
    ensures
        fav_skills_view(r@) == sort_by_name(fav_skills_view(v@)),
{
    let ghost s = fav_skills_view(v@);
    let n = v.len();
    let mut out: Vec<FavSkill> = Vec::new();
    let mut k: usize = 0;
    assert(s.subrange(0, 0) =~= Seq::<FavSkillV>::empty());
    while k < n
        invariant
            n == v@.len(),
            s == fav_skills_view(v@),
            k <= n,
            fav_skills_view(out@) == sort_by_name(s.subrange(0, k as int)),
        decreases n - k,
    {
        let x = copy_fav_skill(&v[k]);
        let p = find_ins_point(&out, &x);
        let ghost before = fav_skills_view(out@);
        assert(s.subrange(0, k + 1).drop_last() =~= s.subrange(0, k as int));
        assert(s.subrange(0, k + 1).last() == x@);
        out.insert(p, x);
        assert(fav_skills_view(out@) =~= before.insert(p as int, x@));
        k = k + 1;
    }
    assert(s.subrange(0, n as int) =~= s);
    out
}

/// The current time in RFC 3339 (`chrono::Utc::now().to_rfc3339()`): a
/// date and time such as `1996-12-19T16:39:57-08:00`, so never empty; which
/// time depends on the clock and is not stated.
#[verifier::external_body]
pub(crate) fn now_rfc3339() -> (r: String)
    ensures
        r@.len() > 0,
{
    chrono::Utc::now().to_rfc3339()
}

/// A copy of an optional string.
fn copy_opt(o: &Option<String>) -> (r: Option<String>)
    ensures
        opt_view(r) == opt_view(*o),
{
    match o {
        Some(s) => Some(s.clone()),
        None => None,
    }
}

/// The favorites after bookmarking `picked` of `spec` (by name when
/// `by_name`): an existing bookmark named skill by skill gets them upserted
/// and re-sorted by name; otherwise the bookmark is (re)written with exactly
/// `picked`. Either way it records `commit` and the time `now`.
pub open spec fn bookmarked(
    favs: Seq<(Seq<char>, Favorite)>,
    after: Seq<(Seq<char>, Favorite)>,
    spec: SourceSpec,
    picked: Seq<FavSkillV>,
    by_name: bool,
    commit: Seq<char>,
    now: Seq<char>,
) -> bool {
    let upsert = has_key(favs, spec.key@) && by_name;
    exists|f: Favorite|
        after == insert_spec(favs, spec.key@, f) && if upsert {
            let of = favs[key_index(favs, spec.key@)].1;
            fav_is(
                f,
                opt_view(of.url),
                opt_view(of.local_path),
                commit,
                now,
                sort_by_name(upsert_all(fav_skills_view(of.skills@), picked)),
            )
        } else {
            fav_is(f, opt_view(spec.url), opt_view(spec.local_path), commit, now, picked)
        }
}

/// Bookmarking a whole repository (no names) replaces the bookmark's
/// snapshot by every scanned skill, whatever was bookmarked before.
pub proof fn law_whole_repo_bookmark_overwrites(
    favs: Seq<(Seq<char>, Favorite)>,
    after: Seq<(Seq<char>, Favorite)>,
    spec: SourceSpec,
    all: Seq<SkillEntry>,
    commit: Seq<char>,
    now: Seq<char>,
)
    requires
        keys_sorted(favs),
        bookmarked(favs, after, spec, picked_view(all, Seq::empty()), false, commit, now),
    ensures
        lookup(after, spec.key@) matches Some(f) && fav_skills_view(f.skills@) == all.map_values(
            |e: SkillEntry| entry_fav(e),
        ) && f.commit@ == commit && f.bookmarked_at@ == now,
{
    let f = choose|f: Favorite|
        after == insert_spec(favs, spec.key@, f) && fav_is(
            f,
            opt_view(spec.url),
            opt_view(spec.local_path),
            commit,
            now,
            picked_view(all, Seq::empty()),
        );
    crate::strmap::law_insert_then_lookup(favs, spec.key@, f, spec.key@);
}

/// Bookmark the scanned skills `all` of `spec` (cached at `commit`) with the
/// given timestamps. `names` empty takes every skill and overwrites the
/// snapshot; otherwise each named skill is upserted into an existing
/// bookmark (whose skills are then re-sorted by name), or makes a new one.
/// The source is registered when new. Returns the key and the number taken.
pub fn bookmark_at(
    reg: &mut Registry,
    spec: &SourceSpec,
    all: &Vec<SkillEntry>,
    names: &Vec<String>,
    commit: &str,
    fetched_at: &str,
    now: &str,
) -> (r: Result<(String, usize), Error>)
    requires
        old(reg).wf(),
    ensures
        final(reg).wf(),
        final(reg).version == old(reg).version,
        final(reg).installs == old(reg).installs,
        match r {
            Ok((key, n)) => {
                let picked = picked_view(all@, views_of(names@));
                let upsert = has_key(old(reg).favorites@, spec.key@) && names@.len() > 0;
                &&& key@ == spec.key@
                &&& first_missing(all@, views_of(names@)) == -1
                &&& n == picked.len()
                &&& has_key(old(reg).sources@, spec.key@) ==> final(reg).sources@ == old(
                    reg,
                ).sources@
                &&& !has_key(old(reg).sources@, spec.key@) ==> exists|s: SourceRecord|
                    source_is(s, *spec, commit@, fetched_at@) && final(reg).sources@
                        == insert_spec(old(reg).sources@, spec.key@, s)
                &&& bookmarked(old(reg).favorites@, final(reg).favorites@, *spec, picked, names@.len() > 0, commit@, now@)
            },
            Err(e) => {
                let k = first_missing(all@, views_of(names@));
                &&& k >= 0
                &&& (e matches Error::Msg(m) && m@ == "仓库中无技能 "@ + names@[k]@)
                &&& final(reg).sources == old(reg).sources
                &&& final(reg).favorites == old(reg).favorites
            },
        },
{
    let picked = match pick_skills(all, names) {
        Ok(p) => p,
        Err(e) => {
            return Err(e);
        },
    };
    let count = picked.len();
    if !reg.sources.contains_key(spec.key.as_str()) {
        let url = match &spec.url {
            Some(u) => u.clone(),
            None => String::new(),
        };
        let rec = SourceRecord {
            url,
            commit: String::from_str(commit),
            fetched_at: String::from_str(fetched_at),
            auto_update: None,
        };
        let ghost sr = rec;
        reg.sources.insert(spec.key.clone(), rec);
        assert(source_is(sr, *spec, commit@, fetched_at@) && reg.sources@ == insert_spec(
            old(reg).sources@,
            spec.key@,
            sr,
        ));
    }
    let ghost mid = reg.favorites@;
    assert(mid == old(reg).favorites@);
    let found = reg.favorites.find(spec.key.as_str());
    match found {
        Some(i) if names.len() > 0 => {
            proof {
                lemma_key_index(reg.favorites@, i as int);
            }
            let placeholder = Favorite {
                url: None,
                local_path: None,
                commit: String::new(),
                bookmarked_at: String::new(),
                skills: Vec::new(),
            };
            let mut fav = reg.favorites.replace_at(i, placeholder);
            let ghost of = fav;
            upsert_skills(&mut fav.skills, &picked);
            fav.skills = sort_skills(&fav.skills);
            fav.commit = String::from_str(commit);
            fav.bookmarked_at = String::from_str(now);
            let ghost f = fav;
            reg.favorites.replace_at(i, fav);
            assert(fav_is(
                f,
                opt_view(of.url),
                opt_view(of.local_path),
                commit@,
                now@,
                sort_by_name(
                    upsert_all(fav_skills_view(of.skills@), picked_view(all@, views_of(names@))),
                ),
            ));
            assert(reg.favorites@ =~= insert_spec(old(reg).favorites@, spec.key@, f));
            assert(has_key(old(reg).favorites@, spec.key@) && names@.len() > 0);
        },
        _ => {
            let fav = Favorite {
                url: copy_opt(&spec.url),
                local_path: copy_opt(&spec.local_path),
                commit: String::from_str(commit),
                bookmarked_at: String::from_str(now),
                skills: picked,
            };
            let ghost f = fav;
            reg.favorites.insert(spec.key.clone(), fav);
            assert(fav_is(
                f,
                opt_view(spec.url),
                opt_view(spec.local_path),
                commit@,
                now@,
                picked_view(all@, views_of(names@)),
            ));
            assert(!(has_key(old(reg).favorites@, spec.key@) && names@.len() > 0));
            assert(reg.favorites@ == insert_spec(old(reg).favorites@, spec.key@, f));
        },
    }
    Ok((spec.key.clone(), count))
}

/// [`bookmark_at`] stamped with the current time.
pub fn bookmark(
    reg: &mut Registry,
    spec: &SourceSpec,
    all: &Vec<SkillEntry>,
    names: &Vec<String>,
    commit: &str,
) -> (r: Result<(String, usize), Error>)
    requires
        old(reg).wf(),
    ensures
        final(reg).wf(),
        final(reg).installs == old(reg).installs,
        final(reg).version == old(reg).version,
        match r {
            Ok((key, n)) => {
                let by_name = names@.len() > 0;
                let picked = picked_view(all@, views_of(names@));
                &&& key@ == spec.key@
                &&& first_missing(all@, views_of(names@)) == -1
                &&& n == picked.len()
                &&& exists|now: Seq<char>|
                    #[trigger] bookmarked(
                        old(reg).favorites@,
                        final(reg).favorites@,
                        *spec,
                        picked,
                        by_name,
                        commit@,
                        now,
                    )
                &&& has_key(old(reg).sources@, spec.key@) ==> final(reg).sources@ == old(
                    reg,
                ).sources@
                &&& !has_key(old(reg).sources@, spec.key@) ==> exists|s: SourceRecord, at: Seq<char>|
                    #[trigger] source_is(s, *spec, commit@, at) && final(reg).sources@ == insert_spec(
                        old(reg).sources@,
                        spec.key@,
                        s,
                    )
            },
            Err(e) => {
                let k = first_missing(all@, views_of(names@));
                &&& k >= 0
                &&& (e matches Error::Msg(m) && m@ == "仓库中无技能 "@ + names@[k]@)
                &&& final(reg).sources == old(reg).sources
                &&& final(reg).favorites == old(reg).favorites
            },
        },
{
    let fetched_at = now_rfc3339();
    let now = now_rfc3339();
    let ghost fa = fetched_at@;
    let ghost nw = now@;
    let r = bookmark_at(reg, spec, all, names, commit, fetched_at.as_str(), now.as_str());
    proof {
        if r is Ok {
            assert(bookmarked(
                old(reg).favorites@,
                final(reg).favorites@,
                *spec,
                picked_view(all@, views_of(names@)),
                names@.len() > 0,
                commit@,
                nw,
            ));
            if !has_key(old(reg).sources@, spec.key@) {
                let s = choose|s: SourceRecord| source_is(s, *spec, commit@, fa) && final(reg).sources@
                    == insert_spec(old(reg).sources@, spec.key@, s);
                assert(source_is(s, *spec, commit@, fa));
            }
        }
    }
    r
}


/// `s` without the skills named `n`.
pub open spec fn drop_name(s: Seq<FavSkillV>, n: Seq<char>) -> Seq<FavSkillV> {
    s.filter(|x: FavSkillV| x.name != n)
}

/// Removing `names` one after another: the skills left and the index of the
/// first name that removed nothing (-1 when every name removed something).
pub open spec fn unbookmark_walk(s: Seq<FavSkillV>, names: Seq<Seq<char>>) -> (Seq<FavSkillV>, int)
    decreases names.len(),
{
    if names.len() == 0 {
        (s, -1)
    } else {
        let (t, e) = unbookmark_walk(s, names.drop_last());
        if e >= 0 {
            (t, e)
        } else {
            let t2 = drop_name(t, names.last());
            if t2.len() == t.len() {
                (t, names.len() - 1)
            } else {
                (t2, -1)
            }
        }
    }
}

pub proof fn lemma_walk_stops(s: Seq<FavSkillV>, names: Seq<Seq<char>>, m: int)
    requires
        0 <= m <= names.len(),
        unbookmark_walk(s, names.subrange(0, m)).1 >= 0,
    ensures
        unbookmark_walk(s, names) == unbookmark_walk(s, names.subrange(0, m)),
    decreases names.len(),
{
    if m < names.len() {
        let prefix = names.drop_last();
        assert(prefix.subrange(0, m) =~= names.subrange(0, m));
        lemma_walk_stops(s, prefix, m);
    } else {
        assert(names.subrange(0, m) =~= names);
    }
}

pub proof fn lemma_filter_same_len(s: Seq<FavSkillV>, p: spec_fn(FavSkillV) -> bool)
    requires
        s.filter(p).len() == s.len(),
    ensures
        s.filter(p) == s,
    decreases s.len(),
{
    reveal(Seq::filter);
    if s.len() > 0 {
        s.drop_last().lemma_filter_len(p);
        if p(s.last()) {
            lemma_filter_same_len(s.drop_last(), p);
            assert(s.drop_last().push(s.last()) =~= s);
        }
    }
}

/// `f` is `of` with its skills replaced by `skills`.
pub open spec fn fav_with_skills(f: Favorite, of: Favorite, skills: Seq<FavSkillV>) -> bool {
    &&& f.url == of.url
    &&& f.local_path == of.local_path
    &&& f.commit == of.commit
    &&& f.bookmarked_at == of.bookmarked_at
    &&& fav_skills_view(f.skills@) == skills
}

/// Remove every skill named `n`; returns whether any was removed.
fn retain_other_names(v: &mut Vec<FavSkill>, n: &str) -> (r: bool)
    ensures
        fav_skills_view(final(v)@) == drop_name(fav_skills_view(old(v)@), n@),
        r == (fav_skills_view(final(v)@).len() != fav_skills_view(old(v)@).len()),
{
    let ghost s = fav_skills_view(v@);
    let ghost pred = |x: FavSkillV| x.name != n@;
    let len = v.len();
    let mut out: Vec<FavSkill> = Vec::new();
    let mut i: usize = 0;
    while i < len
        invariant
            len == v@.len(),
            s == fav_skills_view(v@),
            i <= len,
            pred == (|x: FavSkillV| x.name != n@),
            fav_skills_view(out@) == s.subrange(0, i as int).filter(pred),
        decreases len - i,
    {
        proof {
            s.subrange(0, i as int).lemma_filter_push(s[i as int], pred);
            assert(s.subrange(0, i + 1) =~= s.subrange(0, i as int).push(s[i as int]));
        }
        if !str_eq(v[i].name.as_str(), n) {
            let ghost before = fav_skills_view(out@);
            out.push(copy_fav_skill(&v[i]));
            assert(fav_skills_view(out@) =~= before.push(s[i as int]));
        }
        i = i + 1;
    }
    assert(s.subrange(0, len as int) =~= s);
    proof {
        s.lemma_filter_len(pred);
    }
    let changed = out.len() != len;
    *v = out;
    changed
}

/// What [`unbookmark`] does to the favorites `favs` (giving `after`)
/// for `names`, and what it returns.
pub open spec fn unbookmark_effect(
    favs: Seq<(Seq<char>, Favorite)>,
    after: Seq<(Seq<char>, Favorite)>,
    source_key: Seq<char>,
    names: Seq<Seq<char>>,
    r: Result<usize, Error>,
) -> bool {
    let i = key_index(favs, source_key);
    let of = favs[i].1;
    let (t, e) = unbookmark_walk(fav_skills_view(of.skills@), names);
    if !has_key(favs, source_key) {
        after == favs && (r matches Err(Error::NotBookmarked(m)) && m@ == source_key)
    } else if names.len() == 0 {
        (r matches Ok(n) && n == of.skills@.len()) && after == favs.remove(i)
    } else if e >= 0 {
        (r matches Err(Error::NotBookmarked(m)) && m@ == source_key + " 中无技能 "@ + names[e])
            && exists|f: Favorite| fav_with_skills(f, of, t) && after == favs.update(i, (source_key, f))
    } else if t.len() == 0 {
        (r matches Ok(n) && n == names.len()) && after == favs.remove(i)
    } else {
        (r matches Ok(n) && n == names.len()) && exists|f: Favorite|
            fav_with_skills(f, of, t) && after == favs.update(i, (source_key, f))
    }
}

/// A successful unbookmark never leaves a bookmark without skills: the
/// source is gone, or keeps at least one skill; removing a whole source
/// (no names) removes it.
pub proof fn law_unbookmark_never_leaves_empty(
    favs: Seq<(Seq<char>, Favorite)>,
    after: Seq<(Seq<char>, Favorite)>,
    source_key: Seq<char>,
    names: Seq<Seq<char>>,
    r: Result<usize, Error>,
)
    requires
        keys_sorted(favs),
        unbookmark_effect(favs, after, source_key, names, r),
        r is Ok,
    ensures
        !has_key(after, source_key) || (lookup(after, source_key) matches Some(f) && f.skills@.len() > 0),
        names.len() == 0 ==> !has_key(after, source_key),
{
    let i = key_index(favs, source_key);
    assert(has_key(favs, source_key));
    assert(0 <= i < favs.len() && favs[i].0 == source_key);
    let of = favs[i].1;
    let (t, e) = unbookmark_walk(fav_skills_view(of.skills@), names);
    if names.len() == 0 || t.len() == 0 {
        assert(after == favs.remove(i));
        assert(!has_key(after, source_key)) by {
            if has_key(after, source_key) {
                let q = choose|q: int| 0 <= q < after.len() && #[trigger] after[q].0 == source_key;
                if q < i {
                    assert(after[q] == favs[q]);
                    assert(crate::text::seq_lt(favs[q].0, favs[i].0));
                } else {
                    assert(after[q] == favs[q + 1]);
                    assert(crate::text::seq_lt(favs[i].0, favs[q + 1].0));
                }
                crate::text::lemma_seq_lt_irrefl(source_key);
            }
        }
    } else {
        let f = choose|f: Favorite| fav_with_skills(f, of, t) && after == favs.update(i, (source_key, f));
        assert(keys_sorted(after)) by {
            assert forall|a: int, b: int| 0 <= a < b < after.len() implies crate::text::seq_lt(#[trigger] after[a].0, #[trigger] after[b].0) by {
                assert(after[a].0 == favs[a].0 && after[b].0 == favs[b].0);
            }
        }
        assert(after[i] == (source_key, f));
        lemma_key_index(after, i);
        assert(f.skills@.len() == t.len());
    }
}

/// Remove a bookmark: all of it when `names` is empty, else the named
/// skills one by one (an unknown name stops with an error, keeping the
/// removals before it). A bookmark left without skills is removed.
/// Installs and the cache are not touched. Returns how many were removed.
pub fn unbookmark(reg: &mut Registry, source_key: &str, names: &Vec<String>) -> (r: Result<
    usize,
    Error,
>)
    requires
        old(reg).wf(),
    ensures
        final(reg).wf(),
        final(reg).version == old(reg).version,
        final(reg).sources == old(reg).sources,
        final(reg).installs == old(reg).installs,
        unbookmark_effect(old(reg).favorites@, final(reg).favorites@, source_key@, views_of(names@), r),
{
    let i = match reg.favorites.find(source_key) {
        None => {
            return Err(Error::NotBookmarked(String::from_str(source_key)));
        },
        Some(i) => i,
    };
    proof {
        lemma_key_index(reg.favorites@, i as int);
    }
    if names.len() == 0 {
        let f = reg.favorites.remove_at(i);
        assert(key_index(old(reg).favorites@, source_key@) == i);
        return Ok(f.skills.len());
    }
    let placeholder = Favorite {
        url: None,
        local_path: None,
        commit: String::new(),
        bookmarked_at: String::new(),
        skills: Vec::new(),
    };
    let ghost ph = placeholder;
    let mut fav = reg.favorites.replace_at(i, placeholder);
    let ghost of = fav;
    let ghost s0 = fav_skills_view(of.skills@);
    let ghost mid = reg.favorites@;
    let ghost nv = views_of(names@);
    let m = names.len();
    let mut k: usize = 0;
    assert(nv.subrange(0, 0) =~= Seq::<Seq<char>>::empty());
    while k < m
        invariant
            m == names@.len(),
            nv == views_of(names@),
            k <= m,
            fav.url == of.url,
            fav.local_path == of.local_path,
            fav.commit == of.commit,
            fav.bookmarked_at == of.bookmarked_at,
            unbookmark_walk(s0, nv.subrange(0, k as int)) == (fav_skills_view(fav.skills@), -1int),
            reg.favorites@ == mid,
            mid == old(reg).favorites@.update(i as int, (source_key@, ph)),
            i < old(reg).favorites@.len(),
            old(reg).favorites@[i as int].0 == source_key@,
            of == old(reg).favorites@[i as int].1,
            key_index(old(reg).favorites@, source_key@) == i,
            has_key(old(reg).favorites@, source_key@),
            s0 == fav_skills_view(of.skills@),
            reg.favorites.wf(),
            reg.sources == old(reg).sources,
            reg.installs == old(reg).installs,
            reg.version == old(reg).version,
            old(reg).wf(),
        decreases m - k,
    {
        assert(nv.subrange(0, k + 1).drop_last() =~= nv.subrange(0, k as int));
        assert(nv.subrange(0, k + 1).last() == names@[k as int]@);
        let ghost before = fav_skills_view(fav.skills@);
        let changed = retain_other_names(&mut fav.skills, names[k].as_str());
        if !changed {
            proof {
                lemma_filter_same_len(before, |x: FavSkillV| x.name != names@[k as int]@);
                lemma_walk_stops(s0, nv, k + 1);
            }
            let msg = concat3(source_key, " 中无技能 ", names[k].as_str());
            let ghost f = fav;
            reg.favorites.replace_at(i, fav);
            assert(fav_with_skills(f, of, before));
            assert(reg.favorites@ =~= old(reg).favorites@.update(i as int, (source_key@, f)));
            assert(unbookmark_walk(s0, nv) == (before, k as int));
            assert(key_index(old(reg).favorites@, source_key@) == i);
            assert(fav_with_skills(f, of, unbookmark_walk(s0, nv).0));
            assert(exists|g: Favorite|
                fav_with_skills(g, of, unbookmark_walk(s0, nv).0) && reg.favorites@
                    == old(reg).favorites@.update(i as int, (source_key@, g)));
            assert(views_of(names@)[k as int] == names@[k as int]@);
            assert(unbookmark_walk(s0, nv).1 == k);
            let err = Error::NotBookmarked(msg);
            assert(err matches Error::NotBookmarked(mm) && mm@ == source_key@ + " 中无技能 "@
                + names@[k as int]@);
            return Err(err);
        }
        k = k + 1;
    }
    assert(nv.subrange(0, m as int) =~= nv);
    if fav.skills.len() == 0 {
        reg.favorites.remove_at(i);
        assert(reg.favorites@ =~= old(reg).favorites@.remove(i as int));
    } else {
        let ghost f = fav;
        reg.favorites.replace_at(i, fav);
        assert(fav_with_skills(f, of, fav_skills_view(f.skills@)));
        assert(reg.favorites@ =~= old(reg).favorites@.update(i as int, (source_key@, f)));
        assert(unbookmark_walk(s0, nv.subrange(0, m as int)).0 == fav_skills_view(f.skills@));
        assert(fav_with_skills(f, of, unbookmark_walk(s0, nv).0));
        assert(exists|g: Favorite|
            fav_with_skills(g, of, unbookmark_walk(s0, nv).0) && reg.favorites@
                == old(reg).favorites@.update(i as int, (source_key@, g)));
    }
    Ok(m)
}

/// Resolve a bookmark key: an exact favorites key, else the key of the
/// parsed source expression when that is bookmarked.
pub fn resolve_key(reg: &Registry, input: &str) -> (r: Result<String, Error>)
    ensures
        ({
            let favs = reg.favorites@;
            let parsed_key = match parse_source_spec(input@) {
                Ok(v) => Some(v.key),
                Err(_) => None,
            };
            if has_key(favs, input@) {
                r matches Ok(k) && k@ == input@
            } else if parsed_key matches Some(pk) && has_key(favs, pk) {
                r matches Ok(k) && k@ == parsed_key->0
            } else {
                r matches Err(Error::NotBookmarked(m)) && m@ == input@
            }
        }),
{
    if reg.favorites.contains_key(input) {
        return Ok(String::from_str(input));
    }
    match parse_source(input) {
        Ok(spec) => {
            if reg.favorites.contains_key(spec.key.as_str()) {
                return Ok(spec.key);
            }
        },
        Err(_) => {},
    }
    Err(Error::NotBookmarked(String::from_str(input)))
}

/// A relative path whose only component is `.` (`Path` equality with `.`).
pub open spec fn is_curdir(p: Seq<char>) -> bool {
    &&& p.len() > 0
    &&& p[0] == '.'
    &&& forall|i: int| 0 <= i < p.len() ==> (#[trigger] p[i] == '.' || p[i] == '/')
    &&& forall|i: int|
        0 <= i < p.len() && #[trigger] p[i] == '.' ==> (i == 0 || p[i - 1] == '/') && (i + 1
            == p.len() || p[i + 1] == '/')
}

/// Exec form of [`is_curdir`].
pub fn is_curdir_path(p: &str) -> (r: bool)
    ensures
        r == is_curdir(p@),
{
    let v = crate::text::chars_of(p);
    let n = v.len();
    if n == 0 || v[0] != '.' {
        return false;
    }
    let mut i: usize = 0;
    while i < n
        invariant
            n == v@.len(),
            v@ == p@,
            i <= n,
            forall|j: int| 0 <= j < i ==> (#[trigger] v@[j] == '.' || v@[j] == '/'),
            forall|j: int|
                0 <= j < i && #[trigger] v@[j] == '.' ==> (j == 0 || v@[j - 1] == '/') && (j + 1
                    == n || v@[j + 1] == '/'),
        decreases n - i,
    {
        let c = v[i];
        if c != '.' && c != '/' {
            return false;
        }
        if c == '.' {
            if i > 0 && v[i - 1] != '/' {
                return false;
            }
            if i + 1 < n && v[i + 1] != '/' {
                return false;
            }
        }
        i = i + 1;
    }
    true
}

/// A single-skill repository: its only skill sits at the source root.
pub fn is_single_skill_repo(fav: &Favorite) -> (r: bool)
    ensures
        r == (fav.skills@.len() == 1 && is_curdir(fav.skills@[0].source_path@)),
{
    fav.skills.len() == 1 && is_curdir_path(fav.skills[0].source_path.as_str())
}

} // verus!
