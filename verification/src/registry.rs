//! The install registry: sources, installs and favorites, and the lookups
//! by skill and target that every command goes through.

use vstd::prelude::*;

use crate::paths::{paths_equal, target_same, Target, TargetV};
use crate::strmap::StrMap;
use crate::text::str_eq;

verus! {

/// How a skill is placed in its target.
#[derive(Clone, Copy, PartialEq, Eq, Structural, Debug)]
pub enum Method {
    Symlink,
    Copy,
}

/// A target as recorded in the registry.
#[derive(PartialEq, Debug)]
pub enum TargetRec {
    Global { name: String },
    Project { root: String },
}

impl View for TargetRec {
    type V = TargetV;

    open spec fn view(&self) -> TargetV {
        match self {
            TargetRec::Global { name } => TargetV::Global(name@),
            TargetRec::Project { root } => TargetV::Project(root@),
        }
    }
}

impl Clone for TargetRec {
    fn clone(&self) -> (r: Self)
        ensures
            r@ == self@,
    {
        match self {
            TargetRec::Global { name } => TargetRec::Global { name: name.clone() },
            TargetRec::Project { root } => TargetRec::Project { root: root.clone() },
        }
    }
}

impl TargetRec {
    /// The runtime target this record denotes.
    pub fn to_target(&self) -> (r: Target)
        ensures
            r@ == self@,
    {
        match self {
            TargetRec::Global { name } => Target::Global { name: name.clone() },
            TargetRec::Project { root } => Target::Project { root: root.clone() },
        }
    }

    /// Whether two records denote the same target.
    pub fn same(&self, other: &TargetRec) -> (r: bool)
        ensures
            r == target_same(self@, other@),
    {
        match (self, other) {
            (TargetRec::Global { name: a }, TargetRec::Global { name: b }) => str_eq(
                a.as_str(),
                b.as_str(),
            ),
            (TargetRec::Project { root: a }, TargetRec::Project { root: b }) => paths_equal(
                a.as_str(),
                b.as_str(),
            ),
            _ => false,
        }
    }
}

/// A cached source.
#[derive(Clone, Debug)]
pub struct SourceRecord {
    pub url: String,
    pub commit: String,
    pub fetched_at: String,
    pub auto_update: Option<bool>,
}

/// One skill installed into one target.
#[derive(Clone, Debug)]
pub struct Install {
    pub skill: String,
    pub source: String,
    pub source_path: String,
    pub target: TargetRec,
    pub method: Method,
    pub commit: String,
    pub tags: Vec<String>,
    pub auto_update: Option<bool>,
    pub installed_at: String,
}

/// One bookmarked skill of a favorite source.
#[derive(Clone, Debug)]
pub struct FavSkill {
    pub name: String,
    pub description: String,
    pub source_path: String,
}

/// Model of a [`FavSkill`].
pub struct FavSkillV {
    pub name: Seq<char>,
    pub description: Seq<char>,
    pub source_path: Seq<char>,
}

impl View for FavSkill {
    type V = FavSkillV;

    open spec fn view(&self) -> FavSkillV {
        FavSkillV {
            name: self.name@,
            description: self.description@,
            source_path: self.source_path@,
        }
    }
}

/// Views of a sequence of bookmarked skills.
pub open spec fn fav_skills_view(s: Seq<FavSkill>) -> Seq<FavSkillV> {
    s.map_values(|f: FavSkill| f@)
}

/// A bookmarked source and the snapshot of its skills.
#[derive(Clone, Debug)]
pub struct Favorite {
    pub url: Option<String>,
    pub local_path: Option<String>,
    pub commit: String,
    pub bookmarked_at: String,
    pub skills: Vec<FavSkill>,
}

/// The registry: sources and favorites keyed by source key, and installs.
pub struct Registry {
    pub version: u32,
    pub sources: StrMap<SourceRecord>,
    pub installs: Vec<Install>,
    pub favorites: StrMap<Favorite>,
}

/// Install `i` is the one of `skill` in target `t`.
pub open spec fn is_install_of(i: Install, skill: Seq<char>, t: TargetV) -> bool {
    i.skill@ == skill && target_same(i.target@, t)
}

/// Index of the first install of `skill` in `t`, or -1.
pub open spec fn install_index(s: Seq<Install>, skill: Seq<char>, t: TargetV) -> int {
    if exists|k: int|
        0 <= k < s.len() && is_install_of(s[k], skill, t) && (forall|j: int|
            0 <= j < k ==> !is_install_of(#[trigger] s[j], skill, t)) {
        choose|k: int|
            0 <= k < s.len() && is_install_of(s[k], skill, t) && (forall|j: int|
                0 <= j < k ==> !is_install_of(#[trigger] s[j], skill, t))
    } else {
        -1
    }
}

pub proof fn lemma_install_index(s: Seq<Install>, skill: Seq<char>, t: TargetV, k: int)
    requires
        -1 <= k < s.len(),
        k >= 0 ==> is_install_of(s[k], skill, t),
        forall|j: int| 0 <= j < s.len() && (k < 0 || j < k) ==> !is_install_of(#[trigger] s[j], skill, t),
    ensures
        install_index(s, skill, t) == k,
{
    if k >= 0 {
        assert(0 <= k < s.len() && is_install_of(s[k], skill, t) && (forall|j: int|
            0 <= j < k ==> !is_install_of(#[trigger] s[j], skill, t)));
        let i = choose|i: int|
            0 <= i < s.len() && is_install_of(s[i], skill, t) && (forall|j: int|
                0 <= j < i ==> !is_install_of(#[trigger] s[j], skill, t));
        if i < k {
            assert(!is_install_of(s[i], skill, t));
        }
        if i > k {
            assert(!is_install_of(s[k], skill, t));
        }
    }
}

/// A matching install exists, so the first one is at or before it.
pub proof fn lemma_install_index_found(s: Seq<Install>, skill: Seq<char>, t: TargetV, w: int)
    requires
        0 <= w < s.len(),
        is_install_of(s[w], skill, t),
    ensures
        0 <= install_index(s, skill, t) <= w,
    decreases w,
{
    if exists|j: int| 0 <= j < w && is_install_of(#[trigger] s[j], skill, t) {
        let j = choose|j: int| 0 <= j < w && is_install_of(#[trigger] s[j], skill, t);
        lemma_install_index_found(s, skill, t, j);
    } else {
        lemma_install_index(s, skill, t, w);
    }
}

/// Two spellings of the same target find the same install: looking an
/// install up at `/x/` gives what looking it up at `/x` gives.
pub proof fn law_lookup_ignores_target_spelling(
    s: Seq<Install>,
    skill: Seq<char>,
    t1: TargetV,
    t2: TargetV,
)
    requires
        target_same(t1, t2),
    ensures
        install_index(s, skill, t1) == install_index(s, skill, t2),
{
    assert forall|j: int| 0 <= j < s.len() implies is_install_of(#[trigger] s[j], skill, t1)
        == is_install_of(s[j], skill, t2) by {}
    if exists|w: int| 0 <= w < s.len() && is_install_of(#[trigger] s[w], skill, t1) {
        let w = choose|w: int| 0 <= w < s.len() && is_install_of(#[trigger] s[w], skill, t1);
        lemma_first_install(s, skill, t1, w);
        lemma_install_index(s, skill, t2, install_index(s, skill, t1));
    } else {
        lemma_install_index(s, skill, t1, -1);
        lemma_install_index(s, skill, t2, -1);
    }
}

/// Where a match exists, `install_index` is the first match.
proof fn lemma_first_install(s: Seq<Install>, skill: Seq<char>, t: TargetV, w: int)
    requires
        0 <= w < s.len(),
        is_install_of(s[w], skill, t),
    ensures
        0 <= install_index(s, skill, t) < s.len(),
        is_install_of(s[install_index(s, skill, t)], skill, t),
        forall|j: int| 0 <= j < install_index(s, skill, t) ==> !is_install_of(#[trigger] s[j], skill, t),
    decreases w,
{
    if exists|j: int| 0 <= j < w && is_install_of(#[trigger] s[j], skill, t) {
        let j = choose|j: int| 0 <= j < w && is_install_of(#[trigger] s[j], skill, t);
        lemma_first_install(s, skill, t, j);
    } else {
        lemma_install_index(s, skill, t, w);
    }
}

impl Registry {
    /// Both keyed tables are ordered.
    pub open spec fn wf(&self) -> bool {
        self.sources.wf() && self.favorites.wf()
    }

    /// An empty registry of format version 1.
    pub fn empty() -> (r: Registry)
        ensures
            r.version == 1,
            r.sources@.len() == 0,
            r.installs@.len() == 0,
            r.favorites@.len() == 0,
            r.wf(),
    {
        Registry {
            version: 1,
            sources: StrMap::new(),
            installs: Vec::new(),
            favorites: StrMap::new(),
        }
    }

    /// Position of the install of `skill` in `target`.
    pub fn position(&self, skill: &str, target: &TargetRec) -> (r: Option<usize>)
        ensures
            match r {
                Some(k) => k < self.installs@.len() && install_index(
                    self.installs@,
                    skill@,
                    target@,
                ) == k,
                None => install_index(self.installs@, skill@, target@) == -1,
            },
    {
        let n = self.installs.len();
        let mut k: usize = 0;
        while k < n
            invariant
                n == self.installs@.len(),
                k <= n,
                forall|j: int|
                    0 <= j < k ==> !is_install_of(#[trigger] self.installs@[j], skill@, target@),
            decreases n - k,
        {
            let i = &self.installs[k];
            if str_eq(i.skill.as_str(), skill) && i.target.same(target) {
                proof {
                    lemma_install_index(self.installs@, skill@, target@, k as int);
                }
                return Some(k);
            }
            k = k + 1;
        }
        proof {
            lemma_install_index(self.installs@, skill@, target@, -1);
        }
        None
    }

    /// The install of `skill` in `target`.
    pub fn find(&self, skill: &str, target: &TargetRec) -> (r: Option<&Install>)
        ensures
            match r {
                Some(i) => install_index(self.installs@, skill@, target@) >= 0 && *i
                    == self.installs@[install_index(self.installs@, skill@, target@)],
                None => install_index(self.installs@, skill@, target@) == -1,
            },
    {
        match self.position(skill, target) {
            Some(k) => Some(&self.installs[k]),
            None => None,
        }
    }

    /// Remove and return the install of `skill` in `target`.
    pub fn remove(&mut self, skill: &str, target: &TargetRec) -> (r: Option<Install>)
        ensures
            final(self).version == old(self).version,
            final(self).sources == old(self).sources,
            final(self).favorites == old(self).favorites,
            match r {
                Some(i) => {
                    let k = install_index(old(self).installs@, skill@, target@);
                    k >= 0 && i == old(self).installs@[k] && final(self).installs@ == old(
                        self,
                    ).installs@.remove(k)
                },
                None => install_index(old(self).installs@, skill@, target@) == -1
                    && final(self).installs@ == old(self).installs@,
            },
    {
        match self.position(skill, target) {
            Some(k) => Some(self.installs.remove(k)),
            None => None,
        }
    }
}

} // verus!
