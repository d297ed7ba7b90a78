//! The checks and the record of installing a skill into a target: a skill
//! name is one normal path component, a source path stays inside the cache.

use vstd::prelude::*;

use crate::error::Error;
use crate::favorites::now_rfc3339;
use crate::paths::{is_absolute, Target};
use crate::registry::{Install, Method, TargetRec};
use crate::text::chars_of;

verus! {

/// A skill name is a single normal path component.
pub open spec fn valid_skill_name(s: Seq<char>) -> bool {
    &&& s.len() > 0
    &&& !s.contains('/')
    &&& !s.contains('\\')
    &&& s != seq!['.']
    &&& s != seq!['.', '.']
}

/// `p` has a `..` component.
pub open spec fn has_parent_component(p: Seq<char>) -> bool {
    exists|i: int|
        0 <= i && i + 2 <= p.len() && #[trigger] p[i] == '.' && p[i + 1] == '.' && (i == 0 || p[i
            - 1] == '/') && (i + 2 == p.len() || p[i + 2] == '/')
}

/// A source path is relative and never climbs out of the cache.
pub open spec fn valid_source_rel_path(p: Seq<char>) -> bool {
    !is_absolute(p) && !has_parent_component(p)
}

/// Check a skill name.
pub fn validate_skill_name(skill: &str) -> (r: Result<(), Error>)
    ensures
        match r {
            Ok(()) => valid_skill_name(skill@),
            Err(e) => !valid_skill_name(skill@) && (e matches Error::InvalidSkillName(m) && m@
                == skill@),
        },
{
    let v = chars_of(skill);
    let n = v.len();
    let mut i: usize = 0;
    while i < n
        invariant
            n == v@.len(),
            v@ == skill@,
            i <= n,
            forall|j: int| 0 <= j < i ==> v@[j] != '/' && v@[j] != '\\',
        decreases n - i,
    {
        if v[i] == '/' || v[i] == '\\' {
            assert(skill@.contains(v@[i as int]));
            return Err(Error::InvalidSkillName(String::from_str(skill)));
        }
        i = i + 1;
    }
    let dot = n == 1 && v[0] == '.';
    let dotdot = n == 2 && v[0] == '.' && v[1] == '.';
    if n == 0 || dot || dotdot {
        if dot {
            assert(skill@ =~= seq!['.']);
        }
        if dotdot {
            assert(skill@ =~= seq!['.', '.']);
        }
        return Err(Error::InvalidSkillName(String::from_str(skill)));
    }
    if n == 1 {
        assert(skill@ != seq!['.', '.']);
        assert(skill@[0] != '.');
    }
    if n == 2 {
        assert(skill@ != seq!['.']);
        assert(skill@[0] != '.' || skill@[1] != '.');
    }
    Ok(())
}

/// Check that a source path is relative with no `..` component.
pub fn check_source_rel_path(source_path: &str) -> (r: Result<(), Error>)
    ensures
        match r {
            Ok(()) => valid_source_rel_path(source_path@),
            Err(e) => !valid_source_rel_path(source_path@) && (e matches Error::InvalidSourcePath(
                m,
            ) && m@ == source_path@),
        },
{
    let v = chars_of(source_path);
    let n = v.len();
    if n > 0 && v[0] == '/' {
        return Err(Error::InvalidSourcePath(String::from_str(source_path)));
    }
    let mut i: usize = 0;
    while n > 0 && i < n - 1
        invariant
            n == v@.len(),
            i <= n,
            v@ == source_path@,
            forall|j: int|
                0 <= j < i && j + 2 <= n ==> !(#[trigger] v@[j] == '.' && v@[j + 1] == '.' && (j
                    == 0 || v@[j - 1] == '/') && (j + 2 == n || v@[j + 2] == '/')),
        decreases n - i,
    {
        if v[i] == '.' && v[i + 1] == '.' && (i == 0 || v[i - 1] == '/') && (i + 2 == n || v[i
            + 2] == '/') {
            return Err(Error::InvalidSourcePath(String::from_str(source_path)));
        }
        i = i + 1;
    }
    Ok(())
}

/// The record form of a target.
pub fn to_rec(target: &Target) -> (r: TargetRec)
    ensures
        r@ == target@,
{
    match target {
        Target::Global { name } => TargetRec::Global { name: name.clone() },
        Target::Project { root } => TargetRec::Project { root: root.clone() },
    }
}

/// The install record of a fresh install, stamped `installed_at`.
pub fn install_record_at(
    source_key: &str,
    skill: &str,
    source_path: &str,
    target: &Target,
    method: Method,
    commit: &str,
    installed_at: &str,
) -> (r: Install)
    ensures
        r.skill@ == skill@,
        r.source@ == source_key@,
        r.source_path@ == source_path@,
        r.target@ == target@,
        r.method == method,
        r.commit@ == commit@,
        r.tags@.len() == 0,
        r.auto_update is None,
        r.installed_at@ == installed_at@,
{
    Install {
        skill: String::from_str(skill),
        source: String::from_str(source_key),
        source_path: String::from_str(source_path),
        target: to_rec(target),
        method,
        commit: String::from_str(commit),
        tags: Vec::new(),
        auto_update: None,
        installed_at: String::from_str(installed_at),
    }
}

/// The install record of a fresh install, stamped now.
pub fn install_record(
    source_key: &str,
    skill: &str,
    source_path: &str,
    target: &Target,
    method: Method,
    commit: &str,
) -> (r: Install)
    ensures
        r.skill@ == skill@,
        r.source@ == source_key@,
        r.source_path@ == source_path@,
        r.target@ == target@,
        r.method == method,
        r.commit@ == commit@,
        r.tags@.len() == 0,
        r.auto_update is None,
{
    let now = now_rfc3339();
    install_record_at(source_key, skill, source_path, target, method, commit, now.as_str())
}

} // verus!
