//! User-defined classification of installs.

use vstd::prelude::*;

use crate::error::Error;
use crate::registry::{install_index, Install, Registry, TargetRec};
use crate::text::str_eq;

verus! {

/// Install `i` carries `tag`.
pub open spec fn has_tag(i: Install, tag: Seq<char>) -> bool {
    exists|j: int| 0 <= j < i.tags@.len() && (#[trigger] i.tags@[j])@ == tag
}

/// Install `i` with its tags replaced by `tags`.
pub open spec fn with_tags(i: Install, tags: Vec<String>) -> Install {
    Install { tags: tags, ..i }
}

/// Whether `inst` carries `tag`.
pub fn install_has_tag(inst: &Install, tag: &str) -> (r: bool)
    ensures
        r == has_tag(*inst, tag@),
{
    let n = inst.tags.len();
    let mut j: usize = 0;
    while j < n
        invariant
            n == inst.tags@.len(),
            j <= n,
            forall|k: int| 0 <= k < j ==> (#[trigger] inst.tags@[k])@ != tag@,
        decreases n - j,
    {
        if str_eq(inst.tags[j].as_str(), tag) {
            return true;
        }
        j = j + 1;
    }
    false
}

/// Overwrite the tags of the install of `skill` in `target`; other copies
/// of the same skill keep theirs.
pub fn set_tags(reg: &mut Registry, skill: &str, target: &TargetRec, tags: Vec<String>) -> (r:
    Result<(), Error>)
    ensures
        final(reg).version == old(reg).version,
        final(reg).sources == old(reg).sources,
        final(reg).favorites == old(reg).favorites,
        ({
            let k = install_index(old(reg).installs@, skill@, target@);
            match r {
                Ok(()) => k >= 0 && final(reg).installs@ == old(reg).installs@.update(
                    k,
                    with_tags(old(reg).installs@[k], tags),
                ),
                Err(e) => k == -1 && final(reg).installs@ == old(reg).installs@ && (e matches Error::NotInstalled(m) && m@ == skill@),
            }
        }),
{
    match reg.position(skill, target) {
        None => Err(Error::NotInstalled(String::from_str(skill))),
        Some(k) => {
            let mut inst = reg.installs.remove(k);
            inst.tags = tags;
            reg.installs.insert(k, inst);
            assert(reg.installs@ =~= old(reg).installs@.update(
                k as int,
                with_tags(old(reg).installs@[k as int], tags),
            ));
            Ok(())
        },
    }
}

/// The installs of `s` carrying `tag`, in order.
pub open spec fn tag_filter(s: Seq<Install>, tag: Seq<char>) -> Seq<Install> {
    s.filter(|i: Install| has_tag(i, tag))
}

/// The installs carrying `tag`, in registry order.
pub fn filter_by_tag<'a>(reg: &'a Registry, tag: &str) -> (r: Vec<&'a Install>)
    ensures
        r@.map_values(|x: &Install| *x) == tag_filter(reg.installs@, tag@),
{
    let n = reg.installs.len();
    let mut out: Vec<&Install> = Vec::new();
    let mut k: usize = 0;
    let ghost pred = |i: Install| has_tag(i, tag@);
    while k < n
        invariant
            n == reg.installs@.len(),
            k <= n,
            pred == (|i: Install| has_tag(i, tag@)),
            out@.map_values(|x: &Install| *x) == reg.installs@.subrange(0, k as int).filter(pred),
        decreases n - k,
    {
        proof {
            reg.installs@.subrange(0, k as int).lemma_filter_push(reg.installs@[k as int], pred);
            assert(reg.installs@.subrange(0, k + 1) =~= reg.installs@.subrange(0, k as int).push(
                reg.installs@[k as int],
            ));
        }
        let ghost before = out@;
        if install_has_tag(&reg.installs[k], tag) {
            out.push(&reg.installs[k]);
            assert(out@.map_values(|x: &Install| *x) =~= before.map_values(|x: &Install| *x).push(
                reg.installs@[k as int],
            ));
        }
        k = k + 1;
    }
    assert(reg.installs@.subrange(0, n as int) =~= reg.installs@);
    out
}


/// The tag filter keeps exactly the installs that carry the tag somewhere
/// in their tag list: an install of the registry whose tags hold `tag` at
/// any position is kept, and whatever is kept is an install of the registry
/// one of whose tags is `tag`.
pub proof fn law_tag_filter_any_position(s: Seq<Install>, tag: Seq<char>)
    ensures
        forall|k: int, j: int|
            0 <= k < s.len() && 0 <= j < s[k].tags@.len() && (#[trigger] s[k].tags@[j])@ == tag
                ==> tag_filter(s, tag).contains(s[k]),
        forall|x: Install|
            #[trigger] tag_filter(s, tag).contains(x) ==> s.contains(x) && exists|
                j: int,
            |
                0 <= j < x.tags@.len() && (#[trigger] x.tags@[j])@ == tag,
{
    let pred = |i: Install| has_tag(i, tag);
    assert forall|k: int, j: int|
        0 <= k < s.len() && 0 <= j < s[k].tags@.len() && (#[trigger] s[k].tags@[j])@ == tag
            implies s.filter(pred).contains(s[k]) by {
        assert(pred(s[k]));
        s.lemma_filter_contains(pred, k);
    }
    assert forall|x: Install| #[trigger] s.filter(pred).contains(x) implies s.contains(x) && exists|
        j: int,
    |
        0 <= j < x.tags@.len() && (#[trigger] x.tags@[j])@ == tag by {
        s.lemma_filter_contains_rev(pred, x);
        let w = choose|w: int| 0 <= w < s.filter(pred).len() && s.filter(pred)[w] == x;
        s.lemma_filter_pred(pred, w);
    }
}

/// Whether an install carries a tag does not depend on where the tag
/// stands: it carries each of its tags, and no tag it lacks.
pub proof fn law_has_tag_is_membership(i: Install, tag: Seq<char>)
    ensures
        (exists|j: int| 0 <= j < i.tags@.len() && (#[trigger] i.tags@[j])@ == tag) <==> has_tag(i, tag),
        forall|j: int| 0 <= j < i.tags@.len() ==> has_tag(i, (#[trigger] i.tags@[j])@),
{
}

} // verus!
