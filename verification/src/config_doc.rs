//! The editable form of `config.toml` behind `skills config get`, `set` and
//! `targets add/remove`: a tree of tables whose other values are either kept
//! from the file (named by their number in the reader's list) or written by
//! the command. Dotted keys address it: `a.b.c` is the path `a`, `b`, `c`.

use vstd::prelude::*;

use crate::config::Scalar;
use crate::error::Error;
use crate::text::{
    chars_of, concat2, find_first, first_index, first_where, lemma_first_where, str_eq, substring,
    views_of,
};

verus! {

/// A node of the configuration document.
#[derive(Debug)]
pub enum DocNode {
    /// A value of the file that is not a table, by its number in the reader's list.
    Kept(u64),
    /// A value written by this command.
    Written(Scalar),
    /// A table: its entries in order.
    Table(Vec<(String, DocNode)>),
}

/// `s` cut at every `c`: `"a.b"` gives `a`, `b`; no `c` gives `s` alone.
pub open spec fn split_on(s: Seq<char>, c: char) -> Seq<Seq<char>>
    decreases s.len(),
{
    let i = first_index(s, c);
    if 0 <= i < s.len() {
        seq![s.subrange(0, i)] + split_on(s.subrange(i + 1, s.len() as int), c)
    } else {
        seq![s]
    }
}

/// Whether entry `i` of `e` has key `k`.
pub open spec fn key_is(e: Seq<(String, DocNode)>, k: Seq<char>) -> spec_fn(int) -> bool {
    |i: int| e[i].0@ == k
}

/// The first entry of `e` with key `k`, or -1.
pub open spec fn entry_key(e: Seq<(String, DocNode)>, k: Seq<char>) -> int {
    first_where(e.len() as int, key_is(e, k))
}

/// The value under `k` in a table node; nothing for other nodes.
pub open spec fn child(node: DocNode, k: Seq<char>) -> Option<DocNode> {
    match node {
        DocNode::Table(e) => {
            let i = entry_key(e@, k);
            if i >= 0 {
                Some(e@[i].1)
            } else {
                None
            }
        },
        _ => None,
    }
}

/// The node reached from `node` along `path`.
pub open spec fn node_at(node: DocNode, path: Seq<Seq<char>>) -> Option<DocNode>
    decreases path.len(),
{
    if path.len() == 0 {
        Some(node)
    } else {
        match child(node, path[0]) {
            Some(c) => node_at(c, path.drop_first()),
            None => None,
        }
    }
}

pub proof fn lemma_entry_key(e: Seq<(String, DocNode)>, k: Seq<char>, w: int)
    requires
        -1 <= w < e.len(),
        w >= 0 ==> e[w].0@ == k,
        forall|j: int| 0 <= j < e.len() && (w < 0 || j < w) ==> e[j].0@ != k,
    ensures
        entry_key(e, k) == w,
{
    let p = key_is(e, k);
    assert forall|j: int| 0 <= j < e.len() && (w < 0 || j < w) implies !#[trigger] p(j) by {}
    lemma_first_where(e.len() as int, p, w);
}

/// The first entry at or after nothing: what `entry_key` promises.
pub proof fn lemma_entry_key_facts(e: Seq<(String, DocNode)>, k: Seq<char>)
    ensures
        -1 <= entry_key(e, k) < e.len(),
        entry_key(e, k) >= 0 ==> e[entry_key(e, k)].0@ == k,
        forall|j: int|
            0 <= j < e.len() && (entry_key(e, k) < 0 || j < entry_key(e, k)) ==> e[j].0@ != k,
{
    let p = key_is(e, k);
    let n = e.len() as int;
    if exists|i: int| 0 <= i < n && #[trigger] p(i) && (forall|j: int| 0 <= j < i ==> !#[trigger] p(j)) {
        let i = choose|i: int| 0 <= i < n && #[trigger] p(i) && (forall|j: int| 0 <= j < i ==> !#[trigger] p(j));
        assert(entry_key(e, k) == i);
        assert forall|j: int| 0 <= j < e.len() && j < i implies e[j].0@ != k by {
            assert(!p(j));
        }
    } else {
        assert(entry_key(e, k) == -1);
        assert forall|j: int| 0 <= j < e.len() implies e[j].0@ != k by {
            if e[j].0@ == k {
                crate::text::lemma_first_where_exists(n, p, j);
            }
        }
    }
}

/// Position of the first entry with key `k`.
pub fn find_entry(e: &Vec<(String, DocNode)>, k: &str) -> (r: Option<usize>)
    ensures
        match r {
            Some(i) => i < e@.len() && entry_key(e@, k@) == i,
            None => entry_key(e@, k@) == -1,
        },
{
    let n = e.len();
    let mut i: usize = 0;
    while i < n
        invariant
            n == e@.len(),
            i <= n,
            forall|j: int| 0 <= j < i ==> e@[j].0@ != k@,
        decreases n - i,
    {
        if str_eq(e[i].0.as_str(), k) {
            proof {
                lemma_entry_key(e@, k@, i as int);
            }
            return Some(i);
        }
        i = i + 1;
    }
    proof {
        lemma_entry_key(e@, k@, -1);
    }
    None
}

/// `s` cut at every `c`.
pub fn split_text(s: &str, c: char) -> (r: Vec<String>)
    ensures
        views_of(r@) == split_on(s@, c),
{
    let v = chars_of(s);
    let n = v.len();
    let mut out: Vec<String> = Vec::new();
    let mut pos: usize = 0;
    assert(v@.subrange(0, n as int) =~= s@);
    assert(views_of(out@) =~= Seq::<Seq<char>>::empty());
    assert(views_of(out@) + split_on(s@, c) =~= split_on(s@, c));
    loop
        invariant
            v@ == s@,
            n == v@.len(),
            pos <= n,
            views_of(out@) + split_on(v@.subrange(pos as int, n as int), c) == split_on(s@, c),
        decreases n - pos,
    {
        let ghost t = v@.subrange(pos as int, n as int);
        match find_first(&v, pos, n, c) {
            Some(j) => {
                let piece = substring(s, pos, pos + j);
                proof {
                    assert(piece@ == t.subrange(0, j as int));
                    assert(t.subrange(j + 1, t.len() as int) =~= v@.subrange(
                        (pos + j + 1) as int,
                        n as int,
                    ));
                    assert(split_on(t, c) == seq![t.subrange(0, j as int)] + split_on(
                        t.subrange(j + 1, t.len() as int),
                        c,
                    ));
                }
                let ghost before = out@;
                out.push(piece);
                proof {
                    assert(views_of(out@) =~= views_of(before).push(piece@));
                    assert(views_of(out@) + split_on(v@.subrange((pos + j + 1) as int, n as int), c)
                        =~= views_of(before) + split_on(t, c));
                }
                pos = pos + j + 1;
            },
            None => {
                let piece = substring(s, pos, n);
                proof {
                    assert(piece@ == t);
                    assert(split_on(t, c) == seq![t]);
                }
                let ghost before = out@;
                out.push(piece);
                proof {
                    assert(views_of(out@) =~= views_of(before).push(piece@));
                    assert(views_of(out@) =~= views_of(before) + split_on(t, c));
                }
                return out;
            },
        }
    }
}

/// `config get`: the node under a dotted key.
pub fn config_get<'a>(doc: &'a DocNode, key: &str) -> (r: Result<&'a DocNode, Error>)
    ensures
        r matches Ok(n) ==> node_at(*doc, split_on(key@, '.')) == Some(*n),
        r matches Err(e) ==> node_at(*doc, split_on(key@, '.')) is None && (e matches Error::Msg(m)
            && m@ == "配置项不存在: "@ + key@),
{
    let parts = split_text(key, '.');
    let ghost path = split_on(key@, '.');
    let mut cur: &DocNode = doc;
    let mut i: usize = 0;
    assert(path.subrange(0, path.len() as int) =~= path);
    while i < parts.len()
        invariant
            path == split_on(key@, '.'),
            views_of(parts@) == path,
            i <= parts@.len(),
            node_at(*doc, path) == node_at(*cur, path.subrange(i as int, path.len() as int)),
        decreases parts.len() - i,
    {
        let ghost rest = path.subrange(i as int, path.len() as int);
        assert(rest[0] == parts@[i as int]@);
        assert(rest.drop_first() =~= path.subrange(i + 1, path.len() as int));
        let next: Option<&DocNode> = match cur {
            DocNode::Table(e) => match find_entry(e, parts[i].as_str()) {
                Some(j) => Some(&e[j].1),
                None => None,
            },
            _ => None,
        };
        assert(next matches Some(c) ==> child(*cur, rest[0]) == Some(*c));
        assert(next is None ==> child(*cur, rest[0]) is None);
        match next {
            Some(c) => {
                assert(node_at(*cur, rest) == node_at(*c, rest.drop_first()));
                cur = c;
            },
            None => {
                assert(node_at(*cur, rest) is None);
                let m = concat2("配置项不存在: ", key);
                let r: Result<&DocNode, Error> = Err(Error::Msg(m));
                return r;
            },
        }
        i = i + 1;
    }
    assert(path.subrange(i as int, path.len() as int) =~= Seq::<Seq<char>>::empty());
    Ok(cur)
}


/// `q` is a proper prefix of `p`.
pub open spec fn strict_prefix(q: Seq<Seq<char>>, p: Seq<Seq<char>>) -> bool {
    q.len() < p.len() && q == p.subrange(0, q.len() as int)
}

/// `new` is `old` with `v` put under `path`: `path` leads to `v`, every node
/// on the way there is a table, nothing lies below `v`, and every other path
/// leads where it led in `old`.
pub open spec fn set_effect(old: DocNode, path: Seq<Seq<char>>, v: DocNode, new: DocNode) -> bool {
    &&& node_at(new, path) == Some(v)
    &&& forall|q: Seq<Seq<char>>|
        strict_prefix(q, path) ==> (#[trigger] node_at(new, q) matches Some(t) && t is Table)
    &&& forall|q: Seq<Seq<char>>| strict_prefix(path, q) ==> (#[trigger] node_at(new, q)) is None
    &&& forall|q: Seq<Seq<char>>|
        !strict_prefix(q, path) && !strict_prefix(path, q) && q != path ==> #[trigger] node_at(new, q)
            == node_at(old, q)
}

/// Some node strictly between the top and the end of `path` is there but is
/// not a table, so nothing can be put under `path`.
pub open spec fn path_blocked(node: DocNode, path: Seq<Seq<char>>) -> bool {
    exists|j: int|
        1 <= j < path.len() && (#[trigger] node_at(node, path.subrange(0, j)) matches Some(n)
            && n !is Table)
}

proof fn lemma_replace_child(oe: Seq<(String, DocNode)>, ne: Seq<(String, DocNode)>, j: int)
    requires
        0 <= j < oe.len(),
        entry_key(oe, oe[j].0@) == j,
        ne.len() == oe.len(),
        ne[j].0@ == oe[j].0@,
        forall|i: int| 0 <= i < oe.len() && i != j ==> ne[i] == oe[i],
    ensures
        entry_key(ne, oe[j].0@) == j,
        forall|k: Seq<char>|
            k != oe[j].0@ ==> entry_key(ne, k) == #[trigger] entry_key(oe, k) && (entry_key(oe, k)
                >= 0 ==> ne[entry_key(oe, k)] == oe[entry_key(oe, k)]),
{
    let kk = oe[j].0@;
    lemma_entry_key_facts(oe, kk);
    lemma_entry_key(ne, kk, j);
    assert forall|k: Seq<char>| k != kk implies entry_key(ne, k) == #[trigger] entry_key(oe, k) && (
    entry_key(oe, k) >= 0 ==> ne[entry_key(oe, k)] == oe[entry_key(oe, k)]) by {
        lemma_entry_key_facts(oe, k);
        let w = entry_key(oe, k);
        assert forall|i: int| 0 <= i < ne.len() && (w < 0 || i < w) implies ne[i].0@ != k by {
            if i != j {
                assert(ne[i] == oe[i]);
            }
        }
        lemma_entry_key(ne, k, w);
    }
}

proof fn lemma_push_child(oe: Seq<(String, DocNode)>, key: String, v: DocNode)
    requires
        entry_key(oe, key@) == -1,
    ensures
        entry_key(oe.push((key, v)), key@) == oe.len(),
        forall|k: Seq<char>|
            k != key@ ==> entry_key(oe.push((key, v)), k) == #[trigger] entry_key(oe, k) && (
            entry_key(oe, k) >= 0 ==> oe.push((key, v))[entry_key(oe, k)] == oe[entry_key(oe, k)]),
{
    let ne = oe.push((key, v));
    lemma_entry_key_facts(oe, key@);
    lemma_entry_key(ne, key@, oe.len() as int);
    assert forall|k: Seq<char>| k != key@ implies entry_key(ne, k) == #[trigger] entry_key(oe, k) && (
    entry_key(oe, k) >= 0 ==> ne[entry_key(oe, k)] == oe[entry_key(oe, k)]) by {
        lemma_entry_key_facts(oe, k);
        let w = entry_key(oe, k);
        assert forall|i: int| 0 <= i < ne.len() && (w < 0 || i < w) implies ne[i].0@ != k by {
            if i < oe.len() {
                assert(ne[i] == oe[i]);
            }
        }
        lemma_entry_key(ne, k, w);
    }
}

/// Below a missing key nothing is blocked.
proof fn lemma_absent_not_blocked(node: DocNode, p: Seq<Seq<char>>)
    requires
        p.len() >= 1,
        child(node, p[0]) is None,
    ensures
        !path_blocked(node, p),
        forall|q: Seq<Seq<char>>| q.len() > 0 && q[0] == p[0] ==> (#[trigger] node_at(node, q)) is None,
{
    assert forall|j: int| 1 <= j < p.len() implies #[trigger] node_at(node, p.subrange(0, j)) is None by {
        assert(p.subrange(0, j)[0] == p[0]);
    }
}

/// Every non-empty path is missing from an empty table.
proof fn lemma_empty_table(e: Vec<(String, DocNode)>)
    requires
        e@.len() == 0,
    ensures
        forall|q: Seq<Seq<char>>| q.len() > 0 ==> (#[trigger] node_at(DocNode::Table(e), q)) is None,
        forall|p: Seq<Seq<char>>| !path_blocked(DocNode::Table(e), p),
{
    assert forall|q: Seq<Seq<char>>| q.len() > 0 implies (#[trigger] node_at(DocNode::Table(e), q)) is None by {
        lemma_entry_key_facts(e@, q[0]);
    }
    assert forall|p: Seq<Seq<char>>| !path_blocked(DocNode::Table(e), p) by {
        assert forall|j: int| 1 <= j < p.len() implies #[trigger] node_at(DocNode::Table(e), p.subrange(0, j)) is None by {
            lemma_entry_key_facts(e@, p.subrange(0, j)[0]);
        }
    }
}

/// Through a table child, blocking is decided one level down.
proof fn lemma_blocked_step(node: DocNode, c: DocNode, p: Seq<Seq<char>>)
    requires
        p.len() >= 2,
        child(node, p[0]) == Some(c),
        c is Table,
    ensures
        path_blocked(node, p) == path_blocked(c, p.drop_first()),
{
    let p1 = p.drop_first();
    assert forall|j: int| 1 <= j < p.len() implies #[trigger] node_at(node, p.subrange(0, j))
        == node_at(c, p1.subrange(0, j - 1)) by {
        assert(p.subrange(0, j).drop_first() =~= p1.subrange(0, j - 1));
        assert(p.subrange(0, j)[0] == p[0]);
    }
    if path_blocked(node, p) {
        let j = choose|j: int|
            1 <= j < p.len() && (#[trigger] node_at(node, p.subrange(0, j)) matches Some(n)
                && n !is Table);
        assert(node_at(c, p1.subrange(0, 0)) == Some(c));
        assert(j - 1 >= 1);
        assert(node_at(c, p1.subrange(0, j - 1)) matches Some(n) && n !is Table);
    }
    if path_blocked(c, p1) {
        let j = choose|j: int|
            1 <= j < p1.len() && (#[trigger] node_at(c, p1.subrange(0, j)) matches Some(n)
                && n !is Table);
        assert(node_at(node, p.subrange(0, j + 1)) == node_at(c, p1.subrange(0, j)));
    }
}

/// Setting one level down, seen from the table above.
proof fn lemma_set_lift(
    old: DocNode,
    new: DocNode,
    c: DocNode,
    nc: DocNode,
    p: Seq<Seq<char>>,
    w: DocNode,
)
    requires
        p.len() >= 2,
        w !is Table,
        new is Table,
        child(new, p[0]) == Some(nc),
        forall|k: Seq<char>| k != p[0] ==> #[trigger] child(new, k) == child(old, k),
        child(old, p[0]) == Some(c) || (child(old, p[0]) is None && forall|q: Seq<Seq<char>>|
            q.len() > 0 ==> (#[trigger] node_at(c, q)) is None),
        set_effect(c, p.drop_first(), w, nc),
    ensures
        set_effect(old, p, w, new),
{
    let p1 = p.drop_first();
    assert(node_at(new, p) == node_at(nc, p1));
    assert forall|q: Seq<Seq<char>>| strict_prefix(q, p) implies (#[trigger] node_at(new, q) matches Some(
        t,
    ) && t is Table) by {
        if q.len() > 0 {
            assert(q[0] == p[0]);
            assert(strict_prefix(q.drop_first(), p1)) by {
                assert(q.drop_first() =~= p1.subrange(0, q.len() - 1));
            }
            assert(node_at(new, q) == node_at(nc, q.drop_first()));
        }
    }
    assert forall|q: Seq<Seq<char>>| strict_prefix(p, q) implies (#[trigger] node_at(new, q)) is None by {
        assert(q[0] == p[0]) by {
            assert(q.subrange(0, p.len() as int)[0] == q[0]);
        }
        assert(strict_prefix(p1, q.drop_first())) by {
            assert(p1 =~= q.drop_first().subrange(0, p1.len() as int));
        }
        assert(node_at(new, q) == node_at(nc, q.drop_first()));
    }
    assert forall|q: Seq<Seq<char>>|
        !strict_prefix(q, p) && !strict_prefix(p, q) && q != p implies #[trigger] node_at(new, q)
        == node_at(old, q) by {
        if q.len() == 0 {
            assert(strict_prefix(q, p)) by {
                assert(q =~= p.subrange(0, 0));
            }
        } else if q[0] != p[0] {
            assert(child(new, q[0]) == child(old, q[0]));
        } else {
            let q1 = q.drop_first();
            assert(node_at(new, q) == node_at(nc, q1));
            if strict_prefix(q1, p1) {
                assert(q =~= p.subrange(0, q.len() as int)) by {
                    assert forall|i: int| 0 <= i < q.len() implies q[i] == p[i] by {
                        if i > 0 {
                            assert(q[i] == q1[i - 1]);
                            assert(p1.subrange(0, q1.len() as int)[i - 1] == p1[i - 1]);
                        }
                    }
                }
            }
            if strict_prefix(p1, q1) {
                assert(p =~= q.subrange(0, p.len() as int)) by {
                    assert forall|i: int| 0 <= i < p.len() implies p[i] == q[i] by {
                        if i > 0 {
                            assert(p[i] == p1[i - 1]);
                            assert(q1.subrange(0, p1.len() as int)[i - 1] == q1[i - 1]);
                        }
                    }
                }
            }
            if q1 == p1 {
                assert(q =~= p) by {
                    assert forall|i: int| 0 <= i < q.len() implies q[i] == p[i] by {
                        if i > 0 {
                            assert(q[i] == q1[i - 1]);
                        }
                    }
                }
            }
            assert(node_at(nc, q1) == node_at(c, q1));
            if child(old, p[0]) is None {
                assert(q1.len() > 0) by {
                    if q1.len() == 0 {
                        assert(strict_prefix(q, p)) by {
                            assert(q =~= p.subrange(0, 1));
                        }
                    }
                }
            }
        }
    }
}


/// Whether `node` is a table.
pub fn is_table(node: &DocNode) -> (r: bool)
    ensures
        r == node is Table,
{
    match node {
        DocNode::Table(_) => true,
        _ => false,
    }
}

/// Put `v` under `path[i..]` in the table `node`, making the missing tables
/// on the way; nothing when a non-table stands on the way.
fn set_within(node: DocNode, path: &Vec<String>, i: usize, v: Scalar) -> (r: Option<DocNode>)
    requires
        node is Table,
        i < path@.len(),
    ensures
        r is None <==> path_blocked(node, views_of(path@).subrange(i as int, path@.len() as int)),
        r matches Some(n) ==> n is Table && set_effect(
            node,
            views_of(path@).subrange(i as int, path@.len() as int),
            DocNode::Written(v),
            n,
        ),
    decreases path@.len() - i,
{
    let ghost p = views_of(path@).subrange(i as int, path@.len() as int);
    let ghost old_node = node;
    let ghost w = DocNode::Written(v);
    let mut e = match node {
        DocNode::Table(e) => e,
        _ => {
            return None;
        },
    };
    let ghost oe = e@;
    let k = &path[i];
    assert(p[0] == k@);
    if i == path.len() - 1 {
        proof {
            assert forall|j: int| 1 <= j < p.len() implies !(#[trigger] node_at(old_node, p.subrange(0, j)) matches Some(n) && n !is Table) by {}
        }
        match find_entry(&e, k.as_str()) {
            Some(j) => {
                e.set(j, (k.clone(), DocNode::Written(v)));
                proof {
                    lemma_replace_child(oe, e@, j as int);
                }
            },
            None => {
                let key = k.clone();
                e.push((key, DocNode::Written(v)));
                proof {
                    lemma_push_child(oe, key, w);
                    assert(e@ == oe.push((key, w)));
                }
            },
        }
        let ghost new = DocNode::Table(e);
        proof {
            assert(child(new, p[0]) == Some(w));
            assert forall|kk: Seq<char>| kk != p[0] implies #[trigger] child(new, kk) == child(old_node, kk) by {}
            assert(node_at(new, p) == Some(w)) by {
                assert(p.drop_first().len() == 0);
                assert(node_at(w, p.drop_first()) == Some(w));
            }
            assert forall|q: Seq<Seq<char>>| strict_prefix(q, p) implies (#[trigger] node_at(new, q) matches Some(t) && t is Table) by {
                assert(q.len() == 0);
            }
            assert forall|q: Seq<Seq<char>>| strict_prefix(p, q) implies (#[trigger] node_at(new, q)) is None by {
                assert(q[0] == p[0]) by {
                    assert(q.subrange(0, 1)[0] == q[0]);
                }
                assert(node_at(new, q) == node_at(w, q.drop_first()));
            }
            assert forall|q: Seq<Seq<char>>| !strict_prefix(q, p) && !strict_prefix(p, q) && q != p implies #[trigger] node_at(new, q) == node_at(old_node, q) by {
                if q.len() == 0 {
                    assert(q =~= p.subrange(0, 0));
                } else if q[0] == p[0] {
                    if q.len() == 1 {
                        assert(q =~= p);
                    } else {
                        assert(p =~= q.subrange(0, 1));
                    }
                } else {
                    assert(child(new, q[0]) == child(old_node, q[0]));
                }
            }
        }
        return Some(DocNode::Table(e));
    }
    let ghost p1 = views_of(path@).subrange(i + 1, path@.len() as int);
    assert(p.drop_first() =~= p1);
    match find_entry(&e, k.as_str()) {
        Some(j) => {
            let (key, c) = e.remove(j);
            let ghost c0 = c;
            assert(child(old_node, p[0]) == Some(c0));
            if !is_table(&c) {
                proof {
                    let p0 = p.subrange(0, 1);
                    assert(p0[0] == p[0]);
                    assert(p0.drop_first().len() == 0);
                    assert(node_at(c0, p0.drop_first()) == Some(c0));
                    assert(node_at(old_node, p0) == Some(c0));
                    assert(p.len() >= 2);
                }
                return None;
            }
            proof {
                lemma_blocked_step(old_node, c0, p);
            }
            match set_within(c, path, i + 1, v) {
                Some(nc) => {
                    let ghost ncv = nc;
                    e.insert(j, (key, nc));
                    proof {
                        assert(e@ =~= oe.update(j as int, (oe[j as int].0, ncv)));
                        lemma_replace_child(oe, e@, j as int);
                        let new = DocNode::Table(e);
                        assert forall|kk: Seq<char>| kk != p[0] implies #[trigger] child(new, kk) == child(old_node, kk) by {}
                        lemma_set_lift(old_node, new, c0, ncv, p, w);
                    }
                    Some(DocNode::Table(e))
                },
                None => None,
            }
        },
        None => {
            let fresh: Vec<(String, DocNode)> = Vec::new();
            proof {
                lemma_empty_table(fresh);
                lemma_absent_not_blocked(old_node, p);
            }
            let ghost c0 = DocNode::Table(fresh);
            match set_within(DocNode::Table(fresh), path, i + 1, v) {
                Some(nc) => {
                    let ghost ncv = nc;
                    let key = k.clone();
                    e.push((key, nc));
                    proof {
                        lemma_push_child(oe, key, ncv);
                        assert(e@ == oe.push((key, ncv)));
                        let new = DocNode::Table(e);
                        assert forall|kk: Seq<char>| kk != p[0] implies #[trigger] child(new, kk) == child(old_node, kk) by {}
                        lemma_set_lift(old_node, new, c0, ncv, p, w);
                    }
                    Some(DocNode::Table(e))
                },
                None => None,
            }
        },
    }
}


/// A dotted key always names at least one step.
proof fn lemma_split_nonempty(s: Seq<char>, c: char)
    ensures
        split_on(s, c).len() >= 1,
{
    let i = first_index(s, c);
    if 0 <= i < s.len() {
        assert(split_on(s, c) == seq![s.subrange(0, i)] + split_on(s.subrange(i + 1, s.len() as int), c));
    } else {
        assert(split_on(s, c) == seq![s]);
    }
}

/// `config set`: put `value` under the dotted `key`, making the tables on
/// the way. Refused when the document is not a table, or when a value that
/// is not a table stands on the way.
pub fn config_set(doc: DocNode, key: &str, value: Scalar) -> (r: Result<DocNode, Error>)
    ensures
        doc !is Table ==> (r matches Err(e) && e matches Error::Msg(m) && m@
            == "config.toml 顶层不是表"@),
        doc is Table ==> (r is Err <==> path_blocked(doc, split_on(key@, '.'))),
        doc is Table && r is Err ==> (r matches Err(e) && e matches Error::Msg(m) && m@
            == "配置路径被非表值占用: "@ + key@),
        r matches Ok(n) ==> n is Table && set_effect(
            doc,
            split_on(key@, '.'),
            DocNode::Written(value),
            n,
        ),
{
    if !is_table(&doc) {
        return Err(Error::Msg(String::from_str("config.toml 顶层不是表")));
    }
    let parts = split_text(key, '.');
    proof {
        lemma_split_nonempty(key@, '.');
        assert(views_of(parts@).subrange(0, parts@.len() as int) =~= views_of(parts@));
    }
    match set_within(doc, &parts, 0, value) {
        Some(n) => Ok(n),
        None => Err(Error::Msg(concat2("配置路径被非表值占用: ", key))),
    }
}

/// `config targets add`: put the global target `name` at `path`, making the
/// `targets` table when missing. Refused when the document, or the value
/// under `targets`, is not a table.
pub fn targets_add(doc: DocNode, name: &str, path: String) -> (r: Result<DocNode, Error>)
    ensures
        doc !is Table ==> (r matches Err(e) && e matches Error::Msg(m) && m@
            == "config.toml 顶层不是表"@),
        doc is Table ==> (r is Err <==> (child(doc, "targets"@) matches Some(t) && t !is Table)),
        doc is Table && r is Err ==> (r matches Err(e) && e matches Error::Msg(m) && m@
            == "config.targets 不是表"@),
        r matches Ok(n) ==> n is Table && set_effect(
            doc,
            seq!["targets"@, name@],
            DocNode::Written(Scalar::Str(path)),
            n,
        ),
{
    if !is_table(&doc) {
        return Err(Error::Msg(String::from_str("config.toml 顶层不是表")));
    }
    let parts: Vec<String> = vec![String::from_str("targets"), String::from_str(name)];
    let ghost p = seq!["targets"@, name@];
    proof {
        assert(views_of(parts@).subrange(0, 2) =~= p);
        let p0 = p.subrange(0, 1);
        assert(p0[0] == "targets"@);
        match child(doc, "targets"@) {
            Some(c) => {
                assert(node_at(c, p0.drop_first()) == Some(c));
            },
            None => {},
        }
        assert(node_at(doc, p0) == child(doc, "targets"@));
        assert(path_blocked(doc, p) <==> (child(doc, "targets"@) matches Some(t) && t !is Table)) by {
            if path_blocked(doc, p) {
                let j = choose|j: int|
                    1 <= j < p.len() && (#[trigger] node_at(doc, p.subrange(0, j)) matches Some(n)
                        && n !is Table);
                assert(j == 1);
            }
            if child(doc, "targets"@) matches Some(t) && t !is Table {
                assert(node_at(doc, p.subrange(0, 1)) matches Some(n) && n !is Table);
            }
        }
    }
    match set_within(doc, &parts, 0, Scalar::Str(path)) {
        Some(n) => Ok(n),
        None => Err(Error::Msg(String::from_str("config.targets 不是表"))),
    }
}

/// The entries of a table node; none for other nodes.
pub open spec fn entries_of(node: DocNode) -> Seq<(String, DocNode)> {
    match node {
        DocNode::Table(e) => e@,
        _ => Seq::empty(),
    }
}

/// Where the `targets` table stands in a document's top table, with its
/// entries; nothing when the document or that value is not a table.
pub open spec fn targets_entry(doc: DocNode) -> Option<(int, Seq<(String, DocNode)>)> {
    match doc {
        DocNode::Table(e) => {
            let j = entry_key(e@, "targets"@);
            if j >= 0 {
                match e@[j].1 {
                    DocNode::Table(te) => Some((j, te@)),
                    _ => None,
                }
            } else {
                None
            }
        },
        _ => None,
    }
}

/// `config targets remove`: drop the target `name` from the `targets` table;
/// the document is left as it is when there is no such table or target.
pub fn targets_remove(doc: DocNode, name: &str) -> (r: DocNode)
    ensures
        ({
            let t = targets_entry(doc);
            if t is Some && entry_key((t->0).1, name@) >= 0 {
                let j = (t->0).0;
                let te = (t->0).1;
                &&& r is Table
                &&& entries_of(r).len() == entries_of(doc).len()
                &&& forall|i: int|
                    0 <= i < entries_of(doc).len() && i != j ==> entries_of(r)[i] == entries_of(
                        doc,
                    )[i]
                &&& entries_of(r)[j].0 == entries_of(doc)[j].0
                &&& targets_entry(r) == Some((j, te.remove(entry_key(te, name@))))
            } else {
                r == doc
            }
        }),
{
    let ghost d0 = doc;
    if !is_table(&doc) {
        return doc;
    }
    let mut e = match doc {
        DocNode::Table(e) => e,
        _ => Vec::new(),
    };
    let ghost oe = e@;
    let j = match find_entry(&e, "targets") {
        Some(j) => j,
        None => {
            return DocNode::Table(e);
        },
    };
    let found = match &e[j].1 {
        DocNode::Table(te) => find_entry(te, name),
        _ => None,
    };
    let ni = match found {
        Some(ni) => ni,
        None => {
            return DocNode::Table(e);
        },
    };
    let (key, c) = e.remove(j);
    let mut te = match c {
        DocNode::Table(te) => te,
        _ => Vec::new(),
    };
    let ghost ote = te@;
    te.remove(ni);
    let ghost nte = te@;
    e.insert(j, (key, DocNode::Table(te)));
    proof {
        assert(e@.len() == oe.len());
        assert forall|i: int| 0 <= i < oe.len() && i != j implies e@[i] == oe[i] by {
            if i < j {
                assert(e@[i] == oe[i]);
            } else {
                assert(e@[i] == oe[i]);
            }
        }
        lemma_replace_child(oe, e@, j as int);
        assert(nte == ote.remove(ni as int));
    }
    DocNode::Table(e)
}

/// What `config set` puts under a key is what `config get` then finds there,
/// and every key that neither lies on the way nor below it is left as it was.
pub proof fn law_set_then_get(
    doc: DocNode,
    key: Seq<char>,
    value: Scalar,
    new: DocNode,
    other: Seq<char>,
)
    requires
        set_effect(doc, split_on(key, '.'), DocNode::Written(value), new),
    ensures
        node_at(new, split_on(key, '.')) == Some(DocNode::Written(value)),
        !strict_prefix(split_on(other, '.'), split_on(key, '.')) && !strict_prefix(
            split_on(key, '.'),
            split_on(other, '.'),
        ) && split_on(other, '.') != split_on(key, '.') ==> node_at(new, split_on(other, '.'))
            == node_at(doc, split_on(other, '.')),
{
}


/// The verdict on writing `key` = `value`: a configuration that loaded
/// before the write must still load after it (`loads_after` is how loading
/// the written text went); one that did not load is being repaired key by
/// key, and any write goes.
pub fn config_write_check(key: &str, value: &str, loaded_before: bool, loads_after: Result<(), Error>) -> (r: Result<(), Error>)
    ensures
        !loaded_before ==> r is Ok,
        loaded_before && loads_after is Ok ==> r is Ok,
        loaded_before ==> match loads_after {
            Ok(()) => r is Ok,
            Err(e) => r matches Err(Error::Msg(m)) && m@ == "拒绝写入 "@ + key@ + "="@
                + crate::update::str_debug(value@) + "：会导致配置无法解析（"@
                + crate::error::error_message(e) + "）"@,
        },
{
    if !loaded_before {
        return Ok(());
    }
    match loads_after {
        Ok(()) => Ok(()),
        Err(e) => {
            let d = crate::update::debug_text(value);
            let em = e.message();
            let head = crate::text::concat3("拒绝写入 ", key, "=");
            let mid = crate::text::concat3(head.as_str(), d.as_str(), "：会导致配置无法解析（");
            Err(Error::Msg(crate::text::concat3(mid.as_str(), em.as_str(), "）")))
        },
    }
}

} // verus!
