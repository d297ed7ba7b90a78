//! A string-keyed map kept as a vector of entries sorted by key in `str`
//! order, so that walking it visits keys exactly as a `BTreeMap<String, _>`
//! would. Its view is the entry sequence; well-formedness is strict order.
//! It stands in for a `BTreeMap<String, _>` because vstd's specification of
//! that map gives nothing provable for `String` keys: after one `insert`
//! into an empty one, not even its length is known.

use vstd::prelude::*;

use crate::text::{lemma_seq_lt_irrefl, lemma_seq_lt_trans, seq_lt, str_order, Order3};

verus! {

/// Entries are strictly increasing by key.
pub open spec fn keys_sorted<T>(s: Seq<(Seq<char>, T)>) -> bool {
    forall|i: int, j: int| 0 <= i < j < s.len() ==> seq_lt(#[trigger] s[i].0, #[trigger] s[j].0)
}

/// Whether `k` is a key of `s`.
pub open spec fn has_key<T>(s: Seq<(Seq<char>, T)>, k: Seq<char>) -> bool {
    exists|i: int| 0 <= i < s.len() && #[trigger] s[i].0 == k
}

/// Index of key `k` in `s`, or -1.
pub open spec fn key_index<T>(s: Seq<(Seq<char>, T)>, k: Seq<char>) -> int {
    if has_key(s, k) {
        choose|i: int| 0 <= i < s.len() && #[trigger] s[i].0 == k
    } else {
        -1
    }
}

/// The value under `k`, if any.
pub open spec fn lookup<T>(s: Seq<(Seq<char>, T)>, k: Seq<char>) -> Option<T> {
    if has_key(s, k) {
        Some(s[key_index(s, k)].1)
    } else {
        None
    }
}

/// Where a missing key `k` goes in the ordered sequence `s`.
pub open spec fn insert_pos<T>(s: Seq<(Seq<char>, T)>, k: Seq<char>) -> int {
    choose|p: int| #[trigger] splits_at(s, k, p)
}

/// Keys before `p` are below `k`, keys from `p` on are above it.
pub open spec fn splits_at<T>(s: Seq<(Seq<char>, T)>, k: Seq<char>, p: int) -> bool {
    0 <= p <= s.len() && (forall|i: int| 0 <= i < p ==> seq_lt(#[trigger] s[i].0, k)) && (forall|
        i: int,
    |
        p <= i < s.len() ==> seq_lt(k, #[trigger] s[i].0))
}

/// `s` with `k` set to `v`: overwritten in place, or inserted in order.
pub open spec fn insert_spec<T>(s: Seq<(Seq<char>, T)>, k: Seq<char>, v: T) -> Seq<
    (Seq<char>, T),
> {
    if has_key(s, k) {
        s.update(key_index(s, k), (k, v))
    } else {
        s.insert(insert_pos(s, k), (k, v))
    }
}

pub proof fn lemma_insert_pos<T>(s: Seq<(Seq<char>, T)>, k: Seq<char>, p: int)
    requires
        0 <= p <= s.len(),
        forall|i: int| 0 <= i < p ==> seq_lt(#[trigger] s[i].0, k),
        forall|i: int| p <= i < s.len() ==> seq_lt(k, #[trigger] s[i].0),
    ensures
        insert_pos(s, k) == p,
{
    assert(splits_at(s, k, p));
    let q = insert_pos(s, k);
    assert(splits_at(s, k, q));
    if q < p {
        assert(seq_lt(s[q].0, k));
        assert(seq_lt(k, s[q].0));
        crate::text::lemma_seq_lt_asym(k, s[q].0);
    }
    if q > p {
        assert(seq_lt(s[p].0, k));
        assert(seq_lt(k, s[p].0));
        crate::text::lemma_seq_lt_asym(k, s[p].0);
    }
}

/// A sorted sequence lacking `k` splits around it.
pub proof fn lemma_split_exists<T>(s: Seq<(Seq<char>, T)>, k: Seq<char>)
    requires
        keys_sorted(s),
        !has_key(s, k),
    ensures
        splits_at(s, k, insert_pos(s, k)),
{
    let pr = |i: int| seq_lt(k, s[i].0);
    let f = crate::text::first_where(s.len() as int, pr);
    let p = if f < 0 {
        s.len() as int
    } else {
        f
    };
    if f >= 0 {
        assert(0 <= f < s.len() && pr(f) && (forall|j: int| 0 <= j < f ==> !#[trigger] pr(j))) by {
            let w = choose|i: int|
                0 <= i < s.len() as int && #[trigger] pr(i) && (forall|j: int|
                    0 <= j < i ==> !#[trigger] pr(j));
        }
    } else {
        assert forall|j: int| 0 <= j < s.len() implies !#[trigger] pr(j) by {
            if pr(j) {
                crate::text::lemma_first_where_exists(s.len() as int, pr, j);
            }
        }
    }
    assert forall|i: int| 0 <= i < p implies seq_lt(#[trigger] s[i].0, k) by {
        assert(!pr(i));
        assert(s[i].0 != k);
        crate::text::lemma_seq_lt_total(s[i].0, k);
    }
    assert forall|i: int| p <= i < s.len() implies seq_lt(k, #[trigger] s[i].0) by {
        if i > p {
            assert(seq_lt(s[p].0, s[i].0));
            lemma_seq_lt_trans(k, s[p].0, s[i].0);
        }
    }
    assert(splits_at(s, k, p));
}

/// In a sorted entry sequence the index of a present key is the one holding it.
pub proof fn lemma_key_index<T>(s: Seq<(Seq<char>, T)>, i: int)
    requires
        keys_sorted(s),
        0 <= i < s.len(),
    ensures
        has_key(s, s[i].0),
        key_index(s, s[i].0) == i,
        lookup(s, s[i].0) == Some(s[i].1),
{
    let k = s[i].0;
    assert(s[i].0 == k);
    assert(has_key(s, k));
    let j = key_index(s, k);
    assert(0 <= j < s.len() && s[j].0 == k);
    if j < i {
        assert(seq_lt(s[j].0, s[i].0));
        lemma_seq_lt_irrefl(k);
    }
    if j > i {
        assert(seq_lt(s[i].0, s[j].0));
        lemma_seq_lt_irrefl(k);
    }
}

/// Setting `k` to `v` keeps the keys strictly ordered; afterwards `k`
/// reads `v` and every other key reads what it read before.
pub proof fn law_insert_then_lookup<T>(s: Seq<(Seq<char>, T)>, k: Seq<char>, v: T, other: Seq<char>)
    requires
        keys_sorted(s),
    ensures
        keys_sorted(insert_spec(s, k, v)),
        lookup(insert_spec(s, k, v), k) == Some(v),
        other != k ==> lookup(insert_spec(s, k, v), other) == lookup(s, other),
{
    let t = insert_spec(s, k, v);
    if has_key(s, k) {
        let j = key_index(s, k);
        assert(0 <= j < s.len() && s[j].0 == k);
        assert(t == s.update(j, (k, v)));
        assert forall|a: int, b: int| 0 <= a < b < t.len() implies seq_lt(#[trigger] t[a].0, #[trigger] t[b].0) by {
            assert(t[a].0 == s[a].0 && t[b].0 == s[b].0);
        }
        lemma_key_index(t, j);
        if other != k {
            if has_key(s, other) {
                let q = key_index(s, other);
                assert(0 <= q < s.len() && s[q].0 == other);
                lemma_key_index(s, q);
                assert(t[q] == s[q]);
                lemma_key_index(t, q);
            } else {
                assert(!has_key(t, other)) by {
                    if has_key(t, other) {
                        let q = choose|q: int| 0 <= q < t.len() && #[trigger] t[q].0 == other;
                        assert(s[q].0 == other);
                    }
                }
            }
        }
    } else {
        lemma_split_exists(s, k);
        let p = insert_pos(s, k);
        assert(t == s.insert(p, (k, v)));
        assert forall|a: int, b: int| 0 <= a < b < t.len() implies seq_lt(#[trigger] t[a].0, #[trigger] t[b].0) by {
            if b < p {
                assert(t[a] == s[a] && t[b] == s[b]);
            } else if b == p {
                assert(t[a] == s[a]);
            } else if a == p {
                assert(t[b] == s[b - 1]);
            } else if a < p {
                assert(t[a] == s[a] && t[b] == s[b - 1]);
                assert(seq_lt(s[a].0, k));
                assert(seq_lt(k, s[b - 1].0));
                lemma_seq_lt_trans(s[a].0, k, s[b - 1].0);
            } else {
                assert(t[a] == s[a - 1] && t[b] == s[b - 1]);
            }
        }
        assert(t[p] == (k, v));
        lemma_key_index(t, p);
        if other != k {
            if has_key(s, other) {
                let q = key_index(s, other);
                assert(0 <= q < s.len() && s[q].0 == other);
                lemma_key_index(s, q);
                let q2 = if q < p { q } else { q + 1 };
                assert(t[q2] == s[q]);
                lemma_key_index(t, q2);
            } else {
                assert(!has_key(t, other)) by {
                    if has_key(t, other) {
                        let q = choose|q: int| 0 <= q < t.len() && #[trigger] t[q].0 == other;
                        if q < p {
                            assert(t[q] == s[q]);
                        } else if q > p {
                            assert(t[q] == s[q - 1]);
                        }
                    }
                }
            }
        }
    }
}

/// A map from strings to `T` ordered by key.
pub struct StrMap<T> {
    entries: Vec<(String, T)>,
}

impl<T> View for StrMap<T> {
    type V = Seq<(Seq<char>, T)>;

    closed spec fn view(&self) -> Seq<(Seq<char>, T)> {
        self.entries@.map_values(|e: (String, T)| (e.0@, e.1))
    }
}

impl<T> StrMap<T> {
    /// Keys strictly increase.
    pub open spec fn wf(&self) -> bool {
        keys_sorted(self@)
    }

    /// The empty map.
    pub fn new() -> (m: Self)
        ensures
            m@ == Seq::<(Seq<char>, T)>::empty(),
            m.wf(),
    {
        let m = StrMap { entries: Vec::new() };
        assert(m@ =~= Seq::<(Seq<char>, T)>::empty());
        m
    }

    /// Number of entries.
    pub fn len(&self) -> (r: usize)
        ensures
            r == self@.len(),
    {
        self.entries.len()
    }

    /// Key of entry `i`.
    pub fn key_at(&self, i: usize) -> (r: &String)
        requires
            i < self@.len(),
        ensures
            r@ == self@[i as int].0,
    {
        &self.entries[i].0
    }

    /// Value of entry `i`.
    pub fn value_at(&self, i: usize) -> (r: &T)
        requires
            i < self@.len(),
        ensures
            *r == self@[i as int].1,
    {
        &self.entries[i].1
    }

    /// Position of `k`, if present.
    pub fn find(&self, k: &str) -> (r: Option<usize>)
        ensures
            match r {
                Some(i) => i < self@.len() && self@[i as int].0 == k@,
                None => !has_key(self@, k@),
            },
    {
        let n = self.entries.len();
        let mut i: usize = 0;
        while i < n
            invariant
                n == self@.len(),
                i <= n,
                forall|j: int| 0 <= j < i ==> self@[j].0 != k@,
            decreases n - i,
        {
            if crate::text::str_eq(self.entries[i].0.as_str(), k) {
                return Some(i);
            }
            i = i + 1;
        }
        None
    }

    /// Whether `k` is present.
    pub fn contains_key(&self, k: &str) -> (r: bool)
        ensures
            r == has_key(self@, k@),
    {
        self.find(k).is_some()
    }

    /// The value under `k`.
    pub fn get(&self, k: &str) -> (r: Option<&T>)
        requires
            self.wf(),
        ensures
            match r {
                Some(v) => lookup(self@, k@) == Some(*v),
                None => lookup(self@, k@) is None,
            },
    {
        match self.find(k) {
            Some(i) => {
                proof {
                    lemma_key_index(self@, i as int);
                }
                Some(&self.entries[i].1)
            },
            None => None,
        }
    }

    /// Replace the value of entry `i`.
    pub fn set_value_at(&mut self, i: usize, v: T)
        requires
            i < old(self)@.len(),
        ensures
            final(self)@ == old(self)@.update(i as int, (old(self)@[i as int].0, v)),
            old(self).wf() ==> final(self).wf(),
    {
        let k = self.entries[i].0.clone();
        self.entries.set(i, (k, v));
        assert(self@ =~= old(self)@.update(i as int, (old(self)@[i as int].0, v)));
    }

    /// Insert or overwrite `k`, keeping keys ordered.
    pub fn insert(&mut self, k: String, v: T)
        requires
            old(self).wf(),
        ensures
            final(self).wf(),
            final(self)@ == insert_spec(old(self)@, k@, v),
    {
        let n = self.entries.len();
        let mut p: usize = 0;
        while p < n
            invariant
                n == self@.len(),
                self@ == old(self)@,
                self.wf(),
                p <= n,
                forall|j: int| 0 <= j < p ==> seq_lt(#[trigger] self@[j].0, k@),
            ensures
                p <= n,
                self@ == old(self)@,
                self.wf(),
                forall|j: int| 0 <= j < p ==> seq_lt(#[trigger] self@[j].0, k@),
                p < n ==> seq_lt(k@, self@[p as int].0),
            decreases n - p,
        {
            match str_order(self.entries[p].0.as_str(), k.as_str()) {
                Order3::Less => {
                    p = p + 1;
                },
                Order3::Equal => {
                    proof {
                        lemma_key_index(self@, p as int);
                    }
                    let ghost before = self@;
                    assert(has_key(before, k@));
                    self.entries.set(p, (k, v));
                    assert(self@ =~= before.update(p as int, (k@, v)));
                    return ;
                },
                Order3::Greater => {
                    break ;
                },
            }
        }
        let ghost before = self@;
        proof {
            assert forall|j: int| p <= j < n implies seq_lt(k@, #[trigger] before[j].0) by {
                if j > p {
                    assert(seq_lt(before[p as int].0, before[j].0));
                    lemma_seq_lt_trans(k@, before[p as int].0, before[j].0);
                }
            }
            assert forall|j: int| 0 <= j < n implies before[j].0 != k@ by {
                lemma_seq_lt_irrefl(k@);
                if j < p {
                    assert(seq_lt(before[j].0, k@));
                } else {
                    assert(seq_lt(k@, before[j].0));
                }
            }
        }
        proof {
            lemma_insert_pos(before, k@, p as int);
            assert(!has_key(before, k@));
        }
        self.entries.insert(p, (k, v));
        assert(self@ =~= before.insert(p as int, (k@, v)));
        proof {
            let s = self@;
            assert forall|i: int, j: int| 0 <= i < j < s.len() implies seq_lt(
                #[trigger] s[i].0,
                #[trigger] s[j].0,
            ) by {
                if j < p {
                    assert(s[i] == before[i] && s[j] == before[j]);
                } else if i > p {
                    assert(s[i] == before[i - 1] && s[j] == before[j - 1]);
                } else if i == p {
                    assert(s[j] == before[j - 1]);
                } else if j == p {
                    assert(s[i] == before[i]);
                } else {
                    assert(s[i] == before[i] && s[j] == before[j - 1]);
                    assert(seq_lt(before[i].0, k@));
                    lemma_seq_lt_trans(before[i].0, k@, before[j - 1].0);
                }
            }
        }
    }

    /// Put `v` as the value of entry `i`, returning the value it had.
    pub fn replace_at(&mut self, i: usize, v: T) -> (r: T)
        requires
            i < old(self)@.len(),
        ensures
            r == old(self)@[i as int].1,
            final(self)@ == old(self)@.update(i as int, (old(self)@[i as int].0, v)),
            old(self).wf() ==> final(self).wf(),
    {
        let (k, old_v) = self.entries.remove(i);
        self.entries.insert(i, (k, v));
        assert(self@ =~= old(self)@.update(i as int, (old(self)@[i as int].0, v)));
        old_v
    }

    /// Remove entry `i`.
    pub fn remove_at(&mut self, i: usize) -> (r: T)
        requires
            i < old(self)@.len(),
        ensures
            r == old(self)@[i as int].1,
            final(self)@ == old(self)@.remove(i as int),
            old(self).wf() ==> final(self).wf(),
    {
        let e = self.entries.remove(i);
        assert(self@ =~= old(self)@.remove(i as int));
        proof {
            if old(self).wf() {
                let s = self@;
                let o = old(self)@;
                assert forall|a: int, b: int| 0 <= a < b < s.len() implies seq_lt(
                    #[trigger] s[a].0,
                    #[trigger] s[b].0,
                ) by {
                    if b < i {
                        assert(s[a] == o[a] && s[b] == o[b]);
                    } else if a >= i {
                        assert(s[a] == o[a + 1] && s[b] == o[b + 1]);
                    } else {
                        assert(s[a] == o[a] && s[b] == o[b + 1]);
                    }
                }
            }
        }
        e.1
    }
}

} // verus!
