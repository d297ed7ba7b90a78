//! Character-sequence model of strings and the small text operations the
//! library is built from (trimming, prefix tests, searching, counting).
//! Strings are viewed as `Seq<char>`; exec helpers work on `Vec<char>`
//! copies of a `&str` and cut results back out of that same `&str`.

use vstd::prelude::*;

verus! {

/// Unicode `White_Space` characters, the set `str::trim` removes.
pub open spec fn is_ws(c: char) -> bool {
    let u = c as int;
    ||| 9 <= u <= 13
    ||| u == 32
    ||| u == 0x85
    ||| u == 0xA0
    ||| u == 0x1680
    ||| 0x2000 <= u <= 0x200A
    ||| u == 0x2028
    ||| u == 0x2029
    ||| u == 0x202F
    ||| u == 0x205F
    ||| u == 0x3000
}

/// `s` with leading whitespace removed.
pub open spec fn trim_start_ws(s: Seq<char>) -> Seq<char>
    decreases s.len(),
{
    if s.len() > 0 && is_ws(s[0]) {
        trim_start_ws(s.drop_first())
    } else {
        s
    }
}

/// `s` with trailing whitespace removed.
pub open spec fn trim_end_ws(s: Seq<char>) -> Seq<char>
    decreases s.len(),
{
    if s.len() > 0 && is_ws(s.last()) {
        trim_end_ws(s.drop_last())
    } else {
        s
    }
}

/// `str::trim`: whitespace removed at both ends.
pub open spec fn trim_ws(s: Seq<char>) -> Seq<char> {
    trim_end_ws(trim_start_ws(s))
}

/// `str::trim_end_matches(c)` for a single character.
pub open spec fn trim_end_char(s: Seq<char>, c: char) -> Seq<char>
    decreases s.len(),
{
    if s.len() > 0 && s.last() == c {
        trim_end_char(s.drop_last(), c)
    } else {
        s
    }
}

/// `str::trim_end_matches(c)` for any of two characters.
pub open spec fn trim_end_either(s: Seq<char>, a: char, b: char) -> Seq<char>
    decreases s.len(),
{
    if s.len() > 0 && (s.last() == a || s.last() == b) {
        trim_end_either(s.drop_last(), a, b)
    } else {
        s
    }
}

/// `str::trim_start_matches(c)` for any of two characters.
pub open spec fn trim_start_either(s: Seq<char>, a: char, b: char) -> Seq<char>
    decreases s.len(),
{
    if s.len() > 0 && (s[0] == a || s[0] == b) {
        trim_start_either(s.drop_first(), a, b)
    } else {
        s
    }
}

/// `p` is a prefix of `s`.
pub open spec fn has_prefix(s: Seq<char>, p: Seq<char>) -> bool {
    p.len() <= s.len() && s.subrange(0, p.len() as int) == p
}

/// `p` is a suffix of `s`.
pub open spec fn has_suffix(s: Seq<char>, p: Seq<char>) -> bool {
    p.len() <= s.len() && s.subrange(s.len() - p.len(), s.len() as int) == p
}

/// `str::trim_start_matches(p)` for a pattern string.
pub open spec fn trim_start_pat(s: Seq<char>, p: Seq<char>) -> Seq<char>
    decreases s.len(),
{
    if p.len() > 0 && has_prefix(s, p) {
        trim_start_pat(s.subrange(p.len() as int, s.len() as int), p)
    } else {
        s
    }
}

/// `str::trim_end_matches(p)` for a non-empty pattern string.
pub open spec fn trim_end_pat(s: Seq<char>, p: Seq<char>) -> Seq<char>
    decreases s.len(),
{
    if p.len() > 0 && has_suffix(s, p) {
        trim_end_pat(s.subrange(0, s.len() - p.len()), p)
    } else {
        s
    }
}

/// Index of the first `c` in `s`, or -1.
pub open spec fn first_index(s: Seq<char>, c: char) -> int {
    if exists|i: int| 0 <= i < s.len() && s[i] == c && (forall|j: int| 0 <= j < i ==> s[j] != c) {
        choose|i: int| 0 <= i < s.len() && s[i] == c && (forall|j: int| 0 <= j < i ==> s[j] != c)
    } else {
        -1
    }
}

/// Index of the last `c` in `s`, or -1.
pub open spec fn last_index(s: Seq<char>, c: char) -> int {
    if exists|i: int|
        0 <= i < s.len() && s[i] == c && (forall|j: int| i < j < s.len() ==> s[j] != c) {
        choose|i: int|
            0 <= i < s.len() && s[i] == c && (forall|j: int| i < j < s.len() ==> s[j] != c)
    } else {
        -1
    }
}

/// Number of occurrences of `c` in `s`.
pub open spec fn count_char(s: Seq<char>, c: char) -> nat
    decreases s.len(),
{
    if s.len() == 0 {
        0
    } else {
        count_char(s.drop_last(), c) + if s.last() == c {
            1nat
        } else {
            0nat
        }
    }
}

pub proof fn lemma_first_index(s: Seq<char>, c: char, k: int)
    requires
        -1 <= k < s.len(),
        k >= 0 ==> s[k] == c,
        forall|j: int| 0 <= j < s.len() && (k < 0 || j < k) ==> s[j] != c,
    ensures
        first_index(s, c) == k,
{
    if k >= 0 {
        assert(0 <= k < s.len() && s[k] == c && (forall|j: int| 0 <= j < k ==> s[j] != c));
        let i = choose|i: int|
            0 <= i < s.len() && s[i] == c && (forall|j: int| 0 <= j < i ==> s[j] != c);
        if i < k {
            assert(s[i] != c);
        }
        if i > k {
            assert(s[k] != c);
        }
    }
}

pub proof fn lemma_last_index(s: Seq<char>, c: char, k: int)
    requires
        -1 <= k < s.len(),
        k >= 0 ==> s[k] == c,
        forall|j: int| 0 <= j < s.len() && (k < 0 || j > k) ==> s[j] != c,
    ensures
        last_index(s, c) == k,
{
    if k >= 0 {
        assert(0 <= k < s.len() && s[k] == c && (forall|j: int| k < j < s.len() ==> s[j] != c));
        let i = choose|i: int|
            0 <= i < s.len() && s[i] == c && (forall|j: int| i < j < s.len() ==> s[j] != c);
        if i < k {
            assert(s[k] != c);
        }
        if i > k {
            assert(s[i] != c);
        }
    }
}


/// The least index `i < n` where `p` holds, or -1.
pub open spec fn first_where(n: int, p: spec_fn(int) -> bool) -> int {
    if exists|i: int| 0 <= i < n && #[trigger] p(i) && (forall|j: int| 0 <= j < i ==> !#[trigger] p(j)) {
        choose|i: int| 0 <= i < n && #[trigger] p(i) && (forall|j: int| 0 <= j < i ==> !#[trigger] p(j))
    } else {
        -1
    }
}

pub proof fn lemma_first_where(n: int, p: spec_fn(int) -> bool, k: int)
    requires
        -1 <= k < n,
        k >= 0 ==> p(k),
        forall|j: int| 0 <= j < n && (k < 0 || j < k) ==> !#[trigger] p(j),
    ensures
        first_where(n, p) == k,
{
    if k >= 0 {
        assert(0 <= k < n && p(k) && (forall|j: int| 0 <= j < k ==> !#[trigger] p(j)));
        let i = choose|i: int| 0 <= i < n && #[trigger] p(i) && (forall|j: int| 0 <= j < i ==> !#[trigger] p(j));
        if i < k {
            assert(!p(i));
        }
        if i > k {
            assert(!p(k));
        }
    }
}

/// Where `p` holds somewhere below `n`, a least such index exists.
pub proof fn lemma_first_where_exists(n: int, p: spec_fn(int) -> bool, w: int)
    requires
        0 <= w < n,
        p(w),
    ensures
        0 <= first_where(n, p) <= w,
    decreases w,
{
    if exists|j: int| 0 <= j < w && #[trigger] p(j) {
        let j = choose|j: int| 0 <= j < w && #[trigger] p(j);
        lemma_first_where_exists(n, p, j);
    } else {
        lemma_first_where(n, p, w);
    }
}

/// The characters of `s`.
pub fn chars_of(s: &str) -> (v: Vec<char>)
    ensures
        v@ == s@,
{
    let n = s.unicode_len();
    let mut v: Vec<char> = Vec::new();
    let mut i: usize = 0;
    while i < n
        invariant
            n == s@.len(),
            i <= n,
            v@ == s@.subrange(0, i as int),
        decreases n - i,
    {
        let c = s.get_char(i);
        v.push(c);
        i = i + 1;
        assert(v@ =~= s@.subrange(0, i as int));
    }
    assert(v@ =~= s@);
    v
}

/// The characters `from..to` of `s`, as a new `String`.
pub fn substring(s: &str, from: usize, to: usize) -> (r: String)
    requires
        from <= to <= s@.len(),
    ensures
        r@ == s@.subrange(from as int, to as int),
{
    String::from_str(s.substring_char(from, to))
}

/// Whether `v[lo..hi]` equals the characters of `lit`.
pub fn range_eq(v: &Vec<char>, lo: usize, hi: usize, lit: &str) -> (r: bool)
    requires
        lo <= hi <= v@.len(),
    ensures
        r == (v@.subrange(lo as int, hi as int) == lit@),
{
    let n = lit.unicode_len();
    if hi - lo != n {
        assert(v@.subrange(lo as int, hi as int).len() != lit@.len());
        return false;
    }
    let mut i: usize = 0;
    while i < n
        invariant
            n == lit@.len(),
            hi - lo == n,
            lo <= hi <= v@.len(),
            i <= n,
            forall|j: int| 0 <= j < i ==> v@[lo + j] == lit@[j],
        decreases n - i,
    {
        if v[lo + i] != lit.get_char(i) {
            assert(v@.subrange(lo as int, hi as int)[i as int] != lit@[i as int]);
            return false;
        }
        i = i + 1;
    }
    assert(v@.subrange(lo as int, hi as int) =~= lit@);
    true
}

/// Whether `v[lo..hi]` starts with the characters of `lit`.
pub fn range_starts_with(v: &Vec<char>, lo: usize, hi: usize, lit: &str) -> (r: bool)
    requires
        lo <= hi <= v@.len(),
    ensures
        r == has_prefix(v@.subrange(lo as int, hi as int), lit@),
{
    let n = lit.unicode_len();
    if n > hi - lo {
        return false;
    }
    let r = range_eq(v, lo, lo + n, lit);
    assert(v@.subrange(lo as int, hi as int).subrange(0, n as int) =~= v@.subrange(
        lo as int,
        lo + n,
    ));
    r
}

/// Whether `v[lo..hi]` ends with the characters of `lit`.
pub fn range_ends_with(v: &Vec<char>, lo: usize, hi: usize, lit: &str) -> (r: bool)
    requires
        lo <= hi <= v@.len(),
    ensures
        r == has_suffix(v@.subrange(lo as int, hi as int), lit@),
{
    let n = lit.unicode_len();
    if n > hi - lo {
        return false;
    }
    let r = range_eq(v, hi - n, hi, lit);
    let ghost s = v@.subrange(lo as int, hi as int);
    assert(s.subrange(s.len() - n, s.len() as int) =~= v@.subrange(hi - n, hi as int));
    r
}

/// Bounds of `v` with whitespace trimmed at both ends.
pub fn trim_ws_bounds(v: &Vec<char>) -> (r: (usize, usize))
    ensures
        r.0 <= r.1 <= v@.len(),
        v@.subrange(r.0 as int, r.1 as int) == trim_ws(v@),
{
    let n = v.len();
    let mut a: usize = 0;
    assert(v@.subrange(0, n as int) =~= v@);
    while a < n && is_ws_exec(v[a])
        invariant
            n == v@.len(),
            a <= n,
            trim_start_ws(v@.subrange(a as int, n as int)) == trim_start_ws(v@),
        decreases n - a,
    {
        let ghost s = v@.subrange(a as int, n as int);
        assert(s.drop_first() =~= v@.subrange(a + 1, n as int));
        a = a + 1;
    }
    let ghost t = v@.subrange(a as int, n as int);
    assert(trim_start_ws(t) == t);
    let mut b: usize = n;
    assert(v@.subrange(a as int, b as int) =~= t);
    while b > a && is_ws_exec(v[b - 1])
        invariant
            n == v@.len(),
            a <= b <= n,
            trim_end_ws(v@.subrange(a as int, b as int)) == trim_end_ws(t),
        decreases b - a,
    {
        let ghost s = v@.subrange(a as int, b as int);
        assert(s.drop_last() =~= v@.subrange(a as int, b - 1));
        b = b - 1;
    }
    (a, b)
}

/// Bounds of `v[lo..hi]` with whitespace trimmed at both ends.
pub fn trim_ws_at(v: &Vec<char>, lo: usize, hi: usize) -> (r: (usize, usize))
    requires
        lo <= hi <= v@.len(),
    ensures
        lo <= r.0 <= r.1 <= hi,
        v@.subrange(r.0 as int, r.1 as int) == trim_ws(v@.subrange(lo as int, hi as int)),
{
    let ghost whole = v@.subrange(lo as int, hi as int);
    let mut a: usize = lo;
    while a < hi && is_ws_exec(v[a])
        invariant
            lo <= a <= hi <= v@.len(),
            whole == v@.subrange(lo as int, hi as int),
            trim_start_ws(v@.subrange(a as int, hi as int)) == trim_start_ws(whole),
        decreases hi - a,
    {
        let ghost s = v@.subrange(a as int, hi as int);
        assert(s.drop_first() =~= v@.subrange(a + 1, hi as int));
        a = a + 1;
    }
    let ghost t = v@.subrange(a as int, hi as int);
    assert(trim_start_ws(t) == t);
    let mut b: usize = hi;
    while b > a && is_ws_exec(v[b - 1])
        invariant
            lo <= a <= b <= hi <= v@.len(),
            t == v@.subrange(a as int, hi as int),
            trim_end_ws(v@.subrange(a as int, b as int)) == trim_end_ws(t),
        decreases b - a,
    {
        let ghost s = v@.subrange(a as int, b as int);
        assert(s.drop_last() =~= v@.subrange(a as int, b - 1));
        b = b - 1;
    }
    (a, b)
}

/// Start of `v[lo..hi]` once every leading `x` or `y` is removed.
pub fn trim_start_either_at(v: &Vec<char>, lo: usize, hi: usize, x: char, y: char) -> (r: usize)
    requires
        lo <= hi <= v@.len(),
    ensures
        lo <= r <= hi,
        v@.subrange(r as int, hi as int) == trim_start_either(
            v@.subrange(lo as int, hi as int),
            x,
            y,
        ),
{
    let mut a = lo;
    while a < hi && (v[a] == x || v[a] == y)
        invariant
            lo <= a <= hi <= v@.len(),
            trim_start_either(v@.subrange(a as int, hi as int), x, y) == trim_start_either(
                v@.subrange(lo as int, hi as int),
                x,
                y,
            ),
        decreases hi - a,
    {
        assert(v@.subrange(a as int, hi as int).drop_first() =~= v@.subrange(a + 1, hi as int));
        a = a + 1;
    }
    a
}

/// End of `v[lo..hi]` once every trailing `x` or `y` is removed.
pub fn trim_end_either_at(v: &Vec<char>, lo: usize, hi: usize, x: char, y: char) -> (r: usize)
    requires
        lo <= hi <= v@.len(),
    ensures
        lo <= r <= hi,
        v@.subrange(lo as int, r as int) == trim_end_either(
            v@.subrange(lo as int, hi as int),
            x,
            y,
        ),
{
    let mut b = hi;
    while b > lo && (v[b - 1] == x || v[b - 1] == y)
        invariant
            lo <= b <= hi <= v@.len(),
            trim_end_either(v@.subrange(lo as int, b as int), x, y) == trim_end_either(
                v@.subrange(lo as int, hi as int),
                x,
                y,
            ),
        decreases b - lo,
    {
        assert(v@.subrange(lo as int, b as int).drop_last() =~= v@.subrange(lo as int, b - 1));
        b = b - 1;
    }
    b
}

/// Exec form of [`is_ws`].
pub fn is_ws_exec(c: char) -> (r: bool)
    ensures
        r == is_ws(c),
{
    let u = c as u32;
    (9 <= u && u <= 13) || u == 32 || u == 0x85 || u == 0xA0 || u == 0x1680 || (0x2000 <= u && u
        <= 0x200A) || u == 0x2028 || u == 0x2029 || u == 0x202F || u == 0x205F || u == 0x3000
}

/// End of `v[lo..hi]` once every trailing `c` is removed.
pub fn trim_end_char_at(v: &Vec<char>, lo: usize, hi: usize, c: char) -> (r: usize)
    requires
        lo <= hi <= v@.len(),
    ensures
        lo <= r <= hi,
        v@.subrange(lo as int, r as int) == trim_end_char(v@.subrange(lo as int, hi as int), c),
{
    let mut b = hi;
    while b > lo && v[b - 1] == c
        invariant
            lo <= b <= hi <= v@.len(),
            trim_end_char(v@.subrange(lo as int, b as int), c) == trim_end_char(
                v@.subrange(lo as int, hi as int),
                c,
            ),
        decreases b - lo,
    {
        assert(v@.subrange(lo as int, b as int).drop_last() =~= v@.subrange(lo as int, b - 1));
        b = b - 1;
    }
    b
}

/// End of `v[lo..hi]` once every trailing copy of `lit` is removed.
pub fn trim_end_lit_at(v: &Vec<char>, lo: usize, hi: usize, lit: &str) -> (r: usize)
    requires
        lo <= hi <= v@.len(),
    ensures
        lo <= r <= hi,
        v@.subrange(lo as int, r as int) == trim_end_pat(v@.subrange(lo as int, hi as int), lit@),
{
    let n = lit.unicode_len();
    if n == 0 {
        return hi;
    }
    let mut b = hi;
    while range_ends_with(v, lo, b, lit)
        invariant
            lo <= b <= hi <= v@.len(),
            n == lit@.len(),
            n > 0,
            trim_end_pat(v@.subrange(lo as int, b as int), lit@) == trim_end_pat(
                v@.subrange(lo as int, hi as int),
                lit@,
            ),
        decreases b - lo,
    {
        let ghost s = v@.subrange(lo as int, b as int);
        assert(s.subrange(0, s.len() - n) =~= v@.subrange(lo as int, b - n));
        b = b - n;
    }
    b
}

/// Start of `v[lo..hi]` once every leading copy of `lit` is removed.
pub fn trim_start_lit_at(v: &Vec<char>, lo: usize, hi: usize, lit: &str) -> (r: usize)
    requires
        lo <= hi <= v@.len(),
    ensures
        lo <= r <= hi,
        v@.subrange(r as int, hi as int) == trim_start_pat(v@.subrange(lo as int, hi as int), lit@),
{
    let n = lit.unicode_len();
    if n == 0 {
        return lo;
    }
    let mut a = lo;
    while range_starts_with(v, a, hi, lit)
        invariant
            lo <= a <= hi <= v@.len(),
            n == lit@.len(),
            n > 0,
            trim_start_pat(v@.subrange(a as int, hi as int), lit@) == trim_start_pat(
                v@.subrange(lo as int, hi as int),
                lit@,
            ),
        decreases hi - a,
    {
        let ghost s = v@.subrange(a as int, hi as int);
        assert(s.subrange(n as int, s.len() as int) =~= v@.subrange(a + n, hi as int));
        a = a + n;
    }
    a
}

/// First index of `c` in `v[lo..hi]`, relative to `lo`, or `None`.
pub fn find_first(v: &Vec<char>, lo: usize, hi: usize, c: char) -> (r: Option<usize>)
    requires
        lo <= hi <= v@.len(),
    ensures
        match r {
            Some(i) => i < hi - lo && first_index(v@.subrange(lo as int, hi as int), c) == i,
            None => first_index(v@.subrange(lo as int, hi as int), c) == -1,
        },
{
    let ghost s = v@.subrange(lo as int, hi as int);
    let mut i: usize = lo;
    while i < hi
        invariant
            lo <= i <= hi <= v@.len(),
            s == v@.subrange(lo as int, hi as int),
            forall|j: int| 0 <= j < i - lo ==> s[j] != c,
        decreases hi - i,
    {
        if v[i] == c {
            proof {
                lemma_first_index(s, c, i - lo);
            }
            return Some(i - lo);
        }
        i = i + 1;
    }
    proof {
        lemma_first_index(s, c, -1);
    }
    None
}

/// Last index of `c` in `v[lo..hi]`, relative to `lo`, or `None`.
pub fn find_last(v: &Vec<char>, lo: usize, hi: usize, c: char) -> (r: Option<usize>)
    requires
        lo <= hi <= v@.len(),
    ensures
        match r {
            Some(i) => i < hi - lo && last_index(v@.subrange(lo as int, hi as int), c) == i,
            None => last_index(v@.subrange(lo as int, hi as int), c) == -1,
        },
{
    let ghost s = v@.subrange(lo as int, hi as int);
    let mut i: usize = hi;
    while i > lo
        invariant
            lo <= i <= hi <= v@.len(),
            s == v@.subrange(lo as int, hi as int),
            forall|j: int| i - lo <= j < s.len() ==> s[j] != c,
        decreases i - lo,
    {
        if v[i - 1] == c {
            proof {
                lemma_last_index(s, c, i - 1 - lo);
            }
            return Some(i - 1 - lo);
        }
        i = i - 1;
    }
    proof {
        lemma_last_index(s, c, -1);
    }
    None
}

/// Number of `c` in `v[lo..hi]`.
pub fn count_in(v: &Vec<char>, lo: usize, hi: usize, c: char) -> (r: usize)
    requires
        lo <= hi <= v@.len(),
    ensures
        r == count_char(v@.subrange(lo as int, hi as int), c),
{
    let mut i: usize = lo;
    let mut k: usize = 0;
    while i < hi
        invariant
            lo <= i <= hi <= v@.len(),
            k == count_char(v@.subrange(lo as int, i as int), c),
            k <= i - lo,
        decreases hi - i,
    {
        assert(v@.subrange(lo as int, i + 1).drop_last() =~= v@.subrange(lo as int, i as int));
        if v[i] == c {
            k = k + 1;
        }
        i = i + 1;
    }
    k
}

/// Whether two strings have the same characters.
pub fn str_eq(a: &str, b: &str) -> (r: bool)
    ensures
        r == (a@ == b@),
{
    let v = chars_of(a);
    let n = v.len();
    let r = range_eq(&v, 0, n, b);
    assert(v@.subrange(0, n as int) =~= a@);
    r
}

/// `a + b` as a new `String`.
pub fn concat2(a: &str, b: &str) -> (r: String)
    ensures
        r@ == a@ + b@,
{
    let s = String::from_str(a);
    s.concat(b)
}

/// `a + b + c` as a new `String`.
pub fn concat3(a: &str, b: &str, c: &str) -> (r: String)
    ensures
        r@ == a@ + b@ + c@,
{
    let s = String::from_str(a);
    let s = s.concat(b);
    s.concat(c)
}


/// Lexicographic order of character sequences by code point; for Rust
/// strings this is the order of `str`'s `Ord` (UTF-8 preserves it).
pub open spec fn seq_lt(a: Seq<char>, b: Seq<char>) -> bool
    decreases a.len(),
{
    if a.len() == 0 {
        b.len() > 0
    } else if b.len() == 0 {
        false
    } else if (a[0] as int) < (b[0] as int) {
        true
    } else if a[0] == b[0] {
        seq_lt(a.drop_first(), b.drop_first())
    } else {
        false
    }
}

pub proof fn lemma_seq_lt_irrefl(a: Seq<char>)
    ensures
        !seq_lt(a, a),
    decreases a.len(),
{
    if a.len() > 0 {
        lemma_seq_lt_irrefl(a.drop_first());
    }
}

pub proof fn lemma_seq_lt_asym(a: Seq<char>, b: Seq<char>)
    ensures
        !(seq_lt(a, b) && seq_lt(b, a)),
    decreases a.len(),
{
    if a.len() > 0 && b.len() > 0 && a[0] == b[0] {
        lemma_seq_lt_asym(a.drop_first(), b.drop_first());
    }
}

pub proof fn lemma_seq_lt_total(a: Seq<char>, b: Seq<char>)
    ensures
        seq_lt(a, b) || seq_lt(b, a) || a == b,
    decreases a.len(),
{
    if a.len() > 0 && b.len() > 0 && a[0] == b[0] {
        lemma_seq_lt_total(a.drop_first(), b.drop_first());
        if a.drop_first() == b.drop_first() {
            assert(a =~= seq![a[0]] + a.drop_first());
            assert(b =~= seq![b[0]] + b.drop_first());
        }
    } else if a.len() > 0 && b.len() > 0 {
        assert((a[0] as int) != (b[0] as int));
    } else if a.len() == 0 && b.len() == 0 {
        assert(a =~= b);
    }
}

pub proof fn lemma_seq_lt_trans(a: Seq<char>, b: Seq<char>, c: Seq<char>)
    requires
        seq_lt(a, b),
        seq_lt(b, c),
    ensures
        seq_lt(a, c),
    decreases a.len(),
{
    if a.len() > 0 && b.len() > 0 && c.len() > 0 && a[0] == b[0] && b[0] == c[0] {
        lemma_seq_lt_trans(a.drop_first(), b.drop_first(), c.drop_first());
    }
}

/// Three-way result of comparing two strings.
#[derive(PartialEq, Eq, Structural, Clone, Copy, Debug)]
pub enum Order3 {
    Less,
    Equal,
    Greater,
}

/// Compare two strings in `str` order.
pub fn str_order(a: &str, b: &str) -> (r: Order3)
    ensures
        r == Order3::Less <==> seq_lt(a@, b@),
        r == Order3::Equal <==> a@ == b@,
        r == Order3::Greater <==> seq_lt(b@, a@),
{
    let va = chars_of(a);
    let vb = chars_of(b);
    let na = va.len();
    let nb = vb.len();
    let mut i: usize = 0;
    proof {
        lemma_seq_lt_irrefl(a@);
        lemma_seq_lt_asym(a@, b@);
        assert(a@.skip(0) =~= a@);
        assert(b@.skip(0) =~= b@);
    }
    while i < na && i < nb && va[i] == vb[i]
        invariant
            va@ == a@,
            vb@ == b@,
            na == a@.len(),
            nb == b@.len(),
            i <= na,
            i <= nb,
            a@.subrange(0, i as int) == b@.subrange(0, i as int),
            seq_lt(a@, b@) == seq_lt(a@.skip(i as int), b@.skip(i as int)),
            seq_lt(b@, a@) == seq_lt(b@.skip(i as int), a@.skip(i as int)),
        decreases na - i,
    {
        assert(a@.skip(i as int).drop_first() =~= a@.skip(i + 1));
        assert(b@.skip(i as int).drop_first() =~= b@.skip(i + 1));
        assert(a@.subrange(0, i + 1) =~= a@.subrange(0, i as int).push(a@[i as int]));
        assert(b@.subrange(0, i + 1) =~= b@.subrange(0, i as int).push(b@[i as int]));
        i = i + 1;
    }
    proof {
        lemma_seq_lt_asym(a@, b@);
    }
    let ghost ga = a@.skip(i as int);
    let ghost gb = b@.skip(i as int);
    if i == na && i == nb {
        assert(a@ =~= a@.subrange(0, i as int));
        assert(b@ =~= b@.subrange(0, i as int));
        proof {
            lemma_seq_lt_irrefl(a@);
        }
        Order3::Equal
    } else if i == na {
        assert(ga.len() == 0 && gb.len() > 0);
        assert(a@.len() != b@.len());
        Order3::Less
    } else if i == nb {
        assert(gb.len() == 0 && ga.len() > 0);
        assert(a@.len() != b@.len());
        Order3::Greater
    } else {
        let ca = va[i];
        let cb = vb[i];
        assert(ga[0] == ca && gb[0] == cb);
        assert(ca != cb);
        assert(a@[i as int] != b@[i as int]);
        if ca < cb {
            assert((ga[0] as int) < (gb[0] as int));
            Order3::Less
        } else {
            assert((gb[0] as int) < (ga[0] as int));
            Order3::Greater
        }
    }
}


/// A decimal digit.
pub open spec fn is_digit(c: char) -> bool {
    '0' <= c <= '9'
}

/// A non-empty run of decimal digits.
pub open spec fn all_digits(s: Seq<char>) -> bool {
    s.len() > 0 && forall|i: int| 0 <= i < s.len() ==> is_digit(#[trigger] s[i])
}

/// The number a run of decimal digits denotes.
pub open spec fn digits_value(s: Seq<char>) -> int
    decreases s.len(),
{
    if s.len() == 0 {
        0
    } else {
        digits_value(s.drop_last()) * 10 + (s.last() as int - '0' as int)
    }
}

pub proof fn lemma_digits_prefix(s: Seq<char>, k: int)
    requires
        0 <= k <= s.len(),
        forall|i: int| 0 <= i < s.len() ==> is_digit(#[trigger] s[i]),
    ensures
        0 <= digits_value(s.subrange(0, k)) <= digits_value(s),
    decreases s.len(),
{
    if k < s.len() {
        assert(s.drop_last().subrange(0, k) =~= s.subrange(0, k));
        lemma_digits_prefix(s.drop_last(), k);
        assert(is_digit(s.last()));
    } else {
        assert(s.subrange(0, k) =~= s);
        if s.len() > 0 {
            lemma_digits_prefix(s.drop_last(), s.len() - 1);
            assert(s.drop_last().subrange(0, s.len() - 1) =~= s.drop_last());
            assert(is_digit(s.last()));
        }
    }
}

/// The digits `v[lo..hi]` as a number not above `bound`, if they are that.
pub fn parse_digits(v: &Vec<char>, lo: usize, hi: usize, bound: u64) -> (r: Option<u64>)
    requires
        lo <= hi <= v@.len(),
    ensures
        match r {
            Some(x) => all_digits(v@.subrange(lo as int, hi as int)) && x == digits_value(
                v@.subrange(lo as int, hi as int),
            ) && x <= bound,
            None => !(all_digits(v@.subrange(lo as int, hi as int)) && digits_value(
                v@.subrange(lo as int, hi as int),
            ) <= bound),
        },
{
    let ghost s = v@.subrange(lo as int, hi as int);
    if lo == hi {
        return None;
    }
    let mut val: u64 = 0;
    let mut i: usize = lo;
    while i < hi
        invariant
            lo <= i <= hi <= v@.len(),
            s == v@.subrange(lo as int, hi as int),
            forall|j: int| 0 <= j < i - lo ==> is_digit(#[trigger] s[j]),
            val == digits_value(s.subrange(0, i - lo)),
            val <= bound,
        decreases hi - i,
    {
        let c = v[i];
        if !('0' <= c && c <= '9') {
            assert(!is_digit(s[i - lo]));
            return None;
        }
        let d = (c as u32 - '0' as u32) as u64;
        assert(s.subrange(0, i - lo + 1).drop_last() =~= s.subrange(0, i - lo));
        assert(s.subrange(0, i - lo + 1).last() == c);
        let next: u128 = val as u128 * 10 + d as u128;
        if next > bound as u128 {
            proof {
                if all_digits(s) {
                    lemma_digits_prefix(s, i - lo + 1);
                }
            }
            return None;
        }
        val = next as u64;
        i = i + 1;
    }
    assert(s.subrange(0, hi - lo) =~= s);
    Some(val)
}

} // verus!

verus! {

/// Where `x` goes in `t` sorted in `str` order: after every string not above it.
pub open spec fn str_ins_point(t: Seq<Seq<char>>, x: Seq<char>) -> int {
    let p = first_where(t.len() as int, |i: int| seq_lt(x, t[i]));
    if p < 0 {
        t.len() as int
    } else {
        p
    }
}

/// `s` sorted in `str` order, equal strings keeping their relative order.
pub open spec fn sort_strs(s: Seq<Seq<char>>) -> Seq<Seq<char>>
    decreases s.len(),
{
    if s.len() == 0 {
        s
    } else {
        let t = sort_strs(s.drop_last());
        t.insert(str_ins_point(t, s.last()), s.last())
    }
}

/// Views of a sequence of strings.
pub open spec fn views_of(s: Seq<String>) -> Seq<Seq<char>> {
    s.map_values(|x: String| x@)
}

/// Position where `x` goes in sorted `t`.
fn find_str_ins_point(t: &Vec<String>, x: &str) -> (r: usize)
    ensures
        r == str_ins_point(views_of(t@), x@),
{
    let ghost s = views_of(t@);
    let len = t.len();
    let ghost p = |i: int| seq_lt(x@, s[i]);
    let mut i: usize = 0;
    while i < len
        invariant
            len == t@.len(),
            s == views_of(t@),
            i <= len,
            p == (|i: int| seq_lt(x@, s[i])),
            forall|j: int| 0 <= j < i ==> !#[trigger] p(j),
        decreases len - i,
    {
        if str_order(x, t[i].as_str()) == Order3::Less {
            proof {
                lemma_first_where(len as int, p, i as int);
            }
            return i;
        }
        i = i + 1;
    }
    proof {
        lemma_first_where(len as int, p, -1);
    }
    len
}

/// The strings of `v` sorted in `str` order.
pub fn sort_strings(v: &Vec<String>) -> (r: Vec<String>)
    ensures
        views_of(r@) == sort_strs(views_of(v@)),
{
    let ghost s = views_of(v@);
    let n = v.len();
    let mut out: Vec<String> = Vec::new();
    let mut k: usize = 0;
    assert(s.subrange(0, 0) =~= Seq::<Seq<char>>::empty());
    while k < n
        invariant
            n == v@.len(),
            s == views_of(v@),
            k <= n,
            views_of(out@) == sort_strs(s.subrange(0, k as int)),
        decreases n - k,
    {
        let x = v[k].clone();
        let p = find_str_ins_point(&out, x.as_str());
        let ghost before = views_of(out@);
        assert(s.subrange(0, k + 1).drop_last() =~= s.subrange(0, k as int));
        assert(s.subrange(0, k + 1).last() == x@);
        out.insert(p, x);
        assert(views_of(out@) =~= before.insert(p as int, s[k as int]));
        k = k + 1;
    }
    assert(s.subrange(0, n as int) =~= s);
    out
}

} // verus!

verus! {

/// The first `n` characters of `s` (all of it when shorter), what `{:.n}`
/// prints of a string.
pub open spec fn take_chars(s: Seq<char>, n: nat) -> Seq<char> {
    if s.len() <= n {
        s
    } else {
        s.subrange(0, n as int)
    }
}

/// Exec form of [`take_chars`].
pub fn take_chars_text(s: &str, n: usize) -> (r: String)
    ensures
        r@ == take_chars(s@, n as nat),
{
    let len = s.unicode_len();
    if len <= n {
        assert(s@.subrange(0, len as int) =~= s@);
        substring(s, 0, len)
    } else {
        substring(s, 0, n)
    }
}

} // verus!

verus! {

/// `t` is ordered: no element is below an earlier one.
pub open spec fn sorted_le(t: Seq<Seq<char>>) -> bool {
    forall|i: int, j: int| 0 <= i < j < t.len() ==> !seq_lt(#[trigger] t[j], #[trigger] t[i])
}

/// `t` strictly increases.
pub open spec fn strictly_sorted(t: Seq<Seq<char>>) -> bool {
    forall|i: int, j: int| 0 <= i < j < t.len() ==> seq_lt(#[trigger] t[i], #[trigger] t[j])
}

/// `sort_strs` orders its input and keeps its length.
pub proof fn lemma_sort_strs_sorted(s: Seq<Seq<char>>)
    ensures
        sorted_le(sort_strs(s)),
        sort_strs(s).len() == s.len(),
    decreases s.len(),
{
    if s.len() > 0 {
        let t = sort_strs(s.drop_last());
        lemma_sort_strs_sorted(s.drop_last());
        let x = s.last();
        let p = str_ins_point(t, x);
        let pr = |i: int| seq_lt(x, t[i]);
        let f = first_where(t.len() as int, pr);
        // every element before p is not above x; t[p] (if any) is above x
        assert(0 <= p <= t.len());
        assert forall|i: int| 0 <= i < p implies !seq_lt(x, #[trigger] t[i]) by {
            if f >= 0 {
                assert(0 <= f < t.len() && pr(f) && (forall|j: int| 0 <= j < f ==> !#[trigger] pr(j))) by {
                    let w = choose|w: int| 0 <= w < t.len() as int && #[trigger] pr(w) && (forall|j: int|
                        0 <= j < w ==> !#[trigger] pr(j));
                }
                assert(!pr(i));
            } else {
                if pr(i) {
                    lemma_first_where_exists(t.len() as int, pr, i);
                }
            }
        }
        assert forall|i: int| p <= i < t.len() implies seq_lt(x, #[trigger] t[i]) by {
            assert(f >= 0);
            assert(0 <= f < t.len() && pr(f) && (forall|j: int| 0 <= j < f ==> !#[trigger] pr(j))) by {
                let w = choose|w: int| 0 <= w < t.len() as int && #[trigger] pr(w) && (forall|j: int|
                    0 <= j < w ==> !#[trigger] pr(j));
            }
            if i > p {
                assert(!seq_lt(t[i], t[p]));
                lemma_seq_lt_total(t[p], t[i]);
                if t[p] != t[i] {
                    lemma_seq_lt_trans(x, t[p], t[i]);
                }
            }
        }
        let u = t.insert(p, x);
        assert(u == sort_strs(s));
        assert forall|i: int, j: int| 0 <= i < j < u.len() implies !seq_lt(#[trigger] u[j], #[trigger] u[i]) by {
            if j < p {
                assert(u[i] == t[i] && u[j] == t[j]);
            } else if j == p {
                assert(u[i] == t[i] && u[j] == x);
            } else if i == p {
                assert(u[i] == x && u[j] == t[j - 1]);
                lemma_seq_lt_asym(x, t[j - 1]);
            } else if i < p {
                assert(u[i] == t[i] && u[j] == t[j - 1]);
                assert(!seq_lt(x, t[i]));
                assert(seq_lt(x, t[j - 1]));
                if seq_lt(t[j - 1], t[i]) {
                    lemma_seq_lt_total(x, t[i]);
                    if x == t[i] {
                        lemma_seq_lt_asym(x, t[j - 1]);
                    } else {
                        lemma_seq_lt_trans(t[i], x, t[j - 1]);
                        lemma_seq_lt_asym(t[i], t[j - 1]);
                    }
                }
            } else {
                assert(u[i] == t[i - 1] && u[j] == t[j - 1]);
            }
        }
    }
}

} // verus!

verus! {

/// The decimal digit for `d` (below ten).
pub open spec fn digit_char(d: nat) -> char {
    if d == 0 {
        '0'
    } else if d == 1 {
        '1'
    } else if d == 2 {
        '2'
    } else if d == 3 {
        '3'
    } else if d == 4 {
        '4'
    } else if d == 5 {
        '5'
    } else if d == 6 {
        '6'
    } else if d == 7 {
        '7'
    } else if d == 8 {
        '8'
    } else {
        '9'
    }
}

/// `n` written in decimal, as `{}` prints an unsigned integer.
pub open spec fn decimal(n: nat) -> Seq<char>
    decreases n,
{
    if n < 10 {
        seq![digit_char(n)]
    } else {
        decimal(n / 10).push(digit_char(n % 10))
    }
}

/// The one-digit string for `d`.
fn digit_str(d: usize) -> (r: &'static str)
    requires
        d < 10,
    ensures
        r@ == seq![digit_char(d as nat)],
{
    proof {
        reveal_strlit("0");
        reveal_strlit("1");
        reveal_strlit("2");
        reveal_strlit("3");
        reveal_strlit("4");
        reveal_strlit("5");
        reveal_strlit("6");
        reveal_strlit("7");
        reveal_strlit("8");
        reveal_strlit("9");
    }
    if d == 0 {
        "0"
    } else if d == 1 {
        "1"
    } else if d == 2 {
        "2"
    } else if d == 3 {
        "3"
    } else if d == 4 {
        "4"
    } else if d == 5 {
        "5"
    } else if d == 6 {
        "6"
    } else if d == 7 {
        "7"
    } else if d == 8 {
        "8"
    } else {
        "9"
    }
}

/// `n` in decimal.
pub fn decimal_text(n: usize) -> (r: String)
    ensures
        r@ == decimal(n as nat),
    decreases n,
{
    if n < 10 {
        String::from_str(digit_str(n))
    } else {
        let head = decimal_text(n / 10);
        let r = concat2(head.as_str(), digit_str(n % 10));
        assert(r@ =~= decimal((n / 10) as nat).push(digit_char((n % 10) as nat)));
        r
    }
}

} // verus!
