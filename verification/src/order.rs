//! Ordered collections keyed by strings: strictly sorted vectors that keep
//! the first element seen for each key.

use vstd::prelude::*;
use crate::text::{seq_lt, str_lt, lemma_seq_lt_irreflexive, lemma_seq_lt_trichotomy, lemma_seq_lt_transitive};
use crate::dto::{Dup, KeyDto};

verus! {

/// Values ordered by a string key.
pub trait StrKeyed: Sized {
    spec fn skey(&self) -> Seq<char>;

    fn key_str(&self) -> (r: &str)
        ensures
            r@ == self.skey();
}

impl StrKeyed for String {
    open spec fn skey(&self) -> Seq<char> {
        self@
    }

    fn key_str(&self) -> (r: &str) {
        self.as_str()
    }
}

impl StrKeyed for KeyDto {
    open spec fn skey(&self) -> Seq<char> {
        self.hex@
    }

    fn key_str(&self) -> (r: &str) {
        self.hex.as_str()
    }
}

/// Keys strictly increase along `s`.
pub open spec fn strictly_sorted<T: StrKeyed>(s: Seq<T>) -> bool {
    forall|i: int, j: int| 0 <= i < j < s.len() ==> seq_lt(#[trigger] s[i].skey(), #[trigger] s[j].skey())
}

/// Some element of `s` has key `k`.
pub open spec fn has_key<T: StrKeyed>(s: Seq<T>, k: Seq<char>) -> bool {
    exists|i: int| 0 <= i < s.len() && #[trigger] s[i].skey() == k
}

/// `x` is the first element of `s` with its key.
pub open spec fn first_with_own_key<T: StrKeyed>(s: Seq<T>, x: T) -> bool {
    exists|i: int|
        0 <= i < s.len() && s[i] == x && forall|j: int| 0 <= j < i ==> #[trigger] s[j].skey() != x.skey()
}

/// The keys of `s`, in order, have no repeats and increase; each element
/// of `r` is the first element of `s` with that key; `r` and `s` have the
/// same keys.
pub open spec fn first_per_key_sorted<T: StrKeyed>(s: Seq<T>, r: Seq<T>) -> bool {
    &&& strictly_sorted(r)
    &&& forall|k: Seq<char>| has_key(r, k) <==> has_key(s, k)
    &&& forall|i: int| 0 <= i < r.len() ==> first_with_own_key(s, #[trigger] r[i])
}

/// Number of leading elements of the sorted `v` whose key is below `k`.
pub fn lower_bound<T: StrKeyed>(v: &Vec<T>, k: &str) -> (p: usize)
    requires
        strictly_sorted(v@),
    ensures
        p <= v.len(),
        forall|j: int| 0 <= j < p ==> seq_lt(#[trigger] v@[j].skey(), k@),
        forall|j: int| p <= j < v.len() ==> !seq_lt(#[trigger] v@[j].skey(), k@),
{
    let mut lo: usize = 0;
    let mut hi: usize = v.len();
    while lo < hi
        invariant
            lo <= hi <= v.len(),
            strictly_sorted(v@),
            forall|j: int| 0 <= j < lo ==> seq_lt(#[trigger] v@[j].skey(), k@),
            forall|j: int| hi <= j < v.len() ==> !seq_lt(#[trigger] v@[j].skey(), k@),
        decreases hi - lo,
    {
        let mid = lo + (hi - lo) / 2;
        if str_lt(v[mid].key_str(), k) {
            proof {
                assert forall|j: int| 0 <= j <= mid implies seq_lt(#[trigger] v@[j].skey(), k@) by {
                    if j < mid {
                        lemma_seq_lt_transitive(v@[j].skey(), v@[mid as int].skey(), k@);
                    }
                }
            }
            lo = mid + 1;
        } else {
            proof {
                assert forall|j: int| mid <= j < v.len() implies !seq_lt(#[trigger] v@[j].skey(), k@) by {
                    if j > mid && seq_lt(v@[j].skey(), k@) {
                        lemma_seq_lt_transitive(v@[mid as int].skey(), v@[j].skey(), k@);
                    }
                }
            }
            hi = mid;
        }
    }
    lo
}

/// Whether the element at `p` of the sorted `v` has key `k`, given that
/// `p` is the lower bound of `k`.
fn key_at_is<T: StrKeyed>(v: &Vec<T>, p: usize, k: &str) -> (r: bool)
    requires
        strictly_sorted(v@),
        p <= v.len(),
        forall|j: int| 0 <= j < p ==> seq_lt(#[trigger] v@[j].skey(), k@),
        forall|j: int| p <= j < v.len() ==> !seq_lt(#[trigger] v@[j].skey(), k@),
    ensures
        r == has_key(v@, k@),
        r ==> p < v.len() && v@[p as int].skey() == k@,
{
    if p < v.len() {
        let found = !str_lt(k, v[p].key_str());
        proof {
            lemma_seq_lt_trichotomy(v@[p as int].skey(), k@);
            if found {
                assert(v@[p as int].skey() =~= k@);
            } else {
                assert forall|j: int| 0 <= j < v.len() implies #[trigger] v@[j].skey() != k@ by {
                    if j < p {
                        lemma_seq_lt_irreflexive(k@);
                    } else if j > p {
                        lemma_seq_lt_transitive(k@, v@[p as int].skey(), v@[j].skey());
                        lemma_seq_lt_irreflexive(k@);
                    } else {
                        lemma_seq_lt_irreflexive(k@);
                    }
                }
            }
        }
        found
    } else {
        proof {
            assert forall|j: int| 0 <= j < v.len() implies #[trigger] v@[j].skey() != k@ by {
                lemma_seq_lt_irreflexive(k@);
            }
        }
        false
    }
}

/// Whether the sorted `v` has an element with key `k`.
pub fn sorted_contains<T: StrKeyed>(v: &Vec<T>, k: &str) -> (r: bool)
    requires
        strictly_sorted(v@),
    ensures
        r == has_key(v@, k@),
{
    let p = lower_bound(v, k);
    key_at_is(v, p, k)
}

/// The elements of `items`, one per key (the first one for each key),
/// ordered by key.
pub fn first_per_key<T: StrKeyed>(items: Vec<T>) -> (r: Vec<T>)
    ensures
        first_per_key_sorted(items@, r@),
{
    let ghost s = items@;
    let mut rest = items;
    // `pending` holds the items in reverse, so popping yields them in order.
    let mut pending: Vec<T> = Vec::new();
    while rest.len() > 0
        invariant
            rest@ + pending@.reverse() == s,
        decreases rest.len(),
    {
        let x = rest.pop().unwrap();
        pending.push(x);
        assert(rest@ + pending@.reverse() =~= s);
    }
    assert(pending@.reverse() =~= s);
    let mut out: Vec<T> = Vec::new();
    while pending.len() > 0
        invariant
            pending@.len() <= s.len(),
            s.take(s.len() - pending@.len()) + pending@.reverse() == s,
            first_per_key_sorted(s.take(s.len() - pending@.len()), out@),
        decreases pending.len(),
    {
        let ghost m = s.len() - pending@.len();
        let ghost pre = s.take(m);
        let x = pending.pop().unwrap();
        let ghost post = s.take(m + 1);
        assert(post =~= pre.push(x)) by {
            assert(s.take(m) + (pending@.push(x)).reverse() == s);
            assert(s[m] == x) by {
                assert((pending@.push(x)).reverse()[0] == x);
                assert(s[m] == (s.take(m) + (pending@.push(x)).reverse())[m]);
            }
        }
        assert(s.take(m + 1) + pending@.reverse() =~= s) by {
            assert(s.take(m) + (pending@.push(x)).reverse() == s);
            assert((pending@.push(x)).reverse() =~= seq![x] + pending@.reverse());
        }
        let p = lower_bound(&out, x.key_str());
        let present = key_at_is(&out, p, x.key_str());
        let ghost old_out = out@;
        if !present {
            out.insert(p, x);
            proof {
                assert(out@ =~= old_out.insert(p as int, x));
                assert forall|i: int, j: int| 0 <= i < j < out@.len() implies seq_lt(
                    #[trigger] out@[i].skey(),
                    #[trigger] out@[j].skey(),
                ) by {
                    if j < p {
                    } else if j == p {
                        assert(out@[i] == old_out[i]);
                    } else if i == p {
                        assert(out@[j] == old_out[j - 1]);
                        lemma_seq_lt_trichotomy(old_out[j - 1].skey(), x.skey());
                        assert(old_out[j - 1].skey() != x.skey());
                    } else if i < p {
                        assert(out@[j] == old_out[j - 1]);
                    } else {
                        assert(out@[j] == old_out[j - 1]);
                        assert(out@[i] == old_out[i - 1]);
                    }
                }
                assert forall|k: Seq<char>| has_key(out@, k) <==> has_key(post, k) by {
                    if has_key(out@, k) {
                        let i = choose|i: int| 0 <= i < out@.len() && #[trigger] out@[i].skey() == k;
                        if i == p {
                            assert(post[m].skey() == k);
                        } else {
                            let io = if i < p { i } else { i - 1 };
                            assert(old_out[io].skey() == k);
                            assert(has_key(pre, k));
                            let j = choose|j: int| 0 <= j < pre.len() && #[trigger] pre[j].skey() == k;
                            assert(post[j] == pre[j]);
                        }
                    }
                    if has_key(post, k) {
                        let j = choose|j: int| 0 <= j < post.len() && #[trigger] post[j].skey() == k;
                        if j == m {
                            assert(out@[p as int].skey() == k);
                        } else {
                            assert(pre[j] == post[j]);
                            assert(has_key(old_out, k));
                            let i = choose|i: int| 0 <= i < old_out.len() && #[trigger] old_out[i].skey() == k;
                            if i < p {
                                assert(out@[i].skey() == k);
                            } else {
                                assert(out@[i + 1].skey() == k);
                            }
                        }
                    }
                }
                assert forall|i: int| 0 <= i < out@.len() implies first_with_own_key(post, #[trigger] out@[i]) by {
                    if i == p {
                        assert(post[m] == x);
                        assert forall|j2: int| 0 <= j2 < m implies #[trigger] post[j2].skey() != x.skey() by {
                            assert(post[j2] == pre[j2]);
                            if pre[j2].skey() == x.skey() {
                                assert(has_key(pre, x.skey()));
                            }
                        }
                    } else {
                        let io = if i < p { i } else { i - 1 };
                        assert(out@[i] == old_out[io]);
                        assert(first_with_own_key(pre, old_out[io]));
                        let j = choose|j: int|
                            0 <= j < pre.len() && pre[j] == old_out[io] && forall|j2: int|
                                0 <= j2 < j ==> #[trigger] pre[j2].skey() != old_out[io].skey();
                        assert(post[j] == pre[j]);
                        assert forall|j2: int| 0 <= j2 < j implies #[trigger] post[j2].skey()
                            != old_out[io].skey() by {
                            assert(post[j2] == pre[j2]);
                        }
                    }
                }
            }
        } else {
            proof {
                assert forall|k: Seq<char>| has_key(out@, k) <==> has_key(post, k) by {
                    if has_key(post, k) {
                        let j = choose|j: int| 0 <= j < post.len() && #[trigger] post[j].skey() == k;
                        if j < m {
                            assert(pre[j] == post[j]);
                            assert(has_key(pre, k));
                        } else {
                            assert(out@[p as int].skey() == k);
                        }
                    }
                    if has_key(out@, k) {
                        assert(has_key(pre, k));
                        let j = choose|j: int| 0 <= j < pre.len() && #[trigger] pre[j].skey() == k;
                        assert(post[j] == pre[j]);
                    }
                }
                assert forall|i: int| 0 <= i < out@.len() implies first_with_own_key(post, #[trigger] out@[i]) by {
                    assert(first_with_own_key(pre, out@[i]));
                    let j = choose|j: int|
                        0 <= j < pre.len() && pre[j] == out@[i] && forall|j2: int|
                            0 <= j2 < j ==> #[trigger] pre[j2].skey() != out@[i].skey();
                    assert(post[j] == pre[j]);
                    assert forall|j2: int| 0 <= j2 < j implies #[trigger] post[j2].skey() != out@[i].skey() by {
                        assert(post[j2] == pre[j2]);
                    }
                }
            }
        }
    }
    assert(s.take(s.len() as int) =~= s);
    out
}

/// Two strictly sorted sequences with the same keys agree key by key.
pub proof fn lemma_sorted_same_keys(r1: Seq<Seq<char>>, r2: Seq<Seq<char>>)
    requires
        forall|i: int, j: int| 0 <= i < j < r1.len() ==> seq_lt(#[trigger] r1[i], #[trigger] r1[j]),
        forall|i: int, j: int| 0 <= i < j < r2.len() ==> seq_lt(#[trigger] r2[i], #[trigger] r2[j]),
        forall|k: Seq<char>| r1.contains(k) <==> r2.contains(k),
    ensures
        r1 == r2,
    decreases r1.len(),
{
    if r1.len() == 0 {
        if r2.len() > 0 {
            assert(r2.contains(r2[0]));
        }
        assert(r1 =~= r2);
    } else {
        assert(r1.contains(r1[0]));
        let j = choose|j: int| 0 <= j < r2.len() && r2[j] == r1[0];
        assert(r2.contains(r2[0]));
        let i = choose|i: int| 0 <= i < r1.len() && r1[i] == r2[0];
        if j > 0 {
            if i > 0 {
                assert(seq_lt(r2[0], r2[j]));
                assert(seq_lt(r1[0], r1[i]));
                lemma_seq_lt_trichotomy(r1[0], r2[0]);
            } else {
                assert(seq_lt(r2[0], r2[j]));
                lemma_seq_lt_irreflexive(r2[0]);
            }
        } else if i > 0 {
            assert(seq_lt(r1[0], r1[i]));
            lemma_seq_lt_irreflexive(r1[0]);
        }
        let t1 = r1.drop_first();
        let t2 = r2.drop_first();
        assert forall|k: Seq<char>| t1.contains(k) <==> t2.contains(k) by {
            if t1.contains(k) {
                let a = choose|a: int| 0 <= a < t1.len() && t1[a] == k;
                assert(r1[a + 1] == k);
                assert(r1.contains(k));
                let b = choose|b: int| 0 <= b < r2.len() && r2[b] == k;
                assert(seq_lt(r1[0], r1[a + 1]));
                if b == 0 {
                    lemma_seq_lt_irreflexive(k);
                }
                assert(t2[b - 1] == k);
            }
            if t2.contains(k) {
                let a = choose|a: int| 0 <= a < t2.len() && t2[a] == k;
                assert(r2[a + 1] == k);
                assert(r2.contains(k));
                let b = choose|b: int| 0 <= b < r1.len() && r1[b] == k;
                assert(seq_lt(r2[0], r2[a + 1]));
                if b == 0 {
                    lemma_seq_lt_irreflexive(k);
                }
                assert(t1[b - 1] == k);
            }
        }
        assert forall|a: int, b: int| 0 <= a < b < t1.len() implies seq_lt(#[trigger] t1[a], #[trigger] t1[b]) by {
            assert(t1[a] == r1[a + 1] && t1[b] == r1[b + 1]);
        }
        assert forall|a: int, b: int| 0 <= a < b < t2.len() implies seq_lt(#[trigger] t2[a], #[trigger] t2[b]) by {
            assert(t2[a] == r2[a + 1] && t2[b] == r2[b + 1]);
        }
        lemma_sorted_same_keys(t1, t2);
        assert(r1 =~= r2) by {
            assert forall|x: int| 0 <= x < r1.len() implies r1[x] == r2[x] by {
                if x > 0 {
                    assert(r1[x] == t1[x - 1]);
                    assert(r2[x] == t2[x - 1]);
                }
            }
        }
    }
}

/// The keys of `s`, in order.
pub open spec fn keys_of<T: StrKeyed>(s: Seq<T>) -> Seq<Seq<char>> {
    s.map_values(|x: T| x.skey())
}

/// Only one sequence keeps the first element per key in key order.
pub proof fn lemma_first_per_key_unique<T: StrKeyed>(s: Seq<T>, r1: Seq<T>, r2: Seq<T>)
    requires
        first_per_key_sorted(s, r1),
        first_per_key_sorted(s, r2),
    ensures
        r1 == r2,
{
    let k1 = keys_of(r1);
    let k2 = keys_of(r2);
    assert forall|i: int, j: int| 0 <= i < j < k1.len() implies seq_lt(#[trigger] k1[i], #[trigger] k1[j]) by {
        assert(k1[i] == r1[i].skey() && k1[j] == r1[j].skey());
    }
    assert forall|i: int, j: int| 0 <= i < j < k2.len() implies seq_lt(#[trigger] k2[i], #[trigger] k2[j]) by {
        assert(k2[i] == r2[i].skey() && k2[j] == r2[j].skey());
    }
    assert forall|k: Seq<char>| k1.contains(k) <==> k2.contains(k) by {
        if k1.contains(k) {
            let a = choose|a: int| 0 <= a < k1.len() && k1[a] == k;
            assert(r1[a].skey() == k);
            assert(has_key(r1, k));
            assert(has_key(r2, k));
            let b = choose|b: int| 0 <= b < r2.len() && #[trigger] r2[b].skey() == k;
            assert(k2[b] == k);
        }
        if k2.contains(k) {
            let a = choose|a: int| 0 <= a < k2.len() && k2[a] == k;
            assert(r2[a].skey() == k);
            assert(has_key(r2, k));
            assert(has_key(r1, k));
            let b = choose|b: int| 0 <= b < r1.len() && #[trigger] r1[b].skey() == k;
            assert(k1[b] == k);
        }
    }
    lemma_sorted_same_keys(k1, k2);
    assert(r1.len() == k1.len() && r2.len() == k2.len());
    assert(r1 =~= r2) by {
        assert forall|x: int| 0 <= x < r1.len() implies r1[x] == r2[x] by {
            assert(k1[x] == k2[x]);
            assert(r1[x].skey() == r2[x].skey());
            assert(first_with_own_key(s, r1[x]));
            assert(first_with_own_key(s, r2[x]));
            let i = choose|i: int|
                0 <= i < s.len() && s[i] == r1[x] && forall|j: int|
                    0 <= j < i ==> #[trigger] s[j].skey() != r1[x].skey();
            let j = choose|j: int|
                0 <= j < s.len() && s[j] == r2[x] && forall|j2: int|
                    0 <= j2 < j ==> #[trigger] s[j2].skey() != r2[x].skey();
            if i < j {
                assert(s[i].skey() != r2[x].skey());
            } else if j < i {
                assert(s[j].skey() != r1[x].skey());
            }
        }
    }
}

/// The elements of `s`, one per key (the first one for each key), in
/// key order.
pub open spec fn distinct_by_key<T: StrKeyed>(s: Seq<T>) -> Seq<T> {
    choose|r: Seq<T>| first_per_key_sorted(s, r)
}

/// `r` is the distinct-by-key view of `s` whenever it keeps the first
/// element per key in key order.
pub proof fn lemma_distinct_by_key<T: StrKeyed>(s: Seq<T>, r: Seq<T>)
    requires
        first_per_key_sorted(s, r),
    ensures
        distinct_by_key(s) == r,
{
    lemma_first_per_key_unique(s, distinct_by_key(s), r);
}


/// The sorted, distinct keys of the elements of `v`.
pub fn keys_set<T: StrKeyed>(v: &Vec<T>) -> (r: Vec<String>)
    ensures
        strictly_sorted(r@),
        forall|k: Seq<char>| has_key(r@, k) <==> has_key(v@, k),
{
    let mut ids: Vec<String> = Vec::new();
    let mut i: usize = 0;
    while i < v.len()
        invariant
            i <= v.len(),
            ids@.len() == i,
            forall|j: int| 0 <= j < i ==> (#[trigger] ids@[j])@ == v@[j].skey(),
        decreases v.len() - i,
    {
        let k = v[i].key_str().to_owned();
        ids.push(k);
        i = i + 1;
    }
    let ghost s = ids@;
    let r = first_per_key(ids);
    proof {
        assert forall|k: Seq<char>| has_key(s, k) <==> has_key(v@, k) by {
            if has_key(s, k) {
                let j = choose|j: int| 0 <= j < s.len() && #[trigger] s[j].skey() == k;
                assert(v@[j].skey() == k);
            }
            if has_key(v@, k) {
                let j = choose|j: int| 0 <= j < v@.len() && #[trigger] v@[j].skey() == k;
                assert(s[j].skey() == k);
            }
        }
    }
    r
}

/// Keeps the elements whose key no element of `other` has.
pub open spec fn key_absent_from<T: StrKeyed>(other: Seq<T>) -> spec_fn(T) -> bool {
    |x: T| !has_key(other, x.skey())
}

/// The elements of `src`, in order, whose key does not occur in `other`.
pub open spec fn missing<T: StrKeyed>(src: Seq<T>, other: Seq<T>) -> Seq<T> {
    src.filter(key_absent_from(other))
}

/// Copies of the elements of `src`, in order, whose key does not occur in
/// `other`.
pub fn copy_missing<T: StrKeyed + Dup>(src: &Vec<T>, other: &Vec<T>) -> (r: Vec<T>)
    ensures
        r@ == missing(src@, other@),
{
    let keys = keys_set(other);
    let mut out: Vec<T> = Vec::new();
    let mut i: usize = 0;
    while i < src.len()
        invariant
            i <= src.len(),
            strictly_sorted(keys@),
            forall|k: Seq<char>| has_key(keys@, k) <==> has_key(other@, k),
            out@ == src@.take(i as int).filter(key_absent_from(other@)),
        decreases src.len() - i,
    {
        let present = sorted_contains(&keys, src[i].key_str());
        proof {
            assert(src@.take(i + 1) =~= src@.take(i as int).push(src@[i as int]));
            src@.take(i as int).lemma_filter_push(src@[i as int], key_absent_from(other@));
        }
        if !present {
            out.push(src[i].dup());
        }
        i = i + 1;
    }
    assert(src@.take(src.len() as int) =~= src@);
    out
}

/// The element of `s` with key `k` (the one, when keys do not repeat).
pub open spec fn keyed<T: StrKeyed>(s: Seq<T>, k: Seq<char>) -> T {
    s[keyed_index(s, k)]
}

/// A position of `s` holding key `k`, when there is one.
pub open spec fn keyed_index<T: StrKeyed>(s: Seq<T>, k: Seq<char>) -> int {
    choose|i: int| 0 <= i < s.len() && #[trigger] s[i].skey() == k
}

/// In a strictly sorted sequence, the element found at a key is the one
/// with that key.
pub proof fn lemma_keyed<T: StrKeyed>(s: Seq<T>, p: int)
    requires
        strictly_sorted(s),
        0 <= p < s.len(),
    ensures
        keyed(s, s[p].skey()) == s[p],
{
    let k = s[p].skey();
    assert(s[p].skey() == k);
    let i = keyed_index(s, k);
    if i < p {
        assert(seq_lt(s[i].skey(), s[p].skey()));
        lemma_seq_lt_irreflexive(k);
    } else if i > p {
        assert(seq_lt(s[p].skey(), s[i].skey()));
        lemma_seq_lt_irreflexive(k);
    }
}

/// Position of the element with key `k` in the sorted `v`, if any.
pub fn find_key<T: StrKeyed>(v: &Vec<T>, k: &str) -> (r: Option<usize>)
    requires
        strictly_sorted(v@),
    ensures
        r is None <==> !has_key(v@, k@),
        r matches Some(p) ==> p < v.len() && v@[p as int].skey() == k@ && keyed(v@, k@) == v@[p as int],
{
    let p = lower_bound(v, k);
    if key_at_is(v, p, k) {
        proof {
            lemma_keyed(v@, p as int);
        }
        Some(p)
    } else {
        None
    }
}

/// The reverse of `v`, as copies.
pub fn reversed<T: Dup>(v: &Vec<T>) -> (r: Vec<T>)
    ensures
        r@ == v@.reverse(),
{
    let mut out: Vec<T> = Vec::new();
    let mut i: usize = v.len();
    while i > 0
        invariant
            i <= v.len(),
            out@ == v@.subrange(i as int, v.len() as int).reverse(),
        decreases i,
    {
        i = i - 1;
        out.push(v[i].dup());
        assert(out@ =~= v@.subrange(i as int, v.len() as int).reverse());
    }
    assert(v@.subrange(0, v.len() as int) =~= v@);
    out
}

/// The last element of `v` for each key, as copies, in key order.
pub fn last_per_key<T: StrKeyed + Dup>(v: &Vec<T>) -> (r: Vec<T>)
    ensures
        r@ == distinct_by_key(v@.reverse()),
        first_per_key_sorted(v@.reverse(), r@),
        strictly_sorted(r@),
        forall|k: Seq<char>| has_key(r@, k) <==> has_key(v@, k),
{
    let rev = reversed(v);
    let r = first_per_key(rev);
    proof {
        lemma_distinct_by_key(v@.reverse(), r@);
        assert forall|k: Seq<char>| has_key(v@.reverse(), k) <==> has_key(v@, k) by {
            let n = v@.len();
            if has_key(v@.reverse(), k) {
                let j = choose|j: int| 0 <= j < n && #[trigger] v@.reverse()[j].skey() == k;
                assert(v@[n - 1 - j].skey() == k);
            }
            if has_key(v@, k) {
                let j = choose|j: int| 0 <= j < n && #[trigger] v@[j].skey() == k;
                assert(v@.reverse()[n - 1 - j].skey() == k);
            }
        }
    }
    r
}


/// The last element of `s` for each key, in key order.
pub open spec fn last_by_key<T: StrKeyed>(s: Seq<T>) -> Seq<T> {
    distinct_by_key(s.reverse())
}

/// Nothing of `s` is missing from `s` itself.
pub proof fn lemma_missing_from_self<T: StrKeyed>(s: Seq<T>, t: Seq<T>)
    requires
        forall|k: Seq<char>| has_key(s, k) ==> has_key(t, k),
    ensures
        missing(s, t).len() == 0,
{
    assert forall|i: int| 0 <= i < s.len() implies !(#[trigger] key_absent_from(t)(s[i])) by {
        assert(has_key(s, s[i].skey()));
    }
    lemma_filter_none(s, key_absent_from(t));
}

/// A filter that keeps nothing gives the empty sequence.
pub proof fn lemma_filter_none<T>(s: Seq<T>, p: spec_fn(T) -> bool)
    requires
        forall|i: int| 0 <= i < s.len() ==> !#[trigger] p(s[i]),
    ensures
        s.filter(p).len() == 0,
    decreases s.len(),
{
    reveal(Seq::filter);
    if s.len() > 0 {
        let t = s.drop_last();
        assert forall|i: int| 0 <= i < t.len() implies !#[trigger] p(t[i]) by {
            assert(t[i] == s[i]);
        }
        lemma_filter_none(t, p);
        assert(!p(s[s.len() - 1]));
    }
}


/// Filtering keeps a relation that holds between every earlier and later
/// element, and keeps only elements of the source that pass the filter.
pub proof fn lemma_filter_keeps_order<T>(s: Seq<T>, p: spec_fn(T) -> bool, lt: spec_fn(T, T) -> bool)
    requires
        forall|i: int, j: int| 0 <= i < j < s.len() ==> #[trigger] lt(s[i], s[j]),
    ensures
        forall|i: int, j: int| 0 <= i < j < s.filter(p).len() ==> #[trigger] lt(s.filter(p)[i], s.filter(p)[j]),
        forall|i: int| 0 <= i < s.filter(p).len() ==> s.contains(#[trigger] s.filter(p)[i]) && p(s.filter(p)[i]),
    decreases s.len(),
{
    reveal(Seq::filter);
    if s.len() > 0 {
        let t = s.drop_last();
        let last = s.last();
        assert forall|i: int, j: int| 0 <= i < j < t.len() implies #[trigger] lt(t[i], t[j]) by {
            assert(t[i] == s[i] && t[j] == s[j]);
        }
        lemma_filter_keeps_order(t, p, lt);
        let f = t.filter(p);
        assert(s.filter(p) == if p(last) { f.push(last) } else { f });
        assert forall|i: int| 0 <= i < f.len() implies s.contains(#[trigger] f[i]) && lt(f[i], last) by {
            assert(t.contains(f[i]));
            let k = choose|k: int| 0 <= k < t.len() && t[k] == f[i];
            assert(s[k] == f[i]);
            assert(lt(s[k], s[s.len() - 1]));
        }
        assert(s[s.len() - 1] == last);
    }
}

} // verus!
