//! Objects as seen by raw object-store listings of a database's
//! `manifest/`, `wal/` and `compacted/` directories. A compacted SST is
//! named by its ULID, held here as the ULID's 128-bit value.

use vstd::prelude::*;
use crate::dto::UtcTime;
use crate::text::{chars_of, is_digit, digits_value, string_from};

verus! {

/// A manifest file as seen by a raw object-store listing.
#[derive(Clone, Copy, Debug, PartialEq, Eq, Structural)]
pub struct ManifestEntry {
    pub id: u64,
    pub size_bytes: u64,
    pub last_modified: UtcTime,
}

/// A WAL SST as seen by a raw object-store listing.
#[derive(Clone, Copy, Debug, PartialEq, Eq, Structural)]
pub struct WalEntry {
    pub id: u64,
    pub size_bytes: u64,
    pub last_modified: UtcTime,
}

/// A compacted SST as seen by a raw object-store listing.
#[derive(Clone, Copy, Debug, PartialEq, Eq, Structural)]
pub struct CompactedEntry {
    pub ulid: u128,
    pub size_bytes: u64,
    pub last_modified: UtcTime,
}


/// Listing entries identified by a number: a manifest or WAL id, or a ULID.
pub trait NumKeyed: Sized + Copy {
    spec fn nkey(&self) -> u128;

    fn num_key(&self) -> (r: u128)
        ensures
            r == self.nkey();
}

impl NumKeyed for CompactedEntry {
    open spec fn nkey(&self) -> u128 {
        self.ulid
    }

    fn num_key(&self) -> (r: u128) {
        self.ulid
    }
}

impl NumKeyed for WalEntry {
    open spec fn nkey(&self) -> u128 {
        self.id as u128
    }

    fn num_key(&self) -> (r: u128) {
        self.id as u128
    }
}

impl NumKeyed for ManifestEntry {
    open spec fn nkey(&self) -> u128 {
        self.id as u128
    }

    fn num_key(&self) -> (r: u128) {
        self.id as u128
    }
}

/// Some entry of `s` has key `k`.
pub open spec fn has_num(s: Seq<impl NumKeyed>, k: u128) -> bool {
    exists|i: int| 0 <= i < s.len() && #[trigger] s[i].nkey() == k
}

/// `x` is the first entry of `s` with its key.
pub open spec fn first_with_num<T: NumKeyed>(s: Seq<T>, x: T) -> bool {
    exists|i: int| 0 <= i < s.len() && s[i] == x && forall|j: int| 0 <= j < i ==> #[trigger] s[j].nkey() != x.nkey()
}

/// `r` holds the first entry of `s` for each key, in increasing key order.
pub open spec fn first_per_num_sorted<T: NumKeyed>(s: Seq<T>, r: Seq<T>) -> bool {
    &&& forall|i: int, j: int| 0 <= i < j < r.len() ==> #[trigger] r[i].nkey() < #[trigger] r[j].nkey()
    &&& forall|k: u128| has_num(r, k) <==> has_num(s, k)
    &&& forall|i: int| 0 <= i < r.len() ==> first_with_num(s, #[trigger] r[i])
}

/// The first entry of `s` for each key, in increasing key order.
pub open spec fn by_num<T: NumKeyed>(s: Seq<T>) -> Seq<T> {
    choose|r: Seq<T>| first_per_num_sorted(s, r)
}

proof fn lemma_sorted_nums_equal(r1: Seq<u128>, r2: Seq<u128>)
    requires
        forall|i: int, j: int| 0 <= i < j < r1.len() ==> #[trigger] r1[i] < #[trigger] r1[j],
        forall|i: int, j: int| 0 <= i < j < r2.len() ==> #[trigger] r2[i] < #[trigger] r2[j],
        forall|x: u128| r1.contains(x) <==> r2.contains(x),
    ensures
        r1 == r2,
    decreases r1.len(),
{
    if r1.len() == 0 {
        if r2.len() > 0 {
            assert(r2.contains(r2[0]));
        }
        assert(r1 =~= r2);
    } else {
        assert(r1.contains(r1[0]));
        assert(r2.contains(r2[0]));
        let j = choose|j: int| 0 <= j < r2.len() && r2[j] == r1[0];
        let i = choose|i: int| 0 <= i < r1.len() && r1[i] == r2[0];
        if j > 0 {
            assert(r2[0] < r2[j]);
            if i > 0 {
                assert(r1[0] < r1[i]);
            }
        } else if i > 0 {
            assert(r1[0] < r1[i]);
        }
        let t1 = r1.drop_first();
        let t2 = r2.drop_first();
        assert forall|x: u128| t1.contains(x) <==> t2.contains(x) by {
            if t1.contains(x) {
                let a = choose|a: int| 0 <= a < t1.len() && t1[a] == x;
                assert(r1[a + 1] == x);
                assert(r1.contains(x));
                let b = choose|b: int| 0 <= b < r2.len() && r2[b] == x;
                assert(r1[0] < r1[a + 1]);
                assert(t2[b - 1] == x);
            }
            if t2.contains(x) {
                let a = choose|a: int| 0 <= a < t2.len() && t2[a] == x;
                assert(r2[a + 1] == x);
                assert(r2.contains(x));
                let b = choose|b: int| 0 <= b < r1.len() && r1[b] == x;
                assert(r2[0] < r2[a + 1]);
                assert(t1[b - 1] == x);
            }
        }
        assert forall|a: int, b: int| 0 <= a < b < t1.len() implies #[trigger] t1[a] < #[trigger] t1[b] by {
            assert(t1[a] == r1[a + 1] && t1[b] == r1[b + 1]);
        }
        assert forall|a: int, b: int| 0 <= a < b < t2.len() implies #[trigger] t2[a] < #[trigger] t2[b] by {
            assert(t2[a] == r2[a + 1] && t2[b] == r2[b + 1]);
        }
        lemma_sorted_nums_equal(t1, t2);
        assert(r1 =~= r2) by {
            assert forall|x: int| 0 <= x < r1.len() implies r1[x] == r2[x] by {
                if x > 0 {
                    assert(r1[x] == t1[x - 1]);
                    assert(r2[x] == t2[x - 1]);
                }
            }
        }
    }
}

/// The keys of `r`, in order.
pub open spec fn nums_of<T: NumKeyed>(r: Seq<T>) -> Seq<u128> {
    r.map_values(|x: T| x.nkey())
}

/// Only one sequence holds the first entry per key in key order.
pub proof fn lemma_first_per_num_unique<T: NumKeyed>(s: Seq<T>, r1: Seq<T>, r2: Seq<T>)
    requires
        first_per_num_sorted(s, r1),
        first_per_num_sorted(s, r2),
    ensures
        r1 == r2,
{
    let k1 = nums_of(r1);
    let k2 = nums_of(r2);
    assert forall|i: int, j: int| 0 <= i < j < k1.len() implies #[trigger] k1[i] < #[trigger] k1[j] by {
        assert(k1[i] == r1[i].nkey() && k1[j] == r1[j].nkey());
    }
    assert forall|i: int, j: int| 0 <= i < j < k2.len() implies #[trigger] k2[i] < #[trigger] k2[j] by {
        assert(k2[i] == r2[i].nkey() && k2[j] == r2[j].nkey());
    }
    assert forall|x: u128| k1.contains(x) <==> k2.contains(x) by {
        if k1.contains(x) {
            let a = choose|a: int| 0 <= a < k1.len() && k1[a] == x;
            assert(r1[a].nkey() == x);
            assert(has_num(r1, x));
            assert(has_num(r2, x));
            let b = choose|b: int| 0 <= b < r2.len() && #[trigger] r2[b].nkey() == x;
            assert(k2[b] == x);
        }
        if k2.contains(x) {
            let a = choose|a: int| 0 <= a < k2.len() && k2[a] == x;
            assert(r2[a].nkey() == x);
            assert(has_num(r2, x));
            assert(has_num(r1, x));
            let b = choose|b: int| 0 <= b < r1.len() && #[trigger] r1[b].nkey() == x;
            assert(k1[b] == x);
        }
    }
    lemma_sorted_nums_equal(k1, k2);
    assert(r1.len() == k1.len() && r2.len() == k2.len());
    assert(r1 =~= r2) by {
        assert forall|x: int| 0 <= x < r1.len() implies r1[x] == r2[x] by {
            assert(k1[x] == k2[x]);
            assert(k1[x] == r1[x].nkey() && k2[x] == r2[x].nkey());
            assert(first_with_num(s, r1[x]));
            assert(first_with_num(s, r2[x]));
            let i = choose|i: int|
                0 <= i < s.len() && s[i] == r1[x] && forall|j: int| 0 <= j < i ==> #[trigger] s[j].nkey() != r1[x].nkey();
            let j = choose|j: int|
                0 <= j < s.len() && s[j] == r2[x] && forall|j2: int| 0 <= j2 < j ==> #[trigger] s[j2].nkey() != r2[x].nkey();
            if i < j {
                assert(s[i].nkey() != r2[x].nkey());
            } else if j < i {
                assert(s[j].nkey() != r1[x].nkey());
            }
        }
    }
}

/// Number of leading entries of the sorted `v` whose key is below `k`.
fn num_lower_bound<T: NumKeyed>(v: &Vec<T>, k: u128) -> (p: usize)
    requires
        forall|i: int, j: int| 0 <= i < j < v@.len() ==> #[trigger] v@[i].nkey() < #[trigger] v@[j].nkey(),
    ensures
        p <= v@.len(),
        forall|j: int| 0 <= j < p ==> #[trigger] v@[j].nkey() < k,
        forall|j: int| p <= j < v@.len() ==> #[trigger] v@[j].nkey() >= k,
{
    let mut lo: usize = 0;
    let mut hi: usize = v.len();
    while lo < hi
        invariant
            lo <= hi <= v@.len(),
            forall|i: int, j: int| 0 <= i < j < v@.len() ==> #[trigger] v@[i].nkey() < #[trigger] v@[j].nkey(),
            forall|j: int| 0 <= j < lo ==> #[trigger] v@[j].nkey() < k,
            forall|j: int| hi <= j < v@.len() ==> #[trigger] v@[j].nkey() >= k,
        decreases hi - lo,
    {
        let mid = lo + (hi - lo) / 2;
        if v[mid].num_key() < k {
            proof {
                assert forall|j: int| 0 <= j <= mid implies #[trigger] v@[j].nkey() < k by {
                    if j < mid {
                        assert(v@[j].nkey() < v@[mid as int].nkey());
                    }
                }
            }
            lo = mid + 1;
        } else {
            proof {
                assert forall|j: int| mid <= j < v@.len() implies #[trigger] v@[j].nkey() >= k by {
                    if j > mid {
                        assert(v@[mid as int].nkey() < v@[j].nkey());
                    }
                }
            }
            hi = mid;
        }
    }
    lo
}

proof fn lemma_first_per_num_step<T: NumKeyed>(pre: Seq<T>, out: Seq<T>, x: T, p: int)
    requires
        first_per_num_sorted(pre, out),
        0 <= p <= out.len(),
        forall|j: int| 0 <= j < p ==> #[trigger] out[j].nkey() < x.nkey(),
        forall|j: int| p <= j < out.len() ==> #[trigger] out[j].nkey() >= x.nkey(),
    ensures
        p < out.len() && out[p].nkey() == x.nkey() ==> first_per_num_sorted(pre.push(x), out),
        !(p < out.len() && out[p].nkey() == x.nkey()) ==> first_per_num_sorted(pre.push(x), out.insert(p, x)),
{
    let post = pre.push(x);
    let m = pre.len() as int;
    assert forall|j: int| 0 <= j < m implies post[j] == pre[j] by {}
    assert(post[m] == x);
    if p < out.len() && out[p].nkey() == x.nkey() {
        assert forall|k: u128| has_num(out, k) <==> has_num(post, k) by {
            if has_num(post, k) {
                let j = choose|j: int| 0 <= j < post.len() && #[trigger] post[j].nkey() == k;
                if j < m {
                    assert(pre[j].nkey() == k);
                    assert(has_num(pre, k));
                } else {
                    assert(out[p].nkey() == k);
                }
            }
            if has_num(out, k) {
                assert(has_num(pre, k));
                let j = choose|j: int| 0 <= j < pre.len() && #[trigger] pre[j].nkey() == k;
                assert(post[j].nkey() == k);
            }
        }
        assert forall|i: int| 0 <= i < out.len() implies first_with_num(post, #[trigger] out[i]) by {
            assert(first_with_num(pre, out[i]));
            let j = choose|j: int|
                0 <= j < pre.len() && pre[j] == out[i] && forall|j2: int| 0 <= j2 < j ==> #[trigger] pre[j2].nkey() != out[i].nkey();
            assert(post[j] == pre[j]);
            assert forall|j2: int| 0 <= j2 < j implies #[trigger] post[j2].nkey() != out[i].nkey() by {
                assert(post[j2] == pre[j2]);
            }
        }
    } else {
        let no = out.insert(p, x);
        assert forall|j: int| 0 <= j < p implies #[trigger] no[j] == out[j] by {}
        assert forall|j: int| p < j < no.len() implies #[trigger] no[j] == out[j - 1] by {}
        assert(no[p] == x);
        assert(!has_num(pre, x.nkey())) by {
            if has_num(pre, x.nkey()) {
                assert(has_num(out, x.nkey()));
                let i = choose|i: int| 0 <= i < out.len() && #[trigger] out[i].nkey() == x.nkey();
                if i < p {
                } else if i > p {
                    assert(out[p].nkey() < out[i].nkey());
                }
            }
        }
        assert forall|i: int, j: int| 0 <= i < j < no.len() implies #[trigger] no[i].nkey() < #[trigger] no[j].nkey() by {
            if j < p {
                assert(no[i] == out[i] && no[j] == out[j]);
            } else if j == p {
                assert(no[i] == out[i]);
            } else if i == p {
                assert(no[j] == out[j - 1]);
            } else if i < p {
                assert(no[i] == out[i]);
                assert(no[j] == out[j - 1]);
            } else {
                assert(no[i] == out[i - 1]);
                assert(no[j] == out[j - 1]);
            }
        }
        assert forall|k: u128| has_num(no, k) <==> has_num(post, k) by {
            if has_num(no, k) {
                let i = choose|i: int| 0 <= i < no.len() && #[trigger] no[i].nkey() == k;
                if i == p {
                    assert(post[m].nkey() == k);
                } else {
                    let io = if i < p { i } else { i - 1 };
                    assert(out[io].nkey() == k);
                    assert(has_num(pre, k));
                    let j = choose|j: int| 0 <= j < pre.len() && #[trigger] pre[j].nkey() == k;
                    assert(post[j].nkey() == k);
                }
            }
            if has_num(post, k) {
                let j = choose|j: int| 0 <= j < post.len() && #[trigger] post[j].nkey() == k;
                if j == m {
                    assert(no[p].nkey() == k);
                } else {
                    assert(pre[j].nkey() == k);
                    assert(has_num(out, k));
                    let i = choose|i: int| 0 <= i < out.len() && #[trigger] out[i].nkey() == k;
                    if i < p {
                        assert(no[i].nkey() == k);
                    } else {
                        assert(no[i + 1].nkey() == k);
                    }
                }
            }
        }
        assert forall|i: int| 0 <= i < no.len() implies first_with_num(post, #[trigger] no[i]) by {
            if i == p {
                assert forall|j2: int| 0 <= j2 < m implies #[trigger] post[j2].nkey() != x.nkey() by {
                    assert(post[j2] == pre[j2]);
                    if pre[j2].nkey() == x.nkey() {
                        assert(has_num(pre, x.nkey()));
                    }
                }
            } else {
                let io = if i < p { i } else { i - 1 };
                assert(no[i] == out[io]);
                assert(first_with_num(pre, out[io]));
                let j = choose|j: int|
                    0 <= j < pre.len() && pre[j] == out[io] && forall|j2: int|
                        0 <= j2 < j ==> #[trigger] pre[j2].nkey() != out[io].nkey();
                assert(post[j] == pre[j]);
                assert forall|j2: int| 0 <= j2 < j implies #[trigger] post[j2].nkey() != out[io].nkey() by {
                    assert(post[j2] == pre[j2]);
                }
            }
        }
    }
}

/// The first entry of `v` for each key, in increasing key order.
pub fn first_per_num<T: NumKeyed>(v: &Vec<T>) -> (r: Vec<T>)
    ensures
        first_per_num_sorted(v@, r@),
        r@ == by_num(v@),
{
    let mut out: Vec<T> = Vec::new();
    let mut i: usize = 0;
    proof {
        assert(v@.take(0) =~= Seq::<T>::empty());
    }
    while i < v.len()
        invariant
            i <= v@.len(),
            first_per_num_sorted(v@.take(i as int), out@),
        decreases v@.len() - i,
    {
        let x = v[i];
        let k = x.num_key();
        let p = num_lower_bound(&out, k);
        proof {
            assert(v@.take(i + 1) =~= v@.take(i as int).push(x));
            lemma_first_per_num_step(v@.take(i as int), out@, x, p as int);
        }
        if !(p < out.len() && out[p].num_key() == k) {
            out.insert(p, x);
        }
        i = i + 1;
    }
    proof {
        assert(v@.take(v@.len() as int) =~= v@);
        lemma_first_per_num_unique(v@, by_num(v@), out@);
    }
    out
}

/// Entries written at or after `t0`.
pub open spec fn written_since(t0: UtcTime) -> spec_fn(CompactedEntry) -> bool {
    |e: CompactedEntry| !e.last_modified.precedes(t0)
}


/// Union of a sweep's results with snapshot entries written at or after
/// `t0`: a sweep that raced new writes must not make them vanish from the
/// snapshot just because its listing pages predate them. For each ULID the
/// sweep's entry counts (its last one), else the first such snapshot entry;
/// the result is sorted by ULID.
pub fn graft_recent(swept: Vec<CompactedEntry>, snapshot: &[CompactedEntry], t0: UtcTime) -> (r: Vec<
    CompactedEntry,
>)
    ensures
        r@ == by_num(swept@.reverse() + snapshot@.filter(written_since(t0))),
        first_per_num_sorted(swept@.reverse() + snapshot@.filter(written_since(t0)), r@),
{
    let mut all: Vec<CompactedEntry> = Vec::new();
    let mut i: usize = swept.len();
    while i > 0
        invariant
            i <= swept@.len(),
            all@ == swept@.subrange(i as int, swept@.len() as int).reverse(),
        decreases i,
    {
        i = i - 1;
        all.push(swept[i]);
        assert(all@ =~= swept@.subrange(i as int, swept@.len() as int).reverse());
    }
    assert(swept@.subrange(0, swept@.len() as int) =~= swept@);
    let ghost head = all@;
    let mut j: usize = 0;
    while j < snapshot.len()
        invariant
            j <= snapshot@.len(),
            all@ == head + snapshot@.take(j as int).filter(written_since(t0)),
        decreases snapshot@.len() - j,
    {
        let e = snapshot[j];
        proof {
            assert(snapshot@.take(j + 1) =~= snapshot@.take(j as int).push(e));
            snapshot@.take(j as int).lemma_filter_push(e, written_since(t0));
        }
        if !e.last_modified.is_before(&t0) {
            all.push(e);
            assert(all@ =~= head + snapshot@.take(j + 1).filter(written_since(t0)));
        }
        j = j + 1;
    }
    assert(snapshot@.take(snapshot@.len() as int) =~= snapshot@);
    first_per_num(&all)
}

/// The snapshot after an incremental listing found `new` entries: both
/// lists, sorted by ULID, keeping the first entry for each ULID.
pub fn merge_additions(entries: &Vec<CompactedEntry>, new: &Vec<CompactedEntry>) -> (r: Vec<CompactedEntry>)
    ensures
        r@ == by_num(entries@ + new@),
        first_per_num_sorted(entries@ + new@, r@),
{
    let mut all: Vec<CompactedEntry> = Vec::new();
    let mut i: usize = 0;
    while i < entries.len()
        invariant
            i <= entries@.len(),
            all@ == entries@.take(i as int),
        decreases entries@.len() - i,
    {
        all.push(entries[i]);
        i = i + 1;
        assert(all@ =~= entries@.take(i as int));
    }
    let mut j: usize = 0;
    while j < new.len()
        invariant
            j <= new@.len(),
            all@ == entries@ + new@.take(j as int),
        decreases new@.len() - j,
    {
        proof {
            assert(entries@.take(entries@.len() as int) =~= entries@);
        }
        all.push(new[j]);
        j = j + 1;
        assert(all@ =~= entries@ + new@.take(j as int));
    }
    proof {
        assert(entries@.take(entries@.len() as int) =~= entries@);
        assert(new@.take(new@.len() as int) =~= new@);
        assert(all@ =~= entries@ + new@);
    }
    first_per_num(&all)
}


/// Between sweeps the compacted listing only grows, and a sweep settles
/// it. Merging an incremental listing `new` into `entries` (as
/// `merge_additions` does) keeps every ULID already listed, so a deletion
/// stays unseen, and adds every new one; grafting a sweep's `swept` listing
/// over the merged one (as `graft_recent` does) lists exactly the swept
/// ULIDs and those merged entries written since the sweep began at `t0`.
/// Both results are ascending by ULID, each ULID once.
pub proof fn lemma_compacted_refresh(
    entries: Seq<CompactedEntry>,
    new: Seq<CompactedEntry>,
    merged: Seq<CompactedEntry>,
    swept: Seq<CompactedEntry>,
    t0: UtcTime,
    settled: Seq<CompactedEntry>,
)
    requires
        first_per_num_sorted(entries + new, merged),
        first_per_num_sorted(swept.reverse() + merged.filter(written_since(t0)), settled),
    ensures
        forall|i: int, j: int| 0 <= i < j < merged.len() ==> #[trigger] merged[i].ulid < #[trigger] merged[j].ulid,
        forall|i: int, j: int| 0 <= i < j < settled.len() ==> #[trigger] settled[i].ulid < #[trigger] settled[j].ulid,
        forall|k: u128| has_num(merged, k) <==> has_num(entries, k) || has_num(new, k),
        forall|k: u128|
            has_num(settled, k) <==> has_num(swept, k) || exists|i: int|
                0 <= i < merged.len() && #[trigger] merged[i].ulid == k && !merged[i].last_modified.precedes(t0),
{
    let a = entries + new;
    assert forall|i: int, j: int| 0 <= i < j < merged.len() implies #[trigger] merged[i].ulid < #[trigger] merged[j].ulid by {
        assert(merged[i].nkey() < merged[j].nkey());
    }
    assert forall|i: int, j: int| 0 <= i < j < settled.len() implies #[trigger] settled[i].ulid < #[trigger] settled[j].ulid by {
        assert(settled[i].nkey() < settled[j].nkey());
    }
    assert forall|k: u128| has_num(merged, k) <==> has_num(entries, k) || has_num(new, k) by {
        if has_num(a, k) {
            let i = choose|i: int| 0 <= i < a.len() && #[trigger] a[i].nkey() == k;
            if i < entries.len() {
                assert(a[i] == entries[i]);
            } else {
                assert(a[i] == new[i - entries.len()]);
            }
        }
        if has_num(entries, k) {
            let i = choose|i: int| 0 <= i < entries.len() && #[trigger] entries[i].nkey() == k;
            assert(a[i] == entries[i]);
        }
        if has_num(new, k) {
            let i = choose|i: int| 0 <= i < new.len() && #[trigger] new[i].nkey() == k;
            assert(a[entries.len() + i] == new[i]);
        }
    }
    let young = merged.filter(written_since(t0));
    let b = swept.reverse() + young;
    merged.filter_lemma(written_since(t0));
    assert forall|k: u128|
        has_num(settled, k) <==> has_num(swept, k) || exists|i: int|
            0 <= i < merged.len() && #[trigger] merged[i].ulid == k && !merged[i].last_modified.precedes(t0) by {
        if has_num(b, k) {
            let i = choose|i: int| 0 <= i < b.len() && #[trigger] b[i].nkey() == k;
            if i < swept.len() {
                assert(b[i] == swept[swept.len() - 1 - i]);
                assert(swept[swept.len() - 1 - i].nkey() == k);
            } else {
                let y = young[i - swept.len()];
                assert(b[i] == y);
                assert(written_since(t0)(y));
                merged.lemma_filter_contains_rev(written_since(t0), y);
                let m = choose|m: int| 0 <= m < merged.len() && merged[m] == y;
                assert(merged[m].ulid == k);
            }
        }
        if has_num(swept, k) {
            let i = choose|i: int| 0 <= i < swept.len() && #[trigger] swept[i].nkey() == k;
            assert(b[swept.len() - 1 - i] == swept[i]);
        }
        if exists|i: int| 0 <= i < merged.len() && #[trigger] merged[i].ulid == k && !merged[i].last_modified.precedes(t0) {
            let i = choose|i: int|
                0 <= i < merged.len() && #[trigger] merged[i].ulid == k && !merged[i].last_modified.precedes(t0);
            assert(written_since(t0)(merged[i]));
            assert(young.contains(merged[i]));
            let y = choose|y: int| 0 <= y < young.len() && young[y] == merged[i];
            assert(b[swept.len() + y] == young[y]);
            assert(b[swept.len() + y].nkey() == k);
        }
    }
}

/// The Crockford base32 alphabet ULIDs are written in.
pub open spec fn ulid_alphabet() -> Seq<char> {
    "0123456789ABCDEFGHJKMNPQRSTVWXYZ"@
}

/// The first position of `c` in `a`, if it occurs there.
pub open spec fn position_of(a: Seq<char>, c: char) -> Option<nat>
    decreases a.len(),
{
    if a.len() == 0 {
        None
    } else if a[0] == c {
        Some(0)
    } else {
        match position_of(a.drop_first(), c) {
            Some(p) => Some(p + 1),
            None => None,
        }
    }
}

/// The value of a ULID character: its position in the alphabet, reading
/// an ASCII lowercase letter as its uppercase form.
pub open spec fn ulid_digit(c: char) -> Option<nat> {
    let u = if 'a' <= c <= 'z' { ((c as u32) - 32) as char } else { c };
    position_of(ulid_alphabet(), u)
}

/// The digits of `s` read as a base-32 number, keeping its low 128 bits
/// (each step shifts the value left by five bits in a `u128`).
pub open spec fn ulid_number(s: Seq<char>) -> nat
    decreases s.len(),
{
    if s.len() == 0 {
        0
    } else {
        match ulid_digit(s.last()) {
            Some(d) => (((ulid_number(s.drop_last()) * 32 + d) as int) % (u128::MAX as int + 1)) as nat,
            None => 0,
        }
    }
}

/// What `ulid::Ulid::from_string` makes of a text: the value of exactly 26
/// ULID characters, else none.
pub open spec fn ulid_parse(s: Seq<char>) -> Option<u128> {
    if s.len() == 26 && forall|i: int| 0 <= i < 26 ==> (#[trigger] ulid_digit(s[i])) is Some {
        Some(ulid_number(s) as u128)
    } else {
        None
    }
}

/// The last `n` base-32 digits of `v`, most significant first.
pub open spec fn ulid_chars(v: nat, n: nat) -> Seq<char>
    decreases n,
{
    if n == 0 {
        Seq::empty()
    } else {
        ulid_chars(v / 32, (n - 1) as nat).push(ulid_alphabet()[(v % 32) as int])
    }
}

/// The canonical text `ulid::Ulid` displays for a value: 26 uppercase
/// Crockford base32 digits, most significant first.
pub open spec fn ulid_text(v: u128) -> Seq<char> {
    ulid_chars(v as nat, 26)
}

/// `ulid::Ulid::from_string`: decodes 26 Crockford base32 characters (an
/// ASCII letter in either case) into a `u128`, shifting in five bits per
/// character; any other length or character is refused.
#[verifier::external_body]
pub(crate) fn ulid_from_text(s: &str) -> (r: Option<u128>)
    ensures
        r == ulid_parse(s@),
{
    ulid::Ulid::from_string(s).ok().map(|u| u.0)
}

/// `ulid::Ulid`'s `Display`: the value's 26 Crockford base32 digits, most
/// significant first, in the crate's uppercase alphabet.
#[verifier::external_body]
pub(crate) fn ulid_string(v: u128) -> (r: String)
    ensures
        r@ == ulid_text(v),
{
    ulid::Ulid(v).to_string()
}

/// `s` without the suffix `suffix`, when it ends with it.
pub open spec fn strip_suffix(s: Seq<char>, suffix: Seq<char>) -> Option<Seq<char>> {
    if s.len() >= suffix.len() && s.skip(s.len() - suffix.len()) == suffix {
        Some(s.take(s.len() - suffix.len()))
    } else {
        None
    }
}

/// Every character of `d` is an ASCII digit.
pub open spec fn all_digits(d: Seq<char>) -> bool {
    forall|i: int| 0 <= i < d.len() ==> is_digit(#[trigger] d[i])
}

/// The value of a decimal text as `u64::from_str` reads it: an optional
/// '+', then one or more ASCII digits, within range.
pub open spec fn u64_of_text(s: Seq<char>) -> Option<u64> {
    let d = if s.len() > 0 && s[0] == '+' {
        s.drop_first()
    } else {
        s
    };
    if d.len() > 0 && all_digits(d) && digits_value(d) <= u64::MAX {
        Some(digits_value(d) as u64)
    } else {
        None
    }
}

/// `s` without `suffix`, when it ends with it.
fn strip_suffix_text(s: &Vec<char>, suffix: &str) -> (r: Option<Vec<char>>)
    ensures
        match r {
            Some(v) => strip_suffix(s@, suffix@) == Some(v@),
            None => strip_suffix(s@, suffix@) is None,
        },
{
    let suf = chars_of(suffix);
    if s.len() < suf.len() {
        return None;
    }
    let n = s.len();
    let off = n - suf.len();
    let mut i: usize = 0;
    while i < suf.len()
        invariant
            i <= suf@.len(),
            n == s@.len(),
            off + suf@.len() == n,
            suf@ == suffix@,
            forall|j: int| 0 <= j < i ==> s@[off + j] == suf@[j],
        decreases suf@.len() - i,
    {
        if s[off + i] != suf[i] {
            proof {
                assert(s@.skip(off as int)[i as int] != suf@[i as int]);
            }
            return None;
        }
        i = i + 1;
    }
    assert(s@.skip(off as int) =~= suf@);
    let mut out: Vec<char> = Vec::new();
    let mut k: usize = 0;
    while k < off
        invariant
            k <= off <= s@.len(),
            out@ == s@.take(k as int),
        decreases off - k,
    {
        out.push(s[k]);
        k = k + 1;
        assert(out@ =~= s@.take(k as int));
    }
    Some(out)
}

/// `u64::from_str` on the characters `s`.
pub fn parse_u64(s: &Vec<char>) -> (r: Option<u64>)
    ensures
        r == u64_of_text(s@),
{
    let start: usize = if s.len() > 0 && s[0] == '+' {
        1
    } else {
        0
    };
    let ghost d = if s@.len() > 0 && s@[0] == '+' {
        s@.drop_first()
    } else {
        s@
    };
    assert(d =~= s@.skip(start as int));
    if start >= s.len() {
        return None;
    }
    let mut n: u64 = 0;
    let mut k: usize = start;
    while k < s.len()
        invariant
            start <= k <= s@.len(),
            d == s@.skip(start as int),
            d == (if s@.len() > 0 && s@[0] == '+' {
                s@.drop_first()
            } else {
                s@
            }),
            d.len() > 0,
            forall|i: int| 0 <= i < k - start ==> is_digit(#[trigger] d[i]),
            n == digits_value(d.take(k - start)),
        decreases s@.len() - k,
    {
        let c = s[k];
        if !('0' <= c && c <= '9') {
            proof {
                assert(d[k - start] == s@[k as int]);
                assert(!is_digit(d[k - start]));
                assert(!all_digits(d));
                assert(u64_of_text(s@) is None);
            }
            return None;
        }
        let digit = (c as u32 - '0' as u32) as u64;
        proof {
            assert(d.take(k - start + 1).drop_last() =~= d.take(k - start));
            assert(d.take(k - start + 1).last() == d[k - start]);
            assert(digits_value(d.take(k - start + 1)) == n * 10 + digit);
        }
        let next = match n.checked_mul(10) {
            None => None,
            Some(m) => m.checked_add(digit),
        };
        match next {
            None => {
                proof {
                    lemma_digits_value_grows(d, k - start + 1, d.len() as int);
                    assert(d.take(d.len() as int) =~= d);
                    assert(digits_value(d) > u64::MAX);
                    assert(u64_of_text(s@) is None);
                }
                return None;
            },
            Some(v) => {
                n = v;
            },
        }
        k = k + 1;
    }
    assert(d.take(d.len() as int) =~= d);
    Some(n)
}

proof fn lemma_digits_value_grows(t: Seq<char>, k: int, d: int)
    requires
        0 <= k <= d <= t.len(),
    ensures
        digits_value(t.take(k)) <= digits_value(t.take(d)),
    decreases d - k,
{
    if k < d {
        lemma_digits_value_grows(t, k, d - 1);
        assert(t.take(d).drop_last() =~= t.take(d - 1));
    }
}

/// The id of a manifest file named "<u64>.manifest".
pub fn manifest_id_from_name(name: &str) -> (r: Option<u64>)
    ensures
        r == match strip_suffix(name@, ".manifest"@) {
            Some(stem) => u64_of_text(stem),
            None => None,
        },
{
    let cs = chars_of(name);
    match strip_suffix_text(&cs, ".manifest") {
        Some(stem) => parse_u64(&stem),
        None => None,
    }
}

/// The id of a WAL SST file named "<u64>.sst".
pub fn wal_id_from_name(name: &str) -> (r: Option<u64>)
    ensures
        r == match strip_suffix(name@, ".sst"@) {
            Some(stem) => u64_of_text(stem),
            None => None,
        },
{
    let cs = chars_of(name);
    match strip_suffix_text(&cs, ".sst") {
        Some(stem) => parse_u64(&stem),
        None => None,
    }
}

/// The ULID of a compacted SST file named "<ulid>.sst".
pub fn compacted_ulid_from_name(name: &str) -> (r: Option<u128>)
    ensures
        r == match strip_suffix(name@, ".sst"@) {
            Some(stem) => ulid_parse(stem),
            None => None,
        },
{
    let cs = chars_of(name);
    match strip_suffix_text(&cs, ".sst") {
        Some(stem) => {
            let text = string_from(&stem);
            ulid_from_text(text.as_str())
        },
        None => None,
    }
}


/// Keys never decrease along `r`.
pub open spec fn sorted_by_num<T: NumKeyed>(r: Seq<T>) -> bool {
    forall|i: int, j: int| 0 <= i < j < r.len() ==> #[trigger] r[i].nkey() <= #[trigger] r[j].nkey()
}

/// Entries with key `k`.
pub open spec fn keyed_num<T: NumKeyed>(k: u128) -> spec_fn(T) -> bool {
    |x: T| x.nkey() == k
}

/// `r` is `s` sorted by key, entries with equal keys in their order in `s`.
pub open spec fn stable_sorted<T: NumKeyed>(s: Seq<T>, r: Seq<T>) -> bool {
    &&& sorted_by_num(r)
    &&& forall|k: u128| #[trigger] r.filter(keyed_num(k)) == s.filter(keyed_num(k))
}

proof fn lemma_filter_all_fail<T>(s: Seq<T>, p: spec_fn(T) -> bool)
    requires
        forall|i: int| 0 <= i < s.len() ==> !#[trigger] p(s[i]),
    ensures
        s.filter(p) == Seq::<T>::empty(),
    decreases s.len(),
{
    reveal(Seq::filter);
    if s.len() > 0 {
        let t = s.drop_last();
        assert forall|i: int| 0 <= i < t.len() implies !#[trigger] p(t[i]) by {
            assert(t[i] == s[i]);
        }
        lemma_filter_all_fail(t, p);
        assert(!p(s[s.len() - 1]));
    } else {
        assert(s =~= Seq::<T>::empty());
    }
}

proof fn lemma_stable_insert<T: NumKeyed>(pre: Seq<T>, out: Seq<T>, x: T, p: int)
    requires
        stable_sorted(pre, out),
        0 <= p <= out.len(),
        forall|j: int| 0 <= j < p ==> #[trigger] out[j].nkey() <= x.nkey(),
        forall|j: int| p <= j < out.len() ==> #[trigger] out[j].nkey() > x.nkey(),
    ensures
        stable_sorted(pre.push(x), out.insert(p, x)),
{
    let no = out.insert(p, x);
    let a = out.take(p);
    let b = out.skip(p);
    assert(out =~= a + b);
    assert(no =~= a + seq![x] + b);
    assert forall|i: int, j: int| 0 <= i < j < no.len() implies #[trigger] no[i].nkey() <= #[trigger] no[j].nkey() by {
        if j < p {
            assert(no[i] == out[i] && no[j] == out[j]);
        } else if j == p {
            assert(no[i] == out[i]);
        } else if i == p {
            assert(no[j] == out[j - 1]);
        } else if i < p {
            assert(no[i] == out[i]);
            assert(no[j] == out[j - 1]);
        } else {
            assert(no[i] == out[i - 1]);
            assert(no[j] == out[j - 1]);
        }
    }
    assert forall|k: u128| #[trigger] no.filter(keyed_num(k)) == pre.push(x).filter(keyed_num(k)) by {
        let f = keyed_num::<T>(k);
        Seq::filter_distributes_over_add(a + seq![x], b, f);
        Seq::filter_distributes_over_add(a, seq![x], f);
        Seq::filter_distributes_over_add(a, b, f);
        pre.lemma_filter_push(x, f);
        assert(seq![x] =~= Seq::<T>::empty().push(x));
        Seq::<T>::empty().lemma_filter_push(x, f);
        assert(Seq::<T>::empty().filter(f) =~= Seq::<T>::empty()) by {
            reveal(Seq::filter);
        }
        if k == x.nkey() {
            assert forall|i: int| 0 <= i < b.len() implies !#[trigger] f(b[i]) by {
                assert(b[i] == out[p + i]);
            }
            lemma_filter_all_fail(b, f);
            assert(no.filter(f) =~= a.filter(f) + seq![x]);
            assert(out.filter(f) =~= a.filter(f));
        } else {
            assert(seq![x].filter(f) =~= Seq::<T>::empty());
            assert(no.filter(f) =~= a.filter(f) + b.filter(f));
        }
    }
}

/// `v` sorted by key; entries with equal keys keep their order.
pub fn sort_by_num<T: NumKeyed>(v: &Vec<T>) -> (r: Vec<T>)
    ensures
        stable_sorted(v@, r@),
{
    let mut out: Vec<T> = Vec::new();
    let mut i: usize = 0;
    proof {
        assert(v@.take(0) =~= Seq::<T>::empty());
        assert forall|k: u128| #[trigger] out@.filter(keyed_num(k)) == v@.take(0).filter(keyed_num(k)) by {
            assert(out@ =~= v@.take(0));
        }
    }
    while i < v.len()
        invariant
            i <= v@.len(),
            stable_sorted(v@.take(i as int), out@),
        decreases v@.len() - i,
    {
        let x = v[i];
        let k = x.num_key();
        let mut p: usize = out.len();
        while p > 0 && out[p - 1].num_key() > k
            invariant
                p <= out@.len(),
                sorted_by_num(out@),
                forall|j: int| p <= j < out@.len() ==> #[trigger] out@[j].nkey() > k,
            decreases p,
        {
            p = p - 1;
        }
        proof {
            assert forall|j: int| 0 <= j < p implies #[trigger] out@[j].nkey() <= k by {
                if out@[j].nkey() > k {
                    assert(out@[j].nkey() <= out@[p - 1].nkey());
                }
            }
            assert(v@.take(i + 1) =~= v@.take(i as int).push(x));
            lemma_stable_insert(v@.take(i as int), out@, x, p as int);
        }
        out.insert(p, x);
        i = i + 1;
    }
    assert(v@.take(v@.len() as int) =~= v@);
    out
}

} // verus!
