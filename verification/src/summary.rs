//! Aggregation for the summary-first LSM view: per-level rollups plus a
//! bucketed key-coverage histogram, so the payload stays
//! O(levels × buckets) however many SSTs the tree holds.

use vstd::prelude::*;
use crate::dto::{Dup, KeyDto, SstViewDto, SortedRunDto, TreeDto, LevelSummaryDto, ManifestDto, SegmentDto,
    SegmentMetaDto, LsmSummaryDto, dup_ssts, dup_opt_string};
use crate::order::{first_per_key, first_per_key_sorted, distinct_by_key, lemma_distinct_by_key,
    strictly_sorted, lower_bound, StrKeyed, has_key};
use crate::text::{seq_lt, dec, push_dec, string_from, str_lt, lemma_seq_lt_irreflexive, lemma_seq_lt_transitive,
    lemma_seq_lt_trichotomy};

verus! {

/// Levels at or below this SST count ship per-SST detail.
pub const DETAIL_CAP: usize = 64;

/// Key-space buckets in each coverage histogram.
pub const BUCKETS: usize = 96;

/// Boundary keys are sampled down to this many before ranking.
pub const MAX_BOUNDARY_SAMPLE: usize = 8192;

/// The key of an optional key, as a sequence of zero or one keys.
pub open spec fn opt_key_seq(k: Option<KeyDto>) -> Seq<KeyDto> {
    match k {
        Some(x) => seq![x],
        None => Seq::empty(),
    }
}

/// An SST's boundary keys: its first key, then its last key.
pub open spec fn sst_keys(s: SstViewDto) -> Seq<KeyDto> {
    opt_key_seq(s.first_key) + opt_key_seq(s.last_key)
}

/// Boundary keys of a list of SSTs, in list order.
pub open spec fn ssts_keys(ss: Seq<SstViewDto>) -> Seq<KeyDto>
    decreases ss.len(),
{
    if ss.len() == 0 {
        Seq::empty()
    } else {
        ssts_keys(ss.drop_last()) + sst_keys(ss.last())
    }
}

/// The SST lists of a tree's levels: L0, then each sorted run in order.
pub open spec fn level_ssts(t: TreeDto) -> Seq<Seq<SstViewDto>> {
    seq![t.l0@] + t.runs@.map_values(|r: SortedRunDto| r.ssts@)
}

/// Boundary keys of a list of levels, level by level.
pub open spec fn levels_keys(ls: Seq<Seq<SstViewDto>>) -> Seq<KeyDto>
    decreases ls.len(),
{
    if ls.len() == 0 {
        Seq::empty()
    } else {
        levels_keys(ls.drop_last()) + ssts_keys(ls.last())
    }
}

/// The boundary kept at sample position `i` of `n` boundaries.
pub open spec fn sample_index(i: int, n: int) -> int {
    i * (n - 1) / (MAX_BOUNDARY_SAMPLE as int - 1)
}

/// Boundaries sampled down to `MAX_BOUNDARY_SAMPLE` evenly spaced ranks
/// when there are more of them.
pub open spec fn sample_boundaries(d: Seq<KeyDto>) -> Seq<KeyDto> {
    if d.len() > MAX_BOUNDARY_SAMPLE {
        Seq::new(
            MAX_BOUNDARY_SAMPLE as nat,
            |i: int| d[sample_index(i, d.len() as int)],
        )
    } else {
        d
    }
}

/// The tree's distinct boundary keys in key order (the first occurrence of
/// each), sampled.
pub open spec fn tree_boundaries(t: TreeDto) -> Seq<KeyDto> {
    sample_boundaries(distinct_by_key(levels_keys(level_ssts(t))))
}

/// How many boundaries have a key below `k`.
pub open spec fn count_below(b: Seq<KeyDto>, k: Seq<char>) -> nat
    decreases b.len(),
{
    if b.len() == 0 {
        0
    } else {
        count_below(b.drop_last(), k) + (if seq_lt(b.last().hex@, k) { 1nat } else { 0nat })
    }
}

/// The rank of key `k` among the boundaries: how many lie below it,
/// capped at the last rank.
pub open spec fn rank(b: Seq<KeyDto>, k: Seq<char>) -> nat {
    let c = count_below(b, k);
    if b.len() == 0 {
        0
    } else if c >= b.len() - 1 {
        (b.len() - 1) as nat
    } else {
        c
    }
}

/// The ranks an SST spans (start, end), when it has both keys.
pub open spec fn sst_span(b: Seq<KeyDto>, s: SstViewDto) -> Option<(usize, usize)> {
    match (s.first_key, s.last_key) {
        (Some(f), Some(l)) => {
            let r0 = rank(b, f.hex@);
            let r1 = rank(b, l.hex@);
            Some((r0 as usize, (if r1 >= r0 { r1 } else { r0 }) as usize))
        },
        _ => None,
    }
}

pub open spec fn spans(b: Seq<KeyDto>, ss: Seq<SstViewDto>) -> Seq<Option<(usize, usize)>> {
    ss.map_values(|s: SstViewDto| sst_span(b, s))
}

/// How many spans start at or before rank `i`.
pub open spec fn cnt_start_le(sp: Seq<Option<(usize, usize)>>, i: int) -> nat
    decreases sp.len(),
{
    if sp.len() == 0 {
        0
    } else {
        cnt_start_le(sp.drop_last(), i) + match sp.last() {
            Some((a, _b)) => if a <= i { 1nat } else { 0nat },
            None => 0nat,
        }
    }
}

/// How many spans end at or before rank `i`.
pub open spec fn cnt_end_le(sp: Seq<Option<(usize, usize)>>, i: int) -> nat
    decreases sp.len(),
{
    if sp.len() == 0 {
        0
    } else {
        cnt_end_le(sp.drop_last(), i) + match sp.last() {
            Some((_a, b)) => if b <= i { 1nat } else { 0nat },
            None => 0nat,
        }
    }
}

/// SSTs containing boundary `i`: started at or before it, not ended before it.
pub open spec fn depth_at(sp: Seq<Option<(usize, usize)>>, i: int) -> int {
    cnt_start_le(sp, i) - cnt_end_le(sp, i - 1)
}

/// SSTs spanning the open gap after boundary `i`.
pub open spec fn gap_after(sp: Seq<Option<(usize, usize)>>, i: int) -> int {
    cnt_start_le(sp, i) - cnt_end_le(sp, i)
}

/// The histogram bucket of rank `i` among `n` boundaries: ⌊i·buckets/(n−1)⌋,
/// capped at the last bucket, computed exactly in integers. Evaluating
/// i/(n−1)·buckets in floating point instead can round across a bucket
/// edge for some bucket counts (with 22 buckets and 23 boundaries, rank 15
/// falls in bucket 15 here and in bucket 14 through `f64`); for the bucket
/// counts the summaries use (`BUCKETS`, and 8, 10 or 12) with at most
/// `MAX_BOUNDARY_SAMPLE` boundaries the two agree.
pub open spec fn bucket_of(n: int, buckets: int, i: int) -> int {
    if n <= 1 {
        0
    } else {
        let q = i * buckets / (n - 1);
        if q > buckets - 1 { buckets - 1 } else { q }
    }
}

/// What boundary `i` contributes to bucket `c`: its depth when it falls in
/// the bucket, and the depth of the gap after it when that gap overlaps
/// the bucket.
pub open spec fn weight(sp: Seq<Option<(usize, usize)>>, n: int, buckets: int, i: int, c: int) -> int {
    let d = if bucket_of(n, buckets, i) == c { depth_at(sp, i) } else { 0 };
    let g = if gap_after(sp, i) > 0 && i + 1 < n && bucket_of(n, buckets, i) <= c <= bucket_of(n, buckets, i + 1) {
        gap_after(sp, i)
    } else {
        0
    };
    if d >= g { d } else { g }
}

/// The largest weight to bucket `c` from boundaries `0..k`.
pub open spec fn max_weight(sp: Seq<Option<(usize, usize)>>, n: int, buckets: int, k: int, c: int) -> int
    decreases k,
{
    if k <= 0 {
        0
    } else {
        let m = max_weight(sp, n, buckets, k - 1, c);
        let x = weight(sp, n, buckets, k - 1, c);
        if m >= x { m } else { x }
    }
}

/// A level's coverage histogram: per bucket, the most SSTs a read at any
/// key in the bucket must consult.
pub open spec fn coverage_of(b: Seq<KeyDto>, ss: Seq<SstViewDto>, buckets: int) -> Seq<u32> {
    Seq::new(buckets as nat, |c: int| max_weight(spans(b, ss), b.len() as int, buckets, b.len() as int, c) as u32)
}

/// Bucket edge keys, at evenly spaced ranks; empty with no boundaries.
pub open spec fn edge_keys(b: Seq<KeyDto>, buckets: int) -> Seq<KeyDto> {
    if b.len() == 0 {
        Seq::empty()
    } else {
        Seq::new((buckets + 1) as nat, |i: int| b[i * (b.len() - 1) / buckets])
    }
}

/// Appends the boundary keys of `ss` to `out`.
fn push_ssts_keys(out: &mut Vec<KeyDto>, ss: &Vec<SstViewDto>)
    ensures
        final(out)@ == old(out)@ + ssts_keys(ss@),
{
    let mut i: usize = 0;
    while i < ss.len()
        invariant
            i <= ss.len(),
            out@ == old(out)@ + ssts_keys(ss@.take(i as int)),
        decreases ss.len() - i,
    {
        let ghost before = out@;
        let s = &ss[i];
        match &s.first_key {
            Some(k) => out.push(k.dup()),
            None => {},
        }
        match &s.last_key {
            Some(k) => out.push(k.dup()),
            None => {},
        }
        proof {
            assert(ss@.take(i + 1).drop_last() =~= ss@.take(i as int));
            assert(ss@.take(i + 1).last() == ss@[i as int]);
            assert(out@ =~= before + sst_keys(ss@[i as int]));
        }
        i = i + 1;
    }
    assert(ss@.take(ss.len() as int) =~= ss@);
}

/// All boundary keys of the tree, level by level.
fn collect_keys(tree: &TreeDto) -> (r: Vec<KeyDto>)
    ensures
        r@ == levels_keys(level_ssts(*tree)),
{
    let ghost ls = level_ssts(*tree);
    let mut out: Vec<KeyDto> = Vec::new();
    push_ssts_keys(&mut out, &tree.l0);
    proof {
        assert(ls.take(1).drop_last() =~= Seq::<Seq<SstViewDto>>::empty());
        assert(levels_keys(ls.take(1).drop_last()) =~= Seq::<KeyDto>::empty());
        assert(ls[0] == tree.l0@);
        assert(ls.take(1).last() == tree.l0@);
        assert(out@ =~= levels_keys(ls.take(1)));
    }
    let mut j: usize = 0;
    while j < tree.runs.len()
        invariant
            j <= tree.runs.len(),
            ls == level_ssts(*tree),
            ls.len() == tree.runs.len() + 1,
            out@ == levels_keys(ls.take(j + 1)),
        decreases tree.runs.len() - j,
    {
        push_ssts_keys(&mut out, &tree.runs[j].ssts);
        proof {
            assert(ls.take(j + 2).drop_last() =~= ls.take(j + 1));
            assert(ls.take(j + 2).last() == ls[j + 1]);
            assert(ls[j + 1] == tree.runs@[j as int].ssts@);
        }
        j = j + 1;
    }
    assert(ls.take(tree.runs.len() + 1) =~= ls);
    out
}

proof fn lemma_sample_index(i: int, n: int)
    requires
        0 <= i < MAX_BOUNDARY_SAMPLE,
        n > MAX_BOUNDARY_SAMPLE,
    ensures
        0 <= sample_index(i, n) < n,
        i + 1 < MAX_BOUNDARY_SAMPLE ==> sample_index(i, n) < sample_index(i + 1, n),
{
    let d = (MAX_BOUNDARY_SAMPLE - 1) as int;
    assert(0 <= i * (n - 1)) by (nonlinear_arith)
        requires 0 <= i, n > 1;
    assert(i * (n - 1) <= d * (n - 1)) by (nonlinear_arith)
        requires 0 <= i < d + 1, i <= d, n > 1;
    assert(i * (n - 1) / d <= d * (n - 1) / d) by (nonlinear_arith)
        requires i * (n - 1) <= d * (n - 1), d > 0;
    assert(d * (n - 1) / d == n - 1) by (nonlinear_arith)
        requires d > 0;
    assert(0 <= i * (n - 1) / d) by (nonlinear_arith)
        requires 0 <= i * (n - 1), d > 0;
    if i + 1 < MAX_BOUNDARY_SAMPLE {
        assert((i + 1) * (n - 1) == i * (n - 1) + (n - 1)) by (nonlinear_arith);
        assert(n - 1 >= d);
        assert(i * (n - 1) / d < (i * (n - 1) + (n - 1)) / d) by (nonlinear_arith)
            requires n - 1 >= d, d > 0, i * (n - 1) >= 0;
    }
}

/// The boundaries, sampled down to `MAX_BOUNDARY_SAMPLE` when there are
/// more of them.
fn sample(d: Vec<KeyDto>) -> (r: Vec<KeyDto>)
    requires
        strictly_sorted(d@),
    ensures
        r@ == sample_boundaries(d@),
        strictly_sorted(r@),
        r@.len() <= MAX_BOUNDARY_SAMPLE,
        r@.len() == 0 <==> d@.len() == 0,
{
    let n = d.len();
    if n <= MAX_BOUNDARY_SAMPLE {
        return d;
    }
    let mut out: Vec<KeyDto> = Vec::new();
    let mut i: usize = 0;
    while i < MAX_BOUNDARY_SAMPLE
        invariant
            i <= MAX_BOUNDARY_SAMPLE,
            n == d@.len(),
            n > MAX_BOUNDARY_SAMPLE,
            out@.len() == i,
            forall|k: int| 0 <= k < i ==> #[trigger] out@[k] == d@[sample_index(k, n as int)],
        decreases MAX_BOUNDARY_SAMPLE - i,
    {
        proof {
            lemma_sample_index(i as int, n as int);
        }
        let idx: usize = ((i as u128) * ((n - 1) as u128) / ((MAX_BOUNDARY_SAMPLE - 1) as u128)) as usize;
        assert(idx as int == sample_index(i as int, n as int));
        out.push(d[idx].dup());
        i = i + 1;
    }
    proof {
        assert(out@ =~= sample_boundaries(d@));
        assert forall|a: int, b: int| 0 <= a < b < out@.len() implies seq_lt(#[trigger] out@[a].skey(), #[trigger] out@[b].skey()) by {
            let ia = sample_index(a, n as int);
            let ib = sample_index(b, n as int);
            lemma_sample_index(a, n as int);
            lemma_sample_index(b, n as int);
            assert(ia < ib) by {
                assert((MAX_BOUNDARY_SAMPLE - 1) as int > 0);
                assert(a * (n - 1) <= (b - 1) * (n - 1)) by (nonlinear_arith)
                    requires a <= b - 1, n > 1;
                vstd::arithmetic::div_mod::lemma_div_is_ordered(a * (n - 1), (b - 1) * (n - 1), (MAX_BOUNDARY_SAMPLE - 1) as int);
                lemma_sample_index(b - 1, n as int);
            }
        }
    }
    out
}

proof fn lemma_count_below_partition(b: Seq<KeyDto>, k: Seq<char>, p: int)
    requires
        0 <= p <= b.len(),
        forall|j: int| 0 <= j < p ==> seq_lt(#[trigger] b[j].hex@, k),
        forall|j: int| p <= j < b.len() ==> !seq_lt(#[trigger] b[j].hex@, k),
    ensures
        count_below(b, k) == p,
    decreases b.len(),
{
    if b.len() > 0 {
        let t = b.drop_last();
        if p == b.len() {
            assert forall|j: int| 0 <= j < p - 1 implies seq_lt(#[trigger] t[j].hex@, k) by {
                assert(t[j] == b[j]);
            }
            lemma_count_below_partition(t, k, p - 1);
            assert(seq_lt(b.last().hex@, k));
        } else {
            assert forall|j: int| 0 <= j < p implies seq_lt(#[trigger] t[j].hex@, k) by {
                assert(t[j] == b[j]);
            }
            assert forall|j: int| p <= j < t.len() implies !seq_lt(#[trigger] t[j].hex@, k) by {
                assert(t[j] == b[j]);
            }
            lemma_count_below_partition(t, k, p);
            assert(!seq_lt(b[b.len() - 1].hex@, k));
        }
    }
}

/// The rank of key `k` among the sorted boundaries `b`.
fn rank_of(b: &Vec<KeyDto>, k: &str) -> (r: usize)
    requires
        strictly_sorted(b@),
        b@.len() > 0,
    ensures
        r == rank(b@, k@),
        r < b@.len(),
{
    let p = lower_bound(b, k);
    proof {
        assert forall|j: int| 0 <= j < p implies seq_lt(#[trigger] b@[j].hex@, k@) by {
            assert(b@[j].skey() == b@[j].hex@);
        }
        assert forall|j: int| p <= j < b@.len() implies !seq_lt(#[trigger] b@[j].hex@, k@) by {
            assert(b@[j].skey() == b@[j].hex@);
        }
        lemma_count_below_partition(b@, k@, p as int);
    }
    let n = b.len();
    if p >= n - 1 {
        n - 1
    } else {
        p
    }
}

/// The rank span of each SST.
fn spans_of(b: &Vec<KeyDto>, ss: &Vec<SstViewDto>) -> (r: Vec<Option<(usize, usize)>>)
    requires
        strictly_sorted(b@),
        b@.len() > 0 || forall|j: int| 0 <= j < ss@.len() ==> (#[trigger] ss@[j]).first_key is None,
    ensures
        r@ == spans(b@, ss@),
        forall|j: int| 0 <= j < r@.len() ==> match #[trigger] r@[j] {
            Some((x, y)) => x <= y < b@.len(),
            None => true,
        },
{
    let mut out: Vec<Option<(usize, usize)>> = Vec::new();
    let mut i: usize = 0;
    while i < ss.len()
        invariant
            i <= ss.len(),
            strictly_sorted(b@),
            b@.len() > 0 || forall|j: int| 0 <= j < ss@.len() ==> (#[trigger] ss@[j]).first_key is None,
            out@ == spans(b@, ss@.take(i as int)),
            forall|j: int| 0 <= j < out@.len() ==> match #[trigger] out@[j] {
                Some((x, y)) => x <= y < b@.len(),
                None => true,
            },
        decreases ss.len() - i,
    {
        let s = &ss[i];
        let span = match (&s.first_key, &s.last_key) {
            (Some(f), Some(l)) => {
                let r0 = rank_of(b, f.hex.as_str());
                let r1 = rank_of(b, l.hex.as_str());
                Some((r0, if r1 >= r0 { r1 } else { r0 }))
            },
            _ => None,
        };
        assert(span == sst_span(b@, ss@[i as int]));
        out.push(span);
        i = i + 1;
        assert(out@ =~= spans(b@, ss@.take(i as int)));
    }
    assert(ss@.take(ss.len() as int) =~= ss@);
    out
}

/// How many spans start exactly at rank `r`.
pub open spec fn cnt_start_eq(sp: Seq<Option<(usize, usize)>>, r: int) -> nat
    decreases sp.len(),
{
    if sp.len() == 0 {
        0
    } else {
        cnt_start_eq(sp.drop_last(), r) + match sp.last() {
            Some((a, _b)) => if a == r { 1nat } else { 0nat },
            None => 0nat,
        }
    }
}

/// How many spans end exactly at rank `r`.
pub open spec fn cnt_end_eq(sp: Seq<Option<(usize, usize)>>, r: int) -> nat
    decreases sp.len(),
{
    if sp.len() == 0 {
        0
    } else {
        cnt_end_eq(sp.drop_last(), r) + match sp.last() {
            Some((_a, b)) => if b == r { 1nat } else { 0nat },
            None => 0nat,
        }
    }
}

/// Spans whose start lies before their end.
pub open spec fn well_formed_spans(sp: Seq<Option<(usize, usize)>>) -> bool {
    forall|j: int| 0 <= j < sp.len() ==> match #[trigger] sp[j] {
        Some((x, y)) => x <= y,
        None => true,
    }
}

proof fn lemma_counts(sp: Seq<Option<(usize, usize)>>, i: int)
    requires
        well_formed_spans(sp),
    ensures
        cnt_start_le(sp, i) == cnt_start_le(sp, i - 1) + cnt_start_eq(sp, i),
        cnt_end_le(sp, i) == cnt_end_le(sp, i - 1) + cnt_end_eq(sp, i),
        cnt_end_le(sp, i) <= cnt_start_le(sp, i),
        cnt_start_le(sp, i) <= sp.len(),
        i < 0 ==> cnt_start_le(sp, i) == 0 && cnt_end_le(sp, i) == 0,
    decreases sp.len(),
{
    if sp.len() > 0 {
        let t = sp.drop_last();
        assert(well_formed_spans(t)) by {
            assert forall|j: int| 0 <= j < t.len() implies match #[trigger] t[j] {
                Some((x, y)) => x <= y,
                None => true,
            } by {
                assert(t[j] == sp[j]);
            }
        }
        lemma_counts(t, i);
        assert(match sp[sp.len() - 1] {
            Some((x, y)) => x <= y,
            None => true,
        });
    }
}

proof fn lemma_weight_bounded(sp: Seq<Option<(usize, usize)>>, n: int, buckets: int, k: int, c: int)
    requires
        well_formed_spans(sp),
    ensures
        0 <= max_weight(sp, n, buckets, k, c) <= sp.len(),
    decreases k,
{
    if k > 0 {
        lemma_weight_bounded(sp, n, buckets, k - 1, c);
        lemma_counts(sp, k - 1);
        lemma_counts(sp, k - 2);
        lemma_counts(sp, k);
    }
}

/// The histogram bucket of rank `i` among `n` boundaries.
fn bucket_exec(n: usize, buckets: usize, i: usize) -> (r: usize)
    requires
        buckets >= 1,
    ensures
        r == bucket_of(n as int, buckets as int, i as int),
        r < buckets,
{
    if n <= 1 {
        0
    } else {
        assert((i as u128) * (buckets as u128) <= u128::MAX) by (nonlinear_arith)
            requires
                i as u128 <= u64::MAX as u128,
                buckets as u128 <= u64::MAX as u128;
        let q: u128 = (i as u128) * (buckets as u128) / ((n - 1) as u128);
        if q > (buckets - 1) as u128 {
            buckets - 1
        } else {
            q as usize
        }
    }
}

/// The coverage histogram of a level, from its SST rank spans.
fn level_coverage(sp: &Vec<Option<(usize, usize)>>, n: usize, buckets: usize) -> (r: Vec<u32>)
    requires
        buckets >= 1 || n == 0,
        sp@.len() <= u32::MAX,
        forall|j: int| 0 <= j < sp@.len() ==> match #[trigger] sp@[j] {
            Some((x, y)) => x <= y < n,
            None => true,
        },
    ensures
        r@ == Seq::new(buckets as nat, |c: int| max_weight(sp@, n as int, buckets as int, n as int, c) as u32),
{
    let ghost s = sp@;
    assert(well_formed_spans(s)) by {
        assert forall|j: int| 0 <= j < s.len() implies match #[trigger] s[j] {
            Some((x, y)) => x <= y,
            None => true,
        } by {
            assert(match s[j] { Some((x, y)) => x <= y < n, None => true });
        }
    }
    let mut starts: Vec<u32> = vec![0u32; n];
    let mut ends: Vec<u32> = vec![0u32; n];
    let mut m: usize = 0;
    while m < sp.len()
        invariant
            m <= sp.len(),
            s == sp@,
            s.len() <= u32::MAX,
            starts@.len() == n,
            ends@.len() == n,
            forall|j: int| 0 <= j < s.len() ==> match #[trigger] s[j] {
                Some((x, y)) => x <= y < n,
                None => true,
            },
            forall|r: int| 0 <= r < n ==> #[trigger] starts@[r] == cnt_start_eq(s.take(m as int), r),
            forall|r: int| 0 <= r < n ==> #[trigger] ends@[r] == cnt_end_eq(s.take(m as int), r),
        decreases sp.len() - m,
    {
        let ghost pre = s.take(m as int);
        let ghost post = s.take(m + 1);
        assert(post.drop_last() =~= pre);
        assert(post.last() == s[m as int]);
        proof {
            lemma_cnt_eq_bounded(pre);
        }
        match sp[m] {
            Some((a, b)) => {
                assert(a <= b < n) by {
                    assert(match s[m as int] { Some((x, y)) => x <= y < n, None => true });
                }
                let sa = starts[a] + 1;
                starts.set(a, sa);
                let eb = ends[b] + 1;
                ends.set(b, eb);
            },
            None => {},
        }
        m = m + 1;
    }
    assert(s.take(s.len() as int) =~= s);
    let mut coverage: Vec<u32> = vec![0u32; buckets];
    proof {
        lemma_counts(s, -1);
    }
    let mut starts_le: u32 = 0;
    let mut ends_le: u32 = 0;
    let mut i: usize = 0;
    while i < n
        invariant
            i <= n,
            s == sp@,
            s.len() <= u32::MAX,
            well_formed_spans(s),
            buckets >= 1 || n == 0,
            starts@.len() == n,
            ends@.len() == n,
            coverage@.len() == buckets,
            forall|r: int| 0 <= r < n ==> #[trigger] starts@[r] == cnt_start_eq(s, r),
            forall|r: int| 0 <= r < n ==> #[trigger] ends@[r] == cnt_end_eq(s, r),
            starts_le == cnt_start_le(s, i - 1),
            ends_le == cnt_end_le(s, i - 1),
            forall|c: int| 0 <= c < buckets ==> #[trigger] coverage@[c] == max_weight(s, n as int, buckets as int, i as int, c),
        decreases n - i,
    {
        proof {
            lemma_counts(s, i as int);
            lemma_counts(s, i - 1);
        }
        let prev_ends_le = ends_le;
        starts_le = starts_le + starts[i];
        ends_le = ends_le + ends[i];
        let b = bucket_exec(n, buckets, i);
        let depth = starts_le - prev_ends_le;
        assert(depth == depth_at(s, i as int));
        let ghost old_cov = coverage@;
        if coverage[b] < depth {
            coverage.set(b, depth);
        }
        let gap = starts_le - ends_le;
        assert(gap == gap_after(s, i as int));
        let ghost mid = coverage@;
        assert(forall|x: int| 0 <= x < buckets ==> #[trigger] mid[x] == (
            if x == b && old_cov[x] < depth { depth } else { old_cov[x] }));
        let ghost lo = b as int;
        let ghost hi_g: int = if i + 1 < n { bucket_of(n as int, buckets as int, i + 1) } else { -1 };
        if gap > 0 && i + 1 < n {
            let hi = bucket_exec(n, buckets, i + 1);
            let mut c: usize = b;
            while c <= hi
                invariant
                    b <= c,
                    c <= hi + 1 || c == b,
                    hi < buckets,
                    coverage@.len() == buckets,
                    mid.len() == buckets,
                    forall|x: int| 0 <= x < buckets ==> #[trigger] coverage@[x] == (
                        if b <= x < c && mid[x] < gap { gap } else { mid[x] }),
                decreases hi + 1 - c,
            {
                if coverage[c] < gap {
                    coverage.set(c, gap);
                }
                c = c + 1;
            }
            assert(forall|x: int| 0 <= x < buckets ==> #[trigger] coverage@[x] == (
                if lo <= x <= hi_g && mid[x] < gap { gap } else { mid[x] }));
        }
        proof {
            assert forall|c: int| 0 <= c < buckets implies #[trigger] coverage@[c] == max_weight(
                s,
                n as int,
                buckets as int,
                i + 1,
                c,
            ) by {
                lemma_weight_bounded(s, n as int, buckets as int, i as int, c);
                assert(old_cov[c] == max_weight(s, n as int, buckets as int, i as int, c));
                assert(bucket_of(n as int, buckets as int, i as int) == lo);
                if gap > 0 && i + 1 < n {
                    assert(coverage@[c] == (if lo <= c <= hi_g && mid[c] < gap { gap } else { mid[c] }));
                } else {
                    assert(coverage@[c] == mid[c]);
                }
            }
        }
        i = i + 1;
    }
    assert(coverage@ =~= Seq::new(buckets as nat, |c: int| max_weight(s, n as int, buckets as int, n as int, c) as u32)) by {
        assert forall|c: int| 0 <= c < buckets implies coverage@[c] == max_weight(s, n as int, buckets as int, n as int, c) as u32 by {
            lemma_weight_bounded(s, n as int, buckets as int, n as int, c);
        }
    }
    coverage
}

proof fn lemma_cnt_eq_bounded(sp: Seq<Option<(usize, usize)>>)
    ensures
        forall|r: int| #[trigger] cnt_start_eq(sp, r) <= sp.len(),
        forall|r: int| #[trigger] cnt_end_eq(sp, r) <= sp.len(),
    decreases sp.len(),
{
    if sp.len() > 0 {
        lemma_cnt_eq_bounded(sp.drop_last());
        assert forall|r: int| #[trigger] cnt_start_eq(sp, r) <= sp.len() by {
            assert(cnt_start_eq(sp.drop_last(), r) <= sp.drop_last().len());
        }
        assert forall|r: int| #[trigger] cnt_end_eq(sp, r) <= sp.len() by {
            assert(cnt_end_eq(sp.drop_last(), r) <= sp.drop_last().len());
        }
    }
}

proof fn lemma_ssts_keys_empty(ss: Seq<SstViewDto>)
    requires
        ssts_keys(ss).len() == 0,
    ensures
        forall|j: int| 0 <= j < ss.len() ==> (#[trigger] ss[j]).first_key is None && ss[j].last_key is None,
    decreases ss.len(),
{
    if ss.len() > 0 {
        lemma_ssts_keys_empty(ss.drop_last());
        assert forall|j: int| 0 <= j < ss.len() implies (#[trigger] ss[j]).first_key is None && ss[j].last_key is None by {
            if j < ss.len() - 1 {
                assert(ss[j] == ss.drop_last()[j]);
            }
        }
    }
}

proof fn lemma_levels_keys_empty(ls: Seq<Seq<SstViewDto>>)
    requires
        levels_keys(ls).len() == 0,
    ensures
        forall|li: int| 0 <= li < ls.len() ==> (#[trigger] ssts_keys(ls[li])).len() == 0,
    decreases ls.len(),
{
    if ls.len() > 0 {
        lemma_levels_keys_empty(ls.drop_last());
        assert forall|li: int| 0 <= li < ls.len() implies (#[trigger] ssts_keys(ls[li])).len() == 0 by {
            if li < ls.len() - 1 {
                assert(ls[li] == ls.drop_last()[li]);
            }
        }
    }
}

/// Spans that follow one another without overlap: each known span starts
/// no later than it ends, and ends before any later known span starts.
pub open spec fn spans_disjoint(sp: Seq<Option<(usize, usize)>>) -> bool {
    &&& forall|j: int| 0 <= j < sp.len() ==> (#[trigger] sp[j] matches Some((a, b)) ==> a <= b)
    &&& forall|j: int, k: int|
        0 <= j < k < sp.len() ==> (#[trigger] sp[j] matches Some((_a1, b1)) ==> (#[trigger] sp[k] matches Some((a2, _b2)) ==> b1 < a2))
}

/// Counting starts up to `i1` and ends up to `i2` gives the same number
/// when every known span lies at or below `m`, and `m` is at most both.
proof fn lemma_counts_agree(sp: Seq<Option<(usize, usize)>>, m: int, i1: int, i2: int)
    requires
        forall|j: int| 0 <= j < sp.len() ==> (#[trigger] sp[j] matches Some((a, b)) ==> a <= b && b <= m),
        m <= i1,
        m <= i2,
    ensures
        cnt_start_le(sp, i1) == cnt_end_le(sp, i2),
    decreases sp.len(),
{
    if sp.len() > 0 {
        let t = sp.drop_last();
        assert forall|j: int| 0 <= j < t.len() implies (#[trigger] t[j] matches Some((a, b)) ==> a <= b && b <= m) by {
            assert(t[j] == sp[j]);
        }
        lemma_counts_agree(t, m, i1, i2);
        assert(sp.last() == sp[sp.len() - 1]);
    }
}

/// Among spans that do not overlap, at most one holds any boundary and at
/// most one crosses the gap after it.
proof fn lemma_disjoint_depth(sp: Seq<Option<(usize, usize)>>, i: int)
    requires
        spans_disjoint(sp),
    ensures
        depth_at(sp, i) <= 1,
        gap_after(sp, i) <= 1,
    decreases sp.len(),
{
    if sp.len() > 0 {
        let t = sp.drop_last();
        let n = sp.len() - 1;
        assert forall|j: int| 0 <= j < t.len() implies (#[trigger] t[j] matches Some((a, b)) ==> a <= b) by {
            assert(t[j] == sp[j]);
        }
        assert forall|j: int, k: int| 0 <= j < k < t.len() implies (#[trigger] t[j] matches Some((_a1, b1)) ==> (
        #[trigger] t[k] matches Some((a2, _b2)) ==> b1 < a2)) by {
            assert(t[j] == sp[j] && t[k] == sp[k]);
        }
        lemma_disjoint_depth(t, i);
        assert(sp.last() == sp[n]);
        match sp[n] {
            Some((a, b)) => {
                assert(a <= b);
                if a <= i {
                    assert forall|j: int| 0 <= j < t.len() implies (#[trigger] t[j] matches Some((a1, b1)) ==> a1 <= b1
                        && b1 <= a - 1) by {
                        assert(t[j] == sp[j]);
                        assert(sp[j] matches Some((_a1, b1)) ==> (sp[n] matches Some((a2, _b2)) ==> b1 < a2));
                    }
                    lemma_counts_agree(t, a - 1, i, i - 1);
                    lemma_counts_agree(t, a - 1, i, i);
                }
            },
            None => {},
        }
    }
}

/// Each boundary weighs at most one into any bucket among spans that do not
/// overlap, and so does the heaviest of them.
proof fn lemma_disjoint_max_weight(sp: Seq<Option<(usize, usize)>>, n: int, buckets: int, k: int, c: int)
    requires
        spans_disjoint(sp),
    ensures
        0 <= max_weight(sp, n, buckets, k, c) <= 1,
    decreases k,
{
    if k > 0 {
        lemma_disjoint_max_weight(sp, n, buckets, k - 1, c);
        lemma_disjoint_depth(sp, k - 1);
    }
}

/// An SST with both boundary keys.
pub open spec fn keyed_sst(s: SstViewDto) -> bool {
    s.first_key is Some && s.last_key is Some
}

/// SSTs in key order that do not overlap: each SST's first key is not
/// past its last, and each ends before any later one begins (SSTs without
/// both keys aside).
pub open spec fn ssts_disjoint(ss: Seq<SstViewDto>) -> bool {
    &&& forall|j: int|
        0 <= j < ss.len() && keyed_sst(#[trigger] ss[j]) ==> !seq_lt(
            ss[j].last_key->0.hex@,
            ss[j].first_key->0.hex@,
        )
    &&& forall|j: int, k: int|
        0 <= j < k < ss.len() && keyed_sst(#[trigger] ss[j]) && keyed_sst(#[trigger] ss[k]) ==> seq_lt(
            ss[j].last_key->0.hex@,
            ss[k].first_key->0.hex@,
        )
}

/// With every key below `k`, all boundaries count as below it.
proof fn lemma_count_below_all(b: Seq<KeyDto>, k: Seq<char>)
    requires
        forall|i: int| 0 <= i < b.len() ==> seq_lt((#[trigger] b[i]).hex@, k),
    ensures
        count_below(b, k) == b.len(),
    decreases b.len(),
{
    if b.len() > 0 {
        let t = b.drop_last();
        assert forall|i: int| 0 <= i < t.len() implies seq_lt((#[trigger] t[i]).hex@, k) by {
            assert(t[i] == b[i]);
        }
        lemma_count_below_all(t, k);
        assert(b.last() == b[b.len() - 1]);
    }
}

/// In strictly sorted boundaries, a boundary's own key ranks at its position.
proof fn lemma_rank_of_boundary(b: Seq<KeyDto>, p: int)
    requires
        strictly_sorted(b),
        0 <= p < b.len(),
    ensures
        count_below(b, b[p].hex@) == p,
        rank(b, b[p].hex@) == p,
    decreases b.len(),
{
    let k = b[p].hex@;
    let t = b.drop_last();
    let n = b.len() - 1;
    assert(b.last() == b[n]);
    if p == n {
        assert forall|i: int| 0 <= i < t.len() implies seq_lt((#[trigger] t[i]).hex@, k) by {
            assert(t[i] == b[i]);
            assert(seq_lt(b[i].skey(), b[n].skey()));
        }
        lemma_count_below_all(t, k);
        lemma_seq_lt_irreflexive(k);
    } else {
        assert forall|i: int, j: int| 0 <= i < j < t.len() implies seq_lt(#[trigger] t[i].skey(), #[trigger] t[j].skey()) by {
            assert(t[i] == b[i] && t[j] == b[j]);
        }
        assert(t[p] == b[p]);
        lemma_rank_of_boundary(t, p);
        assert(seq_lt(b[p].skey(), b[n].skey()));
        lemma_seq_lt_trichotomy(k, b[n].hex@);
    }
}

/// A key that some boundary holds ranks at that boundary's position.
proof fn lemma_rank_of_key(b: Seq<KeyDto>, k: Seq<char>) -> (p: int)
    requires
        strictly_sorted(b),
        exists|i: int| 0 <= i < b.len() && (#[trigger] b[i]).hex@ == k,
    ensures
        0 <= p < b.len(),
        b[p].hex@ == k,
        rank(b, k) == p,
{
    let p = choose|i: int| 0 <= i < b.len() && (#[trigger] b[i]).hex@ == k;
    lemma_rank_of_boundary(b, p);
    p
}

/// Positions in strictly sorted boundaries follow key order.
proof fn lemma_sorted_positions(b: Seq<KeyDto>, p: int, q: int)
    requires
        strictly_sorted(b),
        0 <= p < b.len(),
        0 <= q < b.len(),
    ensures
        seq_lt(b[p].hex@, b[q].hex@) ==> p < q,
        !seq_lt(b[q].hex@, b[p].hex@) ==> p <= q,
{
    if q < p {
        assert(seq_lt(b[q].skey(), b[p].skey()));
        lemma_seq_lt_trichotomy(b[p].hex@, b[q].hex@);
    } else if q == p {
        lemma_seq_lt_irreflexive(b[p].hex@);
    }
}

/// SSTs that do not overlap in key order have spans that do not overlap,
/// when every key of theirs is a boundary.
proof fn lemma_disjoint_spans(b: Seq<KeyDto>, ss: Seq<SstViewDto>)
    requires
        strictly_sorted(b),
        b.len() <= MAX_BOUNDARY_SAMPLE,
        ssts_disjoint(ss),
        forall|j: int| #![trigger ss[j]]
            0 <= j < ss.len() && keyed_sst(ss[j]) ==> (exists|i: int|
                0 <= i < b.len() && (#[trigger] b[i]).hex@ == ss[j].first_key->0.hex@) && (exists|i: int|
                0 <= i < b.len() && (#[trigger] b[i]).hex@ == ss[j].last_key->0.hex@),
    ensures
        spans_disjoint(spans(b, ss)),
{
    let sp = spans(b, ss);
    assert forall|j: int| 0 <= j < sp.len() implies (#[trigger] sp[j] matches Some((a, c)) ==> a <= c) by {
        assert(sp[j] == sst_span(b, ss[j]));
        if keyed_sst(ss[j]) {
            let f = ss[j].first_key->0.hex@;
            let l = ss[j].last_key->0.hex@;
            assert(rank(b, f) < b.len() && rank(b, l) < b.len());
        }
    }
    assert forall|j: int, k: int| 0 <= j < k < sp.len() implies (#[trigger] sp[j] matches Some((_a1, b1)) ==> (
    #[trigger] sp[k] matches Some((a2, _b2)) ==> b1 < a2)) by {
        assert(sp[j] == sst_span(b, ss[j]) && sp[k] == sst_span(b, ss[k]));
        if keyed_sst(ss[j]) && keyed_sst(ss[k]) {
            let fj = ss[j].first_key->0.hex@;
            let lj = ss[j].last_key->0.hex@;
            let fk = ss[k].first_key->0.hex@;
            let pfj = lemma_rank_of_key(b, fj);
            let plj = lemma_rank_of_key(b, lj);
            let pfk = lemma_rank_of_key(b, fk);
            lemma_sorted_positions(b, pfj, plj);
            lemma_sorted_positions(b, plj, pfk);
        }
    }
}

/// The boundary keys of an SST with both keys are among its level's keys.
proof fn lemma_sst_keys_in(ss: Seq<SstViewDto>, j: int)
    requires
        0 <= j < ss.len(),
        keyed_sst(ss[j]),
    ensures
        ssts_keys(ss).contains(ss[j].first_key->0),
        ssts_keys(ss).contains(ss[j].last_key->0),
    decreases ss.len(),
{
    let t = ss.drop_last();
    let n = ss.len() - 1;
    assert(ss.last() == ss[n]);
    if j == n {
        let pre = ssts_keys(t);
        let own = sst_keys(ss[n]);
        assert(own =~= seq![ss[n].first_key->0, ss[n].last_key->0]);
        assert(ssts_keys(ss) == pre + own);
        assert((pre + own)[pre.len() as int] == ss[n].first_key->0);
        assert((pre + own)[pre.len() + 1int] == ss[n].last_key->0);
    } else {
        assert(t[j] == ss[j]);
        lemma_sst_keys_in(t, j);
        let pre = ssts_keys(t);
        let own = sst_keys(ss[n]);
        assert(ssts_keys(ss) == pre + own);
        let a = choose|a: int| 0 <= a < pre.len() && pre[a] == ss[j].first_key->0;
        let c = choose|c: int| 0 <= c < pre.len() && pre[c] == ss[j].last_key->0;
        assert((pre + own)[a] == pre[a]);
        assert((pre + own)[c] == pre[c]);
    }
}

/// The keys of a level are among the tree's keys.
proof fn lemma_level_keys_in(ls: Seq<Seq<SstViewDto>>, li: int, x: KeyDto)
    requires
        0 <= li < ls.len(),
        ssts_keys(ls[li]).contains(x),
    ensures
        levels_keys(ls).contains(x),
    decreases ls.len(),
{
    let t = ls.drop_last();
    let n = ls.len() - 1;
    assert(ls.last() == ls[n]);
    let pre = levels_keys(t);
    let own = ssts_keys(ls[n]);
    assert(levels_keys(ls) == pre + own);
    if li == n {
        let a = choose|a: int| 0 <= a < own.len() && own[a] == x;
        assert((pre + own)[pre.len() as int + a] == own[a]);
    } else {
        assert(t[li] == ls[li]);
        lemma_level_keys_in(t, li, x);
        let a = choose|a: int| 0 <= a < pre.len() && pre[a] == x;
        assert((pre + own)[a] == pre[a]);
    }
}

/// A key of the tree is held by one of its (unsampled) boundaries.
proof fn lemma_key_is_boundary(t: TreeDto, x: KeyDto)
    requires
        first_per_key_sorted(levels_keys(level_ssts(t)), distinct_by_key(levels_keys(level_ssts(t)))),
        distinct_by_key(levels_keys(level_ssts(t))).len() <= MAX_BOUNDARY_SAMPLE,
        levels_keys(level_ssts(t)).contains(x),
    ensures
        exists|i: int| 0 <= i < tree_boundaries(t).len() && (#[trigger] tree_boundaries(t)[i]).hex@ == x.hex@,
{
    let ks = levels_keys(level_ssts(t));
    let b = tree_boundaries(t);
    assert(b == distinct_by_key(ks));
    let q = choose|q: int| 0 <= q < ks.len() && ks[q] == x;
    assert(ks[q].skey() == x.hex@);
    assert(has_key(ks, x.hex@));
    assert(has_key(b, x.hex@));
    let i = choose|i: int| 0 <= i < b.len() && #[trigger] b[i].skey() == x.hex@;
    assert(b[i].hex@ == x.hex@);
}

/// A level whose SSTs do not overlap is nowhere more than one SST deep:
/// every bucket of its coverage is at most 1, provided the tree has few
/// enough distinct boundary keys that none is sampled away.
proof fn lemma_disjoint_level_coverage(t: TreeDto, li: int, buckets: int)
    requires
        0 <= li < level_ssts(t).len(),
        first_per_key_sorted(levels_keys(level_ssts(t)), distinct_by_key(levels_keys(level_ssts(t)))),
        distinct_by_key(levels_keys(level_ssts(t))).len() <= MAX_BOUNDARY_SAMPLE,
        ssts_disjoint(level_ssts(t)[li]),
    ensures
        forall|c: int| 0 <= c < buckets ==> #[trigger] coverage_of(tree_boundaries(t), level_ssts(t)[li], buckets)[c] <= 1,
{
    let ls = level_ssts(t);
    let ks = levels_keys(ls);
    let b = tree_boundaries(t);
    assert(b == distinct_by_key(ks));
    let ss = ls[li];
    assert forall|j: int| #![trigger ss[j]]
        0 <= j < ss.len() && keyed_sst(ss[j]) implies (exists|i: int|
            0 <= i < b.len() && (#[trigger] b[i]).hex@ == ss[j].first_key->0.hex@) && (exists|i: int|
            0 <= i < b.len() && (#[trigger] b[i]).hex@ == ss[j].last_key->0.hex@) by {
        lemma_sst_keys_in(ss, j);
        lemma_level_keys_in(ls, li, ss[j].first_key->0);
        lemma_level_keys_in(ls, li, ss[j].last_key->0);
        lemma_key_is_boundary(t, ss[j].first_key->0);
        lemma_key_is_boundary(t, ss[j].last_key->0);
    }
    lemma_disjoint_spans(b, ss);
    assert forall|c: int| 0 <= c < buckets implies #[trigger] coverage_of(b, ss, buckets)[c] <= 1 by {
        lemma_disjoint_max_weight(spans(b, ss), b.len() as int, buckets, b.len() as int, c);
    }
}

/// A level's label: "L0", or "SR <run id>".
pub open spec fn level_label(is_l0: bool, run_id: u32) -> Seq<char> {
    if is_l0 {
        seq!['L', '0']
    } else {
        seq!['S', 'R', ' '] + dec(run_id as nat)
    }
}

/// The summary of one level with SSTs `ss`, against boundaries `b`.
pub open spec fn level_summary_matches(
    l: LevelSummaryDto,
    b: Seq<KeyDto>,
    ss: Seq<SstViewDto>,
    is_l0: bool,
    run_id: u32,
    bytes: u64,
    buckets: int,
    detail_cap: int,
) -> bool {
    &&& l.label@ == level_label(is_l0, run_id)
    &&& l.run_id == (if is_l0 { None } else { Some(run_id) })
    &&& l.is_l0 == is_l0
    &&& l.sst_count == ss.len()
    &&& l.est_bytes == bytes
    &&& l.coverage@ == coverage_of(b, ss, buckets)
    &&& (l.ssts is Some <==> ss.len() <= detail_cap)
    &&& (l.ssts matches Some(v) ==> v@ == ss)
}

/// Level `li` of the tree's summary: L0 first, then the sorted runs.
pub open spec fn tree_level_matches(
    t: TreeDto,
    l: LevelSummaryDto,
    li: int,
    buckets: int,
    detail_cap: int,
) -> bool {
    let b = tree_boundaries(t);
    if li == 0 {
        level_summary_matches(l, b, t.l0@, true, 0, t.l0_bytes, buckets, detail_cap)
    } else {
        let r = t.runs@[li - 1];
        level_summary_matches(l, b, r.ssts@, false, r.id, r.est_bytes, buckets, detail_cap)
    }
}

fn summarize_level(
    b: &Vec<KeyDto>,
    ss: &Vec<SstViewDto>,
    is_l0: bool,
    run_id: u32,
    bytes: u64,
    buckets: usize,
    detail_cap: usize,
) -> (l: LevelSummaryDto)
    requires
        strictly_sorted(b@),
        b@.len() <= MAX_BOUNDARY_SAMPLE,
        buckets >= 1 || b@.len() == 0,
        ss@.len() <= u32::MAX,
        b@.len() > 0 || forall|j: int| 0 <= j < ss@.len() ==> (#[trigger] ss@[j]).first_key is None,
    ensures
        level_summary_matches(l, b@, ss@, is_l0, run_id, bytes, buckets as int, detail_cap as int),
{
    let sp = spans_of(b, ss);
    let coverage = level_coverage(&sp, b.len(), buckets);
    assert(coverage@ =~= coverage_of(b@, ss@, buckets as int));
    let mut label_chars: Vec<char> = Vec::new();
    if is_l0 {
        label_chars.push('L');
        label_chars.push('0');
    } else {
        label_chars.push('S');
        label_chars.push('R');
        label_chars.push(' ');
        push_dec(&mut label_chars, run_id as u64);
    }
    assert(label_chars@ =~= level_label(is_l0, run_id));
    let label = string_from(&label_chars);
    LevelSummaryDto {
        label,
        run_id: if is_l0 { None } else { Some(run_id) },
        is_l0,
        sst_count: ss.len(),
        est_bytes: bytes,
        coverage,
        ssts: if ss.len() <= detail_cap { Some(dup_ssts(ss)) } else { None },
    }
}

/// Bucket edge keys at evenly spaced ranks of the boundaries.
fn edges(b: &Vec<KeyDto>, buckets: usize) -> (r: Vec<KeyDto>)
    requires
        buckets >= 1 || b@.len() == 0,
        buckets < usize::MAX,
    ensures
        r@ == edge_keys(b@, buckets as int),
{
    let n = b.len();
    let mut out: Vec<KeyDto> = Vec::new();
    if n == 0 {
        return out;
    }
    let mut i: usize = 0;
    while i <= buckets
        invariant
            n == b@.len(),
            n >= 1,
            buckets >= 1,
            buckets < usize::MAX,
            i <= buckets + 1,
            out@.len() == i,
            forall|k: int| 0 <= k < i ==> #[trigger] out@[k] == b@[k * (n - 1) / buckets as int],
        decreases buckets + 1 - i,
    {
        assert((i as u128) * ((n - 1) as u128) <= u128::MAX) by (nonlinear_arith)
            requires
                i as u128 <= u64::MAX as u128,
                (n - 1) as u128 <= u64::MAX as u128;
        let idx128: u128 = (i as u128) * ((n - 1) as u128) / (buckets as u128);
        assert(idx128 as int == (i as int) * (n as int - 1) / (buckets as int));
        assert((i as int) * (n as int - 1) / (buckets as int) <= n as int - 1) by (nonlinear_arith)
            requires
                0 <= i <= buckets,
                buckets >= 1,
                n >= 1;
        let idx = idx128 as usize;
        out.push(b[idx].dup());
        i = i + 1;
    }
    assert(out@ =~= edge_keys(b@, buckets as int));
    out
}

/// One summary per level (L0, then each sorted run) with a coverage
/// histogram over the tree's key space, rank-scaled by the tree's
/// distinct SST boundary keys (ranks fall in buckets by the exact integer
/// floor of `bucket_of`), plus the bucket edge keys. A level whose
/// SSTs do not overlap is nowhere more than one SST deep, unless boundary
/// sampling has merged keys.
pub fn summarize_tree(tree: &TreeDto, buckets: usize, detail_cap: usize) -> (r: (Vec<LevelSummaryDto>, Vec<KeyDto>))
    requires
        buckets >= 1 || levels_keys(level_ssts(*tree)).len() == 0,
        buckets < usize::MAX,
        forall|li: int| 0 <= li < level_ssts(*tree).len() ==> (#[trigger] level_ssts(*tree)[li]).len() <= u32::MAX,
    ensures
        r.0@.len() == tree.runs@.len() + 1,
        forall|li: int| 0 <= li < r.0@.len() ==> tree_level_matches(*tree, #[trigger] r.0@[li], li, buckets as int, detail_cap as int),
        r.1@ == edge_keys(tree_boundaries(*tree), buckets as int),
        distinct_by_key(levels_keys(level_ssts(*tree))).len() <= MAX_BOUNDARY_SAMPLE ==> forall|li: int, c: int|
            0 <= li < r.0@.len() && ssts_disjoint(level_ssts(*tree)[li]) && 0 <= c < buckets ==> #[trigger] r.0@[li].coverage@[c]
                <= 1,
{
    let ghost ls = level_ssts(*tree);
    let keys = collect_keys(tree);
    let ghost all_keys = keys@;
    let distinct = first_per_key(keys);
    proof {
        lemma_distinct_by_key(all_keys, distinct@);
        if distinct@.len() == 0 && all_keys.len() > 0 {
            assert(all_keys[0].skey() == all_keys[0].skey());
            assert(crate::order::has_key(all_keys, all_keys[0].skey()));
        }
        if distinct@.len() > 0 {
            assert(distinct@[0].skey() == distinct@[0].skey());
            assert(crate::order::has_key(distinct@, distinct@[0].skey()));
        }
    }
    let b = sample(distinct);
    proof {
        if b@.len() == 0 {
            lemma_levels_keys_empty(ls);
        }
    }
    let ghost bt = tree_boundaries(*tree);
    assert(b@ == bt);
    let mut levels: Vec<LevelSummaryDto> = Vec::new();
    proof {
        assert(ls[0] == tree.l0@);
        if b@.len() == 0 {
            assert(ssts_keys(ls[0]).len() == 0);
            lemma_ssts_keys_empty(tree.l0@);
        }
    }
    let l0 = summarize_level(&b, &tree.l0, true, 0, tree.l0_bytes, buckets, detail_cap);
    levels.push(l0);
    let mut j: usize = 0;
    while j < tree.runs.len()
        invariant
            j <= tree.runs.len(),
            ls == level_ssts(*tree),
            ls.len() == tree.runs.len() + 1,
            b@ == tree_boundaries(*tree),
            strictly_sorted(b@),
            b@.len() <= MAX_BOUNDARY_SAMPLE,
            buckets >= 1 || b@.len() == 0,
            b@.len() == 0 ==> forall|li: int| 0 <= li < ls.len() ==> (#[trigger] ssts_keys(ls[li])).len() == 0,
            forall|li: int| 0 <= li < ls.len() ==> (#[trigger] ls[li]).len() <= u32::MAX,
            levels@.len() == j + 1,
            forall|li: int| 0 <= li < levels@.len() ==> tree_level_matches(*tree, #[trigger] levels@[li], li, buckets as int, detail_cap as int),
        decreases tree.runs.len() - j,
    {
        let run = &tree.runs[j];
        proof {
            assert(ls[j + 1] == run.ssts@);
            if b@.len() == 0 {
                assert(ssts_keys(ls[j + 1]).len() == 0);
                lemma_ssts_keys_empty(run.ssts@);
            }
        }
        let lvl = summarize_level(&b, &run.ssts, false, run.id, run.est_bytes, buckets, detail_cap);
        levels.push(lvl);
        j = j + 1;
    }
    let e = edges(&b, buckets);
    proof {
        if distinct_by_key(levels_keys(ls)).len() <= MAX_BOUNDARY_SAMPLE {
            assert forall|li: int, c: int|
                0 <= li < levels@.len() && ssts_disjoint(ls[li]) && 0 <= c < buckets implies #[trigger] levels@[li].coverage@[c]
                    <= 1 by {
                assert(tree_level_matches(*tree, levels@[li], li, buckets as int, detail_cap as int));
                if li == 0 {
                    assert(ls[0] == tree.l0@);
                } else {
                    assert(ls[li] == tree.runs@[li - 1].ssts@);
                }
                lemma_disjoint_level_coverage(*tree, li, buckets as int);
                assert(coverage_of(tree_boundaries(*tree), ls[li], buckets as int)[c] <= 1);
            }
        }
    }
    (levels, e)
}

/// SSTs across a list of sorted runs.
pub open spec fn runs_ssts(runs: Seq<SortedRunDto>) -> nat
    decreases runs.len(),
{
    if runs.len() == 0 {
        0
    } else {
        runs_ssts(runs.drop_last()) + runs.last().ssts@.len()
    }
}

/// SSTs in a tree: L0 plus every sorted run.
pub open spec fn tree_ssts(t: TreeDto) -> nat {
    t.l0@.len() + runs_ssts(t.runs@)
}

proof fn lemma_run_ssts_bound(runs: Seq<SortedRunDto>, j: int)
    requires
        0 <= j < runs.len(),
    ensures
        runs[j].ssts@.len() <= runs_ssts(runs),
    decreases runs.len(),
{
    if j < runs.len() - 1 {
        lemma_run_ssts_bound(runs.drop_last(), j);
        assert(runs.drop_last()[j] == runs[j]);
    }
}

proof fn lemma_level_len_bound(t: TreeDto)
    ensures
        forall|li: int| 0 <= li < level_ssts(t).len() ==> (#[trigger] level_ssts(t)[li]).len() <= tree_ssts(t),
{
    assert forall|li: int| 0 <= li < level_ssts(t).len() implies (#[trigger] level_ssts(t)[li]).len() <= tree_ssts(t) by {
        if li > 0 {
            lemma_run_ssts_bound(t.runs@, li - 1);
            assert(level_ssts(t)[li] == t.runs@[li - 1].ssts@);
        }
    }
}

/// Number of SSTs in the tree.
pub fn tree_sst_count(t: &TreeDto) -> (r: usize)
    requires
        tree_ssts(*t) <= usize::MAX,
    ensures
        r == tree_ssts(*t),
{
    let mut total: usize = t.l0.len();
    let mut j: usize = 0;
    while j < t.runs.len()
        invariant
            j <= t.runs.len(),
            tree_ssts(*t) <= usize::MAX,
            total == t.l0@.len() + runs_ssts(t.runs@.take(j as int)),
        decreases t.runs.len() - j,
    {
        proof {
            assert(t.runs@.take(j + 1).drop_last() =~= t.runs@.take(j as int));
            lemma_runs_prefix_bound(t.runs@, j + 1);
        }
        total = total + t.runs[j].ssts.len();
        j = j + 1;
    }
    assert(t.runs@.take(t.runs.len() as int) =~= t.runs@);
    total
}

/// Whether an SST meets the inclusive key range from `start` to `end`
/// (hex; no `end` leaves the range open above): its first key is not past
/// `end` and its last key is not before `start`. An SST that lacks a
/// boundary key is open on that side.
pub open spec fn meets_range(s: SstViewDto, start: Seq<char>, end: Option<Seq<char>>) -> bool {
    &&& match (s.first_key, end) {
        (Some(f), Some(e)) => !seq_lt(e, f.hex@),
        _ => true,
    }
    &&& match s.last_key {
        Some(l) => !seq_lt(l.hex@, start),
        None => true,
    }
}

pub open spec fn in_range(start: Seq<char>, end: Option<Seq<char>>) -> spec_fn(SstViewDto) -> bool {
    |s: SstViewDto| meets_range(s, start, end)
}

/// The first position of `runs` holding run `id`.
pub open spec fn first_run_index(runs: Seq<SortedRunDto>, id: u32) -> int {
    choose|i: int| 0 <= i < runs.len() && runs[i].id == id && forall|j: int| 0 <= j < i ==> #[trigger] runs[j].id != id
}

/// The SSTs of one level: L0 with no run id, else the (first) sorted run
/// with that id; none when the tree has no such run.
pub open spec fn level_of(t: TreeDto, run: Option<u32>) -> Option<Seq<SstViewDto>> {
    match run {
        None => Some(t.l0@),
        Some(id) => if exists|i: int| 0 <= i < t.runs@.len() && #[trigger] t.runs@[i].id == id {
            Some(t.runs@[first_run_index(t.runs@, id)].ssts@)
        } else {
            None
        },
    }
}

/// A slice of one level: how many of its SSTs meet the key range, and the
/// first `limit` of them in level order.
pub open spec fn slice_of(t: TreeDto, run: Option<u32>, start: Seq<char>, end: Option<Seq<char>>, limit: nat) -> Option<
    (nat, Seq<SstViewDto>),
> {
    match level_of(t, run) {
        None => None,
        Some(ss) => {
            let f = ss.filter(in_range(start, end));
            Some((f.len(), f.take(if limit < f.len() { limit as int } else { f.len() as int })))
        },
    }
}

pub open spec fn opt_str_view(s: Option<&str>) -> Option<Seq<char>> {
    match s {
        Some(x) => Some(x@),
        None => None,
    }
}

pub open spec fn slice_view(r: Option<(usize, Vec<SstViewDto>)>) -> Option<(nat, Seq<SstViewDto>)> {
    match r {
        Some((n, v)) => Some((n as nat, v@)),
        None => None,
    }
}

fn meets(s: &SstViewDto, start: &str, end: Option<&str>) -> (r: bool)
    ensures
        r == meets_range(*s, start@, opt_str_view(end)),
{
    let below_end = match (&s.first_key, end) {
        (Some(f), Some(e)) => !str_lt(e, f.hex.as_str()),
        _ => true,
    };
    let above_start = match &s.last_key {
        Some(l) => !str_lt(l.hex.as_str(), start),
        None => true,
    };
    below_end && above_start
}

/// Position of the first run with id `id`, if any.
fn find_run(runs: &Vec<SortedRunDto>, id: u32) -> (r: Option<usize>)
    ensures
        r is None <==> !(exists|i: int| 0 <= i < runs@.len() && #[trigger] runs@[i].id == id),
        r matches Some(p) ==> p < runs@.len() && p == first_run_index(runs@, id),
{
    let mut i: usize = 0;
    while i < runs.len()
        invariant
            i <= runs.len(),
            forall|j: int| 0 <= j < i ==> #[trigger] runs@[j].id != id,
        decreases runs.len() - i,
    {
        if runs[i].id == id {
            proof {
                let k = first_run_index(runs@, id);
                assert(runs@[i as int].id == id);
                assert(0 <= k < runs@.len() && runs@[k].id == id && forall|j: int|
                    0 <= j < k ==> #[trigger] runs@[j].id != id);
                if k < i {
                    assert(runs@[k].id != id);
                } else if k > i {
                    assert(runs@[i as int].id != id);
                }
            }
            return Some(i);
        }
        i = i + 1;
    }
    None
}

/// On-demand per-SST drill-down for one level (L0 with no `run`, else the
/// sorted run with that id) restricted to the inclusive hex key range from
/// `start` to `end`: how many SSTs meet it, and the first `limit` of them in
/// level order. `None` when the tree has no run with that id.
pub fn slice_level(tree: &TreeDto, run: Option<u32>, start: &str, end: Option<&str>, limit: usize) -> (r: Option<
    (usize, Vec<SstViewDto>),
>)
    ensures
        slice_view(r) == slice_of(*tree, run, start@, opt_str_view(end), limit as nat),
{
    let ssts: &Vec<SstViewDto> = match run {
        None => &tree.l0,
        Some(id) => match find_run(&tree.runs, id) {
            None => {
                return None;
            },
            Some(p) => &tree.runs[p].ssts,
        },
    };
    let ghost p = in_range(start@, opt_str_view(end));
    assert(level_of(*tree, run) == Some(ssts@));
    let mut total: usize = 0;
    let mut out: Vec<SstViewDto> = Vec::new();
    let mut i: usize = 0;
    while i < ssts.len()
        invariant
            i <= ssts.len(),
            p == in_range(start@, opt_str_view(end)),
            total == ssts@.take(i as int).filter(p).len(),
            total <= i,
            out@ == ssts@.take(i as int).filter(p).take(if limit < total { limit as int } else { total as int }),
        decreases ssts.len() - i,
    {
        let ghost before = ssts@.take(i as int);
        proof {
            assert(ssts@.take(i + 1) =~= before.push(ssts@[i as int]));
            before.lemma_filter_push(ssts@[i as int], p);
        }
        if meets(&ssts[i], start, end) {
            assert(p(ssts@[i as int]));
            if total < limit {
                out.push(ssts[i].dup());
                assert(ssts@.take(i + 1).filter(p).take((total + 1) as int) =~= out@);
            } else {
                assert(ssts@.take(i + 1).filter(p).take(limit as int) =~= out@);
            }
            total = total + 1;
        } else {
            assert(!p(ssts@[i as int]));
        }
        i = i + 1;
    }
    assert(ssts@.take(ssts.len() as int) =~= ssts@);
    Some((total, out))
}

proof fn lemma_runs_prefix_bound(runs: Seq<SortedRunDto>, k: int)
    requires
        0 <= k <= runs.len(),
    ensures
        runs_ssts(runs.take(k)) <= runs_ssts(runs),
    decreases runs.len(),
{
    if k < runs.len() {
        lemma_runs_prefix_bound(runs.drop_last(), k);
        assert(runs.drop_last().take(k) =~= runs.take(k));
    } else {
        assert(runs.take(k) =~= runs);
    }
}

/// The tree a summary looks at: the requested segment, or with none
/// requested the root tree, except that a segmented DB whose root tree is
/// empty opens on its first segment.
pub open spec fn chosen_segment(m: ManifestDto, segment: Option<usize>) -> Option<usize> {
    match segment {
        Some(i) => Some(i),
        None => if tree_ssts(m.tree) == 0 && m.segments@.len() > 0 { Some(0usize) } else { None },
    }
}

pub open spec fn chosen_tree(m: ManifestDto, segment: Option<usize>) -> TreeDto {
    match chosen_segment(m, segment) {
        Some(i) => m.segments@[i as int].tree,
        None => m.tree,
    }
}

proof fn lemma_runs_ssts_zero(runs: Seq<SortedRunDto>)
    ensures
        runs_ssts(runs) == 0 <==> forall|k: int| 0 <= k < runs.len() ==> (#[trigger] runs[k]).ssts@.len() == 0,
    decreases runs.len(),
{
    if runs.len() > 0 {
        lemma_runs_ssts_zero(runs.drop_last());
        if runs_ssts(runs) == 0 {
            assert forall|k: int| 0 <= k < runs.len() implies (#[trigger] runs[k]).ssts@.len() == 0 by {
                if k < runs.len() - 1 {
                    assert(runs.drop_last()[k] == runs[k]);
                }
            }
        }
        if forall|k: int| 0 <= k < runs.len() ==> (#[trigger] runs[k]).ssts@.len() == 0 {
            assert forall|k: int| 0 <= k < runs.drop_last().len() implies (#[trigger] runs.drop_last()[k]).ssts@.len()
                == 0 by {
                assert(runs.drop_last()[k] == runs[k]);
            }
            assert(runs[runs.len() - 1].ssts@.len() == 0);
        }
    }
}

/// With no segment requested, a summary looks at the root tree, except
/// that a segmented DB whose root tree holds no SST (no L0 SST, and no SST
/// in any sorted run) opens on its first segment, index 0, whatever the
/// number of segments: the summary then reports that segment's sizes.
pub proof fn lemma_default_segment(m: ManifestDto, s: LsmSummaryDto)
    requires
        s.segment == chosen_segment(m, None),
        s.total_bytes == chosen_tree(m, None).total_bytes,
        s.l0_bytes == chosen_tree(m, None).l0_bytes,
    ensures
        m.segments@.len() > 0 && m.tree.l0@.len() == 0 && (forall|k: int|
            0 <= k < m.tree.runs@.len() ==> (#[trigger] m.tree.runs@[k]).ssts@.len() == 0) ==> s.segment == Some(
            0usize,
        ) && s.total_bytes == m.segments@[0].tree.total_bytes && s.l0_bytes == m.segments@[0].tree.l0_bytes,
        !(m.segments@.len() > 0 && m.tree.l0@.len() == 0 && (forall|k: int|
            0 <= k < m.tree.runs@.len() ==> (#[trigger] m.tree.runs@[k]).ssts@.len() == 0)) ==> s.segment is None
            && s.total_bytes == m.tree.total_bytes && s.l0_bytes == m.tree.l0_bytes,
{
    lemma_runs_ssts_zero(m.tree.runs@);
}

/// Every tree of the manifest has at most `u32::MAX` SSTs.
pub open spec fn manifest_trees_fit(m: ManifestDto) -> bool {
    &&& tree_ssts(m.tree) <= u32::MAX
    &&& forall|i: int| 0 <= i < m.segments@.len() ==> tree_ssts((#[trigger] m.segments@[i]).tree) <= u32::MAX
}

/// Whether tree `t` holds at most `u32::MAX` SSTs.
fn tree_within_u32(t: &TreeDto) -> (r: bool)
    ensures
        r == (tree_ssts(*t) <= u32::MAX),
{
    let mut n: u64 = t.l0.len() as u64;
    if t.l0.len() as u64 > u32::MAX as u64 {
        proof {
            lemma_runs_prefix_bound(t.runs@, 0);
        }
        return false;
    }
    let mut j: usize = 0;
    while j < t.runs.len()
        invariant
            j <= t.runs@.len(),
            n == t.l0@.len() + runs_ssts(t.runs@.take(j as int)),
            n <= u32::MAX,
        decreases t.runs@.len() - j,
    {
        proof {
            assert(t.runs@.take(j + 1).drop_last() =~= t.runs@.take(j as int));
            lemma_runs_prefix_bound(t.runs@, j + 1);
        }
        let len = t.runs[j].ssts.len() as u64;
        if len > u32::MAX as u64 || n + len > u32::MAX as u64 {
            return false;
        }
        n = n + len;
        j = j + 1;
    }
    assert(t.runs@.take(t.runs@.len() as int) =~= t.runs@);
    true
}

/// Whether every tree of `m` holds at most `u32::MAX` SSTs, as `summarize`
/// requires.
pub fn check_trees(m: &ManifestDto) -> (r: bool)
    ensures
        r == manifest_trees_fit(*m),
{
    if !tree_within_u32(&m.tree) {
        return false;
    }
    let mut i: usize = 0;
    while i < m.segments.len()
        invariant
            i <= m.segments@.len(),
            forall|k: int| 0 <= k < i ==> tree_ssts((#[trigger] m.segments@[k]).tree) <= u32::MAX,
        decreases m.segments@.len() - i,
    {
        if !tree_within_u32(&m.segments[i].tree) {
            return false;
        }
        i = i + 1;
    }
    true
}

/// Summarize `m` viewed at `segment` (None = root tree, falling through to
/// segment 0 when a segmented DB's root tree is empty). None when the
/// segment index is out of range.
pub fn summarize(m: &ManifestDto, segment: Option<usize>) -> (r: Option<LsmSummaryDto>)
    requires
        manifest_trees_fit(*m),
    ensures
        r is None <==> (segment matches Some(i) && i >= m.segments@.len()),
        r matches Some(s) ==> {
            let t = chosen_tree(*m, segment);
            &&& s.manifest_id == m.id
            &&& s.segment_extractor_name == m.segment_extractor_name
            &&& s.segments@.len() == m.segments@.len()
            &&& forall|i: int| 0 <= i < s.segments@.len() ==> #[trigger] s.segments@[i] == (SegmentMetaDto {
                prefix: m.segments@[i].prefix,
                sst_count: tree_ssts(m.segments@[i].tree) as usize,
                est_bytes: m.segments@[i].tree.total_bytes,
            })
            &&& s.segment == chosen_segment(*m, segment)
            &&& s.root_sst_count == tree_ssts(m.tree)
            &&& s.buckets == BUCKETS
            &&& s.levels@.len() == t.runs@.len() + 1
            &&& forall|li: int| 0 <= li < s.levels@.len() ==> tree_level_matches(t, #[trigger] s.levels@[li], li, BUCKETS as int, DETAIL_CAP as int)
            &&& s.bucket_keys@ == edge_keys(tree_boundaries(t), BUCKETS as int)
            &&& s.total_bytes == t.total_bytes
            &&& s.l0_bytes == t.l0_bytes
        },
{
    let root_sst_count = tree_sst_count(&m.tree);
    let seg: Option<usize> = match segment {
        Some(i) => {
            if i >= m.segments.len() {
                return None;
            }
            Some(i)
        },
        None => if root_sst_count == 0 && m.segments.len() > 0 { Some(0) } else { None },
    };
    let tree: &TreeDto = match seg {
        Some(i) => &m.segments[i].tree,
        None => &m.tree,
    };
    proof {
        lemma_level_len_bound(*tree);
        if seg is Some {
            assert(tree_ssts(m.segments@[seg->0 as int].tree) <= u32::MAX);
        }
    }
    let (levels, bucket_keys) = summarize_tree(tree, BUCKETS, DETAIL_CAP);
    let mut metas: Vec<SegmentMetaDto> = Vec::new();
    let mut i: usize = 0;
    while i < m.segments.len()
        invariant
            i <= m.segments.len(),
            manifest_trees_fit(*m),
            metas@.len() == i,
            forall|k: int| 0 <= k < i ==> #[trigger] metas@[k] == (SegmentMetaDto {
                prefix: m.segments@[k].prefix,
                sst_count: tree_ssts(m.segments@[k].tree) as usize,
                est_bytes: m.segments@[k].tree.total_bytes,
            }),
        decreases m.segments.len() - i,
    {
        let sgm: &SegmentDto = &m.segments[i];
        assert(tree_ssts(m.segments@[i as int].tree) <= u32::MAX);
        let count = tree_sst_count(&sgm.tree);
        metas.push(SegmentMetaDto { prefix: sgm.prefix.dup(), sst_count: count, est_bytes: sgm.tree.total_bytes });
        i = i + 1;
    }
    Some(LsmSummaryDto {
        manifest_id: m.id,
        segment_extractor_name: dup_opt_string(&m.segment_extractor_name),
        segments: metas,
        segment: seg,
        root_sst_count,
        buckets: BUCKETS,
        bucket_keys,
        levels,
        total_bytes: tree.total_bytes,
        l0_bytes: tree.l0_bytes,
    })
}

} // verus!
