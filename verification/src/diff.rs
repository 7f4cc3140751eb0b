//! Differences between two manifests, keyed by stable identifiers: SST view
//! ids, sorted-run ids, segment prefixes, checkpoint ids and the source
//! checkpoint ids of external databases.

use vstd::prelude::*;
use crate::dto::{Dup, KeyDto, SstViewDto, SortedRunDto, SegmentDto, CheckpointDto, ExternalDbDto, ManifestDto,
    SortedRunSummaryDto, RunChangeDto, CheckpointChangeDto, ScalarChangeDto, ManifestDiffDto, same_opt_time};
use crate::order::{StrKeyed, strictly_sorted, has_key, missing, key_absent_from, keyed, keys_set, sorted_contains,
    copy_missing, find_key, last_per_key, last_by_key, first_per_key_sorted, lemma_missing_from_self,
    lemma_filter_none, lemma_keyed, lemma_filter_keeps_order, lemma_sorted_same_keys, keys_of, keyed_index};
use crate::text::{dec, dec_signed, push_dec_signed, u64_to_string, string_from, seq_lt};
use crate::convert::{views_bytes, views_total, check_views_bytes};
use crate::dto::{dup_vec, DiffSummaryDto, RunChangeSummaryDto, SstDeltaDto, UtcTime};

verus! {

impl StrKeyed for SstViewDto {
    open spec fn skey(&self) -> Seq<char> {
        self.view_id@
    }

    fn key_str(&self) -> (r: &str) {
        self.view_id.as_str()
    }
}

impl StrKeyed for SegmentDto {
    open spec fn skey(&self) -> Seq<char> {
        self.prefix.hex@
    }

    fn key_str(&self) -> (r: &str) {
        self.prefix.hex.as_str()
    }
}

impl StrKeyed for CheckpointDto {
    open spec fn skey(&self) -> Seq<char> {
        self.id@
    }

    fn key_str(&self) -> (r: &str) {
        self.id.as_str()
    }
}

impl StrKeyed for ExternalDbDto {
    open spec fn skey(&self) -> Seq<char> {
        self.source_checkpoint_id@
    }

    fn key_str(&self) -> (r: &str) {
        self.source_checkpoint_id.as_str()
    }
}

/// Added and removed SSTs between two lists, keyed by view id: the SSTs of
/// `b` whose view id `a` lacks, and the SSTs of `a` whose view id `b`
/// lacks, each in list order.
pub fn diff_ssts(a: &Vec<SstViewDto>, b: &Vec<SstViewDto>) -> (r: (Vec<SstViewDto>, Vec<SstViewDto>))
    ensures
        r.0@ == missing(b@, a@),
        r.1@ == missing(a@, b@),
{
    (copy_missing(b, a), copy_missing(a, b))
}

/// A sorted run without its SST list.
pub open spec fn run_summary_of(run: SortedRunDto) -> SortedRunSummaryDto {
    SortedRunSummaryDto { id: run.id, est_bytes: run.est_bytes, sst_count: run.ssts@.len() as usize }
}

/// The summaries of `s`, in order.
pub open spec fn summaries(s: Seq<SortedRunDto>) -> Seq<SortedRunSummaryDto> {
    s.map_values(|r: SortedRunDto| run_summary_of(r))
}

pub fn run_summary(run: &SortedRunDto) -> (r: SortedRunSummaryDto)
    ensures
        r == run_summary_of(*run),
{
    SortedRunSummaryDto { id: run.id, est_bytes: run.est_bytes, sst_count: run.ssts.len() }
}

/// The text of an optional string: the string itself, or "none".
pub open spec fn opt_text(v: Option<String>) -> Seq<char> {
    match v {
        Some(s) => s@,
        None => "none"@,
    }
}

pub fn format_opt(v: &Option<String>) -> (r: String)
    ensures
        r@ == opt_text(*v),
{
    match v {
        Some(s) => s.clone(),
        None => "none".to_owned(),
    }
}

// Sorted runs are keyed by their numeric id; when a list repeats an id the
// last run with it counts.

/// Some run of `s` has id `id`.
pub open spec fn has_run_id(s: Seq<SortedRunDto>, id: u32) -> bool {
    exists|i: int| 0 <= i < s.len() && #[trigger] s[i].id == id
}

/// `x` occurs in `s` with no later run of its id.
pub open spec fn last_of_id(s: Seq<SortedRunDto>, x: SortedRunDto) -> bool {
    exists|j: int|
        0 <= j < s.len() && s[j] == x && forall|k: int| j < k < s.len() ==> #[trigger] s[k].id != x.id
}

/// `r` holds the last run of `s` for each id, in increasing id order.
pub open spec fn last_run_per_id(s: Seq<SortedRunDto>, r: Seq<SortedRunDto>) -> bool {
    &&& forall|i: int, j: int| 0 <= i < j < r.len() ==> #[trigger] r[i].id < #[trigger] r[j].id
    &&& forall|id: u32| has_run_id(r, id) <==> has_run_id(s, id)
    &&& forall|i: int| 0 <= i < r.len() ==> last_of_id(s, #[trigger] r[i])
}

/// The runs of `s` by id: the last run for each id, in increasing id order.
pub open spec fn runs_by_id(s: Seq<SortedRunDto>) -> Seq<SortedRunDto> {
    choose|r: Seq<SortedRunDto>| last_run_per_id(s, r)
}

/// A position of `r` holding a run with id `id`, when there is one.
pub open spec fn run_index_of(r: Seq<SortedRunDto>, id: u32) -> int {
    choose|i: int| 0 <= i < r.len() && #[trigger] r[i].id == id
}

/// The run of `r` with id `id` (the one, when ids do not repeat).
pub open spec fn run_with_id(r: Seq<SortedRunDto>, id: u32) -> SortedRunDto {
    r[run_index_of(r, id)]
}

/// The runs at the positions `pos` of `s`.
pub open spec fn runs_at(s: Seq<SortedRunDto>, pos: Seq<usize>) -> Seq<SortedRunDto> {
    pos.map_values(|p: usize| s[p as int])
}

proof fn lemma_sorted_ids_equal(r1: Seq<u32>, r2: Seq<u32>)
    requires
        forall|i: int, j: int| 0 <= i < j < r1.len() ==> #[trigger] r1[i] < #[trigger] r1[j],
        forall|i: int, j: int| 0 <= i < j < r2.len() ==> #[trigger] r2[i] < #[trigger] r2[j],
        forall|x: u32| r1.contains(x) <==> r2.contains(x),
    ensures
        r1 == r2,
    decreases r1.len(),
{
    if r1.len() == 0 {
        if r2.len() > 0 {
            assert(r2.contains(r2[0]));
        }
        assert(r1 =~= r2);
    } else {
        assert(r1.contains(r1[0]));
        assert(r2.contains(r2[0]));
        let j = choose|j: int| 0 <= j < r2.len() && r2[j] == r1[0];
        let i = choose|i: int| 0 <= i < r1.len() && r1[i] == r2[0];
        if j > 0 {
            assert(r2[0] < r2[j]);
            if i > 0 {
                assert(r1[0] < r1[i]);
            }
        } else if i > 0 {
            assert(r1[0] < r1[i]);
        }
        assert(r1[0] == r2[0]);
        let t1 = r1.drop_first();
        let t2 = r2.drop_first();
        assert forall|x: u32| t1.contains(x) <==> t2.contains(x) by {
            if t1.contains(x) {
                let a = choose|a: int| 0 <= a < t1.len() && t1[a] == x;
                assert(r1[a + 1] == x);
                assert(r1.contains(x));
                let b = choose|b: int| 0 <= b < r2.len() && r2[b] == x;
                assert(r1[0] < r1[a + 1]);
                assert(b != 0);
                assert(t2[b - 1] == x);
            }
            if t2.contains(x) {
                let a = choose|a: int| 0 <= a < t2.len() && t2[a] == x;
                assert(r2[a + 1] == x);
                assert(r2.contains(x));
                let b = choose|b: int| 0 <= b < r1.len() && r1[b] == x;
                assert(r2[0] < r2[a + 1]);
                assert(b != 0);
                assert(t1[b - 1] == x);
            }
        }
        assert forall|a: int, b: int| 0 <= a < b < t1.len() implies #[trigger] t1[a] < #[trigger] t1[b] by {
            assert(t1[a] == r1[a + 1] && t1[b] == r1[b + 1]);
        }
        assert forall|a: int, b: int| 0 <= a < b < t2.len() implies #[trigger] t2[a] < #[trigger] t2[b] by {
            assert(t2[a] == r2[a + 1] && t2[b] == r2[b + 1]);
        }
        lemma_sorted_ids_equal(t1, t2);
        assert(r1 =~= r2) by {
            assert forall|x: int| 0 <= x < r1.len() implies r1[x] == r2[x] by {
                if x > 0 {
                    assert(r1[x] == t1[x - 1]);
                    assert(r2[x] == t2[x - 1]);
                }
            }
        }
    }
}

/// The ids of `r`, in order.
pub open spec fn ids_of(r: Seq<SortedRunDto>) -> Seq<u32> {
    r.map_values(|x: SortedRunDto| x.id)
}

/// Only one sequence holds the last run per id in id order.
pub proof fn lemma_last_run_per_id_unique(s: Seq<SortedRunDto>, r1: Seq<SortedRunDto>, r2: Seq<SortedRunDto>)
    requires
        last_run_per_id(s, r1),
        last_run_per_id(s, r2),
    ensures
        r1 == r2,
{
    let k1 = ids_of(r1);
    let k2 = ids_of(r2);
    assert forall|i: int, j: int| 0 <= i < j < k1.len() implies #[trigger] k1[i] < #[trigger] k1[j] by {
        assert(k1[i] == r1[i].id && k1[j] == r1[j].id);
    }
    assert forall|i: int, j: int| 0 <= i < j < k2.len() implies #[trigger] k2[i] < #[trigger] k2[j] by {
        assert(k2[i] == r2[i].id && k2[j] == r2[j].id);
    }
    assert forall|x: u32| k1.contains(x) <==> k2.contains(x) by {
        if k1.contains(x) {
            let a = choose|a: int| 0 <= a < k1.len() && k1[a] == x;
            assert(r1[a].id == x);
            assert(has_run_id(r1, x));
            assert(has_run_id(r2, x));
            let b = choose|b: int| 0 <= b < r2.len() && #[trigger] r2[b].id == x;
            assert(k2[b] == x);
        }
        if k2.contains(x) {
            let a = choose|a: int| 0 <= a < k2.len() && k2[a] == x;
            assert(r2[a].id == x);
            assert(has_run_id(r2, x));
            assert(has_run_id(r1, x));
            let b = choose|b: int| 0 <= b < r1.len() && #[trigger] r1[b].id == x;
            assert(k1[b] == x);
        }
    }
    lemma_sorted_ids_equal(k1, k2);
    assert(r1.len() == k1.len() && r2.len() == k2.len());
    assert(r1 =~= r2) by {
        assert forall|x: int| 0 <= x < r1.len() implies r1[x] == r2[x] by {
            assert(k1[x] == k2[x]);
            assert(k1[x] == r1[x].id && k2[x] == r2[x].id);
            assert(last_of_id(s, r1[x]));
            assert(last_of_id(s, r2[x]));
            let i = choose|i: int|
                0 <= i < s.len() && s[i] == r1[x] && forall|k: int| i < k < s.len() ==> #[trigger] s[k].id != r1[x].id;
            let j = choose|j: int|
                0 <= j < s.len() && s[j] == r2[x] && forall|k: int| j < k < s.len() ==> #[trigger] s[k].id != r2[x].id;
            if i < j {
                assert(s[j].id != r1[x].id);
            } else if j < i {
                assert(s[i].id != r2[x].id);
            }
        }
    }
}

/// In a run sequence with increasing ids, the run found at an id is the
/// one with that id.
pub proof fn lemma_run_with_id(r: Seq<SortedRunDto>, p: int)
    requires
        forall|i: int, j: int| 0 <= i < j < r.len() ==> #[trigger] r[i].id < #[trigger] r[j].id,
        0 <= p < r.len(),
    ensures
        run_with_id(r, r[p].id) == r[p],
{
    assert(r[p].id == r[p].id);
    let i = run_index_of(r, r[p].id);
    if i < p {
        assert(r[i].id < r[p].id);
    } else if i > p {
        assert(r[p].id < r[i].id);
    }
}

/// Number of leading positions of `pos` whose run id is below `id`.
fn run_lower_bound(runs: &Vec<SortedRunDto>, pos: &Vec<usize>, id: u32) -> (p: usize)
    requires
        forall|i: int| 0 <= i < pos@.len() ==> #[trigger] pos@[i] < runs@.len(),
        forall|i: int, j: int|
            0 <= i < j < pos@.len() ==> #[trigger] runs@[pos@[i] as int].id < #[trigger] runs@[pos@[j] as int].id,
    ensures
        p <= pos@.len(),
        forall|j: int| 0 <= j < p ==> #[trigger] runs@[pos@[j] as int].id < id,
        forall|j: int| p <= j < pos@.len() ==> #[trigger] runs@[pos@[j] as int].id >= id,
{
    let mut lo: usize = 0;
    let mut hi: usize = pos.len();
    while lo < hi
        invariant
            lo <= hi <= pos@.len(),
            forall|i: int| 0 <= i < pos@.len() ==> #[trigger] pos@[i] < runs@.len(),
            forall|i: int, j: int|
                0 <= i < j < pos@.len() ==> #[trigger] runs@[pos@[i] as int].id < #[trigger] runs@[pos@[j] as int].id,
            forall|j: int| 0 <= j < lo ==> #[trigger] runs@[pos@[j] as int].id < id,
            forall|j: int| hi <= j < pos@.len() ==> #[trigger] runs@[pos@[j] as int].id >= id,
        decreases hi - lo,
    {
        let mid = lo + (hi - lo) / 2;
        if runs[pos[mid]].id < id {
            proof {
                assert forall|j: int| 0 <= j <= mid implies #[trigger] runs@[pos@[j] as int].id < id by {
                    if j < mid {
                        assert(runs@[pos@[j] as int].id < runs@[pos@[mid as int] as int].id);
                    }
                }
            }
            lo = mid + 1;
        } else {
            proof {
                assert forall|j: int| mid <= j < pos@.len() implies #[trigger] runs@[pos@[j] as int].id >= id by {
                    if j > mid {
                        assert(runs@[pos@[mid as int] as int].id < runs@[pos@[j] as int].id);
                    }
                }
            }
            hi = mid;
        }
    }
    lo
}

/// Some position of `pos` holds a run of `s` with id `id`.
spec fn covered(s: Seq<SortedRunDto>, pos: Seq<usize>, id: u32) -> bool {
    exists|i: int| 0 <= i < pos.len() && #[trigger] s[pos[i] as int].id == id
}

/// `pos` indexes the last run for each id of the suffix `s[k..]`, in
/// increasing id order.
#[verifier::opaque]
spec fn suffix_positions(s: Seq<SortedRunDto>, pos: Seq<usize>, k: int) -> bool {
    &&& forall|i: int| 0 <= i < pos.len() ==> k <= #[trigger] pos[i] < s.len()
    &&& forall|i: int, j: int|
        0 <= i < j < pos.len() ==> #[trigger] s[pos[i] as int].id < #[trigger] s[pos[j] as int].id
    &&& forall|j: int| k <= j < s.len() ==> covered(s, pos, #[trigger] s[j].id)
    &&& forall|i: int, j: int|
        0 <= i < pos.len() && pos[i] < j < s.len() ==> #[trigger] s[j].id != #[trigger] s[pos[i] as int].id
}

proof fn lemma_suffix_keep(s: Seq<SortedRunDto>, pos: Seq<usize>, k: int, p: int)
    requires
        0 <= k < s.len(),
        suffix_positions(s, pos, k + 1),
        0 <= p < pos.len(),
        s[pos[p] as int].id == s[k].id,
    ensures
        suffix_positions(s, pos, k),
{
    reveal(suffix_positions);
    assert forall|j: int| k <= j < s.len() implies covered(s, pos, #[trigger] s[j].id) by {
        if j == k {
            assert(s[pos[p] as int].id == s[j].id);
        }
    }
}

proof fn lemma_suffix_facts(s: Seq<SortedRunDto>, pos: Seq<usize>, k: int)
    requires
        suffix_positions(s, pos, k),
    ensures
        forall|i: int| 0 <= i < pos.len() ==> k <= #[trigger] pos[i] < s.len(),
        forall|i: int, j: int|
            0 <= i < j < pos.len() ==> #[trigger] s[pos[i] as int].id < #[trigger] s[pos[j] as int].id,
        forall|j: int| k <= j < s.len() ==> covered(s, pos, #[trigger] s[j].id),
        forall|i: int, j: int|
            0 <= i < pos.len() && pos[i] < j < s.len() ==> #[trigger] s[j].id != #[trigger] s[pos[i] as int].id,
{
    reveal(suffix_positions);
}

#[verifier::rlimit(40)]
proof fn lemma_suffix_insert(s: Seq<SortedRunDto>, pos: Seq<usize>, k: int, p: int)
    requires
        0 <= k < s.len() <= usize::MAX,
        suffix_positions(s, pos, k + 1),
        0 <= p <= pos.len(),
        forall|j: int| 0 <= j < p ==> #[trigger] s[pos[j] as int].id < s[k].id,
        forall|j: int| p <= j < pos.len() ==> #[trigger] s[pos[j] as int].id >= s[k].id,
        !(p < pos.len() && s[pos[p] as int].id == s[k].id),
    ensures
        suffix_positions(s, pos.insert(p, k as usize), k),
{
    lemma_suffix_facts(s, pos, k + 1);
    let n = s.len();
    let id = s[k].id;
    let np = pos.insert(p, k as usize);
    assert(np.len() == pos.len() + 1);
    assert(forall|i: int| 0 <= i < p ==> #[trigger] np[i] == pos[i]);
    assert(forall|i: int| p < i < np.len() ==> #[trigger] np[i] == pos[i - 1]);
    assert(np[p] == k);
    assert forall|j: int| k < j < n implies s[j].id != id by {
        if s[j].id == id {
            let i = choose|i: int| 0 <= i < pos.len() && #[trigger] s[pos[i] as int].id == s[j].id;
            if i < p {
                assert(s[pos[i] as int].id < id);
            } else if i > p {
                assert(s[pos[p] as int].id < s[pos[i] as int].id);
            }
        }
    }
    assert(forall|i: int| 0 <= i < np.len() ==> k <= #[trigger] np[i] < n) by {
        assert forall|i: int| 0 <= i < np.len() implies k <= #[trigger] np[i] < n by {
            if i < p {
                assert(np[i] == pos[i]);
            } else if i > p {
                assert(np[i] == pos[i - 1]);
            }
        }
    }
    assert(forall|i: int, j: int|
        0 <= i < j < np.len() ==> #[trigger] s[np[i] as int].id < #[trigger] s[np[j] as int].id) by {
        assert forall|i: int, j: int|
            0 <= i < j < np.len() implies #[trigger] s[np[i] as int].id < #[trigger] s[np[j] as int].id by {
            if j < p {
                assert(np[i] == pos[i] && np[j] == pos[j]);
            } else if j == p {
                assert(np[i] == pos[i]);
            } else if i == p {
                assert(np[j] == pos[j - 1]);
            } else if i < p {
                assert(np[i] == pos[i]);
                assert(np[j] == pos[j - 1]);
            } else {
                assert(np[j] == pos[j - 1]);
                assert(np[i] == pos[i - 1]);
            }
        }
    }
    assert(forall|j: int| k <= j < n ==> covered(s, np, #[trigger] s[j].id)) by {
        assert forall|j: int| k <= j < n implies covered(s, np, #[trigger] s[j].id) by {
            if j == k {
                assert(s[np[p] as int].id == s[j].id);
            } else {
                let i = choose|i: int| 0 <= i < pos.len() && #[trigger] s[pos[i] as int].id == s[j].id;
                if i < p {
                    assert(np[i] == pos[i]);
                    assert(s[np[i] as int].id == s[j].id);
                } else {
                    assert(np[i + 1] == pos[i]);
                    assert(s[np[i + 1] as int].id == s[j].id);
                }
            }
        }
    }
    assert(forall|i: int, j: int| 0 <= i < np.len() && np[i] < j < n ==> #[trigger] s[j].id
        != #[trigger] s[np[i] as int].id) by {
        assert forall|i: int, j: int| 0 <= i < np.len() && np[i] < j < n implies #[trigger] s[j].id
            != #[trigger] s[np[i] as int].id by {
            if i < p {
                assert(np[i] == pos[i]);
            } else if i > p {
                assert(np[i] == pos[i - 1]);
            }
        }
    }
    assert(suffix_positions(s, np, k)) by {
        reveal(suffix_positions);
    }
}

proof fn lemma_suffix_sorted(s: Seq<SortedRunDto>, pos: Seq<usize>, k: int)
    requires
        suffix_positions(s, pos, k),
        0 <= k,
    ensures
        forall|i: int| 0 <= i < pos.len() ==> #[trigger] pos[i] < s.len(),
        forall|i: int, j: int|
            0 <= i < j < pos.len() ==> #[trigger] s[pos[i] as int].id < #[trigger] s[pos[j] as int].id,
{
    reveal(suffix_positions);
}

proof fn lemma_suffix_done(s: Seq<SortedRunDto>, pos: Seq<usize>)
    requires
        suffix_positions(s, pos, 0),
    ensures
        forall|i: int| 0 <= i < pos.len() ==> #[trigger] pos[i] < s.len(),
        last_run_per_id(s, runs_at(s, pos)),
        runs_by_id(s) == runs_at(s, pos),
{
    reveal(suffix_positions);
    let r = runs_at(s, pos);
    assert forall|i: int, j: int| 0 <= i < j < r.len() implies #[trigger] r[i].id < #[trigger] r[j].id by {
        assert(r[i] == s[pos[i] as int] && r[j] == s[pos[j] as int]);
    }
    assert forall|id: u32| has_run_id(r, id) <==> has_run_id(s, id) by {
        if has_run_id(r, id) {
            let i = choose|i: int| 0 <= i < r.len() && #[trigger] r[i].id == id;
            assert(s[pos[i] as int].id == id);
        }
        if has_run_id(s, id) {
            let j = choose|j: int| 0 <= j < s.len() && #[trigger] s[j].id == id;
            let i = choose|i: int| 0 <= i < pos.len() && #[trigger] s[pos[i] as int].id == s[j].id;
            assert(r[i].id == id);
        }
    }
    assert forall|i: int| 0 <= i < r.len() implies last_of_id(s, #[trigger] r[i]) by {
        let j = pos[i] as int;
        assert(r[i] == s[j]);
        assert forall|k2: int| j < k2 < s.len() implies #[trigger] s[k2].id != r[i].id by {
            assert(s[k2].id != s[pos[i] as int].id);
        }
    }
    assert(last_run_per_id(s, r));
    lemma_last_run_per_id_unique(s, runs_by_id(s), r);
}

/// Positions in `runs` of the last run for each id, in increasing id order.
fn run_positions(runs: &Vec<SortedRunDto>) -> (pos: Vec<usize>)
    ensures
        forall|i: int| 0 <= i < pos@.len() ==> #[trigger] pos@[i] < runs@.len(),
        last_run_per_id(runs@, runs_at(runs@, pos@)),
        runs_by_id(runs@) == runs_at(runs@, pos@),
{
    let ghost s = runs@;
    let n = runs.len();
    let mut pos: Vec<usize> = Vec::new();
    let mut k: usize = n;
    proof {
        reveal(suffix_positions);
    }
    while k > 0
        invariant
            n == s.len(),
            s == runs@,
            k <= n,
            suffix_positions(s, pos@, k as int),
        decreases k,
    {
        k = k - 1;
        let id = runs[k].id;
        proof {
            lemma_suffix_sorted(s, pos@, k + 1);
        }
        let p = run_lower_bound(runs, &pos, id);
        let present = p < pos.len() && runs[pos[p]].id == id;
        if !present {
            proof {
                lemma_suffix_insert(s, pos@, k as int, p as int);
            }
            pos.insert(p, k);
        } else {
            proof {
                lemma_suffix_keep(s, pos@, k as int, p as int);
            }
        }
    }
    proof {
        lemma_suffix_done(s, pos@);
    }
    pos
}

/// Position in `runs` of the run with id `id` among `runs_by_id(runs)`, if any.
fn find_run(runs: &Vec<SortedRunDto>, pos: &Vec<usize>, id: u32) -> (r: Option<usize>)
    requires
        forall|i: int| 0 <= i < pos@.len() ==> #[trigger] pos@[i] < runs@.len(),
        last_run_per_id(runs@, runs_at(runs@, pos@)),
        runs_by_id(runs@) == runs_at(runs@, pos@),
    ensures
        r is None <==> !has_run_id(runs@, id),
        r matches Some(q) ==> q < runs@.len() && runs@[q as int] == run_with_id(runs_by_id(runs@), id)
            && runs@[q as int].id == id,
{
    let ghost rs = runs_at(runs@, pos@);
    proof {
        assert forall|i: int, j: int|
            0 <= i < j < pos@.len() implies #[trigger] runs@[pos@[i] as int].id < #[trigger] runs@[pos@[j] as int].id by {
            assert(rs[i] == runs@[pos@[i] as int] && rs[j] == runs@[pos@[j] as int]);
        }
    }
    let p = run_lower_bound(runs, pos, id);
    if p < pos.len() && runs[pos[p]].id == id {
        proof {
            assert(rs[p as int] == runs@[pos@[p as int] as int]);
            lemma_run_with_id(rs, p as int);
        }
        Some(pos[p])
    } else {
        proof {
            assert forall|i: int| 0 <= i < rs.len() implies #[trigger] rs[i].id != id by {
                assert(rs[i] == runs@[pos@[i] as int]);
                if i < p {
                } else if i > p {
                    assert(runs@[pos@[p as int] as int].id < runs@[pos@[i] as int].id);
                }
            }
            assert(!has_run_id(rs, id));
        }
        None
    }
}


/// Runs whose id no run of `other` has.
pub open spec fn run_absent_from(other: Seq<SortedRunDto>) -> spec_fn(SortedRunDto) -> bool {
    |x: SortedRunDto| !has_run_id(other, x.id)
}

/// SSTs added to and removed from a run, going from `before` to `after`.
pub open spec fn run_sst_changes(before: SortedRunDto, after: SortedRunDto) -> (Seq<SstViewDto>, Seq<SstViewDto>) {
    (missing(after.ssts@, before.ssts@), missing(before.ssts@, after.ssts@))
}

/// Runs that `before` has too, with a different set of SSTs there.
pub open spec fn run_changed_in(before: Seq<SortedRunDto>) -> spec_fn(SortedRunDto) -> bool {
    |x: SortedRunDto|
        has_run_id(before, x.id) && {
            let c = run_sst_changes(run_with_id(before, x.id), x);
            c.0.len() > 0 || c.1.len() > 0
        }
}

/// The id of `x` with the SSTs it gained and lost since `before`.
pub open spec fn run_change_of(before: Seq<SortedRunDto>, x: SortedRunDto) -> (u32, Seq<SstViewDto>, Seq<SstViewDto>) {
    let c = run_sst_changes(run_with_id(before, x.id), x);
    (x.id, c.0, c.1)
}

/// Membership changes of the runs present on both sides, in the order of `after`.
pub open spec fn run_changes(before: Seq<SortedRunDto>, after: Seq<SortedRunDto>) -> Seq<(u32, Seq<SstViewDto>, Seq<SstViewDto>)> {
    after.filter(run_changed_in(before)).map_values(|x: SortedRunDto| run_change_of(before, x))
}

/// Run changes as (id, added, removed).
pub open spec fn change_views(s: Seq<RunChangeDto>) -> Seq<(u32, Seq<SstViewDto>, Seq<SstViewDto>)> {
    s.map_values(|c: RunChangeDto| (c.id, c.ssts_added@, c.ssts_removed@))
}

/// The prefixes of segments, in order.
pub open spec fn prefixes(s: Seq<SegmentDto>) -> Seq<KeyDto> {
    s.map_values(|x: SegmentDto| x.prefix)
}

/// Checkpoints that `before` has too, with another manifest or expiry there.
pub open spec fn cp_changed_in(before: Seq<CheckpointDto>) -> spec_fn(CheckpointDto) -> bool {
    |c: CheckpointDto|
        has_key(before, c.id@) && (keyed(before, c.id@).manifest_id != c.manifest_id
            || keyed(before, c.id@).expire_time != c.expire_time)
}

/// The change of checkpoint `c` since `before`: (old, new) manifest id and expiry.
pub open spec fn cp_change_of(before: Seq<CheckpointDto>, c: CheckpointDto) -> CheckpointChangeDto {
    CheckpointChangeDto {
        id: c.id,
        manifest_id: (keyed(before, c.id@).manifest_id, c.manifest_id),
        expire_time: (keyed(before, c.id@).expire_time, c.expire_time),
    }
}

/// Changes of the checkpoints present on both sides, in the order of `after`.
pub open spec fn cp_changes(before: Seq<CheckpointDto>, after: Seq<CheckpointDto>) -> Seq<CheckpointChangeDto> {
    after.filter(cp_changed_in(before)).map_values(|c: CheckpointDto| cp_change_of(before, c))
}

/// The text of a boolean.
pub open spec fn bool_text(b: bool) -> Seq<char> {
    if b {
        "true"@
    } else {
        "false"@
    }
}

/// One scalar row, present only when the two texts differ.
pub open spec fn scalar_row(field: Seq<char>, x: Seq<char>, y: Seq<char>) -> Seq<(Seq<char>, Seq<char>, Seq<char>)> {
    if x != y {
        seq![(field, x, y)]
    } else {
        seq![]
    }
}

/// The scalar fields of two manifests, by name and text, that differ, in
/// a fixed field order.
pub open spec fn scalar_changes(a: ManifestDto, b: ManifestDto) -> Seq<(Seq<char>, Seq<char>, Seq<char>)> {
    scalar_row("initialized"@, bool_text(a.initialized), bool_text(b.initialized))
        + scalar_row("writer_epoch"@, dec(a.writer_epoch as nat), dec(b.writer_epoch as nat))
        + scalar_row("compactor_epoch"@, dec(a.compactor_epoch as nat), dec(b.compactor_epoch as nat))
        + scalar_row("next_wal_sst_id"@, dec(a.next_wal_sst_id as nat), dec(b.next_wal_sst_id as nat))
        + scalar_row("replay_after_wal_id"@, dec(a.replay_after_wal_id as nat), dec(b.replay_after_wal_id as nat))
        + scalar_row("last_l0_seq"@, dec(a.last_l0_seq as nat), dec(b.last_l0_seq as nat))
        + scalar_row("last_l0_clock_tick"@, dec_signed(a.last_l0_clock_tick as int), dec_signed(b.last_l0_clock_tick as int))
        + scalar_row("recent_snapshot_min_seq"@, dec(a.recent_snapshot_min_seq as nat), dec(b.recent_snapshot_min_seq as nat))
        + scalar_row("last_compacted_l0_sst_view_id"@, opt_text(a.last_compacted_l0_sst_view_id),
            opt_text(b.last_compacted_l0_sst_view_id))
}

/// Scalar changes as (field, a, b) texts.
pub open spec fn scalar_views(s: Seq<ScalarChangeDto>) -> Seq<(Seq<char>, Seq<char>, Seq<char>)> {
    s.map_values(|c: ScalarChangeDto| (c.field@, c.a@, c.b@))
}

/// `d` is the diff from manifest `a` to manifest `b`.
pub open spec fn diff_matches(a: ManifestDto, b: ManifestDto, d: ManifestDiffDto) -> bool {
    &&& d.a == a.id
    &&& d.b == b.id
    &&& d.l0_added@ == missing(b.tree.l0@, a.tree.l0@)
    &&& d.l0_removed@ == missing(a.tree.l0@, b.tree.l0@)
    &&& d.runs_added@ == summaries(runs_by_id(b.tree.runs@).filter(run_absent_from(a.tree.runs@)))
    &&& d.runs_removed@ == summaries(runs_by_id(a.tree.runs@).filter(run_absent_from(b.tree.runs@)))
    &&& change_views(d.runs_changed@) == run_changes(runs_by_id(a.tree.runs@), runs_by_id(b.tree.runs@))
    &&& d.segments_added@ == prefixes(missing(b.segments@, a.segments@))
    &&& d.segments_removed@ == prefixes(missing(a.segments@, b.segments@))
    &&& d.checkpoints_added@ == missing(last_by_key(b.checkpoints@), a.checkpoints@)
    &&& d.checkpoints_removed@ == missing(last_by_key(a.checkpoints@), b.checkpoints@)
    &&& d.checkpoints_changed@ == cp_changes(last_by_key(a.checkpoints@), last_by_key(b.checkpoints@))
    &&& d.external_dbs_added@ == missing(last_by_key(b.external_dbs@), a.external_dbs@)
    &&& d.external_dbs_removed@ == missing(last_by_key(a.external_dbs@), b.external_dbs@)
    &&& scalar_views(d.scalars@) == scalar_changes(a, b)
    &&& last_run_per_id(a.tree.runs@, runs_by_id(a.tree.runs@))
    &&& last_run_per_id(b.tree.runs@, runs_by_id(b.tree.runs@))
    &&& first_per_key_sorted(a.checkpoints@.reverse(), last_by_key(a.checkpoints@))
    &&& first_per_key_sorted(b.checkpoints@.reverse(), last_by_key(b.checkpoints@))
    &&& first_per_key_sorted(a.external_dbs@.reverse(), last_by_key(a.external_dbs@))
    &&& first_per_key_sorted(b.external_dbs@.reverse(), last_by_key(b.external_dbs@))
}

/// Summaries of the runs of `src` (by id) whose id `other` lacks.
fn runs_missing(src: &Vec<SortedRunDto>, src_pos: &Vec<usize>, other: &Vec<SortedRunDto>, other_pos: &Vec<usize>)
    -> (r: Vec<SortedRunSummaryDto>)
    requires
        forall|i: int| 0 <= i < src_pos@.len() ==> #[trigger] src_pos@[i] < src@.len(),
        runs_by_id(src@) == runs_at(src@, src_pos@),
        forall|i: int| 0 <= i < other_pos@.len() ==> #[trigger] other_pos@[i] < other@.len(),
        last_run_per_id(other@, runs_at(other@, other_pos@)),
        runs_by_id(other@) == runs_at(other@, other_pos@),
    ensures
        r@ == summaries(runs_by_id(src@).filter(run_absent_from(other@))),
{
    let ghost rs = runs_by_id(src@);
    let mut out: Vec<SortedRunSummaryDto> = Vec::new();
    let mut i: usize = 0;
    while i < src_pos.len()
        invariant
            i <= src_pos@.len(),
            rs.len() == src_pos@.len(),
            forall|j: int| 0 <= j < src_pos@.len() ==> #[trigger] src_pos@[j] < src@.len(),
            forall|j: int| 0 <= j < rs.len() ==> #[trigger] rs[j] == src@[src_pos@[j] as int],
            forall|j: int| 0 <= j < other_pos@.len() ==> #[trigger] other_pos@[j] < other@.len(),
            last_run_per_id(other@, runs_at(other@, other_pos@)),
            runs_by_id(other@) == runs_at(other@, other_pos@),
            out@ == summaries(rs.take(i as int).filter(run_absent_from(other@))),
        decreases src_pos@.len() - i,
    {
        let run = &src[src_pos[i]];
        let found = find_run(other, other_pos, run.id);
        proof {
            assert(rs[i as int] == *run);
            assert(rs.take(i + 1) =~= rs.take(i as int).push(*run));
            rs.take(i as int).lemma_filter_push(*run, run_absent_from(other@));
        }
        if found.is_none() {
            let ghost before = out@;
            out.push(run_summary(run));
            proof {
                let f = rs.take(i as int).filter(run_absent_from(other@));
                assert(summaries(f.push(*run)) =~= summaries(f).push(run_summary_of(*run)));
            }
        }
        i = i + 1;
    }
    proof {
        assert(rs.take(rs.len() as int) =~= rs);
    }
    out
}

/// The runs present on both sides whose SST membership changed, in id order.
fn runs_changed(a: &Vec<SortedRunDto>, a_pos: &Vec<usize>, b: &Vec<SortedRunDto>, b_pos: &Vec<usize>)
    -> (r: Vec<RunChangeDto>)
    requires
        forall|i: int| 0 <= i < a_pos@.len() ==> #[trigger] a_pos@[i] < a@.len(),
        last_run_per_id(a@, runs_at(a@, a_pos@)),
        runs_by_id(a@) == runs_at(a@, a_pos@),
        forall|i: int| 0 <= i < b_pos@.len() ==> #[trigger] b_pos@[i] < b@.len(),
        runs_by_id(b@) == runs_at(b@, b_pos@),
    ensures
        change_views(r@) == run_changes(runs_by_id(a@), runs_by_id(b@)),
{
    let ghost ra = runs_by_id(a@);
    let ghost rb = runs_by_id(b@);
    let mut out: Vec<RunChangeDto> = Vec::new();
    let mut i: usize = 0;
    while i < b_pos.len()
        invariant
            i <= b_pos@.len(),
            rb.len() == b_pos@.len(),
            ra == runs_by_id(a@),
            forall|j: int| 0 <= j < b_pos@.len() ==> #[trigger] b_pos@[j] < b@.len(),
            forall|j: int| 0 <= j < rb.len() ==> #[trigger] rb[j] == b@[b_pos@[j] as int],
            forall|j: int| 0 <= j < a_pos@.len() ==> #[trigger] a_pos@[j] < a@.len(),
            last_run_per_id(a@, runs_at(a@, a_pos@)),
            runs_by_id(a@) == runs_at(a@, a_pos@),
            change_views(out@) == run_changes(ra, rb.take(i as int)),
        decreases b_pos@.len() - i,
    {
        let run = &b[b_pos[i]];
        let found = find_run(a, a_pos, run.id);
        let ghost f = rb.take(i as int).filter(run_changed_in(ra));
        proof {
            assert(rb[i as int] == *run);
            assert(rb.take(i + 1) =~= rb.take(i as int).push(*run));
            rb.take(i as int).lemma_filter_push(*run, run_changed_in(ra));
            assert(has_run_id(ra, run.id) <==> has_run_id(a@, run.id));
        }
        match found {
            None => {},
            Some(q) => {
                let (added, removed) = diff_ssts(&a[q].ssts, &run.ssts);
                if added.len() > 0 || removed.len() > 0 {
                    out.push(RunChangeDto { id: run.id, ssts_added: added, ssts_removed: removed });
                    proof {
                        assert(f.push(*run).map_values(|x: SortedRunDto| run_change_of(ra, x)) =~= f.map_values(
                            |x: SortedRunDto| run_change_of(ra, x),
                        ).push(run_change_of(ra, *run)));
                        assert(change_views(out@) =~= run_changes(ra, rb.take(i + 1)));
                    }
                }
            },
        }
        i = i + 1;
    }
    proof {
        assert(rb.take(rb.len() as int) =~= rb);
    }
    out
}

/// Prefixes of the segments of `src`, in order, whose prefix `other` lacks.
fn prefixes_missing(src: &Vec<SegmentDto>, other: &Vec<SegmentDto>) -> (r: Vec<KeyDto>)
    ensures
        r@ == prefixes(missing(src@, other@)),
{
    let keys = keys_set(other);
    let mut out: Vec<KeyDto> = Vec::new();
    let mut i: usize = 0;
    while i < src.len()
        invariant
            i <= src.len(),
            strictly_sorted(keys@),
            forall|k: Seq<char>| has_key(keys@, k) <==> has_key(other@, k),
            out@ == prefixes(src@.take(i as int).filter(key_absent_from(other@))),
        decreases src.len() - i,
    {
        let present = sorted_contains(&keys, src[i].key_str());
        let ghost f = src@.take(i as int).filter(key_absent_from(other@));
        proof {
            assert(src@.take(i + 1) =~= src@.take(i as int).push(src@[i as int]));
            src@.take(i as int).lemma_filter_push(src@[i as int], key_absent_from(other@));
        }
        if !present {
            out.push(src[i].prefix.dup());
            proof {
                assert(prefixes(f.push(src@[i as int])) =~= prefixes(f).push(src@[i as int].prefix));
            }
        }
        i = i + 1;
    }
    assert(src@.take(src.len() as int) =~= src@);
    out
}

/// The checkpoints of `after` that `before` (sorted by id) has with another
/// manifest id or expiry, in the order of `after`.
fn checkpoint_changes(before: &Vec<CheckpointDto>, after: &Vec<CheckpointDto>) -> (r: Vec<CheckpointChangeDto>)
    requires
        strictly_sorted(before@),
    ensures
        r@ == cp_changes(before@, after@),
{
    let mut out: Vec<CheckpointChangeDto> = Vec::new();
    let mut i: usize = 0;
    while i < after.len()
        invariant
            i <= after.len(),
            strictly_sorted(before@),
            out@ == cp_changes(before@, after@.take(i as int)),
        decreases after.len() - i,
    {
        let cp = &after[i];
        let ghost f = after@.take(i as int).filter(cp_changed_in(before@));
        proof {
            assert(after@.take(i + 1) =~= after@.take(i as int).push(*cp));
            after@.take(i as int).lemma_filter_push(*cp, cp_changed_in(before@));
        }
        match find_key(before, cp.id.as_str()) {
            None => {},
            Some(p) => {
                let old_cp = &before[p];
                if old_cp.manifest_id != cp.manifest_id || !same_opt_time(&old_cp.expire_time, &cp.expire_time) {
                    out.push(CheckpointChangeDto {
                        id: cp.id.clone(),
                        manifest_id: (old_cp.manifest_id, cp.manifest_id),
                        expire_time: (old_cp.expire_time, cp.expire_time),
                    });
                    proof {
                        assert(f.push(*cp).map_values(|c: CheckpointDto| cp_change_of(before@, c)) =~= f.map_values(
                            |c: CheckpointDto| cp_change_of(before@, c),
                        ).push(cp_change_of(before@, *cp)));
                    }
                }
            },
        }
        i = i + 1;
    }
    assert(after@.take(after.len() as int) =~= after@);
    out
}

/// `true` or `false`.
fn bool_string(b: bool) -> (r: String)
    ensures
        r@ == bool_text(b),
{
    if b {
        "true".to_owned()
    } else {
        "false".to_owned()
    }
}

/// The decimal text of `n`, with a '-' when negative.
fn i64_string(n: i64) -> (r: String)
    ensures
        r@ == dec_signed(n as int),
{
    let mut v: Vec<char> = Vec::new();
    push_dec_signed(&mut v, n);
    assert(v@ =~= dec_signed(n as int));
    string_from(&v)
}

/// Appends a scalar change when the two texts differ.
fn push_scalar(out: &mut Vec<ScalarChangeDto>, field: &str, va: String, vb: String)
    ensures
        scalar_views(final(out)@) == scalar_views(old(out)@) + scalar_row(field@, va@, vb@),
{
    if !(va == vb) {
        let ghost before = out@;
        out.push(ScalarChangeDto { field: field.to_owned(), a: va, b: vb });
        assert(scalar_views(out@) =~= scalar_views(before) + scalar_row(field@, va@, vb@));
    } else {
        assert(scalar_views(out@) =~= scalar_views(out@) + scalar_row(field@, va@, vb@));
    }
}

/// The scalar fields that differ between `a` and `b`.
fn scalar_diffs(a: &ManifestDto, b: &ManifestDto) -> (r: Vec<ScalarChangeDto>)
    ensures
        scalar_views(r@) == scalar_changes(*a, *b),
{
    let mut out: Vec<ScalarChangeDto> = Vec::new();
    assert(scalar_views(out@) =~= Seq::empty());
    push_scalar(&mut out, "initialized", bool_string(a.initialized), bool_string(b.initialized));
    assert(scalar_views(out@) =~= scalar_row("initialized"@, bool_text(a.initialized), bool_text(b.initialized)));
    push_scalar(&mut out, "writer_epoch", u64_to_string(a.writer_epoch), u64_to_string(b.writer_epoch));
    push_scalar(&mut out, "compactor_epoch", u64_to_string(a.compactor_epoch), u64_to_string(b.compactor_epoch));
    push_scalar(&mut out, "next_wal_sst_id", u64_to_string(a.next_wal_sst_id), u64_to_string(b.next_wal_sst_id));
    push_scalar(
        &mut out,
        "replay_after_wal_id",
        u64_to_string(a.replay_after_wal_id),
        u64_to_string(b.replay_after_wal_id),
    );
    push_scalar(&mut out, "last_l0_seq", u64_to_string(a.last_l0_seq), u64_to_string(b.last_l0_seq));
    push_scalar(
        &mut out,
        "last_l0_clock_tick",
        i64_string(a.last_l0_clock_tick),
        i64_string(b.last_l0_clock_tick),
    );
    push_scalar(
        &mut out,
        "recent_snapshot_min_seq",
        u64_to_string(a.recent_snapshot_min_seq),
        u64_to_string(b.recent_snapshot_min_seq),
    );
    push_scalar(
        &mut out,
        "last_compacted_l0_sst_view_id",
        format_opt(&a.last_compacted_l0_sst_view_id),
        format_opt(&b.last_compacted_l0_sst_view_id),
    );
    out
}

/// Diff two manifests, keyed by stable identifiers: L0 view ids, sorted-run
/// ids, segment prefixes, checkpoint ids and external-db source checkpoint
/// ids. Where a list repeats an identifier, its last entry counts.
pub fn diff_manifests(a: &ManifestDto, b: &ManifestDto) -> (d: ManifestDiffDto)
    ensures
        diff_matches(*a, *b, d),
{
    let (l0_added, l0_removed) = diff_ssts(&a.tree.l0, &b.tree.l0);

    let a_pos = run_positions(&a.tree.runs);
    let b_pos = run_positions(&b.tree.runs);
    let runs_added = runs_missing(&b.tree.runs, &b_pos, &a.tree.runs, &a_pos);
    let runs_removed = runs_missing(&a.tree.runs, &a_pos, &b.tree.runs, &b_pos);
    let runs_changed = runs_changed(&a.tree.runs, &a_pos, &b.tree.runs, &b_pos);

    let segments_added = prefixes_missing(&b.segments, &a.segments);
    let segments_removed = prefixes_missing(&a.segments, &b.segments);

    let a_cps = last_per_key(&a.checkpoints);
    let b_cps = last_per_key(&b.checkpoints);
    let checkpoints_added = copy_missing(&b_cps, &a.checkpoints);
    let checkpoints_removed = copy_missing(&a_cps, &b.checkpoints);
    let checkpoints_changed = checkpoint_changes(&a_cps, &b_cps);

    let a_ext = last_per_key(&a.external_dbs);
    let b_ext = last_per_key(&b.external_dbs);
    let external_dbs_added = copy_missing(&b_ext, &a.external_dbs);
    let external_dbs_removed = copy_missing(&a_ext, &b.external_dbs);

    let scalars = scalar_diffs(a, b);

    ManifestDiffDto {
        a: a.id,
        b: b.id,
        l0_added,
        l0_removed,
        runs_added,
        runs_removed,
        runs_changed,
        segments_added,
        segments_removed,
        checkpoints_added,
        checkpoints_removed,
        checkpoints_changed,
        external_dbs_added,
        external_dbs_removed,
        scalars,
    }
}


/// Two manifests agree in everything a diff reads, except their ids.
pub open spec fn same_content(a: ManifestDto, b: ManifestDto) -> bool {
    &&& a.initialized == b.initialized
    &&& a.writer_epoch == b.writer_epoch
    &&& a.compactor_epoch == b.compactor_epoch
    &&& a.next_wal_sst_id == b.next_wal_sst_id
    &&& a.replay_after_wal_id == b.replay_after_wal_id
    &&& a.last_l0_seq == b.last_l0_seq
    &&& a.last_l0_clock_tick == b.last_l0_clock_tick
    &&& a.recent_snapshot_min_seq == b.recent_snapshot_min_seq
    &&& a.last_compacted_l0_sst_view_id == b.last_compacted_l0_sst_view_id
    &&& a.tree.l0@ == b.tree.l0@
    &&& a.tree.runs@ == b.tree.runs@
    &&& a.segments@ == b.segments@
    &&& a.checkpoints@ == b.checkpoints@
    &&& a.external_dbs@ == b.external_dbs@
}

/// The keys of the last-per-key view of `s` are the keys of `s`.
proof fn lemma_last_by_key_keys<T: StrKeyed>(s: Seq<T>)
    requires
        first_per_key_sorted(s.reverse(), last_by_key(s)),
    ensures
        forall|k: Seq<char>| has_key(last_by_key(s), k) ==> has_key(s, k),
{
    assert forall|k: Seq<char>| has_key(last_by_key(s), k) implies has_key(s, k) by {
        assert(has_key(s.reverse(), k));
        let j = choose|j: int| 0 <= j < s.len() && #[trigger] s.reverse()[j].skey() == k;
        assert(s[s.len() - 1 - j].skey() == k);
    }
}

/// Diffing two manifests that agree in everything but their ids reports no
/// change at all.
pub proof fn lemma_diff_of_same_content(a: ManifestDto, b: ManifestDto, d: ManifestDiffDto)
    requires
        same_content(a, b),
        diff_matches(a, b, d),
    ensures
        d.l0_added@.len() == 0,
        d.l0_removed@.len() == 0,
        d.runs_added@.len() == 0,
        d.runs_removed@.len() == 0,
        d.runs_changed@.len() == 0,
        d.segments_added@.len() == 0,
        d.segments_removed@.len() == 0,
        d.checkpoints_added@.len() == 0,
        d.checkpoints_removed@.len() == 0,
        d.checkpoints_changed@.len() == 0,
        d.external_dbs_added@.len() == 0,
        d.external_dbs_removed@.len() == 0,
        d.scalars@.len() == 0,
{
    lemma_missing_from_self(a.tree.l0@, a.tree.l0@);
    lemma_missing_from_self(a.segments@, a.segments@);
    let runs = a.tree.runs@;
    let r = runs_by_id(runs);
    assert forall|i: int| 0 <= i < r.len() implies !(#[trigger] run_absent_from(runs)(r[i])) by {
        assert(has_run_id(r, r[i].id));
    }
    lemma_filter_none(r, run_absent_from(runs));
    assert forall|i: int| 0 <= i < r.len() implies !(#[trigger] run_changed_in(r)(r[i])) by {
        lemma_run_with_id(r, i);
        lemma_missing_from_self(r[i].ssts@, r[i].ssts@);
    }
    lemma_filter_none(r, run_changed_in(r));
    assert(change_views(d.runs_changed@).len() == d.runs_changed@.len());
    let cps = a.checkpoints@;
    let c = last_by_key(cps);
    lemma_last_by_key_keys(cps);
    lemma_missing_from_self(c, cps);
    assert forall|i: int| 0 <= i < c.len() implies !(#[trigger] cp_changed_in(c)(c[i])) by {
        lemma_keyed(c, i);
    }
    lemma_filter_none(c, cp_changed_in(c));
    let ext = a.external_dbs@;
    lemma_last_by_key_keys(ext);
    lemma_missing_from_self(last_by_key(ext), ext);
    assert(scalar_views(d.scalars@).len() == d.scalars@.len());
}

/// Swaps what each run change added and removed.
pub open spec fn swap_run_changes(s: Seq<(u32, Seq<SstViewDto>, Seq<SstViewDto>)>) -> Seq<
    (u32, Seq<SstViewDto>, Seq<SstViewDto>),
> {
    s.map_values(|c: (u32, Seq<SstViewDto>, Seq<SstViewDto>)| (c.0, c.2, c.1))
}

/// A checkpoint change as (id text, manifest ids, expiries).
pub open spec fn cp_change_view(c: CheckpointChangeDto) -> (Seq<char>, (u64, u64), (Option<UtcTime>, Option<UtcTime>)) {
    (c.id@, c.manifest_id, c.expire_time)
}

/// Checkpoint changes by view.
pub open spec fn cp_change_views(s: Seq<CheckpointChangeDto>) -> Seq<(Seq<char>, (u64, u64), (Option<UtcTime>, Option<UtcTime>))> {
    s.map_values(|c: CheckpointChangeDto| cp_change_view(c))
}

/// Swaps the two sides of each checkpoint change.
pub open spec fn swap_cp_views(s: Seq<(Seq<char>, (u64, u64), (Option<UtcTime>, Option<UtcTime>))>) -> Seq<
    (Seq<char>, (u64, u64), (Option<UtcTime>, Option<UtcTime>)),
> {
    s.map_values(|c: (Seq<char>, (u64, u64), (Option<UtcTime>, Option<UtcTime>))| (c.0, (c.1.1, c.1.0), (c.2.1, c.2.0)))
}

spec fn id_lt(x: SortedRunDto, y: SortedRunDto) -> bool {
    x.id < y.id
}

spec fn key_lt(x: CheckpointDto, y: CheckpointDto) -> bool {
    seq_lt(x.skey(), y.skey())
}

/// A run of a sequence with increasing ids is the one found at its id.
proof fn lemma_member_run(r: Seq<SortedRunDto>, x: SortedRunDto)
    requires
        forall|i: int, j: int| 0 <= i < j < r.len() ==> #[trigger] r[i].id < #[trigger] r[j].id,
        r.contains(x),
    ensures
        has_run_id(r, x.id),
        run_with_id(r, x.id) == x,
{
    let k = choose|k: int| 0 <= k < r.len() && r[k] == x;
    assert(r[k].id == x.id);
    lemma_run_with_id(r, k);
}

/// Between two run sequences with increasing ids, the runs changed going
/// one way are the runs changed going the other way, with what was added
/// and what was removed exchanged.
proof fn lemma_run_changes_swap(ra: Seq<SortedRunDto>, rb: Seq<SortedRunDto>)
    requires
        forall|i: int, j: int| 0 <= i < j < ra.len() ==> #[trigger] ra[i].id < #[trigger] ra[j].id,
        forall|i: int, j: int| 0 <= i < j < rb.len() ==> #[trigger] rb[i].id < #[trigger] rb[j].id,
    ensures
        run_changes(rb, ra) == swap_run_changes(run_changes(ra, rb)),
{
    let pa = run_changed_in(rb);
    let pb = run_changed_in(ra);
    let fa = ra.filter(pa);
    let fb = rb.filter(pb);
    let lt = |x: SortedRunDto, y: SortedRunDto| id_lt(x, y);
    assert forall|i: int, j: int| 0 <= i < j < ra.len() implies #[trigger] lt(ra[i], ra[j]) by {}
    assert forall|i: int, j: int| 0 <= i < j < rb.len() implies #[trigger] lt(rb[i], rb[j]) by {}
    lemma_filter_keeps_order(ra, pa, lt);
    lemma_filter_keeps_order(rb, pb, lt);
    ra.filter_lemma(pa);
    rb.filter_lemma(pb);
    let ka = ids_of(fa);
    let kb = ids_of(fb);
    assert forall|i: int, j: int| 0 <= i < j < ka.len() implies #[trigger] ka[i] < #[trigger] ka[j] by {
        assert(lt(fa[i], fa[j]));
    }
    assert forall|i: int, j: int| 0 <= i < j < kb.len() implies #[trigger] kb[i] < #[trigger] kb[j] by {
        assert(lt(fb[i], fb[j]));
    }
    assert forall|id: u32| ka.contains(id) implies kb.contains(id) by {
        let i = choose|i: int| 0 <= i < ka.len() && ka[i] == id;
        let x = fa[i];
        assert(ra.contains(x) && pa(x));
        lemma_member_run(ra, x);
        let k = run_index_of(rb, id);
        let y = rb[k];
        assert(y.id == id);
        assert(rb.contains(y));
        lemma_member_run(rb, y);
        assert(pb(y));
        assert(fb.contains(y));
        let j = choose|j: int| 0 <= j < fb.len() && fb[j] == y;
        assert(kb[j] == id);
    }
    assert forall|id: u32| kb.contains(id) implies ka.contains(id) by {
        let i = choose|i: int| 0 <= i < kb.len() && kb[i] == id;
        let y = fb[i];
        assert(rb.contains(y) && pb(y));
        lemma_member_run(rb, y);
        let k = run_index_of(ra, id);
        let x = ra[k];
        assert(x.id == id);
        assert(ra.contains(x));
        lemma_member_run(ra, x);
        assert(pa(x));
        assert(fa.contains(x));
        let j = choose|j: int| 0 <= j < fa.len() && fa[j] == x;
        assert(ka[j] == id);
    }
    lemma_sorted_ids_equal(ka, kb);
    assert(fa.len() == ka.len() && fb.len() == kb.len());
    let lhs = run_changes(rb, ra);
    let rhs = swap_run_changes(run_changes(ra, rb));
    assert forall|i: int| 0 <= i < fa.len() implies lhs[i] == rhs[i] by {
        let x = fa[i];
        let y = fb[i];
        assert(ka[i] == kb[i]);
        assert(ra.contains(x) && rb.contains(y));
        lemma_member_run(ra, x);
        lemma_member_run(rb, y);
    }
    assert(lhs =~= rhs);
}

/// Between two key-sorted checkpoint lists, the checkpoints changed going
/// one way are those changed going the other way, with old and new values
/// exchanged.
proof fn lemma_cp_changes_swap(la: Seq<CheckpointDto>, lb: Seq<CheckpointDto>)
    requires
        strictly_sorted(la),
        strictly_sorted(lb),
    ensures
        cp_change_views(cp_changes(lb, la)) == swap_cp_views(cp_change_views(cp_changes(la, lb))),
{
    let pa = cp_changed_in(lb);
    let pb = cp_changed_in(la);
    let fa = la.filter(pa);
    let fb = lb.filter(pb);
    let lt = |x: CheckpointDto, y: CheckpointDto| key_lt(x, y);
    assert forall|i: int, j: int| 0 <= i < j < la.len() implies #[trigger] lt(la[i], la[j]) by {}
    assert forall|i: int, j: int| 0 <= i < j < lb.len() implies #[trigger] lt(lb[i], lb[j]) by {}
    lemma_filter_keeps_order(la, pa, lt);
    lemma_filter_keeps_order(lb, pb, lt);
    let ka = keys_of(fa);
    let kb = keys_of(fb);
    assert forall|i: int, j: int| 0 <= i < j < ka.len() implies seq_lt(#[trigger] ka[i], #[trigger] ka[j]) by {
        assert(lt(fa[i], fa[j]));
    }
    assert forall|i: int, j: int| 0 <= i < j < kb.len() implies seq_lt(#[trigger] kb[i], #[trigger] kb[j]) by {
        assert(lt(fb[i], fb[j]));
    }
    assert forall|k: Seq<char>| ka.contains(k) implies kb.contains(k) by {
        let i = choose|i: int| 0 <= i < ka.len() && ka[i] == k;
        let x = fa[i];
        assert(la.contains(x) && pa(x));
        let q = choose|q: int| 0 <= q < la.len() && la[q] == x;
        lemma_keyed(la, q);
        let y = keyed(lb, k);
        let r = keyed_index(lb, k);
        assert(lb[r] == y && y.skey() == k);
        lemma_keyed(lb, r);
        assert(has_key(la, k));
        assert(pb(y));
        lb.filter_lemma(pb);
        assert(fb.contains(y));
        let j = choose|j: int| 0 <= j < fb.len() && fb[j] == y;
        assert(kb[j] == k);
    }
    assert forall|k: Seq<char>| kb.contains(k) implies ka.contains(k) by {
        let i = choose|i: int| 0 <= i < kb.len() && kb[i] == k;
        let y = fb[i];
        assert(lb.contains(y) && pb(y));
        let q = choose|q: int| 0 <= q < lb.len() && lb[q] == y;
        lemma_keyed(lb, q);
        let x = keyed(la, k);
        let r = keyed_index(la, k);
        assert(la[r] == x && x.skey() == k);
        lemma_keyed(la, r);
        assert(has_key(lb, k));
        assert(pa(x));
        la.filter_lemma(pa);
        assert(fa.contains(x));
        let j = choose|j: int| 0 <= j < fa.len() && fa[j] == x;
        assert(ka[j] == k);
    }
    lemma_sorted_same_keys(ka, kb);
    assert(fa.len() == ka.len() && fb.len() == kb.len());
    let lhs = cp_change_views(cp_changes(lb, la));
    let rhs = swap_cp_views(cp_change_views(cp_changes(la, lb)));
    assert forall|i: int| 0 <= i < fa.len() implies lhs[i] == rhs[i] by {
        let x = fa[i];
        let y = fb[i];
        assert(ka[i] == kb[i]);
        assert(la.contains(x) && lb.contains(y));
        let q = choose|q: int| 0 <= q < la.len() && la[q] == x;
        let r = choose|r: int| 0 <= r < lb.len() && lb[r] == y;
        lemma_keyed(la, q);
        lemma_keyed(lb, r);
    }
    assert(lhs =~= rhs);
}

/// A checkpoint that both manifests hold (the last entry per id on each
/// side) is reported as changed exactly when its manifest id or its expiry
/// differs between them, with the value in `a` first and the value in `b`
/// second; every reported change is such a difference.
pub proof fn lemma_checkpoint_changes_exact(a: ManifestDto, b: ManifestDto, d: ManifestDiffDto)
    requires
        diff_matches(a, b, d),
    ensures
        forall|x: int, y: int|
            0 <= x < last_by_key(a.checkpoints@).len() && 0 <= y < last_by_key(b.checkpoints@).len() && (#[trigger] last_by_key(
                a.checkpoints@,
            )[x]).id@ == (#[trigger] last_by_key(b.checkpoints@)[y]).id@ && (last_by_key(a.checkpoints@)[x].manifest_id
                != last_by_key(b.checkpoints@)[y].manifest_id || last_by_key(a.checkpoints@)[x].expire_time
                != last_by_key(b.checkpoints@)[y].expire_time) ==> exists|j: int|
                0 <= j < d.checkpoints_changed@.len() && (#[trigger] d.checkpoints_changed@[j]).id@ == last_by_key(
                    b.checkpoints@,
                )[y].id@ && d.checkpoints_changed@[j].manifest_id == (
                    last_by_key(a.checkpoints@)[x].manifest_id,
                    last_by_key(b.checkpoints@)[y].manifest_id,
                ) && d.checkpoints_changed@[j].expire_time == (
                    last_by_key(a.checkpoints@)[x].expire_time,
                    last_by_key(b.checkpoints@)[y].expire_time,
                ),
        forall|j: int|
            0 <= j < d.checkpoints_changed@.len() ==> (#[trigger] d.checkpoints_changed@[j]).manifest_id.0
                != d.checkpoints_changed@[j].manifest_id.1 || d.checkpoints_changed@[j].expire_time.0
                != d.checkpoints_changed@[j].expire_time.1,
{
    let la = last_by_key(a.checkpoints@);
    let lb = last_by_key(b.checkpoints@);
    let pred = cp_changed_in(la);
    let f = lb.filter(pred);
    lb.filter_lemma(pred);
    assert(d.checkpoints_changed@ == cp_changes(la, lb));
    assert forall|x: int, y: int|
        0 <= x < la.len() && 0 <= y < lb.len() && (#[trigger] la[x]).id@ == (#[trigger] lb[y]).id@ && (la[x].manifest_id
            != lb[y].manifest_id || la[x].expire_time != lb[y].expire_time) implies exists|j: int|
        0 <= j < d.checkpoints_changed@.len() && (#[trigger] d.checkpoints_changed@[j]).id@ == lb[y].id@
            && d.checkpoints_changed@[j].manifest_id == (la[x].manifest_id, lb[y].manifest_id)
            && d.checkpoints_changed@[j].expire_time == (la[x].expire_time, lb[y].expire_time) by {
        lemma_keyed(la, x);
        assert(la[x].skey() == lb[y].id@);
        assert(has_key(la, lb[y].id@));
        assert(keyed(la, lb[y].id@) == la[x]);
        assert(pred(lb[y]));
        assert(f.contains(lb[y]));
        let j = choose|j: int| 0 <= j < f.len() && f[j] == lb[y];
        assert(d.checkpoints_changed@[j] == cp_change_of(la, f[j]));
    }
    assert forall|j: int| 0 <= j < d.checkpoints_changed@.len() implies (#[trigger] d.checkpoints_changed@[j]).manifest_id.0
        != d.checkpoints_changed@[j].manifest_id.1 || d.checkpoints_changed@[j].expire_time.0
        != d.checkpoints_changed@[j].expire_time.1 by {
        assert(d.checkpoints_changed@[j] == cp_change_of(la, f[j]));
        assert(pred(f[j]));
    }
}

/// Swaps the two texts of each scalar change.
pub open spec fn swap_sides(s: Seq<(Seq<char>, Seq<char>, Seq<char>)>) -> Seq<(Seq<char>, Seq<char>, Seq<char>)> {
    s.map_values(|r: (Seq<char>, Seq<char>, Seq<char>)| (r.0, r.2, r.1))
}

/// Diffing in the other direction swaps what was added and what was
/// removed, what each changed run gained and lost, the old and new values
/// of each changed checkpoint, and the two sides of every scalar change.
pub proof fn lemma_diff_swap(a: ManifestDto, b: ManifestDto, d1: ManifestDiffDto, d2: ManifestDiffDto)
    requires
        diff_matches(a, b, d1),
        diff_matches(b, a, d2),
    ensures
        d1.l0_added@ == d2.l0_removed@,
        d1.l0_removed@ == d2.l0_added@,
        d1.runs_added@ == d2.runs_removed@,
        d1.runs_removed@ == d2.runs_added@,
        d1.segments_added@ == d2.segments_removed@,
        d1.segments_removed@ == d2.segments_added@,
        d1.checkpoints_added@ == d2.checkpoints_removed@,
        d1.checkpoints_removed@ == d2.checkpoints_added@,
        d1.external_dbs_added@ == d2.external_dbs_removed@,
        d1.external_dbs_removed@ == d2.external_dbs_added@,
        change_views(d2.runs_changed@) == swap_run_changes(change_views(d1.runs_changed@)),
        cp_change_views(d2.checkpoints_changed@) == swap_cp_views(cp_change_views(d1.checkpoints_changed@)),
        scalar_views(d2.scalars@) == swap_sides(scalar_views(d1.scalars@)),
{
    lemma_scalar_changes_swap(a, b);
    lemma_run_changes_swap(runs_by_id(a.tree.runs@), runs_by_id(b.tree.runs@));
    lemma_cp_changes_swap(last_by_key(a.checkpoints@), last_by_key(b.checkpoints@));
}

proof fn lemma_swap_sides_add(x: Seq<(Seq<char>, Seq<char>, Seq<char>)>, y: Seq<(Seq<char>, Seq<char>, Seq<char>)>)
    ensures
        swap_sides(x + y) == swap_sides(x) + swap_sides(y),
{
    assert(swap_sides(x + y) =~= swap_sides(x) + swap_sides(y));
}

proof fn lemma_scalar_row_swap(f: Seq<char>, x: Seq<char>, y: Seq<char>)
    ensures
        scalar_row(f, y, x) == swap_sides(scalar_row(f, x, y)),
{
    assert(scalar_row(f, y, x) =~= swap_sides(scalar_row(f, x, y)));
}

proof fn lemma_scalar_changes_swap(a: ManifestDto, b: ManifestDto)
    ensures
        scalar_changes(b, a) == swap_sides(scalar_changes(a, b)),
{
    let r1 = scalar_row("initialized"@, bool_text(a.initialized), bool_text(b.initialized));
    let r2 = scalar_row("writer_epoch"@, dec(a.writer_epoch as nat), dec(b.writer_epoch as nat));
    let r3 = scalar_row("compactor_epoch"@, dec(a.compactor_epoch as nat), dec(b.compactor_epoch as nat));
    let r4 = scalar_row("next_wal_sst_id"@, dec(a.next_wal_sst_id as nat), dec(b.next_wal_sst_id as nat));
    let r5 = scalar_row("replay_after_wal_id"@, dec(a.replay_after_wal_id as nat), dec(b.replay_after_wal_id as nat));
    let r6 = scalar_row("last_l0_seq"@, dec(a.last_l0_seq as nat), dec(b.last_l0_seq as nat));
    let r7 = scalar_row("last_l0_clock_tick"@, dec_signed(a.last_l0_clock_tick as int), dec_signed(b.last_l0_clock_tick as int));
    let r8 = scalar_row("recent_snapshot_min_seq"@, dec(a.recent_snapshot_min_seq as nat), dec(b.recent_snapshot_min_seq as nat));
    let r9 = scalar_row("last_compacted_l0_sst_view_id"@, opt_text(a.last_compacted_l0_sst_view_id),
        opt_text(b.last_compacted_l0_sst_view_id));
    lemma_scalar_row_swap("initialized"@, bool_text(a.initialized), bool_text(b.initialized));
    lemma_scalar_row_swap("writer_epoch"@, dec(a.writer_epoch as nat), dec(b.writer_epoch as nat));
    lemma_scalar_row_swap("compactor_epoch"@, dec(a.compactor_epoch as nat), dec(b.compactor_epoch as nat));
    lemma_scalar_row_swap("next_wal_sst_id"@, dec(a.next_wal_sst_id as nat), dec(b.next_wal_sst_id as nat));
    lemma_scalar_row_swap("replay_after_wal_id"@, dec(a.replay_after_wal_id as nat), dec(b.replay_after_wal_id as nat));
    lemma_scalar_row_swap("last_l0_seq"@, dec(a.last_l0_seq as nat), dec(b.last_l0_seq as nat));
    lemma_scalar_row_swap("last_l0_clock_tick"@, dec_signed(a.last_l0_clock_tick as int), dec_signed(b.last_l0_clock_tick as int));
    lemma_scalar_row_swap("recent_snapshot_min_seq"@, dec(a.recent_snapshot_min_seq as nat), dec(b.recent_snapshot_min_seq as nat));
    lemma_scalar_row_swap("last_compacted_l0_sst_view_id"@, opt_text(a.last_compacted_l0_sst_view_id),
        opt_text(b.last_compacted_l0_sst_view_id));
    lemma_swap_sides_add(r1, r2);
    lemma_swap_sides_add(r1 + r2, r3);
    lemma_swap_sides_add(r1 + r2 + r3, r4);
    lemma_swap_sides_add(r1 + r2 + r3 + r4, r5);
    lemma_swap_sides_add(r1 + r2 + r3 + r4 + r5, r6);
    lemma_swap_sides_add(r1 + r2 + r3 + r4 + r5 + r6, r7);
    lemma_swap_sides_add(r1 + r2 + r3 + r4 + r5 + r6 + r7, r8);
    lemma_swap_sides_add(r1 + r2 + r3 + r4 + r5 + r6 + r7 + r8, r9);
}

/// How many SSTs a list holds and their size estimates' sum.
pub open spec fn delta_of(s: Seq<SstViewDto>) -> SstDeltaDto {
    SstDeltaDto { count: s.len() as usize, bytes: views_bytes(s) as u64 }
}

/// The aggregate of one run's membership change.
pub open spec fn change_summary(c: RunChangeDto) -> RunChangeSummaryDto {
    RunChangeSummaryDto { id: c.id, added: delta_of(c.ssts_added@), removed: delta_of(c.ssts_removed@) }
}

/// Every SST list of the diff has a size sum within `u64`.
pub open spec fn sums_fit(d: ManifestDiffDto) -> bool {
    &&& views_bytes(d.l0_added@) <= u64::MAX
    &&& views_bytes(d.l0_removed@) <= u64::MAX
    &&& forall|i: int|
        0 <= i < d.runs_changed@.len() ==> views_bytes((#[trigger] d.runs_changed@[i]).ssts_added@) <= u64::MAX
            && views_bytes(d.runs_changed@[i].ssts_removed@) <= u64::MAX
}

/// Whether every SST list of the diff sums within a `u64`, as
/// `summarize_diff` requires.
pub fn check_sums(d: &ManifestDiffDto) -> (r: bool)
    ensures
        r == sums_fit(*d),
{
    if !check_views_bytes(&d.l0_added) || !check_views_bytes(&d.l0_removed) {
        return false;
    }
    let mut i: usize = 0;
    while i < d.runs_changed.len()
        invariant
            i <= d.runs_changed@.len(),
            views_bytes(d.l0_added@) <= u64::MAX,
            views_bytes(d.l0_removed@) <= u64::MAX,
            forall|k: int|
                0 <= k < i ==> views_bytes((#[trigger] d.runs_changed@[k]).ssts_added@) <= u64::MAX
                    && views_bytes(d.runs_changed@[k].ssts_removed@) <= u64::MAX,
        decreases d.runs_changed@.len() - i,
    {
        let c = &d.runs_changed[i];
        if !check_views_bytes(&c.ssts_added) || !check_views_bytes(&c.ssts_removed) {
            return false;
        }
        i = i + 1;
    }
    true
}

fn delta(v: &Vec<SstViewDto>) -> (r: SstDeltaDto)
    requires
        views_bytes(v@) <= u64::MAX,
    ensures
        r == delta_of(v@),
{
    SstDeltaDto { count: v.len(), bytes: views_total(v) }
}

/// The activity-feed form of a manifest diff: the same classification
/// without per-SST lists: SST lists become counts and byte sums, segment,
/// checkpoint-change and external-DB lists become counts.
pub fn summarize_diff(d: &ManifestDiffDto) -> (s: DiffSummaryDto)
    requires
        sums_fit(*d),
    ensures
        s.l0_added == delta_of(d.l0_added@),
        s.l0_removed == delta_of(d.l0_removed@),
        s.runs_added@ == d.runs_added@,
        s.runs_removed@ == d.runs_removed@,
        s.runs_changed@ == d.runs_changed@.map_values(|c: RunChangeDto| change_summary(c)),
        s.segments_added == d.segments_added@.len(),
        s.segments_removed == d.segments_removed@.len(),
        s.checkpoints_added@ == d.checkpoints_added@,
        s.checkpoints_removed@ == d.checkpoints_removed@,
        s.checkpoints_changed == d.checkpoints_changed@.len(),
        s.external_dbs_added == d.external_dbs_added@.len(),
        s.external_dbs_removed == d.external_dbs_removed@.len(),
        s.scalars@ == d.scalars@,
{
    let mut changed: Vec<RunChangeSummaryDto> = Vec::new();
    let mut i: usize = 0;
    while i < d.runs_changed.len()
        invariant
            i <= d.runs_changed@.len(),
            sums_fit(*d),
            changed@ == d.runs_changed@.take(i as int).map_values(|c: RunChangeDto| change_summary(c)),
        decreases d.runs_changed@.len() - i,
    {
        let c = &d.runs_changed[i];
        assert(views_bytes(d.runs_changed@[i as int].ssts_added@) <= u64::MAX);
        let added = delta(&c.ssts_added);
        let removed = delta(&c.ssts_removed);
        changed.push(RunChangeSummaryDto { id: c.id, added, removed });
        assert(d.runs_changed@.take(i + 1).map_values(|c: RunChangeDto| change_summary(c)) =~= d.runs_changed@.take(
            i as int,
        ).map_values(|c: RunChangeDto| change_summary(c)).push(change_summary(*c)));
        i = i + 1;
    }
    assert(d.runs_changed@.take(d.runs_changed@.len() as int) =~= d.runs_changed@);
    DiffSummaryDto {
        l0_added: delta(&d.l0_added),
        l0_removed: delta(&d.l0_removed),
        runs_added: dup_vec(&d.runs_added),
        runs_removed: dup_vec(&d.runs_removed),
        runs_changed: changed,
        segments_added: d.segments_added.len(),
        segments_removed: d.segments_removed.len(),
        checkpoints_added: dup_vec(&d.checkpoints_added),
        checkpoints_removed: dup_vec(&d.checkpoints_removed),
        checkpoints_changed: d.checkpoints_changed.len(),
        external_dbs_added: d.external_dbs_added.len(),
        external_dbs_removed: d.external_dbs_removed.len(),
        scalars: dup_vec(&d.scalars),
    }
}

} // verus!
