//! Building report values from raw data: keys from their bytes, trees from
//! their SST views and sorted runs, and manifest-wide totals.

use vstd::prelude::*;
use vstd::string::StringSliceAdditionalSpecFns;
use vstd::utf8::{valid_utf8, decode_utf8};
use crate::dto::{KeyDto, SstViewDto, SortedRunDto, TreeDto, ManifestDto, SegmentDto};

verus! {

/// The lowercase hexadecimal digit for `d` (< 16).
pub open spec fn hex_digit(d: u8) -> char {
    if d < 10 {
        (48 + d) as char
    } else {
        (87 + d) as char
    }
}

/// Lowercase hexadecimal of `b`, two digits per byte, high nibble first.
pub open spec fn hex_text(b: Seq<u8>) -> Seq<char>
    decreases b.len(),
{
    if b.len() == 0 {
        seq![]
    } else {
        hex_text(b.drop_last()) + seq![hex_digit(b.last() / 16), hex_digit(b.last() % 16)]
    }
}

/// `hex::encode`: the bytes as lowercase hexadecimal, two digits per byte
/// with the high nibble first (as the crate documents and its
/// `BytesToHexChars` iterator does).
#[verifier::external_body]
fn hex_encode(b: &[u8]) -> (r: String)
    ensures
        r@ == hex_text(b@),
{
    hex::encode(b)
}

/// `std::str::from_utf8`: the text of the bytes when they are valid UTF-8.
#[verifier::external_body]
fn utf8_str(b: &[u8]) -> (r: Option<&str>)
    ensures
        r is Some <==> valid_utf8(b@),
        r matches Some(s) ==> s@ == decode_utf8(b@) && s.spec_bytes() == b@,
{
    std::str::from_utf8(b).ok()
}

/// A control character (Unicode general category Cc).
pub open spec fn is_control(c: char) -> bool {
    (c as u32) <= 0x1f || (0x7f <= (c as u32) && (c as u32) <= 0x9f)
}

/// The printable text of a key: its UTF-8 decoding when the bytes are
/// valid UTF-8, not empty, and free of control characters.
pub open spec fn printable_text(b: Seq<u8>) -> Option<Seq<char>> {
    if valid_utf8(b) && decode_utf8(b).len() > 0 && forall|i: int|
        0 <= i < decode_utf8(b).len() ==> !is_control(#[trigger] decode_utf8(b)[i]) {
        Some(decode_utf8(b))
    } else {
        None
    }
}

/// An optional string as optional text.
pub open spec fn opt_chars(o: Option<String>) -> Option<Seq<char>> {
    match o {
        Some(s) => Some(s@),
        None => None,
    }
}

/// A key from its bytes: lowercase hex, plus its UTF-8 text when that is
/// printable.
pub fn key_dto(b: &[u8]) -> (k: KeyDto)
    ensures
        k.hex@ == hex_text(b@),
        opt_chars(k.utf8) == printable_text(b@),
{
    let hex = hex_encode(b);
    let utf8 = match utf8_str(b) {
        None => None,
        Some(s) => {
            let cs = crate::text::chars_of(s);
            let mut ok = cs.len() > 0;
            let mut i: usize = 0;
            while i < cs.len()
                invariant
                    i <= cs@.len(),
                    cs@ == s@,
                    ok == (cs@.len() > 0 && forall|j: int| 0 <= j < i ==> !is_control(#[trigger] cs@[j])),
                decreases cs@.len() - i,
            {
                let u = cs[i] as u32;
                if u <= 0x1f || (0x7f <= u && u <= 0x9f) {
                    ok = false;
                }
                i = i + 1;
            }
            if ok {
                Some(s.to_owned())
            } else {
                None
            }
        },
    };
    KeyDto { hex, utf8 }
}

/// Sum of the size estimates of SST views.
pub open spec fn views_bytes(s: Seq<SstViewDto>) -> int
    decreases s.len(),
{
    if s.len() == 0 {
        0
    } else {
        views_bytes(s.drop_last()) + s.last().est_bytes
    }
}

/// Sum of the size estimates of sorted runs.
pub open spec fn runs_bytes(s: Seq<SortedRunDto>) -> int
    decreases s.len(),
{
    if s.len() == 0 {
        0
    } else {
        runs_bytes(s.drop_last()) + s.last().est_bytes
    }
}

/// The total size estimate of SST views.
pub fn views_total(v: &Vec<SstViewDto>) -> (r: u64)
    requires
        views_bytes(v@) <= u64::MAX,
    ensures
        r == views_bytes(v@),
{
    let mut total: u64 = 0;
    let mut i: usize = 0;
    while i < v.len()
        invariant
            i <= v@.len(),
            total == views_bytes(v@.take(i as int)),
            views_bytes(v@) <= u64::MAX,
        decreases v@.len() - i,
    {
        proof {
            assert(v@.take(i + 1).drop_last() =~= v@.take(i as int));
            lemma_views_bytes_take(v@, i + 1);
        }
        total = total + v[i].est_bytes;
        i = i + 1;
    }
    assert(v@.take(v@.len() as int) =~= v@);
    total
}

/// A tree from its L0 views and sorted runs, with its L0 and total size
/// estimates.
pub fn tree_dto(l0: Vec<SstViewDto>, runs: Vec<SortedRunDto>) -> (t: TreeDto)
    requires
        views_bytes(l0@) + runs_bytes(runs@) <= u64::MAX,
    ensures
        t.l0@ == l0@,
        t.runs@ == runs@,
        t.l0_bytes == views_bytes(l0@),
        t.total_bytes == views_bytes(l0@) + runs_bytes(runs@),
{
    let mut l0_bytes: u64 = 0;
    let mut i: usize = 0;
    proof {
        lemma_runs_bytes_nonneg(runs@);
    }
    while i < l0.len()
        invariant
            i <= l0@.len(),
            l0_bytes == views_bytes(l0@.take(i as int)),
            views_bytes(l0@) + runs_bytes(runs@) <= u64::MAX,
            runs_bytes(runs@) >= 0,
        decreases l0@.len() - i,
    {
        proof {
            assert(l0@.take(i + 1).drop_last() =~= l0@.take(i as int));
            lemma_views_bytes_take(l0@, i + 1);
        }
        l0_bytes = l0_bytes + l0[i].est_bytes;
        i = i + 1;
    }
    assert(l0@.take(l0@.len() as int) =~= l0@);
    let mut total_bytes: u64 = l0_bytes;
    let mut j: usize = 0;
    while j < runs.len()
        invariant
            j <= runs@.len(),
            total_bytes == views_bytes(l0@) + runs_bytes(runs@.take(j as int)),
            views_bytes(l0@) + runs_bytes(runs@) <= u64::MAX,
        decreases runs@.len() - j,
    {
        proof {
            assert(runs@.take(j + 1).drop_last() =~= runs@.take(j as int));
            lemma_runs_bytes_take(runs@, j + 1);
        }
        total_bytes = total_bytes + runs[j].est_bytes;
        j = j + 1;
    }
    assert(runs@.take(runs@.len() as int) =~= runs@);
    TreeDto { l0, runs, l0_bytes, total_bytes }
}

proof fn lemma_runs_bytes_nonneg(s: Seq<SortedRunDto>)
    ensures
        runs_bytes(s) >= 0,
    decreases s.len(),
{
    if s.len() > 0 {
        lemma_runs_bytes_nonneg(s.drop_last());
    }
}

pub proof fn lemma_views_bytes_take(s: Seq<SstViewDto>, i: int)
    requires
        0 <= i <= s.len(),
    ensures
        views_bytes(s.take(i)) <= views_bytes(s),
    decreases s.len() - i,
{
    if i < s.len() {
        lemma_views_bytes_take(s, i + 1);
        assert(s.take(i + 1).drop_last() =~= s.take(i));
    } else {
        assert(s.take(i) =~= s);
    }
}

proof fn lemma_runs_bytes_take(s: Seq<SortedRunDto>, i: int)
    requires
        0 <= i <= s.len(),
    ensures
        runs_bytes(s.take(i)) <= runs_bytes(s),
    decreases s.len() - i,
{
    if i < s.len() {
        lemma_runs_bytes_take(s, i + 1);
        assert(s.take(i + 1).drop_last() =~= s.take(i));
    } else {
        assert(s.take(i) =~= s);
    }
}


/// The root tree of a manifest, then each segment's tree.
pub open spec fn all_trees(d: ManifestDto) -> Seq<TreeDto> {
    seq![d.tree] + d.segments@.map_values(|s: SegmentDto| s.tree)
}

/// Sum of `f` over `ts`.
pub open spec fn tree_sum(ts: Seq<TreeDto>, f: spec_fn(TreeDto) -> int) -> int
    decreases ts.len(),
{
    if ts.len() == 0 {
        0
    } else {
        tree_sum(ts.drop_last(), f) + f(ts.last())
    }
}

/// Number of SSTs across sorted runs.
pub open spec fn run_sst_count(rs: Seq<SortedRunDto>) -> int
    decreases rs.len(),
{
    if rs.len() == 0 {
        0
    } else {
        run_sst_count(rs.drop_last()) + rs.last().ssts@.len()
    }
}

pub open spec fn l0_count_of() -> spec_fn(TreeDto) -> int {
    |t: TreeDto| t.l0@.len() as int
}

pub open spec fn run_count_of() -> spec_fn(TreeDto) -> int {
    |t: TreeDto| t.runs@.len() as int
}

pub open spec fn sst_count_of() -> spec_fn(TreeDto) -> int {
    |t: TreeDto| t.l0@.len() + run_sst_count(t.runs@)
}

pub open spec fn l0_bytes_of() -> spec_fn(TreeDto) -> int {
    |t: TreeDto| t.l0_bytes as int
}

pub open spec fn total_bytes_of() -> spec_fn(TreeDto) -> int {
    |t: TreeDto| t.total_bytes as int
}

proof fn lemma_run_sst_count_take(rs: Seq<SortedRunDto>, i: int)
    requires
        0 <= i <= rs.len(),
    ensures
        0 <= run_sst_count(rs.take(i)) <= run_sst_count(rs),
    decreases rs.len() - i,
{
    if i < rs.len() {
        lemma_run_sst_count_take(rs, i + 1);
        assert(rs.take(i + 1).drop_last() =~= rs.take(i));
        lemma_run_sst_count_nonneg(rs.take(i));
    } else {
        assert(rs.take(i) =~= rs);
        lemma_run_sst_count_nonneg(rs);
    }
}

proof fn lemma_run_sst_count_nonneg(rs: Seq<SortedRunDto>)
    ensures
        run_sst_count(rs) >= 0,
    decreases rs.len(),
{
    if rs.len() > 0 {
        lemma_run_sst_count_nonneg(rs.drop_last());
    }
}

proof fn lemma_tree_sum_take(ts: Seq<TreeDto>, f: spec_fn(TreeDto) -> int, i: int)
    requires
        0 <= i <= ts.len(),
        forall|t: TreeDto| #[trigger] f(t) >= 0,
    ensures
        0 <= tree_sum(ts.take(i), f) <= tree_sum(ts, f),
    decreases ts.len() - i,
{
    if i < ts.len() {
        lemma_tree_sum_take(ts, f, i + 1);
        assert(ts.take(i + 1).drop_last() =~= ts.take(i));
        assert(ts.take(i + 1).last() == ts[i]);
        assert(f(ts[i]) >= 0);
        lemma_tree_sum_nonneg(ts.take(i), f);
    } else {
        assert(ts.take(i) =~= ts);
        lemma_tree_sum_nonneg(ts, f);
    }
}

proof fn lemma_tree_sum_nonneg(ts: Seq<TreeDto>, f: spec_fn(TreeDto) -> int)
    requires
        forall|t: TreeDto| #[trigger] f(t) >= 0,
    ensures
        tree_sum(ts, f) >= 0,
    decreases ts.len(),
{
    if ts.len() > 0 {
        lemma_tree_sum_nonneg(ts.drop_last(), f);
    }
}

/// Number of SSTs across the sorted runs `rs`.
fn count_run_ssts(rs: &Vec<SortedRunDto>) -> (n: usize)
    requires
        run_sst_count(rs@) <= usize::MAX,
    ensures
        n == run_sst_count(rs@),
{
    let mut n: usize = 0;
    let mut i: usize = 0;
    while i < rs.len()
        invariant
            i <= rs@.len(),
            n == run_sst_count(rs@.take(i as int)),
            run_sst_count(rs@) <= usize::MAX,
        decreases rs@.len() - i,
    {
        proof {
            assert(rs@.take(i + 1).drop_last() =~= rs@.take(i as int));
            lemma_run_sst_count_take(rs@, i + 1);
        }
        n = n + rs[i].ssts.len();
        i = i + 1;
    }
    assert(rs@.take(rs@.len() as int) =~= rs@);
    n
}

/// The totals of a manifest fit their types.
pub open spec fn totals_fit(d: ManifestDto) -> bool {
    &&& tree_sum(all_trees(d), sst_count_of()) <= usize::MAX
    &&& tree_sum(all_trees(d), run_count_of()) <= usize::MAX
    &&& tree_sum(all_trees(d), l0_bytes_of()) <= u64::MAX
    &&& tree_sum(all_trees(d), total_bytes_of()) <= u64::MAX
}

/// (L0 SST count, sorted run count, SST count, L0 bytes, total bytes),
/// summed over the root tree and all segment trees.
pub fn manifest_totals(dto: &ManifestDto) -> (r: (usize, usize, usize, u64, u64))
    requires
        totals_fit(*dto),
    ensures
        r.0 == tree_sum(all_trees(*dto), l0_count_of()),
        r.1 == tree_sum(all_trees(*dto), run_count_of()),
        r.2 == tree_sum(all_trees(*dto), sst_count_of()),
        r.3 == tree_sum(all_trees(*dto), l0_bytes_of()),
        r.4 == tree_sum(all_trees(*dto), total_bytes_of()),
{
    let ghost ts = all_trees(*dto);
    let mut l0_count: usize = 0;
    let mut run_count: usize = 0;
    let mut sst_count: usize = 0;
    let mut l0_bytes: u64 = 0;
    let mut total_bytes: u64 = 0;
    proof {
        assert forall|t: TreeDto| (#[trigger] run_sst_count(t.runs@)) >= 0 by {
            lemma_run_sst_count_nonneg(t.runs@);
        }
        assert(forall|t: TreeDto| (#[trigger] l0_count_of()(t)) >= 0);
        assert(forall|t: TreeDto| (#[trigger] run_count_of()(t)) >= 0);
        assert(forall|t: TreeDto| (#[trigger] sst_count_of()(t)) >= 0);
        assert(forall|t: TreeDto| (#[trigger] l0_bytes_of()(t)) >= 0);
        assert(forall|t: TreeDto| (#[trigger] total_bytes_of()(t)) >= 0);
        assert(ts.take(0) =~= Seq::<TreeDto>::empty());
    }
    let ghost n = ts.len();
    let mut i: usize = 0;
    while i <= dto.segments.len()
        invariant_except_break
            ts == all_trees(*dto),
            n == ts.len(),
            n == dto.segments@.len() + 1,
            i < n,
            totals_fit(*dto),
            forall|t: TreeDto| (#[trigger] run_sst_count(t.runs@)) >= 0,
            forall|t: TreeDto| (#[trigger] l0_count_of()(t)) >= 0,
            forall|t: TreeDto| (#[trigger] run_count_of()(t)) >= 0,
            forall|t: TreeDto| (#[trigger] sst_count_of()(t)) >= 0,
            forall|t: TreeDto| (#[trigger] l0_bytes_of()(t)) >= 0,
            forall|t: TreeDto| (#[trigger] total_bytes_of()(t)) >= 0,
            l0_count == tree_sum(ts.take(i as int), l0_count_of()),
            run_count == tree_sum(ts.take(i as int), run_count_of()),
            sst_count == tree_sum(ts.take(i as int), sst_count_of()),
            l0_bytes == tree_sum(ts.take(i as int), l0_bytes_of()),
            total_bytes == tree_sum(ts.take(i as int), total_bytes_of()),
        ensures
            l0_count == tree_sum(ts, l0_count_of()),
            run_count == tree_sum(ts, run_count_of()),
            sst_count == tree_sum(ts, sst_count_of()),
            l0_bytes == tree_sum(ts, l0_bytes_of()),
            total_bytes == tree_sum(ts, total_bytes_of()),
        decreases n - i,
    {
        let k = i;
        let t = if k == 0 {
            &dto.tree
        } else {
            &dto.segments[k - 1].tree
        };
        proof {
            assert(*t == ts[k as int]);
            assert(ts.take(k + 1).drop_last() =~= ts.take(k as int));
            assert(ts.take(k + 1).last() == ts[k as int]);
            lemma_tree_sum_take(ts, sst_count_of(), k + 1);
            lemma_tree_sum_take(ts, run_count_of(), k + 1);
            lemma_tree_sum_take(ts, l0_bytes_of(), k + 1);
            lemma_tree_sum_take(ts, total_bytes_of(), k + 1);
            lemma_tree_sum_take(ts, l0_count_of(), k + 1);
            lemma_tree_sum_take(ts, sst_count_of(), k as int);
            assert(tree_sum(ts.take(k + 1), l0_count_of()) <= tree_sum(ts.take(k + 1), sst_count_of())) by {
                lemma_l0_le_sst(ts.take(k + 1));
            }
            lemma_run_sst_count_nonneg(t.runs@);
        }
        let run_ssts = count_run_ssts(&t.runs);
        l0_count = l0_count + t.l0.len();
        run_count = run_count + t.runs.len();
        sst_count = sst_count + t.l0.len() + run_ssts;
        l0_bytes = l0_bytes + t.l0_bytes;
        total_bytes = total_bytes + t.total_bytes;
        if k == dto.segments.len() {
            assert(ts.take(k + 1) =~= ts);
            break;
        }
        i = i + 1;
    }
    (l0_count, run_count, sst_count, l0_bytes, total_bytes)
}

proof fn lemma_l0_le_sst(ts: Seq<TreeDto>)
    ensures
        tree_sum(ts, l0_count_of()) <= tree_sum(ts, sst_count_of()),
    decreases ts.len(),
{
    if ts.len() > 0 {
        lemma_l0_le_sst(ts.drop_last());
        lemma_run_sst_count_nonneg(ts.last().runs@);
    }
}

/// The SSTs of a tree (L0 and every sorted run), when they number at most
/// `usize::MAX`.
fn tree_ssts_within_usize(t: &TreeDto) -> (r: Option<u128>)
    ensures
        r is Some <==> sst_count_of()(*t) <= usize::MAX,
        r matches Some(x) ==> x == sst_count_of()(*t),
{
    let mut n: u128 = 0;
    let mut j: usize = 0;
    while j < t.runs.len()
        invariant
            j <= t.runs@.len(),
            n == run_sst_count(t.runs@.take(j as int)),
            n <= usize::MAX,
        decreases t.runs@.len() - j,
    {
        proof {
            assert(t.runs@.take(j + 1).drop_last() =~= t.runs@.take(j as int));
            lemma_run_sst_count_take(t.runs@, j + 1);
        }
        let next = n + t.runs[j].ssts.len() as u128;
        if next > usize::MAX as u128 {
            proof {
                lemma_run_sst_count_take(t.runs@, j + 1);
            }
            return None;
        }
        n = next;
        j = j + 1;
    }
    assert(t.runs@.take(t.runs@.len() as int) =~= t.runs@);
    let all = n + t.l0.len() as u128;
    if all > usize::MAX as u128 {
        None
    } else {
        Some(all)
    }
}

/// Whether the totals of `d` fit their types, as `manifest_totals`
/// requires.
pub fn check_totals(d: &ManifestDto) -> (r: bool)
    ensures
        r == totals_fit(*d),
{
    let ghost ts = all_trees(*d);
    proof {
        assert forall|t: TreeDto| (#[trigger] run_sst_count(t.runs@)) >= 0 by {
            lemma_run_sst_count_nonneg(t.runs@);
        }
        assert(forall|t: TreeDto| (#[trigger] run_count_of()(t)) >= 0);
        assert(forall|t: TreeDto| (#[trigger] sst_count_of()(t)) >= 0);
        assert(forall|t: TreeDto| (#[trigger] l0_bytes_of()(t)) >= 0);
        assert(forall|t: TreeDto| (#[trigger] total_bytes_of()(t)) >= 0);
        assert(ts.take(0) =~= Seq::<TreeDto>::empty());
    }
    let mut ssts: u128 = 0;
    let mut runs: u128 = 0;
    let mut l0_bytes: u128 = 0;
    let mut total: u128 = 0;
    let ghost n = ts.len();
    let mut i: usize = 0;
    while i <= d.segments.len()
        invariant_except_break
            ts == all_trees(*d),
            n == ts.len(),
            n == d.segments@.len() + 1,
            i < n,
            forall|t: TreeDto| (#[trigger] run_sst_count(t.runs@)) >= 0,
            forall|t: TreeDto| (#[trigger] run_count_of()(t)) >= 0,
            forall|t: TreeDto| (#[trigger] sst_count_of()(t)) >= 0,
            forall|t: TreeDto| (#[trigger] l0_bytes_of()(t)) >= 0,
            forall|t: TreeDto| (#[trigger] total_bytes_of()(t)) >= 0,
            ssts == tree_sum(ts.take(i as int), sst_count_of()) <= usize::MAX,
            runs == tree_sum(ts.take(i as int), run_count_of()) <= usize::MAX,
            l0_bytes == tree_sum(ts.take(i as int), l0_bytes_of()) <= u64::MAX,
            total == tree_sum(ts.take(i as int), total_bytes_of()) <= u64::MAX,
        ensures
            ssts == tree_sum(ts, sst_count_of()) <= usize::MAX,
            runs == tree_sum(ts, run_count_of()) <= usize::MAX,
            l0_bytes == tree_sum(ts, l0_bytes_of()) <= u64::MAX,
            total == tree_sum(ts, total_bytes_of()) <= u64::MAX,
        decreases n - i,
    {
        let k = i;
        let t = if k == 0 {
            &d.tree
        } else {
            &d.segments[k - 1].tree
        };
        proof {
            assert(*t == ts[k as int]);
            assert(ts.take(k + 1).drop_last() =~= ts.take(k as int));
            assert(ts.take(k + 1).last() == ts[k as int]);
            lemma_tree_sum_take(ts, sst_count_of(), k + 1);
            lemma_tree_sum_take(ts, run_count_of(), k + 1);
            lemma_tree_sum_take(ts, l0_bytes_of(), k + 1);
            lemma_tree_sum_take(ts, total_bytes_of(), k + 1);
            lemma_tree_sum_take(ts, sst_count_of(), k as int);
        }
        let own = match tree_ssts_within_usize(t) {
            Some(x) => x,
            None => {
                return false;
            },
        };
        let s2 = ssts + own;
        let r2 = runs + t.runs.len() as u128;
        let b2 = l0_bytes + t.l0_bytes as u128;
        let t2 = total + t.total_bytes as u128;
        if s2 > usize::MAX as u128 || r2 > usize::MAX as u128 || b2 > u64::MAX as u128 || t2 > u64::MAX as u128 {
            return false;
        }
        ssts = s2;
        runs = r2;
        l0_bytes = b2;
        total = t2;
        if k == d.segments.len() {
            assert(ts.take(k + 1) =~= ts);
            break;
        }
        i = i + 1;
    }
    true
}

/// Whether the size estimates of `l0` and `runs` together fit a `u64`, as
/// `tree_dto` requires.
pub fn check_tree_bytes(l0: &Vec<SstViewDto>, runs: &Vec<SortedRunDto>) -> (r: bool)
    ensures
        r == (views_bytes(l0@) + runs_bytes(runs@) <= u64::MAX),
{
    proof {
        lemma_runs_bytes_nonneg(runs@);
        lemma_views_bytes_take(l0@, 0);
        lemma_runs_bytes_take(runs@, 0);
        assert(l0@.take(0) =~= Seq::<SstViewDto>::empty());
        assert(runs@.take(0) =~= Seq::<SortedRunDto>::empty());
    }
    let mut total: u128 = 0;
    let mut i: usize = 0;
    while i < l0.len()
        invariant
            i <= l0@.len(),
            total == views_bytes(l0@.take(i as int)) <= u64::MAX,
            runs_bytes(runs@) >= 0,
        decreases l0@.len() - i,
    {
        proof {
            assert(l0@.take(i + 1).drop_last() =~= l0@.take(i as int));
            lemma_views_bytes_take(l0@, i + 1);
        }
        let next = total + l0[i].est_bytes as u128;
        if next > u64::MAX as u128 {
            return false;
        }
        total = next;
        i = i + 1;
    }
    assert(l0@.take(l0@.len() as int) =~= l0@);
    let mut j: usize = 0;
    while j < runs.len()
        invariant
            j <= runs@.len(),
            total == views_bytes(l0@) + runs_bytes(runs@.take(j as int)) <= u64::MAX,
        decreases runs@.len() - j,
    {
        proof {
            assert(runs@.take(j + 1).drop_last() =~= runs@.take(j as int));
            lemma_runs_bytes_take(runs@, j + 1);
        }
        let next = total + runs[j].est_bytes as u128;
        if next > u64::MAX as u128 {
            return false;
        }
        total = next;
        j = j + 1;
    }
    assert(runs@.take(runs@.len() as int) =~= runs@);
    true
}

/// Whether the size estimates of `v` sum within a `u64`.
pub fn check_views_bytes(v: &Vec<SstViewDto>) -> (r: bool)
    ensures
        r == (views_bytes(v@) <= u64::MAX),
{
    let mut total: u128 = 0;
    let mut i: usize = 0;
    assert(v@.take(0) =~= Seq::<SstViewDto>::empty());
    while i < v.len()
        invariant
            i <= v@.len(),
            total == views_bytes(v@.take(i as int)) <= u64::MAX,
        decreases v@.len() - i,
    {
        proof {
            assert(v@.take(i + 1).drop_last() =~= v@.take(i as int));
            lemma_views_bytes_take(v@, i + 1);
        }
        let next = total + v[i].est_bytes as u128;
        if next > u64::MAX as u128 {
            return false;
        }
        total = next;
        i = i + 1;
    }
    assert(v@.take(v@.len() as int) =~= v@);
    true
}

} // verus!
