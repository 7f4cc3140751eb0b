//! What the garbage report reads from the latest manifest before it
//! classifies objects: which checkpoints still pin a manifest, the
//! compacted SSTs a manifest references, and the instant before which the
//! collector may delete compacted SSTs.

use std::collections::HashSet;
use vstd::prelude::*;
use crate::dto::{CheckpointDto, UtcTime};
use crate::garbage::ManifestRefs;
use crate::listing::{ulid_from_text, ulid_parse};
use crate::observer::pins_at;
use crate::search::{ManifestTrees, RunRefs, SegmentRefs, TreeRefs, ViewRef};

verus! {

/// How the checkpoints of the latest manifest stand at a given instant.
pub struct CheckpointPins {
    /// Checkpoints without an expiry, or expiring after the instant.
    pub live_count: usize,
    /// Checkpoints whose expiry has passed.
    pub expired_count: usize,
    /// The manifests that live checkpoints pin, other than the latest
    /// one, ascending and without repeats.
    pub pinned_ids: Vec<u64>,
}

/// Whether a live checkpoint of `cps` pins manifest `id`, other than
/// manifest `latest`.
pub open spec fn pins_other(cps: Seq<CheckpointDto>, latest: u64, now: UtcTime, id: u64) -> bool {
    id != latest && exists|i: int|
        0 <= i < cps.len() && pins_at(now)(#[trigger] cps[i]) && cps[i].manifest_id == id
}

/// Whether `s` is strictly increasing.
pub open spec fn ascending(s: Seq<u64>) -> bool {
    forall|i: int, j: int| 0 <= i < j < s.len() ==> s[i] < s[j]
}

/// Inserts `x` into an ascending vector unless it is there already.
fn insert_sorted(v: &mut Vec<u64>, x: u64)
    requires
        ascending(old(v)@),
    ensures
        ascending(final(v)@),
        forall|y: u64| final(v)@.contains(y) <==> (old(v)@.contains(y) || y == x),
{
    let mut i: usize = 0;
    while i < v.len() && v[i] < x
        invariant
            i <= v@.len(),
            ascending(v@),
            *v == *old(v),
            forall|j: int| 0 <= j < i ==> v@[j] < x,
        decreases v@.len() - i,
    {
        i = i + 1;
    }
    if i < v.len() && v[i] == x {
        assert(v@[i as int] == x);
        return;
    }
    let ghost before = v@;
    assert(before == old(v)@);
    v.insert(i, x);
    proof {
        assert(v@ =~= before.take(i as int).push(x) + before.skip(i as int));
        assert forall|a: int, b: int| 0 <= a < b < v@.len() implies v@[a] < v@[b] by {
            if b < i {
                assert(v@[a] == before[a] && v@[b] == before[b]);
            } else if b == i {
                assert(v@[a] == before[a]);
            } else if a < i {
                assert(v@[a] == before[a] && v@[b] == before[b - 1]);
            } else if a == i {
                assert(v@[b] == before[b - 1]);
                assert(i < before.len() ==> before[i as int] > x);
                assert(before[i as int] <= before[b - 1] || b - 1 == i);
            } else {
                assert(v@[a] == before[a - 1] && v@[b] == before[b - 1]);
            }
        }
        assert forall|y: u64| v@.contains(y) <==> (before.contains(y) || y == x) by {
            if v@.contains(y) {
                let k = choose|k: int| 0 <= k < v@.len() && v@[k] == y;
                if k < i {
                    assert(before[k] == y);
                } else if k > i {
                    assert(before[k - 1] == y);
                }
            }
            if before.contains(y) {
                let k = choose|k: int| 0 <= k < before.len() && before[k] == y;
                if k < i {
                    assert(v@[k] == y);
                } else {
                    assert(v@[k + 1] == y);
                }
            }
            if y == x {
                assert(v@[i as int] == x);
            }
        }
        assert(forall|y: u64| v@.contains(y) <==> (old(v)@.contains(y) || y == x));
    }
}

/// Sorts the checkpoints of the latest manifest (id `latest_id`) into
/// live and expired at `now`, and collects the other manifests that live
/// ones pin.
pub fn checkpoint_pins(cps: &Vec<CheckpointDto>, latest_id: u64, now: &UtcTime) -> (r: CheckpointPins)
    ensures
        r.live_count == cps@.filter(pins_at(*now)).len(),
        r.live_count + r.expired_count == cps@.len(),
        ascending(r.pinned_ids@),
        forall|id: u64| r.pinned_ids@.contains(id) <==> pins_other(cps@, latest_id, *now, id),
{
    let mut live: usize = 0;
    let mut expired: usize = 0;
    let mut ids: Vec<u64> = Vec::new();
    let mut i: usize = 0;
    while i < cps.len()
        invariant
            i <= cps@.len(),
            live == cps@.take(i as int).filter(pins_at(*now)).len(),
            live + expired == i,
            ascending(ids@),
            forall|id: u64| ids@.contains(id) <==> pins_other(cps@.take(i as int), latest_id, *now, id),
        decreases cps@.len() - i,
    {
        let c = &cps[i];
        let ghost t = cps@.take(i as int);
        let ghost t1 = cps@.take(i + 1);
        proof {
            assert(t1 =~= t.push(cps@[i as int]));
            t.lemma_filter_push(cps@[i as int], pins_at(*now));
        }
        let is_expired = match c.expire_time {
            Some(when) => !now.is_before(&when),
            None => false,
        };
        let ghost before = ids@;
        if is_expired {
            expired = expired + 1;
        } else {
            live = live + 1;
            if c.manifest_id != latest_id {
                insert_sorted(&mut ids, c.manifest_id);
            }
        }
        proof {
            assert forall|id: u64| ids@.contains(id) <==> pins_other(t1, latest_id, *now, id) by {
                if pins_other(t1, latest_id, *now, id) {
                    let k = choose|k: int| 0 <= k < t1.len() && pins_at(*now)(#[trigger] t1[k]) && t1[k].manifest_id == id;
                    if k < i {
                        assert(t[k] == t1[k]);
                        assert(pins_other(t, latest_id, *now, id));
                    }
                }
                if pins_other(t, latest_id, *now, id) {
                    let k = choose|k: int| 0 <= k < t.len() && pins_at(*now)(#[trigger] t[k]) && t[k].manifest_id == id;
                    assert(t1[k] == t[k]);
                }
                if !is_expired && c.manifest_id != latest_id && id == c.manifest_id {
                    assert(t1[i as int] == *c);
                    assert(pins_at(*now)(t1[i as int]));
                }
            }
        }
        i = i + 1;
    }
    assert(cps@.take(cps@.len() as int) =~= cps@);
    CheckpointPins { live_count: live, expired_count: expired, pinned_ids: ids }
}

/// The views of a tree: L0, then each sorted run's.
pub open spec fn runs_views(rs: Seq<RunRefs>) -> Seq<ViewRef>
    decreases rs.len(),
{
    if rs.len() == 0 {
        seq![]
    } else {
        runs_views(rs.drop_last()) + rs.last().views@
    }
}

pub open spec fn tree_views(t: TreeRefs) -> Seq<ViewRef> {
    t.l0@ + runs_views(t.runs@)
}

pub open spec fn segments_views(ss: Seq<SegmentRefs>) -> Seq<ViewRef>
    decreases ss.len(),
{
    if ss.len() == 0 {
        seq![]
    } else {
        segments_views(ss.drop_last()) + tree_views(ss.last().tree)
    }
}

/// Every view of a manifest: the root tree's, then each segment's.
pub open spec fn all_views(m: ManifestTrees) -> Seq<ViewRef> {
    tree_views(m.root) + segments_views(m.segments@)
}

/// The compacted SSTs that views of `vs` refer to.
pub open spec fn compacted_of(vs: Seq<ViewRef>) -> Set<u128> {
    Set::new(|u: u128| exists|i: int| 0 <= i < vs.len() && (#[trigger] vs[i]).sst == Some(u))
}

fn push_views(out: &mut Vec<ViewRef>, vs: &Vec<ViewRef>)
    ensures
        final(out)@ == old(out)@ + vs@,
{
    let mut i: usize = 0;
    while i < vs.len()
        invariant
            i <= vs@.len(),
            out@ == old(out)@ + vs@.take(i as int),
        decreases vs@.len() - i,
    {
        out.push(vs[i]);
        assert(vs@.take(i + 1) =~= vs@.take(i as int).push(vs@[i as int]));
        i = i + 1;
    }
    assert(vs@.take(vs@.len() as int) =~= vs@);
}

fn push_tree_views(out: &mut Vec<ViewRef>, t: &TreeRefs)
    ensures
        final(out)@ == old(out)@ + tree_views(*t),
{
    push_views(out, &t.l0);
    let ghost mid = out@;
    let mut i: usize = 0;
    while i < t.runs.len()
        invariant
            i <= t.runs@.len(),
            out@ == mid + runs_views(t.runs@.take(i as int)),
        decreases t.runs@.len() - i,
    {
        proof {
            assert(t.runs@.take(i + 1).drop_last() =~= t.runs@.take(i as int));
        }
        push_views(out, &t.runs[i].views);
        i = i + 1;
    }
    assert(t.runs@.take(t.runs@.len() as int) =~= t.runs@);
    assert(out@ =~= old(out)@ + tree_views(*t));
}

/// Every view of a manifest's trees, in tree order.
pub fn views_of(m: &ManifestTrees) -> (r: Vec<ViewRef>)
    ensures
        r@ == all_views(*m),
{
    let mut out: Vec<ViewRef> = Vec::new();
    push_tree_views(&mut out, &m.root);
    let ghost mid = out@;
    let mut i: usize = 0;
    while i < m.segments.len()
        invariant
            i <= m.segments@.len(),
            out@ == mid + segments_views(m.segments@.take(i as int)),
        decreases m.segments@.len() - i,
    {
        proof {
            assert(m.segments@.take(i + 1).drop_last() =~= m.segments@.take(i as int));
        }
        push_tree_views(&mut out, &m.segments[i].tree);
        i = i + 1;
    }
    assert(m.segments@.take(m.segments@.len() as int) =~= m.segments@);
    assert(out@ =~= all_views(*m));
    out
}

/// The references of manifest `id` with the given trees and WAL window:
/// every compacted SST its root tree and segments hold.
pub fn manifest_refs_of(m: &ManifestTrees, id: u64, replay_after_wal_id: u64, next_wal_sst_id: u64) -> (r:
    ManifestRefs)
    ensures
        r.id == id,
        r.compacted@ == compacted_of(all_views(*m)),
        r.replay_after_wal_id == replay_after_wal_id,
        r.next_wal_sst_id == next_wal_sst_id,
{
    broadcast use vstd::std_specs::hash::group_hash_axioms;
    let vs = views_of(m);
    let mut set: HashSet<u128> = HashSet::new();
    let mut i: usize = 0;
    while i < vs.len()
        invariant
            i <= vs@.len(),
            set@ == compacted_of(vs@.take(i as int)),
        decreases vs@.len() - i,
    {
        let ghost before = set@;
        let ghost t = vs@.take(i as int);
        let ghost t1 = vs@.take(i + 1);
        if let Some(u) = vs[i].sst {
            set.insert(u);
        }
        proof {
            assert forall|u: u128| set@.contains(u) <==> compacted_of(t1).contains(u) by {
                if compacted_of(t1).contains(u) {
                    let k = choose|k: int| 0 <= k < t1.len() && (#[trigger] t1[k]).sst == Some(u);
                    if k < i {
                        assert(t[k] == t1[k]);
                    }
                }
                if before.contains(u) {
                    let k = choose|k: int| 0 <= k < t.len() && (#[trigger] t[k]).sst == Some(u);
                    assert(t1[k] == t[k]);
                }
                if vs@[i as int].sst == Some(u) {
                    assert(t1[i as int] == vs@[i as int]);
                }
            }
            assert(set@ =~= compacted_of(t1));
        }
        i = i + 1;
    }
    assert(vs@.take(vs@.len() as int) =~= vs@);
    ManifestRefs { id, compacted: set, replay_after_wal_id, next_wal_sst_id }
}

/// The references of the manifests that checkpoints pin, and how many of
/// those manifests are gone (`None`), from the reads in pin order.
pub open spec fn found_refs(rs: Seq<Option<ManifestRefs>>) -> Seq<ManifestRefs>
    decreases rs.len(),
{
    if rs.len() == 0 {
        seq![]
    } else {
        match rs.last() {
            Some(x) => found_refs(rs.drop_last()).push(x),
            None => found_refs(rs.drop_last()),
        }
    }
}

/// Keeps the pinned manifests that could be read and counts the others.
pub fn pinned_refs(reads: Vec<Option<ManifestRefs>>) -> (r: (Vec<ManifestRefs>, usize))
    ensures
        r.0@ == found_refs(reads@),
        r.0@.len() + r.1 == reads@.len(),
{
    let ghost all = reads@;
    let n = reads.len();
    let mut rest = reads;
    let mut items: Vec<Option<ManifestRefs>> = Vec::new();
    while rest.len() > 0
        invariant
            rest@ == all.take(rest@.len() as int),
            rest@.len() + items@.len() == n,
            n == all.len(),
            forall|k: int| 0 <= k < items@.len() ==> #[trigger] items@[k] == all[n - 1 - k],
        decreases rest@.len(),
    {
        let ghost before = rest@;
        let x = rest.pop().unwrap();
        items.push(x);
        proof {
            assert(rest@ =~= all.take(rest@.len() as int));
        }
    }
    let mut gone: usize = 0;
    let mut out: Vec<ManifestRefs> = Vec::new();
    let mut i: usize = 0;
    while items.len() > 0
        invariant
            i + items@.len() == n,
            n == all.len(),
            forall|k: int| 0 <= k < items@.len() ==> #[trigger] items@[k] == all[n - 1 - k],
            out@ == found_refs(all.take(i as int)),
            out@.len() + gone == i,
        decreases items@.len(),
    {
        let ghost len = items@.len();
        let x = items.pop().unwrap();
        proof {
            assert(x == all[n - 1 - (len - 1)]);
            assert(all.take(i + 1).drop_last() =~= all.take(i as int));
            assert(all.take(i + 1).last() == x);
        }
        match x {
            Some(refs) => out.push(refs),
            None => {
                gone = gone + 1;
            },
        }
        i = i + 1;
    }
    assert(all.take(n as int) =~= all);
    (out, gone)
}

/// When a ULID's SST was written: the millisecond timestamp in its top
/// 48 bits.
pub open spec fn ulid_ms(u: u128) -> u64 {
    (u >> 80u128) as u64
}

/// The millisecond timestamp of a ULID.
pub fn ulid_millis(u: u128) -> (r: u64)
    ensures
        r == ulid_ms(u),
{
    assert((u >> 80u128) < 0x1_0000_0000_0000u128) by (bit_vector);
    (u >> 80u128) as u64
}

/// The later of two optional instants (none counts as earliest).
pub open spec fn opt_max(a: Option<u64>, b: Option<u64>) -> Option<u64> {
    match (a, b) {
        (None, x) => x,
        (x, None) => x,
        (Some(x), Some(y)) => Some(if x < y {
            y
        } else {
            x
        }),
    }
}

/// The earlier of two optional instants (none counts as absent).
pub open spec fn opt_min(a: Option<u64>, b: Option<u64>) -> Option<u64> {
    match (a, b) {
        (None, x) => x,
        (x, None) => x,
        (Some(x), Some(y)) => Some(if x < y {
            x
        } else {
            y
        }),
    }
}

/// The newest write time among L0 views of compacted SSTs.
pub open spec fn l0_newest(vs: Seq<ViewRef>) -> Option<u64>
    decreases vs.len(),
{
    if vs.len() == 0 {
        None
    } else {
        opt_max(
            l0_newest(vs.drop_last()),
            match vs.last().sst {
                Some(u) => Some(ulid_ms(u)),
                None => None,
            },
        )
    }
}

/// A tree's newest L0 write time; with an empty L0, that of the last
/// compacted L0 view.
pub open spec fn tree_newest(t: TreeRefs) -> Option<u64> {
    if t.l0@.len() == 0 {
        match t.last_compacted_l0 {
            Some(u) => Some(ulid_ms(u)),
            None => None,
        }
    } else {
        l0_newest(t.l0@)
    }
}

pub open spec fn segments_newest(ss: Seq<SegmentRefs>) -> Option<u64>
    decreases ss.len(),
{
    if ss.len() == 0 {
        None
    } else {
        opt_max(segments_newest(ss.drop_last()), tree_newest(ss.last().tree))
    }
}

/// The newest L0 write time across a manifest's trees, in milliseconds
/// since the epoch (the epoch itself when there is none). SSTs newer than
/// this may be L0 flushes the manifest has not caught up with.
pub open spec fn newest_l0(m: ManifestTrees) -> u64 {
    match opt_max(tree_newest(m.root), segments_newest(m.segments@)) {
        Some(x) => x,
        None => 0,
    }
}

fn max_opt(a: Option<u64>, b: Option<u64>) -> (r: Option<u64>)
    ensures
        r == opt_max(a, b),
{
    match (a, b) {
        (None, x) => x,
        (x, None) => x,
        (Some(x), Some(y)) => Some(if x < y {
            y
        } else {
            x
        }),
    }
}

fn min_opt(a: Option<u64>, b: Option<u64>) -> (r: Option<u64>)
    ensures
        r == opt_min(a, b),
{
    match (a, b) {
        (None, x) => x,
        (x, None) => x,
        (Some(x), Some(y)) => Some(if x < y {
            x
        } else {
            y
        }),
    }
}

fn newest_of_tree(t: &TreeRefs) -> (r: Option<u64>)
    ensures
        r == tree_newest(*t),
{
    if t.l0.len() == 0 {
        return match t.last_compacted_l0 {
            Some(u) => Some(ulid_millis(u)),
            None => None,
        };
    }
    let mut best: Option<u64> = None;
    let mut i: usize = 0;
    while i < t.l0.len()
        invariant
            i <= t.l0@.len(),
            best == l0_newest(t.l0@.take(i as int)),
        decreases t.l0@.len() - i,
    {
        proof {
            assert(t.l0@.take(i + 1).drop_last() =~= t.l0@.take(i as int));
            assert(t.l0@.take(i + 1).last() == t.l0@[i as int]);
        }
        let here = match t.l0[i].sst {
            Some(u) => Some(ulid_millis(u)),
            None => None,
        };
        best = max_opt(best, here);
        i = i + 1;
    }
    assert(t.l0@.take(t.l0@.len() as int) =~= t.l0@);
    best
}

/// The newest L0 write time across a manifest's trees, in milliseconds.
pub fn newest_l0_ms(m: &ManifestTrees) -> (r: u64)
    ensures
        r == newest_l0(*m),
{
    let root = newest_of_tree(&m.root);
    let mut segs: Option<u64> = None;
    let mut i: usize = 0;
    while i < m.segments.len()
        invariant
            i <= m.segments@.len(),
            segs == segments_newest(m.segments@.take(i as int)),
        decreases m.segments@.len() - i,
    {
        proof {
            assert(m.segments@.take(i + 1).drop_last() =~= m.segments@.take(i as int));
            assert(m.segments@.take(i + 1).last() == m.segments@[i as int]);
        }
        let here = newest_of_tree(&m.segments[i].tree);
        segs = max_opt(segs, here);
        i = i + 1;
    }
    assert(m.segments@.take(m.segments@.len() as int) =~= m.segments@);
    match max_opt(root, segs) {
        Some(x) => x,
        None => 0,
    }
}

/// The earliest start among the parsed compaction job ids.
pub open spec fn earliest_start(ps: Seq<Option<u128>>) -> Option<u64>
    decreases ps.len(),
{
    if ps.len() == 0 {
        None
    } else {
        opt_min(
            earliest_start(ps.drop_last()),
            match ps.last() {
                Some(u) => Some(ulid_ms(u)),
                None => None,
            },
        )
    }
}

/// The compaction watermark: the earliest start among the jobs of the
/// compactions file; the epoch when there is no file or no job id parses.
pub open spec fn watermark_of(jobs: Option<Seq<Option<u128>>>) -> u64 {
    match jobs {
        None => 0,
        Some(ps) => match earliest_start(ps) {
            Some(x) => x,
            None => 0,
        },
    }
}

/// The instant past which the collector deletes nothing from the
/// compacted SSTs: the compaction watermark, capped by the newest L0.
pub open spec fn cutoff_of(jobs: Option<Seq<Option<u128>>>, newest: u64) -> u64 {
    let w = watermark_of(jobs);
    if w < newest {
        w
    } else {
        newest
    }
}

/// The deletion cutoff from the compaction job ids as parsed (`None`: no
/// compactions file) and the newest L0 time.
pub fn cutoff_from_parsed(jobs: Option<&Vec<Option<u128>>>, newest: u64) -> (r: u64)
    ensures
        r == cutoff_of(
            match jobs {
                Some(v) => Some(v@),
                None => None,
            },
            newest,
        ),
{
    let w: u64 = match jobs {
        None => 0,
        Some(ps) => {
            let mut best: Option<u64> = None;
            let mut i: usize = 0;
            while i < ps.len()
                invariant
                    i <= ps@.len(),
                    best == earliest_start(ps@.take(i as int)),
                decreases ps@.len() - i,
            {
                proof {
                    assert(ps@.take(i + 1).drop_last() =~= ps@.take(i as int));
                    assert(ps@.take(i + 1).last() == ps@[i as int]);
                }
                let here = match ps[i] {
                    Some(u) => Some(ulid_millis(u)),
                    None => None,
                };
                best = min_opt(best, here);
                i = i + 1;
            }
            assert(ps@.take(ps@.len() as int) =~= ps@);
            match best {
                Some(x) => x,
                None => 0,
            }
        },
    };
    if w < newest {
        w
    } else {
        newest
    }
}

pub open spec fn parsed_ids(ids: Seq<String>) -> Seq<Option<u128>> {
    ids.map_values(|s: String| ulid_parse(s@))
}

/// The deletion cutoff, in milliseconds, from the job ids of the
/// compactions file (`None`: there is none) and the manifest's trees.
pub fn gc_cutoff_ms(job_ids: Option<&Vec<String>>, m: &ManifestTrees) -> (r: u64)
    ensures
        r == cutoff_of(
            match job_ids {
                Some(v) => Some(parsed_ids(v@)),
                None => None,
            },
            newest_l0(*m),
        ),
{
    let newest = newest_l0_ms(m);
    match job_ids {
        None => cutoff_from_parsed(None, newest),
        Some(ids) => {
            let mut ps: Vec<Option<u128>> = Vec::new();
            let mut i: usize = 0;
            while i < ids.len()
                invariant
                    i <= ids@.len(),
                    ps@ == parsed_ids(ids@.take(i as int)),
                decreases ids@.len() - i,
            {
                let p = ulid_from_text(ids[i].as_str());
                ps.push(p);
                assert(parsed_ids(ids@.take(i + 1)) =~= parsed_ids(ids@.take(i as int)).push(p));
                i = i + 1;
            }
            assert(ids@.take(ids@.len() as int) =~= ids@);
            cutoff_from_parsed(Some(&ps), newest)
        },
    }
}

/// An instant given in milliseconds since the epoch.
pub open spec fn time_at_ms(ms: u64) -> UtcTime {
    UtcTime { secs: (ms / 1000) as i64, nanos: ((ms % 1000) * 1_000_000) as u32 }
}

/// The instant `ms` milliseconds after the epoch.
pub fn time_of_ms(ms: u64) -> (r: UtcTime)
    ensures
        r == time_at_ms(ms),
{
    UtcTime { secs: (ms / 1000) as i64, nanos: ((ms % 1000) * 1_000_000) as u32 }
}

} // verus!
