//! The per-database pages assembled from listings and manifests: paging
//! limits, the WAL page, manifest selection and summaries, the compaction
//! history window, activity transitions, checkpoint availability and the
//! overview.

use std::collections::HashSet;
use vstd::prelude::*;
use crate::convert::{all_trees, l0_bytes_of, l0_count_of, manifest_totals, run_count_of, sst_count_of,
    total_bytes_of, totals_fit, tree_sum};
use crate::dto::{BlockIndexDto, BlockMetaDto, CheckpointDto, CheckpointStatusDto, Dup, KeyDto, ManifestDto,
    ManifestSummaryDto, OverviewDto, UtcTime, WalDto, WalSstDto};
use crate::convert::{hex_text, key_dto, opt_chars, printable_text};
use crate::listing::{parse_u64, u64_of_text, ManifestEntry, WalEntry};
use crate::text::{chars_of, push_str, str_eq};
use crate::warnings::{compute_warnings, expected_warnings, warning_views, WarningInputs};

verus! {

/// `limit.unwrap_or(default).min(max).max(1)`.
pub open spec fn clamped(limit: Option<usize>, default: usize, max: usize) -> usize {
    let l = match limit {
        Some(x) => x,
        None => default,
    };
    let m = if l < max {
        l
    } else {
        max
    };
    if m < 1 {
        1
    } else {
        m
    }
}

/// A requested page size, defaulted and clamped to `1..=max`.
pub fn clamp_limit(limit: Option<usize>, default: usize, max: usize) -> (r: usize)
    ensures
        r == clamped(limit, default, max),
        1 <= max ==> 1 <= r <= max,
{
    let l = match limit {
        Some(x) => x,
        None => default,
    };
    let m = if l < max {
        l
    } else {
        max
    };
    if m < 1 {
        1
    } else {
        m
    }
}

/// The newest `n` items of `s` (its last ones), newest first.
pub open spec fn newest_first<T>(s: Seq<T>, n: int) -> Seq<T> {
    let k = if n < s.len() {
        n
    } else {
        s.len() as int
    };
    Seq::new(k as nat, |j: int| s[s.len() - 1 - j])
}

/// Total size of a WAL listing.
pub open spec fn wal_total(es: Seq<WalEntry>) -> int
    decreases es.len(),
{
    if es.len() == 0 {
        0
    } else {
        wal_total(es.drop_last()) + es.last().size_bytes
    }
}

pub open spec fn wal_sst(e: WalEntry) -> WalSstDto {
    WalSstDto { id: e.id, size_bytes: e.size_bytes, last_modified: e.last_modified }
}

proof fn lemma_wal_total_prefix(es: Seq<WalEntry>, i: int)
    requires
        0 <= i <= es.len(),
    ensures
        0 <= wal_total(es.take(i)) <= wal_total(es),
    decreases es.len(),
{
    if es.len() > 0 {
        if i == es.len() {
            assert(es.take(i) =~= es);
            lemma_wal_total_prefix(es.drop_last(), es.len() - 1);
            assert(es.drop_last().take(es.len() - 1) =~= es.drop_last());
        } else {
            lemma_wal_total_prefix(es.drop_last(), i);
            assert(es.drop_last().take(i) =~= es.take(i));
        }
    }
}

/// Whether the sizes of the listed WAL SSTs sum within a `u64`, as
/// `wal_page` requires.
pub fn check_wal_total(entries: &Vec<WalEntry>) -> (r: bool)
    ensures
        r == (wal_total(entries@) <= u64::MAX),
{
    let mut total: u128 = 0;
    let mut i: usize = 0;
    assert(entries@.take(0) =~= Seq::<WalEntry>::empty());
    while i < entries.len()
        invariant
            i <= entries@.len(),
            total == wal_total(entries@.take(i as int)) <= u64::MAX,
        decreases entries@.len() - i,
    {
        proof {
            assert(entries@.take(i + 1).drop_last() =~= entries@.take(i as int));
            lemma_wal_total_prefix(entries@, i + 1);
        }
        let next = total + entries[i].size_bytes as u128;
        if next > u64::MAX as u128 {
            return false;
        }
        total = next;
        i = i + 1;
    }
    assert(entries@.take(entries@.len() as int) =~= entries@);
    true
}

/// The WAL page: the replay window, totals over the whole listing, and
/// the newest `limit` WAL SSTs (default 200, at most 2000), newest first.
pub fn wal_page(
    limit: Option<usize>,
    next_wal_sst_id: u64,
    replay_after_wal_id: u64,
    wal_object_store_uri: Option<String>,
    entries: &Vec<WalEntry>,
) -> (r: WalDto)
    requires
        wal_total(entries@) <= u64::MAX,
    ensures
        r.next_wal_sst_id == next_wal_sst_id,
        r.replay_after_wal_id == replay_after_wal_id,
        r.total_bytes == wal_total(entries@),
        r.total_count == entries@.len(),
        r.wal_object_store_uri == wal_object_store_uri,
        r.entries@ == newest_first(entries@, clamped(limit, 200, 2000) as int).map_values(
            |e: WalEntry| wal_sst(e),
        ),
        r.entries@.len() <= 2000,
{
    let n = clamp_limit(limit, 200, 2000);
    let mut total: u64 = 0;
    let mut i: usize = 0;
    while i < entries.len()
        invariant
            i <= entries@.len(),
            wal_total(entries@) <= u64::MAX,
            total == wal_total(entries@.take(i as int)),
        decreases entries@.len() - i,
    {
        proof {
            assert(entries@.take(i + 1).drop_last() =~= entries@.take(i as int));
            lemma_wal_total_prefix(entries@, i + 1);
        }
        total = total + entries[i].size_bytes;
        i = i + 1;
    }
    assert(entries@.take(entries@.len() as int) =~= entries@);
    let len = entries.len();
    let k = if n < len {
        n
    } else {
        len
    };
    let mut out: Vec<WalSstDto> = Vec::new();
    let mut j: usize = 0;
    while j < k
        invariant
            j <= k,
            k <= len,
            len == entries@.len(),
            out@.len() == j,
            forall|q: int| 0 <= q < j ==> #[trigger] out@[q] == wal_sst(entries@[len - 1 - q]),
        decreases k - j,
    {
        let e = entries[len - 1 - j];
        out.push(WalSstDto { id: e.id, size_bytes: e.size_bytes, last_modified: e.last_modified });
        j = j + 1;
    }
    assert(out@ =~= newest_first(entries@, n as int).map_values(|e: WalEntry| wal_sst(e)));
    WalDto {
        next_wal_sst_id,
        replay_after_wal_id,
        total_bytes: total,
        total_count: len,
        wal_object_store_uri,
        entries: out,
    }
}

/// Whether a manifest id lies in the requested inclusive window.
pub open spec fn in_window(id: u64, start: Option<u64>, end: Option<u64>) -> bool {
    &&& (start matches Some(s) ==> id >= s)
    &&& (end matches Some(x) ==> id <= x)
}

/// The entries inside the window, oldest first.
pub open spec fn window(es: Seq<ManifestEntry>, start: Option<u64>, end: Option<u64>) -> Seq<ManifestEntry>
    decreases es.len(),
{
    if es.len() == 0 {
        seq![]
    } else if in_window(es.last().id, start, end) {
        window(es.drop_last(), start, end).push(es.last())
    } else {
        window(es.drop_last(), start, end)
    }
}

/// The manifests listed: those inside the window, newest first, at most
/// `limit` of them, the limit defaulted to 50 and clamped to `1..=500`.
pub open spec fn selected(es: Seq<ManifestEntry>, start: Option<u64>, end: Option<u64>, limit: Option<usize>) -> Seq<
    ManifestEntry,
> {
    newest_first(window(es, start, end), clamped(limit, 50, 500) as int)
}

/// The manifests to summarise for a listing request.
pub fn select_manifests(entries: &Vec<ManifestEntry>, start: Option<u64>, end: Option<u64>, limit: Option<usize>) -> (r:
    Vec<ManifestEntry>)
    ensures
        r@ == selected(entries@, start, end, limit),
        r@.len() <= 500,
{
    let n: usize = clamp_limit(limit, 50, 500);
    let mut w: Vec<ManifestEntry> = Vec::new();
    let mut i: usize = 0;
    while i < entries.len()
        invariant
            i <= entries@.len(),
            w@ == window(entries@.take(i as int), start, end),
        decreases entries@.len() - i,
    {
        let e = entries[i];
        proof {
            assert(entries@.take(i + 1).drop_last() =~= entries@.take(i as int));
            assert(entries@.take(i + 1).last() == e);
        }
        let inside = match start {
            Some(s) => e.id >= s,
            None => true,
        } && match end {
            Some(x) => e.id <= x,
            None => true,
        };
        if inside {
            w.push(e);
        }
        i = i + 1;
    }
    assert(entries@.take(entries@.len() as int) =~= entries@);
    let len = w.len();
    let k = if n < len {
        n
    } else {
        len
    };
    let mut out: Vec<ManifestEntry> = Vec::new();
    let mut j: usize = 0;
    while j < k
        invariant
            j <= k,
            k <= len,
            len == w@.len(),
            out@.len() == j,
            forall|q: int| 0 <= q < j ==> #[trigger] out@[q] == w@[len - 1 - q],
        decreases k - j,
    {
        out.push(w[len - 1 - j]);
        j = j + 1;
    }
    assert(out@ =~= newest_first(w@, n as int));
    out
}

/// The summary row of one listed manifest.
pub open spec fn summary_of(e: ManifestEntry, d: ManifestDto) -> ManifestSummaryDto {
    let ts = all_trees(d);
    ManifestSummaryDto {
        id: e.id,
        last_modified: Some(e.last_modified),
        writer_epoch: d.writer_epoch,
        compactor_epoch: d.compactor_epoch,
        l0_count: tree_sum(ts, l0_count_of()) as usize,
        sorted_run_count: tree_sum(ts, run_count_of()) as usize,
        sst_count: tree_sum(ts, sst_count_of()) as usize,
        est_total_bytes: tree_sum(ts, total_bytes_of()) as u64,
        checkpoint_count: d.checkpoints@.len() as usize,
    }
}

/// Summarises one listed manifest from its listing entry and contents.
pub fn manifest_summary(entry: &ManifestEntry, dto: &ManifestDto) -> (r: ManifestSummaryDto)
    requires
        totals_fit(*dto),
    ensures
        r == summary_of(*entry, *dto),
{
    let (l0_count, sorted_run_count, sst_count, _l0_bytes, est_total_bytes) = manifest_totals(dto);
    ManifestSummaryDto {
        id: entry.id,
        last_modified: Some(entry.last_modified),
        writer_epoch: dto.writer_epoch,
        compactor_epoch: dto.compactor_epoch,
        l0_count,
        sorted_run_count,
        sst_count,
        est_total_bytes,
        checkpoint_count: dto.checkpoints.len(),
    }
}

/// Which manifest a request names: the latest, or one by id.
#[derive(Clone, Copy, Debug, PartialEq, Eq, Structural)]
pub enum ManifestRef {
    Latest,
    Id(u64),
}

/// What a manifest path segment names: `latest`, a decimal id, or an
/// error message.
pub open spec fn manifest_ref_of(s: Seq<char>) -> Result<ManifestRef, Seq<char>> {
    if s == "latest"@ {
        Ok(ManifestRef::Latest)
    } else {
        match u64_of_text(s) {
            Some(id) => Ok(ManifestRef::Id(id)),
            None => Err("invalid manifest id '"@ + s + "'"@),
        }
    }
}

pub open spec fn ref_result_view(r: Result<ManifestRef, String>) -> Result<ManifestRef, Seq<char>> {
    match r {
        Ok(m) => Ok(m),
        Err(e) => Err(e@),
    }
}

/// Reads the manifest named by a path segment.
pub fn parse_manifest_ref(s: &str) -> (r: Result<ManifestRef, String>)
    ensures
        ref_result_view(r) == manifest_ref_of(s@),
{
    if str_eq(s, "latest") {
        return Ok(ManifestRef::Latest);
    }
    let cs = chars_of(s);
    match parse_u64(&cs) {
        Some(id) => Ok(ManifestRef::Id(id)),
        None => {
            let mut msg: Vec<char> = Vec::new();
            push_str(&mut msg, "invalid manifest id '");
            push_str(&mut msg, s);
            push_str(&mut msg, "'");
            assert(msg@ =~= "invalid manifest id '"@ + s@ + "'"@);
            Err(crate::text::string_from(&msg))
        },
    }
}

/// The inclusive window of `.compactions` versions to list: anchored to
/// `end` (or to the latest version when neither bound is given), at most
/// `limit` versions (default 20, at most 200). `None`: there is no
/// compactions file yet.
pub open spec fn compactions_window(start: Option<u64>, end: Option<u64>, limit: Option<u64>, latest: Option<u64>) -> Option<
    (u64, u64),
> {
    let l0 = match limit {
        Some(x) => x,
        None => 20,
    };
    let l1 = if l0 < 200 {
        l0
    } else {
        200
    };
    let l = if l1 < 1 {
        1
    } else {
        l1
    };
    match (start, end) {
        (Some(s), Some(e)) => {
            let lo = e.saturating_sub((l - 1) as u64);
            Some((if lo < s {
                s
            } else {
                lo
            }, e))
        },
        (Some(s), None) => Some((s, s.saturating_add((l - 1) as u64))),
        (None, Some(e)) => Some((e.saturating_sub((l - 1) as u64), e)),
        (None, None) => match latest {
            Some(e) => Some((e.saturating_sub((l - 1) as u64), e)),
            None => None,
        },
    }
}

/// Computes the version window of the compaction history. `latest` is
/// only read when neither bound is given.
pub fn compactions_range(start: Option<u64>, end: Option<u64>, limit: Option<u64>, latest: Option<u64>) -> (r: Option<
    (u64, u64),
>)
    ensures
        r == compactions_window(start, end, limit, latest),
{
    let l0 = match limit {
        Some(x) => x,
        None => 20,
    };
    let l1 = if l0 < 200 {
        l0
    } else {
        200
    };
    let l = if l1 < 1 {
        1
    } else {
        l1
    };
    match (start, end) {
        (Some(s), Some(e)) => {
            let lo = e.saturating_sub(l - 1);
            Some((if lo < s {
                s
            } else {
                lo
            }, e))
        },
        (Some(s), None) => Some((s, s.saturating_add(l - 1))),
        (None, Some(e)) => Some((e.saturating_sub(l - 1), e)),
        (None, None) => match latest {
            Some(e) => Some((e.saturating_sub(l - 1), e)),
            None => None,
        },
    }
}

/// The manifest transitions of the activity feed, oldest first: each
/// pairs a manifest with its predecessor in the listing, over the newest
/// `limit + 1` manifests (limit default 20, at most 200), with the time
/// the newer one was written.
pub open spec fn transitions(es: Seq<ManifestEntry>, limit: Option<usize>) -> Seq<(u64, u64, UtcTime)> {
    let l = clamped(limit, 20, 200) + 1;
    let n = if l < es.len() {
        l
    } else {
        es.len() as int
    };
    let tail = es.subrange(es.len() - n, es.len() as int);
    Seq::new(
        (if n > 0 {
            n - 1
        } else {
            0
        }) as nat,
        |k: int| (tail[k].id, tail[k + 1].id, tail[k + 1].last_modified),
    )
}

/// The (older id, newer id, newer write time) transitions to show.
pub fn activity_pairs(entries: &Vec<ManifestEntry>, limit: Option<usize>) -> (r: Vec<(u64, u64, UtcTime)>)
    ensures
        r@ == transitions(entries@, limit),
        r@.len() <= 200,
{
    let l = clamp_limit(limit, 20, 200) + 1;
    let len = entries.len();
    let n = if l < len {
        l
    } else {
        len
    };
    let base = len - n;
    let mut out: Vec<(u64, u64, UtcTime)> = Vec::new();
    if n > 0 {
        let mut k: usize = 0;
        while k + 1 < n
            invariant
                0 < n <= len,
                len == entries@.len(),
                base == len - n,
                k + 1 <= n,
                out@.len() == k,
                forall|q: int|
                    0 <= q < k ==> #[trigger] out@[q] == (
                        entries@[base + q].id,
                        entries@[base + q + 1].id,
                        entries@[base + q + 1].last_modified,
                    ),
            decreases n - k,
        {
            let a = entries[base + k];
            let b = entries[base + k + 1];
            out.push((a.id, b.id, b.last_modified));
            k = k + 1;
        }
    }
    assert(out@ =~= transitions(entries@, limit));
    out
}

/// The set of manifest ids in a listing.
pub open spec fn listed_ids(es: Seq<ManifestEntry>) -> Set<u64> {
    Set::new(|id: u64| exists|i: int| 0 <= i < es.len() && (#[trigger] es[i]).id == id)
}

/// The ids of a manifest listing, as a set.
pub fn live_ids(entries: &Vec<ManifestEntry>) -> (r: HashSet<u64>)
    ensures
        r@ == listed_ids(entries@),
{
    broadcast use vstd::std_specs::hash::group_hash_axioms;
    let mut s: HashSet<u64> = HashSet::new();
    let mut i: usize = 0;
    while i < entries.len()
        invariant
            i <= entries@.len(),
            s@ == listed_ids(entries@.take(i as int)),
        decreases entries@.len() - i,
    {
        let ghost before = s@;
        s.insert(entries[i].id);
        proof {
            let t = entries@.take(i + 1);
            assert forall|id: u64| s@.contains(id) <==> listed_ids(t).contains(id) by {
                if s@.contains(id) && id != entries@[i as int].id {
                    let w = choose|q: int| 0 <= q < i && (#[trigger] entries@.take(i as int)[q]).id == id;
                    assert(t[w] == entries@.take(i as int)[w]);
                }
                if listed_ids(t).contains(id) {
                    let w = choose|q: int| 0 <= q < t.len() && (#[trigger] t[q]).id == id;
                    if w < i {
                        assert(entries@.take(i as int)[w] == t[w]);
                    }
                }
                if id == entries@[i as int].id {
                    assert(t[i as int] == entries@[i as int]);
                }
            }
            assert(s@ =~= listed_ids(t));
        }
        i = i + 1;
    }
    assert(entries@.take(entries@.len() as int) =~= entries@);
    s
}

/// Each checkpoint of the latest manifest, with whether the manifest it
/// pins is still listed.
pub open spec fn statuses_of(cps: Seq<CheckpointDto>, live: Set<u64>) -> Seq<(CheckpointDto, bool)> {
    cps.map_values(|c: CheckpointDto| (c, live.contains(c.manifest_id)))
}

pub open spec fn status_views(s: Seq<CheckpointStatusDto>) -> Seq<(CheckpointDto, bool)> {
    s.map_values(|c: CheckpointStatusDto| (c.checkpoint, c.manifest_available))
}

/// The checkpoints page: every checkpoint with its target's availability.
pub fn checkpoint_statuses(checkpoints: &Vec<CheckpointDto>, entries: &Vec<ManifestEntry>) -> (r: Vec<
    CheckpointStatusDto,
>)
    ensures
        status_views(r@) == statuses_of(checkpoints@, listed_ids(entries@)),
{
    broadcast use vstd::std_specs::hash::group_hash_axioms;
    let live = live_ids(entries);
    let mut out: Vec<CheckpointStatusDto> = Vec::new();
    let mut i: usize = 0;
    while i < checkpoints.len()
        invariant
            i <= checkpoints@.len(),
            live@ == listed_ids(entries@),
            out@.len() == i,
            forall|q: int|
                0 <= q < i ==> (#[trigger] out@[q]).checkpoint == checkpoints@[q] && out@[q].manifest_available
                    == live@.contains(checkpoints@[q].manifest_id),
        decreases checkpoints@.len() - i,
    {
        let c = &checkpoints[i];
        let available = live.contains(&c.manifest_id);
        out.push(CheckpointStatusDto { checkpoint: c.dup(), manifest_available: available });
        i = i + 1;
    }
    assert(status_views(out@) =~= statuses_of(checkpoints@, listed_ids(entries@)));
    out
}

/// The overview of a database from its latest manifest and manifest
/// listing, with the health warnings as of `now`.
pub open spec fn overview_of(
    db_path: Seq<char>,
    provider: Seq<char>,
    d: ManifestDto,
    es: Seq<ManifestEntry>,
    last_l0_approx_time: Option<UtcTime>,
    now: UtcTime,
    r: OverviewDto,
) -> bool {
    let ts = all_trees(d);
    let written = if es.len() > 0 {
        Some(es.last().last_modified)
    } else {
        None
    };
    &&& r.db_path@ == db_path
    &&& r.provider@ == provider
    &&& r.manifest_id == d.id
    &&& r.initialized == d.initialized
    &&& r.writer_epoch == d.writer_epoch
    &&& r.compactor_epoch == d.compactor_epoch
    &&& r.l0_count == tree_sum(ts, l0_count_of())
    &&& r.sorted_run_count == tree_sum(ts, run_count_of())
    &&& r.sst_count == tree_sum(ts, sst_count_of())
    &&& r.l0_bytes == tree_sum(ts, l0_bytes_of())
    &&& r.est_total_bytes == tree_sum(ts, total_bytes_of())
    &&& r.segment_count == d.segments@.len()
    &&& r.next_wal_sst_id == d.next_wal_sst_id
    &&& r.replay_after_wal_id == d.replay_after_wal_id
    &&& r.last_l0_seq == d.last_l0_seq
    &&& r.last_l0_approx_time == last_l0_approx_time
    &&& r.recent_snapshot_min_seq == d.recent_snapshot_min_seq
    &&& r.checkpoint_count == d.checkpoints@.len()
    &&& r.clone_count == d.external_dbs@.len()
    &&& r.wal_object_store_uri == d.wal_object_store_uri
    &&& r.manifest_count == es.len()
    &&& r.oldest_manifest_id == (if es.len() > 0 {
        Some(es[0].id)
    } else {
        None
    })
    &&& r.latest_manifest_written_at == written
    &&& warning_views(r.warnings@) == expected_warnings(d, listed_ids(es), written, now)
}

/// Assembles the overview page.
pub fn overview_dto(
    db_path: String,
    provider: String,
    dto: &ManifestDto,
    entries: &Vec<ManifestEntry>,
    last_l0_approx_time: Option<UtcTime>,
    now: UtcTime,
) -> (r: OverviewDto)
    requires
        totals_fit(*dto),
    ensures
        overview_of(db_path@, provider@, *dto, entries@, last_l0_approx_time, now, r),
{
    let (l0_count, sorted_run_count, sst_count, l0_bytes, est_total_bytes) = manifest_totals(dto);
    let live = live_ids(entries);
    let written = if entries.len() > 0 {
        Some(entries[entries.len() - 1].last_modified)
    } else {
        None
    };
    let warnings = compute_warnings(
        &WarningInputs { manifest: dto, live_manifest_ids: &live, latest_manifest_written_at: written, now },
    );
    let uri = match &dto.wal_object_store_uri {
        Some(u) => Some(u.clone()),
        None => None,
    };
    OverviewDto {
        db_path,
        provider,
        manifest_id: dto.id,
        initialized: dto.initialized,
        writer_epoch: dto.writer_epoch,
        compactor_epoch: dto.compactor_epoch,
        l0_count,
        sorted_run_count,
        sst_count,
        l0_bytes,
        est_total_bytes,
        segment_count: dto.segments.len(),
        next_wal_sst_id: dto.next_wal_sst_id,
        replay_after_wal_id: dto.replay_after_wal_id,
        last_l0_seq: dto.last_l0_seq,
        last_l0_approx_time,
        recent_snapshot_min_seq: dto.recent_snapshot_min_seq,
        checkpoint_count: dto.checkpoints.len(),
        clone_count: dto.external_dbs.len(),
        wal_object_store_uri: uri,
        manifest_count: entries.len(),
        oldest_manifest_id: if entries.len() > 0 {
            Some(entries[0].id)
        } else {
            None
        },
        latest_manifest_written_at: written,
        warnings,
    }
}

/// Block-index entries returned per SST; large SSTs have tens of
/// thousands of blocks.
pub const MAX_INDEX_BLOCKS: usize = 2000;

/// Whether `k` describes the key bytes `b`.
pub open spec fn describes(k: KeyDto, b: Seq<u8>) -> bool {
    k.hex@ == hex_text(b) && opt_chars(k.utf8) == printable_text(b)
}

/// The block index of an SST from its (offset, first key) entries: the
/// first `MAX_INDEX_BLOCKS` of them, the total, and whether it was cut.
pub fn block_index(index: &Vec<(u64, Vec<u8>)>) -> (r: BlockIndexDto)
    ensures
        r.total_blocks == index@.len(),
        r.truncated == (index@.len() > MAX_INDEX_BLOCKS),
        r.blocks@.len() == if index@.len() > MAX_INDEX_BLOCKS {
            MAX_INDEX_BLOCKS as int
        } else {
            index@.len() as int
        },
        forall|i: int|
            0 <= i < r.blocks@.len() ==> (#[trigger] r.blocks@[i]).offset == index@[i].0 && describes(
                r.blocks@[i].first_key,
                index@[i].1@,
            ),
{
    let n = if index.len() > MAX_INDEX_BLOCKS {
        MAX_INDEX_BLOCKS
    } else {
        index.len()
    };
    let mut blocks: Vec<BlockMetaDto> = Vec::new();
    let mut i: usize = 0;
    while i < n
        invariant
            i <= n,
            n <= index@.len(),
            blocks@.len() == i,
            forall|q: int|
                0 <= q < i ==> (#[trigger] blocks@[q]).offset == index@[q].0 && describes(
                    blocks@[q].first_key,
                    index@[q].1@,
                ),
        decreases n - i,
    {
        let (offset, key) = (&index[i].0, &index[i].1);
        let k = key_dto(key.as_slice());
        blocks.push(BlockMetaDto { offset: *offset, first_key: k });
        i = i + 1;
    }
    BlockIndexDto { blocks, total_blocks: index.len(), truncated: index.len() > MAX_INDEX_BLOCKS }
}

/// The cache key of a summary's segment: the index, or -1 for the root;
/// an index past `i64` is refused.
pub open spec fn segment_key_of(segment: Option<usize>) -> Result<i64, Seq<char>> {
    match segment {
        None => Ok(-1i64),
        Some(s) => if s <= i64::MAX {
            Ok(s as i64)
        } else {
            Err("segment "@ + crate::text::dec(s as nat) + " out of range"@)
        },
    }
}

pub open spec fn key_result_view(r: Result<i64, String>) -> Result<i64, Seq<char>> {
    match r {
        Ok(k) => Ok(k),
        Err(e) => Err(e@),
    }
}

/// Maps a requested segment to its summary cache key.
pub fn segment_key(segment: Option<usize>) -> (r: Result<i64, String>)
    ensures
        key_result_view(r) == segment_key_of(segment),
{
    match segment {
        None => Ok(-1),
        Some(s) => if s as u128 <= i64::MAX as u128 {
            Ok(s as i64)
        } else {
            let mut msg: Vec<char> = Vec::new();
            push_str(&mut msg, "segment ");
            crate::text::push_dec(&mut msg, s as u64);
            push_str(&mut msg, " out of range");
            assert(msg@ =~= "segment "@ + crate::text::dec(s as nat) + " out of range"@);
            Err(crate::text::string_from(&msg))
        },
    }
}

} // verus!
