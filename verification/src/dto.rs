//! The data the dashboard reports: manifests, trees, diffs, summaries and
//! reports, as plain values. Timestamps are `UtcTime` (seconds since the
//! Unix epoch plus a sub-second nanosecond part).

use vstd::prelude::*;

verus! {

/// A UTC instant: whole seconds since the Unix epoch and the sub-second
/// nanoseconds. Instants order by seconds, then nanoseconds.
#[derive(Clone, Copy, Debug, PartialEq, Eq, Structural)]
pub struct UtcTime {
    pub secs: i64,
    pub nanos: u32,
}

impl UtcTime {
    /// Whether `self` is strictly earlier than `other`.
    pub open spec fn precedes(self, other: UtcTime) -> bool {
        self.secs < other.secs || (self.secs == other.secs && self.nanos < other.nanos)
    }

    /// Nanoseconds since the Unix epoch.
    pub open spec fn total_nanos(self) -> int {
        self.secs * 1_000_000_000 + self.nanos
    }

    pub fn is_before(&self, other: &UtcTime) -> (r: bool)
        ensures
            r == self.precedes(*other),
    {
        self.secs < other.secs || (self.secs == other.secs && self.nanos < other.nanos)
    }

    pub fn same_as(&self, other: &UtcTime) -> (r: bool)
        ensures
            r == (*self == *other),
    {
        self.secs == other.secs && self.nanos == other.nanos
    }
}

/// Whether two optional instants are equal.
pub fn same_opt_time(a: &Option<UtcTime>, b: &Option<UtcTime>) -> (r: bool)
    ensures
        r == (*a == *b),
{
    match (a, b) {
        (None, None) => true,
        (Some(x), Some(y)) => x.same_as(y),
        _ => false,
    }
}

/// A copy of an optional string.
pub fn dup_opt_string(s: &Option<String>) -> (r: Option<String>)
    ensures
        r == *s,
{
    match s {
        None => None,
        Some(x) => Some(x.clone()),
    }
}

/// Values that can be copied field by field into an equal value.
pub trait Dup: Sized {
    fn dup(&self) -> (r: Self)
        ensures
            r == *self;
}

/// A key, as lowercase hex plus its UTF-8 text when it is printable.
#[derive(Clone, Debug, PartialEq, Eq)]
pub struct KeyDto {
    pub hex: String,
    pub utf8: Option<String>,
}

impl Dup for KeyDto {
    fn dup(&self) -> (r: Self)
    {
        KeyDto { hex: self.hex.clone(), utf8: dup_opt_string(&self.utf8) }
    }
}

#[derive(Clone, Debug, PartialEq, Eq)]
pub struct BoundDto {
    pub key: KeyDto,
    pub inclusive: bool,
}

impl Dup for BoundDto {
    fn dup(&self) -> (r: Self)
    {
        BoundDto { key: self.key.dup(), inclusive: self.inclusive }
    }
}

fn dup_opt_bound(b: &Option<BoundDto>) -> (r: Option<BoundDto>)
    ensures
        r == *b,
{
    match b {
        None => None,
        Some(x) => Some(x.dup()),
    }
}

/// A key range; a missing bound means unbounded on that side.
#[derive(Clone, Debug, PartialEq, Eq)]
pub struct RangeDto {
    pub start: Option<BoundDto>,
    pub end: Option<BoundDto>,
}

impl Dup for RangeDto {
    fn dup(&self) -> (r: Self)
    {
        RangeDto { start: dup_opt_bound(&self.start), end: dup_opt_bound(&self.end) }
    }
}

#[derive(Clone, Debug, PartialEq, Eq)]
pub enum SstIdDto {
    Wal { id: u64 },
    Compacted { ulid: String },
}

impl Dup for SstIdDto {
    fn dup(&self) -> (r: Self)
    {
        match self {
            SstIdDto::Wal { id } => SstIdDto::Wal { id: *id },
            SstIdDto::Compacted { ulid } => SstIdDto::Compacted { ulid: ulid.clone() },
        }
    }
}

#[derive(Clone, Debug, PartialEq, Eq)]
pub struct SstViewDto {
    pub view_id: String,
    pub sst_id: SstIdDto,
    pub first_key: Option<KeyDto>,
    pub last_key: Option<KeyDto>,
    pub est_bytes: u64,
    pub compression: Option<String>,
    pub visible_range: Option<RangeDto>,
}

/// A copy of an optional key.
pub fn dup_opt_key(k: &Option<KeyDto>) -> (r: Option<KeyDto>)
    ensures
        r == *k,
{
    match k {
        None => None,
        Some(x) => Some(x.dup()),
    }
}

impl Dup for SstViewDto {
    fn dup(&self) -> (r: Self)
    {
        SstViewDto {
            view_id: self.view_id.clone(),
            sst_id: self.sst_id.dup(),
            first_key: dup_opt_key(&self.first_key),
            last_key: dup_opt_key(&self.last_key),
            est_bytes: self.est_bytes,
            compression: dup_opt_string(&self.compression),
            visible_range: match &self.visible_range {
                None => None,
                Some(r) => Some(r.dup()),
            },
        }
    }
}

/// A copy of a list of SST views.
pub fn dup_ssts(v: &Vec<SstViewDto>) -> (r: Vec<SstViewDto>)
    ensures
        r@ == v@,
{
    let mut out: Vec<SstViewDto> = Vec::new();
    let mut i: usize = 0;
    while i < v.len()
        invariant
            i <= v.len(),
            out@ == v@.take(i as int),
        decreases v.len() - i,
    {
        out.push(v[i].dup());
        i = i + 1;
        assert(out@ =~= v@.take(i as int));
    }
    assert(v@.take(v.len() as int) =~= v@);
    out
}

#[derive(Clone, Debug, PartialEq, Eq)]
pub struct SortedRunDto {
    pub id: u32,
    pub est_bytes: u64,
    pub ssts: Vec<SstViewDto>,
}

#[derive(Clone, Debug, PartialEq, Eq)]
pub struct TreeDto {
    pub l0: Vec<SstViewDto>,
    pub runs: Vec<SortedRunDto>,
    pub l0_bytes: u64,
    pub total_bytes: u64,
}

#[derive(Clone, Debug, PartialEq, Eq)]
pub struct SegmentDto {
    pub prefix: KeyDto,
    pub tree: TreeDto,
}

#[derive(Clone, Debug, PartialEq, Eq)]
pub struct CheckpointDto {
    pub id: String,
    pub name: Option<String>,
    pub manifest_id: u64,
    pub create_time: UtcTime,
    pub expire_time: Option<UtcTime>,
}

impl Dup for CheckpointDto {
    fn dup(&self) -> (r: Self)
    {
        CheckpointDto {
            id: self.id.clone(),
            name: dup_opt_string(&self.name),
            manifest_id: self.manifest_id,
            create_time: self.create_time,
            expire_time: self.expire_time,
        }
    }
}

#[derive(Clone, Debug, PartialEq, Eq)]
pub struct CheckpointStatusDto {
    pub checkpoint: CheckpointDto,
    /// Whether the referenced manifest still exists in the object store.
    pub manifest_available: bool,
}

#[derive(Clone, Debug, PartialEq, Eq)]
pub struct ExternalDbDto {
    pub path: String,
    pub source_checkpoint_id: String,
    pub final_checkpoint_id: Option<String>,
    pub sst_count: usize,
    /// A clone with no final checkpoint on its parent no longer depends on it.
    pub detached: bool,
}

impl Dup for ExternalDbDto {
    fn dup(&self) -> (r: Self)
    {
        ExternalDbDto {
            path: self.path.clone(),
            source_checkpoint_id: self.source_checkpoint_id.clone(),
            final_checkpoint_id: dup_opt_string(&self.final_checkpoint_id),
            sst_count: self.sst_count,
            detached: self.detached,
        }
    }
}

#[derive(Clone, Debug, PartialEq, Eq)]
pub struct ManifestDto {
    pub id: u64,
    pub initialized: bool,
    pub writer_epoch: u64,
    pub compactor_epoch: u64,
    pub next_wal_sst_id: u64,
    pub replay_after_wal_id: u64,
    pub last_l0_seq: u64,
    pub last_l0_clock_tick: i64,
    pub recent_snapshot_min_seq: u64,
    pub last_compacted_l0_sst_view_id: Option<String>,
    pub wal_object_store_uri: Option<String>,
    pub segment_extractor_name: Option<String>,
    pub tree: TreeDto,
    pub segments: Vec<SegmentDto>,
    pub checkpoints: Vec<CheckpointDto>,
    pub external_dbs: Vec<ExternalDbDto>,
}

/// Lightweight manifest listing entry, from the object-store listing alone.
#[derive(Clone, Debug, PartialEq, Eq)]
pub struct ManifestIdDto {
    pub id: u64,
    pub last_modified: UtcTime,
}

#[derive(Clone, Debug, PartialEq, Eq)]
pub struct ManifestSummaryDto {
    pub id: u64,
    pub last_modified: Option<UtcTime>,
    pub writer_epoch: u64,
    pub compactor_epoch: u64,
    pub l0_count: usize,
    pub sorted_run_count: usize,
    pub sst_count: usize,
    pub est_total_bytes: u64,
    pub checkpoint_count: usize,
}

#[derive(Clone, Debug, PartialEq, Eq)]
pub struct WarningDto {
    pub code: &'static str,
    /// "info" | "warn" | "error"
    pub severity: &'static str,
    pub message: String,
}

#[derive(Clone, Debug, PartialEq, Eq)]
pub struct OverviewDto {
    pub db_path: String,
    pub provider: String,
    pub manifest_id: u64,
    pub initialized: bool,
    pub writer_epoch: u64,
    pub compactor_epoch: u64,
    pub l0_count: usize,
    pub sorted_run_count: usize,
    pub sst_count: usize,
    pub l0_bytes: u64,
    pub est_total_bytes: u64,
    pub segment_count: usize,
    pub next_wal_sst_id: u64,
    pub replay_after_wal_id: u64,
    pub last_l0_seq: u64,
    pub last_l0_approx_time: Option<UtcTime>,
    pub recent_snapshot_min_seq: u64,
    pub checkpoint_count: usize,
    pub clone_count: usize,
    pub wal_object_store_uri: Option<String>,
    pub manifest_count: usize,
    pub oldest_manifest_id: Option<u64>,
    pub latest_manifest_written_at: Option<UtcTime>,
    pub warnings: Vec<WarningDto>,
}

#[derive(Clone, Debug, PartialEq, Eq)]
pub struct LsmDto {
    pub manifest_id: u64,
    pub tree: TreeDto,
    pub segments: Vec<SegmentDto>,
    pub segment_extractor_name: Option<String>,
}

/// Per-level aggregate for the summary LSM view. `ssts` is present only
/// when the level is small enough to render SSTs individually.
#[derive(Clone, Debug, PartialEq, Eq)]
pub struct LevelSummaryDto {
    pub label: String,
    pub run_id: Option<u32>,
    pub is_l0: bool,
    pub sst_count: usize,
    pub est_bytes: u64,
    /// SSTs-per-bucket depth across the key space (read amplification).
    pub coverage: Vec<u32>,
    pub ssts: Option<Vec<SstViewDto>>,
}

/// Segment descriptor without tree contents: enough for tabs and totals.
#[derive(Clone, Debug, PartialEq, Eq)]
pub struct SegmentMetaDto {
    pub prefix: KeyDto,
    pub sst_count: usize,
    pub est_bytes: u64,
}

/// Summary-first LSM payload: O(levels × buckets) regardless of tree size.
#[derive(Clone, Debug, PartialEq, Eq)]
pub struct LsmSummaryDto {
    pub manifest_id: u64,
    pub segment_extractor_name: Option<String>,
    pub segments: Vec<SegmentMetaDto>,
    /// Segment whose levels are below; absent = the root tree.
    pub segment: Option<usize>,
    pub root_sst_count: usize,
    /// Bucket count of every `coverage` array in `levels`.
    pub buckets: usize,
    /// Bucket edge keys; empty when the tree has no keyed SSTs.
    pub bucket_keys: Vec<KeyDto>,
    pub levels: Vec<LevelSummaryDto>,
    pub total_bytes: u64,
    pub l0_bytes: u64,
}

#[derive(Clone, Debug, PartialEq, Eq)]
pub struct SstInfoDto {
    pub first_key: Option<KeyDto>,
    pub last_key: Option<KeyDto>,
    pub index_offset: u64,
    pub index_len: u64,
    pub filter_offset: u64,
    pub filter_len: u64,
    pub stats_offset: u64,
    pub stats_len: u64,
    pub compression: Option<String>,
    pub sst_type: String,
    pub filter_format: String,
}

#[derive(Clone, Debug, PartialEq, Eq)]
pub struct SstStatsDto {
    pub num_puts: u64,
    pub num_deletes: u64,
    pub num_merges: u64,
    pub num_rows: u64,
    pub raw_key_bytes: u64,
    pub raw_val_bytes: u64,
    pub block_count: usize,
}

#[derive(Clone, Debug, PartialEq, Eq)]
pub struct BlockMetaDto {
    pub offset: u64,
    pub first_key: KeyDto,
}

#[derive(Clone, Debug, PartialEq, Eq)]
pub struct BlockIndexDto {
    pub blocks: Vec<BlockMetaDto>,
    pub total_blocks: usize,
    pub truncated: bool,
}

#[derive(Clone, Debug, PartialEq, Eq)]
pub struct SstDetailDto {
    pub ulid: String,
    pub location: String,
    pub size_bytes: u64,
    pub last_modified: UtcTime,
    pub info: SstInfoDto,
    pub stats: Option<SstStatsDto>,
    pub index: BlockIndexDto,
}

#[derive(Clone, Debug, PartialEq, Eq)]
pub struct SourceDto {
    pub kind: String,
    pub id: String,
}

#[derive(Clone, Debug, PartialEq, Eq)]
pub struct OutputSstDto {
    pub sst_id: SstIdDto,
    pub est_bytes: u64,
}

#[derive(Clone, Debug, PartialEq, Eq)]
pub struct CompactionDto {
    pub id: String,
    pub status: String,
    pub is_drain: bool,
    pub segment: Option<KeyDto>,
    pub sources: Vec<SourceDto>,
    pub destination: Option<u32>,
    pub bytes_processed: u64,
    pub output_ssts: Vec<OutputSstDto>,
    pub active: bool,
}

#[derive(Clone, Debug, PartialEq, Eq)]
pub struct VersionedCompactionsDto {
    pub id: u64,
    pub compactor_epoch: u64,
    pub compactions: Vec<CompactionDto>,
}

#[derive(Clone, Debug, PartialEq, Eq)]
pub struct CompactorStateDto {
    pub manifest_id: u64,
    pub compactions: Option<VersionedCompactionsDto>,
}

#[derive(Clone, Debug, PartialEq, Eq)]
pub struct SortedRunSummaryDto {
    pub id: u32,
    pub est_bytes: u64,
    pub sst_count: usize,
}

impl Dup for SortedRunSummaryDto {
    fn dup(&self) -> (r: Self)
    {
        SortedRunSummaryDto { id: self.id, est_bytes: self.est_bytes, sst_count: self.sst_count }
    }
}

#[derive(Clone, Debug, PartialEq, Eq)]
pub struct RunChangeDto {
    pub id: u32,
    pub ssts_added: Vec<SstViewDto>,
    pub ssts_removed: Vec<SstViewDto>,
}

#[derive(Debug, PartialEq, Eq)]
pub struct CheckpointChangeDto {
    pub id: String,
    /// (value in a, value in b)
    pub manifest_id: (u64, u64),
    pub expire_time: (Option<UtcTime>, Option<UtcTime>),
}

impl Clone for CheckpointChangeDto {
    fn clone(&self) -> (r: Self)
        ensures
            r == *self,
    {
        CheckpointChangeDto {
            id: self.id.clone(),
            manifest_id: self.manifest_id,
            expire_time: self.expire_time,
        }
    }
}

#[derive(Clone, Debug, PartialEq, Eq)]
pub struct ScalarChangeDto {
    pub field: String,
    pub a: String,
    pub b: String,
}

impl Dup for ScalarChangeDto {
    fn dup(&self) -> (r: Self)
    {
        ScalarChangeDto { field: self.field.clone(), a: self.a.clone(), b: self.b.clone() }
    }
}

/// A copy of a list.
pub fn dup_vec<T: Dup>(v: &Vec<T>) -> (r: Vec<T>)
    ensures
        r@ == v@,
{
    let mut out: Vec<T> = Vec::new();
    let mut i: usize = 0;
    while i < v.len()
        invariant
            i <= v.len(),
            out@ == v@.take(i as int),
        decreases v.len() - i,
    {
        out.push(v[i].dup());
        i = i + 1;
        assert(out@ =~= v@.take(i as int));
    }
    assert(v@.take(v.len() as int) =~= v@);
    out
}

#[derive(Clone, Debug, PartialEq, Eq)]
pub struct ManifestDiffDto {
    pub a: u64,
    pub b: u64,
    pub l0_added: Vec<SstViewDto>,
    pub l0_removed: Vec<SstViewDto>,
    pub runs_added: Vec<SortedRunSummaryDto>,
    pub runs_removed: Vec<SortedRunSummaryDto>,
    pub runs_changed: Vec<RunChangeDto>,
    pub segments_added: Vec<KeyDto>,
    pub segments_removed: Vec<KeyDto>,
    pub checkpoints_added: Vec<CheckpointDto>,
    pub checkpoints_removed: Vec<CheckpointDto>,
    pub checkpoints_changed: Vec<CheckpointChangeDto>,
    pub external_dbs_added: Vec<ExternalDbDto>,
    pub external_dbs_removed: Vec<ExternalDbDto>,
    pub scalars: Vec<ScalarChangeDto>,
}

#[derive(Clone, Debug, PartialEq, Eq)]
pub struct WalSstDto {
    pub id: u64,
    pub size_bytes: u64,
    pub last_modified: UtcTime,
}

#[derive(Clone, Debug, PartialEq, Eq)]
pub struct WalDto {
    pub next_wal_sst_id: u64,
    pub replay_after_wal_id: u64,
    /// Across all WAL SSTs, not just the returned page.
    pub total_bytes: u64,
    pub total_count: usize,
    pub wal_object_store_uri: Option<String>,
    /// Newest first, truncated to the requested limit.
    pub entries: Vec<WalSstDto>,
}

/// Aggregate view of one SST-list change: enough for a feed line.
#[derive(Clone, Debug, PartialEq, Eq)]
pub struct SstDeltaDto {
    pub count: usize,
    pub bytes: u64,
}

#[derive(Clone, Debug, PartialEq, Eq)]
pub struct RunChangeSummaryDto {
    pub id: u32,
    pub added: SstDeltaDto,
    pub removed: SstDeltaDto,
}

/// Aggregate manifest diff for the activity feed.
#[derive(Clone, Debug, PartialEq, Eq)]
pub struct DiffSummaryDto {
    pub l0_added: SstDeltaDto,
    pub l0_removed: SstDeltaDto,
    pub runs_added: Vec<SortedRunSummaryDto>,
    pub runs_removed: Vec<SortedRunSummaryDto>,
    pub runs_changed: Vec<RunChangeSummaryDto>,
    pub segments_added: usize,
    pub segments_removed: usize,
    pub checkpoints_added: Vec<CheckpointDto>,
    pub checkpoints_removed: Vec<CheckpointDto>,
    pub checkpoints_changed: usize,
    pub external_dbs_added: usize,
    pub external_dbs_removed: usize,
    pub scalars: Vec<ScalarChangeDto>,
}

/// One manifest transition (a -> b) in the activity feed.
#[derive(Clone, Debug, PartialEq, Eq)]
pub struct ActivityDto {
    pub a: u64,
    pub b: u64,
    /// When manifest `b` was written.
    pub at: UtcTime,
    pub diff: DiffSummaryDto,
}

#[derive(Clone, Debug, PartialEq, Eq)]
pub struct HealthDto {
    pub status: &'static str,
    pub store_count: usize,
    /// Discovered DBs as of the last scan; absent before the first scan.
    pub db_count: Option<usize>,
}

#[derive(Clone, Debug, PartialEq, Eq)]
pub struct DbInfoDto {
    /// "{store}:{path}", the identity used by /api/dbs/{id}.
    pub id: String,
    pub store: String,
    pub path: String,
}

#[derive(Clone, Debug, PartialEq, Eq)]
pub struct DbsDto {
    pub scanned_at: UtcTime,
    pub dbs: Vec<DbInfoDto>,
}

/// One object observed to have disappeared between two listing refreshes.
#[derive(Clone, Debug, PartialEq, Eq)]
pub struct GcEventDto {
    /// "compacted" | "wal" | "manifest"
    pub kind: &'static str,
    /// ULID for compacted SSTs, "#<id>" for WAL SSTs and manifests.
    pub id: String,
    pub size_bytes: u64,
    pub written_at: UtcTime,
    /// Last listing refresh that still saw the object.
    pub last_seen_at: UtcTime,
    /// First listing refresh that no longer saw it.
    pub missing_at: UtcTime,
    /// Whether the latest cached manifest still referenced it when it
    /// vanished; absent when no manifest was available to judge against.
    pub referenced: Option<bool>,
}

#[derive(Clone, Debug, PartialEq, Eq)]
pub struct GcEventsDto {
    pub observing_since: UtcTime,
    /// Newest first, capped.
    pub events: Vec<GcEventDto>,
}

#[derive(Clone, Debug, PartialEq, Eq)]
pub struct SearchSstObjectDto {
    pub location: String,
    pub size_bytes: u64,
    pub last_modified: UtcTime,
}

#[derive(Clone, Debug, PartialEq, Eq)]
pub struct SearchManifestHitDto {
    pub id: u64,
    /// Where in the tree the ULID matched.
    pub places: Vec<String>,
}

#[derive(Clone, Debug, PartialEq, Eq)]
pub struct SearchCompactionHitDto {
    /// Newest .compactions version containing this hit.
    pub version: u64,
    pub job_id: String,
    /// "job" or "output".
    pub role: &'static str,
}

#[derive(Clone, Debug, PartialEq, Eq)]
pub struct SearchCheckpointHitDto {
    pub id: String,
    pub name: Option<String>,
    pub manifest_id: u64,
}

#[derive(Clone, Debug, PartialEq, Eq)]
pub struct SearchDto {
    pub query: String,
    pub sst_object: Option<SearchSstObjectDto>,
    pub manifests: Vec<SearchManifestHitDto>,
    pub manifests_scanned: usize,
    pub manifests_total: usize,
    pub compactions: Vec<SearchCompactionHitDto>,
    pub checkpoints: Vec<SearchCheckpointHitDto>,
}

/// Per-directory breakdown of stored objects: live, pinned, reclaimable.
#[derive(Clone, Debug, Default, PartialEq, Eq, Structural)]
pub struct GarbageCategoryDto {
    pub stored_count: usize,
    pub stored_bytes: u64,
    pub live_count: usize,
    pub live_bytes: u64,
    pub pinned_count: usize,
    pub pinned_bytes: u64,
    pub reclaimable_count: usize,
    pub reclaimable_bytes: u64,
}

/// One unexpired checkpoint and how much storage it keeps alive beyond
/// what the latest manifest already references.
#[derive(Clone, Debug, PartialEq, Eq)]
pub struct GarbagePinnerDto {
    pub id: String,
    pub name: Option<String>,
    pub manifest_id: u64,
    pub expire_time: Option<UtcTime>,
    pub manifest_available: bool,
    pub extra_bytes: u64,
    pub extra_count: usize,
}

/// The garbage report. Space amplification is reported as its two terms,
/// `data_stored_bytes` over `data_live_bytes` (compacted + WAL objects).
#[derive(Clone, Debug, PartialEq, Eq)]
pub struct GarbageDto {
    pub manifest_id: u64,
    pub live_checkpoint_count: usize,
    pub expired_checkpoint_count: usize,
    /// Unexpired checkpoints whose manifest no longer exists.
    pub dangling_checkpoint_count: usize,
    pub compacted: GarbageCategoryDto,
    pub wal: GarbageCategoryDto,
    pub manifests: GarbageCategoryDto,
    pub stored_bytes: u64,
    pub live_bytes: u64,
    pub pinned_bytes: u64,
    pub reclaimable_bytes: u64,
    pub data_stored_bytes: u64,
    pub data_live_bytes: u64,
    /// When the oldest reclaimable object was written.
    pub oldest_reclaimable_at: Option<UtcTime>,
}

} // verus!
