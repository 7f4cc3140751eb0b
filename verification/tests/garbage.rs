use std::collections::HashSet;

use outcrop::dto::UtcTime;
use outcrop::garbage::{check_garbage_total, compute_garbage, GarbageInputs, ManifestRefs};
use outcrop::listing::{CompactedEntry, ManifestEntry, WalEntry};

fn ts(secs: i64) -> UtcTime {
    UtcTime { secs, nanos: 0 }
}

fn refs(id: u64, compacted: &[u128], replay_after: u64, next: u64) -> ManifestRefs {
    ManifestRefs {
        id,
        compacted: compacted.iter().copied().collect::<HashSet<u128>>(),
        replay_after_wal_id: replay_after,
        next_wal_sst_id: next,
    }
}

fn compacted_entry(u: u128, size: u64, at: i64) -> CompactedEntry {
    CompactedEntry { ulid: u, size_bytes: size, last_modified: ts(at) }
}

fn wal_entry(id: u64, size: u64, at: i64) -> WalEntry {
    WalEntry { id, size_bytes: size, last_modified: ts(at) }
}

fn manifest_entry(id: u64, size: u64, at: i64) -> ManifestEntry {
    ManifestEntry { id, size_bytes: size, last_modified: ts(at) }
}

fn space_amp(stored: u64, live: u64) -> Option<f64> {
    if live > 0 {
        Some(stored as f64 / live as f64)
    } else {
        None
    }
}

#[test]
fn classifies_compacted_ssts() {
    let (live, pinned, orphan) = (1u128, 2u128, 3u128);
    let inputs = GarbageInputs {
        latest: refs(10, &[live], 5, 8),
        pinned: vec![refs(7, &[live, pinned], 3, 6)],
        live_checkpoint_count: 1,
        expired_checkpoint_count: 0,
        dangling_checkpoint_count: 0,
        compacted_listing: &[
            compacted_entry(live, 100, 1000),
            compacted_entry(pinned, 40, 900),
            compacted_entry(orphan, 7, 800),
        ],
        wal_listing: &[],
        manifest_listing: &[],
    };
    let out = compute_garbage(&inputs);
    assert_eq!(out.compacted.stored_count, 3);
    assert_eq!(out.compacted.stored_bytes, 147);
    assert_eq!(out.compacted.live_bytes, 100);
    assert_eq!(out.compacted.pinned_bytes, 40);
    assert_eq!(out.compacted.reclaimable_bytes, 7);
    assert_eq!(out.oldest_reclaimable_at, Some(ts(800)));
}

#[test]
fn wal_window_is_live_and_checkpointed_window_is_pinned() {
    let inputs = GarbageInputs {
        // Latest replays after #6: WAL 7+ live.
        latest: refs(10, &[], 6, 9),
        // Checkpointed manifest still needs WAL (4, 6).
        pinned: vec![refs(8, &[], 4, 7)],
        live_checkpoint_count: 1,
        expired_checkpoint_count: 0,
        dangling_checkpoint_count: 0,
        compacted_listing: &[],
        wal_listing: &[
            wal_entry(3, 10, 100), // reclaimable
            wal_entry(5, 10, 200), // pinned by checkpoint
            wal_entry(7, 10, 300), // live window
            wal_entry(9, 10, 400), // newer than manifest: live
        ],
        manifest_listing: &[],
    };
    let out = compute_garbage(&inputs);
    assert_eq!(out.wal.live_bytes, 20);
    assert_eq!(out.wal.pinned_bytes, 10);
    assert_eq!(out.wal.reclaimable_bytes, 10);
    assert_eq!(out.oldest_reclaimable_at, Some(ts(100)));
}

#[test]
fn manifests_keep_latest_and_checkpoint_targets() {
    let inputs = GarbageInputs {
        latest: refs(5, &[], 0, 1),
        pinned: vec![refs(3, &[], 0, 1)],
        live_checkpoint_count: 1,
        expired_checkpoint_count: 2,
        dangling_checkpoint_count: 0,
        compacted_listing: &[],
        wal_listing: &[],
        manifest_listing: &[
            manifest_entry(1, 5, 100),
            manifest_entry(3, 5, 200),
            manifest_entry(5, 5, 300),
            manifest_entry(6, 5, 400), // listing raced a newer write
        ],
    };
    let out = compute_garbage(&inputs);
    assert_eq!(out.manifests.live_count, 2); // #5 and the newer #6
    assert_eq!(out.manifests.pinned_count, 1);
    assert_eq!(out.manifests.reclaimable_count, 1);
    assert_eq!(out.expired_checkpoint_count, 2);
}

#[test]
fn space_amp_ignores_manifest_bytes() {
    let (live, orphan) = (1u128, 2u128);
    let inputs = GarbageInputs {
        latest: refs(2, &[live], 0, 1),
        pinned: vec![],
        live_checkpoint_count: 0,
        expired_checkpoint_count: 0,
        dangling_checkpoint_count: 0,
        compacted_listing: &[compacted_entry(live, 100, 100), compacted_entry(orphan, 100, 100)],
        wal_listing: &[],
        manifest_listing: &[manifest_entry(2, 1_000_000, 100)],
    };
    let out = compute_garbage(&inputs);
    assert_eq!(space_amp(out.data_stored_bytes, out.data_live_bytes), Some(2.0));
}

#[test]
fn space_amp_absent_when_nothing_live() {
    let inputs = GarbageInputs {
        latest: refs(1, &[], 0, 1),
        pinned: vec![],
        live_checkpoint_count: 0,
        expired_checkpoint_count: 0,
        dangling_checkpoint_count: 0,
        compacted_listing: &[],
        wal_listing: &[],
        manifest_listing: &[],
    };
    let out = compute_garbage(&inputs);
    assert_eq!(space_amp(out.data_stored_bytes, out.data_live_bytes), None);
    assert_eq!(out.oldest_reclaimable_at, None);
}

#[test]
fn every_category_partitions_its_stored_bytes() {
    let inputs = GarbageInputs {
        latest: refs(10, &[1], 6, 9),
        pinned: vec![refs(8, &[2], 4, 7)],
        live_checkpoint_count: 1,
        expired_checkpoint_count: 0,
        dangling_checkpoint_count: 0,
        compacted_listing: &[compacted_entry(1, 5, 1), compacted_entry(2, 6, 2), compacted_entry(3, 7, 3)],
        wal_listing: &[wal_entry(3, 1, 1), wal_entry(5, 2, 2), wal_entry(7, 3, 3)],
        manifest_listing: &[manifest_entry(8, 4, 1), manifest_entry(9, 5, 2), manifest_entry(10, 6, 3)],
    };
    let out = compute_garbage(&inputs);
    for c in [&out.compacted, &out.wal, &out.manifests] {
        assert_eq!(c.stored_bytes, c.live_bytes + c.pinned_bytes + c.reclaimable_bytes);
        assert_eq!(c.stored_count, c.live_count + c.pinned_count + c.reclaimable_count);
    }
    assert_eq!(out.stored_bytes, out.live_bytes + out.pinned_bytes + out.reclaimable_bytes);
}

#[test]
fn stored_total_check_matches_what_compute_garbage_requires() {
    let compacted = [compacted_entry(1, u64::MAX - 10, 1)];
    let wal = [wal_entry(1, 10, 1)];
    let big = [manifest_entry(1, 1, 1)];
    let mut inputs = GarbageInputs {
        latest: refs(1, &[], 0, 1),
        pinned: vec![],
        live_checkpoint_count: 0,
        expired_checkpoint_count: 0,
        dangling_checkpoint_count: 0,
        compacted_listing: &compacted,
        wal_listing: &wal,
        manifest_listing: &[],
    };
    assert!(check_garbage_total(&inputs));
    inputs.manifest_listing = &big;
    assert!(!check_garbage_total(&inputs));
}
