use std::collections::HashSet;

use outcrop::dto::{CheckpointDto, KeyDto, ManifestDto, SegmentDto, SstIdDto, SstViewDto, TreeDto, UtcTime};
use outcrop::warnings::{compute_warnings, WarningInputs};

fn manifest() -> ManifestDto {
    ManifestDto {
        id: 10,
        initialized: true,
        writer_epoch: 1,
        compactor_epoch: 1,
        next_wal_sst_id: 6,
        replay_after_wal_id: 5,
        last_l0_seq: 100,
        last_l0_clock_tick: 0,
        recent_snapshot_min_seq: 0,
        last_compacted_l0_sst_view_id: None,
        wal_object_store_uri: None,
        segment_extractor_name: None,
        tree: TreeDto { l0: vec![], runs: vec![], l0_bytes: 0, total_bytes: 0 },
        segments: vec![],
        checkpoints: vec![],
        external_dbs: vec![],
    }
}

fn sst(view_id: &str) -> SstViewDto {
    SstViewDto {
        view_id: view_id.to_string(),
        sst_id: SstIdDto::Compacted { ulid: view_id.to_string() },
        first_key: None,
        last_key: None,
        est_bytes: 1,
        compression: None,
        visible_range: None,
    }
}

fn checkpoint(manifest_id: u64, expire_time: Option<UtcTime>) -> CheckpointDto {
    CheckpointDto {
        id: format!("cp-{manifest_id}"),
        name: None,
        manifest_id,
        create_time: UtcTime { secs: 0, nanos: 0 },
        expire_time,
    }
}

fn now() -> UtcTime {
    UtcTime { secs: 1_000_000, nanos: 0 }
}

fn minutes_from_now(m: i64) -> UtcTime {
    UtcTime { secs: now().secs + 60 * m, nanos: 0 }
}

fn codes(m: &ManifestDto, live: &[u64], written_at: Option<UtcTime>) -> Vec<&'static str> {
    let live: HashSet<u64> = live.iter().copied().collect();
    compute_warnings(&WarningInputs {
        manifest: m,
        live_manifest_ids: &live,
        latest_manifest_written_at: written_at,
        now: now(),
    })
    .iter()
    .map(|w| w.code)
    .collect()
}

#[test]
fn healthy_manifest_has_no_warnings() {
    let m = manifest();
    assert!(codes(&m, &[10], Some(now())).is_empty());
}

#[test]
fn expired_checkpoint_warns() {
    let mut m = manifest();
    m.checkpoints = vec![
        checkpoint(10, Some(minutes_from_now(-1))),
        checkpoint(10, Some(minutes_from_now(1))),
        checkpoint(10, None),
    ];
    assert_eq!(codes(&m, &[10], Some(now())), vec!["expired_checkpoint"]);
}

#[test]
fn checkpoint_referencing_gced_manifest_errors() {
    let mut m = manifest();
    m.checkpoints = vec![checkpoint(3, None)];
    assert_eq!(codes(&m, &[10], Some(now())), vec!["checkpoint_manifest_gced"]);
}

#[test]
fn l0_backlog_warns_per_tree() {
    let mut m = manifest();
    m.tree.l0 = (0..8).map(|n| sst(&format!("r{n}"))).collect();
    m.segments = vec![
        SegmentDto {
            prefix: KeyDto { hex: "aa".to_string(), utf8: None },
            tree: TreeDto {
                l0: (0..9).map(|n| sst(&format!("s{n}"))).collect(),
                runs: vec![],
                l0_bytes: 0,
                total_bytes: 0,
            },
        },
        SegmentDto {
            prefix: KeyDto { hex: "bb".to_string(), utf8: None },
            tree: TreeDto { l0: vec![sst("t0")], runs: vec![], l0_bytes: 0, total_bytes: 0 },
        },
    ];
    assert_eq!(codes(&m, &[10], Some(now())), vec!["l0_backlog", "l0_backlog"]);
}

#[test]
fn stale_manifest_is_informational() {
    let m = manifest();
    let written = minutes_from_now(-11);
    let live: HashSet<u64> = [10].into_iter().collect();
    let warnings = compute_warnings(&WarningInputs {
        manifest: &m,
        live_manifest_ids: &live,
        latest_manifest_written_at: Some(written),
        now: now(),
    });
    assert_eq!(warnings.len(), 1);
    assert_eq!(warnings[0].code, "stale_manifest");
    assert_eq!(warnings[0].severity, "info");
}

#[test]
fn large_wal_window_warns() {
    let mut m = manifest();
    m.next_wal_sst_id = 202;
    m.replay_after_wal_id = 100;
    assert_eq!(codes(&m, &[10], Some(now())), vec!["wal_window_large"]);
}

#[test]
fn wal_window_never_underflows() {
    let mut m = manifest();
    m.next_wal_sst_id = 1;
    m.replay_after_wal_id = 0;
    assert!(codes(&m, &[10], Some(now())).is_empty());
}
