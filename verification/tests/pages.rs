use outcrop::convert::check_totals;
use outcrop::dto::{CheckpointDto, KeyDto, ManifestDto, SegmentDto, TreeDto, UtcTime};
use outcrop::pages::check_wal_total;
use outcrop::summary::check_trees;
use outcrop::listing::{ManifestEntry, WalEntry};
use outcrop::pages::{
    activity_pairs, checkpoint_statuses, clamp_limit, compactions_range, manifest_summary, overview_dto,
    parse_manifest_ref, segment_key, select_manifests, wal_page, block_index, ManifestRef, MAX_INDEX_BLOCKS,
};

fn at(secs: i64) -> UtcTime {
    UtcTime { secs, nanos: 0 }
}

fn me(id: u64) -> ManifestEntry {
    ManifestEntry { id, size_bytes: 10, last_modified: at(id as i64) }
}

fn manifest(id: u64) -> ManifestDto {
    ManifestDto {
        id,
        initialized: true,
        writer_epoch: 3,
        compactor_epoch: 2,
        next_wal_sst_id: 6,
        replay_after_wal_id: 5,
        last_l0_seq: 100,
        last_l0_clock_tick: 0,
        recent_snapshot_min_seq: 0,
        last_compacted_l0_sst_view_id: None,
        wal_object_store_uri: None,
        segment_extractor_name: None,
        tree: TreeDto { l0: vec![], runs: vec![], l0_bytes: 0, total_bytes: 0 },
        segments: vec![],
        checkpoints: vec![],
        external_dbs: vec![],
    }
}

fn cp(id: &str, manifest_id: u64) -> CheckpointDto {
    CheckpointDto { id: id.to_string(), name: None, manifest_id, create_time: at(0), expire_time: None }
}

#[test]
fn limits_default_and_clamp() {
    assert_eq!(clamp_limit(None, 200, 2000), 200);
    assert_eq!(clamp_limit(Some(0), 200, 2000), 1);
    assert_eq!(clamp_limit(Some(5000), 200, 2000), 2000);
    assert_eq!(clamp_limit(Some(7), 200, 2000), 7);
}

#[test]
fn wal_page_is_newest_first_with_totals_over_everything() {
    let entries: Vec<WalEntry> =
        (1..=5).map(|id| WalEntry { id, size_bytes: id * 10, last_modified: at(id as i64) }).collect();
    let page = wal_page(Some(2), 9, 4, Some("s3://wal".to_string()), &entries);
    assert_eq!(page.total_bytes, 150);
    assert_eq!(page.total_count, 5);
    assert_eq!(page.entries.iter().map(|e| e.id).collect::<Vec<_>>(), vec![5, 4]);
    assert_eq!((page.next_wal_sst_id, page.replay_after_wal_id), (9, 4));
    assert_eq!(page.wal_object_store_uri.as_deref(), Some("s3://wal"));
    let all = wal_page(None, 0, 0, None, &entries);
    assert_eq!(all.entries.len(), 5);
}

#[test]
fn manifest_selection_windows_then_takes_newest() {
    let es: Vec<ManifestEntry> = (1..=10).map(me).collect();
    let ids = |v: Vec<ManifestEntry>| v.iter().map(|e| e.id).collect::<Vec<_>>();
    assert_eq!(ids(select_manifests(&es, Some(3), Some(7), Some(3))), vec![7, 6, 5]);
    assert_eq!(ids(select_manifests(&es, None, None, None)), (1..=10).rev().collect::<Vec<_>>());
    assert!(select_manifests(&es, Some(8), Some(2), None).is_empty());
    // A limit of 0 is clamped to 1: the newest manifest in range.
    assert_eq!(ids(select_manifests(&es, None, None, Some(0))), vec![10]);
    assert_eq!(ids(select_manifests(&es, Some(2), Some(5), Some(0))), vec![5]);
    assert_eq!(select_manifests(&es, None, None, Some(10_000)).len(), 10);
}

#[test]
fn manifest_summary_counts_the_tree() {
    let s = manifest_summary(&me(4), &manifest(4));
    assert_eq!(s.id, 4);
    assert_eq!(s.last_modified, Some(at(4)));
    assert_eq!((s.writer_epoch, s.compactor_epoch), (3, 2));
    assert_eq!((s.l0_count, s.sorted_run_count, s.sst_count, s.est_total_bytes), (0, 0, 0, 0));
}

#[test]
fn manifest_refs_parse() {
    assert_eq!(parse_manifest_ref("latest"), Ok(ManifestRef::Latest));
    assert_eq!(parse_manifest_ref("42"), Ok(ManifestRef::Id(42)));
    assert_eq!(parse_manifest_ref("+7"), Ok(ManifestRef::Id(7)));
    assert_eq!(parse_manifest_ref("x1"), Err("invalid manifest id 'x1'".to_string()));
    assert_eq!(parse_manifest_ref(""), Err("invalid manifest id ''".to_string()));
}

#[test]
fn compaction_windows_anchor_to_the_end() {
    assert_eq!(compactions_range(Some(10), Some(100), Some(5), None), Some((96, 100)));
    assert_eq!(compactions_range(Some(99), Some(100), Some(5), None), Some((99, 100)));
    assert_eq!(compactions_range(Some(10), None, None, None), Some((10, 29)));
    assert_eq!(compactions_range(None, Some(3), Some(500), None), Some((0, 3)));
    assert_eq!(compactions_range(None, None, None, Some(50)), Some((31, 50)));
    assert_eq!(compactions_range(None, None, None, None), None);
    assert_eq!(compactions_range(Some(u64::MAX), None, Some(3), None), Some((u64::MAX, u64::MAX)));
}

#[test]
fn activity_pairs_cover_the_newest_transitions() {
    let es: Vec<ManifestEntry> = (1..=5).map(me).collect();
    let pairs = activity_pairs(&es, Some(2));
    assert_eq!(pairs, vec![(3, 4, at(4)), (4, 5, at(5))]);
    assert_eq!(activity_pairs(&es, None).len(), 4);
    assert!(activity_pairs(&es[..1].to_vec(), None).is_empty());
    assert!(activity_pairs(&vec![], None).is_empty());
}

#[test]
fn checkpoint_targets_are_checked_against_the_listing() {
    let cps = vec![cp("a", 1), cp("b", 2)];
    let st = checkpoint_statuses(&cps, &vec![me(2), me(3)]);
    assert_eq!(st.len(), 2);
    assert!(!st[0].manifest_available);
    assert!(st[1].manifest_available);
    assert_eq!(st[1].checkpoint.id, "b");
}

#[test]
fn overview_reports_listing_edges_and_warnings() {
    let mut m = manifest(3);
    m.checkpoints = vec![cp("gone", 1)];
    let es = vec![me(2), me(3)];
    let o = overview_dto("db".to_string(), "local".to_string(), &m, &es, None, at(3));
    assert_eq!(o.manifest_id, 3);
    assert_eq!(o.manifest_count, 2);
    assert_eq!(o.oldest_manifest_id, Some(2));
    assert_eq!(o.latest_manifest_written_at, Some(at(3)));
    assert_eq!(o.checkpoint_count, 1);
    assert_eq!(o.warnings.iter().map(|w| w.code).collect::<Vec<_>>(), vec!["checkpoint_manifest_gced"]);
}

#[test]
fn block_index_is_capped() {
    let idx: Vec<(u64, Vec<u8>)> = (0..2001u64).map(|i| (i * 10, vec![b'k', (i % 256) as u8])).collect();
    let b = block_index(&idx);
    assert_eq!(b.total_blocks, 2001);
    assert!(b.truncated);
    assert_eq!(b.blocks.len(), MAX_INDEX_BLOCKS);
    assert_eq!(b.blocks[3].offset, 30);
    assert_eq!(b.blocks[3].first_key.hex, "6b03");
    let small = block_index(&vec![(0, b"a".to_vec())]);
    assert!(!small.truncated);
    assert_eq!(small.blocks[0].first_key.utf8.as_deref(), Some("a"));
}

#[test]
fn segment_keys() {
    assert_eq!(segment_key(None), Ok(-1));
    assert_eq!(segment_key(Some(3)), Ok(3));
    assert_eq!(segment_key(Some(usize::MAX)), Err(format!("segment {} out of range", usize::MAX)));
}

#[test]
fn manifest_size_checks_match_what_the_library_requires() {
    let mut m = manifest(1);
    assert!(check_totals(&m));
    assert!(check_trees(&m));
    m.tree.l0_bytes = u64::MAX;
    assert!(check_totals(&m));
    let mut seg_tree = m.tree.clone();
    seg_tree.l0_bytes = 1;
    m.segments.push(SegmentDto { prefix: KeyDto { hex: "61".to_string(), utf8: Some("a".to_string()) }, tree: seg_tree });
    assert!(!check_totals(&m));
    assert!(check_trees(&m));
}

#[test]
fn wal_total_check_matches_what_the_page_requires() {
    let w = |id: u64, size: u64| WalEntry { id, size_bytes: size, last_modified: at(0) };
    assert!(check_wal_total(&vec![w(1, u64::MAX - 1), w(2, 1)]));
    assert!(!check_wal_total(&vec![w(1, u64::MAX), w(2, 1)]));
}
