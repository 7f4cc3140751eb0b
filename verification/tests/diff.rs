use outcrop::convert::{check_tree_bytes, check_views_bytes};
use outcrop::diff::{check_sums, diff_manifests, summarize_diff};
use outcrop::dto::{CheckpointDto, ManifestDto, SortedRunDto, SstIdDto, SstViewDto, TreeDto, UtcTime};

fn sst(view_id: &str, bytes: u64) -> SstViewDto {
    SstViewDto {
        view_id: view_id.to_string(),
        sst_id: SstIdDto::Compacted { ulid: view_id.to_string() },
        first_key: None,
        last_key: None,
        est_bytes: bytes,
        compression: None,
        visible_range: None,
    }
}

fn run(id: u32, ssts: Vec<SstViewDto>) -> SortedRunDto {
    SortedRunDto { id, est_bytes: ssts.iter().map(|s| s.est_bytes).sum(), ssts }
}

fn manifest(id: u64, l0: Vec<SstViewDto>, runs: Vec<SortedRunDto>) -> ManifestDto {
    let l0_bytes = l0.iter().map(|s| s.est_bytes).sum::<u64>();
    let total_bytes = l0_bytes + runs.iter().map(|r| r.est_bytes).sum::<u64>();
    ManifestDto {
        id,
        initialized: true,
        writer_epoch: 1,
        compactor_epoch: 1,
        next_wal_sst_id: 10,
        replay_after_wal_id: 5,
        last_l0_seq: 100,
        last_l0_clock_tick: 0,
        recent_snapshot_min_seq: 0,
        last_compacted_l0_sst_view_id: None,
        wal_object_store_uri: None,
        segment_extractor_name: None,
        tree: TreeDto { l0, runs, l0_bytes, total_bytes },
        segments: vec![],
        checkpoints: vec![],
        external_dbs: vec![],
    }
}

fn checkpoint(id: &str, manifest_id: u64) -> CheckpointDto {
    CheckpointDto {
        id: id.to_string(),
        name: None,
        manifest_id,
        create_time: UtcTime { secs: 0, nanos: 0 },
        expire_time: None,
    }
}

#[test]
fn identical_manifests_have_empty_diff() {
    let m = manifest(1, vec![sst("a", 10)], vec![run(1, vec![sst("b", 20)])]);
    let mut m2 = m.clone();
    m2.id = 2;
    let d = diff_manifests(&m, &m2);
    assert!(d.l0_added.is_empty());
    assert!(d.l0_removed.is_empty());
    assert!(d.runs_added.is_empty());
    assert!(d.runs_removed.is_empty());
    assert!(d.runs_changed.is_empty());
    assert!(d.scalars.is_empty());
}

#[test]
fn compaction_shows_l0_removed_and_run_added() {
    let a = manifest(1, vec![sst("a", 10), sst("b", 10)], vec![]);
    let b = manifest(2, vec![], vec![run(1, vec![sst("c", 20)])]);
    let d = diff_manifests(&a, &b);
    assert_eq!(d.l0_removed.len(), 2);
    assert!(d.l0_added.is_empty());
    assert_eq!(d.runs_added.len(), 1);
    assert_eq!(d.runs_added[0].id, 1);
    assert_eq!(d.runs_added[0].sst_count, 1);
}

#[test]
fn run_membership_change_is_reported() {
    let a = manifest(1, vec![], vec![run(1, vec![sst("a", 10), sst("b", 10)])]);
    let b = manifest(2, vec![], vec![run(1, vec![sst("a", 10), sst("c", 30)])]);
    let d = diff_manifests(&a, &b);
    assert_eq!(d.runs_changed.len(), 1);
    assert_eq!(d.runs_changed[0].id, 1);
    assert_eq!(d.runs_changed[0].ssts_added[0].view_id, "c");
    assert_eq!(d.runs_changed[0].ssts_removed[0].view_id, "b");
}

#[test]
fn checkpoint_add_remove_change() {
    let mut a = manifest(1, vec![], vec![]);
    let mut b = manifest(2, vec![], vec![]);
    a.checkpoints = vec![checkpoint("gone", 1), checkpoint("moved", 1)];
    b.checkpoints = vec![checkpoint("moved", 2), checkpoint("new", 2)];
    let d = diff_manifests(&a, &b);
    assert_eq!(d.checkpoints_added.len(), 1);
    assert_eq!(d.checkpoints_added[0].id, "new");
    assert_eq!(d.checkpoints_removed.len(), 1);
    assert_eq!(d.checkpoints_removed[0].id, "gone");
    assert_eq!(d.checkpoints_changed.len(), 1);
    assert_eq!(d.checkpoints_changed[0].manifest_id, (1, 2));
}

#[test]
fn scalar_changes_are_reported() {
    let a = manifest(1, vec![], vec![]);
    let mut b = manifest(2, vec![], vec![]);
    b.next_wal_sst_id = 42;
    b.writer_epoch = 2;
    let d = diff_manifests(&a, &b);
    let fields: Vec<&str> = d.scalars.iter().map(|s| s.field.as_str()).collect();
    assert!(fields.contains(&"next_wal_sst_id"));
    assert!(fields.contains(&"writer_epoch"));
    assert_eq!(fields.len(), 2);
}

#[test]
fn swapping_sides_swaps_added_and_removed() {
    let a = manifest(1, vec![sst("a", 10), sst("b", 10)], vec![run(3, vec![sst("x", 1)])]);
    let b = manifest(2, vec![sst("b", 10), sst("c", 10)], vec![run(4, vec![sst("y", 1)])]);
    let ab = diff_manifests(&a, &b);
    let ba = diff_manifests(&b, &a);
    assert_eq!(ab.l0_added, ba.l0_removed);
    assert_eq!(ab.l0_removed, ba.l0_added);
    assert_eq!(ab.runs_added, ba.runs_removed);
    assert_eq!(ab.runs_removed, ba.runs_added);
}

#[test]
fn summaries_aggregate_sst_lists() {
    let a = manifest(1, vec![sst("a", 10), sst("b", 5)], vec![run(1, vec![sst("x", 1), sst("y", 2)])]);
    let b = manifest(2, vec![sst("c", 7)], vec![run(1, vec![sst("x", 1), sst("z", 4)])]);
    let d = diff_manifests(&a, &b);
    let s = summarize_diff(&d);
    assert_eq!((s.l0_added.count, s.l0_added.bytes), (1, 7));
    assert_eq!((s.l0_removed.count, s.l0_removed.bytes), (2, 15));
    assert_eq!(s.runs_changed.len(), 1);
    assert_eq!(s.runs_changed[0].id, 1);
    assert_eq!((s.runs_changed[0].added.count, s.runs_changed[0].added.bytes), (1, 4));
    assert_eq!((s.runs_changed[0].removed.count, s.runs_changed[0].removed.bytes), (1, 2));
    assert_eq!(s.scalars.len(), d.scalars.len());
}

#[test]
fn swapping_sides_swaps_run_and_checkpoint_changes() {
    let mut a = manifest(1, vec![], vec![run(1, vec![sst("a", 10), sst("b", 10)]), run(2, vec![sst("p", 1)])]);
    let mut b = manifest(2, vec![], vec![run(1, vec![sst("a", 10), sst("c", 30)]), run(2, vec![sst("q", 1)])]);
    a.checkpoints = vec![checkpoint("k1", 1), checkpoint("k2", 1)];
    b.checkpoints = vec![checkpoint("k2", 2), checkpoint("k1", 3)];
    let ab = diff_manifests(&a, &b);
    let ba = diff_manifests(&b, &a);
    assert_eq!(ab.runs_changed.len(), 2);
    assert_eq!(ba.runs_changed.len(), 2);
    for (x, y) in ab.runs_changed.iter().zip(ba.runs_changed.iter()) {
        assert_eq!(x.id, y.id);
        assert_eq!(x.ssts_added, y.ssts_removed);
        assert_eq!(x.ssts_removed, y.ssts_added);
    }
    assert_eq!(ab.checkpoints_changed.len(), 2);
    for (x, y) in ab.checkpoints_changed.iter().zip(ba.checkpoints_changed.iter()) {
        assert_eq!(x.id, y.id);
        assert_eq!(x.manifest_id, (y.manifest_id.1, y.manifest_id.0));
        assert_eq!(x.expire_time, (y.expire_time.1, y.expire_time.0));
    }
    assert_eq!(ab.checkpoints_changed[0].id, "k1");
    assert_eq!(ab.checkpoints_changed[0].manifest_id, (1, 3));
}

#[test]
fn size_sum_checks_match_what_the_library_requires() {
    let a = manifest(1, vec![sst("a", 10)], vec![]);
    let mut b = manifest(2, vec![], vec![]);
    b.tree.l0 = vec![sst("b", u64::MAX), sst("c", 1)];
    assert!(check_sums(&diff_manifests(&a, &a)));
    assert!(!check_sums(&diff_manifests(&a, &b)));
    assert!(check_views_bytes(&vec![sst("x", u64::MAX)]));
    assert!(!check_views_bytes(&vec![sst("x", u64::MAX), sst("y", 1)]));
    assert!(check_tree_bytes(&vec![sst("x", 5)], &vec![run(1, vec![sst("y", 7)])]));
    assert!(!check_tree_bytes(&vec![sst("x", u64::MAX)], &vec![run(1, vec![sst("y", 1)])]));
}
