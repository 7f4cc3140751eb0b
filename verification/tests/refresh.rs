use outcrop::dto::{CheckpointDto, UtcTime};
use outcrop::refresh::{
    compacted_listing, latest_refs_of, manifest_listing, offset_name, refresh_step, sweep_due,
    sweep_interval, wal_listing, ListedObject, RefreshStep, FULL_SWEEP_FACTOR, FULL_SWEEP_FLOOR_NANOS,
};
use outcrop::search::{ManifestTrees, TreeRefs, ViewRef};

fn ulid_string(v: u128) -> String {
    ulid::Ulid(v).to_string()
}

fn at(secs: i64) -> UtcTime {
    UtcTime { secs, nanos: 0 }
}

fn obj(name: &str, size: u64) -> ListedObject {
    ListedObject { name: Some(name.to_string()), size_bytes: size, last_modified: at(size as i64) }
}

#[test]
fn listings_keep_numbered_objects_in_id_order() {
    let objs = vec![
        obj("00000000000000000003.manifest", 3),
        obj("junk.txt", 9),
        obj("00000000000000000001.manifest", 1),
        ListedObject { name: None, size_bytes: 0, last_modified: at(0) },
    ];
    let m = manifest_listing(&objs);
    assert_eq!(m.iter().map(|e| (e.id, e.size_bytes)).collect::<Vec<_>>(), vec![(1, 1), (3, 3)]);
    let w = wal_listing(&vec![obj("00000000000000000010.sst", 5), obj("00000000000000000002.sst", 4), obj("x.manifest", 1)]);
    assert_eq!(w.iter().map(|e| e.id).collect::<Vec<_>>(), vec![2, 10]);
    let u1 = (9u128 << 80) | 1;
    let u2 = (3u128 << 80) | 2;
    let c = compacted_listing(&vec![obj(&format!("{}.sst", ulid_string(u1)), 7), obj(&format!("{}.sst", ulid_string(u2)), 8), obj("bad.sst", 1)]);
    assert_eq!(c.iter().map(|e| e.ulid).collect::<Vec<_>>(), vec![u2, u1]);
}

#[test]
fn refresh_steps() {
    assert_eq!(refresh_step(None, 5, Some(1)), RefreshStep::FullList);
    assert_eq!(refresh_step(Some(5), 5, Some(1)), RefreshStep::ListAfter(1));
    assert_eq!(refresh_step(Some(5), 5, None), RefreshStep::FullList);
    assert_eq!(refresh_step(Some(4), 5, Some(1)), RefreshStep::Serve);
}

#[test]
fn sweeps_run_on_the_adaptive_schedule() {
    assert_eq!(sweep_interval(FULL_SWEEP_FLOOR_NANOS, 1_000_000_000, FULL_SWEEP_FACTOR), FULL_SWEEP_FLOOR_NANOS);
    assert_eq!(sweep_interval(FULL_SWEEP_FLOOR_NANOS, 10_000_000_000, FULL_SWEEP_FACTOR), 200_000_000_000);
    assert!(sweep_due(false, Some(61), 60));
    assert!(!sweep_due(true, Some(61), 60));
    assert!(!sweep_due(false, Some(59), 60));
    assert!(!sweep_due(false, None, 60));
}

#[test]
fn offsets_name_the_last_sst() {
    let u = (1u128 << 80) | 5;
    assert_eq!(offset_name(u), format!("{}.sst", ulid_string(u)));
}

#[test]
fn latest_refs_pin_only_unexpired_checkpoints() {
    let m = ManifestTrees {
        root: TreeRefs { l0: vec![ViewRef { view_id: 1, sst: Some(44) }], runs: vec![], last_compacted_l0: None },
        segments: vec![],
    };
    let cps = vec![
        CheckpointDto { id: "a".to_string(), name: None, manifest_id: 3, create_time: at(0), expire_time: Some(at(5)) },
        CheckpointDto { id: "b".to_string(), name: None, manifest_id: 4, create_time: at(0), expire_time: None },
    ];
    let r = latest_refs_of(&m, 9, 2, &cps, &at(10));
    assert_eq!(r.manifest_id, 9);
    assert!(r.compacted.contains(&44));
    assert_eq!(r.replay_after_wal_id, 2);
    assert!(r.checkpoint_manifests.contains(&4));
    assert!(!r.checkpoint_manifests.contains(&3));
}
