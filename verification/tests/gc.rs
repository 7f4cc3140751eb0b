use outcrop::dto::{CheckpointDto, UtcTime};
use outcrop::gc::{
    checkpoint_pins, gc_cutoff_ms, manifest_refs_of, newest_l0_ms, pinned_refs, time_of_ms, ulid_millis,
};
use outcrop::garbage::ManifestRefs;
use outcrop::search::{ManifestTrees, RunRefs, SegmentRefs, TreeRefs, ViewRef};

fn ulid_string(v: u128) -> String {
    ulid::Ulid(v).to_string()
}

fn at(secs: i64) -> UtcTime {
    UtcTime { secs, nanos: 0 }
}

fn cp(manifest_id: u64, expire: Option<UtcTime>) -> CheckpointDto {
    CheckpointDto { id: format!("cp{manifest_id}"), name: None, manifest_id, create_time: at(0), expire_time: expire }
}

fn ulid_at(ms: u64, r: u128) -> u128 {
    ((ms as u128) << 80) | r
}

fn tree(l0: Vec<ViewRef>, runs: Vec<RunRefs>, last: Option<u128>) -> TreeRefs {
    TreeRefs { l0, runs, last_compacted_l0: last }
}

#[test]
fn pins_split_live_and_expired_and_skip_the_latest() {
    let cps = vec![
        cp(7, Some(at(5))),  // expired at 10
        cp(3, Some(at(10))), // expires exactly now: expired
        cp(9, None),
        cp(4, Some(at(11))),
        cp(9, None),
        cp(12, None), // the latest itself
    ];
    let p = checkpoint_pins(&cps, 12, &at(10));
    assert_eq!((p.live_count, p.expired_count), (4, 2));
    assert_eq!(p.pinned_ids, vec![4, 9]);
}

#[test]
fn refs_collect_compacted_ssts_of_every_tree() {
    let m = ManifestTrees {
        root: tree(vec![ViewRef { view_id: 1, sst: Some(10) }, ViewRef { view_id: 2, sst: None }], vec![
            RunRefs { id: 0, views: vec![ViewRef { view_id: 3, sst: Some(11) }] },
        ], None),
        segments: vec![SegmentRefs {
            prefix_text: "s/".to_string(),
            tree: tree(vec![ViewRef { view_id: 4, sst: Some(12) }], vec![], None),
        }],
    };
    let r = manifest_refs_of(&m, 5, 6, 9);
    let mut got: Vec<u128> = r.compacted.iter().copied().collect();
    got.sort();
    assert_eq!(got, vec![10, 11, 12]);
    assert_eq!((r.id, r.replay_after_wal_id, r.next_wal_sst_id), (5, 6, 9));
}

#[test]
fn pinned_reads_keep_found_and_count_gone() {
    let refs = |id| ManifestRefs { id, compacted: Default::default(), replay_after_wal_id: 0, next_wal_sst_id: 1 };
    let (found, gone) = pinned_refs(vec![Some(refs(1)), None, Some(refs(3)), None]);
    assert_eq!(found.iter().map(|r| r.id).collect::<Vec<_>>(), vec![1, 3]);
    assert_eq!(gone, 2);
}

#[test]
fn newest_l0_falls_back_to_last_compacted_view() {
    let m = ManifestTrees {
        root: tree(vec![ViewRef { view_id: 1, sst: Some(ulid_at(500, 1)) }, ViewRef { view_id: 2, sst: None }], vec![], None),
        segments: vec![SegmentRefs { prefix_text: "a".to_string(), tree: tree(vec![], vec![], Some(ulid_at(900, 2))) }],
    };
    assert_eq!(newest_l0_ms(&m), 900);
    let empty = ManifestTrees { root: tree(vec![], vec![], None), segments: vec![] };
    assert_eq!(newest_l0_ms(&empty), 0);
    let wal_only = ManifestTrees { root: tree(vec![ViewRef { view_id: 1, sst: None }], vec![], Some(ulid_at(7, 0))), segments: vec![] };
    assert_eq!(newest_l0_ms(&wal_only), 0);
}

#[test]
fn cutoff_is_the_earliest_job_capped_by_newest_l0() {
    let m = ManifestTrees { root: tree(vec![ViewRef { view_id: 1, sst: Some(ulid_at(800, 1)) }], vec![], None), segments: vec![] };
    let jobs = vec![ulid_string(ulid_at(300, 5)), "junk".to_string(), ulid_string(ulid_at(200, 9))];
    assert_eq!(gc_cutoff_ms(Some(&jobs), &m), 200);
    assert_eq!(gc_cutoff_ms(Some(&vec![ulid_string(ulid_at(950, 1))]), &m), 800);
    assert_eq!(gc_cutoff_ms(Some(&vec![]), &m), 0);
    assert_eq!(gc_cutoff_ms(None, &m), 0);
}

#[test]
fn ulid_times() {
    assert_eq!(ulid_millis(ulid_at(1234, u128::MAX >> 48)), 1234);
    assert_eq!(time_of_ms(1_500), UtcTime { secs: 1, nanos: 500_000_000 });
}
