use outcrop::dto::{KeyDto, ManifestDto, SegmentDto, SortedRunDto, SstIdDto, SstViewDto, TreeDto};
use outcrop::summary::{slice_level, summarize, summarize_tree, tree_sst_count, BUCKETS};

fn key(s: &str) -> KeyDto {
    KeyDto { hex: hex::encode(s), utf8: Some(s.to_string()) }
}

fn sst(first: &str, last: &str, bytes: u64) -> SstViewDto {
    SstViewDto {
        view_id: format!("{first}-{last}"),
        sst_id: SstIdDto::Compacted { ulid: "01ARZ3NDEKTSV4RRFFQ69G5FAV".to_string() },
        first_key: Some(key(first)),
        last_key: Some(key(last)),
        est_bytes: bytes,
        compression: None,
        visible_range: None,
    }
}

fn tree(l0: Vec<SstViewDto>, runs: Vec<SortedRunDto>) -> TreeDto {
    let l0_bytes = l0.iter().map(|s| s.est_bytes).sum::<u64>();
    let total_bytes = l0_bytes + runs.iter().map(|r| r.est_bytes).sum::<u64>();
    TreeDto { l0, runs, l0_bytes, total_bytes }
}

fn run(id: u32, ssts: Vec<SstViewDto>) -> SortedRunDto {
    let est_bytes = ssts.iter().map(|s| s.est_bytes).sum();
    SortedRunDto { id, est_bytes, ssts }
}

fn manifest(tree: TreeDto, segments: Vec<SegmentDto>) -> ManifestDto {
    ManifestDto {
        id: 7,
        initialized: true,
        writer_epoch: 1,
        compactor_epoch: 1,
        next_wal_sst_id: 1,
        replay_after_wal_id: 0,
        last_l0_seq: 0,
        last_l0_clock_tick: 0,
        recent_snapshot_min_seq: 0,
        last_compacted_l0_sst_view_id: None,
        wal_object_store_uri: None,
        segment_extractor_name: None,
        tree,
        segments,
        checkpoints: vec![],
        external_dbs: vec![],
    }
}

#[test]
fn overlapping_l0_depth_adds_up() {
    let t = tree(vec![sst("a", "z", 10), sst("a", "z", 10), sst("a", "m", 10)], vec![]);
    let (levels, edges) = summarize_tree(&t, 10, 64);
    assert_eq!(levels.len(), 1);
    let cov = &levels[0].coverage;
    // Both full-span SSTs cover every bucket; "a".."m" adds depth at the
    // low end only.
    assert_eq!(cov[0], 3);
    assert_eq!(cov[9], 2);
    assert!(cov.iter().all(|&d| d >= 2));
    assert_eq!(edges.len(), 11);
    assert_eq!(edges[0].utf8.as_deref(), Some("a"));
    assert_eq!(edges[10].utf8.as_deref(), Some("z"));
}

#[test]
fn disjoint_sorted_run_depth_is_at_most_one() {
    let t = tree(vec![], vec![run(0, vec![sst("a", "f", 5), sst("g", "m", 5), sst("n", "z", 5)])]);
    let (levels, _) = summarize_tree(&t, 12, 64);
    let sr = &levels[1];
    assert_eq!(sr.label, "SR 0");
    assert_eq!(sr.run_id, Some(0));
    assert!(sr.coverage.iter().all(|&d| d <= 1));
    assert!(sr.coverage.iter().any(|&d| d == 1));
}

#[test]
fn detail_cap_strips_per_sst_lists() {
    let big: Vec<SstViewDto> =
        (0..5).map(|i| sst(&format!("k{i:02}a"), &format!("k{i:02}z"), 1)).collect();
    let t = tree(vec![sst("a", "b", 1)], vec![run(0, big)]);
    let (levels, _) = summarize_tree(&t, 8, 2);
    assert!(levels[0].ssts.is_some(), "small L0 keeps detail");
    assert!(levels[1].ssts.is_none(), "run over cap drops detail");
    assert_eq!(levels[1].sst_count, 5);
}

#[test]
fn empty_tree_summarizes_to_zeroes() {
    let t = tree(vec![], vec![]);
    let (levels, edges) = summarize_tree(&t, 8, 64);
    assert_eq!(levels.len(), 1);
    assert_eq!(levels[0].sst_count, 0);
    assert!(levels[0].coverage.iter().all(|&d| d == 0));
    assert_eq!(levels[0].ssts.as_deref(), Some(&[][..]));
    assert!(edges.is_empty());
}

#[test]
fn boundary_sampling_keeps_extremes() {
    // More distinct boundaries than the sample size forces the sample path.
    let ssts: Vec<SstViewDto> = (0..5000)
        .map(|i| sst(&format!("k{:06}", i * 2), &format!("k{:06}", i * 2 + 1), 1))
        .collect();
    let t = tree(vec![], vec![run(0, ssts)]);
    let (levels, edges) = summarize_tree(&t, BUCKETS, 64);
    assert_eq!(edges.len(), BUCKETS + 1);
    assert_eq!(edges[0].utf8.as_deref(), Some("k000000"));
    assert_eq!(edges[BUCKETS].utf8.as_deref(), Some("k009999"));
    // A dense disjoint run covers the whole space one deep (sampling can
    // merge an end and the next start into one rank, reading as 2).
    assert!(levels[1].coverage.iter().all(|&d| (1..=2).contains(&d)));
}

#[test]
fn summarize_picks_root_by_default() {
    let m = manifest(tree(vec![sst("a", "z", 5)], vec![]), vec![]);
    let s = summarize(&m, None).unwrap();
    assert_eq!(s.segment, None);
    assert_eq!(s.root_sst_count, 1);
    assert_eq!(s.manifest_id, 7);
    assert_eq!(s.buckets, BUCKETS);
}

#[test]
fn summarize_auto_falls_to_first_segment_when_root_empty() {
    let seg = SegmentDto {
        prefix: key("t00/"),
        tree: tree(vec![sst("t00/a", "t00/z", 9)], vec![]),
    };
    let m = manifest(tree(vec![], vec![]), vec![seg]);
    let s = summarize(&m, None).unwrap();
    assert_eq!(s.segment, Some(0));
    assert_eq!(s.total_bytes, 9);
    assert_eq!(s.segments.len(), 1);
    assert_eq!(s.segments[0].sst_count, 1);
}

#[test]
fn summarize_rejects_out_of_range_segment() {
    let m = manifest(tree(vec![], vec![]), vec![]);
    assert!(summarize(&m, Some(0)).is_none());
}

#[test]
fn tree_sst_count_adds_l0_and_runs() {
    let t = tree(
        vec![sst("a", "b", 1), sst("c", "d", 1)],
        vec![run(0, vec![sst("e", "f", 1)]), run(1, vec![sst("g", "h", 1), sst("i", "j", 1)])],
    );
    assert_eq!(tree_sst_count(&t), 5);
}

#[test]
fn level_slice_keeps_ssts_meeting_the_range_in_level_order() {
    let t = tree(
        vec![sst("m", "p", 1), sst("a", "c", 1)],
        vec![run(4, vec![sst("a", "c", 1), sst("d", "f", 1), sst("g", "k", 1), sst("l", "z", 1)])],
    );
    // L0: only "m".."p" reaches "n".
    let (total, ssts) = slice_level(&t, None, &hex::encode("n"), None, 64).unwrap();
    assert_eq!(total, 1);
    assert_eq!(ssts[0].view_id, "m-p");
    // Run 4 between "e" and "h" inclusive: "d".."f" and "g".."k".
    let (total, ssts) = slice_level(&t, Some(4), &hex::encode("e"), Some(&hex::encode("h")), 64).unwrap();
    assert_eq!(total, 2);
    let ids: Vec<&str> = ssts.iter().map(|s| s.view_id.as_str()).collect();
    assert_eq!(ids, vec!["d-f", "g-k"]);
    // Bounds are inclusive on both ends.
    let (total, _) = slice_level(&t, Some(4), &hex::encode("f"), Some(&hex::encode("g")), 64).unwrap();
    assert_eq!(total, 2);
    // The limit caps the list but not the count.
    let (total, ssts) = slice_level(&t, Some(4), "", None, 3).unwrap();
    assert_eq!(total, 4);
    assert_eq!(ssts.len(), 3);
    assert_eq!(ssts[2].view_id, "g-k");
    // An unknown run is refused.
    assert!(slice_level(&t, Some(9), "", None, 64).is_none());
}
