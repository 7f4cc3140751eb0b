use outcrop::dto::{CheckpointDto, UtcTime};
use outcrop::listing::CompactedEntry;
use outcrop::search::{
    checkpoint_hits, compaction_hits, manifest_places, manifests_to_scan, search_query, sst_object,
    ulid_param, CompactionsVersion, JobRefs, ManifestScan, ManifestTrees, RunRefs, SegmentRefs, TreeRefs, ViewRef,
};

fn ulid_string(v: u128) -> String {
    ulid::Ulid(v).to_string()
}

const U: u128 = (5u128 << 80) | 77;

fn view(view_id: u128, sst: Option<u128>) -> ViewRef {
    ViewRef { view_id, sst }
}

#[test]
fn queries_must_be_a_ulid_or_a_uuid() {
    let text = ulid_string(U);
    let q = search_query(&format!("  {text} ")).unwrap();
    assert_eq!(q.query, text);
    assert_eq!(q.ulid, Some(U));
    assert_eq!(q.uuid, None);
    let q = search_query("550e8400-e29b-41d4-a716-446655440000").unwrap();
    assert_eq!(q.uuid, Some(0x550e8400_e29b_41d4_a716_446655440000));
    assert_eq!(q.ulid, None);
    assert_eq!(
        search_query(" nope ").err(),
        Some("'nope' is not a ULID (or checkpoint UUID)".to_string())
    );
}

#[test]
fn places_name_tree_level_and_role() {
    let m = ManifestTrees {
        root: TreeRefs {
            l0: vec![view(U, Some(1)), view(2, Some(U))],
            runs: vec![RunRefs { id: 3, views: vec![view(9, Some(U))] }],
            last_compacted_l0: None,
        },
        segments: vec![SegmentRefs {
            prefix_text: "t00/".to_string(),
            tree: TreeRefs { l0: vec![], runs: vec![RunRefs { id: 12, views: vec![view(U, Some(U))] }], last_compacted_l0: None },
        }],
    };
    assert_eq!(
        manifest_places(&m, U),
        vec![
            "view id in L0".to_string(),
            "SST in L0".to_string(),
            "SST in SR 3".to_string(),
            "SST in segment t00/ SR 12".to_string(),
            "view id in segment t00/ SR 12".to_string(),
        ]
    );
    assert!(manifest_places(&m, 4242).is_empty());
}

#[test]
fn scan_reads_newest_eighty_and_stops_at_twenty_hits() {
    let ids: Vec<u64> = (1..=100).collect();
    let order = manifests_to_scan(&ids);
    assert_eq!(order.len(), 80);
    assert_eq!((order[0], order[79]), (100, 21));
    let mut scan = ManifestScan::new();
    assert!(scan.record(1, None));
    assert!(scan.record(2, Some(vec![])));
    for i in 0..19 {
        assert!(scan.record(10 + i, Some(vec!["SST in L0".to_string()])));
    }
    assert!(!scan.record(99, Some(vec!["SST in L0".to_string()])));
    assert_eq!(scan.scanned, 22);
    assert_eq!(scan.hits.len(), 20);
}

#[test]
fn compaction_hits_are_one_per_job_and_role_newest_first() {
    let job = JobRefs { id: U, outputs: vec![None, Some(U)] };
    let other = JobRefs { id: 8, outputs: vec![Some(U)] };
    let versions = vec![
        CompactionsVersion { version: 1, jobs: vec![job.clone(), other.clone()] },
        CompactionsVersion { version: 2, jobs: vec![job.clone()] },
    ];
    let hits = compaction_hits(&versions, U);
    let view: Vec<(u64, String, &str)> = hits.iter().map(|h| (h.version, h.job_id.clone(), h.role)).collect();
    assert_eq!(
        view,
        vec![
            (2, ulid_string(U), "job"),
            (2, ulid_string(U), "output"),
            (1, ulid_string(8), "output"),
        ]
    );
}

#[test]
fn checkpoint_hits_match_the_uuid_text() {
    let id = "550e8400-e29b-41d4-a716-446655440000";
    let cps = vec![
        CheckpointDto { id: id.to_string(), name: Some("nightly".to_string()), manifest_id: 4, create_time: UtcTime { secs: 0, nanos: 0 }, expire_time: None },
        CheckpointDto { id: "other".to_string(), name: None, manifest_id: 5, create_time: UtcTime { secs: 0, nanos: 0 }, expire_time: None },
    ];
    let hits = checkpoint_hits(&cps, 0x550e8400_e29b_41d4_a716_446655440000);
    assert_eq!(hits.len(), 1);
    assert_eq!(hits[0].name.as_deref(), Some("nightly"));
    assert_eq!(hits[0].manifest_id, 4);
}

#[test]
fn sst_object_locates_the_first_listed_entry() {
    let at = UtcTime { secs: 5, nanos: 0 };
    let es = vec![
        CompactedEntry { ulid: 1, size_bytes: 3, last_modified: at },
        CompactedEntry { ulid: U, size_bytes: 42, last_modified: at },
    ];
    let o = sst_object("dbs/a", &es, U).unwrap();
    assert_eq!(o.location, format!("dbs/a/compacted/{}.sst", ulid_string(U)));
    assert_eq!(o.size_bytes, 42);
    assert!(sst_object("dbs/a", &es, 2).is_none());
}

#[test]
fn ulid_params_parse_or_name_what_was_refused() {
    let u = ulid_param("01ARZ3NDEKTSV4RRFFQ69G5FAV", "SST").unwrap();
    assert_eq!(ulid_string(u), "01ARZ3NDEKTSV4RRFFQ69G5FAV");
    assert_eq!(ulid_param("nope", "SST"), Err("invalid SST ULID 'nope'".to_string()));
    assert_eq!(
        ulid_param("", "compaction"),
        Err("invalid compaction ULID ''".to_string())
    );
}

#[test]
fn uuid_queries_take_every_form_and_either_case() {
    let v: u128 = 0x67e55044_10b1_426f_9247_bb680e5fe0c8;
    for q in [
        "67e5504410b1426f9247bb680e5fe0c8",
        "67E55044-10B1-426F-9247-BB680E5FE0C8",
        "{67e55044-10b1-426f-9247-bb680e5fe0c8}",
        "URN:uuid:67e55044-10b1-426f-9247-bb680e5fe0c8",
    ] {
        assert_eq!(search_query(q).unwrap().uuid, Some(v), "{q}");
    }
    assert!(search_query("67e55044-10b1-426f-9247-bb680e5fe0cg").is_err());
    assert!(search_query("(67e55044-10b1-426f-9247-bb680e5fe0c8)").is_err());
    // Lowercase ULID text reads the same as uppercase.
    let text = ulid_string(U).to_lowercase();
    assert_eq!(search_query(&text).unwrap().ulid, Some(U));
}
