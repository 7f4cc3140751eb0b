use outcrop::dto::UtcTime;
use outcrop::listing::{
    compacted_ulid_from_name, graft_recent, manifest_id_from_name, merge_additions, wal_id_from_name,
    CompactedEntry,
};

fn ulid_string(v: u128) -> String {
    ulid::Ulid(v).to_string()
}

fn ulid_at(ms: u64, i: u128) -> u128 {
    ((ms as u128) << 80) | i
}

fn at(secs: i64) -> UtcTime {
    UtcTime { secs, nanos: 0 }
}

#[test]
fn graft_recent_keeps_only_young_missing_entries() {
    let t0 = at(1_000);
    let entry = |ulid: u128, t: UtcTime| CompactedEntry { ulid, size_bytes: 1, last_modified: t };
    let (u1, u2, u3) = (ulid_at(1, 1), ulid_at(2, 2), ulid_at(3, 3));
    let snapshot = vec![
        entry(u1, at(1_000 - 30)), // old, deleted
        entry(u2, at(1_000 - 20)), // still listed
        entry(u3, at(1_000 + 1)),  // young, raced
    ];
    let swept = vec![entry(u2, at(1_000 - 20))];
    let merged = graft_recent(swept, &snapshot, t0);
    assert_eq!(merged.iter().map(|e| e.ulid).collect::<Vec<_>>(), vec![u2, u3]);
}

#[test]
fn object_names_parse_to_ids() {
    assert_eq!(manifest_id_from_name("00000000000000000007.manifest"), Some(7));
    assert_eq!(manifest_id_from_name("readme.txt"), None);
    assert_eq!(manifest_id_from_name(".manifest"), None);
    assert_eq!(wal_id_from_name("00000000000000000012.sst"), Some(12));
    assert_eq!(wal_id_from_name("x.sst"), None);
    let text = ulid_string(ulid_at(1, 7));
    let name = format!("{text}.sst");
    assert_eq!(compacted_ulid_from_name(&name), Some(ulid_at(1, 7)));
    assert_eq!(compacted_ulid_from_name("not-a-ulid.sst"), None);
}

#[test]
fn compacted_listing_grows_between_sweeps_and_a_sweep_settles_it() {
    let entry = |ulid: u128, t: UtcTime| CompactedEntry { ulid, size_bytes: 1, last_modified: t };
    let (u1, u2, u3) = (ulid_at(1000, 1), ulid_at(2000, 2), ulid_at(3000, 3));
    let first = vec![entry(u1, at(1)), entry(u2, at(2))];
    // u1 was deleted and u3 added: an incremental listing only sees u3.
    let merged = merge_additions(&first, &vec![entry(u3, at(3))]);
    assert_eq!(merged.iter().map(|e| e.ulid).collect::<Vec<_>>(), vec![u1, u2, u3]);
    // A sweep begun at time 3 lists u2 alone; u3 was written since.
    let settled = graft_recent(vec![entry(u2, at(2))], &merged, at(3));
    assert_eq!(settled.iter().map(|e| e.ulid).collect::<Vec<_>>(), vec![u2, u3]);
}
