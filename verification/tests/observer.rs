use std::collections::HashSet;

use outcrop::dto::{GcEventDto, UtcTime};
use outcrop::listing::{CompactedEntry, ManifestEntry, WalEntry};
use outcrop::observer::{GcObserver, LatestRefs, GC_EVENT_CAP};

fn at(secs: i64) -> UtcTime {
    UtcTime { secs, nanos: 0 }
}

fn compacted(ulid: u128, size: u64, written: i64) -> CompactedEntry {
    CompactedEntry { ulid, size_bytes: size, last_modified: at(written) }
}

fn event(n: u64) -> GcEventDto {
    GcEventDto {
        kind: "wal",
        id: format!("#{n}"),
        size_bytes: n,
        written_at: at(0),
        last_seen_at: at(0),
        missing_at: at(1),
        referenced: None,
    }
}

#[test]
fn first_listing_records_nothing_and_deletions_become_events() {
    let u1: u128 = (1000u128 << 80) | 1;
    let u2: u128 = (2000u128 << 80) | 2;
    let mut obs = GcObserver::new(at(5));
    assert_eq!(obs.started_at(), at(5));
    obs.observe_compacted(&vec![compacted(u1, 10, 1), compacted(u2, 20, 2)], at(10), None);
    assert!(obs.events().is_empty());

    let refs = LatestRefs {
        manifest_id: 7,
        compacted: HashSet::from([u2]),
        replay_after_wal_id: 3,
        checkpoint_manifests: HashSet::new(),
    };
    obs.observe_compacted(&vec![compacted(u2, 20, 2)], at(20), Some(&refs));
    let events = obs.events();
    assert_eq!(events.len(), 1);
    let e = &events[0];
    assert_eq!(e.kind, "compacted");
    assert_eq!(e.id, ulid::Ulid(u1).to_string());
    assert_eq!(e.size_bytes, 10);
    assert_eq!(e.written_at, at(1));
    assert_eq!(e.last_seen_at, at(10));
    assert_eq!(e.missing_at, at(20));
    assert_eq!(e.referenced, Some(false));
}

#[test]
fn wal_and_manifest_deletions_are_named_by_number() {
    let mut obs = GcObserver::new(at(0));
    let wal = |id: u64| WalEntry { id, size_bytes: 1, last_modified: at(0) };
    let man = |id: u64| ManifestEntry { id, size_bytes: 2, last_modified: at(0) };
    obs.observe_wal(&vec![wal(4), wal(5)], at(1), None);
    obs.observe_manifests(&vec![man(8), man(9)], at(1), None);
    let refs = LatestRefs {
        manifest_id: 9,
        compacted: HashSet::new(),
        replay_after_wal_id: 3,
        checkpoint_manifests: HashSet::from([8]),
    };
    obs.observe_wal(&vec![wal(5)], at(2), Some(&refs));
    obs.observe_manifests(&vec![man(9)], at(2), Some(&refs));
    let events = obs.events();
    assert_eq!(events.len(), 2);
    // Newest first.
    assert_eq!((events[0].kind, events[0].id.as_str(), events[0].referenced), ("manifest", "#8", Some(true)));
    assert_eq!((events[1].kind, events[1].id.as_str(), events[1].referenced), ("wal", "#4", Some(true)));
}

#[test]
fn event_log_keeps_the_newest_up_to_its_cap() {
    let mut obs = GcObserver::new(at(0));
    for n in 0..(GC_EVENT_CAP as u64 + 5) {
        obs.push(event(n));
    }
    let events = obs.events();
    assert_eq!(events.len(), GC_EVENT_CAP);
    assert_eq!(events[0].id, format!("#{}", GC_EVENT_CAP + 4));
    assert_eq!(events[GC_EVENT_CAP - 1].id, "#5");
}

#[test]
fn noted_additions_surface_when_deleted_before_a_sweep() {
    let u1: u128 = (1000u128 << 80) | 1;
    let u2: u128 = (3000u128 << 80) | 2;
    let mut obs = GcObserver::new(at(0));
    obs.observe_compacted(&vec![compacted(u1, 1, 1)], at(10), None);
    obs.note_compacted_additions(&vec![compacted(u2, 5, 15)]);
    assert!(obs.events().is_empty());
    obs.observe_compacted(&vec![compacted(u1, 1, 1)], at(30), None);
    let events = obs.events();
    assert_eq!(events.len(), 1);
    assert_eq!(events[0].id, ulid::Ulid(u2).to_string());
    // Noted after the previous listing: last seen at its own write.
    assert_eq!(events[0].last_seen_at, at(15));
}
