//! Keeping a database's listings current: entries read from raw
//! object-store listings, the references of the latest cached manifest,
//! and when the incrementally maintained listing of compacted SSTs is
//! refreshed or swept in full.

use std::collections::HashSet;
use vstd::prelude::*;
use crate::dto::{CheckpointDto, UtcTime};
use crate::gc::{all_views, compacted_of, manifest_refs_of};
use crate::listing::{
    compacted_ulid_from_name, manifest_id_from_name, sort_by_num, stable_sorted, strip_suffix, u64_of_text,
    ulid_parse, ulid_string, ulid_text, wal_id_from_name, CompactedEntry, ManifestEntry, WalEntry,
};
use crate::observer::{pinned_manifest_ids, pins_at, LatestRefs};
use crate::search::ManifestTrees;
use crate::text::{push_all, push_str, string_chars, string_from};

verus! {

/// One object of a raw listing: its file name (none for an empty path),
/// size and write time.
#[derive(Clone, Debug)]
pub struct ListedObject {
    pub name: Option<String>,
    pub size_bytes: u64,
    pub last_modified: UtcTime,
}

/// The id in a `<u64>.<suffix>` file name.
pub open spec fn numbered(name: Option<String>, suffix: Seq<char>) -> Option<u64> {
    match name {
        Some(n) => match strip_suffix(n@, suffix) {
            Some(stem) => u64_of_text(stem),
            None => None,
        },
        None => None,
    }
}

/// The ULID in a `<ulid>.sst` file name.
pub open spec fn ulid_named(name: Option<String>) -> Option<u128> {
    match name {
        Some(n) => match strip_suffix(n@, ".sst"@) {
            Some(stem) => ulid_parse(stem),
            None => None,
        },
        None => None,
    }
}

/// The manifest files among the objects of `manifest/`, in listing order.
pub open spec fn manifests_in(objs: Seq<ListedObject>) -> Seq<ManifestEntry>
    decreases objs.len(),
{
    if objs.len() == 0 {
        seq![]
    } else {
        let o = objs.last();
        match numbered(o.name, ".manifest"@) {
            Some(id) => manifests_in(objs.drop_last()).push(
                ManifestEntry { id, size_bytes: o.size_bytes, last_modified: o.last_modified },
            ),
            None => manifests_in(objs.drop_last()),
        }
    }
}

/// The WAL SSTs among the objects of `wal/`, in listing order.
pub open spec fn wals_in(objs: Seq<ListedObject>) -> Seq<WalEntry>
    decreases objs.len(),
{
    if objs.len() == 0 {
        seq![]
    } else {
        let o = objs.last();
        match numbered(o.name, ".sst"@) {
            Some(id) => wals_in(objs.drop_last()).push(
                WalEntry { id, size_bytes: o.size_bytes, last_modified: o.last_modified },
            ),
            None => wals_in(objs.drop_last()),
        }
    }
}

/// The compacted SSTs among the objects of `compacted/`, in listing order.
pub open spec fn compacted_in(objs: Seq<ListedObject>) -> Seq<CompactedEntry>
    decreases objs.len(),
{
    if objs.len() == 0 {
        seq![]
    } else {
        let o = objs.last();
        match ulid_named(o.name) {
            Some(u) => compacted_in(objs.drop_last()).push(
                CompactedEntry { ulid: u, size_bytes: o.size_bytes, last_modified: o.last_modified },
            ),
            None => compacted_in(objs.drop_last()),
        }
    }
}

fn name_id(name: &Option<String>, manifest: bool) -> (r: Option<u64>)
    ensures
        r == numbered(*name, if manifest {
            ".manifest"@
        } else {
            ".sst"@
        }),
{
    match name {
        Some(n) => if manifest {
            manifest_id_from_name(n.as_str())
        } else {
            wal_id_from_name(n.as_str())
        },
        None => None,
    }
}

/// The manifest listing: the `<u64>.manifest` objects, ascending by id
/// (equal ids keep their listing order).
pub fn manifest_listing(objs: &Vec<ListedObject>) -> (r: Vec<ManifestEntry>)
    ensures
        stable_sorted(manifests_in(objs@), r@),
{
    let mut found: Vec<ManifestEntry> = Vec::new();
    let mut i: usize = 0;
    while i < objs.len()
        invariant
            i <= objs@.len(),
            found@ == manifests_in(objs@.take(i as int)),
        decreases objs@.len() - i,
    {
        let o = &objs[i];
        proof {
            assert(objs@.take(i + 1).drop_last() =~= objs@.take(i as int));
            assert(objs@.take(i + 1).last() == *o);
        }
        match name_id(&o.name, true) {
            Some(id) => found.push(ManifestEntry { id, size_bytes: o.size_bytes, last_modified: o.last_modified }),
            None => {},
        }
        i = i + 1;
    }
    assert(objs@.take(objs@.len() as int) =~= objs@);
    sort_by_num(&found)
}

/// The WAL listing: the `<u64>.sst` objects, ascending by id.
pub fn wal_listing(objs: &Vec<ListedObject>) -> (r: Vec<WalEntry>)
    ensures
        stable_sorted(wals_in(objs@), r@),
{
    let mut found: Vec<WalEntry> = Vec::new();
    let mut i: usize = 0;
    while i < objs.len()
        invariant
            i <= objs@.len(),
            found@ == wals_in(objs@.take(i as int)),
        decreases objs@.len() - i,
    {
        let o = &objs[i];
        proof {
            assert(objs@.take(i + 1).drop_last() =~= objs@.take(i as int));
            assert(objs@.take(i + 1).last() == *o);
        }
        match name_id(&o.name, false) {
            Some(id) => found.push(WalEntry { id, size_bytes: o.size_bytes, last_modified: o.last_modified }),
            None => {},
        }
        i = i + 1;
    }
    assert(objs@.take(objs@.len() as int) =~= objs@);
    sort_by_num(&found)
}

/// The compacted listing: the `<ulid>.sst` objects, ascending by ULID.
pub fn compacted_listing(objs: &Vec<ListedObject>) -> (r: Vec<CompactedEntry>)
    ensures
        stable_sorted(compacted_in(objs@), r@),
{
    let mut found: Vec<CompactedEntry> = Vec::new();
    let mut i: usize = 0;
    while i < objs.len()
        invariant
            i <= objs@.len(),
            found@ == compacted_in(objs@.take(i as int)),
        decreases objs@.len() - i,
    {
        let o = &objs[i];
        proof {
            assert(objs@.take(i + 1).drop_last() =~= objs@.take(i as int));
            assert(objs@.take(i + 1).last() == *o);
        }
        let u = match &o.name {
            Some(n) => compacted_ulid_from_name(n.as_str()),
            None => None,
        };
        match u {
            Some(ulid) => found.push(
                CompactedEntry { ulid, size_bytes: o.size_bytes, last_modified: o.last_modified },
            ),
            None => {},
        }
        i = i + 1;
    }
    assert(objs@.take(objs@.len() as int) =~= objs@);
    sort_by_num(&found)
}

/// The manifests that checkpoints unexpired at `now` pin.
pub open spec fn pinned_set(cps: Seq<CheckpointDto>, now: UtcTime) -> Set<u64> {
    Set::new(|id: u64| exists|i: int| 0 <= i < cps.len() && pins_at(now)(#[trigger] cps[i]) && cps[i].manifest_id == id)
}

/// What the latest manifest (`manifest_id`, with the given trees, WAL
/// replay position and checkpoints) keeps alive at `now`.
pub fn latest_refs_of(
    m: &ManifestTrees,
    manifest_id: u64,
    replay_after_wal_id: u64,
    checkpoints: &Vec<CheckpointDto>,
    now: &UtcTime,
) -> (r: LatestRefs)
    ensures
        r.manifest_id == manifest_id,
        r.compacted@ == compacted_of(all_views(*m)),
        r.replay_after_wal_id == replay_after_wal_id,
        r.checkpoint_manifests@ == pinned_set(checkpoints@, *now),
{
    broadcast use vstd::std_specs::hash::group_hash_axioms;
    let refs = manifest_refs_of(m, manifest_id, replay_after_wal_id, 0);
    let ids = pinned_manifest_ids(checkpoints, now);
    let ghost pinned = checkpoints@.filter(pins_at(*now));
    let mut set: HashSet<u64> = HashSet::new();
    let mut i: usize = 0;
    while i < ids.len()
        invariant
            i <= ids@.len(),
            ids@ == pinned.map_values(|c: CheckpointDto| c.manifest_id),
            pinned == checkpoints@.filter(pins_at(*now)),
            forall|id: u64| set@.contains(id) <==> exists|j: int| 0 <= j < i && ids@[j] == id,
        decreases ids@.len() - i,
    {
        set.insert(ids[i]);
        proof {
            assert forall|id: u64| set@.contains(id) <==> exists|j: int| 0 <= j < i + 1 && ids@[j] == id by {
                if id == ids@[i as int] {
                    assert(ids@[i as int] == id);
                }
            }
        }
        i = i + 1;
    }
    proof {
        assert forall|id: u64| set@.contains(id) <==> pinned_set(checkpoints@, *now).contains(id) by {
            if set@.contains(id) {
                let j = choose|j: int| 0 <= j < ids@.len() && ids@[j] == id;
                checkpoints@.filter_lemma(pins_at(*now));
                assert(pinned.contains(pinned[j]));
                checkpoints@.lemma_filter_contains_rev(pins_at(*now), pinned[j]);
                let k = choose|k: int| 0 <= k < checkpoints@.len() && checkpoints@[k] == pinned[j];
                assert(pins_at(*now)(pinned[j]));
                assert(pins_at(*now)(checkpoints@[k]) && checkpoints@[k].manifest_id == id);
            }
            if pinned_set(checkpoints@, *now).contains(id) {
                let k = choose|k: int|
                    0 <= k < checkpoints@.len() && pins_at(*now)(#[trigger] checkpoints@[k]) && checkpoints@[k].manifest_id
                        == id;
                checkpoints@.filter_lemma(pins_at(*now));
                assert(pinned.contains(checkpoints@[k]));
                let j = choose|j: int| 0 <= j < pinned.len() && pinned[j] == checkpoints@[k];
                assert(ids@[j] == id);
            }
        }
        assert(set@ =~= pinned_set(checkpoints@, *now));
    }
    LatestRefs {
        manifest_id,
        compacted: refs.compacted,
        replay_after_wal_id,
        checkpoint_manifests: set,
    }
}

/// Most often, in nanoseconds, the full sweep of compacted SSTs may run.
pub const FULL_SWEEP_FLOOR_NANOS: u128 = 60_000_000_000;

/// A sweep that took T schedules the next no sooner than this many times T.
pub const FULL_SWEEP_FACTOR: u32 = 20;

/// What a request does with the compacted listing before serving it.
#[derive(Clone, Copy, Debug, PartialEq, Eq, Structural)]
pub enum RefreshStep {
    /// List everything (first request, or an empty snapshot whose time
    /// to live ran out).
    FullList,
    /// List only the objects after this ULID's SST: new SSTs sort last.
    ListAfter(u128),
    /// Serve the snapshot as it is.
    Serve,
}

/// The refresh a request performs, from how long ago the snapshot was
/// fetched (`None`: never), its time to live, and its last ULID.
pub open spec fn refresh_of(fetched_ago: Option<u128>, ttl: u128, last: Option<u128>) -> RefreshStep {
    match fetched_ago {
        None => RefreshStep::FullList,
        Some(ago) => if ago >= ttl {
            match last {
                Some(u) => RefreshStep::ListAfter(u),
                None => RefreshStep::FullList,
            }
        } else {
            RefreshStep::Serve
        },
    }
}

/// Decides the refresh of the compacted listing.
pub fn refresh_step(fetched_ago: Option<u128>, ttl: u128, last: Option<u128>) -> (r: RefreshStep)
    ensures
        r == refresh_of(fetched_ago, ttl, last),
{
    match fetched_ago {
        None => RefreshStep::FullList,
        Some(ago) => if ago >= ttl {
            match last {
                Some(u) => RefreshStep::ListAfter(u),
                None => RefreshStep::FullList,
            }
        } else {
            RefreshStep::Serve
        },
    }
}

/// The interval between full sweeps: the floor, or the factor times the
/// last sweep's duration when that is longer.
pub open spec fn interval_of(floor: u128, last_duration: u128, factor: u32) -> u128 {
    let scaled = last_duration * factor;
    if scaled > floor {
        scaled as u128
    } else {
        floor
    }
}

/// The interval between full sweeps, in nanoseconds.
pub fn sweep_interval(floor: u128, last_duration: u128, factor: u32) -> (r: u128)
    requires
        last_duration < 0x1_0000_0000_0000_0000_0000_0000,
    ensures
        r == interval_of(floor, last_duration, factor),
{
    assert(last_duration * factor < 0x1_0000_0000_0000_0000_0000_0000 * 0x1_0000_0000) by (nonlinear_arith)
        requires
            last_duration < 0x1_0000_0000_0000_0000_0000_0000,
            factor < 0x1_0000_0000,
    ;
    let scaled = last_duration * (factor as u128);
    if scaled > floor {
        scaled
    } else {
        floor
    }
}

/// Whether a full sweep starts now: none is running, and the interval has
/// passed since the last one (`None`: there was none).
pub open spec fn sweep_is_due(sweeping: bool, since_full: Option<u128>, interval: u128) -> bool {
    !sweeping && match since_full {
        Some(ago) => ago >= interval,
        None => false,
    }
}

/// Decides whether to start a full sweep.
pub fn sweep_due(sweeping: bool, since_full: Option<u128>, interval: u128) -> (r: bool)
    ensures
        r == sweep_is_due(sweeping, since_full, interval),
{
    !sweeping && match since_full {
        Some(ago) => ago >= interval,
        None => false,
    }
}

/// The object name an incremental listing starts after.
pub fn offset_name(last: u128) -> (r: String)
    ensures
        r@ == ulid_text(last) + ".sst"@,
{
    let mut cs: Vec<char> = Vec::new();
    let s = ulid_string(last);
    let sc = string_chars(&s);
    push_all(&mut cs, &sc);
    push_str(&mut cs, ".sst");
    assert(cs@ =~= ulid_text(last) + ".sst"@);
    string_from(&cs)
}

} // verus!
