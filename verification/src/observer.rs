//! Observing object deletions by diffing consecutive listing refreshes.
//! SlateDB's GC leaves no record of what it deletes — objects simply vanish
//! from the store — so disappearance between two listings is the only
//! evidence there is. Observation starts at the first listing; sweeps that
//! happen while no dashboard runs are never seen.

use std::collections::HashSet;
use vstd::prelude::*;
use crate::dto::{GcEventDto, UtcTime, CheckpointDto};
use crate::listing::{CompactedEntry, WalEntry, ManifestEntry, NumKeyed, by_num, first_per_num, has_num,
    ulid_string, ulid_text};
use crate::text::{dec, push_dec, string_from};

verus! {

/// Deletion events kept, newest first.
pub const GC_EVENT_CAP: usize = 500;

/// What a listing remembers of an object: its key, size and write time.
#[derive(Clone, Copy, Debug, PartialEq, Eq, Structural)]
pub struct Seen {
    pub key: u128,
    pub size_bytes: u64,
    pub written: UtcTime,
}

impl NumKeyed for Seen {
    open spec fn nkey(&self) -> u128 {
        self.key
    }

    fn num_key(&self) -> (r: u128) {
        self.key
    }
}

/// What the latest cached manifest keeps alive, for classifying whether a
/// vanished object was still referenced (which would be an anomaly).
pub struct LatestRefs {
    pub manifest_id: u64,
    pub compacted: HashSet<u128>,
    pub replay_after_wal_id: u64,
    pub checkpoint_manifests: HashSet<u64>,
}

/// Checkpoints that still pin their manifest at `now`: those without an
/// expiry, or expiring after `now`.
pub open spec fn pins_at(now: UtcTime) -> spec_fn(CheckpointDto) -> bool {
    |c: CheckpointDto|
        match c.expire_time {
            Some(t) => now.precedes(t),
            None => true,
        }
}

/// Manifest ids pinned by the checkpoints that have not expired at `now`.
/// The GC removes expired checkpoints and then deletes their targets in
/// the same sweep, so expired ones do not count.
pub fn pinned_manifest_ids(cps: &Vec<CheckpointDto>, now: &UtcTime) -> (r: Vec<u64>)
    ensures
        r@ == cps@.filter(pins_at(*now)).map_values(|c: CheckpointDto| c.manifest_id),
{
    let mut out: Vec<u64> = Vec::new();
    let mut i: usize = 0;
    while i < cps.len()
        invariant
            i <= cps@.len(),
            out@ == cps@.take(i as int).filter(pins_at(*now)).map_values(|c: CheckpointDto| c.manifest_id),
        decreases cps@.len() - i,
    {
        let c = &cps[i];
        let ghost f = cps@.take(i as int).filter(pins_at(*now));
        proof {
            assert(cps@.take(i + 1) =~= cps@.take(i as int).push(*c));
            cps@.take(i as int).lemma_filter_push(*c, pins_at(*now));
        }
        let pins = match c.expire_time {
            Some(t) => now.is_before(&t),
            None => true,
        };
        if pins {
            out.push(c.manifest_id);
            proof {
                assert(f.push(*c).map_values(|c: CheckpointDto| c.manifest_id) =~= f.map_values(
                    |c: CheckpointDto| c.manifest_id,
                ).push(c.manifest_id));
            }
        }
        i = i + 1;
    }
    assert(cps@.take(cps@.len() as int) =~= cps@);
    out
}

/// A deletion event as (kind, id, size, written, last seen, missing,
/// referenced).
pub type EventView = (Seq<char>, Seq<char>, u64, UtcTime, UtcTime, UtcTime, Option<bool>);

pub open spec fn event_view(e: GcEventDto) -> EventView {
    (e.kind@, e.id@, e.size_bytes, e.written_at, e.last_seen_at, e.missing_at, e.referenced)
}

/// Events as views, in order.
pub open spec fn event_views(s: Seq<GcEventDto>) -> Seq<EventView> {
    s.map_values(|e: GcEventDto| event_view(e))
}

/// The log after `e` is added in front, keeping at most `GC_EVENT_CAP`.
pub open spec fn pushed(log: Seq<EventView>, e: EventView) -> Seq<EventView> {
    let l = seq![e] + log;
    if l.len() > GC_EVENT_CAP {
        l.take(GC_EVENT_CAP as int)
    } else {
        l
    }
}

/// The log after each of `es` is added in front, in order.
pub open spec fn pushed_all(log: Seq<EventView>, es: Seq<EventView>) -> Seq<EventView>
    decreases es.len(),
{
    if es.len() == 0 {
        log
    } else {
        pushed(pushed_all(log, es.drop_last()), es.last())
    }
}

/// The event log stays capped: adding events to a log of at most
/// `GC_EVENT_CAP` events leaves at most `GC_EVENT_CAP`, and keeps the
/// newest event in front.
pub proof fn lemma_log_capped(log: Seq<EventView>, es: Seq<EventView>)
    requires
        log.len() <= GC_EVENT_CAP,
    ensures
        pushed_all(log, es).len() <= GC_EVENT_CAP,
        es.len() > 0 ==> pushed_all(log, es)[0] == es.last(),
    decreases es.len(),
{
    if es.len() > 0 {
        lemma_log_capped(log, es.drop_last());
    }
}

/// Objects whose key no object of `current` has.
pub open spec fn gone_from(current: Seq<Seen>) -> spec_fn(Seen) -> bool {
    |s: Seen| !has_num(current, s.key)
}

/// The objects of the previous listing (the last entry per key counts),
/// in key order, that the current listing no longer has.
pub open spec fn vanished(prev: Seq<Seen>, current: Seq<Seen>) -> Seq<Seen> {
    by_num(prev.reverse()).filter(gone_from(current))
}

/// The later of two instants.
pub open spec fn later(a: UtcTime, b: UtcTime) -> UtcTime {
    if a.precedes(b) {
        b
    } else {
        a
    }
}

/// A view of what the latest manifest references.
pub type RefsView = (u64, Set<u128>, u64, Set<u64>);

pub open spec fn refs_view(r: Option<&LatestRefs>) -> Option<RefsView> {
    match r {
        Some(x) => Some((x.manifest_id, x.compacted@, x.replay_after_wal_id, x.checkpoint_manifests@)),
        None => None,
    }
}

/// The kinds of objects observed.
#[derive(Clone, Copy, Debug, PartialEq, Eq, Structural)]
pub enum ObjectKind {
    Compacted,
    Wal,
    Manifest,
}

/// The deletion event of object `s` of kind `kind`, gone between the
/// listing at `prev_at` and the one at `now`. A compacted SST is named by
/// its ULID and was last seen at the later of `prev_at` and its own write
/// (entries noted between observations were written after `prev_at`);
/// WAL SSTs and manifests are named "#<id>". Whether the latest manifest
/// still referenced the object: its tree holds the SST; the WAL SST lies
/// past the replay point; the manifest is the latest or a checkpoint's.
pub open spec fn event_of(kind: ObjectKind, s: Seen, prev_at: UtcTime, now: UtcTime, refs: Option<RefsView>) -> EventView {
    let kind_text = match kind {
        ObjectKind::Compacted => "compacted"@,
        ObjectKind::Wal => "wal"@,
        ObjectKind::Manifest => "manifest"@,
    };
    let id = match kind {
        ObjectKind::Compacted => ulid_text(s.key),
        _ => seq!['#'] + dec(s.key as u64 as nat),
    };
    let last_seen = match kind {
        ObjectKind::Compacted => later(prev_at, s.written),
        _ => prev_at,
    };
    let referenced = match refs {
        None => None,
        Some(r) => Some(
            match kind {
                ObjectKind::Compacted => r.1.contains(s.key),
                ObjectKind::Wal => s.key > r.2,
                ObjectKind::Manifest => s.key == r.0 || r.3.contains(s.key as u64),
            },
        ),
    };
    (kind_text, id, s.size_bytes, s.written, last_seen, now, referenced)
}

/// The events of the objects in `gone`, in order.
pub open spec fn events_of(kind: ObjectKind, gone: Seq<Seen>, prev_at: UtcTime, now: UtcTime, refs: Option<RefsView>) -> Seq<
    EventView,
> {
    gone.map_values(|s: Seen| event_of(kind, s, prev_at, now, refs))
}

/// The objects of the previous listing, in key order, that the current
/// listing no longer has.
fn vanished_objects(prev: &Vec<Seen>, current: &Vec<Seen>) -> (r: Vec<Seen>)
    ensures
        r@ == vanished(prev@, current@),
{
    let mut rev: Vec<Seen> = Vec::new();
    let mut i: usize = prev.len();
    while i > 0
        invariant
            i <= prev@.len(),
            rev@ == prev@.subrange(i as int, prev@.len() as int).reverse(),
        decreases i,
    {
        i = i - 1;
        rev.push(prev[i]);
        assert(rev@ =~= prev@.subrange(i as int, prev@.len() as int).reverse());
    }
    assert(prev@.subrange(0, prev@.len() as int) =~= prev@);
    let last = first_per_num(&rev);
    let keys = first_per_num(current);
    let mut out: Vec<Seen> = Vec::new();
    let mut j: usize = 0;
    while j < last.len()
        invariant
            j <= last@.len(),
            last@ == by_num(prev@.reverse()),
            crate::listing::first_per_num_sorted(current@, keys@),
            out@ == last@.take(j as int).filter(gone_from(current@)),
        decreases last@.len() - j,
    {
        let x = last[j];
        proof {
            assert(last@.take(j + 1) =~= last@.take(j as int).push(x));
            last@.take(j as int).lemma_filter_push(x, gone_from(current@));
        }
        if !sorted_has_key(&keys, x.key) {
            out.push(x);
        }
        j = j + 1;
    }
    assert(last@.take(last@.len() as int) =~= last@);
    out
}

/// Whether the key-sorted `v` has an object with key `k`.
fn sorted_has_key(v: &Vec<Seen>, k: u128) -> (r: bool)
    requires
        forall|i: int, j: int| 0 <= i < j < v@.len() ==> #[trigger] v@[i].nkey() < #[trigger] v@[j].nkey(),
    ensures
        r == has_num(v@, k),
{
    let mut lo: usize = 0;
    let mut hi: usize = v.len();
    while lo < hi
        invariant
            lo <= hi <= v@.len(),
            forall|i: int, j: int| 0 <= i < j < v@.len() ==> #[trigger] v@[i].nkey() < #[trigger] v@[j].nkey(),
            forall|j: int| 0 <= j < lo ==> #[trigger] v@[j].nkey() < k,
            forall|j: int| hi <= j < v@.len() ==> #[trigger] v@[j].nkey() > k,
        decreases hi - lo,
    {
        let mid = lo + (hi - lo) / 2;
        let m = v[mid].key;
        if m == k {
            assert(v@[mid as int].nkey() == k);
            return true;
        } else if m < k {
            proof {
                assert forall|j: int| 0 <= j <= mid implies #[trigger] v@[j].nkey() < k by {
                    if j < mid {
                        assert(v@[j].nkey() < v@[mid as int].nkey());
                    }
                }
            }
            lo = mid + 1;
        } else {
            proof {
                assert forall|j: int| mid <= j < v@.len() implies #[trigger] v@[j].nkey() > k by {
                    if j > mid {
                        assert(v@[mid as int].nkey() < v@[j].nkey());
                    }
                }
            }
            hi = mid;
        }
    }
    proof {
        assert forall|j: int| 0 <= j < v@.len() implies #[trigger] v@[j].nkey() != k by {
            if j < lo {
            } else {
            }
        }
    }
    false
}

/// The deletion event of object `s`.
fn make_event(kind: ObjectKind, s: Seen, prev_at: UtcTime, now: UtcTime, refs: Option<&LatestRefs>) -> (e: GcEventDto)
    ensures
        event_view(e) == event_of(kind, s, prev_at, now, refs_view(refs)),
{
    broadcast use vstd::std_specs::hash::group_hash_axioms;
    let id = match kind {
        ObjectKind::Compacted => ulid_string(s.key),
        _ => {
            let mut v: Vec<char> = Vec::new();
            v.push('#');
            push_dec(&mut v, s.key as u64);
            proof {
                assert(v@ =~= seq!['#'] + dec(s.key as u64 as nat));
            }
            string_from(&v)
        },
    };
    let last_seen_at = match kind {
        ObjectKind::Compacted => if prev_at.is_before(&s.written) {
            s.written
        } else {
            prev_at
        },
        _ => prev_at,
    };
    let referenced = match refs {
        None => None,
        Some(r) => Some(
            match kind {
                ObjectKind::Compacted => r.compacted.contains(&s.key),
                ObjectKind::Wal => s.key > r.replay_after_wal_id as u128,
                ObjectKind::Manifest => s.key == r.manifest_id as u128 || r.checkpoint_manifests.contains(
                    &(s.key as u64),
                ),
            },
        ),
    };
    let kind_text = match kind {
        ObjectKind::Compacted => "compacted",
        ObjectKind::Wal => "wal",
        ObjectKind::Manifest => "manifest",
    };
    let e = GcEventDto {
        kind: kind_text,
        id,
        size_bytes: s.size_bytes,
        written_at: s.written,
        last_seen_at,
        missing_at: now,
        referenced,
    };
    e
}


/// A `compacted/` listing as remembered objects.
pub open spec fn compacted_seen(s: Seq<CompactedEntry>) -> Seq<Seen> {
    s.map_values(|e: CompactedEntry| Seen { key: e.ulid, size_bytes: e.size_bytes, written: e.last_modified })
}

/// A `wal/` listing as remembered objects.
pub open spec fn wal_seen(s: Seq<WalEntry>) -> Seq<Seen> {
    s.map_values(|e: WalEntry| Seen { key: e.id as u128, size_bytes: e.size_bytes, written: e.last_modified })
}

/// A `manifest/` listing as remembered objects.
pub open spec fn manifest_seen(s: Seq<ManifestEntry>) -> Seq<Seen> {
    s.map_values(|e: ManifestEntry| Seen { key: e.id as u128, size_bytes: e.size_bytes, written: e.last_modified })
}

fn seen_compacted(v: &Vec<CompactedEntry>) -> (r: Vec<Seen>)
    ensures
        r@ == compacted_seen(v@),
{
    let mut out: Vec<Seen> = Vec::new();
    let mut i: usize = 0;
    while i < v.len()
        invariant
            i <= v@.len(),
            out@ == compacted_seen(v@.take(i as int)),
        decreases v@.len() - i,
    {
        out.push(Seen { key: v[i].ulid, size_bytes: v[i].size_bytes, written: v[i].last_modified });
        i = i + 1;
        assert(out@ =~= compacted_seen(v@.take(i as int)));
    }
    assert(v@.take(v@.len() as int) =~= v@);
    out
}

fn seen_wal(v: &Vec<WalEntry>) -> (r: Vec<Seen>)
    ensures
        r@ == wal_seen(v@),
{
    let mut out: Vec<Seen> = Vec::new();
    let mut i: usize = 0;
    while i < v.len()
        invariant
            i <= v@.len(),
            out@ == wal_seen(v@.take(i as int)),
        decreases v@.len() - i,
    {
        out.push(Seen { key: v[i].id as u128, size_bytes: v[i].size_bytes, written: v[i].last_modified });
        i = i + 1;
        assert(out@ =~= wal_seen(v@.take(i as int)));
    }
    assert(v@.take(v@.len() as int) =~= v@);
    out
}

fn seen_manifests(v: &Vec<ManifestEntry>) -> (r: Vec<Seen>)
    ensures
        r@ == manifest_seen(v@),
{
    let mut out: Vec<Seen> = Vec::new();
    let mut i: usize = 0;
    while i < v.len()
        invariant
            i <= v@.len(),
            out@ == manifest_seen(v@.take(i as int)),
        decreases v@.len() - i,
    {
        out.push(Seen { key: v[i].id as u128, size_bytes: v[i].size_bytes, written: v[i].last_modified });
        i = i + 1;
        assert(out@ =~= manifest_seen(v@.take(i as int)));
    }
    assert(v@.take(v@.len() as int) =~= v@);
    out
}

/// Observes deletions by diffing consecutive listing refreshes of the
/// `compacted/`, `wal/` and `manifest/` directories.
pub struct GcObserver {
    started_at: UtcTime,
    prev_compacted: Option<(UtcTime, Vec<Seen>)>,
    prev_wal: Option<(UtcTime, Vec<Seen>)>,
    prev_manifests: Option<(UtcTime, Vec<Seen>)>,
    events: Vec<GcEventDto>,
}

/// The previous listing of a directory, as its time and objects.
pub open spec fn snapshot_view(p: Option<(UtcTime, Vec<Seen>)>) -> Option<(UtcTime, Seq<Seen>)> {
    match p {
        Some(x) => Some((x.0, x.1@)),
        None => None,
    }
}

impl GcObserver {
    /// When observation started.
    pub closed spec fn since(&self) -> UtcTime {
        self.started_at
    }

    /// The events, newest first.
    pub closed spec fn log(&self) -> Seq<EventView> {
        event_views(self.events@)
    }

    /// The previous listing of the directory of `kind`, if any.
    pub closed spec fn snapshot(&self, kind: ObjectKind) -> Option<(UtcTime, Seq<Seen>)> {
        match kind {
            ObjectKind::Compacted => snapshot_view(self.prev_compacted),
            ObjectKind::Wal => snapshot_view(self.prev_wal),
            ObjectKind::Manifest => snapshot_view(self.prev_manifests),
        }
    }

    pub fn new(started_at: UtcTime) -> (r: Self)
        ensures
            r.since() == started_at,
            r.log() == Seq::<EventView>::empty(),
            r.snapshot(ObjectKind::Compacted) is None,
            r.snapshot(ObjectKind::Wal) is None,
            r.snapshot(ObjectKind::Manifest) is None,
    {
        let r = GcObserver {
            started_at,
            prev_compacted: None,
            prev_wal: None,
            prev_manifests: None,
            events: Vec::new(),
        };
        assert(r.log() =~= Seq::<EventView>::empty());
        r
    }

    pub fn started_at(&self) -> (r: UtcTime)
        ensures
            r == self.since(),
    {
        self.started_at
    }

    /// The events, newest first.
    pub fn events(&self) -> (r: &Vec<GcEventDto>)
        ensures
            event_views(r@) == self.log(),
    {
        &self.events
    }

    /// Adds `event` in front, keeping the newest `GC_EVENT_CAP`.
    pub fn push(&mut self, event: GcEventDto)
        ensures
            final(self).log() == pushed(old(self).log(), event_view(event)),
            final(self).since() == old(self).since(),
            forall|k: ObjectKind| #[trigger] final(self).snapshot(k) == old(self).snapshot(k),
    {
        let ghost before = self.events@;
        self.events.insert(0, event);
        self.events.truncate(GC_EVENT_CAP);
        proof {
            let l = seq![event_view(event)] + event_views(before);
            assert(event_views(before.insert(0, event)) =~= l);
            if l.len() > GC_EVENT_CAP {
                assert(event_views(self.events@) =~= l.take(GC_EVENT_CAP as int));
            } else {
                assert(event_views(self.events@) =~= l);
            }
        }
    }

    /// Diffs the listing `current` of the directory of `kind` against the
    /// previous one, logging an event for every object that vanished, and
    /// keeps `current` as the new previous listing.
    fn observe(&mut self, kind: ObjectKind, current: Vec<Seen>, now: UtcTime, refs: Option<&LatestRefs>)
        ensures
            final(self).snapshot(kind) == Some((now, current@)),
            forall|k: ObjectKind| k != kind ==> #[trigger] final(self).snapshot(k) == old(self).snapshot(k),
            final(self).since() == old(self).since(),
            final(self).log() == match old(self).snapshot(kind) {
                None => old(self).log(),
                Some(p) => pushed_all(old(self).log(), events_of(kind, vanished(p.1, current@), p.0, now, refs_view(refs))),
            },
    {
        let prev = match kind {
            ObjectKind::Compacted => self.prev_compacted.take(),
            ObjectKind::Wal => self.prev_wal.take(),
            ObjectKind::Manifest => self.prev_manifests.take(),
        };
        let ghost log0 = self.log();
        assert(forall|k: ObjectKind| k != kind ==> #[trigger] self.snapshot(k) == old(self).snapshot(k));
        match prev {
            None => {},
            Some((prev_at, prev_objects)) => {
                let gone = vanished_objects(&prev_objects, &current);
                let ghost es = events_of(kind, gone@, prev_at, now, refs_view(refs));
                let mut i: usize = 0;
                while i < gone.len()
                    invariant
                        i <= gone@.len(),
                        es == events_of(kind, gone@, prev_at, now, refs_view(refs)),
                        self.log() == pushed_all(log0, es.take(i as int)),
                        self.since() == old(self).since(),
                        self.snapshot(kind) is None,
                        forall|k: ObjectKind| k != kind ==> #[trigger] self.snapshot(k) == old(self).snapshot(k),
                    decreases gone@.len() - i,
                {
                    let e = make_event(kind, gone[i], prev_at, now, refs);
                    proof {
                        assert(es.take(i + 1).drop_last() =~= es.take(i as int));
                        assert(es.take(i + 1).last() == es[i as int]);
                    }
                    self.push(e);
                    i = i + 1;
                }
                proof {
                    assert(es.take(gone@.len() as int) =~= es);
                }
            },
        }
        assert(kind != ObjectKind::Compacted ==> self.snapshot(ObjectKind::Compacted) == old(self).snapshot(
            ObjectKind::Compacted,
        ));
        assert(kind != ObjectKind::Wal ==> self.snapshot(ObjectKind::Wal) == old(self).snapshot(ObjectKind::Wal));
        assert(kind != ObjectKind::Manifest ==> self.snapshot(ObjectKind::Manifest) == old(self).snapshot(
            ObjectKind::Manifest,
        ));
        match kind {
            ObjectKind::Compacted => {
                self.prev_compacted = Some((now, current));
            },
            ObjectKind::Wal => {
                self.prev_wal = Some((now, current));
            },
            ObjectKind::Manifest => {
                self.prev_manifests = Some((now, current));
            },
        }
    }

    /// Diffs a listing of `compacted/` against the previous one.
    pub fn observe_compacted(&mut self, entries: &Vec<CompactedEntry>, now: UtcTime, refs: Option<&LatestRefs>)
        ensures
            final(self).snapshot(ObjectKind::Compacted) == Some((now, compacted_seen(entries@))),
            forall|k: ObjectKind|
                k != ObjectKind::Compacted ==> #[trigger] final(self).snapshot(k) == old(self).snapshot(k),
            final(self).log() == match old(self).snapshot(ObjectKind::Compacted) {
                None => old(self).log(),
                Some(p) => pushed_all(
                    old(self).log(),
                    events_of(ObjectKind::Compacted, vanished(p.1, compacted_seen(entries@)), p.0, now, refs_view(refs)),
                ),
            },
    {
        let current = seen_compacted(entries);
        self.observe(ObjectKind::Compacted, current, now, refs);
    }

    /// Diffs a listing of `wal/` against the previous one.
    pub fn observe_wal(&mut self, entries: &Vec<WalEntry>, now: UtcTime, refs: Option<&LatestRefs>)
        ensures
            final(self).snapshot(ObjectKind::Wal) == Some((now, wal_seen(entries@))),
            forall|k: ObjectKind| k != ObjectKind::Wal ==> #[trigger] final(self).snapshot(k) == old(self).snapshot(k),
            final(self).log() == match old(self).snapshot(ObjectKind::Wal) {
                None => old(self).log(),
                Some(p) => pushed_all(
                    old(self).log(),
                    events_of(ObjectKind::Wal, vanished(p.1, wal_seen(entries@)), p.0, now, refs_view(refs)),
                ),
            },
    {
        let current = seen_wal(entries);
        self.observe(ObjectKind::Wal, current, now, refs);
    }

    /// Diffs a listing of `manifest/` against the previous one.
    pub fn observe_manifests(&mut self, entries: &Vec<ManifestEntry>, now: UtcTime, refs: Option<&LatestRefs>)
        ensures
            final(self).snapshot(ObjectKind::Manifest) == Some((now, manifest_seen(entries@))),
            forall|k: ObjectKind|
                k != ObjectKind::Manifest ==> #[trigger] final(self).snapshot(k) == old(self).snapshot(k),
            final(self).log() == match old(self).snapshot(ObjectKind::Manifest) {
                None => old(self).log(),
                Some(p) => pushed_all(
                    old(self).log(),
                    events_of(ObjectKind::Manifest, vanished(p.1, manifest_seen(entries@)), p.0, now, refs_view(refs)),
                ),
            },
    {
        let current = seen_manifests(entries);
        self.observe(ObjectKind::Manifest, current, now, refs);
    }

    /// Folds incrementally discovered SSTs into the previous `compacted/`
    /// listing without diffing, so ones deleted again before the next
    /// reconciling sweep still surface as events there.
    pub fn note_compacted_additions(&mut self, new: &Vec<CompactedEntry>)
        ensures
            final(self).snapshot(ObjectKind::Compacted) == match old(self).snapshot(ObjectKind::Compacted) {
                None => None,
                Some(p) => Some((p.0, p.1 + compacted_seen(new@))),
            },
            forall|k: ObjectKind|
                k != ObjectKind::Compacted ==> #[trigger] final(self).snapshot(k) == old(self).snapshot(k),
            final(self).log() == old(self).log(),
    {
        match self.prev_compacted.take() {
            None => {},
            Some((at, mut prev)) => {
                let added = seen_compacted(new);
                let ghost p0 = prev@;
                let mut i: usize = 0;
                while i < added.len()
                    invariant
                        i <= added@.len(),
                        prev@ == p0 + added@.take(i as int),
                    decreases added@.len() - i,
                {
                    prev.push(added[i]);
                    i = i + 1;
                    assert(prev@ =~= p0 + added@.take(i as int));
                }
                assert(added@.take(added@.len() as int) =~= added@);
                self.prev_compacted = Some((at, prev));
            },
        }
    }
}

} // verus!
