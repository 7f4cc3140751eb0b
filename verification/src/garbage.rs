//! Garbage / space-amplification report: classifies every stored object as
//! live (referenced by the latest manifest), pinned (referenced only via an
//! unexpired checkpoint), or reclaimable (what the GC would eventually
//! delete). Follows slatedb's GC rules: expired checkpoints count as already
//! removed, manifests survive while the latest or a live checkpoint
//! references them, WAL SSTs survive while any live manifest still needs
//! them for replay, and compacted SSTs survive while any live manifest's
//! tree references them. The GC's min-age grace periods are ignored, so
//! this is the steady-state estimate.

use std::collections::HashSet;
use vstd::prelude::*;
use crate::dto::{GarbageCategoryDto, GarbageDto, UtcTime};
use crate::listing::{CompactedEntry, WalEntry, ManifestEntry};

verus! {

/// The references one manifest version holds: compacted-SST ULIDs across
/// the root tree and all segments, plus the WAL window it needs for replay.
pub struct ManifestRefs {
    pub id: u64,
    pub compacted: HashSet<u128>,
    pub replay_after_wal_id: u64,
    pub next_wal_sst_id: u64,
}

impl ManifestRefs {
    /// The manifest still needs WAL SST `wal_id` for replay.
    pub open spec fn wants_wal(&self, wal_id: u64) -> bool {
        wal_id > self.replay_after_wal_id && wal_id < self.next_wal_sst_id
    }

    pub fn needs_wal(&self, wal_id: u64) -> (r: bool)
        ensures
            r == self.wants_wal(wal_id),
    {
        wal_id > self.replay_after_wal_id && wal_id < self.next_wal_sst_id
    }
}

pub struct GarbageInputs<'a> {
    pub latest: ManifestRefs,
    /// Manifests referenced by unexpired checkpoints (deduped, latest's own
    /// id excluded).
    pub pinned: Vec<ManifestRefs>,
    pub live_checkpoint_count: usize,
    pub expired_checkpoint_count: usize,
    /// Unexpired checkpoints whose manifest no longer exists.
    pub dangling_checkpoint_count: usize,
    pub compacted_listing: &'a [CompactedEntry],
    pub wal_listing: &'a [WalEntry],
    pub manifest_listing: &'a [ManifestEntry],
}

#[derive(Clone, Copy, Debug, PartialEq, Eq, Structural)]
pub enum Class {
    Live,
    Pinned,
    Reclaimable,
}

/// A classified object: its class, size and write time.
pub type Item = (Class, u64, UtcTime);

pub open spec fn compacted_class(latest: ManifestRefs, pinned: Seq<ManifestRefs>, ulid: u128) -> Class {
    if latest.compacted@.contains(ulid) {
        Class::Live
    } else if exists|i: int| 0 <= i < pinned.len() && #[trigger] pinned[i].compacted@.contains(ulid) {
        Class::Pinned
    } else {
        Class::Reclaimable
    }
}

/// Anything past the latest manifest's replay point is live: the replay
/// window itself plus SSTs the writer appended since the manifest was
/// written.
pub open spec fn wal_class(latest: ManifestRefs, pinned: Seq<ManifestRefs>, id: u64) -> Class {
    if id > latest.replay_after_wal_id {
        Class::Live
    } else if exists|i: int| 0 <= i < pinned.len() && #[trigger] pinned[i].wants_wal(id) {
        Class::Pinned
    } else {
        Class::Reclaimable
    }
}

/// Ids at or past the latest manifest are live: the listing may race a
/// newer write.
pub open spec fn manifest_class(latest: ManifestRefs, pinned: Seq<ManifestRefs>, id: u64) -> Class {
    if id >= latest.id {
        Class::Live
    } else if exists|i: int| 0 <= i < pinned.len() && #[trigger] pinned[i].id == id {
        Class::Pinned
    } else {
        Class::Reclaimable
    }
}

pub open spec fn compacted_items(latest: ManifestRefs, pinned: Seq<ManifestRefs>, s: Seq<CompactedEntry>) -> Seq<Item> {
    s.map_values(|e: CompactedEntry| (compacted_class(latest, pinned, e.ulid), e.size_bytes, e.last_modified))
}

pub open spec fn wal_items(latest: ManifestRefs, pinned: Seq<ManifestRefs>, s: Seq<WalEntry>) -> Seq<Item> {
    s.map_values(|e: WalEntry| (wal_class(latest, pinned, e.id), e.size_bytes, e.last_modified))
}

pub open spec fn manifest_items(latest: ManifestRefs, pinned: Seq<ManifestRefs>, s: Seq<ManifestEntry>) -> Seq<Item> {
    s.map_values(|e: ManifestEntry| (manifest_class(latest, pinned, e.id), e.size_bytes, e.last_modified))
}

/// Items of class `c`.
pub open spec fn of_class(c: Class) -> spec_fn(Item) -> bool {
    |x: Item| x.0 == c
}

/// Sum of the sizes of `s`.
pub open spec fn total_bytes(s: Seq<Item>) -> int
    decreases s.len(),
{
    if s.len() == 0 {
        0
    } else {
        total_bytes(s.drop_last()) + s.last().1
    }
}

/// `d` counts `s`: all of it, and each class.
pub open spec fn tallies(d: GarbageCategoryDto, s: Seq<Item>) -> bool {
    &&& d.stored_count == s.len()
    &&& d.stored_bytes == total_bytes(s)
    &&& d.live_count == s.filter(of_class(Class::Live)).len()
    &&& d.live_bytes == total_bytes(s.filter(of_class(Class::Live)))
    &&& d.pinned_count == s.filter(of_class(Class::Pinned)).len()
    &&& d.pinned_bytes == total_bytes(s.filter(of_class(Class::Pinned)))
    &&& d.reclaimable_count == s.filter(of_class(Class::Reclaimable)).len()
    &&& d.reclaimable_bytes == total_bytes(s.filter(of_class(Class::Reclaimable)))
}

/// Everything stored is live, pinned or reclaimable, in count and bytes.
pub open spec fn partitioned(d: GarbageCategoryDto) -> bool {
    &&& d.stored_count == d.live_count + d.pinned_count + d.reclaimable_count
    &&& d.stored_bytes == d.live_bytes + d.pinned_bytes + d.reclaimable_bytes
}

/// `o` is the earliest write time among the reclaimable items of `s`, or
/// none when nothing is reclaimable.
pub open spec fn oldest_reclaimable(o: Option<UtcTime>, s: Seq<Item>) -> bool {
    match o {
        None => forall|i: int| 0 <= i < s.len() ==> #[trigger] s[i].0 != Class::Reclaimable,
        Some(t) => {
            &&& exists|i: int| 0 <= i < s.len() && #[trigger] s[i].0 == Class::Reclaimable && s[i].2 == t
            &&& forall|i: int| 0 <= i < s.len() && #[trigger] s[i].0 == Class::Reclaimable ==> !s[i].2.precedes(t)
        },
    }
}

/// `d` after one more object of class `c` and size `bytes`.
pub open spec fn added(d: GarbageCategoryDto, c: Class, bytes: u64) -> GarbageCategoryDto {
    GarbageCategoryDto {
        stored_count: (d.stored_count + 1) as usize,
        stored_bytes: (d.stored_bytes + bytes) as u64,
        live_count: if c == Class::Live { (d.live_count + 1) as usize } else { d.live_count },
        live_bytes: if c == Class::Live { (d.live_bytes + bytes) as u64 } else { d.live_bytes },
        pinned_count: if c == Class::Pinned { (d.pinned_count + 1) as usize } else { d.pinned_count },
        pinned_bytes: if c == Class::Pinned { (d.pinned_bytes + bytes) as u64 } else { d.pinned_bytes },
        reclaimable_count: if c == Class::Reclaimable { (d.reclaimable_count + 1) as usize } else { d.reclaimable_count },
        reclaimable_bytes: if c == Class::Reclaimable { (d.reclaimable_bytes + bytes) as u64 } else { d.reclaimable_bytes },
    }
}

pub struct CategoryAcc {
    pub dto: GarbageCategoryDto,
}

impl CategoryAcc {
    pub fn new() -> (r: Self)
        ensures
            r.dto.stored_count == 0 && r.dto.stored_bytes == 0,
            r.dto.live_count == 0 && r.dto.live_bytes == 0,
            r.dto.pinned_count == 0 && r.dto.pinned_bytes == 0,
            r.dto.reclaimable_count == 0 && r.dto.reclaimable_bytes == 0,
    {
        CategoryAcc {
            dto: GarbageCategoryDto {
                stored_count: 0,
                stored_bytes: 0,
                live_count: 0,
                live_bytes: 0,
                pinned_count: 0,
                pinned_bytes: 0,
                reclaimable_count: 0,
                reclaimable_bytes: 0,
            },
        }
    }

    /// Counts one more object of class `class` and size `bytes`.
    pub fn add(&mut self, class: Class, bytes: u64)
        requires
            partitioned(old(self).dto),
            old(self).dto.stored_count < usize::MAX,
            old(self).dto.stored_bytes + bytes <= u64::MAX,
        ensures
            final(self).dto == added(old(self).dto, class, bytes),
            partitioned(final(self).dto),
    {
        self.dto.stored_count += 1;
        self.dto.stored_bytes += bytes;
        match class {
            Class::Live => {
                self.dto.live_count += 1;
                self.dto.live_bytes += bytes;
            },
            Class::Pinned => {
                self.dto.pinned_count += 1;
                self.dto.pinned_bytes += bytes;
            },
            Class::Reclaimable => {
                self.dto.reclaimable_count += 1;
                self.dto.reclaimable_bytes += bytes;
            },
        }
    }
}

proof fn lemma_total_push(s: Seq<Item>, x: Item)
    ensures
        total_bytes(s.push(x)) == total_bytes(s) + x.1,
{
    assert(s.push(x).drop_last() =~= s);
}

proof fn lemma_total_nonneg(s: Seq<Item>)
    ensures
        total_bytes(s) >= 0,
    decreases s.len(),
{
    if s.len() > 0 {
        lemma_total_nonneg(s.drop_last());
    }
}

proof fn lemma_total_take(s: Seq<Item>, i: int)
    requires
        0 <= i <= s.len(),
    ensures
        total_bytes(s.take(i)) <= total_bytes(s),
    decreases s.len() - i,
{
    if i < s.len() {
        lemma_total_take(s, i + 1);
        assert(s.take(i + 1) =~= s.take(i).push(s[i]));
        lemma_total_push(s.take(i), s[i]);
    } else {
        assert(s.take(i) =~= s);
    }
}

proof fn lemma_tally_push(d: GarbageCategoryDto, s: Seq<Item>, x: Item)
    requires
        tallies(d, s),
        partitioned(d),
        d.stored_count < usize::MAX,
        d.stored_bytes + x.1 <= u64::MAX,
    ensures
        tallies(added(d, x.0, x.1), s.push(x)),
{
    lemma_total_push(s, x);
    s.lemma_filter_push(x, of_class(Class::Live));
    s.lemma_filter_push(x, of_class(Class::Pinned));
    s.lemma_filter_push(x, of_class(Class::Reclaimable));
    lemma_total_push(s.filter(of_class(Class::Live)), x);
    lemma_total_push(s.filter(of_class(Class::Pinned)), x);
    lemma_total_push(s.filter(of_class(Class::Reclaimable)), x);
}

/// The earliest reclaimable time after noting one more item.
pub open spec fn noted(o: Option<UtcTime>, x: Item) -> Option<UtcTime> {
    if x.0 == Class::Reclaimable && (o is None || x.2.precedes(o->0)) {
        Some(x.2)
    } else {
        o
    }
}

proof fn lemma_oldest_push(o: Option<UtcTime>, s: Seq<Item>, x: Item)
    requires
        oldest_reclaimable(o, s),
    ensures
        oldest_reclaimable(noted(o, x), s.push(x)),
{
    let t = s.push(x);
    assert(t[s.len() as int] == x);
    assert forall|i: int| 0 <= i < s.len() implies t[i] == s[i] by {}
    match noted(o, x) {
        None => {},
        Some(n) => {
            if x.0 == Class::Reclaimable && (o is None || x.2.precedes(o->0)) {
                assert(t[s.len() as int].0 == Class::Reclaimable && t[s.len() as int].2 == n);
                assert forall|i: int| 0 <= i < t.len() && #[trigger] t[i].0 == Class::Reclaimable implies !t[i].2.precedes(n) by {
                    if i < s.len() {
                        assert(t[i] == s[i]);
                    }
                }
            } else {
                let w = choose|i: int| 0 <= i < s.len() && #[trigger] s[i].0 == Class::Reclaimable && s[i].2 == n;
                assert(t[w] == s[w]);
                assert forall|i: int| 0 <= i < t.len() && #[trigger] t[i].0 == Class::Reclaimable implies !t[i].2.precedes(n) by {
                    if i < s.len() {
                        assert(t[i] == s[i]);
                    }
                }
            }
        },
    }
}

fn note_reclaimable(oldest: Option<UtcTime>, at: UtcTime) -> (r: Option<UtcTime>)
    ensures
        r == noted(oldest, (Class::Reclaimable, 0u64, at)),
{
    match oldest {
        None => Some(at),
        Some(o) => if at.is_before(&o) {
            Some(at)
        } else {
            Some(o)
        },
    }
}

/// The three listings, classified, in report order.
pub open spec fn all_items(i: GarbageInputs) -> Seq<Item> {
    compacted_items(i.latest, i.pinned@, i.compacted_listing@) + wal_items(i.latest, i.pinned@, i.wal_listing@)
        + manifest_items(i.latest, i.pinned@, i.manifest_listing@)
}

/// Whether the sizes of all three listings sum within a `u64`, as
/// `compute_garbage` requires.
pub fn check_garbage_total(inputs: &GarbageInputs) -> (r: bool)
    ensures
        r == (total_bytes(all_items(*inputs)) <= u64::MAX),
{
    let ghost c = compacted_items(inputs.latest, inputs.pinned@, inputs.compacted_listing@);
    let ghost w = wal_items(inputs.latest, inputs.pinned@, inputs.wal_listing@);
    let ghost m = manifest_items(inputs.latest, inputs.pinned@, inputs.manifest_listing@);
    proof {
        lemma_total_concat(c, w);
        lemma_total_concat(c + w, m);
        lemma_total_nonneg(c);
        lemma_total_nonneg(w);
        lemma_total_nonneg(m);
        assert(c.take(0) =~= Seq::<Item>::empty());
        assert(w.take(0) =~= Seq::<Item>::empty());
        assert(m.take(0) =~= Seq::<Item>::empty());
    }
    let mut acc: u128 = 0;
    let mut i: usize = 0;
    while i < inputs.compacted_listing.len()
        invariant
            c == compacted_items(inputs.latest, inputs.pinned@, inputs.compacted_listing@),
            i <= c.len(),
            total_bytes(all_items(*inputs)) == total_bytes(c) + total_bytes(w) + total_bytes(m),
            total_bytes(w) >= 0,
            total_bytes(m) >= 0,
            acc == total_bytes(c.take(i as int)) <= u64::MAX,
        decreases c.len() - i,
    {
        proof {
            assert(c.take(i + 1).drop_last() =~= c.take(i as int));
            lemma_total_take(c, i + 1);
        }
        let next = acc + inputs.compacted_listing[i].size_bytes as u128;
        if next > u64::MAX as u128 {
            return false;
        }
        acc = next;
        i = i + 1;
    }
    assert(c.take(c.len() as int) =~= c);
    let mut j: usize = 0;
    while j < inputs.wal_listing.len()
        invariant
            w == wal_items(inputs.latest, inputs.pinned@, inputs.wal_listing@),
            j <= w.len(),
            total_bytes(all_items(*inputs)) == total_bytes(c) + total_bytes(w) + total_bytes(m),
            total_bytes(m) >= 0,
            acc == total_bytes(c) + total_bytes(w.take(j as int)) <= u64::MAX,
        decreases w.len() - j,
    {
        proof {
            assert(w.take(j + 1).drop_last() =~= w.take(j as int));
            lemma_total_take(w, j + 1);
        }
        let next = acc + inputs.wal_listing[j].size_bytes as u128;
        if next > u64::MAX as u128 {
            return false;
        }
        acc = next;
        j = j + 1;
    }
    assert(w.take(w.len() as int) =~= w);
    let mut k: usize = 0;
    while k < inputs.manifest_listing.len()
        invariant
            m == manifest_items(inputs.latest, inputs.pinned@, inputs.manifest_listing@),
            k <= m.len(),
            total_bytes(all_items(*inputs)) == total_bytes(c) + total_bytes(w) + total_bytes(m),
            acc == total_bytes(c) + total_bytes(w) + total_bytes(m.take(k as int)) <= u64::MAX,
        decreases m.len() - k,
    {
        proof {
            assert(m.take(k + 1).drop_last() =~= m.take(k as int));
            lemma_total_take(m, k + 1);
        }
        let next = acc + inputs.manifest_listing[k].size_bytes as u128;
        if next > u64::MAX as u128 {
            return false;
        }
        acc = next;
        k = k + 1;
    }
    assert(m.take(m.len() as int) =~= m);
    true
}

fn classify_compacted(latest: &ManifestRefs, pinned: &Vec<ManifestRefs>, ulid: u128) -> (c: Class)
    ensures
        c == compacted_class(*latest, pinned@, ulid),
{
    broadcast use vstd::std_specs::hash::group_hash_axioms;
    if latest.compacted.contains(&ulid) {
        return Class::Live;
    }
    let mut k: usize = 0;
    while k < pinned.len()
        invariant
            k <= pinned.len(),
            !latest.compacted@.contains(ulid),
            forall|j: int| 0 <= j < k ==> !(#[trigger] pinned@[j]).compacted@.contains(ulid),
        decreases pinned.len() - k,
    {
        if pinned[k].compacted.contains(&ulid) {
            assert(pinned@[k as int].compacted@.contains(ulid));
            return Class::Pinned;
        }
        k = k + 1;
    }
    Class::Reclaimable
}

fn classify_wal(latest: &ManifestRefs, pinned: &Vec<ManifestRefs>, id: u64) -> (c: Class)
    ensures
        c == wal_class(*latest, pinned@, id),
{
    if id > latest.replay_after_wal_id {
        return Class::Live;
    }
    let mut k: usize = 0;
    while k < pinned.len()
        invariant
            k <= pinned.len(),
            id <= latest.replay_after_wal_id,
            forall|j: int| 0 <= j < k ==> !(#[trigger] pinned@[j]).wants_wal(id),
        decreases pinned.len() - k,
    {
        if pinned[k].needs_wal(id) {
            assert(pinned@[k as int].wants_wal(id));
            return Class::Pinned;
        }
        k = k + 1;
    }
    Class::Reclaimable
}

fn classify_manifest(latest: &ManifestRefs, pinned: &Vec<ManifestRefs>, id: u64) -> (c: Class)
    ensures
        c == manifest_class(*latest, pinned@, id),
{
    if id >= latest.id {
        return Class::Live;
    }
    let mut k: usize = 0;
    while k < pinned.len()
        invariant
            k <= pinned.len(),
            id < latest.id,
            forall|j: int| 0 <= j < k ==> (#[trigger] pinned@[j]).id != id,
        decreases pinned.len() - k,
    {
        if pinned[k].id == id {
            assert(pinned@[k as int].id == id);
            return Class::Pinned;
        }
        k = k + 1;
    }
    Class::Reclaimable
}


proof fn lemma_total_concat(a: Seq<Item>, b: Seq<Item>)
    ensures
        total_bytes(a + b) == total_bytes(a) + total_bytes(b),
    decreases b.len(),
{
    if b.len() == 0 {
        assert(a + b =~= a);
    } else {
        lemma_total_concat(a, b.drop_last());
        assert((a + b).drop_last() =~= a + b.drop_last());
    }
}

proof fn lemma_tally_empty(d: GarbageCategoryDto)
    requires
        d.stored_count == 0 && d.stored_bytes == 0,
        d.live_count == 0 && d.live_bytes == 0,
        d.pinned_count == 0 && d.pinned_bytes == 0,
        d.reclaimable_count == 0 && d.reclaimable_bytes == 0,
    ensures
        tallies(d, Seq::<Item>::empty()),
        partitioned(d),
{
    reveal(Seq::filter);
}

/// Classifies one listing into a fresh category, noting reclaimable write
/// times into `oldest`.
fn tally_compacted(
    latest: &ManifestRefs,
    pinned: &Vec<ManifestRefs>,
    listing: &[CompactedEntry],
    oldest: Option<UtcTime>,
    Ghost(seen): Ghost<Seq<Item>>,
) -> (r: (GarbageCategoryDto, Option<UtcTime>))
    requires
        oldest_reclaimable(oldest, seen),
        total_bytes(compacted_items(*latest, pinned@, listing@)) <= u64::MAX,
    ensures
        tallies(r.0, compacted_items(*latest, pinned@, listing@)),
        partitioned(r.0),
        oldest_reclaimable(r.1, seen + compacted_items(*latest, pinned@, listing@)),
{
    let ghost items = compacted_items(*latest, pinned@, listing@);
    let mut acc = CategoryAcc::new();
    let mut o = oldest;
    proof {
        lemma_tally_empty(acc.dto);
        assert(seen + items.take(0) =~= seen);
    }
    let mut i: usize = 0;
    while i < listing.len()
        invariant
            i <= listing@.len(),
            items.len() == listing@.len(),
            items == compacted_items(*latest, pinned@, listing@),
            total_bytes(items) <= u64::MAX,
            tallies(acc.dto, items.take(i as int)),
            partitioned(acc.dto),
            oldest_reclaimable(o, seen + items.take(i as int)),
        decreases listing@.len() - i,
    {
        let e = listing[i];
        let class = classify_compacted(latest, pinned, e.ulid);
        let ghost x = items[i as int];
        proof {
            assert(x == (class, e.size_bytes, e.last_modified));
            assert(items.take(i + 1) =~= items.take(i as int).push(x));
            assert(seen + items.take(i + 1) =~= (seen + items.take(i as int)).push(x));
            lemma_total_take(items, i + 1);
            lemma_total_push(items.take(i as int), x);
            lemma_total_nonneg(items.take(i as int));
            lemma_tally_push(acc.dto, items.take(i as int), x);
            lemma_oldest_push(o, seen + items.take(i as int), x);
        }
        if class == Class::Reclaimable {
            o = note_reclaimable(o, e.last_modified);
        }
        acc.add(class, e.size_bytes);
        i = i + 1;
    }
    proof {
        assert(items.take(items.len() as int) =~= items);
    }
    (acc.dto, o)
}

fn tally_wal(
    latest: &ManifestRefs,
    pinned: &Vec<ManifestRefs>,
    listing: &[WalEntry],
    oldest: Option<UtcTime>,
    Ghost(seen): Ghost<Seq<Item>>,
) -> (r: (GarbageCategoryDto, Option<UtcTime>))
    requires
        oldest_reclaimable(oldest, seen),
        total_bytes(wal_items(*latest, pinned@, listing@)) <= u64::MAX,
    ensures
        tallies(r.0, wal_items(*latest, pinned@, listing@)),
        partitioned(r.0),
        oldest_reclaimable(r.1, seen + wal_items(*latest, pinned@, listing@)),
{
    let ghost items = wal_items(*latest, pinned@, listing@);
    let mut acc = CategoryAcc::new();
    let mut o = oldest;
    proof {
        lemma_tally_empty(acc.dto);
        assert(seen + items.take(0) =~= seen);
    }
    let mut i: usize = 0;
    while i < listing.len()
        invariant
            i <= listing@.len(),
            items.len() == listing@.len(),
            items == wal_items(*latest, pinned@, listing@),
            total_bytes(items) <= u64::MAX,
            tallies(acc.dto, items.take(i as int)),
            partitioned(acc.dto),
            oldest_reclaimable(o, seen + items.take(i as int)),
        decreases listing@.len() - i,
    {
        let e = listing[i];
        let class = classify_wal(latest, pinned, e.id);
        let ghost x = items[i as int];
        proof {
            assert(x == (class, e.size_bytes, e.last_modified));
            assert(items.take(i + 1) =~= items.take(i as int).push(x));
            assert(seen + items.take(i + 1) =~= (seen + items.take(i as int)).push(x));
            lemma_total_take(items, i + 1);
            lemma_total_push(items.take(i as int), x);
            lemma_total_nonneg(items.take(i as int));
            lemma_tally_push(acc.dto, items.take(i as int), x);
            lemma_oldest_push(o, seen + items.take(i as int), x);
        }
        if class == Class::Reclaimable {
            o = note_reclaimable(o, e.last_modified);
        }
        acc.add(class, e.size_bytes);
        i = i + 1;
    }
    proof {
        assert(items.take(items.len() as int) =~= items);
    }
    (acc.dto, o)
}

fn tally_manifests(
    latest: &ManifestRefs,
    pinned: &Vec<ManifestRefs>,
    listing: &[ManifestEntry],
    oldest: Option<UtcTime>,
    Ghost(seen): Ghost<Seq<Item>>,
) -> (r: (GarbageCategoryDto, Option<UtcTime>))
    requires
        oldest_reclaimable(oldest, seen),
        total_bytes(manifest_items(*latest, pinned@, listing@)) <= u64::MAX,
    ensures
        tallies(r.0, manifest_items(*latest, pinned@, listing@)),
        partitioned(r.0),
        oldest_reclaimable(r.1, seen + manifest_items(*latest, pinned@, listing@)),
{
    let ghost items = manifest_items(*latest, pinned@, listing@);
    let mut acc = CategoryAcc::new();
    let mut o = oldest;
    proof {
        lemma_tally_empty(acc.dto);
        assert(seen + items.take(0) =~= seen);
    }
    let mut i: usize = 0;
    while i < listing.len()
        invariant
            i <= listing@.len(),
            items.len() == listing@.len(),
            items == manifest_items(*latest, pinned@, listing@),
            total_bytes(items) <= u64::MAX,
            tallies(acc.dto, items.take(i as int)),
            partitioned(acc.dto),
            oldest_reclaimable(o, seen + items.take(i as int)),
        decreases listing@.len() - i,
    {
        let e = listing[i];
        let class = classify_manifest(latest, pinned, e.id);
        let ghost x = items[i as int];
        proof {
            assert(x == (class, e.size_bytes, e.last_modified));
            assert(items.take(i + 1) =~= items.take(i as int).push(x));
            assert(seen + items.take(i + 1) =~= (seen + items.take(i as int)).push(x));
            lemma_total_take(items, i + 1);
            lemma_total_push(items.take(i as int), x);
            lemma_total_nonneg(items.take(i as int));
            lemma_tally_push(acc.dto, items.take(i as int), x);
            lemma_oldest_push(o, seen + items.take(i as int), x);
        }
        if class == Class::Reclaimable {
            o = note_reclaimable(o, e.last_modified);
        }
        acc.add(class, e.size_bytes);
        i = i + 1;
    }
    proof {
        assert(items.take(items.len() as int) =~= items);
    }
    (acc.dto, o)
}

/// `out` is the garbage report for `i`.
pub open spec fn garbage_matches(i: GarbageInputs, out: GarbageDto) -> bool {
    &&& out.manifest_id == i.latest.id
    &&& out.live_checkpoint_count == i.live_checkpoint_count
    &&& out.expired_checkpoint_count == i.expired_checkpoint_count
    &&& out.dangling_checkpoint_count == i.dangling_checkpoint_count
    &&& tallies(out.compacted, compacted_items(i.latest, i.pinned@, i.compacted_listing@))
    &&& tallies(out.wal, wal_items(i.latest, i.pinned@, i.wal_listing@))
    &&& tallies(out.manifests, manifest_items(i.latest, i.pinned@, i.manifest_listing@))
    &&& out.stored_bytes == out.compacted.stored_bytes + out.wal.stored_bytes + out.manifests.stored_bytes
    &&& out.live_bytes == out.compacted.live_bytes + out.wal.live_bytes + out.manifests.live_bytes
    &&& out.pinned_bytes == out.compacted.pinned_bytes + out.wal.pinned_bytes + out.manifests.pinned_bytes
    &&& out.reclaimable_bytes == out.compacted.reclaimable_bytes + out.wal.reclaimable_bytes
        + out.manifests.reclaimable_bytes
    &&& out.data_stored_bytes == out.compacted.stored_bytes + out.wal.stored_bytes
    &&& out.data_live_bytes == out.compacted.live_bytes + out.wal.live_bytes
    &&& oldest_reclaimable(out.oldest_reclaimable_at, all_items(i))
}

/// The garbage report: every listed object classified as live, pinned or
/// reclaimable, per directory and in total, with the write time of the
/// oldest reclaimable object. Space amplification is reported as its two
/// terms over data objects only (manifests are metadata noise).
pub fn compute_garbage(inputs: &GarbageInputs) -> (out: GarbageDto)
    requires
        total_bytes(all_items(*inputs)) <= u64::MAX,
    ensures
        garbage_matches(*inputs, out),
        partitioned(out.compacted),
        partitioned(out.wal),
        partitioned(out.manifests),
        out.stored_bytes == out.live_bytes + out.pinned_bytes + out.reclaimable_bytes,
{
    let ghost c = compacted_items(inputs.latest, inputs.pinned@, inputs.compacted_listing@);
    let ghost w = wal_items(inputs.latest, inputs.pinned@, inputs.wal_listing@);
    let ghost m = manifest_items(inputs.latest, inputs.pinned@, inputs.manifest_listing@);
    proof {
        lemma_total_concat(c, w);
        lemma_total_concat(c + w, m);
        lemma_total_nonneg(c);
        lemma_total_nonneg(w);
        lemma_total_nonneg(m);
        assert(Seq::<Item>::empty() + c =~= c);
    }
    let (compacted, oldest) = tally_compacted(
        &inputs.latest,
        &inputs.pinned,
        inputs.compacted_listing,
        None,
        Ghost(Seq::empty()),
    );
    let (wal, oldest) = tally_wal(&inputs.latest, &inputs.pinned, inputs.wal_listing, oldest, Ghost(c));
    let (manifests, oldest) = tally_manifests(
        &inputs.latest,
        &inputs.pinned,
        inputs.manifest_listing,
        oldest,
        Ghost(c + w),
    );
    let stored_bytes = compacted.stored_bytes + wal.stored_bytes + manifests.stored_bytes;
    let live_bytes = compacted.live_bytes + wal.live_bytes + manifests.live_bytes;
    let pinned_bytes = compacted.pinned_bytes + wal.pinned_bytes + manifests.pinned_bytes;
    let reclaimable_bytes = compacted.reclaimable_bytes + wal.reclaimable_bytes + manifests.reclaimable_bytes;
    let data_stored_bytes = compacted.stored_bytes + wal.stored_bytes;
    let data_live_bytes = compacted.live_bytes + wal.live_bytes;
    GarbageDto {
        manifest_id: inputs.latest.id,
        live_checkpoint_count: inputs.live_checkpoint_count,
        expired_checkpoint_count: inputs.expired_checkpoint_count,
        dangling_checkpoint_count: inputs.dangling_checkpoint_count,
        compacted,
        wal,
        manifests,
        stored_bytes,
        live_bytes,
        pinned_bytes,
        reclaimable_bytes,
        data_stored_bytes,
        data_live_bytes,
        oldest_reclaimable_at: oldest,
    }
}

/// Sum of the sizes of listed compacted SSTs.
pub open spec fn compacted_size_sum(s: Seq<CompactedEntry>) -> int
    decreases s.len(),
{
    if s.len() == 0 {
        0
    } else {
        compacted_size_sum(s.drop_last()) + s.last().size_bytes
    }
}

/// Compacted SSTs the latest manifest does not reference but some pinned
/// manifest (at any position of the list) does.
pub open spec fn held_by_a_pin(latest: ManifestRefs, pinned: Seq<ManifestRefs>) -> spec_fn(CompactedEntry) -> bool {
    |e: CompactedEntry|
        !latest.compacted@.contains(e.ulid) && exists|k: int|
            0 <= k < pinned.len() && (#[trigger] pinned[k]).compacted@.contains(e.ulid)
}

/// Compacted SSTs that neither the latest manifest nor any pinned manifest
/// references.
pub open spec fn held_by_none(latest: ManifestRefs, pinned: Seq<ManifestRefs>) -> spec_fn(CompactedEntry) -> bool {
    |e: CompactedEntry|
        !latest.compacted@.contains(e.ulid) && forall|k: int|
            0 <= k < pinned.len() ==> !(#[trigger] pinned[k]).compacted@.contains(e.ulid)
}

proof fn lemma_classified_filter(latest: ManifestRefs, pinned: Seq<ManifestRefs>, s: Seq<CompactedEntry>, c: Class, q: spec_fn(
    CompactedEntry,
) -> bool)
    requires
        forall|e: CompactedEntry| #[trigger] q(e) == (compacted_class(latest, pinned, e.ulid) == c),
    ensures
        compacted_items(latest, pinned, s).filter(of_class(c)).len() == s.filter(q).len(),
        total_bytes(compacted_items(latest, pinned, s).filter(of_class(c))) == compacted_size_sum(s.filter(q)),
    decreases s.len(),
{
    reveal(Seq::filter);
    if s.len() > 0 {
        let t = s.drop_last();
        let x = s.last();
        lemma_classified_filter(latest, pinned, t, c, q);
        let items = compacted_items(latest, pinned, s);
        assert(items.drop_last() =~= compacted_items(latest, pinned, t));
        assert(items.last() == (compacted_class(latest, pinned, x.ulid), x.size_bytes, x.last_modified));
        if q(x) {
            assert(items.filter(of_class(c)) == compacted_items(latest, pinned, t).filter(of_class(c)).push(items.last()));
            assert(s.filter(q) == t.filter(q).push(x));
            assert(items.filter(of_class(c)).drop_last() =~= compacted_items(latest, pinned, t).filter(of_class(c)));
            assert(s.filter(q).drop_last() =~= t.filter(q));
        } else {
            assert(items.filter(of_class(c)) == compacted_items(latest, pinned, t).filter(of_class(c)));
            assert(s.filter(q) == t.filter(q));
        }
    }
}

/// In the garbage report, a compacted SST that the latest manifest does
/// not reference counts as pinned when any manifest of the pinned list,
/// at any position, references it, and as reclaimable only when none
/// does: the compacted pinned and reclaimable counts and bytes are those
/// of exactly these SSTs of the listing.
pub proof fn lemma_compacted_pinned_by_any_pin(i: GarbageInputs, out: GarbageDto)
    requires
        garbage_matches(i, out),
    ensures
        out.compacted.pinned_count == i.compacted_listing@.filter(held_by_a_pin(i.latest, i.pinned@)).len(),
        out.compacted.pinned_bytes == compacted_size_sum(i.compacted_listing@.filter(held_by_a_pin(i.latest, i.pinned@))),
        out.compacted.reclaimable_count == i.compacted_listing@.filter(held_by_none(i.latest, i.pinned@)).len(),
        out.compacted.reclaimable_bytes == compacted_size_sum(
            i.compacted_listing@.filter(held_by_none(i.latest, i.pinned@)),
        ),
{
    let latest = i.latest;
    let pinned = i.pinned@;
    assert forall|e: CompactedEntry| #[trigger] held_by_a_pin(latest, pinned)(e) == (compacted_class(
        latest,
        pinned,
        e.ulid,
    ) == Class::Pinned) by {}
    assert forall|e: CompactedEntry| #[trigger] held_by_none(latest, pinned)(e) == (compacted_class(
        latest,
        pinned,
        e.ulid,
    ) == Class::Reclaimable) by {
        if !latest.compacted@.contains(e.ulid) && !(exists|k: int|
            0 <= k < pinned.len() && (#[trigger] pinned[k]).compacted@.contains(e.ulid)) {
            assert forall|k: int| 0 <= k < pinned.len() implies !(#[trigger] pinned[k]).compacted@.contains(e.ulid) by {}
        }
    }
    lemma_classified_filter(latest, pinned, i.compacted_listing@, Class::Pinned, held_by_a_pin(latest, pinned));
    lemma_classified_filter(latest, pinned, i.compacted_listing@, Class::Reclaimable, held_by_none(latest, pinned));
}

} // verus!
