//! Health warnings about a manifest: expired checkpoints, checkpoints whose
//! manifest is gone, L0 backlogs per tree, a stale latest manifest and a
//! large un-replayed WAL window.

use std::collections::HashSet;
use vstd::prelude::*;
use crate::dto::{ManifestDto, CheckpointDto, SegmentDto, WarningDto, UtcTime};
use crate::text::{dec, push_dec, push_str, string_from};

verus! {

/// slatedb's default `l0_max_ssts`; the writer's actual setting isn't
/// recorded in the manifest, so warn at the default.
pub const L0_WARN_COUNT: usize = 8;

/// How stale the latest manifest may be, in minutes, before an
/// informational notice.
pub const STALE_MANIFEST_AFTER_MINS: i64 = 10;

/// Un-replayed WAL SSTs before warning about replay backlog.
pub const WAL_WINDOW_WARN: u64 = 100;

pub struct WarningInputs<'a> {
    pub manifest: &'a ManifestDto,
    /// Manifest ids that still exist in the object store.
    pub live_manifest_ids: &'a HashSet<u64>,
    pub latest_manifest_written_at: Option<UtcTime>,
    /// Passed in so the rules are testable with a fixed clock.
    pub now: UtcTime,
}

/// A warning as (code, severity, message) texts.
pub type WarningView = (Seq<char>, Seq<char>, Seq<char>);

/// Warnings as (code, severity, message) texts.
pub open spec fn warning_views(s: Seq<WarningDto>) -> Seq<WarningView> {
    s.map_values(|w: WarningDto| (w.code@, w.severity@, w.message@))
}

/// Checkpoints whose expiry lies strictly before `now`.
pub open spec fn expired_at(now: UtcTime) -> spec_fn(CheckpointDto) -> bool {
    |c: CheckpointDto|
        match c.expire_time {
            Some(t) => t.precedes(now),
            None => false,
        }
}

/// Checkpoints whose manifest is not among `live`.
pub open spec fn manifest_gone(live: Set<u64>) -> spec_fn(CheckpointDto) -> bool {
    |c: CheckpointDto| !live.contains(c.manifest_id)
}

/// "s" for a count above one.
pub open spec fn plural(n: nat) -> Seq<char> {
    if n > 1 {
        "s"@
    } else {
        ""@
    }
}

pub open spec fn expired_warning(n: nat) -> Seq<WarningView> {
    if n > 0 {
        seq![
            ("expired_checkpoint"@, "warn"@, dec(n) + " expired checkpoint"@ + plural(n)
                + " still in the manifest — is the garbage collector running?"@),
        ]
    } else {
        seq![]
    }
}

pub open spec fn gone_warning(g: Seq<CheckpointDto>) -> Seq<WarningView> {
    if g.len() > 0 {
        seq![
            ("checkpoint_manifest_gced"@, "error"@, dec(g.len()) + " checkpoint"@ + plural(g.len())
                + " reference manifest versions that no longer exist (e.g. #"@ + dec(g[0].manifest_id as nat)
                + ")"@),
        ]
    } else {
        seq![]
    }
}

/// Each tree of the manifest, root first, as (location, L0 SST count).
pub open spec fn tree_places(m: ManifestDto) -> Seq<(Seq<char>, nat)> {
    seq![("L0"@, m.tree.l0@.len())] + m.segments@.map_values(
        |s: SegmentDto| ("segment 0x"@ + s.prefix.hex@, s.tree.l0@.len()),
    )
}

/// Trees whose L0 holds at least `L0_WARN_COUNT` SSTs.
pub open spec fn l0_backlogged() -> spec_fn((Seq<char>, nat)) -> bool {
    |p: (Seq<char>, nat)| p.1 >= L0_WARN_COUNT
}

pub open spec fn l0_warning_of(p: (Seq<char>, nat)) -> WarningView {
    ("l0_backlog"@, "warn"@, dec(p.1) + " L0 SSTs in "@ + p.0 + " (slatedb's default flush cap is "@
        + dec(L0_WARN_COUNT as nat) + ") — is the compactor keeping up?"@)
}

pub open spec fn l0_warnings(m: ManifestDto) -> Seq<WarningView> {
    tree_places(m).filter(l0_backlogged()).map_values(|p: (Seq<char>, nat)| l0_warning_of(p))
}

/// More than `STALE_MANIFEST_AFTER_MINS` minutes lie between `at` and `now`.
pub open spec fn stale(at: UtcTime, now: UtcTime) -> bool {
    now.total_nanos() - at.total_nanos() > STALE_MANIFEST_AFTER_MINS * 60_000_000_000
}

pub open spec fn stale_warning(at: Option<UtcTime>, now: UtcTime) -> Seq<WarningView> {
    match at {
        Some(t) => if stale(t, now) {
            seq![
                ("stale_manifest"@, "info"@, "no manifest update in over "@ + dec(STALE_MANIFEST_AFTER_MINS as nat)
                    + " minutes — the DB may simply be idle"@),
            ]
        } else {
            seq![]
        },
        None => seq![],
    }
}

/// WAL SSTs after the replay point and before the next id, saturating at 0.
pub open spec fn wal_window(m: ManifestDto) -> u64 {
    m.next_wal_sst_id.saturating_sub(1).saturating_sub(m.replay_after_wal_id)
}

pub open spec fn wal_warning(w: u64) -> Seq<WarningView> {
    if w > WAL_WINDOW_WARN {
        seq![
            ("wal_window_large"@, "warn"@, dec(w as nat)
                + " un-replayed WAL SSTs — restart replay will be slow and L0 flushes may be falling behind"@),
        ]
    } else {
        seq![]
    }
}

/// The warnings for a manifest, in rule order.
pub open spec fn expected_warnings(m: ManifestDto, live: Set<u64>, written_at: Option<UtcTime>, now: UtcTime) -> Seq<
    WarningView,
> {
    expired_warning(m.checkpoints@.filter(expired_at(now)).len())
        + gone_warning(m.checkpoints@.filter(manifest_gone(live)))
        + l0_warnings(m)
        + stale_warning(written_at, now)
        + wal_warning(wal_window(m))
}

/// Number of checkpoints that expired before `now`.
fn count_expired(cps: &Vec<CheckpointDto>, now: &UtcTime) -> (r: usize)
    ensures
        r == cps@.filter(expired_at(*now)).len(),
{
    let mut n: usize = 0;
    let mut i: usize = 0;
    while i < cps.len()
        invariant
            i <= cps.len(),
            n == cps@.take(i as int).filter(expired_at(*now)).len(),
            n <= i,
        decreases cps.len() - i,
    {
        proof {
            assert(cps@.take(i + 1) =~= cps@.take(i as int).push(cps@[i as int]));
            cps@.take(i as int).lemma_filter_push(cps@[i as int], expired_at(*now));
        }
        let hit = match cps[i].expire_time {
            Some(t) => t.is_before(now),
            None => false,
        };
        if hit {
            n = n + 1;
        }
        i = i + 1;
    }
    assert(cps@.take(cps.len() as int) =~= cps@);
    n
}

/// Manifest ids of the checkpoints whose manifest is not in `live`.
fn gone_manifest_ids(cps: &Vec<CheckpointDto>, live: &HashSet<u64>) -> (r: Vec<u64>)
    ensures
        r@ == cps@.filter(manifest_gone(live@)).map_values(|c: CheckpointDto| c.manifest_id),
{
    broadcast use vstd::std_specs::hash::group_hash_axioms;
    let mut out: Vec<u64> = Vec::new();
    let mut i: usize = 0;
    while i < cps.len()
        invariant
            i <= cps.len(),
            out@ == cps@.take(i as int).filter(manifest_gone(live@)).map_values(|c: CheckpointDto| c.manifest_id),
        decreases cps.len() - i,
    {
        let ghost f = cps@.take(i as int).filter(manifest_gone(live@));
        proof {
            assert(cps@.take(i + 1) =~= cps@.take(i as int).push(cps@[i as int]));
            cps@.take(i as int).lemma_filter_push(cps@[i as int], manifest_gone(live@));
        }
        let id = cps[i].manifest_id;
        if !live.contains(&id) {
            out.push(id);
            proof {
                assert(f.push(cps@[i as int]).map_values(|c: CheckpointDto| c.manifest_id) =~= f.map_values(
                    |c: CheckpointDto| c.manifest_id,
                ).push(id));
            }
        }
        i = i + 1;
    }
    assert(cps@.take(cps.len() as int) =~= cps@);
    out
}

/// Appends the L0 backlog warning for one tree when it is due.
fn push_l0_warning(out: &mut Vec<WarningDto>, location: &Vec<char>, l0_len: usize)
    ensures
        warning_views(final(out)@) == warning_views(old(out)@) + (if l0_len >= L0_WARN_COUNT {
            seq![l0_warning_of((location@, l0_len as nat))]
        } else {
            seq![]
        }),
{
    let ghost before = out@;
    if l0_len >= L0_WARN_COUNT {
        let mut msg: Vec<char> = Vec::new();
        push_dec(&mut msg, l0_len as u64);
        push_str(&mut msg, " L0 SSTs in ");
        let mut i: usize = 0;
        while i < location.len()
            invariant
                i <= location.len(),
                msg@ == dec(l0_len as nat) + " L0 SSTs in "@ + location@.take(i as int),
            decreases location.len() - i,
        {
            msg.push(location[i]);
            i = i + 1;
            assert(msg@ =~= dec(l0_len as nat) + " L0 SSTs in "@ + location@.take(i as int));
        }
        push_str(&mut msg, " (slatedb's default flush cap is ");
        push_dec(&mut msg, L0_WARN_COUNT as u64);
        push_str(&mut msg, ") — is the compactor keeping up?");
        assert(location@.take(location.len() as int) =~= location@);
        assert(msg@ =~= l0_warning_of((location@, l0_len as nat)).2);
        out.push(WarningDto { code: "l0_backlog", severity: "warn", message: string_from(&msg) });
        assert(warning_views(out@) =~= warning_views(before) + seq![l0_warning_of((location@, l0_len as nat))]);
    } else {
        assert(warning_views(out@) =~= warning_views(before) + seq![]);
    }
}

/// Whether more than the stale limit lies between `at` and `now`.
fn is_stale(at: &UtcTime, now: &UtcTime) -> (r: bool)
    ensures
        r == stale(*at, *now),
{
    let diff: i128 = (now.secs as i128 - at.secs as i128) * 1_000_000_000i128 + (now.nanos as i128
        - at.nanos as i128);
    diff > (STALE_MANIFEST_AFTER_MINS as i128) * 60_000_000_000i128
}

/// The health warnings for a manifest, in a fixed rule order: expired
/// checkpoints, checkpoints whose manifest is gone, the L0 backlog of each
/// tree (root first, then each segment), a stale latest manifest, and a
/// large WAL replay window.
pub fn compute_warnings(i: &WarningInputs) -> (r: Vec<WarningDto>)
    ensures
        warning_views(r@) == expected_warnings(
            *i.manifest,
            i.live_manifest_ids@,
            i.latest_manifest_written_at,
            i.now,
        ),
{
    let m = i.manifest;
    let mut out: Vec<WarningDto> = Vec::new();
    assert(warning_views(out@) =~= Seq::empty());

    let expired = count_expired(&m.checkpoints, &i.now);
    let ghost e = expired_warning(expired as nat);
    if expired > 0 {
        let mut msg: Vec<char> = Vec::new();
        push_dec(&mut msg, expired as u64);
        push_str(&mut msg, " expired checkpoint");
        if expired > 1 {
            push_str(&mut msg, "s");
        } else {
            push_str(&mut msg, "");
        }
        push_str(&mut msg, " still in the manifest — is the garbage collector running?");
        assert(msg@ =~= e[0].2);
        out.push(WarningDto { code: "expired_checkpoint", severity: "warn", message: string_from(&msg) });
    }
    assert(warning_views(out@) =~= e);

    let gone = gone_manifest_ids(&m.checkpoints, i.live_manifest_ids);
    let ghost g = m.checkpoints@.filter(manifest_gone(i.live_manifest_ids@));
    let ghost before = out@;
    if gone.len() > 0 {
        let mut msg: Vec<char> = Vec::new();
        push_dec(&mut msg, gone.len() as u64);
        push_str(&mut msg, " checkpoint");
        if gone.len() > 1 {
            push_str(&mut msg, "s");
        } else {
            push_str(&mut msg, "");
        }
        push_str(&mut msg, " reference manifest versions that no longer exist (e.g. #");
        push_dec(&mut msg, gone[0]);
        push_str(&mut msg, ")");
        assert(gone@[0] == g[0].manifest_id);
        assert(msg@ =~= gone_warning(g)[0].2);
        out.push(WarningDto { code: "checkpoint_manifest_gced", severity: "error", message: string_from(&msg) });
    }
    assert(warning_views(out@) =~= warning_views(before) + gone_warning(g));

    let ghost places = tree_places(*m);
    let ghost before_l0 = out@;
    let root: Vec<char> = vec!['L', '0'];
    proof {
        reveal_strlit("L0");
        assert(root@ =~= "L0"@);
    }
    push_l0_warning(&mut out, &root, m.tree.l0.len());
    proof {
        assert(places.take(1) =~= seq![places[0]]);
        assert(seq![places[0]] =~= Seq::<(Seq<char>, nat)>::empty().push(places[0]));
        Seq::<(Seq<char>, nat)>::empty().lemma_filter_push(places[0], l0_backlogged());
        reveal(Seq::filter);
        assert(warning_views(out@) =~= warning_views(before_l0) + places.take(1).filter(l0_backlogged()).map_values(
            |p: (Seq<char>, nat)| l0_warning_of(p),
        ));
    }
    let mut s: usize = 0;
    while s < m.segments.len()
        invariant
            s <= m.segments.len(),
            places == tree_places(*m),
            places.len() == m.segments@.len() + 1,
            warning_views(out@) == warning_views(before_l0) + places.take(s + 1).filter(l0_backlogged()).map_values(
                |p: (Seq<char>, nat)| l0_warning_of(p),
            ),
        decreases m.segments.len() - s,
    {
        let seg = &m.segments[s];
        let mut loc: Vec<char> = Vec::new();
        push_str(&mut loc, "segment 0x");
        push_str(&mut loc, seg.prefix.hex.as_str());
        let ghost f = places.take(s + 1).filter(l0_backlogged());
        let ghost p = places[s + 1];
        proof {
            assert(p == ("segment 0x"@ + seg.prefix.hex@, seg.tree.l0@.len()));
            assert(loc@ =~= p.0);
            assert(places.take(s + 2) =~= places.take(s + 1).push(p));
            places.take(s + 1).lemma_filter_push(p, l0_backlogged());
        }
        let ghost mid = out@;
        push_l0_warning(&mut out, &loc, seg.tree.l0.len());
        proof {
            assert(f.push(p).map_values(|q: (Seq<char>, nat)| l0_warning_of(q)) =~= f.map_values(
                |q: (Seq<char>, nat)| l0_warning_of(q),
            ).push(l0_warning_of(p)));
            assert(warning_views(out@) =~= warning_views(before_l0) + places.take(s + 2).filter(l0_backlogged()).map_values(
                |q: (Seq<char>, nat)| l0_warning_of(q),
            ));
        }
        s = s + 1;
    }
    proof {
        assert(places.take(m.segments.len() + 1) =~= places);
    }

    let ghost before_stale = out@;
    match &i.latest_manifest_written_at {
        Some(at) => {
            if is_stale(at, &i.now) {
                let mut msg: Vec<char> = Vec::new();
                push_str(&mut msg, "no manifest update in over ");
                push_dec(&mut msg, STALE_MANIFEST_AFTER_MINS as u64);
                push_str(&mut msg, " minutes — the DB may simply be idle");
                assert(msg@ =~= stale_warning(i.latest_manifest_written_at, i.now)[0].2);
                out.push(WarningDto { code: "stale_manifest", severity: "info", message: string_from(&msg) });
            }
        },
        None => {},
    }
    assert(warning_views(out@) =~= warning_views(before_stale) + stale_warning(i.latest_manifest_written_at, i.now));

    let window = m.next_wal_sst_id.saturating_sub(1).saturating_sub(m.replay_after_wal_id);
    let ghost before_wal = out@;
    if window > WAL_WINDOW_WARN {
        let mut msg: Vec<char> = Vec::new();
        push_dec(&mut msg, window);
        push_str(&mut msg, " un-replayed WAL SSTs — restart replay will be slow and L0 flushes may be falling behind");
        assert(msg@ =~= wal_warning(window)[0].2);
        out.push(WarningDto { code: "wal_window_large", severity: "warn", message: string_from(&msg) });
    }
    assert(warning_views(out@) =~= warning_views(before_wal) + wal_warning(window));
    out
}

/// Some element of `s` passes `p` exactly when filtering `s` by `p` keeps
/// something.
proof fn lemma_filter_nonempty<T>(s: Seq<T>, p: spec_fn(T) -> bool)
    ensures
        s.filter(p).len() > 0 <==> exists|i: int| 0 <= i < s.len() && #[trigger] p(s[i]),
{
    s.filter_lemma(p);
    if s.filter(p).len() > 0 {
        let x = s.filter(p)[0];
        assert(p(x));
        s.lemma_filter_contains_rev(p, x);
        let i = choose|i: int| 0 <= i < s.len() && s[i] == x;
        assert(p(s[i]));
    }
    if exists|i: int| 0 <= i < s.len() && #[trigger] p(s[i]) {
        let i = choose|i: int| 0 <= i < s.len() && #[trigger] p(s[i]);
        assert(s.filter(p).contains(s[i]));
    }
}

/// The health warnings raise an expired-checkpoint warning exactly when
/// some checkpoint of the manifest has an expiry strictly before `now`
/// (earlier seconds, or the same second and fewer nanoseconds); a
/// checkpoint that expires at or after `now`, or never, raises none. The
/// warning comes first, once.
pub proof fn lemma_expired_warning_exactly_when_expired(
    m: ManifestDto,
    live: Set<u64>,
    written_at: Option<UtcTime>,
    now: UtcTime,
    r: Seq<WarningView>,
)
    requires
        r == expected_warnings(m, live, written_at, now),
    ensures
        (exists|i: int| 0 <= i < r.len() && (#[trigger] r[i]).0 == "expired_checkpoint"@) <==> exists|j: int|
            0 <= j < m.checkpoints@.len() && (#[trigger] m.checkpoints@[j]).expire_time is Some && (
            m.checkpoints@[j].expire_time->0.secs < now.secs || (m.checkpoints@[j].expire_time->0.secs == now.secs
                && m.checkpoints@[j].expire_time->0.nanos < now.nanos)),
        forall|i: int| 0 < i < r.len() ==> (#[trigger] r[i]).0 != "expired_checkpoint"@,
{
    reveal_strlit("expired_checkpoint");
    reveal_strlit("checkpoint_manifest_gced");
    reveal_strlit("l0_backlog");
    reveal_strlit("stale_manifest");
    reveal_strlit("wal_window_large");
    let cps = m.checkpoints@;
    let p = expired_at(now);
    lemma_filter_nonempty(cps, p);
    let e = expired_warning(cps.filter(p).len());
    let rest = gone_warning(cps.filter(manifest_gone(live))) + l0_warnings(m) + stale_warning(written_at, now)
        + wal_warning(wal_window(m));
    assert(r =~= e + rest);
    let g = gone_warning(cps.filter(manifest_gone(live)));
    let l = l0_warnings(m);
    let st = stale_warning(written_at, now);
    let w = wal_warning(wal_window(m));
    let tp = tree_places(m).filter(l0_backlogged());
    assert forall|k: int| 0 <= k < l.len() implies (#[trigger] l[k]).0 == "l0_backlog"@ by {
        assert(l[k] == l0_warning_of(tp[k]));
    }
    assert(rest =~= g + l + st + w);
    assert forall|k: int| 0 <= k < rest.len() implies (#[trigger] rest[k]).0 != "expired_checkpoint"@ by {
        let gl = g + l;
        let gls = gl + st;
        let x = "expired_checkpoint"@;
        assert(x.len() == 18);
        if k < g.len() {
            assert(rest[k] == g[k]);
            assert(g[k].0 == "checkpoint_manifest_gced"@);
            assert(g[k].0.len() != x.len());
        } else if k < g.len() + l.len() {
            assert(rest[k] == l[k - g.len()]);
            assert(l[k - g.len()].0.len() != x.len());
        } else if k < g.len() + l.len() + st.len() {
            assert(rest[k] == st[k - g.len() - l.len()]);
            assert(st[k - g.len() - l.len()].0 == "stale_manifest"@);
            assert(st[k - g.len() - l.len()].0.len() != x.len());
        } else {
            assert(rest[k] == w[k - g.len() - l.len() - st.len()]);
            assert(w[k - g.len() - l.len() - st.len()].0 == "wal_window_large"@);
            assert(w[k - g.len() - l.len() - st.len()].0.len() != x.len());
        }
    }
    if exists|i: int| 0 <= i < r.len() && (#[trigger] r[i]).0 == "expired_checkpoint"@ {
        let i = choose|i: int| 0 <= i < r.len() && (#[trigger] r[i]).0 == "expired_checkpoint"@;
        if i >= e.len() {
            assert(r[i] == rest[i - e.len()]);
        }
        assert(e.len() > 0);
        let j = choose|j: int| 0 <= j < cps.len() && #[trigger] p(cps[j]);
        assert(p(cps[j]));
    }
    if exists|j: int|
        0 <= j < cps.len() && (#[trigger] cps[j]).expire_time is Some && (cps[j].expire_time->0.secs < now.secs || (
        cps[j].expire_time->0.secs == now.secs && cps[j].expire_time->0.nanos < now.nanos)) {
        let j = choose|j: int|
            0 <= j < cps.len() && (#[trigger] cps[j]).expire_time is Some && (cps[j].expire_time->0.secs < now.secs
                || (cps[j].expire_time->0.secs == now.secs && cps[j].expire_time->0.nanos < now.nanos));
        assert(p(cps[j]));
        assert(r[0] == e[0]);
    }
    assert forall|i: int| 0 < i < r.len() implies (#[trigger] r[i]).0 != "expired_checkpoint"@ by {
        if i < e.len() {
            assert(e.len() <= 1);
        } else {
            assert(r[i] == rest[i - e.len()]);
        }
    }
}

} // verus!
