//! Prometheus gauges for the discovered databases: their values from a
//! manifest and its listing, label escaping, and grouping per metric.

use vstd::prelude::*;
use crate::dto::ManifestDto;
use crate::listing::ManifestEntry;
use crate::convert::{manifest_totals, totals_fit, all_trees, tree_sum, l0_count_of, run_count_of, sst_count_of,
    l0_bytes_of, total_bytes_of};
use crate::text::{chars_of, dec_signed, push_all, push_dec_i128, push_str, str_eq, string_chars};

verus! {

/// The escape of one character in a label value.
pub open spec fn escaped_char(c: char) -> Seq<char> {
    if c == '\\' {
        seq!['\\', '\\']
    } else if c == '"' {
        seq!['\\', '"']
    } else if c == '\n' {
        seq!['\\', 'n']
    } else {
        seq![c]
    }
}

/// A label value with backslash, double quote and newline escaped.
pub open spec fn escaped(s: Seq<char>) -> Seq<char>
    decreases s.len(),
{
    if s.len() == 0 {
        seq![]
    } else {
        escaped(s.drop_last()) + escaped_char(s.last())
    }
}

/// Escapes a label value for the exposition format.
pub fn escape_label(v: &str) -> (r: String)
    ensures
        r@ == escaped(v@),
{
    let cs = chars_of(v);
    let mut out: Vec<char> = Vec::new();
    let mut i: usize = 0;
    while i < cs.len()
        invariant
            i <= cs@.len(),
            cs@ == v@,
            out@ == escaped(cs@.take(i as int)),
        decreases cs@.len() - i,
    {
        let c = cs[i];
        let ghost before = out@;
        if c == '\\' {
            out.push('\\');
            out.push('\\');
        } else if c == '"' {
            out.push('\\');
            out.push('"');
        } else if c == '\n' {
            out.push('\\');
            out.push('n');
        } else {
            out.push(c);
        }
        proof {
            assert(cs@.take(i + 1).drop_last() =~= cs@.take(i as int));
            assert(cs@.take(i + 1).last() == c);
            assert(out@ =~= before + escaped_char(c));
        }
        i = i + 1;
    }
    assert(cs@.take(cs@.len() as int) =~= cs@);
    crate::text::string_from(&out)
}

/// A gauge: metric name, help text and value.
#[derive(Clone, Copy, Debug)]
pub struct Gauge {
    pub name: &'static str,
    pub help: &'static str,
    pub value: i128,
}

/// A gauge as (name, help, value).
pub type GaugeView = (Seq<char>, Seq<char>, int);

pub open spec fn gauge_views(s: Seq<Gauge>) -> Seq<GaugeView> {
    s.map_values(|g: Gauge| (g.name@, g.help@, g.value as int))
}

/// The gauges of one database: whether its latest manifest could be read,
/// that manifest's figures, and its manifest listing's.
pub open spec fn gauges_for(m: Option<ManifestDto>, entries: Option<Seq<ManifestEntry>>) -> Seq<GaugeView> {
    let up = seq![("slatedb_up"@, "Whether the latest manifest could be read"@, if m is Some { 1int } else { 0int })];
    let of_manifest = match m {
        None => seq![],
        Some(d) => {
            let ts = all_trees(d);
            let wal_window = d.next_wal_sst_id.saturating_sub(1).saturating_sub(d.replay_after_wal_id);
            seq![
                ("slatedb_manifest_id"@, "Latest manifest id"@, d.id as int),
                ("slatedb_total_bytes"@, "Estimated total size of L0 plus all sorted runs"@, tree_sum(ts, total_bytes_of())),
                ("slatedb_l0_bytes"@, "Estimated L0 size"@, tree_sum(ts, l0_bytes_of())),
                ("slatedb_l0_count"@, "Number of L0 SSTs"@, tree_sum(ts, l0_count_of())),
                ("slatedb_sorted_run_count"@, "Number of sorted runs"@, tree_sum(ts, run_count_of())),
                ("slatedb_sst_count"@, "Total SSTs in the tree"@, tree_sum(ts, sst_count_of())),
                ("slatedb_writer_epoch"@, "Writer epoch"@, d.writer_epoch as int),
                ("slatedb_compactor_epoch"@, "Compactor epoch"@, d.compactor_epoch as int),
                ("slatedb_wal_window"@, "WAL SSTs not yet replayed into L0"@, wal_window as int),
                ("slatedb_checkpoint_count"@, "Checkpoints in the latest manifest"@, d.checkpoints@.len() as int),
                ("slatedb_clone_count"@, "External DBs (clone parents) referenced"@, d.external_dbs@.len() as int),
                ("slatedb_last_l0_seq"@, "Last sequence number flushed to L0"@, d.last_l0_seq as int),
            ]
        },
    };
    let of_listing = match entries {
        None => seq![],
        Some(es) => seq![("slatedb_manifest_count"@, "Manifest versions retained in the object store"@, es.len() as int)]
            + if es.len() > 0 {
            seq![
                ("slatedb_last_manifest_write_timestamp_seconds"@, "Unix time of the newest manifest write"@, es.last().last_modified.secs as int),
            ]
        } else {
            seq![]
        },
    };
    up + of_manifest + of_listing
}

/// The gauges of one database from its latest manifest and manifest
/// listing, either of which may be unavailable.
pub fn collect_gauges(m: Option<&ManifestDto>, entries: Option<&Vec<ManifestEntry>>) -> (r: Vec<Gauge>)
    requires
        m matches Some(d) ==> totals_fit(*d),
    ensures
        gauge_views(r@) == gauges_for(
            match m {
                Some(d) => Some(*d),
                None => None,
            },
            match entries {
                Some(e) => Some(e@),
                None => None,
            },
        ),
{
    let mut out: Vec<Gauge> = Vec::new();
    out.push(
        Gauge {
            name: "slatedb_up",
            help: "Whether the latest manifest could be read",
            value: if m.is_some() {
                1
            } else {
                0
            },
        },
    );
    match m {
        None => {},
        Some(dto) => {
            let (l0_count, run_count, sst_count, l0_bytes, total_bytes) = manifest_totals(dto);
            let wal_window = dto.next_wal_sst_id.saturating_sub(1).saturating_sub(dto.replay_after_wal_id);
            out.push(Gauge { name: "slatedb_manifest_id", help: "Latest manifest id", value: dto.id as i128 });
            out.push(
                Gauge {
                    name: "slatedb_total_bytes",
                    help: "Estimated total size of L0 plus all sorted runs",
                    value: total_bytes as i128,
                },
            );
            out.push(Gauge { name: "slatedb_l0_bytes", help: "Estimated L0 size", value: l0_bytes as i128 });
            out.push(Gauge { name: "slatedb_l0_count", help: "Number of L0 SSTs", value: l0_count as i128 });
            out.push(Gauge { name: "slatedb_sorted_run_count", help: "Number of sorted runs", value: run_count as i128 });
            out.push(Gauge { name: "slatedb_sst_count", help: "Total SSTs in the tree", value: sst_count as i128 });
            out.push(Gauge { name: "slatedb_writer_epoch", help: "Writer epoch", value: dto.writer_epoch as i128 });
            out.push(
                Gauge { name: "slatedb_compactor_epoch", help: "Compactor epoch", value: dto.compactor_epoch as i128 },
            );
            out.push(
                Gauge {
                    name: "slatedb_wal_window",
                    help: "WAL SSTs not yet replayed into L0",
                    value: wal_window as i128,
                },
            );
            out.push(
                Gauge {
                    name: "slatedb_checkpoint_count",
                    help: "Checkpoints in the latest manifest",
                    value: dto.checkpoints.len() as i128,
                },
            );
            out.push(
                Gauge {
                    name: "slatedb_clone_count",
                    help: "External DBs (clone parents) referenced",
                    value: dto.external_dbs.len() as i128,
                },
            );
            out.push(
                Gauge {
                    name: "slatedb_last_l0_seq",
                    help: "Last sequence number flushed to L0",
                    value: dto.last_l0_seq as i128,
                },
            );
        },
    }
    match entries {
        None => {},
        Some(es) => {
            out.push(
                Gauge {
                    name: "slatedb_manifest_count",
                    help: "Manifest versions retained in the object store",
                    value: es.len() as i128,
                },
            );
            if es.len() > 0 {
                out.push(
                    Gauge {
                        name: "slatedb_last_manifest_write_timestamp_seconds",
                        help: "Unix time of the newest manifest write",
                        value: es[es.len() - 1].last_modified.secs as i128,
                    },
                );
            }
        },
    }
    let ghost mv = match m {
        Some(d) => Some(*d),
        None => None,
    };
    let ghost ev = match entries {
        Some(e) => Some(e@),
        None => None,
    };
    assert(gauge_views(out@) =~= gauges_for(mv, ev));
    out
}

/// The samples of every database, in order: each gauge beside the
/// database's (unescaped) label.
pub open spec fn row_samples(db: Seq<char>, gs: Seq<Gauge>) -> Seq<(Seq<char>, Gauge)> {
    gs.map_values(|g: Gauge| (db, g))
}

pub open spec fn samples(per: Seq<(String, Vec<Gauge>)>) -> Seq<(Seq<char>, Gauge)>
    decreases per.len(),
{
    if per.len() == 0 {
        seq![]
    } else {
        samples(per.drop_last()) + row_samples(per.last().0@, per.last().1@)
    }
}

/// Whether a gauge named `name` is in `order`.
pub open spec fn has_name(order: Seq<Gauge>, name: Seq<char>) -> bool {
    exists|i: int| 0 <= i < order.len() && (#[trigger] order[i]).name@ == name
}

/// The first gauge of each metric name, in first-seen order.
pub open spec fn first_seen(s: Seq<(Seq<char>, Gauge)>) -> Seq<Gauge>
    decreases s.len(),
{
    if s.len() == 0 {
        seq![]
    } else {
        let prev = first_seen(s.drop_last());
        if has_name(prev, s.last().1.name@) {
            prev
        } else {
            prev.push(s.last().1)
        }
    }
}

/// One exposition line: `name{db="label"} value`.
pub open spec fn sample_line(name: Seq<char>, db: Seq<char>, value: int) -> Seq<char> {
    name + "{db=\""@ + escaped(db) + "\"} "@ + dec_signed(value) + seq!['\n']
}

/// The lines of every sample of metric `name`, in sample order.
pub open spec fn lines_for(name: Seq<char>, s: Seq<(Seq<char>, Gauge)>) -> Seq<char>
    decreases s.len(),
{
    if s.len() == 0 {
        seq![]
    } else {
        lines_for(name, s.drop_last()) + if s.last().1.name@ == name {
            sample_line(name, s.last().0, s.last().1.value as int)
        } else {
            seq![]
        }
    }
}

/// The HELP and TYPE lines of a metric.
pub open spec fn header(g: Gauge) -> Seq<char> {
    "# HELP "@ + g.name@ + " "@ + g.help@ + "\n# TYPE "@ + g.name@ + " gauge\n"@
}

pub open spec fn blocks(order: Seq<Gauge>, s: Seq<(Seq<char>, Gauge)>) -> Seq<char>
    decreases order.len(),
{
    if order.len() == 0 {
        seq![]
    } else {
        blocks(order.drop_last(), s) + header(order.last()) + lines_for(order.last().name@, s)
    }
}

/// The exposition text of every database's gauges: one HELP/TYPE block per
/// metric name in first-seen order, each with the samples of that metric.
pub open spec fn rendered(per: Seq<(String, Vec<Gauge>)>) -> Seq<char> {
    blocks(first_seen(samples(per)), samples(per))
}

pub open spec fn flat_view(f: Seq<(String, Gauge)>) -> Seq<(Seq<char>, Gauge)> {
    f.map_values(|p: (String, Gauge)| (p.0@, p.1))
}

fn flatten(per_db: &Vec<(String, Vec<Gauge>)>) -> (r: Vec<(String, Gauge)>)
    ensures
        flat_view(r@) == samples(per_db@),
{
    let mut flat: Vec<(String, Gauge)> = Vec::new();
    let mut i: usize = 0;
    while i < per_db.len()
        invariant
            i <= per_db@.len(),
            flat_view(flat@) == samples(per_db@.take(i as int)),
        decreases per_db@.len() - i,
    {
        let row = &per_db[i];
        let mut j: usize = 0;
        while j < row.1.len()
            invariant
                i < per_db@.len(),
                *row == per_db@[i as int],
                j <= row.1@.len(),
                flat_view(flat@) == samples(per_db@.take(i as int)) + row_samples(row.0@, row.1@.take(j as int)),
            decreases row.1@.len() - j,
        {
            let ghost before = flat@;
            flat.push((row.0.clone(), row.1[j]));
            proof {
                assert(flat@ == before.push((row.0, row.1@[j as int])));
                assert(row_samples(row.0@, row.1@.take(j + 1)) =~= row_samples(row.0@, row.1@.take(j as int)).push(
                    (row.0@, row.1@[j as int]),
                ));
                assert(flat_view(flat@) =~= flat_view(before).push((row.0@, row.1@[j as int])));
            }
            j = j + 1;
        }
        proof {
            assert(row.1@.take(row.1@.len() as int) =~= row.1@);
            assert(per_db@.take(i + 1).drop_last() =~= per_db@.take(i as int));
        }
        i = i + 1;
    }
    assert(per_db@.take(per_db@.len() as int) =~= per_db@);
    flat
}

fn find_name(order: &Vec<Gauge>, name: &str) -> (found: bool)
    ensures
        found == has_name(order@, name@),
{
    let mut k: usize = 0;
    while k < order.len()
        invariant
            k <= order@.len(),
            forall|q: int| 0 <= q < k ==> (#[trigger] order@[q]).name@ != name@,
        decreases order@.len() - k,
    {
        if str_eq(order[k].name, name) {
            assert(order@[k as int].name@ == name@);
            return true;
        }
        k = k + 1;
    }
    false
}

fn push_line(out: &mut Vec<char>, name: &str, db: &String, value: i128)
    ensures
        final(out)@ == old(out)@ + sample_line(name@, db@, value as int),
{
    push_str(out, name);
    push_str(out, "{db=\"");
    let esc = escape_label(db.as_str());
    let ec = string_chars(&esc);
    push_all(out, &ec);
    push_str(out, "\"} ");
    push_dec_i128(out, value);
    out.push('\n');
    assert(final(out)@ =~= old(out)@ + sample_line(name@, db@, value as int));
}

/// Renders every database's gauges in the exposition format, one HELP/TYPE
/// block per metric name in first-seen order, labelled `db="..."`.
pub fn render_grouped(per_db: &Vec<(String, Vec<Gauge>)>) -> (r: String)
    ensures
        r@ == rendered(per_db@),
{
    let flat = flatten(per_db);
    let ghost fv = flat_view(flat@);
    let mut order: Vec<Gauge> = Vec::new();
    let mut k: usize = 0;
    while k < flat.len()
        invariant
            k <= flat@.len(),
            fv == flat_view(flat@),
            order@ == first_seen(fv.take(k as int)),
        decreases flat@.len() - k,
    {
        let g = flat[k].1;
        let seen = find_name(&order, g.name);
        proof {
            assert(fv.take(k + 1).drop_last() =~= fv.take(k as int));
            assert(fv.take(k + 1).last() == fv[k as int]);
        }
        if !seen {
            order.push(g);
        }
        k = k + 1;
    }
    assert(fv.take(flat@.len() as int) =~= fv);
    let mut out: Vec<char> = Vec::new();
    let mut o: usize = 0;
    while o < order.len()
        invariant
            o <= order@.len(),
            fv == flat_view(flat@),
            out@ == blocks(order@.take(o as int), fv),
        decreases order@.len() - o,
    {
        let g = order[o];
        let ghost start = out@;
        push_str(&mut out, "# HELP ");
        push_str(&mut out, g.name);
        push_str(&mut out, " ");
        push_str(&mut out, g.help);
        push_str(&mut out, "\n# TYPE ");
        push_str(&mut out, g.name);
        push_str(&mut out, " gauge\n");
        assert(out@ =~= start + header(g));
        let mut q: usize = 0;
        while q < flat.len()
            invariant
                q <= flat@.len(),
                fv == flat_view(flat@),
                out@ == start + header(g) + lines_for(g.name@, fv.take(q as int)),
            decreases flat@.len() - q,
        {
            let ghost mid = out@;
            proof {
                assert(fv.take(q + 1).drop_last() =~= fv.take(q as int));
                assert(fv.take(q + 1).last() == fv[q as int]);
            }
            if str_eq(flat[q].1.name, g.name) {
                push_line(&mut out, g.name, &flat[q].0, flat[q].1.value);
                assert(out@ =~= start + header(g) + lines_for(g.name@, fv.take(q + 1)));
            } else {
                assert(out@ =~= start + header(g) + lines_for(g.name@, fv.take(q + 1)));
            }
            q = q + 1;
        }
        proof {
            assert(fv.take(flat@.len() as int) =~= fv);
            assert(order@.take(o + 1).drop_last() =~= order@.take(o as int));
            assert(out@ =~= blocks(order@.take(o as int), fv) + header(g) + lines_for(g.name@, fv));
        }
        o = o + 1;
    }
    assert(order@.take(order@.len() as int) =~= order@);
    crate::text::string_from(&out)
}

/// The whole exposition: whether discovery succeeded, then every
/// database's gauges grouped per metric.
pub open spec fn exposition_text(scan_ok: bool, per: Seq<(String, Vec<Gauge>)>) -> Seq<char> {
    "# HELP slatedb_dashboard_scan_up Whether DB discovery succeeded\n# TYPE slatedb_dashboard_scan_up gauge\nslatedb_dashboard_scan_up "@
        + (if scan_ok { seq!['1'] } else { seq!['0'] }) + seq!['\n'] + rendered(per)
}

/// The metrics page: the discovery gauge followed by the grouped gauges of
/// every database that could be opened.
pub fn exposition(scan_ok: bool, per_db: &Vec<(String, Vec<Gauge>)>) -> (r: String)
    ensures
        r@ == exposition_text(scan_ok, per_db@),
{
    let mut out: Vec<char> = Vec::new();
    push_str(
        &mut out,
        "# HELP slatedb_dashboard_scan_up Whether DB discovery succeeded\n# TYPE slatedb_dashboard_scan_up gauge\nslatedb_dashboard_scan_up ",
    );
    out.push(if scan_ok { '1' } else { '0' });
    out.push('\n');
    let body = render_grouped(per_db);
    let bc = string_chars(&body);
    push_all(&mut out, &bc);
    assert(out@ =~= exposition_text(scan_ok, per_db@));
    crate::text::string_from(&out)
}

/// With a non-empty manifest listing (kept in id order), the last gauge of
/// a database is its last-manifest-write timestamp: the write time, in
/// seconds, of the listing's last (newest-id) manifest. When write times
/// grow with id, no listed manifest was written later.
pub proof fn lemma_last_write_gauge_is_newest(m: Option<ManifestDto>, es: Seq<ManifestEntry>, r: Seq<GaugeView>)
    requires
        r == gauges_for(m, Some(es)),
        es.len() > 0,
    ensures
        r.len() > 0,
        r[r.len() - 1].0 == "slatedb_last_manifest_write_timestamp_seconds"@,
        r[r.len() - 1].2 == es[es.len() - 1].last_modified.secs,
        (forall|a: int, b: int|
            0 <= a < b < es.len() ==> (#[trigger] es[a]).last_modified.secs <= (#[trigger] es[b]).last_modified.secs)
            ==> forall|a: int| 0 <= a < es.len() ==> (#[trigger] es[a]).last_modified.secs <= r[r.len() - 1].2,
{
    let up = seq![("slatedb_up"@, "Whether the latest manifest could be read"@, if m is Some { 1int } else { 0int })];
    let tail = seq![("slatedb_last_manifest_write_timestamp_seconds"@, "Unix time of the newest manifest write"@,
        es.last().last_modified.secs as int)];
    let listing = seq![("slatedb_manifest_count"@, "Manifest versions retained in the object store"@, es.len() as int)]
        + tail;
    assert(listing.last() == tail[0]);
    assert(r.last() == listing.last());
    if forall|a: int, b: int|
        0 <= a < b < es.len() ==> (#[trigger] es[a]).last_modified.secs <= (#[trigger] es[b]).last_modified.secs {
        assert forall|a: int| 0 <= a < es.len() implies (#[trigger] es[a]).last_modified.secs <= r[r.len() - 1].2 by {
            if a < es.len() - 1 {
                assert(es[a].last_modified.secs <= es[es.len() - 1].last_modified.secs);
            }
        }
    }
}

} // verus!
