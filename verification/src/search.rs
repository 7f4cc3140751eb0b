//! ULID and checkpoint-UUID search across a database: the query, where a
//! ULID occurs in a manifest's trees, which compactor jobs name it, and
//! which checkpoints carry a UUID.

use vstd::prelude::*;
use crate::demo::{trim, trimmed};
use crate::dto::{CheckpointDto, SearchCheckpointHitDto, SearchCompactionHitDto, SearchManifestHitDto,
    SearchSstObjectDto};
use crate::dto::dup_opt_string;
use crate::listing::{ulid_parse, ulid_text, ulid_from_text, ulid_string, CompactedEntry};
use crate::convert::hex_digit;
use crate::text::{chars_of, dec, push_dec, push_str, str_eq, string_chars, string_from};

verus! {

/// The value of a hexadecimal digit, in either case.
pub open spec fn hex_value(c: char) -> Option<nat> {
    if '0' <= c <= '9' {
        Some(((c as u32) - 48) as nat)
    } else if 'a' <= c <= 'f' {
        Some(((c as u32) - 87) as nat)
    } else if 'A' <= c <= 'F' {
        Some(((c as u32) - 55) as nat)
    } else {
        None
    }
}

/// The hexadecimal digits of `s` read as a number, most significant
/// first; none when some character is not a hexadecimal digit.
pub open spec fn hex_number(s: Seq<char>) -> Option<nat>
    decreases s.len(),
{
    if s.len() == 0 {
        Some(0)
    } else {
        match (hex_number(s.drop_last()), hex_value(s.last())) {
            (Some(a), Some(d)) => Some(a * 16 + d),
            _ => None,
        }
    }
}

/// The value of a hyphenated UUID text: 32 hexadecimal digits in groups of
/// 8, 4, 4, 4 and 12, a hyphen between groups.
pub open spec fn hyphenated_value(t: Seq<char>) -> Option<nat> {
    if t.len() == 36 && t[8] == '-' && t[13] == '-' && t[18] == '-' && t[23] == '-' {
        hex_number(
            t.subrange(0, 8) + t.subrange(9, 13) + t.subrange(14, 18) + t.subrange(19, 23) + t.subrange(24, 36),
        )
    } else {
        None
    }
}

/// An ASCII uppercase letter as lowercase; any other character unchanged.
pub open spec fn ascii_lower(c: char) -> char {
    if 'A' <= c <= 'Z' {
        ((c as u32) + 32) as char
    } else {
        c
    }
}

/// The value of a UUID text in one of the forms `uuid` parses: 32
/// hexadecimal digits; the hyphenated form; the hyphenated form in braces;
/// or the hyphenated form after `urn:uuid:` in any case.
pub open spec fn uuid_value(s: Seq<char>) -> Option<nat> {
    if s.len() == 32 {
        hex_number(s)
    } else if s.len() == 36 {
        hyphenated_value(s)
    } else if s.len() == 38 && s[0] == '{' && s[37] == '}' {
        hyphenated_value(s.subrange(1, 37))
    } else if s.len() == 45 && s.take(9).map_values(|c: char| ascii_lower(c)) == "urn:uuid:"@ {
        hyphenated_value(s.skip(9))
    } else {
        None
    }
}

/// What `uuid::Uuid::parse_str` makes of a text: the UUID's value, or none
/// when the text is not a UUID.
pub open spec fn uuid_parse(s: Seq<char>) -> Option<u128> {
    match uuid_value(s) {
        Some(n) => Some(n as u128),
        None => None,
    }
}

/// The last `n` lowercase hexadecimal digits of `v`, most significant first.
pub open spec fn hex_digits(v: nat, n: nat) -> Seq<char>
    decreases n,
{
    if n == 0 {
        Seq::empty()
    } else {
        hex_digits(v / 16, (n - 1) as nat).push(hex_digit((v % 16) as u8))
    }
}

/// The text `uuid::Uuid` displays for a value: its 32 lowercase hexadecimal
/// digits, most significant first, hyphenated 8-4-4-4-12.
pub open spec fn uuid_text(v: u128) -> Seq<char> {
    let h = hex_digits(v as nat, 32);
    h.subrange(0, 8) + seq!['-'] + h.subrange(8, 12) + seq!['-'] + h.subrange(12, 16) + seq!['-'] + h.subrange(16, 20)
        + seq!['-'] + h.subrange(20, 32)
}

/// `uuid::Uuid::parse_str`, read as a `u128` (big-endian, as `as_u128`
/// does): the value of a UUID text in the simple, hyphenated, braced or URN
/// form, hexadecimal digits in either case; `None` for any other text.
#[verifier::external_body]
fn uuid_from_text(s: &str) -> (r: Option<u128>)
    ensures
        r == uuid_parse(s@),
{
    uuid::Uuid::parse_str(s).ok().map(|u| u.as_u128())
}

/// `uuid::Uuid::from_u128` and its `Display`: the value's hyphenated
/// lowercase text.
#[verifier::external_body]
fn uuid_string(v: u128) -> (r: String)
    ensures
        r@ == uuid_text(v),
{
    uuid::Uuid::from_u128(v).to_string()
}

/// A search query as the search reads it.
pub struct SearchQuery {
    /// The query, trimmed.
    pub query: String,
    /// Its value as a ULID, when it is one.
    pub ulid: Option<u128>,
    /// Its value as a checkpoint UUID, when it is one.
    pub uuid: Option<u128>,
}

/// The message for a query that is neither a ULID nor a UUID.
pub open spec fn not_searchable(q: Seq<char>) -> Seq<char> {
    "'"@ + q + "' is not a ULID (or checkpoint UUID)"@
}

pub open spec fn query_ok(r: Result<SearchQuery, String>, q: Seq<char>, ulid: Option<u128>, uuid: Option<u128>) -> bool {
    match r {
        Ok(s) => s.query@ == q && s.ulid == ulid && s.uuid == uuid && (ulid is Some || uuid is Some),
        Err(e) => ulid is None && uuid is None && e@ == not_searchable(q),
    }
}

/// Accepts a trimmed query that reads as a ULID or a UUID, and refuses it
/// with a message otherwise.
pub fn query_outcome(query: String, ulid: Option<u128>, uuid: Option<u128>) -> (r: Result<SearchQuery, String>)
    ensures
        query_ok(r, query@, ulid, uuid),
{
    if ulid.is_none() && uuid.is_none() {
        let mut msg: Vec<char> = Vec::new();
        push_str(&mut msg, "'");
        let qc = string_chars(&query);
        crate::text::push_all(&mut msg, &qc);
        push_str(&mut msg, "' is not a ULID (or checkpoint UUID)");
        assert(msg@ =~= not_searchable(query@));
        Err(string_from(&msg))
    } else {
        Ok(SearchQuery { query, ulid, uuid })
    }
}

/// Reads a search query: trims it and parses it as a ULID and as a UUID.
pub fn search_query(q: &str) -> (r: Result<SearchQuery, String>)
    ensures
        query_ok(r, trim(q@), ulid_parse(trim(q@)), uuid_parse(trim(q@))),
{
    let cs = chars_of(q);
    let t = trimmed(&cs);
    let text = string_from(&t);
    let ulid = ulid_from_text(text.as_str());
    let uuid = uuid_from_text(text.as_str());
    query_outcome(text, ulid, uuid)
}

/// The message for a path parameter that is not a ULID.
pub open spec fn bad_ulid_message(what: Seq<char>, s: Seq<char>) -> Seq<char> {
    "invalid "@ + what + " ULID '"@ + s + "'"@
}

pub open spec fn ulid_result_view(r: Result<u128, String>) -> Result<u128, Seq<char>> {
    match r {
        Ok(u) => Ok(u),
        Err(e) => Err(e@),
    }
}

/// The outcome of reading a path parameter (naming a `what`, such as an
/// SST or a compaction) whose ULID parse gave `parsed`.
pub open spec fn ulid_param_of(parsed: Option<u128>, what: Seq<char>, s: Seq<char>) -> Result<u128, Seq<char>> {
    match parsed {
        Some(u) => Ok(u),
        None => Err(bad_ulid_message(what, s)),
    }
}

/// Accepts a parsed ULID, or refuses the parameter with a message.
pub fn ulid_param_outcome(parsed: Option<u128>, what: &str, s: &str) -> (r: Result<u128, String>)
    ensures
        ulid_result_view(r) == ulid_param_of(parsed, what@, s@),
{
    match parsed {
        Some(u) => Ok(u),
        None => {
            let mut msg: Vec<char> = Vec::new();
            push_str(&mut msg, "invalid ");
            push_str(&mut msg, what);
            push_str(&mut msg, " ULID '");
            push_str(&mut msg, s);
            push_str(&mut msg, "'");
            assert(msg@ =~= bad_ulid_message(what@, s@));
            Err(string_from(&msg))
        },
    }
}

/// Reads a path parameter naming a `what` by ULID.
pub fn ulid_param(s: &str, what: &str) -> (r: Result<u128, String>)
    ensures
        ulid_result_view(r) == ulid_param_of(ulid_parse(s@), what@, s@),
{
    let parsed = ulid_from_text(s);
    ulid_param_outcome(parsed, what, s)
}

/// One SST view of a tree: its view id, and the ULID of the SST it views
/// when that is a compacted SST.
#[derive(Clone, Copy, Debug, PartialEq, Eq, Structural)]
pub struct ViewRef {
    pub view_id: u128,
    pub sst: Option<u128>,
}

/// A sorted run's id and views.
#[derive(Clone, Debug)]
pub struct RunRefs {
    pub id: u32,
    pub views: Vec<ViewRef>,
}

/// One LSM tree's views: L0, sorted runs, and the last compacted L0 view.
#[derive(Clone, Debug)]
pub struct TreeRefs {
    pub l0: Vec<ViewRef>,
    pub runs: Vec<RunRefs>,
    pub last_compacted_l0: Option<u128>,
}

/// A segment's prefix (read as text, invalid UTF-8 replaced) and tree.
#[derive(Clone, Debug)]
pub struct SegmentRefs {
    pub prefix_text: String,
    pub tree: TreeRefs,
}

/// The trees of a manifest: the root tree and its segments'.
#[derive(Clone, Debug)]
pub struct ManifestTrees {
    pub root: TreeRefs,
    pub segments: Vec<SegmentRefs>,
}

/// The text after "SST in" / "view id in": the label, when there is one,
/// then the level.
pub open spec fn at_text(label: Seq<char>, level: Seq<char>) -> Seq<char> {
    (if label.len() == 0 {
        seq![]
    } else {
        seq![' ']
    }) + label + seq![' '] + level
}

/// Where `u` matches one view, at a given place.
pub open spec fn view_hits(v: ViewRef, u: u128, at: Seq<char>) -> Seq<Seq<char>> {
    (if v.sst == Some(u) {
        seq!["SST in"@ + at]
    } else {
        seq![]
    }) + (if v.view_id == u {
        seq!["view id in"@ + at]
    } else {
        seq![]
    })
}

pub open spec fn views_hits(vs: Seq<ViewRef>, u: u128, at: Seq<char>) -> Seq<Seq<char>>
    decreases vs.len(),
{
    if vs.len() == 0 {
        seq![]
    } else {
        views_hits(vs.drop_last(), u, at) + view_hits(vs.last(), u, at)
    }
}

pub open spec fn run_level(id: u32) -> Seq<char> {
    "SR "@ + dec(id as nat)
}

pub open spec fn runs_hits(rs: Seq<RunRefs>, u: u128, label: Seq<char>) -> Seq<Seq<char>>
    decreases rs.len(),
{
    if rs.len() == 0 {
        seq![]
    } else {
        runs_hits(rs.drop_last(), u, label) + views_hits(rs.last().views@, u, at_text(label, run_level(rs.last().id)))
    }
}

/// Where `u` occurs in one tree: L0 first, then each sorted run.
pub open spec fn tree_hits(t: TreeRefs, u: u128, label: Seq<char>) -> Seq<Seq<char>> {
    views_hits(t.l0@, u, at_text(label, "L0"@)) + runs_hits(t.runs@, u, label)
}

pub open spec fn segments_hits(ss: Seq<SegmentRefs>, u: u128) -> Seq<Seq<char>>
    decreases ss.len(),
{
    if ss.len() == 0 {
        seq![]
    } else {
        segments_hits(ss.drop_last(), u) + tree_hits(ss.last().tree, u, "segment "@ + ss.last().prefix_text@)
    }
}

/// Every place where `u` occurs in a manifest, as an SST id or a view id:
/// the root tree, then each segment.
pub open spec fn places_of(m: ManifestTrees, u: u128) -> Seq<Seq<char>> {
    tree_hits(m.root, u, seq![]) + segments_hits(m.segments@, u)
}

pub open spec fn string_views(s: Seq<String>) -> Seq<Seq<char>> {
    s.map_values(|x: String| x@)
}

fn push_place(out: &mut Vec<String>, head: &str, at: &Vec<char>)
    ensures
        string_views(final(out)@) == string_views(old(out)@).push(head@ + at@),
{
    let mut cs: Vec<char> = Vec::new();
    push_str(&mut cs, head);
    crate::text::push_all(&mut cs, at);
    let s = string_from(&cs);
    out.push(s);
    assert(string_views(final(out)@) =~= string_views(old(out)@).push(head@ + at@));
}

fn push_views_hits(out: &mut Vec<String>, vs: &Vec<ViewRef>, u: u128, at: &Vec<char>)
    ensures
        string_views(final(out)@) == string_views(old(out)@) + views_hits(vs@, u, at@),
{
    let mut i: usize = 0;
    while i < vs.len()
        invariant
            i <= vs@.len(),
            string_views(out@) == string_views(old(out)@) + views_hits(vs@.take(i as int), u, at@),
        decreases vs@.len() - i,
    {
        let v = vs[i];
        let ghost before = string_views(out@);
        proof {
            assert(vs@.take(i + 1).drop_last() =~= vs@.take(i as int));
            assert(vs@.take(i + 1).last() == v);
        }
        let is_sst = match v.sst {
            Some(s) => s == u,
            None => false,
        };
        if is_sst {
            push_place(out, "SST in", at);
        }
        let ghost mid = string_views(out@);
        if v.view_id == u {
            push_place(out, "view id in", at);
        }
        proof {
            assert(string_views(out@) =~= before + view_hits(v, u, at@));
        }
        i = i + 1;
    }
    assert(vs@.take(vs@.len() as int) =~= vs@);
}

fn at_chars(label: &Vec<char>, level: &Vec<char>) -> (r: Vec<char>)
    ensures
        r@ == at_text(label@, level@),
{
    let mut r: Vec<char> = Vec::new();
    if label.len() > 0 {
        r.push(' ');
    }
    crate::text::push_all(&mut r, label);
    r.push(' ');
    crate::text::push_all(&mut r, level);
    assert(r@ =~= at_text(label@, level@));
    r
}

fn push_tree_hits(out: &mut Vec<String>, t: &TreeRefs, u: u128, label: &Vec<char>)
    ensures
        string_views(final(out)@) == string_views(old(out)@) + tree_hits(*t, u, label@),
{
    let mut l0: Vec<char> = Vec::new();
    push_str(&mut l0, "L0");
    let at = at_chars(label, &l0);
    push_views_hits(out, &t.l0, u, &at);
    let ghost after_l0 = string_views(out@);
    let mut i: usize = 0;
    while i < t.runs.len()
        invariant
            i <= t.runs@.len(),
            string_views(out@) == after_l0 + runs_hits(t.runs@.take(i as int), u, label@),
        decreases t.runs@.len() - i,
    {
        let run = &t.runs[i];
        proof {
            assert(t.runs@.take(i + 1).drop_last() =~= t.runs@.take(i as int));
            assert(t.runs@.take(i + 1).last() == *run);
        }
        let mut level: Vec<char> = Vec::new();
        push_str(&mut level, "SR ");
        push_dec(&mut level, run.id as u64);
        assert(level@ =~= run_level(run.id));
        let at = at_chars(label, &level);
        push_views_hits(out, &run.views, u, &at);
        i = i + 1;
    }
    assert(t.runs@.take(t.runs@.len() as int) =~= t.runs@);
    assert(string_views(out@) =~= string_views(old(out)@) + tree_hits(*t, u, label@));
}

/// Every place where ULID `u` occurs in a manifest's trees, as an SST id
/// ("SST in ...") or an L0/run view id ("view id in ..."), in tree order.
pub fn manifest_places(m: &ManifestTrees, u: u128) -> (r: Vec<String>)
    ensures
        string_views(r@) == places_of(*m, u),
{
    let mut out: Vec<String> = Vec::new();
    let empty: Vec<char> = Vec::new();
    push_tree_hits(&mut out, &m.root, u, &empty);
    let ghost after_root = string_views(out@);
    assert(after_root =~= tree_hits(m.root, u, seq![]));
    let mut i: usize = 0;
    while i < m.segments.len()
        invariant
            i <= m.segments@.len(),
            string_views(out@) == after_root + segments_hits(m.segments@.take(i as int), u),
        decreases m.segments@.len() - i,
    {
        let seg = &m.segments[i];
        proof {
            assert(m.segments@.take(i + 1).drop_last() =~= m.segments@.take(i as int));
            assert(m.segments@.take(i + 1).last() == *seg);
        }
        let mut label: Vec<char> = Vec::new();
        push_str(&mut label, "segment ");
        let pc = string_chars(&seg.prefix_text);
        crate::text::push_all(&mut label, &pc);
        push_tree_hits(&mut out, &seg.tree, u, &label);
        proof {
            assert(label@ =~= "segment "@ + seg.prefix_text@);
        }
        i = i + 1;
    }
    assert(m.segments@.take(m.segments@.len() as int) =~= m.segments@);
    assert(string_views(out@) =~= places_of(*m, u));
    out
}

/// Manifests scanned per search, newest first.
pub const MANIFEST_SCAN_LIMIT: usize = 80;

/// Manifest hits returned before the scan stops.
pub const MANIFEST_HIT_LIMIT: usize = 20;

/// The manifest ids a search reads, newest first.
pub open spec fn scan_ids(ids: Seq<u64>) -> Seq<u64> {
    let k = if ids.len() < MANIFEST_SCAN_LIMIT {
        ids.len() as int
    } else {
        MANIFEST_SCAN_LIMIT as int
    };
    Seq::new(k as nat, |j: int| ids[ids.len() - 1 - j])
}

/// The ids of the newest manifests of a listing to scan, newest first.
pub fn manifests_to_scan(ids: &Vec<u64>) -> (r: Vec<u64>)
    ensures
        r@ == scan_ids(ids@),
{
    let len = ids.len();
    let k = if len < MANIFEST_SCAN_LIMIT {
        len
    } else {
        MANIFEST_SCAN_LIMIT
    };
    let mut out: Vec<u64> = Vec::new();
    let mut j: usize = 0;
    while j < k
        invariant
            j <= k,
            k <= len,
            len == ids@.len(),
            out@.len() == j,
            forall|q: int| 0 <= q < j ==> #[trigger] out@[q] == ids@[len - 1 - q],
        decreases k - j,
    {
        out.push(ids[len - 1 - j]);
        j = j + 1;
    }
    assert(out@ =~= scan_ids(ids@));
    out
}

/// The progress of a manifest scan: how many manifests were read and
/// which of them reference the ULID.
pub struct ManifestScan {
    pub scanned: usize,
    pub hits: Vec<SearchManifestHitDto>,
}

impl ManifestScan {
    pub fn new() -> (r: Self)
        ensures
            r.scanned == 0,
            r.hits@.len() == 0,
    {
        ManifestScan { scanned: 0, hits: Vec::new() }
    }

    /// Records one scanned manifest (`None`: it was collected in the
    /// meantime) with the places where the ULID occurs in it; says whether
    /// the scan goes on.
    pub fn record(&mut self, id: u64, places: Option<Vec<String>>) -> (more: bool)
        requires
            old(self).scanned < usize::MAX,
        ensures
            final(self).scanned == old(self).scanned + 1,
            (match places {
                Some(p) => p@.len() > 0,
                None => false,
            }) ==> final(self).hits@ == old(self).hits@.push(
                SearchManifestHitDto { id, places: places->0 },
            ),
            !(match places {
                Some(p) => p@.len() > 0,
                None => false,
            }) ==> final(self).hits@ == old(self).hits@,
            more == (final(self).hits@.len() < MANIFEST_HIT_LIMIT),
    {
        self.scanned = self.scanned + 1;
        match places {
            Some(p) => {
                if p.len() > 0 {
                    self.hits.push(SearchManifestHitDto { id, places: p });
                }
            },
            None => {},
        }
        self.hits.len() < MANIFEST_HIT_LIMIT
    }
}

/// The location of a compacted SST object.
pub open spec fn sst_location(db_path: Seq<char>, u: u128) -> Seq<char> {
    db_path + "/compacted/"@ + ulid_text(u) + ".sst"@
}

/// Index of the first compacted entry with ULID `u`.
pub open spec fn first_with_ulid(es: Seq<CompactedEntry>, u: u128, i: int) -> bool {
    0 <= i < es.len() && es[i].ulid == u && forall|j: int| 0 <= j < i ==> (#[trigger] es[j]).ulid != u
}

/// The SST object of ULID `u` in the compacted listing, when listed.
pub fn sst_object(db_path: &str, entries: &Vec<CompactedEntry>, u: u128) -> (r: Option<SearchSstObjectDto>)
    ensures
        r is None <==> forall|j: int| 0 <= j < entries@.len() ==> (#[trigger] entries@[j]).ulid != u,
        r matches Some(o) ==> exists|i: int|
            first_with_ulid(entries@, u, i) && o.location@ == sst_location(db_path@, u) && o.size_bytes
                == entries@[i].size_bytes && o.last_modified == entries@[i].last_modified,
{
    let mut i: usize = 0;
    while i < entries.len()
        invariant
            i <= entries@.len(),
            forall|j: int| 0 <= j < i ==> (#[trigger] entries@[j]).ulid != u,
        decreases entries@.len() - i,
    {
        if entries[i].ulid == u {
            let mut loc: Vec<char> = Vec::new();
            push_str(&mut loc, db_path);
            push_str(&mut loc, "/compacted/");
            let us = ulid_string(u);
            let uc = string_chars(&us);
            crate::text::push_all(&mut loc, &uc);
            push_str(&mut loc, ".sst");
            assert(loc@ =~= sst_location(db_path@, u));
            assert(first_with_ulid(entries@, u, i as int));
            return Some(
                SearchSstObjectDto {
                    location: string_from(&loc),
                    size_bytes: entries[i].size_bytes,
                    last_modified: entries[i].last_modified,
                },
            );
        }
        i = i + 1;
    }
    None
}

/// A compactor job of one `.compactions` version: its id and the ULIDs of
/// its compacted output SSTs (`None` for a WAL output).
#[derive(Clone, Debug)]
pub struct JobRefs {
    pub id: u128,
    pub outputs: Vec<Option<u128>>,
}

/// One `.compactions` version and its recent jobs.
#[derive(Clone, Debug)]
pub struct CompactionsVersion {
    pub version: u64,
    pub jobs: Vec<JobRefs>,
}

/// A job as the search sees it: the version it is in, its id, and whether
/// one of its outputs is the ULID.
pub type JobView = (u64, u128, bool);

pub open spec fn version_jobs(v: CompactionsVersion, u: u128) -> Seq<JobView> {
    v.jobs@.map_values(|j: JobRefs| (v.version, j.id, j.outputs@.contains(Some(u))))
}

/// The jobs of every version, newest version first.
pub open spec fn jobs_newest_first(vs: Seq<CompactionsVersion>, u: u128) -> Seq<JobView>
    decreases vs.len(),
{
    if vs.len() == 0 {
        seq![]
    } else {
        jobs_newest_first(vs.drop_first(), u) + version_jobs(vs.first(), u)
    }
}

/// A hit as (version, job id text, role).
pub type HitView = (u64, Seq<char>, Seq<char>);

pub open spec fn has_hit(h: Seq<HitView>, job: Seq<char>, role: Seq<char>) -> bool {
    exists|i: int| 0 <= i < h.len() && (#[trigger] h[i]).1 == job && h[i].2 == role
}

/// The compaction hits, one per (job, role), from the newest version that
/// has it: "job" when the job's id is the ULID, "output" when one of its
/// outputs is.
pub open spec fn compaction_hits_of(js: Seq<JobView>, u: u128) -> Seq<HitView>
    decreases js.len(),
{
    if js.len() == 0 {
        seq![]
    } else {
        let h = compaction_hits_of(js.drop_last(), u);
        let (ver, id, out) = js.last();
        let h1 = if id == u && !has_hit(h, ulid_text(id), "job"@) {
            h.push((ver, ulid_text(id), "job"@))
        } else {
            h
        };
        if out && !has_hit(h1, ulid_text(id), "output"@) {
            h1.push((ver, ulid_text(id), "output"@))
        } else {
            h1
        }
    }
}

pub open spec fn hit_views(h: Seq<SearchCompactionHitDto>) -> Seq<HitView> {
    h.map_values(|x: SearchCompactionHitDto| (x.version, x.job_id@, x.role@))
}

fn outputs_contain(outs: &Vec<Option<u128>>, u: u128) -> (r: bool)
    ensures
        r == outs@.contains(Some(u)),
{
    let mut i: usize = 0;
    while i < outs.len()
        invariant
            i <= outs@.len(),
            forall|j: int| 0 <= j < i ==> outs@[j] != Some(u),
        decreases outs@.len() - i,
    {
        if let Some(x) = outs[i] {
            if x == u {
                assert(outs@[i as int] == Some(u));
                return true;
            }
        }
        i = i + 1;
    }
    false
}

fn flat_jobs(versions: &Vec<CompactionsVersion>, u: u128) -> (r: Vec<JobView>)
    ensures
        r@ == jobs_newest_first(versions@, u),
{
    let mut out: Vec<JobView> = Vec::new();
    let mut vi: usize = versions.len();
    while vi > 0
        invariant
            vi <= versions@.len(),
            out@ == jobs_newest_first(versions@.subrange(vi as int, versions@.len() as int), u),
        decreases vi,
    {
        vi = vi - 1;
        let v = &versions[vi];
        let ghost before = out@;
        let mut j: usize = 0;
        while j < v.jobs.len()
            invariant
                j <= v.jobs@.len(),
                out@ == before + version_jobs(*v, u).take(j as int),
            decreases v.jobs@.len() - j,
        {
            let has = outputs_contain(&v.jobs[j].outputs, u);
            out.push((v.version, v.jobs[j].id, has));
            proof {
                assert(version_jobs(*v, u).take(j + 1) =~= version_jobs(*v, u).take(j as int).push(
                    (v.version, v.jobs@[j as int].id, has),
                ));
            }
            j = j + 1;
        }
        proof {
            let s = versions@.subrange(vi as int, versions@.len() as int);
            assert(s.drop_first() =~= versions@.subrange(vi + 1, versions@.len() as int));
            assert(s.first() == *v);
            assert(version_jobs(*v, u).take(v.jobs@.len() as int) =~= version_jobs(*v, u));
        }
    }
    assert(versions@.subrange(0, versions@.len() as int) =~= versions@);
    out
}

fn find_hit(h: &Vec<SearchCompactionHitDto>, job: &str, role: &str) -> (r: bool)
    ensures
        r == has_hit(hit_views(h@), job@, role@),
{
    let mut i: usize = 0;
    while i < h.len()
        invariant
            i <= h@.len(),
            forall|j: int| 0 <= j < i ==> !((#[trigger] h@[j]).job_id@ == job@ && h@[j].role@ == role@),
        decreases h@.len() - i,
    {
        if str_eq(h[i].job_id.as_str(), job) && str_eq(h[i].role, role) {
            assert(hit_views(h@)[i as int] == (h@[i as int].version, h@[i as int].job_id@, h@[i as int].role@));
            return true;
        }
        i = i + 1;
    }
    proof {
        assert forall|j: int| 0 <= j < hit_views(h@).len() implies !((#[trigger] hit_views(h@)[j]).1 == job@
            && hit_views(h@)[j].2 == role@) by {
            assert(hit_views(h@)[j] == (h@[j].version, h@[j].job_id@, h@[j].role@));
        }
    }
    false
}

/// The compactor jobs that name ULID `u`, as job or as output, across the
/// listed `.compactions` versions (oldest first as listed).
pub fn compaction_hits(versions: &Vec<CompactionsVersion>, u: u128) -> (r: Vec<SearchCompactionHitDto>)
    ensures
        hit_views(r@) == compaction_hits_of(jobs_newest_first(versions@, u), u),
{
    let js = flat_jobs(versions, u);
    let mut out: Vec<SearchCompactionHitDto> = Vec::new();
    let mut i: usize = 0;
    while i < js.len()
        invariant
            i <= js@.len(),
            hit_views(out@) == compaction_hits_of(js@.take(i as int), u),
        decreases js@.len() - i,
    {
        let (ver, id, has_output) = js[i];
        proof {
            assert(js@.take(i + 1).drop_last() =~= js@.take(i as int));
            assert(js@.take(i + 1).last() == js@[i as int]);
        }
        let ghost h = hit_views(out@);
        let name = ulid_string(id);
        if id == u {
            if !find_hit(&out, name.as_str(), "job") {
                out.push(SearchCompactionHitDto { version: ver, job_id: name.clone(), role: "job" });
                assert(hit_views(out@) =~= h.push((ver, ulid_text(id), "job"@)));
            }
        }
        let ghost h1 = hit_views(out@);
        if has_output {
            if !find_hit(&out, name.as_str(), "output") {
                out.push(SearchCompactionHitDto { version: ver, job_id: name, role: "output" });
                assert(hit_views(out@) =~= h1.push((ver, ulid_text(id), "output"@)));
            }
        }
        i = i + 1;
    }
    assert(js@.take(js@.len() as int) =~= js@);
    out
}

/// The checkpoints whose id is the UUID's text, as search hits.
pub open spec fn checkpoint_hits_of(cps: Seq<CheckpointDto>, id: Seq<char>) -> Seq<(Seq<char>, Option<String>, u64)>
    decreases cps.len(),
{
    if cps.len() == 0 {
        seq![]
    } else {
        checkpoint_hits_of(cps.drop_last(), id) + if cps.last().id@ == id {
            seq![(cps.last().id@, cps.last().name, cps.last().manifest_id)]
        } else {
            seq![]
        }
    }
}

pub open spec fn checkpoint_hit_views(h: Seq<SearchCheckpointHitDto>) -> Seq<(Seq<char>, Option<String>, u64)> {
    h.map_values(|x: SearchCheckpointHitDto| (x.id@, x.name, x.manifest_id))
}

/// The checkpoints of the latest manifest with UUID `uuid`.
pub fn checkpoint_hits(checkpoints: &Vec<CheckpointDto>, uuid: u128) -> (r: Vec<SearchCheckpointHitDto>)
    ensures
        checkpoint_hit_views(r@) == checkpoint_hits_of(checkpoints@, uuid_text(uuid)),
{
    let text = uuid_string(uuid);
    let mut out: Vec<SearchCheckpointHitDto> = Vec::new();
    let mut i: usize = 0;
    while i < checkpoints.len()
        invariant
            i <= checkpoints@.len(),
            text@ == uuid_text(uuid),
            checkpoint_hit_views(out@) == checkpoint_hits_of(checkpoints@.take(i as int), uuid_text(uuid)),
        decreases checkpoints@.len() - i,
    {
        let c = &checkpoints[i];
        proof {
            assert(checkpoints@.take(i + 1).drop_last() =~= checkpoints@.take(i as int));
            assert(checkpoints@.take(i + 1).last() == *c);
        }
        let ghost before = checkpoint_hit_views(out@);
        if str_eq(c.id.as_str(), text.as_str()) {
            out.push(SearchCheckpointHitDto { id: c.id.clone(), name: dup_opt_string(&c.name), manifest_id: c.manifest_id });
            assert(checkpoint_hit_views(out@) =~= before.push((c.id@, c.name, c.manifest_id)));
        } else {
            assert(checkpoint_hit_views(out@) =~= before);
        }
        i = i + 1;
    }
    assert(checkpoints@.take(checkpoints@.len() as int) =~= checkpoints@);
    out
}

} // verus!
