//! The multi-database bookkeeping of a discovery scan: database identities
//! ("store:path"), which previously found databases a failed walk keeps,
//! and the final sorted, de-duplicated scan result.

use vstd::prelude::*;
use crate::dto::Dup;
use crate::order::{StrKeyed, first_per_key, first_per_key_sorted, has_key, strictly_sorted, first_with_own_key};
use crate::text::{push_str, string_from, chars_of, str_eq};

verus! {

#[derive(Clone, Debug, PartialEq, Eq)]
pub struct DbInfo {
    pub id: String,
    pub store: String,
    pub path: String,
}

impl Dup for DbInfo {
    fn dup(&self) -> (r: Self) {
        DbInfo { id: self.id.clone(), store: self.store.clone(), path: self.path.clone() }
    }
}

impl StrKeyed for DbInfo {
    open spec fn skey(&self) -> Seq<char> {
        self.id@
    }

    fn key_str(&self) -> (r: &str) {
        self.id.as_str()
    }
}

/// DB `path` lies under discovery root `root` (both store-relative,
/// '/'-separated, no trailing slashes): the root is empty, the path is the
/// root, or the path continues the root with a '/'.
pub open spec fn is_under_root(path: Seq<char>, root: Seq<char>) -> bool {
    root.len() == 0 || path == root || (path.len() > root.len() && path.take(root.len() as int) == root
        && path[root.len() as int] == '/')
}

/// Whether DB `path` lies under discovery root `root`; only whole path
/// segments match.
pub fn under_root(path: &str, root: &str) -> (r: bool)
    ensures
        r == is_under_root(path@, root@),
{
    let p = chars_of(path);
    let q = chars_of(root);
    if q.len() == 0 {
        return true;
    }
    if p.len() < q.len() {
        proof {
            if p@ == q@ {
                assert(p@.len() == q@.len());
            }
        }
        return false;
    }
    let mut i: usize = 0;
    while i < q.len()
        invariant
            i <= q@.len() <= p@.len(),
            p@ == path@,
            q@ == root@,
            p@.take(i as int) == q@.take(i as int),
        decreases q@.len() - i,
    {
        if p[i] != q[i] {
            proof {
                assert(p@.take(q@.len() as int)[i as int] != q@[i as int]);
                assert(p@ != q@ ==> p@.take(q@.len() as int) != q@);
                if p@ == q@ {
                    assert(p@[i as int] == q@[i as int]);
                }
            }
            return false;
        }
        i = i + 1;
        assert(p@.take(i as int) =~= p@.take(i - 1).push(p@[i - 1]));
        assert(q@.take(i as int) =~= q@.take(i - 1).push(q@[i - 1]));
    }
    assert(q@.take(q@.len() as int) =~= q@);
    if p.len() == q.len() {
        assert(p@ =~= q@);
        true
    } else {
        p[q.len()] == '/'
    }
}

/// The identity of a DB: "{store}:{path}".
pub open spec fn db_id_text(store: Seq<char>, path: Seq<char>) -> Seq<char> {
    store + seq![':'] + path
}

/// The identity of the DB at `path` in store `store`.
pub fn db_id(store: &str, path: &str) -> (r: String)
    ensures
        r@ == db_id_text(store@, path@),
{
    let mut v: Vec<char> = Vec::new();
    push_str(&mut v, store);
    v.push(':');
    push_str(&mut v, path);
    assert(v@ =~= db_id_text(store@, path@));
    string_from(&v)
}

/// The DB found at `path` in store `store`.
pub open spec fn info_of(store: Seq<char>, path: Seq<char>, d: DbInfo) -> bool {
    &&& d.id@ == db_id_text(store, path)
    &&& d.store@ == store
    &&& d.path@ == path
}

/// The DBs a successful walk of one root found, in walk order.
pub fn discovered(store: &str, paths: &Vec<String>) -> (r: Vec<DbInfo>)
    ensures
        r@.len() == paths@.len(),
        forall|i: int| 0 <= i < r@.len() ==> info_of(store@, paths@[i]@, #[trigger] r@[i]),
{
    let mut out: Vec<DbInfo> = Vec::new();
    let mut i: usize = 0;
    while i < paths.len()
        invariant
            i <= paths@.len(),
            out@.len() == i,
            forall|j: int| 0 <= j < i ==> info_of(store@, paths@[j]@, #[trigger] out@[j]),
        decreases paths@.len() - i,
    {
        let p = &paths[i];
        out.push(DbInfo { id: db_id(store, p.as_str()), store: store.to_owned(), path: p.clone() });
        i = i + 1;
    }
    out
}

/// `s` without its leading and trailing '/' characters.
pub open spec fn trim_slashes(s: Seq<char>) -> Seq<char>
    decreases s.len(),
{
    if s.len() > 0 && s[0] == '/' {
        trim_slashes(s.drop_first())
    } else if s.len() > 0 && s.last() == '/' {
        trim_slashes(s.drop_last())
    } else {
        s
    }
}

/// `s` without its leading and trailing '/' characters.
fn trim_slash_chars(s: &str) -> (r: Vec<char>)
    ensures
        r@ == trim_slashes(s@),
{
    let v = chars_of(s);
    let mut lo: usize = 0;
    let mut hi: usize = v.len();
    assert(v@.subrange(0, v@.len() as int) =~= v@);
    while lo < hi && (v[lo] == '/' || v[hi - 1] == '/')
        invariant
            lo <= hi <= v@.len(),
            v@ == s@,
            trim_slashes(v@.subrange(lo as int, hi as int)) == trim_slashes(s@),
        decreases hi - lo,
    {
        let ghost w = v@.subrange(lo as int, hi as int);
        if v[lo] == '/' {
            assert(w.drop_first() =~= v@.subrange(lo + 1, hi as int));
            lo = lo + 1;
        } else {
            assert(w.drop_last() =~= v@.subrange(lo as int, hi - 1));
            hi = hi - 1;
        }
    }
    let mut out: Vec<char> = Vec::new();
    let mut k: usize = lo;
    while k < hi
        invariant
            lo <= k <= hi <= v@.len(),
            out@ == v@.subrange(lo as int, k as int),
        decreases hi - k,
    {
        out.push(v[k]);
        k = k + 1;
        assert(out@ =~= v@.subrange(lo as int, k as int));
    }
    out
}

/// Keeps the DBs of store `store` under the root `root` (with its slashes
/// trimmed).
pub open spec fn kept_by(store: Seq<char>, root: Seq<char>) -> spec_fn(DbInfo) -> bool {
    |d: DbInfo| d.store@ == store && is_under_root(d.path@, trim_slashes(root))
}

/// When the walk of `root` in store `store` fails, the previously found
/// DBs of that store under that root, in their previous order, so one bad
/// store cannot blank out the fleet.
pub fn kept_on_failure(prev: &Vec<DbInfo>, store: &str, root: &str) -> (r: Vec<DbInfo>)
    ensures
        r@ == prev@.filter(kept_by(store@, root@)),
{
    let trimmed_root = trim_slash_chars(root);
    let root_text = string_from(&trimmed_root);
    let mut out: Vec<DbInfo> = Vec::new();
    let mut i: usize = 0;
    while i < prev.len()
        invariant
            i <= prev@.len(),
            root_text@ == trim_slashes(root@),
            out@ == prev@.take(i as int).filter(kept_by(store@, root@)),
        decreases prev@.len() - i,
    {
        let d = &prev[i];
        proof {
            assert(prev@.take(i + 1) =~= prev@.take(i as int).push(prev@[i as int]));
            prev@.take(i as int).lemma_filter_push(prev@[i as int], kept_by(store@, root@));
        }
        let same_store = str_eq(d.store.as_str(), store);
        if same_store && under_root(d.path.as_str(), root_text.as_str()) {
            out.push(d.dup());
        }
        i = i + 1;
    }
    assert(prev@.take(prev@.len() as int) =~= prev@);
    out
}

/// What the walk of one discovery root gave: the DB paths it found, or
/// nothing when it failed.
pub struct RootWalk {
    pub store: String,
    pub root: String,
    pub found: Option<Vec<String>>,
}

/// A DB as (id, store, path).
pub type DbView = (Seq<char>, Seq<char>, Seq<char>);

pub open spec fn db_view(d: DbInfo) -> DbView {
    (d.id@, d.store@, d.path@)
}

/// The DBs a scan gathers from one root: those its walk found, or, when
/// the walk failed, the previous scan's DBs of that store under that root.
pub open spec fn root_dbs(prev: Seq<DbInfo>, w: RootWalk) -> Seq<DbView> {
    match w.found {
        Some(ps) => ps@.map_values(|p: String| (db_id_text(w.store@, p@), w.store@, p@)),
        None => prev.filter(kept_by(w.store@, w.root@)).map_values(|d: DbInfo| db_view(d)),
    }
}

/// The DBs a scan gathers from its roots, root by root.
pub open spec fn scan_dbs(prev: Seq<DbInfo>, walks: Seq<RootWalk>) -> Seq<DbView>
    decreases walks.len(),
{
    if walks.len() == 0 {
        Seq::empty()
    } else {
        scan_dbs(prev, walks.drop_last()) + root_dbs(prev, walks.last())
    }
}

/// `r` is the scan result for the walks `walks` after the previous result
/// `prev`: the gathered DBs sorted by id, the first gathered for each id.
pub open spec fn scanned(prev: Seq<DbInfo>, walks: Seq<RootWalk>, r: Seq<DbInfo>) -> bool {
    exists|found: Seq<DbInfo>|
        #![trigger first_per_key_sorted(found, r)]
        found.map_values(|d: DbInfo| db_view(d)) == scan_dbs(prev, walks) && first_per_key_sorted(found, r)
}

/// The scan result: the found DBs sorted by id, keeping the first entry
/// for each id.
pub fn finish_scan(found: Vec<DbInfo>) -> (r: Vec<DbInfo>)
    ensures
        first_per_key_sorted(found@, r@),
{
    first_per_key(found)
}

/// The scan result from the outcome of every root's walk: what each walk
/// found, or the previous scan's DBs under a root whose walk failed, then
/// sorted by id, each id once.
pub fn scan_result(prev: &Vec<DbInfo>, walks: &Vec<RootWalk>) -> (r: Vec<DbInfo>)
    ensures
        scanned(prev@, walks@, r@),
{
    let mut found: Vec<DbInfo> = Vec::new();
    let mut i: usize = 0;
    assert(walks@.take(0) =~= Seq::<RootWalk>::empty());
    assert(found@.map_values(|d: DbInfo| db_view(d)) =~= Seq::<DbView>::empty());
    while i < walks.len()
        invariant
            i <= walks@.len(),
            found@.map_values(|d: DbInfo| db_view(d)) == scan_dbs(prev@, walks@.take(i as int)),
        decreases walks@.len() - i,
    {
        let w = &walks[i];
        let ghost before = found@;
        let mut more = match &w.found {
            Some(ps) => discovered(w.store.as_str(), ps),
            None => kept_on_failure(prev, w.store.as_str(), w.root.as_str()),
        };
        proof {
            let mv = more@.map_values(|d: DbInfo| db_view(d));
            assert(mv =~= root_dbs(prev@, walks@[i as int])) by {
                match w.found {
                    Some(ps) => {
                        assert forall|k: int| 0 <= k < mv.len() implies mv[k] == root_dbs(prev@, walks@[i as int])[k] by {
                            assert(info_of(w.store@, ps@[k]@, more@[k]));
                        }
                    },
                    None => {},
                }
            }
            assert(walks@.take(i + 1).drop_last() =~= walks@.take(i as int));
            assert(walks@.take(i + 1).last() == walks@[i as int]);
        }
        found.append(&mut more);
        proof {
            assert(found@.map_values(|d: DbInfo| db_view(d)) =~= before.map_values(|d: DbInfo| db_view(d))
                + root_dbs(prev@, walks@[i as int]));
        }
        i = i + 1;
    }
    assert(walks@.take(walks@.len() as int) =~= walks@);
    let ghost all = found@;
    let r = finish_scan(found);
    assert(first_per_key_sorted(all, r@));
    r
}

/// `r` is the position of the first DB of `dbs` with id `id`, or none
/// when no DB has that id.
pub open spec fn db_lookup(dbs: Seq<DbInfo>, id: Seq<char>, r: Option<usize>) -> bool {
    &&& r is None ==> forall|i: int| 0 <= i < dbs.len() ==> (#[trigger] dbs[i]).id@ != id
    &&& r matches Some(p) ==> p < dbs.len() && dbs[p as int].id@ == id && forall|i: int|
        0 <= i < p ==> (#[trigger] dbs[i]).id@ != id
}

/// Position of the first DB with id `id`.
pub fn find_db(dbs: &Vec<DbInfo>, id: &str) -> (r: Option<usize>)
    ensures
        db_lookup(dbs@, id@, r),
{
    let mut i: usize = 0;
    while i < dbs.len()
        invariant
            i <= dbs@.len(),
            forall|j: int| 0 <= j < i ==> (#[trigger] dbs@[j]).id@ != id@,
        decreases dbs@.len() - i,
    {
        if str_eq(dbs[i].id.as_str(), id) {
            return Some(i);
        }
        i = i + 1;
    }
    None
}

proof fn lemma_scan_dbs_has(prev: Seq<DbInfo>, walks: Seq<RootWalk>, k: int, v: DbView)
    requires
        0 <= k < walks.len(),
        root_dbs(prev, walks[k]).contains(v),
    ensures
        scan_dbs(prev, walks).contains(v),
    decreases walks.len(),
{
    let n = walks.len() - 1;
    let head = scan_dbs(prev, walks.drop_last());
    let own = root_dbs(prev, walks.last());
    assert(scan_dbs(prev, walks) == head + own);
    if k == n {
        let i = choose|i: int| 0 <= i < own.len() && own[i] == v;
        assert((head + own)[head.len() + i] == v);
    } else {
        assert(walks.drop_last()[k] == walks[k]);
        lemma_scan_dbs_has(prev, walks.drop_last(), k, v);
        let i = choose|i: int| 0 <= i < head.len() && head[i] == v;
        assert((head + own)[i] == v);
    }
}

/// Ids are "store:path" in whatever a scan gathers, when they are in the
/// previous result.
proof fn lemma_scan_dbs_ids(prev: Seq<DbInfo>, walks: Seq<RootWalk>)
    requires
        forall|d: DbInfo| #[trigger] prev.contains(d) ==> d.id@ == db_id_text(d.store@, d.path@),
    ensures
        forall|i: int| 0 <= i < scan_dbs(prev, walks).len() ==> (#[trigger] scan_dbs(prev, walks)[i]).0 == db_id_text(
            scan_dbs(prev, walks)[i].1,
            scan_dbs(prev, walks)[i].2,
        ),
    decreases walks.len(),
{
    if walks.len() > 0 {
        lemma_scan_dbs_ids(prev, walks.drop_last());
        let head = scan_dbs(prev, walks.drop_last());
        let w = walks.last();
        let own = root_dbs(prev, w);
        assert(scan_dbs(prev, walks) == head + own);
        assert forall|i: int| 0 <= i < own.len() implies (#[trigger] own[i]).0 == db_id_text(own[i].1, own[i].2) by {
            match w.found {
                Some(ps) => {},
                None => {
                    let f = prev.filter(kept_by(w.store@, w.root@));
                    prev.lemma_filter_contains_rev(kept_by(w.store@, w.root@), f[i]);
                    assert(f.contains(f[i]));
                },
            }
        }
        assert forall|i: int| 0 <= i < (head + own).len() implies (#[trigger] (head + own)[i]).0 == db_id_text(
            (head + own)[i].1,
            (head + own)[i].2,
        ) by {
            if i < head.len() {
                assert((head + own)[i] == head[i]);
            } else {
                assert((head + own)[i] == own[i - head.len()]);
            }
        }
    }
}

/// A scan keeps, for every root whose walk failed, each DB the previous
/// scan listed under that root; it lists each id once, in id order; and
/// its ids are "store:path" whenever the previous result's are.
pub proof fn lemma_failed_walk_keeps_dbs(prev: Seq<DbInfo>, walks: Seq<RootWalk>, r: Seq<DbInfo>, k: int)
    requires
        scanned(prev, walks, r),
        0 <= k < walks.len(),
        walks[k].found is None,
    ensures
        forall|d: DbInfo|
            #![trigger prev.contains(d)]
            prev.contains(d) && d.store@ == walks[k].store@ && is_under_root(d.path@, trim_slashes(walks[k].root@))
                ==> has_key(r, d.id@),
        strictly_sorted(r),
        (forall|d: DbInfo| #[trigger] prev.contains(d) ==> d.id@ == db_id_text(d.store@, d.path@)) ==> forall|i: int|
            0 <= i < r.len() ==> (#[trigger] r[i]).id@ == db_id_text(r[i].store@, r[i].path@),
{
    let found = choose|found: Seq<DbInfo>|
        #![trigger first_per_key_sorted(found, r)]
        found.map_values(|d: DbInfo| db_view(d)) == scan_dbs(prev, walks) && first_per_key_sorted(found, r);
    let fv = found.map_values(|d: DbInfo| db_view(d));
    let w = walks[k];
    let kept = prev.filter(kept_by(w.store@, w.root@));
    prev.filter_lemma(kept_by(w.store@, w.root@));
    assert forall|d: DbInfo|
        #![trigger prev.contains(d)]
        prev.contains(d) && d.store@ == w.store@ && is_under_root(d.path@, trim_slashes(w.root@)) implies has_key(
        r,
        d.id@,
    ) by {
        let i = choose|i: int| 0 <= i < prev.len() && prev[i] == d;
        assert(kept_by(w.store@, w.root@)(prev[i]));
        assert(kept.contains(d));
        let q = choose|q: int| 0 <= q < kept.len() && kept[q] == d;
        let own = root_dbs(prev, w);
        assert(own[q] == db_view(d));
        assert(own.contains(db_view(d)));
        lemma_scan_dbs_has(prev, walks, k, db_view(d));
        let f = choose|f: int| 0 <= f < fv.len() && fv[f] == db_view(d);
        assert(found[f].skey() == d.id@);
        assert(has_key(found, d.id@));
    }
    if forall|d: DbInfo| #[trigger] prev.contains(d) ==> d.id@ == db_id_text(d.store@, d.path@) {
        lemma_scan_dbs_ids(prev, walks);
        assert forall|i: int| 0 <= i < r.len() implies (#[trigger] r[i]).id@ == db_id_text(r[i].store@, r[i].path@) by {
            assert(first_with_own_key(found, r[i]));
            let f = choose|f: int|
                0 <= f < found.len() && found[f] == r[i] && forall|g: int| 0 <= g < f ==> #[trigger] found[g].skey() != r[i].skey();
            assert(fv[f] == db_view(found[f]));
        }
    }
}

/// A DB id resolves exactly when the scan lists it: when one of its roots
/// found, or kept after a failed walk, a DB with that id. Here `res` is
/// what `find_db` answers for `id` on the scan result `r`.
pub proof fn lemma_resolves_exactly_scanned(
    prev: Seq<DbInfo>,
    walks: Seq<RootWalk>,
    r: Seq<DbInfo>,
    id: Seq<char>,
    res: Option<usize>,
)
    requires
        scanned(prev, walks, r),
        db_lookup(r, id, res),
    ensures
        res is Some <==> exists|i: int| 0 <= i < scan_dbs(prev, walks).len() && (#[trigger] scan_dbs(prev, walks)[i]).0 == id,
        res matches Some(p) ==> r[p as int].id@ == id,
{
    let found = choose|found: Seq<DbInfo>|
        #![trigger first_per_key_sorted(found, r)]
        found.map_values(|d: DbInfo| db_view(d)) == scan_dbs(prev, walks) && first_per_key_sorted(found, r);
    let fv = found.map_values(|d: DbInfo| db_view(d));
    if exists|i: int| 0 <= i < fv.len() && (#[trigger] fv[i]).0 == id {
        let i = choose|i: int| 0 <= i < fv.len() && (#[trigger] fv[i]).0 == id;
        assert(found[i].skey() == id);
        assert(has_key(found, id));
        assert(has_key(r, id));
        let q = choose|q: int| 0 <= q < r.len() && #[trigger] r[q].skey() == id;
        assert(r[q].id@ == id);
    }
    if let Some(p) = res {
        assert(r[p as int].skey() == id);
        assert(has_key(r, id));
        assert(has_key(found, id));
        let i = choose|i: int| 0 <= i < found.len() && #[trigger] found[i].skey() == id;
        assert(fv[i].0 == id);
    }
}

} // verus!
