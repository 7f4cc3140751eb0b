//! Discovery of databases in an object store: a breadth-first walk over
//! "directory" prefixes, bounded in depth and in the number of prefixes
//! listed, that reports a prefix as a database when its `manifest/` child
//! holds a numbered manifest and does not descend into it.

use vstd::prelude::*;
use crate::listing::{manifest_id_from_name, strip_suffix, u64_of_text};
use crate::text::{lemma_seq_lt_irreflexive, lemma_seq_lt_transitive, lemma_seq_lt_trichotomy, seq_lt, str_eq,
    str_lt};

verus! {

/// Bounds of one walk.
#[derive(Clone, Copy, Debug, PartialEq, Eq, Structural)]
pub struct ScanLimits {
    /// How many "directory" levels below the root to descend.
    pub max_depth: usize,
    /// Prefixes listed per root before the walk stops.
    pub max_prefixes: usize,
}

impl Default for ScanLimits {
    fn default() -> (r: Self)
        ensures
            r.max_depth == 4,
            r.max_prefixes == 2000,
    {
        ScanLimits { max_depth: 4, max_prefixes: 2000 }
    }
}

/// Objects of a `manifest/` directory probed before giving up.
pub const DB_ROOT_PROBE_LIMIT: usize = 50;

/// Whether an object name is `<u64>.manifest`.
pub open spec fn is_manifest_name(name: Option<Seq<char>>) -> bool {
    match name {
        Some(n) => match strip_suffix(n, ".manifest"@) {
            Some(stem) => u64_of_text(stem) is Some,
            None => false,
        },
        None => false,
    }
}

pub open spec fn name_views(ns: Seq<Option<String>>) -> Seq<Option<Seq<char>>> {
    ns.map_values(|n: Option<String>|
        match n {
            Some(s) => Some(s@),
            None => None,
        })
}

/// Whether a listing of a `manifest/` directory (its objects' file names,
/// in listing order) shows a database: one of its first objects is a
/// numbered manifest. Strays such as `.DS_Store` sort before the digits,
/// so more than the first object is probed.
pub open spec fn shows_db(names: Seq<Option<Seq<char>>>) -> bool {
    exists|i: int| 0 <= i < names.len() && i < DB_ROOT_PROBE_LIMIT && is_manifest_name(#[trigger] names[i])
}

/// Probes the file names listed under a `manifest/` directory.
pub fn is_db_root(names: &Vec<Option<String>>) -> (r: bool)
    ensures
        r == shows_db(name_views(names@)),
{
    let ghost nv = name_views(names@);
    let mut i: usize = 0;
    while i < names.len() && i < DB_ROOT_PROBE_LIMIT
        invariant
            i <= names@.len(),
            i <= DB_ROOT_PROBE_LIMIT,
            nv == name_views(names@),
            forall|j: int| 0 <= j < i ==> !is_manifest_name(#[trigger] nv[j]),
        decreases names@.len() - i,
    {
        let hit = match &names[i] {
            Some(n) => manifest_id_from_name(n.as_str()).is_some(),
            None => false,
        };
        if hit {
            assert(is_manifest_name(nv[i as int]));
            return true;
        }
        i = i + 1;
    }
    false
}

/// The first child whose file name is `manifest`.
pub open spec fn is_manifest_child(name: Option<Seq<char>>) -> bool {
    name == Some("manifest"@)
}

/// Position of the first child prefix named `manifest`, given the file
/// names of a listing's child prefixes.
pub fn manifest_child(names: &Vec<Option<String>>) -> (r: Option<usize>)
    ensures
        r is None ==> forall|j: int| 0 <= j < names@.len() ==> !is_manifest_child(#[trigger] name_views(names@)[j]),
        r matches Some(k) ==> k < names@.len() && is_manifest_child(name_views(names@)[k as int]) && forall|j: int|
            0 <= j < k ==> !is_manifest_child(#[trigger] name_views(names@)[j]),
{
    let ghost nv = name_views(names@);
    let mut i: usize = 0;
    while i < names.len()
        invariant
            i <= names@.len(),
            nv == name_views(names@),
            forall|j: int| 0 <= j < i ==> !is_manifest_child(#[trigger] nv[j]),
        decreases names@.len() - i,
    {
        let hit = match &names[i] {
            Some(n) => str_eq(n.as_str(), "manifest"),
            None => false,
        };
        if hit {
            return Some(i);
        }
        i = i + 1;
    }
    None
}

/// A breadth-first walk in progress.
pub struct Walk {
    queue: Vec<(String, usize)>,
    head: usize,
    listed: usize,
    found: Vec<String>,
    limits: ScanLimits,
    stopped_early: bool,
}

pub open spec fn pending_view(q: Seq<(String, usize)>) -> Seq<(Seq<char>, usize)> {
    q.map_values(|p: (String, usize)| (p.0@, p.1))
}

pub open spec fn string_views(s: Seq<String>) -> Seq<Seq<char>> {
    s.map_values(|x: String| x@)
}

impl Walk {
    /// The prefixes still to list, with their depths, in order.
    pub closed spec fn pending(&self) -> Seq<(Seq<char>, usize)> {
        pending_view(self.queue@.skip(self.head as int))
    }

    /// How many prefixes were handed out for listing.
    pub closed spec fn listed_count(&self) -> nat {
        self.listed as nat
    }

    /// The databases found so far, in the order they were found.
    pub closed spec fn found_paths(&self) -> Seq<Seq<char>> {
        string_views(self.found@)
    }

    pub closed spec fn bounds(&self) -> ScanLimits {
        self.limits
    }

    /// Whether the walk stopped on its prefix budget.
    pub closed spec fn budget_exhausted(&self) -> bool {
        self.stopped_early
    }

    /// The walk's invariant: a position inside the queue, no more
    /// prefixes listed than the budget, and no pending prefix deeper than
    /// the depth bound.
    pub closed spec fn wf(&self) -> bool {
        &&& self.head <= self.queue@.len()
        &&& self.listed <= self.limits.max_prefixes
        &&& forall|i: int| self.head <= i < self.queue@.len() ==> (#[trigger] self.queue@[i]).1 <= self.limits.max_depth
    }

    /// A walk never lists more prefixes than its budget, and never holds a
    /// pending prefix deeper than its depth bound.
    pub proof fn lemma_walk_bounded(&self)
        requires
            self.wf(),
        ensures
            self.listed_count() <= self.bounds().max_prefixes,
            forall|i: int| 0 <= i < self.pending().len() ==> (#[trigger] self.pending()[i]).1 <= self.bounds().max_depth,
    {
        assert forall|i: int| 0 <= i < self.pending().len() implies (#[trigger] self.pending()[i]).1
            <= self.bounds().max_depth by {
            assert(self.pending()[i].1 == self.queue@[self.head + i].1);
        }
    }

    /// A walk from `root` (the store root when empty) at depth 0.
    pub fn new(root: String, limits: ScanLimits) -> (r: Self)
        ensures
            r.wf(),
            r.pending() == seq![(root@, 0usize)],
            r.listed_count() == 0,
            r.found_paths().len() == 0,
            r.bounds() == limits,
            !r.budget_exhausted(),
    {
        let mut queue: Vec<(String, usize)> = Vec::new();
        queue.push((root, 0));
        let r = Walk { queue, head: 0, listed: 0, found: Vec::new(), limits, stopped_early: false };
        assert(r.queue@.skip(0) =~= r.queue@);
        assert(pending_view(r.queue@) =~= seq![(r.queue@[0].0@, 0usize)]);
        r
    }

    /// The next prefix to list, with its depth; `None` when the walk is
    /// over, because nothing is pending or because the prefix budget is
    /// spent (then nothing stays pending).
    pub fn next(&mut self) -> (r: Option<(String, usize)>)
        requires
            old(self).wf(),
        ensures
            final(self).wf(),
            final(self).bounds() == old(self).bounds(),
            final(self).found_paths() == old(self).found_paths(),
            old(self).pending().len() == 0 ==> r is None && final(self).pending() == old(self).pending()
                && final(self).listed_count() == old(self).listed_count()
                && final(self).budget_exhausted() == old(self).budget_exhausted(),
            old(self).pending().len() > 0 && old(self).listed_count() >= old(self).bounds().max_prefixes ==> r is None
                && final(self).pending().len() == 0 && final(self).budget_exhausted()
                && final(self).listed_count() == old(self).listed_count(),
            old(self).pending().len() > 0 && old(self).listed_count() < old(self).bounds().max_prefixes ==> (r
                matches Some(p) && (p.0@, p.1) == old(self).pending()[0] && final(self).pending()
                == old(self).pending().drop_first() && final(self).listed_count() == old(self).listed_count() + 1
                && final(self).budget_exhausted() == old(self).budget_exhausted()),
            r matches Some(p) ==> p.1 <= final(self).bounds().max_depth,
    {
        if self.head >= self.queue.len() {
            return None;
        }
        if self.listed >= self.limits.max_prefixes {
            self.head = self.queue.len();
            self.stopped_early = true;
            proof {
                assert(self.queue@.skip(self.head as int) =~= Seq::<(String, usize)>::empty());
            }
            return None;
        }
        let ghost q = self.queue@;
        let ghost h = self.head as int;
        let mut item = (String::new(), 0usize);
        let i = self.head;
        std::mem::swap(&mut item, &mut self.queue[i]);
        self.head = self.head + 1;
        self.listed = self.listed + 1;
        proof {
            assert(item == q[h]);
            assert(self.queue@.skip(self.head as int) =~= q.skip(h).drop_first());
            assert(pending_view(q.skip(h).drop_first()) =~= pending_view(q.skip(h)).drop_first());
            assert(pending_view(q.skip(h))[0] == (q[h].0@, q[h].1));
            assert forall|k: int| self.head <= k < self.queue@.len() implies (#[trigger] self.queue@[k]).1
                <= self.limits.max_depth by {
                assert(self.queue@[k] == q[k]);
            }
        }
        Some(item)
    }

    /// Records the listing of `prefix` (at `depth`): a database when
    /// `is_db`, which is then not descended into; otherwise its child
    /// prefixes are queued one level deeper, unless the depth bound is
    /// reached.
    pub fn visit(&mut self, prefix: String, depth: usize, is_db: bool, children: Vec<String>)
        requires
            old(self).wf(),
        ensures
            final(self).wf(),
            final(self).bounds() == old(self).bounds(),
            final(self).listed_count() == old(self).listed_count(),
            final(self).budget_exhausted() == old(self).budget_exhausted(),
            is_db ==> final(self).found_paths() == old(self).found_paths().push(prefix@) && final(self).pending()
                == old(self).pending(),
            !is_db ==> final(self).found_paths() == old(self).found_paths(),
            !is_db && depth < old(self).bounds().max_depth ==> final(self).pending() == old(self).pending()
                + string_views(children@).map_values(|c: Seq<char>| (c, (depth + 1) as usize)),
            !is_db && depth >= old(self).bounds().max_depth ==> final(self).pending() == old(self).pending(),
    {
        let ghost q0 = self.queue@;
        if is_db {
            self.found.push(prefix);
            proof {
                assert(string_views(self.found@) =~= string_views(old(self).found@).push(prefix@));
            }
            return;
        }
        if depth < self.limits.max_depth {
            let mut rest = children;
            let mut items: Vec<String> = Vec::new();
            let ghost cs = rest@;
            while rest.len() > 0
                invariant
                    rest@ == cs.take(rest@.len() as int),
                    rest@.len() + items@.len() == cs.len(),
                    forall|k: int| 0 <= k < items@.len() ==> #[trigger] items@[k] == cs[cs.len() - 1 - k],
                decreases rest@.len(),
            {
                let c = rest.pop().unwrap();
                items.push(c);
                proof {
                    assert(rest@ =~= cs.take(rest@.len() as int));
                }
            }
            let mut j: usize = 0;
            let n = items.len();
            while items.len() > 0
                invariant
                    j + items@.len() == n,
                    n == cs.len(),
                    forall|k: int| 0 <= k < items@.len() ==> #[trigger] items@[k] == cs[cs.len() - 1 - k],
                    self.head == old(self).head,
                    self.limits == old(self).limits,
                    self.listed == old(self).listed,
                    self.found == old(self).found,
                    self.stopped_early == old(self).stopped_early,
                    depth < self.limits.max_depth,
                    self.queue@ == q0 + cs.take(j as int).map_values(|c: String| (c, (depth + 1) as usize)),
                    old(self).wf(),
                decreases items@.len(),
            {
                let ghost len = items@.len();
                let c = items.pop().unwrap();
                proof {
                    assert(c == cs[j as int]);
                }
                self.queue.push((c, depth + 1));
                proof {
                    assert(cs.take(j + 1).map_values(|c: String| (c, (depth + 1) as usize)) =~= cs.take(
                        j as int,
                    ).map_values(|c: String| (c, (depth + 1) as usize)).push((cs[j as int], (depth + 1) as usize)));
                }
                j = j + 1;
            }
            proof {
                assert(cs.take(n as int) =~= cs);
                let added = cs.map_values(|c: String| (c, (depth + 1) as usize));
                assert(self.queue@ == q0 + added);
                assert(self.queue@.skip(self.head as int) =~= q0.skip(self.head as int) + added);
                assert(pending_view(q0.skip(self.head as int) + added) =~= pending_view(q0.skip(self.head as int))
                    + string_views(cs).map_values(|c: Seq<char>| (c, (depth + 1) as usize)));
                assert forall|k: int| self.head <= k < self.queue@.len() implies (#[trigger] self.queue@[k]).1
                    <= self.limits.max_depth by {
                    if k < q0.len() {
                        assert(self.queue@[k] == q0[k]);
                    } else {
                        assert(self.queue@[k] == added[k - q0.len()]);
                    }
                }
            }
        } else {
        }
    }

    /// Whether the walk stopped on its prefix budget.
    pub fn stopped_on_budget(&self) -> (r: bool)
        ensures
            r == self.budget_exhausted(),
    {
        self.stopped_early
    }

    /// The databases found, in ascending order.
    pub fn finish(self) -> (r: Vec<String>)
        ensures
            sorted_texts(string_views(r@)),
            string_views(r@).to_multiset() == self.found_paths().to_multiset(),
    {
        let r = sort_strings(self.found);
        r
    }
}

/// Whether `s` is in ascending order.
pub open spec fn sorted_texts(s: Seq<Seq<char>>) -> bool {
    forall|i: int, j: int| 0 <= i < j < s.len() ==> !seq_lt(#[trigger] s[j], #[trigger] s[i])
}

/// Sorts strings ascending, keeping every element.
fn sort_strings(items: Vec<String>) -> (r: Vec<String>)
    ensures
        sorted_texts(string_views(r@)),
        r@.to_multiset() == items@.to_multiset(),
        string_views(r@).to_multiset() == string_views(items@).to_multiset(),
{
    broadcast use vstd::seq_lib::group_to_multiset_ensures;
    let ghost all = items@;
    let mut rest = items;
    let mut out: Vec<String> = Vec::new();
    while rest.len() > 0
        invariant
            sorted_texts(string_views(out@)),
            out@.to_multiset().add(rest@.to_multiset()) == all.to_multiset(),
            string_views(out@).to_multiset().add(string_views(rest@).to_multiset()) == string_views(all).to_multiset(),
        decreases rest@.len(),
    {
        let ghost before_rest = rest@;
        let x = rest.pop().unwrap();
        proof {
            assert(before_rest == rest@.push(x));
            assert(string_views(before_rest) =~= string_views(rest@).push(x@));
        }
        let mut p: usize = 0;
        while p < out.len() && !str_lt(x.as_str(), out[p].as_str())
            invariant
                p <= out@.len(),
                forall|a: int| 0 <= a < p ==> !seq_lt(x@, (#[trigger] out@[a])@),
            decreases out@.len() - p,
        {
            p = p + 1;
        }
        let ghost before = out@;
        out.insert(p, x);
        proof {
            let sv = string_views(out@);
            let bv = string_views(before);
            assert(sv =~= bv.insert(p as int, x@));
            assert forall|i: int, j: int| 0 <= i < j < sv.len() implies !seq_lt(#[trigger] sv[j], #[trigger] sv[i]) by {
                if j < p {
                    assert(sv[i] == bv[i] && sv[j] == bv[j]);
                } else if j == p {
                    assert(sv[i] == before[i]@);
                    assert(!seq_lt(x@, before[i]@));
                    lemma_seq_lt_trichotomy(x@, before[i]@);
                } else if i > p {
                    assert(sv[i] == bv[i - 1] && sv[j] == bv[j - 1]);
                } else if i == p {
                    assert(sv[j] == before[j - 1]@);
                    assert(seq_lt(x@, before[p as int]@));
                    if seq_lt(before[j - 1]@, x@) {
                        if j - 1 > p {
                            lemma_seq_lt_transitive(before[j - 1]@, x@, before[p as int]@);
                            assert(!seq_lt(bv[j - 1], bv[p as int]));
                        } else {
                            lemma_seq_lt_trichotomy(x@, before[p as int]@);
                            lemma_seq_lt_irreflexive(x@);
                            lemma_seq_lt_transitive(x@, before[p as int]@, x@);
                        }
                    }
                } else {
                    assert(sv[i] == bv[i] && sv[j] == bv[j - 1]);
                }
            }
            vstd::seq_lib::to_multiset_insert(bv, p as int, x@);
            vstd::seq_lib::to_multiset_insert(before, p as int, x);
            assert(out@ == before.insert(p as int, x));
            assert(string_views(out@).to_multiset() == bv.to_multiset().insert(x@));
            assert(out@.to_multiset() == before.to_multiset().insert(x));
            rest@.to_multiset_ensures();
            string_views(rest@).to_multiset_ensures();
            assert(rest@.push(x).to_multiset() == rest@.to_multiset().insert(x));
            assert(string_views(rest@).push(x@).to_multiset() == string_views(rest@).to_multiset().insert(x@));
        }
    }
    assert(rest@ =~= Seq::<String>::empty());
    assert(string_views(rest@) =~= Seq::<Seq<char>>::empty());
    out
}

} // verus!
