use vstd::prelude::*;
use crate::archetype::Archetype;
use crate::chunk::{dyn_passing, is_chunk_for, passes_at, seq_has, ChunkView};
use crate::component::ComponentTypeId;
use crate::filter::{lemma_group_filter_semantics, DynamicFilter, EntityFilter};
use crate::view::QueryView;
use crate::world::{StorageAccessor, SubGroup, World};

verus! {

/// The archetype indices below `n` whose layout matches the filter, in index
/// order — which is discovery order, since new archetypes always receive a
/// higher index.
pub open spec fn matching_upto(archs: Seq<Archetype>, f: EntityFilter, n: int) -> Seq<usize>
    decreases n,
{
    if n <= 0 {
        Seq::empty()
    } else {
        let prev = matching_upto(archs, f, n - 1);
        if f.matches(archs[n - 1].layout@) {
            prev.push((n - 1) as usize)
        } else {
            prev
        }
    }
}

/// The matched-index sequence is sorted, names only matching archetypes
/// below `n`, and names every one of them.
pub proof fn lemma_matching_upto_props(archs: Seq<Archetype>, f: EntityFilter, n: int)
    requires
        0 <= n <= archs.len() <= usize::MAX,
    ensures
        forall|k: int, l: int|
            0 <= k < l < matching_upto(archs, f, n).len() ==> matching_upto(archs, f, n)[k]
                < matching_upto(archs, f, n)[l],
        forall|k: int|
            0 <= k < matching_upto(archs, f, n).len() ==> (#[trigger] matching_upto(archs, f, n)[k])
                < n && f.matches(archs[matching_upto(archs, f, n)[k] as int].layout@),
        forall|j: int|
            0 <= j < n && f.matches((#[trigger] archs[j]).layout@) ==> exists|k: int|
                0 <= k < matching_upto(archs, f, n).len() && matching_upto(archs, f, n)[k] == j,
    decreases n,
{
    if n > 0 {
        lemma_matching_upto_props(archs, f, n - 1);
        let prev = matching_upto(archs, f, n - 1);
        let cur = matching_upto(archs, f, n);
        if f.matches(archs[n - 1].layout@) {
            assert(cur == prev.push((n - 1) as usize));
            assert forall|j: int|
                0 <= j < n && f.matches((#[trigger] archs[j]).layout@) implies exists|k: int|
                0 <= k < cur.len() && cur[k] == j by {
                if j == n - 1 {
                    assert(cur[cur.len() - 1] == (n - 1) as usize);
                } else {
                    let k = choose|k: int| 0 <= k < prev.len() && prev[k] == j;
                    assert(cur[k] == j);
                }
            }
        } else {
            assert(cur == prev);
            assert forall|j: int|
                0 <= j < n && f.matches((#[trigger] archs[j]).layout@) implies exists|k: int|
                0 <= k < cur.len() && cur[k] == j by {
                let k = choose|k: int| 0 <= k < prev.len() && prev[k] == j;
                assert(cur[k] == j);
            }
        }
    }
}

/// Matching further never disturbs earlier matches: the matched-index
/// sequence below `n` is a prefix of the one below `m`.
pub proof fn lemma_matching_upto_monotone(archs: Seq<Archetype>, f: EntityFilter, n: int, m: int)
    requires
        0 <= n <= m,
    ensures
        matching_upto(archs, f, n).len() <= matching_upto(archs, f, m).len(),
        forall|k: int|
            0 <= k < matching_upto(archs, f, n).len() ==> matching_upto(archs, f, m)[k]
                == matching_upto(archs, f, n)[k],
    decreases m,
{
    if m > n {
        lemma_matching_upto_monotone(archs, f, n, m - 1);
    }
}

/// Matching below `n` only reads the first `n` archetypes, so a world that
/// has grown keeps its earlier matches.
pub proof fn lemma_matching_upto_prefix(
    a1: Seq<Archetype>,
    a2: Seq<Archetype>,
    f: EntityFilter,
    n: int,
)
    requires
        0 <= n <= a1.len(),
        n <= a2.len(),
        forall|i: int| 0 <= i < n ==> a1[i] == a2[i],
    ensures
        matching_upto(a1, f, n) == matching_upto(a2, f, n),
    decreases n,
{
    if n > 0 {
        lemma_matching_upto_prefix(a1, a2, f, n - 1);
    }
}

/// Why a query cannot be executed.
#[derive(Clone, Copy, PartialEq, Eq, Structural, Debug)]
pub enum QueryError {
    /// The accessor does not permit an access the view declares.
    ComponentAccessDenied,
    /// A matched archetype is not available through the accessor.
    ArchetypeAccessDenied,
}

/// The result of evaluating a query against a world: the matched archetype
/// indices, a sub-range over them (cheap to split for parallel iteration),
/// and whether the order is a group's declared order.
#[derive(Debug)]
pub struct QueryResult {
    pub indices: Vec<usize>,
    pub lo: usize,
    pub hi: usize,
    pub group_ordered: bool,
}

impl QueryResult {
    pub open spec fn wf(self) -> bool {
        self.lo <= self.hi <= self.indices@.len()
    }

    /// The archetype indices this result ranges over.
    pub open spec fn range_seq(self) -> Seq<usize> {
        self.indices@.subrange(self.lo as int, self.hi as int)
    }

    /// A result over all given indices, in cache (discovery) order.
    pub fn unordered(indices: Vec<usize>) -> (r: QueryResult)
        ensures
            r.indices == indices,
            r.lo == 0,
            r.hi == indices@.len(),
            !r.group_ordered,
            r.wf(),
            r.range_seq() =~= indices@,
    {
        let hi = indices.len();
        QueryResult { indices, lo: 0, hi, group_ordered: false }
    }

    /// A result over all given indices, in a group's declared order.
    pub fn ordered(indices: Vec<usize>) -> (r: QueryResult)
        ensures
            r.indices == indices,
            r.lo == 0,
            r.hi == indices@.len(),
            r.group_ordered,
            r.wf(),
            r.range_seq() =~= indices@,
    {
        let hi = indices.len();
        QueryResult { indices, lo: 0, hi, group_ordered: true }
    }

    /// The archetype indices inside the current range, as a copy.
    pub fn index(&self) -> (r: Vec<usize>)
        requires
            self.wf(),
        ensures
            r@ == self.range_seq(),
    {
        let mut out: Vec<usize> = Vec::new();
        let mut k: usize = self.lo;
        while k < self.hi
            invariant
                self.lo <= k <= self.hi <= self.indices@.len(),
                out@ =~= self.indices@.subrange(self.lo as int, k as int),
            decreases self.hi - k,
        {
            out.push(self.indices[k]);
            proof {
                assert(out@ =~= self.indices@.subrange(self.lo as int, k + 1));
            }
            k += 1;
        }
        proof {
            assert(out@ =~= self.range_seq());
        }
        out
    }

    /// The sub-range of the matched archetypes this result covers.
    pub fn range(&self) -> (r: (usize, usize))
        ensures
            r.0 == self.lo,
            r.1 == self.hi,
    {
        (self.lo, self.hi)
    }

    /// Whether storage order can be assumed to follow a group's order.
    pub fn is_ordered(&self) -> (r: bool)
        ensures
            r == self.group_ordered,
    {
        self.group_ordered
    }

    /// The number of archetypes in range.
    pub fn len(&self) -> (r: usize)
        requires
            self.wf(),
        ensures
            r == self.hi - self.lo,
            r == self.range_seq().len(),
    {
        self.hi - self.lo
    }

    /// Whether no archetype is in range.
    pub fn is_empty(&self) -> (r: bool)
        requires
            self.wf(),
        ensures
            r == (self.range_seq().len() == 0),
    {
        self.hi - self.lo == 0
    }

    /// Splits the range at an absolute position: the left part covers
    /// `[lo, at)`, the right part `[at, hi)`; both keep the full index list
    /// and the ordering flag.
    pub fn split_at(self, at: usize) -> (r: (QueryResult, QueryResult))
        requires
            self.wf(),
            self.lo <= at <= self.hi,
        ensures
            r.0.indices@ == self.indices@ && r.1.indices@ == self.indices@,
            r.0.lo == self.lo && r.0.hi == at,
            r.1.lo == at && r.1.hi == self.hi,
            r.0.group_ordered == self.group_ordered && r.1.group_ordered == self.group_ordered,
            r.0.wf() && r.1.wf(),
            r.0.range_seq() + r.1.range_seq() == self.range_seq(),
    {
        let left = QueryResult {
            indices: copy_indices(&self.indices),
            lo: self.lo,
            hi: at,
            group_ordered: self.group_ordered,
        };
        let right = QueryResult {
            indices: self.indices,
            lo: at,
            hi: self.hi,
            group_ordered: self.group_ordered,
        };
        proof {
            assert(left.range_seq() + right.range_seq() =~= self.range_seq());
        }
        (left, right)
    }

    /// Halves the range for work splitting: returns the right half in place
    /// of `self` and the left half as a sibling. The split sits at the
    /// range's midpoint, both halves are strictly shorter than the whole
    /// (so repeated splitting terminates), and the sibling is absent exactly
    /// when the range holds fewer than two archetypes — the signal that it
    /// cannot be split further.
    pub fn split_for_par(self) -> (r: (QueryResult, Option<QueryResult>))
        requires
            self.wf(),
        ensures
            r.0.wf(),
            r.0.indices@ == self.indices@,
            r.0.group_ordered == self.group_ordered,
            (r.1 is Some) <==> self.hi - self.lo >= 2,
            match r.1 {
                Some(left) => {
                    &&& left.wf()
                    &&& left.indices@ == self.indices@
                    &&& left.group_ordered == self.group_ordered
                    &&& left.lo == self.lo
                    &&& left.hi == self.lo + (self.hi - self.lo) / 2
                    &&& r.0.lo == left.hi
                    &&& r.0.hi == self.hi
                    &&& left.range_seq().len() > 0
                    &&& left.range_seq().len() < self.range_seq().len()
                    &&& r.0.range_seq().len() < self.range_seq().len()
                    &&& left.range_seq() + r.0.range_seq() == self.range_seq()
                },
                None => r.0.lo == self.lo && r.0.hi == self.hi && r.0.range_seq()
                    == self.range_seq(),
            },
    {
        let mid = self.lo + (self.hi - self.lo) / 2;
        let ghost whole = self.range_seq();
        let (left, right) = self.split_at(mid);
        if left.hi - left.lo > 0 {
            (right, Some(left))
        } else {
            proof {
                assert(left.range_seq().len() == 0);
                assert(right.range_seq() =~= whole);
            }
            (right, None)
        }
    }
}

/// One world's cached layout matches, keyed by the world's identifier.
#[derive(Debug)]
pub enum Cache {
    /// The growing list of matched indices, and how many archetypes of the
    /// world have been considered so far; the search resumes from there.
    Unordered { archetypes: Vec<usize>, seen: usize },
    /// A binding into a group: iteration follows the group's declared order.
    Ordered { group: usize, subgroup: SubGroup },
}

/// Looks a world's cache entry up in an association list (first match).
pub open spec fn find_cache(entries: Seq<(u64, Cache)>, wid: u64) -> Option<Cache>
    decreases entries.len(),
{
    if entries.len() == 0 {
        None
    } else if entries[0].0 == wid {
        Some(entries[0].1)
    } else {
        find_cache(entries.drop_first(), wid)
    }
}

/// No two cache entries share a world identifier.
pub open spec fn unique_keys(entries: Seq<(u64, Cache)>) -> bool {
    forall|i: int, j: int| 0 <= i < j < entries.len() ==> entries[i].0 != entries[j].0
}

proof fn lemma_find_cache_present(entries: Seq<(u64, Cache)>, wid: u64, i: int)
    requires
        unique_keys(entries),
        0 <= i < entries.len(),
        entries[i].0 == wid,
    ensures
        find_cache(entries, wid) == Some(entries[i].1),
    decreases entries.len(),
{
    if i == 0 {
    } else {
        assert(entries[0].0 != wid);
        let rest = entries.drop_first();
        assert forall|a: int, b: int| 0 <= a < b < rest.len() implies rest[a].0 != rest[b].0 by {
            assert(rest[a] == entries[a + 1] && rest[b] == entries[b + 1]);
        }
        assert(rest[i - 1] == entries[i]);
        lemma_find_cache_present(rest, wid, i - 1);
    }
}

proof fn lemma_find_cache_absent(entries: Seq<(u64, Cache)>, wid: u64)
    requires
        forall|i: int| 0 <= i < entries.len() ==> (#[trigger] entries[i]).0 != wid,
    ensures
        find_cache(entries, wid) is None,
    decreases entries.len(),
{
    if entries.len() > 0 {
        let rest = entries.drop_first();
        assert forall|i: int| 0 <= i < rest.len() implies (#[trigger] rest[i]).0 != wid by {
            assert(rest[i] == entries[i + 1]);
        }
        lemma_find_cache_absent(rest, wid);
    }
}

/// Replacing the unique entry of one key (here: removing it at `ri` and
/// pushing the replacement) keeps the keys unique, binds the key to the new
/// entry, and leaves every other key's binding unchanged.
proof fn lemma_cache_replace(
    old_e: Seq<(u64, Cache)>,
    new_e: Seq<(u64, Cache)>,
    ri: int,
    wid: u64,
    c: Cache,
)
    requires
        unique_keys(old_e),
        0 <= ri < old_e.len(),
        old_e[ri].0 == wid,
        new_e == old_e.remove(ri).push((wid, c)),
    ensures
        unique_keys(new_e),
        find_cache(new_e, wid) == Some(c),
        forall|w2: u64| w2 != wid ==> find_cache(new_e, w2) == find_cache(old_e, w2),
{
    let removed = old_e.remove(ri);
    assert(removed.len() == old_e.len() - 1);
    assert forall|k: int| 0 <= k < removed.len() implies #[trigger] removed[k] == (if k < ri {
        old_e[k]
    } else {
        old_e[k + 1]
    }) by {}
    assert forall|a: int, b: int| 0 <= a < b < new_e.len() implies new_e[a].0 != new_e[b].0 by {
        if b == new_e.len() - 1 {
            assert(new_e[b].0 == wid);
            if a < ri {
                assert(new_e[a] == old_e[a]);
            } else {
                assert(new_e[a] == old_e[a + 1]);
            }
        } else {
            if a < ri {
                assert(new_e[a] == old_e[a]);
            } else {
                assert(new_e[a] == old_e[a + 1]);
            }
            if b < ri {
                assert(new_e[b] == old_e[b]);
            } else {
                assert(new_e[b] == old_e[b + 1]);
            }
        }
    }
    lemma_find_cache_present(new_e, wid, new_e.len() - 1);
    assert forall|w2: u64| w2 != wid implies find_cache(new_e, w2) == find_cache(old_e, w2) by {
        if exists|i: int| 0 <= i < old_e.len() && (#[trigger] old_e[i]).0 == w2 {
            let i = choose|i: int| 0 <= i < old_e.len() && (#[trigger] old_e[i]).0 == w2;
            lemma_find_cache_present(old_e, w2, i);
            if i < ri {
                assert(new_e[i] == old_e[i]);
                lemma_find_cache_present(new_e, w2, i);
            } else {
                assert(i != ri);
                assert(new_e[i - 1] == old_e[i]);
                lemma_find_cache_present(new_e, w2, i - 1);
            }
        } else {
            lemma_find_cache_absent(old_e, w2);
            assert forall|k: int| 0 <= k < new_e.len() implies (#[trigger] new_e[k]).0 != w2 by {
                if k == new_e.len() - 1 {
                } else if k < ri {
                    assert(new_e[k] == old_e[k]);
                } else {
                    assert(new_e[k] == old_e[k + 1]);
                }
            }
            lemma_find_cache_absent(new_e, w2);
        }
    }
}

/// Appending an entry for a fresh key keeps the keys unique, binds the key,
/// and leaves every other key's binding unchanged.
proof fn lemma_cache_insert(old_e: Seq<(u64, Cache)>, new_e: Seq<(u64, Cache)>, wid: u64, c: Cache)
    requires
        unique_keys(old_e),
        forall|i: int| 0 <= i < old_e.len() ==> (#[trigger] old_e[i]).0 != wid,
        new_e == old_e.push((wid, c)),
    ensures
        unique_keys(new_e),
        find_cache(new_e, wid) == Some(c),
        forall|w2: u64| w2 != wid ==> find_cache(new_e, w2) == find_cache(old_e, w2),
{
    assert forall|a: int, b: int| 0 <= a < b < new_e.len() implies new_e[a].0 != new_e[b].0 by {
        if b == new_e.len() - 1 {
            assert(new_e[a] == old_e[a]);
        } else {
            assert(new_e[a] == old_e[a] && new_e[b] == old_e[b]);
        }
    }
    lemma_find_cache_present(new_e, wid, new_e.len() - 1);
    assert forall|w2: u64| w2 != wid implies find_cache(new_e, w2) == find_cache(old_e, w2) by {
        if exists|i: int| 0 <= i < old_e.len() && (#[trigger] old_e[i]).0 == w2 {
            let i = choose|i: int| 0 <= i < old_e.len() && (#[trigger] old_e[i]).0 == w2;
            lemma_find_cache_present(old_e, w2, i);
            assert(new_e[i] == old_e[i]);
            lemma_find_cache_present(new_e, w2, i);
        } else {
            lemma_find_cache_absent(old_e, w2);
            assert forall|k: int| 0 <= k < new_e.len() implies (#[trigger] new_e[k]).0 != w2 by {
                if k < old_e.len() {
                    assert(new_e[k] == old_e[k]);
                }
            }
            lemma_find_cache_absent(new_e, w2);
        }
    }
}

/// The archetype indices a group's sub-region names, in group order.
pub open spec fn group_slice(w: World, g: usize, sub: SubGroup) -> Seq<usize> {
    w.groups@[g as int].archetypes@.subrange(sub.offset as int, sub.offset + sub.length)
}

/// An ordered cache entry is a sound and complete binding: the sub-region's
/// members all match the filter, and every matching archetype of the world
/// is a member.
pub open spec fn ordered_cache_ok(w: World, f: EntityFilter, g: usize, sub: SubGroup) -> bool {
    &&& (g as int) < w.groups@.len()
    &&& sub.offset + sub.length <= w.groups@[g as int].archetypes@.len()
    &&& forall|p: int|
        sub.offset <= p < sub.offset + sub.length ==> (#[trigger] w.groups@[g as int].archetypes@[p])
            < w.archetypes@.len() && f.matches(
            w.archetypes@[w.groups@[g as int].archetypes@[p] as int].layout@,
        )
    &&& forall|j: int|
        0 <= j < w.archetypes@.len() && f.matches((#[trigger] w.archetypes@[j]).layout@)
            ==> exists|p: int|
            sub.offset <= p < sub.offset + sub.length && w.groups@[g as int].archetypes@[p] == j
}

/// A cache entry faithfully reflects the world it is keyed under.
pub open spec fn cache_entry_ok(c: Cache, w: World, f: EntityFilter) -> bool {
    match c {
        Cache::Unordered { archetypes, seen } => seen <= w.archetypes@.len() && archetypes@
            == matching_upto(w.archetypes@, f, seen as int),
        Cache::Ordered { group, subgroup } => ordered_cache_ok(w, f, group, subgroup),
    }
}

/// The archetype indices a cache entry stands for.
pub open spec fn cache_indices(c: Cache, w: World) -> Seq<usize> {
    match c {
        Cache::Unordered { archetypes, seen } => archetypes@,
        Cache::Ordered { group, subgroup } => group_slice(w, group, subgroup),
    }
}

/// How one evaluation evolves a query's cache entry for a world: the entry
/// exists afterwards; an unordered entry has then considered the whole world
/// and lists exactly its matches; an entry keeps its variant (an ordered
/// binding is stable); a query that cannot bind a group holds an unordered
/// entry; and an unordered match list only grows — archetypes once admitted
/// stay, in place, and `seen` never decreases.
pub open spec fn cache_evolved(q0: Query, q1: Query, w: World) -> bool {
    &&& find_cache(q1.layout_matches@, w.id) is Some
    &&& (find_cache(q1.layout_matches@, w.id) matches Some(Cache::Unordered { archetypes, seen })
        ==> (seen == w.archetypes@.len() && archetypes@ == matching_upto(
        w.archetypes@,
        q0.filter,
        w.archetypes@.len() as int,
    )))
    &&& (find_cache(q0.layout_matches@, w.id) matches Some(Cache::Unordered { .. })
        ==> find_cache(q1.layout_matches@, w.id) matches Some(Cache::Unordered { .. }))
    &&& (find_cache(q0.layout_matches@, w.id) matches Some(Cache::Ordered { group, subgroup })
        ==> find_cache(q1.layout_matches@, w.id) == Some(Cache::Ordered { group, subgroup }))
    &&& ((find_cache(q0.layout_matches@, w.id) is None && !q0.filter.spec_can_match_group())
        ==> find_cache(q1.layout_matches@, w.id) matches Some(Cache::Unordered { .. }))
    &&& (find_cache(q0.layout_matches@, w.id) matches Some(
        Cache::Unordered { archetypes: a0, seen: s0 },
    ) ==> (find_cache(q1.layout_matches@, w.id) matches Some(
        Cache::Unordered { archetypes: a1, seen: s1 },
    ) && s0 <= s1 && a0@.len() <= a1@.len() && (forall|k: int|
        0 <= k < a0@.len() ==> a1@[k] == a0@[k])))
}

/// Every named archetype exists and matches the filter.
pub open spec fn result_sound(idxs: Seq<usize>, w: World, f: EntityFilter) -> bool {
    forall|k: int|
        0 <= k < idxs.len() ==> (#[trigger] idxs[k]) < w.archetypes@.len() && f.matches(
            w.archetypes@[idxs[k] as int].layout@,
        )
}

/// Every matching archetype of the world is named.
pub open spec fn result_complete(idxs: Seq<usize>, w: World, f: EntityFilter) -> bool {
    forall|j: int|
        0 <= j < w.archetypes@.len() && f.matches((#[trigger] w.archetypes@[j]).layout@)
            ==> exists|k: int| 0 <= k < idxs.len() && idxs[k] == j
}

/// No archetype is named twice.
pub open spec fn result_distinct(idxs: Seq<usize>) -> bool {
    forall|k: int, l: int| 0 <= k < l < idxs.len() ==> idxs[k] != idxs[l]
}

/// Copies a vector of archetype indices.
pub fn copy_indices(v: &Vec<usize>) -> (r: Vec<usize>)
    ensures
        r@ == v@,
{
    let mut out: Vec<usize> = Vec::new();
    let mut i: usize = 0;
    while i < v.len()
        invariant
            i <= v@.len(),
            out@ =~= v@.subrange(0, i as int),
        decreases v@.len() - i,
    {
        out.push(v[i]);
        i += 1;
    }
    proof {
        assert(out@ =~= v@);
    }
    out
}

/// A query: a view, the static filter guarding it, a per-chunk dynamic
/// filter, and per-world caches of the matched archetypes. Created once and
/// reused; evaluating it refreshes the cache incrementally.
#[derive(Debug)]
pub struct Query {
    pub view: QueryView,
    pub filter: EntityFilter,
    pub dynamic_filter: DynamicFilter,
    pub layout_matches: Vec<(u64, Cache)>,
}

impl Query {
    /// The view is valid, the filter admits only layouts the view can be
    /// fetched from, and cache keys are unique.
    pub open spec fn wf(self) -> bool {
        &&& self.view.valid()
        &&& forall|layout: Seq<ComponentTypeId>|
            #[trigger] self.filter.matches(layout) ==> self.view.requires_layout(layout)
        &&& unique_keys(self.layout_matches@)
    }

    /// The cache entry for a world identifier, if any.
    pub open spec fn cache_for(self, wid: u64) -> Option<Cache> {
        find_cache(self.layout_matches@, wid)
    }

    /// The query's cache entry for this world, if present, was produced by
    /// evaluating this query against this world (possibly before it grew).
    pub open spec fn compatible_with(self, w: World) -> bool {
        match find_cache(self.layout_matches@, w.id) {
            None => true,
            Some(c) => cache_entry_ok(c, w, self.filter),
        }
    }

    /// Builds a query over a view; the filter defaults to requiring every
    /// non-optional component of the view. Rejects (with `None`) exactly the
    /// views in which a component appears twice with a conflicting mode.
    pub fn new(view: QueryView) -> (r: Option<Query>)
        ensures
            match r {
                Some(q) => {
                    &&& view.valid()
                    &&& q.view == view
                    &&& q.dynamic_filter is Passthrough
                    &&& q.layout_matches@.len() == 0
                    &&& q.wf()
                    &&& forall|layout: Seq<ComponentTypeId>|
                        (#[trigger] q.filter.matches(layout)) <==> view.requires_layout(layout)
                    &&& forall|w: World| q.compatible_with(w)
                },
                None => !view.valid(),
            },
    {
        if !view.validate() {
            return None;
        }
        let filter = view.default_filter();
        let q = Query {
            view,
            filter,
            dynamic_filter: DynamicFilter::Passthrough,
            layout_matches: Vec::new(),
        };
        proof {
            assert(forall|w: World| q.compatible_with(w));
        }
        Some(q)
    }

    /// Conjoins a further filter onto the query. The predicate changed, so
    /// the caches are discarded.
    pub fn filter(self, extra: EntityFilter) -> (r: Query)
        requires
            self.wf(),
        ensures
            r.wf(),
            r.view == self.view,
            r.dynamic_filter == self.dynamic_filter,
            r.layout_matches@.len() == 0,
            forall|layout: Seq<ComponentTypeId>|
                (#[trigger] r.filter.matches(layout)) <==> self.filter.matches(layout)
                    && extra.matches(layout),
            forall|w: World| r.compatible_with(w),
    {
        let r = Query {
            view: self.view,
            filter: self.filter.and(extra),
            dynamic_filter: self.dynamic_filter,
            layout_matches: Vec::new(),
        };
        proof {
            assert(forall|w: World| r.compatible_with(w));
        }
        r
    }

    /// Replaces the per-chunk dynamic filter. The static layout predicate is
    /// unchanged, so the caches stay valid.
    pub fn with_dynamic_filter(self, d: DynamicFilter) -> (r: Query)
        ensures
            r.view == self.view,
            r.filter == self.filter,
            r.dynamic_filter == d,
            r.layout_matches == self.layout_matches,
            self.wf() ==> r.wf(),
            forall|w: World| self.compatible_with(w) ==> #[trigger] r.compatible_with(w),
    {
        Query {
            view: self.view,
            filter: self.filter,
            dynamic_filter: d,
            layout_matches: self.layout_matches,
        }
    }

    /// The position of a world's cache entry.
    fn cache_index(&self, wid: u64) -> (r: Option<usize>)
        ensures
            match r {
                Some(i) => i < self.layout_matches@.len() && self.layout_matches@[i as int].0
                    == wid,
                None => forall|i: int|
                    0 <= i < self.layout_matches@.len() ==> (#[trigger] self.layout_matches@[i]).0
                        != wid,
            },
    {
        let mut i: usize = 0;
        while i < self.layout_matches.len()
            invariant
                i <= self.layout_matches@.len(),
                forall|k: int| 0 <= k < i ==> (#[trigger] self.layout_matches@[k]).0 != wid,
            decreases self.layout_matches@.len() - i,
        {
            if self.layout_matches[i].0 == wid {
                return Some(i);
            }
            i += 1;
        }
        None
    }

    /// The initial cache for a world: when the filter can match a group, the
    /// world's group of the first required component is probed for an exact
    /// region; otherwise — and whenever the probe fails — an empty unordered
    /// cache, refreshed by the caller.
    fn init_cache(&self, world: &World) -> (c: Cache)
        requires
            world.wf(),
        ensures
            cache_entry_ok(c, *world, self.filter),
            !self.filter.spec_can_match_group() ==> c matches Cache::Unordered { .. },
    {
        if self.filter.can_match_group() {
            let comps = self.filter.group_components();
            if comps.len() > 0 {
                match world.group(&comps[0]) {
                    Some(g) => {
                        match world.exact_match(g, &comps) {
                            Some(subgroup) => {
                                proof {
                                    let ga = world.groups@[g as int].archetypes@;
                                    assert forall|p: int|
                                        subgroup.offset <= p < subgroup.offset
                                            + subgroup.length implies (#[trigger] ga[p])
                                        < world.archetypes@.len() && self.filter.matches(
                                        world.archetypes@[ga[p] as int].layout@,
                                    ) by {
                                        assert(crate::world::group_wf(
                                            world.groups@[g as int],
                                            world.archetypes@.len() as int,
                                        ));
                                        lemma_group_filter_semantics(
                                            self.filter,
                                            world.archetypes@[ga[p] as int].layout@,
                                        );
                                    }
                                    assert forall|j: int|
                                        0 <= j < world.archetypes@.len() && self.filter.matches(
                                            (#[trigger] world.archetypes@[j]).layout@,
                                        ) implies exists|p: int|
                                        subgroup.offset <= p < subgroup.offset + subgroup.length
                                            && ga[p] == j by {
                                        lemma_group_filter_semantics(
                                            self.filter,
                                            world.archetypes@[j].layout@,
                                        );
                                    }
                                    assert(ordered_cache_ok(*world, self.filter, g, subgroup));
                                }
                                return Cache::Ordered { group: g, subgroup };
                            }
                            None => {},
                        }
                    }
                    None => {},
                }
            }
        }
        Cache::Unordered { archetypes: Vec::new(), seen: 0 }
    }

    /// Resumes the layout search from `seen` and appends every newly
    /// matching archetype index, in discovery order.
    #[verifier::loop_isolation(false)]
    fn refresh_unordered(
        filter: &EntityFilter,
        world: &World,
        archetypes: Vec<usize>,
        seen: usize,
    ) -> (r: Vec<usize>)
        requires
            world.wf(),
            seen <= world.archetypes@.len(),
            archetypes@ == matching_upto(world.archetypes@, *filter, seen as int),
        ensures
            r@ == matching_upto(world.archetypes@, *filter, world.archetypes@.len() as int),
    {
        let mut out = archetypes;
        let mut j: usize = seen;
        while j < world.archetypes.len()
            invariant
                seen <= j <= world.archetypes@.len(),
                out@ == matching_upto(world.archetypes@, *filter, j as int),
            decreases world.archetypes@.len() - j,
        {
            if filter.matches_layout(&world.archetypes[j].layout) {
                out.push(j);
            }
            j += 1;
        }
        out
    }

    /// Evaluates the query against a world through an accessor: initializes
    /// or refreshes the cache entry for this world, then checks that every
    /// matched archetype is available through the accessor. On success the
    /// result names exactly the matching archetypes, each once — in group
    /// order when bound to a group, in discovery order otherwise.
    #[verifier::loop_isolation(false)]
    pub fn evaluate_query(&mut self, world: &World, accessor: &StorageAccessor) -> (r: Result<
        QueryResult,
        QueryError,
    >)
        requires
            old(self).wf(),
            world.wf(),
            old(self).compatible_with(*world),
        ensures
            final(self).wf(),
            final(self).view == old(self).view,
            final(self).filter == old(self).filter,
            final(self).dynamic_filter == old(self).dynamic_filter,
            final(self).compatible_with(*world),
            final(self).cache_for(world.id) is Some,
            forall|w2: u64|
                w2 != world.id ==> #[trigger] find_cache(final(self).layout_matches@, w2)
                    == find_cache(old(self).layout_matches@, w2),
            cache_evolved(*old(self), *final(self), *world),
            match r {
                Ok(qr) => {
                    &&& qr.wf()
                    &&& qr.lo == 0 && qr.hi == qr.indices@.len()
                    &&& qr.indices@ == cache_indices(
                        final(self).cache_for(world.id)->Some_0,
                        *world,
                    )
                    &&& result_sound(qr.indices@, *world, old(self).filter)
                    &&& result_complete(qr.indices@, *world, old(self).filter)
                    &&& result_distinct(qr.indices@)
                    &&& (!qr.group_ordered ==> qr.indices@ == matching_upto(
                        world.archetypes@,
                        old(self).filter,
                        world.archetypes@.len() as int,
                    ))
                    &&& (qr.group_ordered <==> final(self).cache_for(world.id) matches Some(
                        Cache::Ordered { .. },
                    ))
                    &&& (qr.group_ordered ==> (final(self).cache_for(world.id) matches Some(
                        Cache::Ordered { group, subgroup },
                    ) && qr.indices@ == group_slice(*world, group, subgroup)))
                    &&& forall|k: int|
                        0 <= k < qr.indices@.len() ==> accessor.spec_can_access(
                            #[trigger] qr.indices@[k],
                        )
                },
                Err(e) => {
                    &&& e == QueryError::ArchetypeAccessDenied
                    &&& exists|k: int|
                        0 <= k < cache_indices(
                            final(self).cache_for(world.id)->Some_0,
                            *world,
                        ).len() && !accessor.spec_can_access(
                            #[trigger] cache_indices(
                                final(self).cache_for(world.id)->Some_0,
                                *world,
                            )[k],
                        )
                },
            },
    {
        let wid = world.id();
        let ghost old_entries = self.layout_matches@;
        // take the world's cache entry out, or build a fresh one
        let idx_opt = self.cache_index(wid);
        let ghost gi: int = if idx_opt is Some {
            idx_opt->Some_0 as int
        } else {
            -1
        };
        let cache = match idx_opt {
            Some(i) => {
                let (_, c) = self.layout_matches.remove(i);
                proof {
                    lemma_find_cache_present(old_entries, wid, i as int);
                    assert(cache_entry_ok(c, *world, self.filter));
                }
                c
            }
            None => {
                proof {
                    lemma_find_cache_absent(old_entries, wid);
                }
                self.init_cache(world)
            }
        };
        // refresh: resume the unordered search (an ordered binding is
        // stable) and build the result over the cached indices
        let (cache, result) = match cache {
            Cache::Unordered { archetypes, seen } => {
                let archetypes = Self::refresh_unordered(&self.filter, world, archetypes, seen);
                let seen = world.archetype_count();
                let indices = copy_indices(&archetypes);
                (Cache::Unordered { archetypes, seen }, QueryResult::unordered(indices))
            }
            Cache::Ordered { group, subgroup } => {
                proof {
                    assert(ordered_cache_ok(*world, self.filter, group, subgroup));
                }
                let ga_len = world.groups[group].archetypes.len();
                proof {
                    assert(subgroup.offset + subgroup.length <= ga_len);
                }
                let hi = subgroup.offset + subgroup.length;
                let mut indices: Vec<usize> = Vec::new();
                let mut p: usize = subgroup.offset;
                while p < hi
                    invariant
                        subgroup.offset <= p <= hi,
                        hi == subgroup.offset + subgroup.length,
                        indices@ =~= world.groups@[group as int].archetypes@.subrange(
                            subgroup.offset as int,
                            p as int,
                        ),
                    decreases hi - p,
                {
                    indices.push(world.groups[group].archetypes[p]);
                    proof {
                        assert(indices@ =~= world.groups@[group as int].archetypes@.subrange(
                            subgroup.offset as int,
                            p + 1,
                        ));
                    }
                    p += 1;
                }
                proof {
                    assert(indices@ =~= group_slice(*world, group, subgroup));
                }
                (Cache::Ordered { group, subgroup }, QueryResult::ordered(indices))
            }
        };
        // write the refreshed entry back
        let ghost new_cache = cache;
        self.layout_matches.push((wid, cache));
        proof {
            if gi >= 0 {
                lemma_cache_replace(old_entries, self.layout_matches@, gi, wid, new_cache);
            } else {
                lemma_cache_insert(old_entries, self.layout_matches@, wid, new_cache);
            }
            assert(cache_entry_ok(new_cache, *world, self.filter));
            match find_cache(old_entries, wid) {
                Some(c0) => match c0 {
                    Cache::Unordered { archetypes: a0, seen: s0 } => {
                        lemma_matching_upto_monotone(
                            world.archetypes@,
                            self.filter,
                            s0 as int,
                            world.archetypes@.len() as int,
                        );
                    }
                    Cache::Ordered { .. } => {},
                },
                None => {},
            }
            if !result.group_ordered {
                lemma_matching_upto_props(
                    world.archetypes@,
                    self.filter,
                    world.archetypes@.len() as int,
                );
                assert(result_distinct(result.indices@));
            } else {
                match new_cache {
                    Cache::Ordered { group, subgroup } => {
                        let ga = world.groups@[group as int].archetypes@;
                        let idxs = result.indices@;
                        assert(idxs == group_slice(*world, group, subgroup));
                        assert(crate::world::group_wf(
                            world.groups@[group as int],
                            world.archetypes@.len() as int,
                        ));
                        assert forall|k: int| 0 <= k < idxs.len() implies (#[trigger] idxs[k])
                            < world.archetypes@.len() && self.filter.matches(
                            world.archetypes@[idxs[k] as int].layout@,
                        ) by {
                            assert(idxs[k] == ga[subgroup.offset + k]);
                        }
                        assert forall|j: int|
                            0 <= j < world.archetypes@.len() && self.filter.matches(
                                (#[trigger] world.archetypes@[j]).layout@,
                            ) implies exists|k: int| 0 <= k < idxs.len() && idxs[k] == j by {
                            let p = choose|p: int|
                                subgroup.offset <= p < subgroup.offset + subgroup.length
                                    && ga[p] == j;
                            assert(idxs[p - subgroup.offset] == j);
                        }
                        assert forall|k: int, l: int|
                            0 <= k < l < idxs.len() implies idxs[k] != idxs[l] by {
                            assert(idxs[k] == ga[subgroup.offset + k]);
                            assert(idxs[l] == ga[subgroup.offset + l]);
                        }
                    }
                    Cache::Unordered { .. } => {},
                }
            }
        }
        // the split-world check: every matched archetype must be available
        if !validate_archetype_access(accessor, &result.indices) {
            proof {
                assert(result.indices@ == cache_indices(new_cache, *world));
                assert(find_cache(self.layout_matches@, wid) == Some(new_cache));
                let kk = choose|q: int|
                    0 <= q < result.indices@.len() && !accessor.spec_can_access(
                        #[trigger] result.indices@[q],
                    );
                assert(!accessor.spec_can_access(cache_indices(new_cache, *world)[kk]));
            }
            return Err(QueryError::ArchetypeAccessDenied);
        }
        Ok(result)
    }
}

/// The chunks are exactly what one iteration of the query owes: every chunk
/// serves the view against a world archetype whose layout matches the static
/// filter and whose content passes the dynamic filter; every such archetype
/// is served exactly once.
pub open spec fn chunks_ok<'a>(
    chunks: Seq<ChunkView<'a>>,
    view: QueryView,
    f: EntityFilter,
    d: DynamicFilter,
    w: World,
) -> bool {
    &&& forall|k: int|
        0 <= k < chunks.len() ==> is_chunk_for(
            #[trigger] chunks[k],
            view,
            w,
            chunks[k].archetype_index,
        )
    &&& forall|k: int|
        0 <= k < chunks.len() ==> f.matches((#[trigger] chunks[k]).archetype.layout@) && d.passes(
            *chunks[k].archetype,
        )
    &&& forall|j: int|
        0 <= j < w.archetypes@.len() && f.matches((#[trigger] w.archetypes@[j]).layout@)
            && d.passes(w.archetypes@[j]) ==> exists|k: int|
            0 <= k < chunks.len() && (#[trigger] chunks[k].archetype_index) as int == j
    &&& forall|k: int, l: int|
        0 <= k < l < chunks.len() ==> chunks[k].archetype_index != chunks[l].archetype_index
}

/// The chunks follow the evaluated order: their archetype indices are
/// exactly the dynamic-filter-passing subsequence of `idxs`, in that order —
/// discovery order for an unordered cache, group order for an ordered one.
pub open spec fn chunks_follow<'a>(
    chunks: Seq<ChunkView<'a>>,
    archs: Seq<Archetype>,
    d: DynamicFilter,
    idxs: Seq<usize>,
) -> bool {
    &&& chunks.len() == dyn_passing(archs, d, idxs).len()
    &&& forall|k: int|
        0 <= k < chunks.len() ==> (#[trigger] chunks[k]).archetype_index == dyn_passing(
            archs,
            d,
            idxs,
        )[k]
}

impl Query {
    /// Evaluates the query through a split-world accessor and yields one
    /// chunk per matching archetype that passes the dynamic filter. Fails
    /// with `ComponentAccessDenied` exactly when the accessor does not
    /// permit an access the view declares, and with `ArchetypeAccessDenied`
    /// when a matched archetype is out of the accessor's reach.
    pub fn iter_chunks_access<'w>(&mut self, world: &'w World, accessor: &StorageAccessor) -> (r:
        Result<Vec<ChunkView<'w>>, QueryError>)
        requires
            old(self).wf(),
            world.wf(),
            old(self).compatible_with(*world),
        ensures
            final(self).wf(),
            final(self).view == old(self).view,
            final(self).filter == old(self).filter,
            final(self).dynamic_filter == old(self).dynamic_filter,
            final(self).compatible_with(*world),
            (r matches Err(QueryError::ComponentAccessDenied)) <==> !accessor.spec_allows_view(
                old(self).view,
            ),
            !accessor.spec_allows_view(old(self).view) ==> *final(self) == *old(self),
            accessor.spec_allows_view(old(self).view) ==> cache_evolved(
                *old(self),
                *final(self),
                *world,
            ),
            match r {
                Ok(chunks) => {
                    &&& chunks_ok(
                        chunks@,
                        old(self).view,
                        old(self).filter,
                        old(self).dynamic_filter,
                        *world,
                    )
                    &&& final(self).cache_for(world.id) is Some
                    &&& chunks_follow(
                        chunks@,
                        world.archetypes@,
                        old(self).dynamic_filter,
                        cache_indices(final(self).cache_for(world.id)->Some_0, *world),
                    )
                    &&& forall|k: int|
                        0 <= k < chunks@.len() ==> accessor.spec_can_access(
                            (#[trigger] chunks@[k]).archetype_index,
                        )
                },
                Err(e) => e == QueryError::ComponentAccessDenied || e
                    == QueryError::ArchetypeAccessDenied,
            },
            (r matches Err(QueryError::ArchetypeAccessDenied)) ==> (final(self).cache_for(world.id)
                is Some && exists|k: int|
                0 <= k < cache_indices(final(self).cache_for(world.id)->Some_0, *world).len()
                    && !accessor.spec_can_access(
                    #[trigger] cache_indices(final(self).cache_for(world.id)->Some_0, *world)[k],
                )),
    {
        if !accessor.allows_view(&self.view) {
            return Err(QueryError::ComponentAccessDenied);
        }
        let qr = match self.evaluate_query(world, accessor) {
            Ok(qr) => qr,
            Err(e) => {
                return Err(e);
            }
        };
        proof {
            assert(forall|k: int|
                0 <= k < qr.indices@.len() ==> (#[trigger] qr.indices@[k])
                    < world.archetypes@.len());
        }
        let n = qr.indices.len();
        let chunks = crate::chunk::collect_chunks(
            &self.view,
            &self.dynamic_filter,
            world,
            &qr.indices,
            0,
            n,
        );
        proof {
            let archs = world.archetypes@;
            let f = self.filter;
            let d = self.dynamic_filter;
            let idxs = qr.indices@;
            assert(idxs.subrange(0, idxs.len() as int) =~= idxs);
            let passing = dyn_passing(archs, d, idxs);
            crate::chunk::lemma_dyn_passing_char(archs, d, idxs);
            crate::chunk::lemma_dyn_passing_distinct(archs, d, idxs);
            assert forall|k: int| 0 <= k < chunks@.len() implies is_chunk_for(
                #[trigger] chunks@[k],
                self.view,
                *world,
                chunks@[k].archetype_index,
            ) by {
                assert(is_chunk_for(chunks@[k], self.view, *world, passing[k]));
            }
            assert forall|k: int| 0 <= k < chunks@.len() implies f.matches(
                (#[trigger] chunks@[k]).archetype.layout@,
            ) && d.passes(*chunks@[k].archetype) && accessor.spec_can_access(
                chunks@[k].archetype_index,
            ) by {
                assert(is_chunk_for(chunks@[k], self.view, *world, passing[k]));
                assert(seq_has(idxs, passing[k]));
                let j = choose|j: int| 0 <= j < idxs.len() && idxs[j] == passing[k];
                assert(f.matches(archs[idxs[j] as int].layout@));
                assert(passes_at(archs, d, passing[k]));
                assert(accessor.spec_can_access(idxs[j]));
            }
            assert forall|j: int|
                0 <= j < world.archetypes@.len() && f.matches(
                    (#[trigger] world.archetypes@[j]).layout@,
                ) && d.passes(world.archetypes@[j]) implies exists|k: int|
                0 <= k < chunks@.len() && (#[trigger] chunks@[k].archetype_index) as int == j by {
                let k0 = choose|k0: int| 0 <= k0 < idxs.len() && idxs[k0] == j;
                assert(seq_has(idxs, idxs[k0]));
                assert(passes_at(archs, d, idxs[k0]));
                assert(seq_has(passing, idxs[k0]));
                let k = choose|k: int| 0 <= k < passing.len() && passing[k] == idxs[k0];
                assert(is_chunk_for(chunks@[k], self.view, *world, passing[k]));
                assert((chunks@[k].archetype_index) as int == j);
            }
            assert forall|k: int, l: int| 0 <= k < l < chunks@.len() implies chunks@[k].archetype_index
                != chunks@[l].archetype_index by {
                assert(is_chunk_for(chunks@[k], self.view, *world, passing[k]));
                assert(is_chunk_for(chunks@[l], self.view, *world, passing[l]));
            }
        }
        Ok(chunks)
    }

    /// Iterates the matching chunks of a whole world held exclusively; the
    /// chunks borrow the world only, so they outlive the query borrow.
    pub fn iter_chunks_mut<'w>(&mut self, world: &'w mut World) -> (r: Vec<ChunkView<'w>>)
        requires
            old(self).wf(),
            old(world).wf(),
            old(self).compatible_with(*old(world)),
        ensures
            *final(world) == *old(world),
            final(self).wf(),
            final(self).view == old(self).view,
            final(self).filter == old(self).filter,
            final(self).dynamic_filter == old(self).dynamic_filter,
            final(self).compatible_with(*old(world)),
            chunks_ok(
                r@,
                old(self).view,
                old(self).filter,
                old(self).dynamic_filter,
                *old(world),
            ),
            final(self).cache_for(old(world).id) is Some,
            chunks_follow(
                r@,
                old(world).archetypes@,
                old(self).dynamic_filter,
                cache_indices(final(self).cache_for(old(world).id)->Some_0, *old(world)),
            ),
            cache_evolved(*old(self), *final(self), *old(world)),
    {
        let w: &'w World = world;
        let accessor = StorageAccessor::full();
        proof {
            assert(accessor.spec_allows_view(self.view));
        }
        match self.iter_chunks_access(w, &accessor) {
            Ok(chunks) => chunks,
            Err(e) => {
                proof {
                    assert(false);
                }
                Vec::new()
            }
        }
    }

    /// Iterates the matching chunks of a shared world; reserved for views
    /// whose accesses are all reads, which cannot alias.
    pub fn iter_chunks<'w>(&mut self, world: &'w World) -> (r: Vec<ChunkView<'w>>)
        requires
            old(self).wf(),
            world.wf(),
            old(self).compatible_with(*world),
            old(self).view.read_only(),
        ensures
            final(self).wf(),
            final(self).view == old(self).view,
            final(self).filter == old(self).filter,
            final(self).dynamic_filter == old(self).dynamic_filter,
            final(self).compatible_with(*world),
            chunks_ok(r@, old(self).view, old(self).filter, old(self).dynamic_filter, *world),
            final(self).cache_for(world.id) is Some,
            chunks_follow(
                r@,
                world.archetypes@,
                old(self).dynamic_filter,
                cache_indices(final(self).cache_for(world.id)->Some_0, *world),
            ),
            cache_evolved(*old(self), *final(self), *world),
    {
        let accessor = StorageAccessor::full();
        proof {
            assert(accessor.spec_allows_view(self.view));
        }
        match self.iter_chunks_access(world, &accessor) {
            Ok(chunks) => chunks,
            Err(e) => {
                proof {
                    assert(false);
                }
                Vec::new()
            }
        }
    }

    /// The archetype indices the query currently matches in a world,
    /// refreshing the cache first.
    pub fn find_archetypes(&mut self, world: &World) -> (r: Vec<usize>)
        requires
            old(self).wf(),
            world.wf(),
            old(self).compatible_with(*world),
        ensures
            final(self).wf(),
            final(self).view == old(self).view,
            final(self).filter == old(self).filter,
            final(self).dynamic_filter == old(self).dynamic_filter,
            final(self).compatible_with(*world),
            result_sound(r@, *world, old(self).filter),
            result_complete(r@, *world, old(self).filter),
            result_distinct(r@),
            final(self).cache_for(world.id) is Some,
            r@ == cache_indices(final(self).cache_for(world.id)->Some_0, *world),
            cache_evolved(*old(self), *final(self), *world),
            (final(self).cache_for(world.id) matches Some(Cache::Unordered { .. }) ==> r@
                == matching_upto(
                world.archetypes@,
                old(self).filter,
                world.archetypes@.len() as int,
            )),
            (final(self).cache_for(world.id) matches Some(Cache::Ordered { group, subgroup })
                ==> r@ == group_slice(*world, group, subgroup)),
    {
        let accessor = StorageAccessor::full();
        match self.evaluate_query(world, &accessor) {
            Ok(qr) => qr.indices,
            Err(e) => {
                proof {
                    assert(false);
                }
                Vec::new()
            }
        }
    }
}

impl QueryView {
    /// Constructs a query over this view: its filter requires every
    /// non-optional component, its dynamic filter passes everything. Rejects
    /// (with `None`) exactly the views in which a component appears twice
    /// with a conflicting mode.
    pub fn query(self) -> (r: Option<Query>)
        ensures
            match r {
                Some(q) => {
                    &&& self.valid()
                    &&& q.view == self
                    &&& q.dynamic_filter is Passthrough
                    &&& q.layout_matches@.len() == 0
                    &&& q.wf()
                    &&& forall|layout: Seq<ComponentTypeId>|
                        (#[trigger] q.filter.matches(layout)) <==> self.requires_layout(layout)
                    &&& forall|w: World| q.compatible_with(w)
                },
                None => !self.valid(),
            },
    {
        Query::new(self)
    }
}

/// Incremental consistency: when a world gains archetypes (same identifier,
/// earlier archetypes untouched), a query whose cache entry for it is
/// unordered, or absent, stays compatible. Re-evaluating then yields every
/// old match once and the new archetypes' matches appended — the cached
/// archetypes are not searched again.
pub proof fn lemma_incremental_consistency(q: Query, w1: World, w2: World)
    requires
        q.wf(),
        q.compatible_with(w1),
        w2.id == w1.id,
        w1.archetypes@.len() <= w2.archetypes@.len(),
        forall|i: int| 0 <= i < w1.archetypes@.len() ==> w2.archetypes@[i] == w1.archetypes@[i],
        !(q.cache_for(w1.id) matches Some(Cache::Ordered { .. })),
    ensures
        q.compatible_with(w2),
{
    match find_cache(q.layout_matches@, w1.id) {
        Some(c) => match c {
            Cache::Unordered { archetypes, seen } => {
                lemma_matching_upto_prefix(
                    w1.archetypes@,
                    w2.archetypes@,
                    q.filter,
                    seen as int,
                );
            }
            Cache::Ordered { .. } => {},
        },
        None => {},
    }
}

/// Aliasing discipline: two distinct chunks of one iteration sit on distinct
/// archetypes, so no two of their write slices can target the same
/// (archetype, component) pair.
pub proof fn lemma_write_targets_disjoint<'a>(
    chunks: Seq<ChunkView<'a>>,
    view: QueryView,
    f: EntityFilter,
    d: DynamicFilter,
    w: World,
    k: int,
    l: int,
)
    requires
        chunks_ok(chunks, view, f, d, w),
        0 <= k < chunks.len(),
        0 <= l < chunks.len(),
        k != l,
    ensures
        chunks[k].archetype_index != chunks[l].archetype_index,
{
}

/// Checks that the accessor can reach every archetype in the list.
pub fn validate_archetype_access(accessor: &StorageAccessor, archetypes: &Vec<usize>) -> (r: bool)
    ensures
        r == forall|k: int|
            0 <= k < archetypes@.len() ==> accessor.spec_can_access(#[trigger] archetypes@[k]),
{
    let mut k: usize = 0;
    while k < archetypes.len()
        invariant
            k <= archetypes@.len(),
            forall|q: int| 0 <= q < k ==> accessor.spec_can_access(#[trigger] archetypes@[q]),
        decreases archetypes@.len() - k,
    {
        if !accessor.can_access_archetype(archetypes[k]) {
            return false;
        }
        k += 1;
    }
    true
}

} // verus!
