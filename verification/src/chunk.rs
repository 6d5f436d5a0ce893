use vstd::prelude::*;
use crate::archetype::Archetype;
use crate::component::{ComponentTypeId, Entity, Value};
use crate::filter::DynamicFilter;
use crate::view::{copy_values, is_fetch_for, Fetch, QueryView};
use crate::world::World;

verus! {

/// Whether the chunk of archetype `x` passes the dynamic filter.
pub open spec fn passes_at(archs: Seq<Archetype>, d: DynamicFilter, x: usize) -> bool {
    d.passes(archs[x as int])
}

/// The subsequence of `idxs` whose chunks pass the dynamic filter, in order.
pub open spec fn dyn_passing(archs: Seq<Archetype>, d: DynamicFilter, idxs: Seq<usize>) -> Seq<
    usize,
>
    decreases idxs.len(),
{
    if idxs.len() == 0 {
        Seq::empty()
    } else {
        let prev = dyn_passing(archs, d, idxs.drop_last());
        if passes_at(archs, d, idxs.last()) {
            prev.push(idxs.last())
        } else {
            prev
        }
    }
}

/// Whether an index occurs in a sequence.
pub open spec fn seq_has(s: Seq<usize>, x: usize) -> bool {
    exists|j: int| 0 <= j < s.len() && s[j] == x
}

/// What the dynamic filter lets through: only given indices, all passing,
/// and every given passing index.
pub proof fn lemma_dyn_passing_char(archs: Seq<Archetype>, d: DynamicFilter, idxs: Seq<usize>)
    ensures
        forall|k: int|
            0 <= k < dyn_passing(archs, d, idxs).len() ==> passes_at(
                archs,
                d,
                #[trigger] dyn_passing(archs, d, idxs)[k],
            ),
        forall|k: int|
            0 <= k < dyn_passing(archs, d, idxs).len() ==> seq_has(
                idxs,
                #[trigger] dyn_passing(archs, d, idxs)[k],
            ),
        forall|x: usize|
            #[trigger] seq_has(idxs, x) && passes_at(archs, d, x) ==> seq_has(
                dyn_passing(archs, d, idxs),
                x,
            ),
    decreases idxs.len(),
{
    if idxs.len() > 0 {
        lemma_dyn_passing_char(archs, d, idxs.drop_last());
        let prev = dyn_passing(archs, d, idxs.drop_last());
        let cur = dyn_passing(archs, d, idxs);
        assert forall|k: int| 0 <= k < cur.len() implies seq_has(idxs, #[trigger] cur[k]) by {
            if k < prev.len() {
                assert(seq_has(idxs.drop_last(), prev[k]));
                let j = choose|j: int|
                    0 <= j < idxs.drop_last().len() && idxs.drop_last()[j] == prev[k];
                assert(idxs[j] == cur[k]);
            } else {
                assert(idxs[idxs.len() - 1] == cur[k]);
            }
        }
        assert forall|x: usize|
            #[trigger] seq_has(idxs, x) && passes_at(archs, d, x) implies seq_has(cur, x) by {
            let j = choose|j: int| 0 <= j < idxs.len() && idxs[j] == x;
            if j < idxs.len() - 1 {
                assert(idxs.drop_last()[j] == x);
                assert(seq_has(idxs.drop_last(), x));
                assert(seq_has(prev, x));
                let k = choose|k: int| 0 <= k < prev.len() && prev[k] == x;
                assert(cur[k] == x);
            } else {
                assert(cur[cur.len() - 1] == x);
            }
        }
    }
}

/// The dynamic filter never duplicates: distinct indices stay distinct.
pub proof fn lemma_dyn_passing_distinct(archs: Seq<Archetype>, d: DynamicFilter, idxs: Seq<usize>)
    requires
        forall|k: int, l: int| 0 <= k < l < idxs.len() ==> idxs[k] != idxs[l],
    ensures
        forall|k: int, l: int|
            0 <= k < l < dyn_passing(archs, d, idxs).len() ==> dyn_passing(archs, d, idxs)[k]
                != dyn_passing(archs, d, idxs)[l],
    decreases idxs.len(),
{
    if idxs.len() > 0 {
        assert forall|k: int, l: int|
            0 <= k < l < idxs.drop_last().len() implies idxs.drop_last()[k] != idxs.drop_last()[
            l
        ] by {
            assert(idxs.drop_last()[k] == idxs[k] && idxs.drop_last()[l] == idxs[l]);
        }
        lemma_dyn_passing_distinct(archs, d, idxs.drop_last());
        lemma_dyn_passing_char(archs, d, idxs.drop_last());
        let prev = dyn_passing(archs, d, idxs.drop_last());
        let cur = dyn_passing(archs, d, idxs);
        assert forall|k: int, l: int| 0 <= k < l < cur.len() implies cur[k] != cur[l] by {
            if l == cur.len() - 1 && cur.len() > prev.len() {
                assert(cur[l] == idxs[idxs.len() - 1]);
                assert(seq_has(idxs.drop_last(), prev[k]));
                let j = choose|j: int|
                    0 <= j < idxs.drop_last().len() && idxs.drop_last()[j] == prev[k];
                assert(idxs[j] == cur[k]);
                assert(idxs[j] != idxs[idxs.len() - 1]);
            }
        }
    }
}

/// Splitting an index range and filtering each half yields the same chunks
/// as filtering the whole: sequential iteration and the two halves of a
/// split agree, so parallel leaves together produce exactly the sequential
/// multiset.
pub proof fn lemma_dyn_passing_concat(
    archs: Seq<Archetype>,
    d: DynamicFilter,
    a: Seq<usize>,
    b: Seq<usize>,
)
    ensures
        dyn_passing(archs, d, a + b) == dyn_passing(archs, d, a) + dyn_passing(archs, d, b),
    decreases b.len(),
{
    if b.len() == 0 {
        assert(a + b =~= a);
        assert(dyn_passing(archs, d, a) + dyn_passing(archs, d, b) =~= dyn_passing(archs, d, a));
    } else {
        lemma_dyn_passing_concat(archs, d, a, b.drop_last());
        assert((a + b).drop_last() =~= a + b.drop_last());
        assert((a + b).last() == b.last());
        if passes_at(archs, d, b.last()) {
            assert(dyn_passing(archs, d, a + b) == dyn_passing(archs, d, a + b.drop_last()).push(
                b.last(),
            ));
            assert(dyn_passing(archs, d, a) + dyn_passing(archs, d, b) =~= (dyn_passing(archs, d, a)
                + dyn_passing(archs, d, b.drop_last())).push(b.last()));
        } else {
            assert(dyn_passing(archs, d, a) + dyn_passing(archs, d, b) =~= dyn_passing(archs, d, a)
                + dyn_passing(archs, d, b.drop_last()));
        }
    }
}

/// A handle to one matched archetype: a borrow of the archetype, its index,
/// and the fetch holding the slices the view requested.
pub struct ChunkView<'a> {
    pub archetype: &'a Archetype,
    pub archetype_index: usize,
    pub fetch: Fetch,
}

/// `c` is the chunk that a view produces for archetype `i` of a world.
pub open spec fn is_chunk_for(c: ChunkView, view: QueryView, w: World, i: usize) -> bool {
    &&& i < w.archetypes@.len()
    &&& c.archetype_index == i
    &&& *c.archetype == w.archetypes@[i as int]
    &&& is_fetch_for(c.fetch, view, w.archetypes@[i as int])
}

impl<'a> ChunkView<'a> {
    pub fn new(archetype: &'a Archetype, archetype_index: usize, fetch: Fetch) -> (r: ChunkView<
        'a,
    >)
        ensures
            r.archetype == archetype,
            r.archetype_index == archetype_index,
            r.fetch == fetch,
    {
        ChunkView { archetype, archetype_index, fetch }
    }

    /// The archetype all entities of this chunk belong to.
    pub fn archetype(&self) -> (r: &'a Archetype)
        ensures
            r == self.archetype,
    {
        self.archetype
    }

    /// The slice of one component's values, or `None` when the view did not
    /// declare the component or the archetype lacks it.
    pub fn component_slice(&self, c: &ComponentTypeId) -> (r: Option<&Vec<Value>>)
        ensures
            match r {
                Some(v) => exists|i: int|
                    0 <= i < self.fetch.slices@.len() && (#[trigger] self.fetch.slices@[i]).component
                        == *c && self.fetch.slices@[i].values == Some(*v),
                None => forall|i: int|
                    0 <= i < self.fetch.slices@.len() && (#[trigger] self.fetch.slices@[i]).component
                        == *c ==> self.fetch.slices@[i].values is None,
            },
    {
        let n = self.fetch.slices.len();
        let mut i: usize = 0;
        while i < n
            invariant
                i <= n,
                n == self.fetch.slices@.len(),
                forall|k: int|
                    0 <= k < i && (#[trigger] self.fetch.slices@[k]).component == *c
                        ==> self.fetch.slices@[k].values is None,
            decreases n - i,
        {
            if self.fetch.slices[i].component.id == c.id {
                proof {
                    assert(self.fetch.slices@[i as int].component == *c);
                }
                match &self.fetch.slices[i].values {
                    Some(v) => {
                        return Some(v);
                    }
                    None => {},
                }
            }
            i += 1;
        }
        None
    }

    /// A mutable borrow of one component's values in this chunk, available
    /// only for a write-mode slice. Returns `None` when the view did not
    /// declare a write of the component or the archetype lacks it.
    pub fn component_slice_mut(&mut self, c: &ComponentTypeId) -> (r: Option<&mut Vec<Value>>)
        ensures
            match r {
                Some(v) => exists|i: int|
                    {
                        &&& 0 <= i < old(self).fetch.slices@.len()
                        &&& (#[trigger] old(self).fetch.slices@[i]).component == *c
                        &&& old(self).fetch.slices@[i].mode.is_write()
                        &&& old(self).fetch.slices@[i].values == Some(*v)
                        &&& final(self).fetch.slices@.len() == old(self).fetch.slices@.len()
                        &&& (forall|j: int|
                            0 <= j < old(self).fetch.slices@.len() && j != i
                                ==> final(self).fetch.slices@[j] == old(self).fetch.slices@[j])
                        &&& final(self).fetch.slices@[i].component == *c
                        &&& final(self).fetch.slices@[i].mode == old(self).fetch.slices@[i].mode
                        &&& final(self).fetch.slices@[i].values == Some(*final(v))
                    },
                None => *final(self) == *old(self) && forall|i: int|
                    0 <= i < old(self).fetch.slices@.len() ==> !((
                    #[trigger] old(self).fetch.slices@[i]).component == *c
                        && old(self).fetch.slices@[i].mode.is_write()
                        && old(self).fetch.slices@[i].values is Some),
            },
            final(self).archetype == old(self).archetype,
            final(self).archetype_index == old(self).archetype_index,
    {
        match self.find_writable(c) {
            Some(i) => match &mut self.fetch.slices[i].values {
                Some(v) => Some(v),
                None => None,
            },
            None => None,
        }
    }

    /// Finds a write-mode, present slice of the component, if any.
    fn find_writable(&self, c: &ComponentTypeId) -> (r: Option<usize>)
        ensures
            match r {
                Some(i) => i < self.fetch.slices@.len() && self.fetch.slices@[i as int].component
                    == *c && self.fetch.slices@[i as int].mode.is_write()
                    && self.fetch.slices@[i as int].values is Some,
                None => forall|i: int|
                    0 <= i < self.fetch.slices@.len() ==> !((
                    #[trigger] self.fetch.slices@[i]).component == *c
                        && self.fetch.slices@[i].mode.is_write()
                        && self.fetch.slices@[i].values is Some),
            },
    {
        let n = self.fetch.slices.len();
        let mut i: usize = 0;
        while i < n
            invariant
                i <= n,
                n == self.fetch.slices@.len(),
                forall|k: int|
                    0 <= k < i ==> !((#[trigger] self.fetch.slices@[k]).component == *c
                        && self.fetch.slices@[k].mode.is_write()
                        && self.fetch.slices@[k].values is Some),
            decreases n - i,
        {
            let found = self.fetch.slices[i].component.id == c.id
                && self.fetch.slices[i].mode.writes() && self.fetch.slices[i].values.is_some();
            if found {
                proof {
                    assert(self.fetch.slices@[i as int].component == *c);
                }
                return Some(i);
            }
            i += 1;
        }
        None
    }

    /// Destructures the chunk into its slices, one `Option` per declared
    /// access, in declaration order.
    pub fn into_components(self) -> (r: Vec<Option<Vec<Value>>>)
        ensures
            r@.len() == self.fetch.slices@.len(),
            forall|i: int|
                0 <= i < r@.len() ==> #[trigger] r@[i] == self.fetch.slices@[i].values,
    {
        let mut slices = self.fetch.slices;
        let mut out: Vec<Option<Vec<Value>>> = Vec::new();
        let ghost orig = slices@;
        while slices.len() > 0
            invariant
                out@.len() + slices@.len() == orig.len(),
                forall|i: int| 0 <= i < out@.len() ==> #[trigger] out@[i] == orig[i].values,
                forall|i: int|
                    0 <= i < slices@.len() ==> #[trigger] slices@[i] == orig[out@.len() + i],
            decreases slices@.len(),
        {
            let s = slices.remove(0);
            out.push(s.values);
        }
        out
    }

    /// The chunk's slices as copies, one `Option` per declared access; the
    /// fetch must be read-only.
    pub fn get_components(&self) -> (r: Vec<Option<Vec<Value>>>)
        requires
            self.fetch.spec_read_only(),
        ensures
            r@.len() == self.fetch.slices@.len(),
            forall|i: int|
                0 <= i < r@.len() ==> match (#[trigger] self.fetch.slices@[i]).values {
                    Some(v) => r@[i] matches Some(rv) && rv@ == v@,
                    None => r@[i] is None,
                },
    {
        let n = self.fetch.slices.len();
        let mut out: Vec<Option<Vec<Value>>> = Vec::new();
        let mut i: usize = 0;
        while i < n
            invariant
                i <= n,
                n == self.fetch.slices@.len(),
                out@.len() == i,
                forall|k: int|
                    0 <= k < i ==> match (#[trigger] self.fetch.slices@[k]).values {
                        Some(v) => out@[k] matches Some(rv) && rv@ == v@,
                        None => out@[k] is None,
                    },
            decreases n - i,
        {
            let copied: Option<Vec<Value>> = match &self.fetch.slices[i].values {
                Some(v) => Some(copy_values(v)),
                None => None,
            };
            out.push(copied);
            i += 1;
        }
        out
    }

    /// Random access to one row: one `Option<Value>` per declared access,
    /// in declaration order.
    pub fn row(&self, i: usize) -> (r: Vec<Option<Value>>)
        requires
            (i as nat) < self.archetype.entities@.len(),
            self.fetch.aligned_to(self.archetype.entities@.len()),
        ensures
            r@.len() == self.fetch.slices@.len(),
            forall|k: int|
                0 <= k < r@.len() ==> #[trigger] r@[k] == match self.fetch.slices@[k].values {
                    Some(v) => Some(v@[i as int]),
                    None => None::<Value>,
                },
    {
        let n = self.fetch.slices.len();
        let mut vals: Vec<Option<Value>> = Vec::new();
        let mut k: usize = 0;
        while k < n
            invariant
                k <= n,
                n == self.fetch.slices@.len(),
                (i as nat) < self.archetype.entities@.len(),
                self.fetch.aligned_to(self.archetype.entities@.len()),
                vals@.len() == k,
                forall|p: int|
                    0 <= p < k ==> #[trigger] vals@[p] == match self.fetch.slices@[p].values {
                        Some(v) => Some(v@[i as int]),
                        None => None::<Value>,
                    },
            decreases n - k,
        {
            let entry: Option<Value> = match &self.fetch.slices[k].values {
                Some(v) => Some(v[i]),
                None => None,
            };
            vals.push(entry);
            k += 1;
        }
        vals
    }

    /// The chunk row by row: each row pairs its entity id with one
    /// `Option<Value>` per declared access, in declaration order.
    pub fn into_iter_entities(self) -> (r: Vec<(Entity, Vec<Option<Value>>)>)
        requires
            self.archetype.wf(),
            self.fetch.aligned_to(self.archetype.entities@.len()),
        ensures
            r@.len() == self.archetype.entities@.len(),
            forall|row: int|
                0 <= row < r@.len() ==> {
                    &&& (#[trigger] r@[row]).0 == self.archetype.entities@[row]
                    &&& r@[row].1@.len() == self.fetch.slices@.len()
                    &&& forall|k: int|
                        0 <= k < self.fetch.slices@.len() ==> #[trigger] r@[row].1@[k] == match self.fetch.slices@[k].values {
                            Some(v) => Some(v@[row]),
                            None => None::<Value>,
                        }
                },
    {
        let rows = self.archetype.entities.len();
        let n = self.fetch.slices.len();
        let mut out: Vec<(Entity, Vec<Option<Value>>)> = Vec::new();
        let mut row: usize = 0;
        while row < rows
            invariant
                row <= rows,
                rows == self.archetype.entities@.len(),
                n == self.fetch.slices@.len(),
                self.fetch.aligned_to(rows as nat),
                out@.len() == row,
                forall|q: int|
                    0 <= q < row ==> {
                        &&& (#[trigger] out@[q]).0 == self.archetype.entities@[q]
                        &&& out@[q].1@.len() == n
                        &&& forall|k: int|
                            0 <= k < n ==> #[trigger] out@[q].1@[k] == match self.fetch.slices@[k].values {
                                Some(v) => Some(v@[q]),
                                None => None::<Value>,
                            }
                    },
            decreases rows - row,
        {
            let vals = self.row(row);
            out.push((self.archetype.entities[row], vals));
            row += 1;
        }
        out
    }
}

/// Slice alignment: in a chunk of a well-formed world, every present
/// component slice has exactly one entry per entity of the archetype, so
/// index `i` of every slice and of the entity-id list denotes one entity.
pub proof fn lemma_slice_alignment<'a>(c: ChunkView<'a>, view: QueryView, w: World, i: usize)
    requires
        w.wf(),
        is_chunk_for(c, view, w, i),
    ensures
        c.fetch.aligned_to(c.archetype.entities@.len()),
{
    let a = w.archetypes@[i as int];
    assert(a.wf());
    assert forall|k: int| 0 <= k < c.fetch.slices@.len() implies match (
    #[trigger] c.fetch.slices@[k]).values {
        Some(v) => v@.len() == a.entities@.len(),
        None => true,
    } by {
        let e = view.elements@[k];
        if a.has_component(e.component) {
            let s = a.slot_of(e.component);
            assert(0 <= s < a.layout@.len() && a.layout@[s] == e.component);
            assert(a.columns@[s]@.len() == a.entities@.len());
        }
    }
}

/// Builds the chunks for the archetype indices `indices[lo..hi]`, applying
/// the dynamic filter: one chunk per passing archetype, in the given order.
pub fn collect_chunks<'w>(
    view: &QueryView,
    d: &DynamicFilter,
    world: &'w World,
    indices: &Vec<usize>,
    lo: usize,
    hi: usize,
) -> (r: Vec<ChunkView<'w>>)
    requires
        world.wf(),
        lo <= hi <= indices@.len(),
        forall|k: int| lo <= k < hi ==> (#[trigger] indices@[k]) < world.archetypes@.len(),
    ensures
        r@.len() == dyn_passing(world.archetypes@, *d, indices@.subrange(lo as int, hi as int)).len(),
        forall|k: int|
            0 <= k < r@.len() ==> is_chunk_for(
                #[trigger] r@[k],
                *view,
                *world,
                dyn_passing(world.archetypes@, *d, indices@.subrange(lo as int, hi as int))[k],
            ),
{
    let mut out: Vec<ChunkView<'w>> = Vec::new();
    let mut k: usize = lo;
    while k < hi
        invariant
            lo <= k <= hi <= indices@.len(),
            world.wf(),
            forall|q: int| lo <= q < hi ==> (#[trigger] indices@[q]) < world.archetypes@.len(),
            out@.len() == dyn_passing(
                world.archetypes@,
                *d,
                indices@.subrange(lo as int, k as int),
            ).len(),
            forall|q: int|
                0 <= q < out@.len() ==> is_chunk_for(
                    #[trigger] out@[q],
                    *view,
                    *world,
                    dyn_passing(world.archetypes@, *d, indices@.subrange(lo as int, k as int))[q],
                ),
        decreases hi - k,
    {
        let idx = indices[k];
        let archetype = &world.archetypes[idx];
        let ghost prefix = indices@.subrange(lo as int, k as int);
        let ghost prefix1 = indices@.subrange(lo as int, k as int + 1);
        proof {
            assert(prefix1.drop_last() =~= prefix);
            assert(prefix1.last() == idx);
        }
        if d.matches_archetype(archetype) {
            let fetch = view.fetch(archetype);
            let chunk = ChunkView::new(archetype, idx, fetch);
            out.push(chunk);
        }
        k += 1;
    }
    proof {
        assert(indices@.subrange(lo as int, hi as int) =~= indices@.subrange(
            lo as int,
            hi as int,
        ));
    }
    out
}

/// A sequential iterator over the chunks of the archetype indices it was
/// given: each `next` yields the first remaining archetype that passes the
/// dynamic filter, as a chunk, or `None` when exhausted.
pub struct ChunkIter {
    pub view: QueryView,
    pub dynamic_filter: DynamicFilter,
    pub indices: Vec<usize>,
    pub pos: usize,
    pub max_count: usize,
}

impl ChunkIter {
    /// The iterator is positioned inside its index list, which names valid
    /// archetypes of the world.
    pub open spec fn wf_for(self, w: World) -> bool {
        &&& self.pos <= self.indices@.len()
        &&& self.max_count == self.indices@.len()
        &&& forall|k: int|
            0 <= k < self.indices@.len() ==> (#[trigger] self.indices@[k]) < w.archetypes@.len()
    }

    pub fn new(view: QueryView, dynamic_filter: DynamicFilter, indices: Vec<usize>) -> (r:
        ChunkIter)
        ensures
            r.view == view,
            r.dynamic_filter == dynamic_filter,
            r.indices == indices,
            r.pos == 0,
            r.max_count == indices@.len(),
    {
        let max_count = indices.len();
        ChunkIter { view, dynamic_filter, indices, pos: 0, max_count }
    }

    /// Yields the chunk of the first remaining archetype that passes the
    /// dynamic filter; `None` once no remaining archetype passes. The
    /// iterator is fused: after `None`, the position stays at the end.
    #[verifier::loop_isolation(false)]
    pub fn next<'w>(&mut self, world: &'w World) -> (r: Option<ChunkView<'w>>)
        requires
            world.wf(),
            old(self).wf_for(*world),
        ensures
            final(self).wf_for(*world),
            final(self).view == old(self).view,
            final(self).dynamic_filter == old(self).dynamic_filter,
            final(self).indices == old(self).indices,
            final(self).max_count == old(self).max_count,
            match r {
                Some(c) => {
                    &&& old(self).pos <= final(self).pos - 1 < old(self).indices@.len()
                    &&& passes_at(
                        world.archetypes@,
                        old(self).dynamic_filter,
                        old(self).indices@[final(self).pos - 1],
                    )
                    &&& forall|m: int|
                        old(self).pos <= m < final(self).pos - 1 ==> !passes_at(
                            world.archetypes@,
                            old(self).dynamic_filter,
                            #[trigger] old(self).indices@[m],
                        )
                    &&& is_chunk_for(
                        c,
                        old(self).view,
                        *world,
                        old(self).indices@[final(self).pos - 1],
                    )
                },
                None => {
                    &&& final(self).pos == old(self).indices@.len()
                    &&& forall|m: int|
                        old(self).pos <= m < old(self).indices@.len() ==> !passes_at(
                            world.archetypes@,
                            old(self).dynamic_filter,
                            #[trigger] old(self).indices@[m],
                        )
                },
            },
    {
        while self.pos < self.indices.len()
            invariant
                old(self).pos <= self.pos <= self.indices@.len(),
                self.view == old(self).view,
                self.dynamic_filter == old(self).dynamic_filter,
                self.indices == old(self).indices,
                self.max_count == old(self).max_count,
                forall|m: int|
                    old(self).pos <= m < self.pos ==> !passes_at(
                        world.archetypes@,
                        old(self).dynamic_filter,
                        #[trigger] old(self).indices@[m],
                    ),
            decreases self.indices@.len() - self.pos,
        {
            let idx = self.indices[self.pos];
            let archetype = &world.archetypes[idx];
            self.pos += 1;
            if self.dynamic_filter.matches_archetype(archetype) {
                let fetch = self.view.fetch(archetype);
                return Some(ChunkView::new(archetype, idx, fetch));
            }
        }
        None
    }

    /// The bounds on how many chunks remain: at least none, at most one per
    /// matched archetype.
    pub fn size_hint(&self) -> (r: (usize, Option<usize>))
        ensures
            r.0 == 0,
            r.1 == Some(self.max_count),
    {
        (0, Some(self.max_count))
    }
}

} // verus!
