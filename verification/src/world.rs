use vstd::prelude::*;
use crate::archetype::Archetype;
use crate::component::{ComponentTypeId, Value};
use crate::filter::{contains_all, layout_has};
use crate::view::QueryView;

verus! {

/// A pre-declared, ordered collection of archetypes sharing a layout family.
/// Queries whose filter exactly covers a contiguous region of a group can
/// iterate in the group's order.
#[derive(Debug)]
pub struct Group {
    /// The component family this group is indexed under.
    pub components: Vec<ComponentTypeId>,
    /// The member archetypes, in the group's declared order.
    pub archetypes: Vec<usize>,
}

/// A contiguous region of a group's archetype list.
#[derive(Clone, Copy, PartialEq, Eq, Structural, Debug)]
pub struct SubGroup {
    pub offset: usize,
    pub length: usize,
}

/// A contiguous region of a group exactly covers a component set: it is
/// non-empty, every member's archetype carries all the components, and every
/// archetype of the world that carries them all is a member of the region.
pub open spec fn exact_cover(
    w: World,
    g: usize,
    comps: Seq<ComponentTypeId>,
    off: int,
    len: int,
) -> bool {
    let ga = w.groups@[g as int].archetypes@;
    &&& 0 <= off
    &&& len >= 1
    &&& off + len <= ga.len()
    &&& forall|p: int|
        off <= p < off + len ==> contains_all(
            w.archetypes@[(#[trigger] ga[p]) as int].layout@,
            comps,
        )
    &&& forall|j: int|
        0 <= j < w.archetypes@.len() && contains_all((#[trigger] w.archetypes@[j]).layout@, comps)
            ==> exists|p: int| off <= p < off + len && ga[p] == j
}

/// A group is well formed for a world of `n` archetypes when its members are
/// valid indices and no member repeats.
pub open spec fn group_wf(g: Group, n: int) -> bool {
    &&& forall|i: int| 0 <= i < g.archetypes@.len() ==> (#[trigger] g.archetypes@[i]) < n
    &&& forall|i: int, j: int|
        0 <= i < j < g.archetypes@.len() ==> g.archetypes@[i] != g.archetypes@[j]
}

/// The world as the query engine sees it: an identifier, the archetype
/// vector (dense, stable indices, never shrinking) and the declared groups.
#[derive(Debug)]
pub struct World {
    pub id: u64,
    pub archetypes: Vec<Archetype>,
    pub groups: Vec<Group>,
}

impl World {
    /// Structural invariant: every archetype is well formed and every group
    /// names valid, pairwise distinct archetype indices.
    pub open spec fn wf(self) -> bool {
        &&& forall|i: int| 0 <= i < self.archetypes@.len() ==> (#[trigger] self.archetypes@[i]).wf()
        &&& forall|g: int|
            0 <= g < self.groups@.len() ==> group_wf(
                #[trigger] self.groups@[g],
                self.archetypes@.len() as int,
            )
    }

    /// An empty world. Callers must pick distinct identifiers for distinct
    /// worlds: queries key their caches by this identifier.
    pub fn new(id: u64) -> (r: World)
        ensures
            r.id == id,
            r.archetypes@.len() == 0,
            r.groups@.len() == 0,
            r.wf(),
    {
        World { id, archetypes: Vec::new(), groups: Vec::new() }
    }

    pub fn id(&self) -> (r: u64)
        ensures
            r == self.id,
    {
        self.id
    }

    pub fn archetype_count(&self) -> (r: usize)
        ensures
            r == self.archetypes@.len(),
    {
        self.archetypes.len()
    }

    /// Appends an archetype; its index is dense and never recycled.
    pub fn push_archetype(&mut self, a: Archetype) -> (idx: usize)
        requires
            old(self).wf(),
            a.wf(),
        ensures
            idx == old(self).archetypes@.len(),
            final(self).archetypes@ == old(self).archetypes@.push(a),
            final(self).id == old(self).id,
            final(self).groups == old(self).groups,
            final(self).wf(),
    {
        let idx = self.archetypes.len();
        self.archetypes.push(a);
        idx
    }

    /// Declares a group. Rejects (returning `false`, world unchanged) member
    /// indices that are out of range or repeated.
    #[verifier::loop_isolation(false)]
    pub fn add_group(&mut self, components: Vec<ComponentTypeId>, archetypes: Vec<usize>) -> (r:
        bool)
        requires
            old(self).wf(),
        ensures
            final(self).wf(),
            final(self).id == old(self).id,
            final(self).archetypes == old(self).archetypes,
            r <==> group_wf(Group { components, archetypes }, old(self).archetypes@.len() as int),
            r ==> final(self).groups@ == old(self).groups@.push(
                Group { components, archetypes },
            ),
            !r ==> *final(self) == *old(self),
    {
        let n = archetypes.len();
        let mut i: usize = 0;
        while i < n
            invariant
                i <= n,
                n == archetypes@.len(),
                forall|k: int| 0 <= k < i ==> (#[trigger] archetypes@[k]) < self.archetypes@.len(),
                forall|k: int, l: int| 0 <= k < l < i ==> archetypes@[k] != archetypes@[l],
            decreases n - i,
        {
            if archetypes[i] >= self.archetypes.len() {
                proof {
                    let g = Group { components, archetypes };
                    assert(g.archetypes@[i as int] >= self.archetypes@.len());
                    assert(!group_wf(g, self.archetypes@.len() as int));
                }
                return false;
            }
            let mut j: usize = 0;
            while j < i
                invariant
                    j <= i < n,
                    n == archetypes@.len(),
                    forall|l: int| 0 <= l < j ==> archetypes@[l] != archetypes@[i as int],
                decreases i - j,
            {
                if archetypes[j] == archetypes[i] {
                    proof {
                        let g = Group { components, archetypes };
                        assert(g.archetypes@[j as int] == g.archetypes@[i as int]);
                        assert(!group_wf(g, self.archetypes@.len() as int));
                    }
                    return false;
                }
                j += 1;
            }
            i += 1;
        }
        self.groups.push(Group { components, archetypes });
        true
    }

    /// Overwrites one component column of one archetype, the write-back of a
    /// chunk slice mutated through `component_slice_mut`. Succeeds exactly
    /// when the archetype exists, carries the component, and the new values
    /// keep the column aligned with the entity list; otherwise the world is
    /// unchanged.
    pub fn set_column(&mut self, ai: usize, c: &ComponentTypeId, values: &Vec<Value>) -> (r: bool)
        requires
            old(self).wf(),
        ensures
            final(self).wf(),
            final(self).id == old(self).id,
            final(self).groups == old(self).groups,
            final(self).archetypes@.len() == old(self).archetypes@.len(),
            r <==> ((ai as int) < old(self).archetypes@.len()
                && old(self).archetypes@[ai as int].has_component(*c) && values@.len() == old(
                self,
            ).archetypes@[ai as int].entities@.len()),
            !r ==> *final(self) == *old(self),
            r ==> {
                let slot = old(self).archetypes@[ai as int].slot_of(*c);
                &&& forall|j: int|
                    0 <= j < old(self).archetypes@.len() && j != ai
                        ==> final(self).archetypes@[j] == old(self).archetypes@[j]
                &&& final(self).archetypes@[ai as int].layout == old(self).archetypes@[
                    ai as int
                ].layout
                &&& final(self).archetypes@[ai as int].entities == old(self).archetypes@[
                    ai as int
                ].entities
                &&& final(self).archetypes@[ai as int].columns@.len() == old(self).archetypes@[
                    ai as int
                ].columns@.len()
                &&& forall|s: int|
                    0 <= s < old(self).archetypes@[ai as int].columns@.len() && s != slot
                        ==> final(self).archetypes@[ai as int].columns@[s] == old(
                        self,
                    ).archetypes@[ai as int].columns@[s]
                &&& final(self).archetypes@[ai as int].columns@[slot]@ == values@
            },
    {
        if ai >= self.archetypes.len() {
            return false;
        }
        let slot = match self.archetypes[ai].column_index(c) {
            Some(slot) => slot,
            None => {
                return false;
            }
        };
        if values.len() != self.archetypes[ai].entities.len() {
            return false;
        }
        proof {
            crate::archetype::lemma_slot_unique(self.archetypes@[ai as int], *c, slot as int);
        }
        let newcol = crate::view::copy_values(values);
        self.archetypes[ai].columns[slot] = newcol;
        true
    }

    /// Finds the first group indexed under a component, if any.
    pub fn group(&self, c: &ComponentTypeId) -> (r: Option<usize>)
        ensures
            match r {
                Some(g) => g < self.groups@.len() && layout_has(
                    self.groups@[g as int].components@,
                    *c,
                ) && forall|k: int|
                    0 <= k < g ==> !layout_has((#[trigger] self.groups@[k]).components@, *c),
                None => forall|g: int|
                    0 <= g < self.groups@.len() ==> !layout_has(
                        (#[trigger] self.groups@[g]).components@,
                        *c,
                    ),
            },
    {
        let mut g: usize = 0;
        while g < self.groups.len()
            invariant
                g <= self.groups@.len(),
                forall|k: int|
                    0 <= k < g ==> !layout_has((#[trigger] self.groups@[k]).components@, *c),
            decreases self.groups@.len() - g,
        {
            if crate::filter::layout_contains(&self.groups[g].components, c) {
                return Some(g);
            }
            g += 1;
        }
        None
    }

    /// Asks whether the required components exactly cover a contiguous
    /// region of the group: every member of the region carries them all, no
    /// member outside it does, and no archetype of the world outside the
    /// region carries them all either. Returns that region; `None` exactly
    /// when no region of the group is such a cover, and the query falls
    /// back to unordered matching.
    #[verifier::loop_isolation(false)]
    pub fn exact_match(&self, g: usize, comps: &Vec<ComponentTypeId>) -> (r: Option<SubGroup>)
        requires
            self.wf(),
            g < self.groups@.len(),
        ensures
            match r {
                Some(sub) => exact_cover(*self, g, comps@, sub.offset as int, sub.length as int),
                None => forall|off: int, len: int| !exact_cover(*self, g, comps@, off, len),
            },
    {
        let ga_len = self.groups[g].archetypes.len();
        let mut start: usize = 0;
        while start < ga_len && !self.member_matches(g, start, comps)
            invariant
                self.wf(),
                g < self.groups@.len(),
                ga_len == self.groups@[g as int].archetypes@.len(),
                start <= ga_len,
                forall|p: int|
                    0 <= p < start ==> !contains_all(
                        self.archetypes@[(#[trigger] self.groups@[g as int].archetypes@[p]) as int].layout@,
                        comps@,
                    ),
            decreases ga_len - start,
        {
            start += 1;
        }
        if start == ga_len {
            proof {
                let ga = self.groups@[g as int].archetypes@;
                assert forall|off: int, len: int| !exact_cover(
                    *self,
                    g,
                    comps@,
                    off,
                    len,
                ) by {
                    if exact_cover(*self, g, comps@, off, len) {
                        assert(0 <= off < ga.len());
                        assert(contains_all(
                            self.archetypes@[ga[off] as int].layout@,
                            comps@,
                        ));
                    }
                }
            }
            return None;
        }
        let mut end: usize = start;
        while end < ga_len && self.member_matches(g, end, comps)
            invariant
                self.wf(),
                g < self.groups@.len(),
                ga_len == self.groups@[g as int].archetypes@.len(),
                start <= end <= ga_len,
                forall|p: int|
                    start <= p < end ==> contains_all(
                        self.archetypes@[(#[trigger] self.groups@[g as int].archetypes@[p]) as int].layout@,
                        comps@,
                    ),
            decreases ga_len - end,
        {
            end += 1;
        }
        // completeness: every matching archetype of the world must sit in
        // the region; otherwise the group cannot serve this filter.
        let mut j: usize = 0;
        while j < self.archetypes.len()
            invariant
                self.wf(),
                g < self.groups@.len(),
                ga_len == self.groups@[g as int].archetypes@.len(),
                start <= end <= ga_len,
                j <= self.archetypes@.len(),
                forall|p: int|
                    start <= p < end ==> contains_all(
                        self.archetypes@[(#[trigger] self.groups@[g as int].archetypes@[p]) as int].layout@,
                        comps@,
                    ),
                forall|k: int|
                    0 <= k < j && contains_all((#[trigger] self.archetypes@[k]).layout@, comps@)
                        ==> exists|p: int|
                        start <= p < end && self.groups@[g as int].archetypes@[p] == k,
            decreases self.archetypes@.len() - j,
        {
            if crate::filter::contains_all_exec(&self.archetypes[j].layout, comps) {
                if !self.region_holds(g, start, end, j) {
                    proof {
                        let ga = self.groups@[g as int].archetypes@;
                        assert(start < end) by {
                            if end == start {
                                assert(contains_all(
                                    self.archetypes@[ga[start as int] as int].layout@,
                                    comps@,
                                ));
                            }
                        }
                        assert forall|off: int, len: int| !exact_cover(
                            *self,
                            g,
                            comps@,
                            off,
                            len,
                        ) by {
                            if exact_cover(*self, g, comps@, off, len) {
                                // the world archetype of member `start` is in
                                // the cover, at `start` itself (members are
                                // distinct)
                                assert(contains_all(
                                    self.archetypes@[ga[start as int] as int].layout@,
                                    comps@,
                                ));
                                let p0 = choose|p0: int|
                                    off <= p0 < off + len && ga[p0] == ga[start as int];
                                assert(p0 == start);
                                // the uncovered matching archetype `j` is in
                                // the cover, outside `[start, end)`
                                let p1 = choose|p1: int| off <= p1 < off + len && ga[p1] == j;
                                assert(!(start <= p1 < end));
                                if p1 < start {
                                    assert(contains_all(
                                        self.archetypes@[ga[p1] as int].layout@,
                                        comps@,
                                    ));
                                } else {
                                    // then the non-matching member `end` sits
                                    // inside the cover as well
                                    assert(p1 >= end);
                                    assert(off <= end < off + len);
                                    assert(end < ga_len);
                                    assert(contains_all(
                                        self.archetypes@[ga[end as int] as int].layout@,
                                        comps@,
                                    ));
                                }
                            }
                        }
                    }
                    return None;
                }
            }
            j += 1;
        }
        proof {
            let ga = self.groups@[g as int].archetypes@;
            assert(start < end) by {
                if end == start {
                    assert(contains_all(
                        self.archetypes@[ga[start as int] as int].layout@,
                        comps@,
                    ));
                }
            }
            assert(exact_cover(*self, g, comps@, start as int, end - start));
        }
        Some(SubGroup { offset: start, length: end - start })
    }

    /// Whether group member `p` carries all of `comps`.
    fn member_matches(&self, g: usize, p: usize, comps: &Vec<ComponentTypeId>) -> (r: bool)
        requires
            self.wf(),
            g < self.groups@.len(),
            p < self.groups@[g as int].archetypes@.len(),
        ensures
            r == contains_all(
                self.archetypes@[self.groups@[g as int].archetypes@[p as int] as int].layout@,
                comps@,
            ),
    {
        let idx = self.groups[g].archetypes[p];
        proof {
            assert(group_wf(self.groups@[g as int], self.archetypes@.len() as int));
            assert(self.groups@[g as int].archetypes@[p as int] < self.archetypes@.len());
        }
        crate::filter::contains_all_exec(&self.archetypes[idx].layout, comps)
    }

    /// Whether archetype index `j` appears among group members in `[start, end)`.
    fn region_holds(&self, g: usize, start: usize, end: usize, j: usize) -> (r: bool)
        requires
            g < self.groups@.len(),
            start <= end <= self.groups@[g as int].archetypes@.len(),
        ensures
            r == exists|p: int|
                start <= p < end && self.groups@[g as int].archetypes@[p] == j,
    {
        let mut p: usize = start;
        while p < end
            invariant
                start <= p <= end <= self.groups@[g as int].archetypes@.len(),
                g < self.groups@.len(),
                forall|q: int| start <= q < p ==> self.groups@[g as int].archetypes@[q] != j,
            decreases end - p,
        {
            if self.groups[g].archetypes[p] == j {
                return true;
            }
            p += 1;
        }
        false
    }
}

/// One permitted component access of a restricted accessor.
#[derive(Clone, Copy, PartialEq, Eq, Structural, Debug)]
pub struct CompAccess {
    pub component: ComponentTypeId,
    pub writeable: bool,
}

/// The component types an accessor may touch.
#[derive(Debug)]
pub enum ComponentPermissions {
    /// Every component, read and write.
    All,
    /// Exactly the listed accesses; writes only where marked writeable.
    Only(Vec<CompAccess>),
    /// Everything except the listed components.
    AllExcept(Vec<ComponentTypeId>),
}

/// Whether a list of granted accesses covers an access of component `c`
/// (a write when `write`).
pub open spec fn grants_cover(l: Seq<CompAccess>, c: ComponentTypeId, write: bool) -> bool {
    exists|i: int| 0 <= i < l.len() && (#[trigger] l[i]).component == c && (write ==> l[i].writeable)
}

impl ComponentPermissions {
    /// Whether an access of one component (write when `write`) is permitted.
    pub open spec fn permits(self, c: ComponentTypeId, write: bool) -> bool {
        match self {
            ComponentPermissions::All => true,
            ComponentPermissions::Only(l) => grants_cover(l@, c, write),
            ComponentPermissions::AllExcept(l) => !layout_has(l@, c),
        }
    }

    #[verifier::loop_isolation(false)]
    pub fn permits_access(&self, c: &ComponentTypeId, write: bool) -> (r: bool)
        ensures
            r == self.permits(*c, write),
    {
        match self {
            ComponentPermissions::All => true,
            ComponentPermissions::Only(l) => {
                let mut i: usize = 0;
                while i < l.len()
                    invariant
                        i <= l@.len(),
                        forall|k: int|
                            0 <= k < i ==> !((#[trigger] l@[k]).component == *c && (write
                                ==> l@[k].writeable)),
                    decreases l@.len() - i,
                {
                    if l[i].component.id == c.id && (!write || l[i].writeable) {
                        proof {
                            assert(l@[i as int].component == *c);
                        }
                        return true;
                    }
                    i += 1;
                }
                false
            }
            ComponentPermissions::AllExcept(l) => !crate::filter::layout_contains(l, c),
        }
    }
}

/// The archetypes an accessor may touch.
#[derive(Debug)]
pub enum ArchetypeAccess {
    /// Every archetype.
    All,
    /// Only the listed archetype indices.
    Restricted(Vec<usize>),
}

/// A handle onto a world's storage carrying the permissions of one side of a
/// split (or of the whole world). Queries are validated against it before
/// any chunk is produced.
#[derive(Debug)]
pub struct StorageAccessor {
    pub permissions: ComponentPermissions,
    pub archetypes: ArchetypeAccess,
}

impl StorageAccessor {
    /// Whether every access the view declares is permitted here.
    pub open spec fn spec_allows_view(self, v: QueryView) -> bool {
        forall|i: int|
            0 <= i < v.elements@.len() ==> self.permissions.permits(
                (#[trigger] v.elements@[i]).component,
                v.elements@[i].mode.is_write(),
            )
    }

    /// Whether the accessor may touch an archetype.
    pub open spec fn spec_can_access(self, i: usize) -> bool {
        match self.archetypes {
            ArchetypeAccess::All => true,
            ArchetypeAccess::Restricted(l) => exists|k: int| 0 <= k < l@.len() && l@[k] == i,
        }
    }

    /// An accessor for a whole, unsplit world.
    pub fn full() -> (r: StorageAccessor)
        ensures
            forall|c: ComponentTypeId, w: bool| r.permissions.permits(c, w),
            forall|i: usize| r.spec_can_access(i),
    {
        StorageAccessor {
            permissions: ComponentPermissions::All,
            archetypes: ArchetypeAccess::All,
        }
    }

    pub fn allows_view(&self, v: &QueryView) -> (r: bool)
        ensures
            r == self.spec_allows_view(*v),
    {
        let mut i: usize = 0;
        while i < v.elements.len()
            invariant
                i <= v.elements@.len(),
                forall|k: int|
                    0 <= k < i ==> self.permissions.permits(
                        (#[trigger] v.elements@[k]).component,
                        v.elements@[k].mode.is_write(),
                    ),
            decreases v.elements@.len() - i,
        {
            let e = v.elements[i];
            if !self.permissions.permits_access(&e.component, e.mode.writes()) {
                return false;
            }
            i += 1;
        }
        true
    }

    #[verifier::loop_isolation(false)]
    pub fn can_access_archetype(&self, i: usize) -> (r: bool)
        ensures
            r == self.spec_can_access(i),
    {
        match &self.archetypes {
            ArchetypeAccess::All => true,
            ArchetypeAccess::Restricted(l) => {
                let mut k: usize = 0;
                while k < l.len()
                    invariant
                        k <= l@.len(),
                        forall|q: int| 0 <= q < k ==> l@[q] != i,
                    decreases l@.len() - k,
                {
                    if l[k] == i {
                        return true;
                    }
                    k += 1;
                }
                false
            }
        }
    }
}

impl World {
    /// Partitions access to this world along a view: the left accessor
    /// permits exactly the view's declared accesses (writes only where the
    /// view writes), the right accessor permits every component the view
    /// does not mention. The two sides are disjoint, so iterating both
    /// concurrently cannot alias.
    pub fn split(&self, v: &QueryView) -> (r: (StorageAccessor, StorageAccessor))
        ensures
            forall|c: ComponentTypeId, w: bool|
                #[trigger] r.0.permissions.permits(c, w) <==> exists|i: int|
                    0 <= i < v.elements@.len() && (#[trigger] v.elements@[i]).component == c && (w
                        ==> v.elements@[i].mode.is_write()),
            forall|c: ComponentTypeId, w: bool|
                #[trigger] r.1.permissions.permits(c, w) <==> !v.declares(c),
            forall|i: usize| r.0.spec_can_access(i) && r.1.spec_can_access(i),
    {
        let mut granted: Vec<CompAccess> = Vec::new();
        let mut mentioned: Vec<ComponentTypeId> = Vec::new();
        let n = v.elements.len();
        let mut i: usize = 0;
        while i < n
            invariant
                i <= n,
                n == v.elements@.len(),
                granted@.len() == i,
                mentioned@.len() == i,
                forall|k: int|
                    0 <= k < i ==> (#[trigger] granted@[k]).component == v.elements@[k].component
                        && granted@[k].writeable == v.elements@[k].mode.is_write(),
                forall|k: int| 0 <= k < i ==> (#[trigger] mentioned@[k]) == v.elements@[k].component,
            decreases n - i,
        {
            let e = v.elements[i];
            granted.push(CompAccess { component: e.component, writeable: e.mode.writes() });
            mentioned.push(e.component);
            i += 1;
        }
        let left = StorageAccessor {
            permissions: ComponentPermissions::Only(granted),
            archetypes: ArchetypeAccess::All,
        };
        let right = StorageAccessor {
            permissions: ComponentPermissions::AllExcept(mentioned),
            archetypes: ArchetypeAccess::All,
        };
        proof {
            assert forall|c: ComponentTypeId, w: bool|
                #[trigger] left.permissions.permits(c, w) implies exists|k: int|
                0 <= k < v.elements@.len() && (#[trigger] v.elements@[k]).component == c && (w
                    ==> v.elements@[k].mode.is_write()) by {
                let i = choose|i: int|
                    0 <= i < granted@.len() && (#[trigger] granted@[i]).component == c && (w
                        ==> granted@[i].writeable);
                assert(0 <= i < v.elements@.len() && v.elements@[i].component == c && (w
                    ==> v.elements@[i].mode.is_write()));
            }
            assert forall|c: ComponentTypeId, w: bool|
                (exists|k: int|
                    0 <= k < v.elements@.len() && (#[trigger] v.elements@[k]).component == c && (w
                        ==> v.elements@[k].mode.is_write())) implies #[trigger] left.permissions.permits(
                c,
                w,
            ) by {
                let k = choose|k: int|
                    0 <= k < v.elements@.len() && (#[trigger] v.elements@[k]).component == c && (w
                        ==> v.elements@[k].mode.is_write());
                assert((granted@[k]).component == c && (w ==> granted@[k].writeable));
                assert(grants_cover(granted@, c, w));
                assert(left.permissions.permits(c, w));
            }
            assert forall|c: ComponentTypeId, w: bool|
                #[trigger] right.permissions.permits(c, w) <==> !v.declares(c) by {
                if layout_has(mentioned@, c) {
                    let k = choose|k: int| 0 <= k < mentioned@.len() && mentioned@[k] == c;
                    assert(v.elements@[k].component == c);
                    assert(v.declares(c));
                }
                if v.declares(c) {
                    let k = choose|k: int|
                        0 <= k < v.elements@.len() && (#[trigger] v.elements@[k]).component == c;
                    assert(mentioned@[k] == c);
                    assert(layout_has(mentioned@, c));
                }
            }
        }
        (left, right)
    }

    /// The storage accessor of a whole, unsplit world: every access the view
    /// declares is permitted.
    pub fn get_component_storage(&self, v: &QueryView) -> (r: Option<StorageAccessor>)
        ensures
            match r {
                Some(acc) => acc.spec_allows_view(*v) && forall|i: usize| acc.spec_can_access(i),
                None => false,
            },
    {
        Some(StorageAccessor::full())
    }
}

} // verus!
