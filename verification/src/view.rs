use vstd::prelude::*;
use crate::archetype::Archetype;
use crate::component::{ComponentTypeId, Value};
use crate::filter::{layout_has, EntityFilter};

verus! {

/// How a view accesses one component type. `Try` accesses are optional: the
/// slice is absent on archetypes that lack the component.
#[derive(Clone, Copy, PartialEq, Eq, Structural, Debug)]
pub enum AccessMode {
    Read,
    Write,
    TryRead,
    TryWrite,
}

impl AccessMode {
    /// Whether this access may mutate the component column.
    pub open spec fn is_write(self) -> bool {
        self is Write || self is TryWrite
    }

    /// Whether the access tolerates an absent component.
    pub open spec fn is_optional(self) -> bool {
        self is TryRead || self is TryWrite
    }

    pub fn writes(&self) -> (r: bool)
        ensures
            r == self.is_write(),
    {
        match self {
            AccessMode::Write => true,
            AccessMode::TryWrite => true,
            _ => false,
        }
    }

    pub fn optional(&self) -> (r: bool)
        ensures
            r == self.is_optional(),
    {
        match self {
            AccessMode::TryRead => true,
            AccessMode::TryWrite => true,
            _ => false,
        }
    }
}

/// One declared access of a view.
#[derive(Clone, Copy, PartialEq, Eq, Structural, Debug)]
pub struct ViewElement {
    pub component: ComponentTypeId,
    pub mode: AccessMode,
}

/// A view: the declarative description of a query's component accesses, as
/// an ordered list of `(component, mode)` pairs.
#[derive(Debug)]
pub struct QueryView {
    pub elements: Vec<ViewElement>,
}

impl QueryView {
    /// A view is valid when no component appears twice with a conflicting
    /// mode: two writes, or a read and a write, of one component alias.
    pub open spec fn valid(self) -> bool {
        forall|i: int, j: int|
            0 <= i < j < self.elements@.len() && (#[trigger] self.elements@[i]).component == (
            #[trigger] self.elements@[j]).component ==> !self.elements@[i].mode.is_write()
                && !self.elements@[j].mode.is_write()
    }

    /// The layouts this view can be fetched from: every non-optional
    /// component must be present.
    pub open spec fn requires_layout(self, layout: Seq<ComponentTypeId>) -> bool {
        forall|i: int|
            0 <= i < self.elements@.len() && !(#[trigger] self.elements@[i]).mode.is_optional()
                ==> layout_has(layout, self.elements@[i].component)
    }

    /// Whether the view declares any access to a component type.
    pub open spec fn declares(self, c: ComponentTypeId) -> bool {
        exists|i: int| 0 <= i < self.elements@.len() && (#[trigger] self.elements@[i]).component == c
    }

    /// Whether every declared access is read-only.
    pub open spec fn read_only(self) -> bool {
        forall|i: int|
            0 <= i < self.elements@.len() ==> !(#[trigger] self.elements@[i]).mode.is_write()
    }

    pub fn new(elements: Vec<ViewElement>) -> (r: QueryView)
        ensures
            r.elements == elements,
    {
        QueryView { elements }
    }

    /// Checks that no component appears twice with a conflicting mode.
    pub fn validate(&self) -> (r: bool)
        ensures
            r == self.valid(),
    {
        let n = self.elements.len();
        let mut i: usize = 0;
        while i < n
            invariant
                i <= n,
                n == self.elements@.len(),
                forall|a: int, b: int|
                    0 <= a < b < n && a < i && (#[trigger] self.elements@[a]).component == (
                    #[trigger] self.elements@[b]).component ==> !self.elements@[a].mode.is_write()
                        && !self.elements@[b].mode.is_write(),
            decreases n - i,
        {
            let mut j: usize = i + 1;
            while j < n
                invariant
                    i < j <= n,
                    n == self.elements@.len(),
                    forall|b: int|
                        i < b < j && (#[trigger] self.elements@[b]).component
                            == self.elements@[i as int].component ==> !self.elements@[
                            i as int
                        ].mode.is_write() && !self.elements@[b].mode.is_write(),
                decreases n - j,
            {
                if self.elements[j].component.id == self.elements[i].component.id {
                    proof {
                        assert(self.elements@[j as int].component
                            == self.elements@[i as int].component);
                    }
                    if self.elements[i].mode.writes() || self.elements[j].mode.writes() {
                        return false;
                    }
                }
                j += 1;
            }
            i += 1;
        }
        true
    }

    /// The static filter a view implies: the conjunction of the required
    /// presence of every non-optional component. The result is always
    /// group-matchable, and its required components are exactly the view's
    /// non-optional components, in declaration order.
    pub fn default_filter(&self) -> (r: EntityFilter)
        ensures
            forall|layout: Seq<ComponentTypeId>|
                (#[trigger] r.matches(layout)) <==> self.requires_layout(layout),
            r.spec_can_match_group(),
            r.spec_group_components() == self.spec_required_components(),
    {
        let mut f = EntityFilter::Passthrough;
        let n = self.elements.len();
        let mut i: usize = 0;
        while i < n
            invariant
                i <= n,
                n == self.elements@.len(),
                f.spec_can_match_group(),
                f.spec_group_components() =~= spec_required_prefix(self.elements@, i as int),
                forall|layout: Seq<ComponentTypeId>|
                    (#[trigger] f.matches(layout)) <==> (forall|k: int|
                        0 <= k < i && !(#[trigger] self.elements@[k]).mode.is_optional()
                            ==> layout_has(layout, self.elements@[k].component)),
            decreases n - i,
        {
            if !self.elements[i].mode.optional() {
                let c = self.elements[i].component;
                let req = EntityFilter::ComponentRequired(c);
                proof {
                    reveal_with_fuel(EntityFilter::spec_group_components, 2);
                    reveal_with_fuel(EntityFilter::spec_can_match_group, 2);
                    reveal_with_fuel(EntityFilter::matches, 2);
                    assert(req.spec_can_match_group());
                    assert(req.spec_group_components() =~= seq![c]);
                }
                let ghost prev = f;
                f = EntityFilter::And(Box::new(f), Box::new(req));
                proof {
                    reveal_with_fuel(EntityFilter::spec_group_components, 2);
                    reveal_with_fuel(EntityFilter::spec_can_match_group, 2);
                    reveal_with_fuel(EntityFilter::matches, 2);
                    assert(f.spec_group_components() =~= spec_required_prefix(
                        self.elements@,
                        i + 1,
                    ));
                    assert forall|layout: Seq<ComponentTypeId>|
                        (#[trigger] f.matches(layout)) <==> (forall|k: int|
                            0 <= k < i + 1 && !(#[trigger] self.elements@[k]).mode.is_optional()
                                ==> layout_has(layout, self.elements@[k].component)) by {
                        assert(f.matches(layout) <==> (prev.matches(layout) && layout_has(
                            layout,
                            c,
                        )));
                        if f.matches(layout) {
                            assert forall|k: int|
                                0 <= k < i + 1 && !(
                                #[trigger] self.elements@[k]).mode.is_optional() implies layout_has(
                                layout,
                                self.elements@[k].component,
                            ) by {
                                if k == i {
                                    assert(self.elements@[k].component == c);
                                }
                            }
                        }
                        if (forall|k: int|
                            0 <= k < i + 1 && !(#[trigger] self.elements@[k]).mode.is_optional()
                                ==> layout_has(layout, self.elements@[k].component)) {
                            assert forall|k: int|
                                0 <= k < i && !(
                                #[trigger] self.elements@[k]).mode.is_optional() implies layout_has(
                                layout,
                                self.elements@[k].component,
                            ) by {}
                            assert(prev.matches(layout));
                            assert(!self.elements@[i as int].mode.is_optional());
                            assert(layout_has(layout, self.elements@[i as int].component));
                        }
                    }
                }
            } else {
                proof {
                    assert(spec_required_prefix(self.elements@, i + 1) =~= spec_required_prefix(
                        self.elements@,
                        i as int,
                    ));
                }
            }
            i += 1;
        }
        proof {
            assert(f.spec_group_components() =~= self.spec_required_components());
        }
        f
    }

    /// The view's non-optional components, in declaration order.
    pub open spec fn spec_required_components(self) -> Seq<ComponentTypeId> {
        spec_required_prefix(self.elements@, self.elements@.len() as int)
    }

    /// Builds the per-archetype fetch: one slice per declared access, a copy
    /// of the archetype's column when present, absent otherwise.
    pub fn fetch(&self, archetype: &Archetype) -> (r: Fetch)
        requires
            archetype.wf(),
        ensures
            is_fetch_for(r, *self, *archetype),
    {
        let mut slices: Vec<FetchSlice> = Vec::new();
        let n = self.elements.len();
        let mut i: usize = 0;
        while i < n
            invariant
                i <= n,
                n == self.elements@.len(),
                archetype.wf(),
                slices@.len() == i,
                forall|k: int|
                    0 <= k < i ==> slice_matches(
                        #[trigger] slices@[k],
                        self.elements@[k],
                        *archetype,
                    ),
            decreases n - i,
        {
            let elem = self.elements[i];
            let values: Option<Vec<Value>> = match archetype.column(&elem.component) {
                Some(col) => Some(copy_values(col)),
                None => None,
            };
            slices.push(FetchSlice { component: elem.component, mode: elem.mode, values });
            i += 1;
        }
        Fetch { slices }
    }
}

/// The non-optional components among the first `n` view elements.
pub open spec fn spec_required_prefix(elements: Seq<ViewElement>, n: int) -> Seq<ComponentTypeId>
    decreases n,
{
    if n <= 0 {
        Seq::empty()
    } else {
        let prev = spec_required_prefix(elements, n - 1);
        if !elements[n - 1].mode.is_optional() {
            prev.push(elements[n - 1].component)
        } else {
            prev
        }
    }
}

/// One slice of a fetch: the access it serves and, when the archetype has
/// the component, a copy of its column.
#[derive(Debug)]
pub struct FetchSlice {
    pub component: ComponentTypeId,
    pub mode: AccessMode,
    pub values: Option<Vec<Value>>,
}

/// A per-archetype handle holding the slices a view requested, in
/// declaration order.
#[derive(Debug)]
pub struct Fetch {
    pub slices: Vec<FetchSlice>,
}

impl Fetch {
    /// Whether every slice of this fetch is read-only.
    pub open spec fn spec_read_only(self) -> bool {
        forall|i: int| 0 <= i < self.slices@.len() ==> !(#[trigger] self.slices@[i]).mode.is_write()
    }

    /// The number of rows of the fetched chunk, when aligned to `rows`.
    pub open spec fn aligned_to(self, rows: nat) -> bool {
        forall|i: int|
            0 <= i < self.slices@.len() ==> match (#[trigger] self.slices@[i]).values {
                Some(v) => v@.len() == rows,
                None => true,
            }
    }
}

/// One fetch slice serves one view element against one archetype: same
/// component and mode; a copy of the column when present, absent otherwise.
pub open spec fn slice_matches(s: FetchSlice, e: ViewElement, archetype: Archetype) -> bool {
    &&& s.component == e.component
    &&& s.mode == e.mode
    &&& if archetype.has_component(e.component) {
        s.values matches Some(v) && v@ == archetype.column_of(e.component)
    } else {
        s.values is None
    }
}

/// The fetch serves the view against the archetype, slice by slice.
pub open spec fn is_fetch_for(f: Fetch, view: QueryView, archetype: Archetype) -> bool {
    &&& f.slices@.len() == view.elements@.len()
    &&& forall|i: int|
        0 <= i < f.slices@.len() ==> slice_matches(
            #[trigger] f.slices@[i],
            view.elements@[i],
            archetype,
        )
}

/// Copies a column of values.
pub fn copy_values(v: &Vec<Value>) -> (r: Vec<Value>)
    ensures
        r@ == v@,
{
    let mut out: Vec<Value> = Vec::new();
    let mut i: usize = 0;
    while i < v.len()
        invariant
            i <= v@.len(),
            out@ =~= v@.subrange(0, i as int),
        decreases v@.len() - i,
    {
        out.push(v[i]);
        i += 1;
    }
    proof {
        assert(out@ =~= v@);
    }
    out
}

} // verus!
