use vstd::prelude::*;
use crate::archetype::Archetype;
use crate::component::{ComponentTypeId, Value};

verus! {

/// Whether a layout (sequence of component type ids) contains a component.
pub open spec fn layout_has(layout: Seq<ComponentTypeId>, c: ComponentTypeId) -> bool {
    exists|i: int| 0 <= i < layout.len() && layout[i] == c
}

/// Whether a layout contains every component of `comps`.
pub open spec fn contains_all(layout: Seq<ComponentTypeId>, comps: Seq<ComponentTypeId>) -> bool {
    forall|k: int| 0 <= k < comps.len() ==> layout_has(layout, comps[k])
}

/// Static predicate over an archetype's layout. Filters form an algebra
/// closed under conjunction, disjunction and negation; the verdict depends
/// only on the layout set.
#[derive(Debug)]
pub enum EntityFilter {
    /// Always passes.
    Passthrough,
    /// Passes layouts that contain the component.
    ComponentRequired(ComponentTypeId),
    /// Passes layouts that do not contain the component.
    ComponentForbidden(ComponentTypeId),
    /// Passes layouts that both children pass.
    And(Box<EntityFilter>, Box<EntityFilter>),
    /// Passes layouts that either child passes.
    Or(Box<EntityFilter>, Box<EntityFilter>),
    /// Passes layouts that the child fails.
    Not(Box<EntityFilter>),
}

impl EntityFilter {
    /// The layout predicate: whether a layout satisfies this filter.
    pub open spec fn matches(self, layout: Seq<ComponentTypeId>) -> bool
        decreases self,
    {
        match self {
            EntityFilter::Passthrough => true,
            EntityFilter::ComponentRequired(c) => layout_has(layout, c),
            EntityFilter::ComponentForbidden(c) => !layout_has(layout, c),
            EntityFilter::And(a, b) => a.matches(layout) && b.matches(layout),
            EntityFilter::Or(a, b) => a.matches(layout) || b.matches(layout),
            EntityFilter::Not(a) => !a.matches(layout),
        }
    }

    /// True iff the filter is a conjunction of required components (and
    /// passthroughs): only such filters can bind to a group.
    pub open spec fn spec_can_match_group(self) -> bool
        decreases self,
    {
        match self {
            EntityFilter::Passthrough => true,
            EntityFilter::ComponentRequired(_) => true,
            EntityFilter::And(a, b) => a.spec_can_match_group() && b.spec_can_match_group(),
            _ => false,
        }
    }

    /// The components required by a group-matchable filter, left to right.
    pub open spec fn spec_group_components(self) -> Seq<ComponentTypeId>
        decreases self,
    {
        match self {
            EntityFilter::ComponentRequired(c) => seq![c],
            EntityFilter::And(a, b) => a.spec_group_components() + b.spec_group_components(),
            _ => Seq::empty(),
        }
    }

    /// Evaluates the layout predicate on a concrete layout.
    pub fn matches_layout(&self, layout: &Vec<ComponentTypeId>) -> (r: bool)
        ensures
            r == self.matches(layout@),
        decreases self,
    {
        match self {
            EntityFilter::Passthrough => true,
            EntityFilter::ComponentRequired(c) => layout_contains(layout, c),
            EntityFilter::ComponentForbidden(c) => !layout_contains(layout, c),
            EntityFilter::And(a, b) => a.matches_layout(layout) && b.matches_layout(layout),
            EntityFilter::Or(a, b) => a.matches_layout(layout) || b.matches_layout(layout),
            EntityFilter::Not(a) => !a.matches_layout(layout),
        }
    }

    pub fn can_match_group(&self) -> (r: bool)
        ensures
            r == self.spec_can_match_group(),
        decreases self,
    {
        match self {
            EntityFilter::Passthrough => true,
            EntityFilter::ComponentRequired(_) => true,
            EntityFilter::And(a, b) => a.can_match_group() && b.can_match_group(),
            _ => false,
        }
    }

    /// Collects the required components of a group-matchable filter.
    pub fn group_components(&self) -> (r: Vec<ComponentTypeId>)
        ensures
            r@ == self.spec_group_components(),
    {
        let mut out: Vec<ComponentTypeId> = Vec::new();
        self.push_group_components(&mut out);
        proof {
            assert(out@ =~= self.spec_group_components());
        }
        out
    }

    fn push_group_components(&self, out: &mut Vec<ComponentTypeId>)
        ensures
            final(out)@ == old(out)@ + self.spec_group_components(),
        decreases self,
    {
        match self {
            EntityFilter::ComponentRequired(c) => {
                out.push(*c);
                proof {
                    assert(out@ =~= old(out)@ + self.spec_group_components());
                }
            }
            EntityFilter::And(a, b) => {
                a.push_group_components(out);
                b.push_group_components(out);
                proof {
                    assert(out@ =~= old(out)@ + self.spec_group_components());
                }
            }
            _ => {
                proof {
                    assert(out@ =~= old(out)@ + self.spec_group_components());
                }
            }
        }
    }

    /// The conjunction of two filters.
    pub fn and(self, other: EntityFilter) -> (r: EntityFilter)
        ensures
            forall|layout: Seq<ComponentTypeId>|
                (#[trigger] r.matches(layout)) <==> self.matches(layout) && other.matches(
                    layout,
                ),
    {
        EntityFilter::And(Box::new(self), Box::new(other))
    }
}

/// A group-matchable filter passes exactly the layouts that contain all of
/// its required components.
pub proof fn lemma_group_filter_semantics(f: EntityFilter, layout: Seq<ComponentTypeId>)
    requires
        f.spec_can_match_group(),
    ensures
        f.matches(layout) <==> contains_all(layout, f.spec_group_components()),
    decreases f,
{
    match f {
        EntityFilter::ComponentRequired(c) => {
            let g = f.spec_group_components();
            assert(g =~= seq![c]);
            if layout_has(layout, c) {
                assert forall|k: int| 0 <= k < g.len() implies layout_has(
                    layout,
                    #[trigger] g[k],
                ) by {
                    assert(g[k] == c);
                }
            }
            if contains_all(layout, g) {
                assert(layout_has(layout, g[0]));
            }
        }
        EntityFilter::And(a, b) => {
            lemma_group_filter_semantics(*a, layout);
            lemma_group_filter_semantics(*b, layout);
            lemma_contains_all_concat(
                layout,
                a.spec_group_components(),
                b.spec_group_components(),
            );
        }
        _ => {}
    }
}

/// A layout contains all components of a concatenation iff it contains all
/// components of both parts.
pub proof fn lemma_contains_all_concat(
    layout: Seq<ComponentTypeId>,
    x: Seq<ComponentTypeId>,
    y: Seq<ComponentTypeId>,
)
    ensures
        contains_all(layout, x + y) <==> (contains_all(layout, x) && contains_all(layout, y)),
{
    if contains_all(layout, x + y) {
        assert forall|k: int| 0 <= k < x.len() implies layout_has(layout, #[trigger] x[k]) by {
            assert((x + y)[k] == x[k]);
            assert(layout_has(layout, (x + y)[k]));
        }
        assert forall|k: int| 0 <= k < y.len() implies layout_has(layout, #[trigger] y[k]) by {
            assert((x + y)[x.len() + k] == y[k]);
            assert(layout_has(layout, (x + y)[x.len() + k]));
        }
    }
    if contains_all(layout, x) && contains_all(layout, y) {
        assert forall|k: int| 0 <= k < (x + y).len() implies layout_has(
            layout,
            #[trigger] (x + y)[k],
        ) by {
            if k < x.len() {
                assert((x + y)[k] == x[k]);
            } else {
                assert((x + y)[k] == y[k - x.len()]);
            }
        }
    }
}

/// Per-chunk runtime predicate, consulted after the static layout match. It
/// may read the chunk's storage, not just its layout.
#[derive(Clone, Copy, Debug)]
pub enum DynamicFilter {
    /// Accept every chunk.
    Passthrough,
    /// Accept only chunks holding at least this many entities.
    MinEntities(usize),
    /// Accept only chunks whose column of the component holds the value
    /// somewhere.
    ContainsValue(ComponentTypeId, Value),
}

impl DynamicFilter {
    /// Whether an archetype's chunk passes.
    pub open spec fn passes(self, a: Archetype) -> bool {
        match self {
            DynamicFilter::Passthrough => true,
            DynamicFilter::MinEntities(n) => a.entities@.len() >= n,
            DynamicFilter::ContainsValue(c, v) => a.has_component(c) && exists|i: int|
                0 <= i < a.column_of(c).len() && a.column_of(c)[i] == v,
        }
    }

    /// Evaluates the predicate against an archetype's chunk.
    pub fn matches_archetype(&self, a: &Archetype) -> (r: bool)
        requires
            a.wf(),
        ensures
            r == self.passes(*a),
    {
        match self {
            DynamicFilter::Passthrough => true,
            DynamicFilter::MinEntities(n) => a.entities.len() >= *n,
            DynamicFilter::ContainsValue(c, v) => match a.column(c) {
                Some(col) => column_holds(col, v),
                None => false,
            },
        }
    }
}

/// Scans a column for a value.
fn column_holds(col: &Vec<Value>, v: &Value) -> (r: bool)
    ensures
        r == exists|i: int| 0 <= i < col@.len() && col@[i] == *v,
{
    let mut i: usize = 0;
    while i < col.len()
        invariant
            i <= col@.len(),
            forall|j: int| 0 <= j < i ==> col@[j] != *v,
        decreases col@.len() - i,
    {
        if col[i] == *v {
            return true;
        }
        i += 1;
    }
    false
}

/// Checks that a layout contains every component of `comps`.
pub fn contains_all_exec(layout: &Vec<ComponentTypeId>, comps: &Vec<ComponentTypeId>) -> (r: bool)
    ensures
        r == contains_all(layout@, comps@),
{
    let mut k: usize = 0;
    while k < comps.len()
        invariant
            k <= comps@.len(),
            forall|j: int| 0 <= j < k ==> layout_has(layout@, #[trigger] comps@[j]),
        decreases comps@.len() - k,
    {
        if !layout_contains(layout, &comps[k]) {
            return false;
        }
        k += 1;
    }
    true
}

/// Searches a layout for a component.
pub fn layout_contains(layout: &Vec<ComponentTypeId>, c: &ComponentTypeId) -> (r: bool)
    ensures
        r == layout_has(layout@, *c),
{
    let mut i: usize = 0;
    while i < layout.len()
        invariant
            0 <= i <= layout@.len(),
            forall|j: int| 0 <= j < i ==> layout@[j] != *c,
        decreases layout@.len() - i,
    {
        if layout[i].id == c.id {
            proof {
                assert(layout@[i as int] == *c);
            }
            return true;
        }
        i += 1;
    }
    false
}

} // verus!
