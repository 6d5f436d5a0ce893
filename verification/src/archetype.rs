use vstd::prelude::*;
use crate::component::{ComponentTypeId, Entity, Value};
use crate::filter::layout_has;

verus! {

/// A layout sorted strictly by component id: no duplicates.
pub open spec fn sorted_layout(layout: Seq<ComponentTypeId>) -> bool {
    forall|i: int, j: int|
        0 <= i < j < layout.len() ==> #[trigger] layout[i].id < #[trigger] layout[j].id
}

/// Storage for all entities that carry exactly one set of component types:
/// the layout, the entity ids, and one value column per layout entry, all
/// columns of equal length.
#[derive(Debug)]
pub struct Archetype {
    /// The component types of this archetype, sorted by id.
    pub layout: Vec<ComponentTypeId>,
    /// The entities stored here; row `i` of every column belongs to entry `i`.
    pub entities: Vec<Entity>,
    /// One value column per layout entry, in layout order.
    pub columns: Vec<Vec<Value>>,
}

impl Archetype {
    /// Structural invariant: sorted unique layout, one column per component,
    /// all columns as long as the entity list.
    pub open spec fn wf(self) -> bool {
        &&& sorted_layout(self.layout@)
        &&& self.columns@.len() == self.layout@.len()
        &&& forall|i: int|
            0 <= i < self.columns@.len() ==> #[trigger] self.columns@[i]@.len()
                == self.entities@.len()
    }

    /// Whether the layout contains a component type.
    pub open spec fn has_component(self, c: ComponentTypeId) -> bool {
        layout_has(self.layout@, c)
    }

    /// The layout position of a component type (meaningful when present:
    /// a sorted layout holds each component at most once).
    pub open spec fn slot_of(self, c: ComponentTypeId) -> int {
        choose|i: int| 0 <= i < self.layout@.len() && self.layout@[i] == c
    }

    /// The value column of a component type.
    pub open spec fn column_of(self, c: ComponentTypeId) -> Seq<Value> {
        self.columns@[self.slot_of(c)]@
    }

    /// Builds an archetype, checking the structural invariant: the layout
    /// must be sorted strictly by id, with one column per component, all
    /// columns as long as the entity list. Returns `None` otherwise.
    pub fn new(layout: Vec<ComponentTypeId>, entities: Vec<Entity>, columns: Vec<Vec<Value>>) -> (r:
        Option<Archetype>)
        ensures
            match r {
                Some(a) => a.layout == layout && a.entities == entities && a.columns == columns
                    && a.wf(),
                None => !(Archetype { layout, entities, columns }).wf(),
            },
    {
        if columns.len() != layout.len() {
            return None;
        }
        let mut i: usize = 0;
        while i < columns.len()
            invariant
                i <= columns@.len(),
                forall|j: int| 0 <= j < i ==> #[trigger] columns@[j]@.len() == entities@.len(),
            decreases columns@.len() - i,
        {
            if columns[i].len() != entities.len() {
                return None;
            }
            i += 1;
        }
        let mut k: usize = 1;
        while k < layout.len()
            invariant
                1 <= k || layout@.len() == 0,
                k <= layout@.len() || layout@.len() == 0,
                forall|j: int| 0 <= j < k - 1 ==> #[trigger] layout@[j].id < layout@[j + 1].id,
            decreases layout@.len() - k,
        {
            if layout[k - 1].id >= layout[k].id {
                proof {
                    assert(!sorted_layout(layout@));
                }
                return None;
            }
            k += 1;
        }
        proof {
            lemma_adjacent_sorted(layout@);
        }
        Some(Archetype { layout, entities, columns })
    }

    /// Whether this archetype's layout contains the component type.
    pub fn contains(&self, c: &ComponentTypeId) -> (r: bool)
        ensures
            r == self.has_component(*c),
    {
        crate::filter::layout_contains(&self.layout, c)
    }

    /// The layout position of a component type, if present.
    pub fn column_index(&self, c: &ComponentTypeId) -> (r: Option<usize>)
        ensures
            match r {
                Some(i) => i < self.layout@.len() && self.layout@[i as int] == *c,
                None => !self.has_component(*c),
            },
    {
        let mut i: usize = 0;
        while i < self.layout.len()
            invariant
                i <= self.layout@.len(),
                forall|j: int| 0 <= j < i ==> self.layout@[j] != *c,
            decreases self.layout@.len() - i,
        {
            if self.layout[i].id == c.id {
                proof {
                    assert(self.layout@[i as int] == *c);
                }
                return Some(i);
            }
            i += 1;
        }
        None
    }

    /// The value column of a component type, if present.
    pub fn column(&self, c: &ComponentTypeId) -> (r: Option<&Vec<Value>>)
        requires
            self.wf(),
        ensures
            match r {
                Some(v) => self.has_component(*c) && v@ == self.column_of(*c),
                None => !self.has_component(*c),
            },
    {
        match self.column_index(c) {
            Some(i) => {
                proof {
                    lemma_slot_unique(*self, *c, i as int);
                }
                Some(&self.columns[i])
            }
            None => None,
        }
    }

    /// The entity ids of all rows.
    pub fn entities(&self) -> (r: &Vec<Entity>)
        ensures
            r == self.entities,
    {
        &self.entities
    }

    /// The number of entities stored here.
    pub fn len(&self) -> (r: usize)
        ensures
            r == self.entities@.len(),
    {
        self.entities.len()
    }
}

/// In a sorted layout, a component sits at exactly one position, so any
/// position that holds it is `slot_of`.
pub proof fn lemma_slot_unique(a: Archetype, c: ComponentTypeId, i: int)
    requires
        sorted_layout(a.layout@),
        0 <= i < a.layout@.len(),
        a.layout@[i] == c,
    ensures
        a.slot_of(c) == i,
        a.has_component(c),
{
    let s = a.slot_of(c);
    assert(0 <= s < a.layout@.len() && a.layout@[s] == c);
    if s < i {
        assert(a.layout@[s].id < a.layout@[i].id);
    } else if s > i {
        assert(a.layout@[i].id < a.layout@[s].id);
    }
}

/// A layout whose adjacent entries are ordered is sorted.
proof fn lemma_adjacent_sorted(layout: Seq<ComponentTypeId>)
    requires
        forall|j: int| 0 <= j < layout.len() - 1 ==> #[trigger] layout[j].id < layout[j + 1].id,
    ensures
        sorted_layout(layout),
{
    assert forall|i: int, j: int|
        0 <= i < j < layout.len() implies #[trigger] layout[i].id < #[trigger] layout[j].id by {
        lemma_adjacent_sorted_step(layout, i, j);
    }
}

proof fn lemma_adjacent_sorted_step(layout: Seq<ComponentTypeId>, i: int, j: int)
    requires
        forall|k: int| 0 <= k < layout.len() - 1 ==> #[trigger] layout[k].id < layout[k + 1].id,
        0 <= i < j < layout.len(),
    ensures
        layout[i].id < layout[j].id,
    decreases j - i,
{
    if i + 1 == j {
        assert(layout[i].id < layout[i + 1].id);
    } else {
        lemma_adjacent_sorted_step(layout, i, j - 1);
        assert(layout[j - 1].id < layout[j].id);
    }
}

} // verus!
