//! Per-component-type column storage: a dense sequence of optional slots,
//! one slot per entity id known to the world, plus the per-column borrow
//! discipline flags.

use vstd::prelude::*;
use vstd::pervasive::VecAdditionalExecFns;

use crate::component::Component;

verus! {

/// The capability surface a column offers to the entity registry: grow by
/// one empty slot when an entity is created, and clear the slot at an index
/// when an entity or a component is removed. The world holds one column per
/// registered component type and drives them all through these two
/// operations.
pub trait ComponentStorage<V> {
    /// The slots of the column, one per entity id.
    spec fn storage_slots(&self) -> Seq<Option<V>>;

    /// True when no borrow of the column is outstanding.
    spec fn storage_idle(&self) -> bool;

    /// Append one empty slot at the end of the column.
    fn push_none(&mut self)
        requires
            old(self).storage_idle(),
        ensures
            final(self).storage_slots() == old(self).storage_slots().push(None),
            final(self).storage_idle(),
    ;

    /// Empty the slot at `index`, leaving every other slot as it was.
    fn none_at(&mut self, index: usize)
        requires
            old(self).storage_idle(),
            index < old(self).storage_slots().len(),
        ensures
            final(self).storage_slots() == old(self).storage_slots().update(index as int, None),
            final(self).storage_idle(),
    ;
}

/// A column: the dense store for one component type. `slots[id]` is either
/// empty or holds the component value of entity `id`. The two counters
/// carry the runtime borrow discipline: any number of shared borrows, or
/// one exclusive borrow, may be outstanding at a time.
pub struct Column<V> {
    /// The component-type tag this column stores values for.
    pub type_tag: u64,
    /// One optional component value per entity id.
    pub slots: Vec<Option<V>>,
    /// How many shared borrows of the column are outstanding.
    pub shared_borrows: usize,
    /// Whether an exclusive borrow of the column is outstanding.
    pub exclusive_borrow: bool,
}

impl<V: Component> Column<V> {
    /// The component-type tag this column stores values for.
    pub open spec fn spec_tag(self) -> u64 {
        self.type_tag
    }

    /// The slots of the column, one per entity id.
    pub open spec fn spec_slots(self) -> Seq<Option<V>> {
        self.slots@
    }

    /// How many shared borrows of the column are outstanding.
    pub open spec fn spec_shared(self) -> nat {
        self.shared_borrows as nat
    }

    /// Whether an exclusive borrow of the column is outstanding.
    pub open spec fn spec_exclusive(self) -> bool {
        self.exclusive_borrow
    }

    /// No borrow of any kind is outstanding.
    pub open spec fn is_free(self) -> bool {
        self.spec_shared() == 0 && !self.spec_exclusive()
    }

    /// Shared and exclusive borrows never coexist.
    pub open spec fn borrow_ok(self) -> bool {
        !(self.spec_shared() > 0 && self.spec_exclusive())
    }

    /// A fresh, unborrowed column for `type_tag` with `len` empty slots,
    /// one per entity id already handed out.
    pub fn new(type_tag: u64, len: usize) -> (c: Column<V>)
        ensures
            c.spec_tag() == type_tag,
            c.spec_slots().len() == len,
            forall|i: int| 0 <= i < len ==> c.spec_slots()[i] == None::<V>,
            c.is_free(),
    {
        let mut slots: Vec<Option<V>> = Vec::new();
        for i in 0..len
            invariant
                slots@.len() == i,
                forall|j: int| 0 <= j < i ==> slots@[j] == None::<V>,
        {
            slots.push(None);
        }
        Column { type_tag, slots, shared_borrows: 0, exclusive_borrow: false }
    }

    /// A copy of the column's slots, handed to a borrower.
    pub fn copy_slots(&self) -> (r: Vec<Option<V>>)
        ensures
            r@ == self.spec_slots(),
    {
        let mut out: Vec<Option<V>> = Vec::new();
        let n = self.slots.len();
        for i in 0..n
            invariant
                out@.len() == i,
                n == self.slots@.len(),
                forall|j: int| 0 <= j < i ==> out@[j] == self.slots@[j],
        {
            out.push(self.slots[i]);
        }
        proof {
            assert(out@ =~= self.slots@);
        }
        out
    }
}

impl<V: Component> ComponentStorage<V> for Column<V> {
    open spec fn storage_slots(&self) -> Seq<Option<V>> {
        self.slots@
    }

    open spec fn storage_idle(&self) -> bool {
        self.is_free()
    }

    fn push_none(&mut self)
        ensures
            final(self).spec_tag() == old(self).spec_tag(),
            final(self).is_free(),
    {
        self.slots.push(None);
    }

    fn none_at(&mut self, index: usize)
        ensures
            final(self).spec_tag() == old(self).spec_tag(),
            final(self).is_free(),
    {
        self.slots.set(index, None);
    }
}

} // verus!
