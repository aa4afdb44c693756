//! The world: entity identity and lifecycle, the store of per-type columns,
//! and the registry of weak component handles.
//!
//! Entities are integer identifiers in `[0, entity slot count)`; removed
//! identifiers sit on a free list (a stack: most recently freed first) until
//! a later creation reuses them. Every column always has exactly one slot
//! per entity slot. Component types are identified by a caller-supplied
//! tag, compared by value; at most one column exists per tag, and a column,
//! once created, persists for the life of the world.

use vstd::prelude::*;
use vstd::pervasive::VecAdditionalExecFns;
use vstd::relations::injective;
use vstd::set_lib::lemma_int_range;
use vstd::set_lib::lemma_len_subset;
use vstd::set_lib::set_int_range;

use crate::component::Component;
use crate::component_storage::Column;
use crate::component_storage::ComponentStorage;

verus! {

/// A failure surfaced to the immediate caller. Absence of a column or of a
/// component value is never an error; these are the caller-bug conditions
/// the world reports instead of corrupting state.
#[derive(Clone, Copy, PartialEq, Eq, Structural, Debug)]
pub enum WorldError {
    /// An entity id at or beyond the current entity slot count was used, or
    /// a write-back handed in the wrong number of slots.
    IndexOutOfRange,
    /// An access that the per-column borrow discipline forbids: a second
    /// exclusive borrow, an exclusive borrow while shared borrows are out,
    /// or a release without a matching borrow.
    BorrowConflict,
    /// An entity id that is already on the free list was removed again.
    DoubleFree,
}

/// A weak reference to "the component of type `component_type` believed to
/// live at entity `entity_id`". It owns nothing and keeps nothing alive:
/// it goes stale the moment the referenced slot is cleared or reused.
#[derive(Clone, Copy, PartialEq, Eq, Structural, Debug)]
pub struct ComponentHandle {
    /// The entity the handle points at.
    pub entity_id: usize,
    /// The tag of the component type the handle points at.
    pub component_type: u64,
}

/// A stable index into the world's handle registry, handed to the caller
/// when a component is attached. The record it names can be repointed or
/// pruned by the world; the index itself never moves.
#[derive(Clone, Copy, PartialEq, Eq, Structural, Debug)]
pub struct HandleId {
    /// Position of the record in the registry.
    pub index: usize,
}

impl ComponentHandle {
    /// A handle for the component of type `component_type` at `entity_id`.
    pub fn to(entity_id: usize, component_type: u64) -> (h: ComponentHandle)
        ensures
            h.entity_id == entity_id,
            h.component_type == component_type,
    {
        ComponentHandle { entity_id, component_type }
    }

    /// Point this handle at the component of type `component_type` at
    /// `entity_id` instead.
    pub fn repoint(&mut self, entity_id: usize, component_type: u64)
        ensures
            final(self).entity_id == entity_id,
            final(self).component_type == component_type,
    {
        self.entity_id = entity_id;
        self.component_type = component_type;
    }

    /// Whether two handles point at the same (entity, component type) pair.
    /// Equality is by value, not by record identity.
    pub fn equals(&self, other: &ComponentHandle) -> (r: bool)
        ensures
            r == (self.entity_id == other.entity_id && self.component_type
                == other.component_type),
    {
        self.entity_id == other.entity_id && self.component_type == other.component_type
    }

    /// The tag of the component type the handle points at.
    pub fn component_type(&self) -> (r: u64)
        ensures
            r == self.component_type,
    {
        self.component_type
    }

    /// Read the component the handle points at, through the world: the
    /// stored value, or absence when the handle is stale (slot cleared, or
    /// no column for its type). Fails like `World::get_component`.
    pub fn get<V: Component>(&self, world: &World<V>) -> (r: Result<Option<V>, WorldError>)
        requires
            world.wf(),
        ensures
            match r {
                Ok(v) => {
                    &&& self.entity_id < world.spec_entity_count()
                    &&& !(world.has_col(self.component_type) && world.col_exclusive(
                        self.component_type,
                    ))
                    &&& v == world.lookup(self.component_type, self.entity_id)
                },
                Err(e) => {
                    &&& (e == WorldError::IndexOutOfRange || e == WorldError::BorrowConflict)
                    &&& (e == WorldError::IndexOutOfRange <==> self.entity_id
                        >= world.spec_entity_count())
                    &&& (e == WorldError::BorrowConflict <==> self.entity_id
                        < world.spec_entity_count() && world.has_col(self.component_type)
                        && world.col_exclusive(self.component_type))
                },
            },
    {
        world.get_component(self.component_type, self.entity_id)
    }
}

/// The world. See the module doc for the data model; `wf` is the internal
/// invariant every operation requires and preserves.
pub struct World<V> {
    entity_count: usize,
    columns: Vec<Column<V>>,
    active_handles: Vec<Option<ComponentHandle>>,
    free_slots: Vec<usize>,
}

impl<V: Component> World<V> {
    /// How many entity slots have ever been handed out; every column has
    /// exactly this many slots, and every valid entity id is below it.
    pub closed spec fn spec_entity_count(self) -> nat {
        self.entity_count as nat
    }

    /// The free list: removed entity ids awaiting reuse, oldest first, so
    /// the last element is the next id a creation returns.
    pub closed spec fn free_list(self) -> Seq<usize> {
        self.free_slots@
    }

    /// The handle registry: one record per attach that has not been pruned;
    /// pruned positions stay as `None` so indices remain stable.
    pub closed spec fn handles(self) -> Seq<Option<ComponentHandle>> {
        self.active_handles@
    }

    /// Whether a column exists for the component type `tag`.
    pub closed spec fn has_col(self, tag: u64) -> bool {
        exists|i: int|
            0 <= i < self.columns@.len() && self.columns@[i].type_tag == tag
    }

    spec fn col_idx(self, tag: u64) -> int {
        choose|i: int|
            0 <= i < self.columns@.len() && self.columns@[i].type_tag == tag
    }

    /// The slots of the column for `tag`; meaningful only when
    /// `has_col(tag)`.
    pub closed spec fn col(self, tag: u64) -> Seq<Option<V>> {
        self.columns@[self.col_idx(tag)].slots@
    }

    /// Outstanding shared borrows of the column for `tag`.
    pub closed spec fn col_shared(self, tag: u64) -> nat {
        self.columns@[self.col_idx(tag)].shared_borrows as nat
    }

    /// Whether an exclusive borrow of the column for `tag` is outstanding.
    pub closed spec fn col_exclusive(self, tag: u64) -> bool {
        self.columns@[self.col_idx(tag)].exclusive_borrow
    }

    /// No borrow of the column for `tag` is outstanding.
    pub open spec fn col_free(self, tag: u64) -> bool {
        self.col_shared(tag) == 0 && !self.col_exclusive(tag)
    }

    /// No borrow of any column is outstanding.
    pub open spec fn all_cols_free(self) -> bool {
        forall|t: u64| #[trigger] self.has_col(t) ==> self.col_free(t)
    }

    /// What a read of slot `id` in the column for `tag` observes: the
    /// stored value, or absence when there is no such column, the id is
    /// out of range, or the slot is empty.
    pub open spec fn lookup(self, tag: u64, id: usize) -> Option<V> {
        if self.has_col(tag) && id < self.col(tag).len() {
            self.col(tag)[id as int]
        } else {
            None
        }
    }

    /// An id is live when it has been handed out and not freed since.
    pub open spec fn is_live(self, id: usize) -> bool {
        id < self.spec_entity_count() && !self.free_list().contains(id)
    }

    /// The number of live entities.
    pub open spec fn live_count(self) -> int {
        self.spec_entity_count() - self.free_list().len()
    }

    /// The world's invariant: every column has one slot per entity slot and
    /// a consistent borrow state, column tags are unique, and the free list
    /// holds distinct ids below the entity slot count.
    pub closed spec fn wf(self) -> bool {
        &&& forall|i: int|
            0 <= i < self.columns@.len() ==> (#[trigger] self.columns@[i]).slots@.len()
                == self.entity_count
        &&& forall|i: int|
            0 <= i < self.columns@.len() ==> (#[trigger] self.columns@[i]).borrow_ok()
        &&& forall|i: int, j: int|
            0 <= i < j < self.columns@.len() ==> self.columns@[i].type_tag
                != self.columns@[j].type_tag
        &&& self.free_slots@.no_duplicates()
        &&& forall|i: int|
            0 <= i < self.free_slots@.len() ==> (#[trigger] self.free_slots@[i])
                < self.entity_count
    }

    /// In a well-formed world every existing column has exactly one slot
    /// per entity slot.
    pub proof fn lemma_col_len(self, tag: u64)
        requires
            self.wf(),
            self.has_col(tag),
        ensures
            self.col(tag).len() == self.spec_entity_count(),
    {
        let i = self.col_idx(tag);
        assert(0 <= i < self.columns@.len() && self.columns@[i].type_tag == tag);
    }

    /// Knowing a concrete position with the right tag pins down `col_idx`,
    /// because tags are unique.
    proof fn lemma_col_idx_is(self, i: int, tag: u64)
        requires
            forall|a: int, b: int|
                0 <= a < b < self.columns@.len() ==> self.columns@[a].type_tag
                    != self.columns@[b].type_tag,
            0 <= i < self.columns@.len(),
            self.columns@[i].type_tag == tag,
        ensures
            self.has_col(tag),
            self.col_idx(tag) == i,
    {
        assert(self.has_col(tag));
        let j = self.col_idx(tag);
        assert(0 <= j < self.columns@.len() && self.columns@[j].type_tag == tag);
        if i < j {
            assert(self.columns@[i].type_tag != self.columns@[j].type_tag);
        } else if j < i {
            assert(self.columns@[j].type_tag != self.columns@[i].type_tag);
        }
    }

    /// In a well-formed world the free list holds distinct ids, each below
    /// the entity slot count.
    pub proof fn lemma_wf_free_list(self)
        requires
            self.wf(),
        ensures
            self.free_list().no_duplicates(),
            forall|k: int|
                0 <= k < self.free_list().len() ==> (#[trigger] self.free_list()[k])
                    < self.spec_entity_count(),
    {
    }

    /// Distinct ids all below the entity slot count cannot outnumber it.
    proof fn lemma_free_len_le_count(self)
        requires
            self.wf(),
        ensures
            self.free_slots@.len() <= self.entity_count,
    {
        let s = self.free_slots@;
        let f = |x: usize| x as int;
        let si = s.map_values(f);
        assert(injective(f));
        s.lemma_no_duplicates_injective(f);
        si.unique_seq_to_set();
        let range = set_int_range(0, self.entity_count as int);
        assert(si.to_set().subset_of(range)) by {
            assert forall|x: int| si.to_set().contains(x) implies range.contains(x) by {
                let k = choose|k: int| 0 <= k < si.len() && si[k] == x;
                assert(si[k] == f(s[k]));
            }
        }
        lemma_int_range(0, self.entity_count as int);
        lemma_len_subset(si.to_set(), range);
    }

    /// An empty world: no entities, no columns, no handles.
    pub fn new() -> (w: World<V>)
        ensures
            w.wf(),
            w.spec_entity_count() == 0,
            w.free_list() == Seq::<usize>::empty(),
            w.handles() == Seq::<Option<ComponentHandle>>::empty(),
            forall|t: u64| !w.has_col(t),
    {
        World {
            entity_count: 0,
            columns: Vec::new(),
            active_handles: Vec::new(),
            free_slots: Vec::new(),
        }
    }

    /// The number of live entities: ids handed out and not freed since.
    pub fn count_entities(&self) -> (r: usize)
        requires
            self.wf(),
        ensures
            r == self.live_count(),
    {
        proof {
            self.lemma_free_len_le_count();
        }
        self.entity_count - self.free_slots.len()
    }

    /// The registry record a handle id currently names: the handle, or
    /// `None` once the record has been pruned (or the id was never handed
    /// out by this world).
    pub fn handle_record(&self, h: HandleId) -> (r: Option<ComponentHandle>)
        ensures
            r == if h.index < self.handles().len() {
                self.handles()[h.index as int]
            } else {
                None
            },
    {
        if h.index < self.active_handles.len() {
            self.active_handles[h.index]
        } else {
            None
        }
    }

    fn column_index(&self, tag: u64) -> (r: Option<usize>)
        requires
            self.wf(),
        ensures
            match r {
                Some(i) => self.has_col(tag) && i < self.columns@.len() && self.col_idx(tag)
                    == i && self.columns@[i as int].type_tag == tag,
                None => !self.has_col(tag),
            },
    {
        let n = self.columns.len();
        for i in 0..n
            invariant
                n == self.columns@.len(),
                self.wf(),
                forall|j: int| 0 <= j < i ==> self.columns@[j].type_tag != tag,
        {
            if self.columns[i].type_tag == tag {
                proof {
                    self.lemma_col_idx_is(i as int, tag);
                }
                return Some(i);
            }
        }
        proof {
            if self.has_col(tag) {
                let j = self.col_idx(tag);
                assert(0 <= j < self.columns@.len() && self.columns@[j].type_tag == tag);
            }
        }
        None
    }

    /// When two worlds have columns of the same tags and borrow states at
    /// the same positions, the per-tag views of column layout and borrow
    /// state agree.
    proof fn lemma_same_layout(pre: Self, post: Self)
        requires
            pre.columns@.len() == post.columns@.len(),
            forall|i: int|
                0 <= i < pre.columns@.len() ==> (#[trigger] post.columns@[i]).type_tag
                    == pre.columns@[i].type_tag && post.columns@[i].shared_borrows
                    == pre.columns@[i].shared_borrows && post.columns@[i].exclusive_borrow
                    == pre.columns@[i].exclusive_borrow,
            forall|a: int, b: int|
                0 <= a < b < pre.columns@.len() ==> pre.columns@[a].type_tag
                    != pre.columns@[b].type_tag,
        ensures
            forall|t: u64|
                #![trigger pre.has_col(t)]
                #![trigger post.has_col(t)]
                (pre.has_col(t) <==> post.has_col(t)),
            forall|t: u64|
                #![trigger pre.has_col(t)]
                #![trigger post.has_col(t)]
                pre.has_col(t) ==> {
                    &&& post.col_idx(t) == pre.col_idx(t)
                    &&& 0 <= pre.col_idx(t) < pre.columns@.len()
                    &&& pre.columns@[pre.col_idx(t)].type_tag == t
                    &&& post.col_shared(t) == pre.col_shared(t)
                    &&& post.col_exclusive(t) == pre.col_exclusive(t)
                },
    {
        assert forall|a: int, b: int|
            0 <= a < b < post.columns@.len() implies post.columns@[a].type_tag
            != post.columns@[b].type_tag by {
            assert(post.columns@[a].type_tag == pre.columns@[a].type_tag);
            assert(post.columns@[b].type_tag == pre.columns@[b].type_tag);
        }
        assert forall|t: u64| pre.has_col(t) implies post.has_col(t) && post.col_idx(t)
            == pre.col_idx(t) && 0 <= pre.col_idx(t) < pre.columns@.len()
            && pre.columns@[pre.col_idx(t)].type_tag == t && post.col_shared(t)
            == pre.col_shared(t) && post.col_exclusive(t) == pre.col_exclusive(t) by {
            let i = pre.col_idx(t);
            assert(0 <= i < pre.columns@.len() && pre.columns@[i].type_tag == t);
            assert(post.columns@[i].type_tag == t);
            post.lemma_col_idx_is(i, t);
        }
        assert forall|t: u64| post.has_col(t) implies pre.has_col(t) by {
            let i = post.col_idx(t);
            assert(0 <= i < post.columns@.len() && post.columns@[i].type_tag == t);
            pre.lemma_col_idx_is(i, t);
        }
    }

    /// When two worlds have columns of the same tags at the same positions,
    /// the per-tag column indices agree, whatever the borrow states.
    proof fn lemma_same_tags(pre: Self, post: Self)
        requires
            pre.columns@.len() == post.columns@.len(),
            forall|i: int|
                0 <= i < pre.columns@.len() ==> (#[trigger] post.columns@[i]).type_tag
                    == pre.columns@[i].type_tag,
            forall|a: int, b: int|
                0 <= a < b < pre.columns@.len() ==> pre.columns@[a].type_tag
                    != pre.columns@[b].type_tag,
        ensures
            forall|t: u64|
                #![trigger pre.has_col(t)]
                #![trigger post.has_col(t)]
                (pre.has_col(t) <==> post.has_col(t)),
            forall|t: u64|
                #![trigger pre.has_col(t)]
                #![trigger post.has_col(t)]
                pre.has_col(t) ==> {
                    &&& post.col_idx(t) == pre.col_idx(t)
                    &&& 0 <= pre.col_idx(t) < pre.columns@.len()
                    &&& pre.columns@[pre.col_idx(t)].type_tag == t
                },
    {
        assert forall|a: int, b: int|
            0 <= a < b < post.columns@.len() implies post.columns@[a].type_tag
            != post.columns@[b].type_tag by {
            assert(post.columns@[a].type_tag == pre.columns@[a].type_tag);
            assert(post.columns@[b].type_tag == pre.columns@[b].type_tag);
        }
        assert forall|t: u64| pre.has_col(t) implies post.has_col(t) && post.col_idx(t)
            == pre.col_idx(t) && 0 <= pre.col_idx(t) < pre.columns@.len()
            && pre.columns@[pre.col_idx(t)].type_tag == t by {
            let i = pre.col_idx(t);
            assert(0 <= i < pre.columns@.len() && pre.columns@[i].type_tag == t);
            assert(post.columns@[i].type_tag == t);
            post.lemma_col_idx_is(i, t);
        }
        assert forall|t: u64| post.has_col(t) implies pre.has_col(t) by {
            let i = post.col_idx(t);
            assert(0 <= i < post.columns@.len() && post.columns@[i].type_tag == t);
            pre.lemma_col_idx_is(i, t);
        }
    }

    /// What every borrow-state change to the column for `tag` leaves alone:
    /// the entities, the free list, the handle registry, the set of
    /// columns and every slot, and the borrow states of all other columns.
    pub open spec fn same_but_borrow(pre: Self, post: Self, tag: u64) -> bool {
        &&& post.spec_entity_count() == pre.spec_entity_count()
        &&& post.free_list() == pre.free_list()
        &&& post.handles() == pre.handles()
        &&& forall|t: u64|
            #![trigger pre.has_col(t)]
            #![trigger post.has_col(t)]
            (post.has_col(t) <==> pre.has_col(t))
        &&& forall|t: u64| #[trigger] pre.has_col(t) ==> post.col(t) == pre.col(t)
        &&& forall|t: u64|
            (#[trigger] pre.has_col(t)) && t != tag ==> post.col_shared(t) == pre.col_shared(t)
                && post.col_exclusive(t) == pre.col_exclusive(t)
    }

    /// Acquire a shared borrow of the column for `tag` and hand back a copy
    /// of its slots for iteration. Any number of shared borrows may be out
    /// at once; each must be released with `release_components`. Absence of
    /// a column is not an error; an outstanding exclusive borrow is.
    pub fn borrow_components(&mut self, tag: u64) -> (r: Result<
        Option<Vec<Option<V>>>,
        WorldError,
    >)
        requires
            old(self).wf(),
        ensures
            final(self).wf(),
            match r {
                Ok(opt) => match opt {
                    None => !old(self).has_col(tag) && *final(self) == *old(self),
                    Some(slots) => {
                        &&& old(self).has_col(tag)
                        &&& !old(self).col_exclusive(tag)
                        &&& old(self).col_shared(tag) < usize::MAX
                        &&& slots@ == old(self).col(tag)
                        &&& Self::same_but_borrow(*old(self), *final(self), tag)
                        &&& final(self).col_shared(tag) == old(self).col_shared(tag) + 1
                        &&& !final(self).col_exclusive(tag)
                    },
                },
                Err(e) => {
                    &&& e == WorldError::BorrowConflict
                    &&& old(self).has_col(tag)
                    &&& (old(self).col_exclusive(tag) || old(self).col_shared(tag) == usize::MAX)
                    &&& *final(self) == *old(self)
                },
            },
    {
        let i = match self.column_index(tag) {
            None => {
                return Ok(None);
            },
            Some(i) => i,
        };
        if self.columns[i].exclusive_borrow || self.columns[i].shared_borrows == usize::MAX {
            return Err(WorldError::BorrowConflict);
        }
        let out = self.columns[i].copy_slots();
        let ghost pre = *self;
        let col = &mut self.columns[i];
        col.shared_borrows = col.shared_borrows + 1;
        proof {
            Self::lemma_borrow_flag_change(pre, *self, tag, i as int);
        }
        Ok(Some(out))
    }

    /// Release one shared borrow of the column for `tag`, previously
    /// acquired with `borrow_components`. Releasing a borrow that was never
    /// acquired is a discipline violation and fails.
    pub fn release_components(&mut self, tag: u64) -> (r: Result<(), WorldError>)
        requires
            old(self).wf(),
        ensures
            final(self).wf(),
            match r {
                Ok(_) => {
                    &&& old(self).has_col(tag)
                    &&& old(self).col_shared(tag) > 0
                    &&& Self::same_but_borrow(*old(self), *final(self), tag)
                    &&& final(self).col_shared(tag) == old(self).col_shared(tag) - 1
                    &&& !final(self).col_exclusive(tag)
                },
                Err(e) => {
                    &&& e == WorldError::BorrowConflict
                    &&& !(old(self).has_col(tag) && old(self).col_shared(tag) > 0)
                    &&& *final(self) == *old(self)
                },
            },
    {
        let i = match self.column_index(tag) {
            None => {
                return Err(WorldError::BorrowConflict);
            },
            Some(i) => i,
        };
        if self.columns[i].shared_borrows == 0 {
            return Err(WorldError::BorrowConflict);
        }
        let ghost pre = *self;
        let col = &mut self.columns[i];
        col.shared_borrows = col.shared_borrows - 1;
        proof {
            Self::lemma_borrow_flag_change(pre, *self, tag, i as int);
        }
        Ok(())
    }

    /// Acquire the exclusive borrow of the column for `tag` and hand back a
    /// copy of its slots to mutate. Exactly one exclusive borrow may be out
    /// at a time, and only while no shared borrow is; write the slots back
    /// with `release_components_mut`. Absence of a column is not an error;
    /// any outstanding borrow is.
    pub fn borrow_components_mut(&mut self, tag: u64) -> (r: Result<
        Option<Vec<Option<V>>>,
        WorldError,
    >)
        requires
            old(self).wf(),
        ensures
            final(self).wf(),
            match r {
                Ok(opt) => match opt {
                    None => !old(self).has_col(tag) && *final(self) == *old(self),
                    Some(slots) => {
                        &&& old(self).has_col(tag)
                        &&& old(self).col_free(tag)
                        &&& slots@ == old(self).col(tag)
                        &&& Self::same_but_borrow(*old(self), *final(self), tag)
                        &&& final(self).col_exclusive(tag)
                        &&& final(self).col_shared(tag) == 0
                    },
                },
                Err(e) => {
                    &&& e == WorldError::BorrowConflict
                    &&& old(self).has_col(tag)
                    &&& !old(self).col_free(tag)
                    &&& *final(self) == *old(self)
                },
            },
    {
        let i = match self.column_index(tag) {
            None => {
                return Ok(None);
            },
            Some(i) => i,
        };
        if self.columns[i].exclusive_borrow || self.columns[i].shared_borrows != 0 {
            return Err(WorldError::BorrowConflict);
        }
        let out = self.columns[i].copy_slots();
        let ghost pre = *self;
        let col = &mut self.columns[i];
        col.exclusive_borrow = true;
        proof {
            Self::lemma_borrow_flag_change(pre, *self, tag, i as int);
        }
        Ok(Some(out))
    }

    /// Write `slots` back as the contents of the column for `tag` and end
    /// the exclusive borrow previously acquired with
    /// `borrow_components_mut`. The write-back must keep one slot per
    /// entity slot; a wrong length is rejected, as is a release without an
    /// outstanding exclusive borrow. On failure the column is unchanged and
    /// the handed-in slots are dropped.
    pub fn release_components_mut(&mut self, tag: u64, slots: Vec<Option<V>>) -> (r: Result<
        (),
        WorldError,
    >)
        requires
            old(self).wf(),
        ensures
            final(self).wf(),
            match r {
                Ok(_) => {
                    &&& old(self).has_col(tag)
                    &&& old(self).col_exclusive(tag)
                    &&& slots@.len() == old(self).spec_entity_count()
                    &&& final(self).spec_entity_count() == old(self).spec_entity_count()
                    &&& final(self).free_list() == old(self).free_list()
                    &&& final(self).handles() == old(self).handles()
                    &&& forall|t: u64|
                        #![trigger old(self).has_col(t)]
                        #![trigger final(self).has_col(t)]
                        (final(self).has_col(t) <==> old(self).has_col(t))
                    &&& forall|t: u64|
                        (#[trigger] old(self).has_col(t)) && t != tag ==> final(self).col(t)
                            == old(self).col(t) && final(self).col_shared(t) == old(
                            self,
                        ).col_shared(t) && final(self).col_exclusive(t) == old(self).col_exclusive(
                            t,
                        )
                    &&& final(self).col(tag) == slots@
                    &&& final(self).col_free(tag)
                },
                Err(e) => {
                    &&& *final(self) == *old(self)
                    &&& (e == WorldError::BorrowConflict || e == WorldError::IndexOutOfRange)
                    &&& (e == WorldError::BorrowConflict <==> !(old(self).has_col(tag) && old(
                        self,
                    ).col_exclusive(tag)))
                    &&& (e == WorldError::IndexOutOfRange <==> old(self).has_col(tag) && old(
                        self,
                    ).col_exclusive(tag) && slots@.len() != old(self).spec_entity_count())
                },
            },
    {
        let i = match self.column_index(tag) {
            None => {
                return Err(WorldError::BorrowConflict);
            },
            Some(i) => i,
        };
        if !self.columns[i].exclusive_borrow {
            return Err(WorldError::BorrowConflict);
        }
        if slots.len() != self.entity_count {
            return Err(WorldError::IndexOutOfRange);
        }
        let ghost pre = *self;
        let col = &mut self.columns[i];
        col.slots = slots;
        col.exclusive_borrow = false;
        proof {
            assert(pre.columns@[i as int].shared_borrows == 0);
            Self::lemma_same_tags(pre, *self);
            assert forall|t: u64| (#[trigger] pre.has_col(t)) && t != tag implies self.col(t)
                == pre.col(t) && self.col_shared(t) == pre.col_shared(t) && self.col_exclusive(t)
                == pre.col_exclusive(t) by {
                let m = pre.col_idx(t);
                assert(0 <= m < pre.columns@.len() && pre.columns@[m].type_tag == t);
                assert(m != i as int);
                assert(self.columns@[m] == pre.columns@[m]);
                assert(self.col_idx(t) == m);
            }
            assert(self.col_idx(tag) == i as int);
            assert forall|m: int| 0 <= m < self.columns@.len() implies (
            #[trigger] self.columns@[m]).slots@.len() == self.entity_count && self.columns@[m]
                .borrow_ok() by {
                if m != i as int {
                    assert(self.columns@[m] == pre.columns@[m]);
                }
            }
        }
        Ok(())
    }

    /// After only the borrow flags of the column at position `i` (the one
    /// for `tag`) changed, everything `same_but_borrow` lists is indeed
    /// unchanged, and the world stays well-formed if the flag change keeps
    /// that column's own borrow state consistent.
    proof fn lemma_borrow_flag_change(pre: Self, post: Self, tag: u64, i: int)
        requires
            pre.wf(),
            pre.columns@.len() == post.columns@.len(),
            0 <= i < pre.columns@.len(),
            pre.columns@[i].type_tag == tag,
            forall|m: int| 0 <= m < pre.columns@.len() && m != i ==> post.columns@[m]
                == pre.columns@[m],
            post.columns@[i].type_tag == tag,
            post.columns@[i].slots@ == pre.columns@[i].slots@,
            post.columns@[i].borrow_ok(),
            post.entity_count == pre.entity_count,
            post.free_slots@ == pre.free_slots@,
            post.active_handles@ == pre.active_handles@,
        ensures
            post.wf(),
            Self::same_but_borrow(pre, post, tag),
            post.col_shared(tag) == post.columns@[i].shared_borrows,
            post.col_exclusive(tag) == post.columns@[i].exclusive_borrow,
            pre.col_shared(tag) == pre.columns@[i].shared_borrows,
            pre.col_exclusive(tag) == pre.columns@[i].exclusive_borrow,
    {
        assert forall|m: int| 0 <= m < post.columns@.len() implies (
        #[trigger] post.columns@[m]).type_tag == pre.columns@[m].type_tag by {
            if m != i {
                assert(post.columns@[m] == pre.columns@[m]);
            }
        }
        Self::lemma_same_tags(pre, post);
        pre.lemma_col_idx_is(i, tag);
        assert forall|t: u64| #[trigger] pre.has_col(t) implies post.col(t) == pre.col(t) by {
            let m = pre.col_idx(t);
            assert(0 <= m < pre.columns@.len() && pre.columns@[m].type_tag == t);
            assert(post.col_idx(t) == m);
            if m != i {
                assert(post.columns@[m] == pre.columns@[m]);
            }
        }
        assert forall|t: u64| (#[trigger] pre.has_col(t)) && t != tag implies post.col_shared(t)
            == pre.col_shared(t) && post.col_exclusive(t) == pre.col_exclusive(t) by {
            let m = pre.col_idx(t);
            assert(0 <= m < pre.columns@.len() && pre.columns@[m].type_tag == t);
            assert(m != i);
            assert(post.col_idx(t) == m);
            assert(post.columns@[m] == pre.columns@[m]);
        }
        assert forall|m: int| 0 <= m < post.columns@.len() implies (
        #[trigger] post.columns@[m]).slots@.len() == post.entity_count && post.columns@[m]
            .borrow_ok() by {
            if m != i {
                assert(post.columns@[m] == pre.columns@[m]);
            }
        }
    }

    /// Whether no borrow of any column is outstanding right now.
    fn all_columns_free(&self) -> (r: bool)
        requires
            self.wf(),
        ensures
            r == self.all_cols_free(),
            r ==> forall|j: int|
                0 <= j < self.columns@.len() ==> (#[trigger] self.columns@[j]).is_free(),
    {
        let n = self.columns.len();
        for i in 0..n
            invariant
                n == self.columns@.len(),
                self.wf(),
                forall|j: int| 0 <= j < i ==> (#[trigger] self.columns@[j]).is_free(),
        {
            if self.columns[i].shared_borrows != 0 || self.columns[i].exclusive_borrow {
                proof {
                    let t = self.columns@[i as int].type_tag;
                    self.lemma_col_idx_is(i as int, t);
                    assert(!self.col_free(t));
                }
                return false;
            }
        }
        proof {
            assert forall|t: u64| #[trigger] self.has_col(t) implies self.col_free(t) by {
                let j = self.col_idx(t);
                assert(0 <= j < self.columns@.len() && self.columns@[j].type_tag == t);
                assert(self.columns@[j].is_free());
            }
        }
        true
    }

    /// Whether `id` is currently on the free list.
    fn free_contains(&self, id: usize) -> (r: bool)
        ensures
            r == self.free_list().contains(id),
    {
        let n = self.free_slots.len();
        for i in 0..n
            invariant
                n == self.free_slots@.len(),
                forall|j: int| 0 <= j < i ==> self.free_slots@[j] != id,
        {
            if self.free_slots[i] == id {
                return true;
            }
        }
        proof {
            if self.free_list().contains(id) {
                let j = choose|j: int| 0 <= j < self.free_slots@.len() && self.free_slots@[j] == id;
                assert(self.free_slots@[j] != id);
            }
        }
        false
    }

    /// Empty the slot at `id` in every existing column.
    fn clear_all_columns(&mut self, id: usize)
        requires
            old(self).wf(),
            old(self).all_cols_free(),
            forall|j: int|
                0 <= j < old(self).columns@.len() ==> (#[trigger] old(self).columns@[j]).is_free(),
            id < old(self).spec_entity_count(),
        ensures
            final(self).wf(),
            final(self).spec_entity_count() == old(self).spec_entity_count(),
            final(self).free_list() == old(self).free_list(),
            final(self).handles() == old(self).handles(),
            forall|t: u64|
                #![trigger final(self).has_col(t)]
                #![trigger old(self).has_col(t)]
                (final(self).has_col(t) <==> old(self).has_col(t)),
            forall|t: u64|
                #[trigger] old(self).has_col(t) ==> final(self).col(t) == old(self).col(
                    t,
                ).update(id as int, None::<V>),
            final(self).all_cols_free(),
    {
        let n = self.columns.len();
        for i in 0..n
            invariant
                n == self.columns@.len(),
                self.columns@.len() == old(self).columns@.len(),
                id < old(self).entity_count,
                self.entity_count == old(self).entity_count,
                self.free_slots@ == old(self).free_slots@,
                self.active_handles@ == old(self).active_handles@,
                old(self).wf(),
                forall|j: int|
                    0 <= j < n ==> (#[trigger] old(self).columns@[j]).is_free(),
                forall|j: int|
                    0 <= j < n ==> (#[trigger] self.columns@[j]).type_tag == old(
                        self,
                    ).columns@[j].type_tag && self.columns@[j].shared_borrows == old(
                        self,
                    ).columns@[j].shared_borrows && self.columns@[j].exclusive_borrow == old(
                        self,
                    ).columns@[j].exclusive_borrow,
                forall|j: int|
                    0 <= j < i ==> (#[trigger] self.columns@[j]).slots@ == old(
                        self,
                    ).columns@[j].slots@.update(id as int, None::<V>),
                forall|j: int|
                    i <= j < n ==> (#[trigger] self.columns@[j]).slots@ == old(
                        self,
                    ).columns@[j].slots@,
        {
            proof {
                assert(old(self).columns@[i as int].slots@.len() == old(self).entity_count);
                assert(self.columns@[i as int].is_free());
            }
            let col = &mut self.columns[i];
            col.none_at(id);
        }
        proof {
            Self::lemma_same_layout(*old(self), *self);
            assert forall|t: u64| #[trigger] old(self).has_col(t) implies self.col(t) == old(
                self,
            ).col(t).update(id as int, None::<V>) by {
                let j = old(self).col_idx(t);
                assert(self.columns@[j].slots@ == old(self).columns@[j].slots@.update(
                    id as int,
                    None::<V>,
                ));
            }
            assert forall|t: u64| #[trigger] self.has_col(t) implies self.col_free(t) by {
                assert(old(self).has_col(t));
            }
            assert forall|j: int| 0 <= j < self.columns@.len() implies (
            #[trigger] self.columns@[j]).slots@.len() == self.entity_count by {
                assert(self.columns@[j].slots@ == old(self).columns@[j].slots@.update(
                    id as int,
                    None::<V>,
                ));
            }
        }
    }

    /// Give every existing column one more empty slot and hand out the new
    /// highest entity id.
    fn grow_one_entity(&mut self) -> (id: usize)
        requires
            old(self).wf(),
            old(self).all_cols_free(),
            forall|j: int|
                0 <= j < old(self).columns@.len() ==> (#[trigger] old(self).columns@[j]).is_free(),
            old(self).spec_entity_count() < usize::MAX,
        ensures
            final(self).wf(),
            id == old(self).spec_entity_count(),
            final(self).spec_entity_count() == old(self).spec_entity_count() + 1,
            final(self).free_list() == old(self).free_list(),
            final(self).handles() == old(self).handles(),
            forall|t: u64|
                #![trigger final(self).has_col(t)]
                #![trigger old(self).has_col(t)]
                (final(self).has_col(t) <==> old(self).has_col(t)),
            forall|t: u64|
                #[trigger] old(self).has_col(t) ==> final(self).col(t) == old(self).col(t).push(
                    None::<V>,
                ),
            final(self).all_cols_free(),
    {
        let n = self.columns.len();
        for i in 0..n
            invariant
                n == self.columns@.len(),
                self.columns@.len() == old(self).columns@.len(),
                self.entity_count == old(self).entity_count,
                self.free_slots@ == old(self).free_slots@,
                self.active_handles@ == old(self).active_handles@,
                old(self).wf(),
                forall|j: int|
                    0 <= j < n ==> (#[trigger] old(self).columns@[j]).is_free(),
                forall|j: int|
                    0 <= j < n ==> (#[trigger] self.columns@[j]).type_tag == old(
                        self,
                    ).columns@[j].type_tag && self.columns@[j].shared_borrows == old(
                        self,
                    ).columns@[j].shared_borrows && self.columns@[j].exclusive_borrow == old(
                        self,
                    ).columns@[j].exclusive_borrow,
                forall|j: int|
                    0 <= j < i ==> (#[trigger] self.columns@[j]).slots@ == old(
                        self,
                    ).columns@[j].slots@.push(None::<V>),
                forall|j: int|
                    i <= j < n ==> (#[trigger] self.columns@[j]).slots@ == old(
                        self,
                    ).columns@[j].slots@,
        {
            proof {
                assert(self.columns@[i as int].is_free());
            }
            let col = &mut self.columns[i];
            col.push_none();
        }
        let id = self.entity_count;
        self.entity_count = self.entity_count + 1;
        proof {
            Self::lemma_same_layout(*old(self), *self);
            assert forall|t: u64| #[trigger] old(self).has_col(t) implies self.col(t) == old(
                self,
            ).col(t).push(None::<V>) by {
                let j = old(self).col_idx(t);
                assert(self.columns@[j].slots@ == old(self).columns@[j].slots@.push(None::<V>));
            }
            assert forall|t: u64| #[trigger] self.has_col(t) implies self.col_free(t) by {
                assert(old(self).has_col(t));
            }
            assert forall|j: int| 0 <= j < self.columns@.len() implies (
            #[trigger] self.columns@[j]).slots@.len() == self.entity_count by {
                assert(self.columns@[j].slots@ == old(self).columns@[j].slots@.push(None::<V>));
                assert(old(self).columns@[j].slots@.len() == old(self).entity_count);
            }
        }
        id
    }

    /// How a successful entity creation relates the world before and after
    /// the call: the most recently freed id is reused after its slot is
    /// cleared everywhere, or a fresh highest id is handed out after every
    /// column grows by one empty slot. Handles and the set of columns are
    /// untouched either way.
    pub open spec fn create_post(pre: Self, post: Self, id: usize) -> bool {
        &&& post.handles() == pre.handles()
        &&& forall|t: u64|
            #![trigger pre.has_col(t)]
            #![trigger post.has_col(t)]
            (pre.has_col(t) <==> post.has_col(t))
        &&& post.all_cols_free()
        &&& if pre.free_list().len() > 0 {
            &&& id == pre.free_list().last()
            &&& post.free_list() == pre.free_list().drop_last()
            &&& post.spec_entity_count() == pre.spec_entity_count()
            &&& forall|t: u64|
                #[trigger] pre.has_col(t) ==> post.col(t) == pre.col(t).update(
                    id as int,
                    None::<V>,
                )
        } else {
            &&& id == pre.spec_entity_count()
            &&& post.free_list() == pre.free_list()
            &&& post.spec_entity_count() == pre.spec_entity_count() + 1
            &&& forall|t: u64|
                #[trigger] pre.has_col(t) ==> post.col(t) == pre.col(t).push(None::<V>)
        }
    }

    /// Create an entity. The most recently freed id is reused if one is
    /// available; otherwise every existing column grows by one empty slot
    /// and the new highest id is returned. Either way the returned id is
    /// live, and its slot is empty in every column. Fails only when a
    /// borrow of some column is outstanding.
    pub fn new_entity(&mut self) -> (r: Result<usize, WorldError>)
        requires
            old(self).wf(),
            old(self).free_list().len() > 0 || old(self).spec_entity_count() < usize::MAX,
        ensures
            final(self).wf(),
            match r {
                Ok(id) => {
                    &&& old(self).all_cols_free()
                    &&& Self::create_post(*old(self), *final(self), id)
                    &&& final(self).live_count() == old(self).live_count() + 1
                    &&& final(self).is_live(id)
                    &&& forall|t: u64|
                        #[trigger] final(self).has_col(t) ==> final(self).col(t).len() > id
                            && final(self).col(t)[id as int] == None::<V>
                },
                Err(e) => {
                    &&& e == WorldError::BorrowConflict
                    &&& !old(self).all_cols_free()
                    &&& *final(self) == *old(self)
                },
            },
    {
        if !self.all_columns_free() {
            return Err(WorldError::BorrowConflict);
        }
        let popped = self.free_slots.pop();
        match popped {
            Some(id) => {
                proof {
                    let ghost k = old(self).free_slots@.len() - 1;
                    assert(old(self).free_slots@[k] == id);
                    assert(id < self.entity_count);
                    assert(self.free_slots@.no_duplicates()) by {
                        assert(self.free_slots@ == old(self).free_slots@.drop_last());
                    }
                    assert(self.wf());
                    assert(self.all_cols_free()) by {
                        assert forall|t: u64| #[trigger] self.has_col(t) implies self.col_free(
                            t,
                        ) by {
                            assert(old(self).has_col(t));
                        }
                    }
                }
                let ghost mid = *self;
                proof {
                    assert(mid.columns@ == old(self).columns@);
                    Self::lemma_same_layout(*old(self), mid);
                }
                self.clear_all_columns(id);
                proof {
                    assert forall|t: u64|
                        #![trigger old(self).has_col(t)]
                        #![trigger self.has_col(t)]
                        (old(self).has_col(t) <==> self.has_col(t)) by {
                        assert(old(self).has_col(t) <==> mid.has_col(t));
                        assert(mid.has_col(t) <==> self.has_col(t));
                    }
                    assert forall|t: u64| #[trigger] old(self).has_col(t) implies self.col(t)
                        == old(self).col(t).update(id as int, None::<V>) by {
                        assert(mid.has_col(t));
                        assert(self.col(t) == mid.col(t).update(id as int, None::<V>));
                        let j = old(self).col_idx(t);
                        assert(0 <= j < old(self).columns@.len() && old(self).columns@[j].type_tag
                            == t);
                        assert(mid.col_idx(t) == j);
                        assert(mid.col(t) == old(self).col(t));
                    }
                    assert(!self.free_list().contains(id)) by {
                        if self.free_list().contains(id) {
                            let j = choose|j: int|
                                0 <= j < self.free_slots@.len() && self.free_slots@[j] == id;
                            assert(old(self).free_slots@[j] == id);
                            assert(old(self).free_slots@.len() - 1 != j);
                        }
                    }
                    assert forall|t: u64| #[trigger] self.has_col(t) implies self.col(t).len()
                        > id && self.col(t)[id as int] == None::<V> by {
                        assert(old(self).has_col(t));
                        old(self).lemma_col_len(t);
                    }
                }
                Ok(id)
            },
            None => {
                let ghost mid = *self;
                proof {
                    assert(mid.free_slots@ == old(self).free_slots@);
                    assert(old(self).free_slots@.len() == 0);
                    assert(mid.columns@ == old(self).columns@);
                    Self::lemma_same_layout(*old(self), mid);
                    assert forall|t: u64| #[trigger] mid.has_col(t) implies mid.col_free(t) by {
                        assert(old(self).has_col(t));
                    }
                    assert(mid.wf());
                }
                let id = self.grow_one_entity();
                proof {
                    assert forall|t: u64|
                        #![trigger old(self).has_col(t)]
                        #![trigger self.has_col(t)]
                        (old(self).has_col(t) <==> self.has_col(t)) by {
                        assert(old(self).has_col(t) <==> mid.has_col(t));
                        assert(mid.has_col(t) <==> self.has_col(t));
                    }
                    assert forall|t: u64| #[trigger] old(self).has_col(t) implies self.col(t)
                        == old(self).col(t).push(None::<V>) by {
                        assert(mid.has_col(t));
                        assert(self.col(t) == mid.col(t).push(None::<V>));
                        let j = old(self).col_idx(t);
                        assert(0 <= j < old(self).columns@.len() && old(self).columns@[j].type_tag
                            == t);
                        assert(mid.col_idx(t) == j);
                        assert(mid.col(t) == old(self).col(t));
                    }
                    assert forall|t: u64| #[trigger] self.has_col(t) implies self.col(t).len()
                        > id && self.col(t)[id as int] == None::<V> by {
                        assert(old(self).has_col(t));
                        old(self).lemma_col_len(t);
                    }
                }
                Ok(id)
            },
        }
    }

    /// Read the component of type `tag` at entity `id`: a copy of the stored
    /// value, or absence when no column exists for `tag` or the slot is
    /// empty. Fails on an id that was never handed out, and while an
    /// exclusive borrow of the column is outstanding.
    pub fn get_component(&self, tag: u64, id: usize) -> (r: Result<Option<V>, WorldError>)
        requires
            self.wf(),
        ensures
            match r {
                Ok(v) => {
                    &&& id < self.spec_entity_count()
                    &&& !(self.has_col(tag) && self.col_exclusive(tag))
                    &&& v == self.lookup(tag, id)
                },
                Err(e) => {
                    &&& (e == WorldError::IndexOutOfRange || e == WorldError::BorrowConflict)
                    &&& (e == WorldError::IndexOutOfRange <==> id >= self.spec_entity_count())
                    &&& (e == WorldError::BorrowConflict <==> id < self.spec_entity_count()
                        && self.has_col(tag) && self.col_exclusive(tag))
                },
            },
    {
        if id >= self.entity_count {
            return Err(WorldError::IndexOutOfRange);
        }
        match self.column_index(tag) {
            None => Ok(None),
            Some(i) => {
                if self.columns[i].exclusive_borrow {
                    return Err(WorldError::BorrowConflict);
                }
                proof {
                    assert(self.columns@[i as int].slots@.len() == self.entity_count);
                }
                Ok(self.columns[i].slots[id])
            },
        }
    }

    /// Whether entity `id` currently has a component of type `tag`: the
    /// convenience form of `get_component`, under the same failure rules.
    pub fn entity_has(&self, tag: u64, id: usize) -> (r: Result<bool, WorldError>)
        requires
            self.wf(),
        ensures
            match r {
                Ok(b) => {
                    &&& id < self.spec_entity_count()
                    &&& !(self.has_col(tag) && self.col_exclusive(tag))
                    &&& b == (self.lookup(tag, id) is Some)
                },
                Err(e) => {
                    &&& (e == WorldError::IndexOutOfRange || e == WorldError::BorrowConflict)
                    &&& (e == WorldError::IndexOutOfRange <==> id >= self.spec_entity_count())
                    &&& (e == WorldError::BorrowConflict <==> id < self.spec_entity_count()
                        && self.has_col(tag) && self.col_exclusive(tag))
                },
            },
    {
        match self.get_component(tag, id) {
            Ok(v) => Ok(v.is_some()),
            Err(e) => Err(e),
        }
    }

    /// Add an unborrowed column for a type not seen before, back-filled
    /// with one empty slot per entity slot already handed out.
    fn create_column(&mut self, tag: u64) -> (i: usize)
        requires
            old(self).wf(),
            !old(self).has_col(tag),
        ensures
            final(self).wf(),
            final(self).spec_entity_count() == old(self).spec_entity_count(),
            final(self).free_list() == old(self).free_list(),
            final(self).handles() == old(self).handles(),
            i < final(self).columns@.len(),
            final(self).columns@[i as int].type_tag == tag,
            final(self).has_col(tag),
            final(self).col_idx(tag) == i,
            final(self).col(tag) == Seq::new(
                old(self).spec_entity_count(),
                |k: int| None::<V>,
            ),
            final(self).col_free(tag),
            forall|t: u64|
                #![trigger old(self).has_col(t)]
                #![trigger final(self).has_col(t)]
                (final(self).has_col(t) <==> old(self).has_col(t) || t == tag),
            forall|t: u64|
                #[trigger] old(self).has_col(t) ==> final(self).col(t) == old(self).col(t)
                    && final(self).col_shared(t) == old(self).col_shared(t)
                    && final(self).col_exclusive(t) == old(self).col_exclusive(t),
    {
        let i = self.columns.len();
        let c = Column::new(tag, self.entity_count);
        proof {
            assert(c.slots@ =~= Seq::new(old(self).spec_entity_count(), |k: int| None::<V>));
        }
        self.columns.push(c);
        proof {
            assert forall|j: int| 0 <= j < i implies self.columns@[j].type_tag != tag by {
                if self.columns@[j].type_tag == tag {
                    assert(old(self).columns@[j].type_tag == tag);
                    assert(old(self).has_col(tag));
                }
            }
            self.lemma_col_idx_is(i as int, tag);
            assert forall|t: u64| #[trigger] old(self).has_col(t) implies self.has_col(t)
                && self.col(t) == old(self).col(t) && self.col_shared(t) == old(self).col_shared(t)
                && self.col_exclusive(t) == old(self).col_exclusive(t) by {
                let j = old(self).col_idx(t);
                assert(0 <= j < old(self).columns@.len() && old(self).columns@[j].type_tag == t);
                assert(self.columns@[j] == old(self).columns@[j]);
                self.lemma_col_idx_is(j, t);
            }
            assert forall|t: u64| #[trigger] self.has_col(t) && t != tag implies old(
                self,
            ).has_col(t) by {
                let j = self.col_idx(t);
                assert(0 <= j < self.columns@.len() && self.columns@[j].type_tag == t);
                assert(j != i);
                assert(old(self).columns@[j].type_tag == t);
            }
        }
        i
    }

    /// How a successful attach relates the world before and after the
    /// call: the value lands in slot `id` of the column for `tag` (the
    /// column is created, back-filled with empty slots, when the type was
    /// never seen), every other column is untouched, and a fresh handle
    /// record for `(id, tag)` is appended to the registry.
    pub open spec fn attach_post(
        pre: Self,
        post: Self,
        tag: u64,
        id: usize,
        v: V,
        h: HandleId,
    ) -> bool {
        &&& post.spec_entity_count() == pre.spec_entity_count()
        &&& post.free_list() == pre.free_list()
        &&& forall|t: u64|
            #![trigger pre.has_col(t)]
            #![trigger post.has_col(t)]
            (post.has_col(t) <==> pre.has_col(t) || t == tag)
        &&& post.has_col(tag)
        &&& post.col(tag) == (if pre.has_col(tag) {
            pre.col(tag)
        } else {
            Seq::new(pre.spec_entity_count(), |k: int| None::<V>)
        }).update(id as int, Some(v))
        &&& forall|t: u64|
            (#[trigger] pre.has_col(t)) && t != tag ==> post.col(t) == pre.col(t)
                && post.col_shared(t) == pre.col_shared(t) && post.col_exclusive(t)
                == pre.col_exclusive(t)
        &&& post.col_free(tag)
        &&& h.index == pre.handles().len()
        &&& post.handles() == pre.handles().push(
            Some(ComponentHandle { entity_id: id, component_type: tag }),
        )
    }

    /// Attach a component: write `value` into slot `id` of the column for
    /// `tag`, creating the column (sized to the current entity slot count)
    /// when the type was never seen, and register a handle for `(id, tag)`
    /// whose id is returned. Fails on an id that was never handed out, and
    /// while any borrow of the column is outstanding.
    pub fn add_component(&mut self, tag: u64, id: usize, value: V) -> (r: Result<
        HandleId,
        WorldError,
    >)
        requires
            old(self).wf(),
        ensures
            final(self).wf(),
            match r {
                Ok(h) => {
                    &&& id < old(self).spec_entity_count()
                    &&& (old(self).has_col(tag) ==> old(self).col_free(tag))
                    &&& Self::attach_post(*old(self), *final(self), tag, id, value, h)
                },
                Err(e) => {
                    &&& *final(self) == *old(self)
                    &&& (e == WorldError::IndexOutOfRange || e == WorldError::BorrowConflict)
                    &&& (e == WorldError::IndexOutOfRange <==> id >= old(self).spec_entity_count())
                    &&& (e == WorldError::BorrowConflict <==> id < old(self).spec_entity_count()
                        && old(self).has_col(tag) && !old(self).col_free(tag))
                },
            },
    {
        if id >= self.entity_count {
            return Err(WorldError::IndexOutOfRange);
        }
        let i: usize;
        match self.column_index(tag) {
            Some(j) => {
                if self.columns[j].shared_borrows != 0 || self.columns[j].exclusive_borrow {
                    proof {
                        assert(!self.col_free(tag));
                    }
                    return Err(WorldError::BorrowConflict);
                }
                i = j;
            },
            None => {
                i = self.create_column(tag);
            },
        }
        let ghost mid = *self;
        proof {
            assert(mid.has_col(tag));
            assert(mid.col_idx(tag) == i);
            assert(mid.columns@[i as int].slots@.len() == mid.entity_count);
            assert(mid.col_free(tag));
        }
        let hidx = self.active_handles.len();
        let col = &mut self.columns[i];
        col.slots.set(id, Some(value));
        self.active_handles.push(Some(ComponentHandle { entity_id: id, component_type: tag }));
        proof {
            Self::lemma_same_layout(mid, *self);
            assert(self.col(tag) == mid.col(tag).update(id as int, Some(value)));
            assert forall|t: u64| (#[trigger] mid.has_col(t)) && t != tag implies self.col(t)
                == mid.col(t) by {
                let j = mid.col_idx(t);
                assert(0 <= j < mid.columns@.len() && mid.columns@[j].type_tag == t);
                assert(j != i as int);
                assert(self.columns@[j] == mid.columns@[j]);
                assert(self.col_idx(t) == j);
            }
            assert forall|t: u64|
                #![trigger old(self).has_col(t)]
                #![trigger self.has_col(t)]
                (self.has_col(t) <==> old(self).has_col(t) || t == tag) by {
                assert(self.has_col(t) <==> mid.has_col(t));
            }
            assert forall|j: int| 0 <= j < self.columns@.len() implies (
            #[trigger] self.columns@[j]).slots@.len() == self.entity_count && self.columns@[j]
                .borrow_ok() by {
                if j == i as int {
                    assert(self.columns@[j].slots@ == mid.columns@[j].slots@.update(
                        id as int,
                        Some(value),
                    ));
                } else {
                    assert(self.columns@[j] == mid.columns@[j]);
                }
            }
            assert(Self::attach_post(
                *old(self),
                *self,
                tag,
                id,
                value,
                HandleId { index: hidx },
            ));
        }
        Ok(HandleId { index: hidx })
    }

    /// How a successful detach relates the world before and after the
    /// call: the slot at `id` in the column for `tag` is cleared (when such
    /// a column exists), every other column is untouched, and every handle
    /// record exactly matching `(id, tag)` is pruned from the registry —
    /// the eager counterpart of the lazy orphan sweep.
    pub open spec fn detach_post(pre: Self, post: Self, tag: u64, id: usize) -> bool {
        &&& post.spec_entity_count() == pre.spec_entity_count()
        &&& post.free_list() == pre.free_list()
        &&& forall|t: u64|
            #![trigger pre.has_col(t)]
            #![trigger post.has_col(t)]
            (post.has_col(t) <==> pre.has_col(t))
        &&& forall|t: u64|
            (#[trigger] pre.has_col(t)) && t != tag ==> post.col(t) == pre.col(t)
                && post.col_shared(t) == pre.col_shared(t) && post.col_exclusive(t)
                == pre.col_exclusive(t)
        &&& pre.has_col(tag) ==> post.col(tag) == pre.col(tag).update(id as int, None::<V>)
            && post.col_shared(tag) == pre.col_shared(tag) && post.col_exclusive(tag)
            == pre.col_exclusive(tag)
        &&& post.handles().len() == pre.handles().len()
        &&& forall|k: int|
            0 <= k < pre.handles().len() ==> post.handles()[k] == (if pre.handles()[k] == Some(
                ComponentHandle { entity_id: id, component_type: tag },
            ) {
                None::<ComponentHandle>
            } else {
                pre.handles()[k]
            })
    }

    /// Detach a component: clear the slot at `id` in the column for `tag`
    /// and prune every handle record exactly matching `(id, tag)`. Fails on
    /// an id that was never handed out, and while any borrow of the column
    /// is outstanding.
    pub fn remove_component(&mut self, tag: u64, id: usize) -> (r: Result<(), WorldError>)
        requires
            old(self).wf(),
        ensures
            final(self).wf(),
            match r {
                Ok(_) => {
                    &&& id < old(self).spec_entity_count()
                    &&& (old(self).has_col(tag) ==> old(self).col_free(tag))
                    &&& Self::detach_post(*old(self), *final(self), tag, id)
                },
                Err(e) => {
                    &&& *final(self) == *old(self)
                    &&& (e == WorldError::IndexOutOfRange || e == WorldError::BorrowConflict)
                    &&& (e == WorldError::IndexOutOfRange <==> id >= old(self).spec_entity_count())
                    &&& (e == WorldError::BorrowConflict <==> id < old(self).spec_entity_count()
                        && old(self).has_col(tag) && !old(self).col_free(tag))
                },
            },
    {
        if id >= self.entity_count {
            return Err(WorldError::IndexOutOfRange);
        }
        match self.column_index(tag) {
            Some(j) => {
                if self.columns[j].shared_borrows != 0 || self.columns[j].exclusive_borrow {
                    proof {
                        assert(!self.col_free(tag));
                    }
                    return Err(WorldError::BorrowConflict);
                }
                proof {
                    assert(self.columns@[j as int].slots@.len() == self.entity_count);
                }
                let col = &mut self.columns[j];
                col.slots.set(id, None);
                proof {
                    Self::lemma_same_layout(*old(self), *self);
                    assert(self.col(tag) == old(self).col(tag).update(id as int, None::<V>));
                    assert forall|t: u64| (#[trigger] old(self).has_col(t)) && t != tag implies
                        self.col(t) == old(self).col(t) by {
                        let m = old(self).col_idx(t);
                        assert(0 <= m < old(self).columns@.len() && old(self).columns@[m].type_tag
                            == t);
                        assert(m != j as int);
                        assert(self.columns@[m] == old(self).columns@[m]);
                        assert(self.col_idx(t) == m);
                    }
                    assert forall|m: int| 0 <= m < self.columns@.len() implies (
                    #[trigger] self.columns@[m]).slots@.len() == self.entity_count
                        && self.columns@[m].borrow_ok() by {
                        if m == j as int {
                            assert(self.columns@[m].slots@ == old(self).columns@[m].slots@.update(
                                id as int,
                                None::<V>,
                            ));
                        } else {
                            assert(self.columns@[m] == old(self).columns@[m]);
                        }
                    }
                }
            },
            None => {
            },
        }
        let ghost mid = *self;
        let n = self.active_handles.len();
        for k in 0..n
            invariant
                n == self.active_handles@.len(),
                self.active_handles@.len() == mid.active_handles@.len(),
                self.columns@ == mid.columns@,
                self.entity_count == mid.entity_count,
                self.free_slots@ == mid.free_slots@,
                forall|m: int|
                    0 <= m < k ==> self.active_handles@[m] == (if mid.active_handles@[m] == Some(
                        ComponentHandle { entity_id: id, component_type: tag },
                    ) {
                        None::<ComponentHandle>
                    } else {
                        mid.active_handles@[m]
                    }),
                forall|m: int|
                    k <= m < n ==> self.active_handles@[m] == mid.active_handles@[m],
        {
            let rec = self.active_handles[k];
            match rec {
                Some(h) => {
                    if h.entity_id == id && h.component_type == tag {
                        self.active_handles.set(k, None);
                    }
                },
                None => {
                },
            }
        }
        proof {
            Self::lemma_same_layout(mid, *self);
            assert forall|t: u64| #[trigger] mid.has_col(t) implies self.col(t) == mid.col(t) by {
                let m = mid.col_idx(t);
                assert(0 <= m < mid.columns@.len() && mid.columns@[m].type_tag == t);
                assert(self.col_idx(t) == m);
            }
        }
        Ok(())
    }

    /// Point every handle record currently equal to `(old_entity_id,
    /// old_tag)` at `(new_entity_id, new_tag)` instead, in place. Equality
    /// is by value, so this is a broadcast: every matching record moves,
    /// not just one. Nothing else changes; in particular no slot is read
    /// or written, and no orphan is swept — run the sweep explicitly when
    /// the repoint is meant to abandon the old type's records.
    pub fn repoint_any(
        &mut self,
        old_entity_id: usize,
        old_tag: u64,
        new_entity_id: usize,
        new_tag: u64,
    )
        requires
            old(self).wf(),
        ensures
            final(self).wf(),
            final(self).spec_entity_count() == old(self).spec_entity_count(),
            final(self).free_list() == old(self).free_list(),
            forall|t: u64|
                #![trigger old(self).has_col(t)]
                #![trigger final(self).has_col(t)]
                (final(self).has_col(t) <==> old(self).has_col(t)),
            forall|t: u64|
                #[trigger] old(self).has_col(t) ==> final(self).col(t) == old(self).col(t)
                    && final(self).col_shared(t) == old(self).col_shared(t)
                    && final(self).col_exclusive(t) == old(self).col_exclusive(t),
            final(self).handles().len() == old(self).handles().len(),
            forall|k: int|
                0 <= k < old(self).handles().len() ==> final(self).handles()[k] == (if old(
                    self,
                ).handles()[k] == Some(
                    ComponentHandle { entity_id: old_entity_id, component_type: old_tag },
                ) {
                    Some(ComponentHandle { entity_id: new_entity_id, component_type: new_tag })
                } else {
                    old(self).handles()[k]
                }),
    {
        let n = self.active_handles.len();
        for k in 0..n
            invariant
                n == self.active_handles@.len(),
                self.active_handles@.len() == old(self).active_handles@.len(),
                self.columns@ == old(self).columns@,
                self.entity_count == old(self).entity_count,
                self.free_slots@ == old(self).free_slots@,
                forall|m: int|
                    0 <= m < k ==> self.active_handles@[m] == (if old(self).active_handles@[m]
                        == Some(
                        ComponentHandle { entity_id: old_entity_id, component_type: old_tag },
                    ) {
                        Some(
                            ComponentHandle {
                                entity_id: new_entity_id,
                                component_type: new_tag,
                            },
                        )
                    } else {
                        old(self).active_handles@[m]
                    }),
                forall|m: int|
                    k <= m < n ==> self.active_handles@[m] == old(self).active_handles@[m],
        {
            let rec = self.active_handles[k];
            match rec {
                Some(h) => {
                    if h.entity_id == old_entity_id && h.component_type == old_tag {
                        self.active_handles.set(
                            k,
                            Some(
                                ComponentHandle {
                                    entity_id: new_entity_id,
                                    component_type: new_tag,
                                },
                            ),
                        );
                    }
                },
                None => {
                },
            }
        }
        proof {
            Self::lemma_same_layout(*old(self), *self);
            assert forall|t: u64| #[trigger] old(self).has_col(t) implies self.col(t) == old(
                self,
            ).col(t) by {
                let m = old(self).col_idx(t);
                assert(0 <= m < old(self).columns@.len() && old(self).columns@[m].type_tag == t);
                assert(self.col_idx(t) == m);
            }
        }
    }

    /// What the lazy orphan sweep for `tag` does to one registry record:
    /// a record of type `tag` whose referenced slot is currently empty —
    /// including one whose entity id has no slot in the column, and any
    /// record when no column for `tag` exists — is pruned; every other
    /// record survives untouched.
    pub open spec fn sweep_one(
        pre: Self,
        tag: u64,
        rec: Option<ComponentHandle>,
    ) -> Option<ComponentHandle> {
        match rec {
            Some(h) => if h.component_type == tag && pre.lookup(tag, h.entity_id) is None {
                None
            } else {
                Some(h)
            },
            None => None,
        }
    }

    /// Sweep the registry for `tag`: prune exactly the records whose
    /// `(entity, tag)` slot is currently empty, leaving records that point
    /// at occupied slots — and records of other types — untouched. Must be
    /// called explicitly; no operation sweeps in the background. Fails
    /// while an exclusive borrow of the column is outstanding, since the
    /// sweep reads the slots.
    pub fn release_orphaned_handles(&mut self, tag: u64) -> (r: Result<(), WorldError>)
        requires
            old(self).wf(),
        ensures
            final(self).wf(),
            match r {
                Ok(_) => {
                    &&& (old(self).has_col(tag) ==> !old(self).col_exclusive(tag))
                    &&& final(self).spec_entity_count() == old(self).spec_entity_count()
                    &&& final(self).free_list() == old(self).free_list()
                    &&& forall|t: u64|
                        #![trigger old(self).has_col(t)]
                        #![trigger final(self).has_col(t)]
                        (final(self).has_col(t) <==> old(self).has_col(t))
                    &&& forall|t: u64|
                        #[trigger] old(self).has_col(t) ==> final(self).col(t) == old(self).col(t)
                            && final(self).col_shared(t) == old(self).col_shared(t)
                            && final(self).col_exclusive(t) == old(self).col_exclusive(t)
                    &&& final(self).handles().len() == old(self).handles().len()
                    &&& forall|k: int|
                        0 <= k < old(self).handles().len() ==> final(self).handles()[k]
                            == Self::sweep_one(*old(self), tag, old(self).handles()[k])
                },
                Err(e) => {
                    &&& e == WorldError::BorrowConflict
                    &&& old(self).has_col(tag)
                    &&& old(self).col_exclusive(tag)
                    &&& *final(self) == *old(self)
                },
            },
    {
        match self.column_index(tag) {
            Some(j) => {
                if self.columns[j].exclusive_borrow {
                    return Err(WorldError::BorrowConflict);
                }
            },
            None => {
            },
        }
        let n = self.active_handles.len();
        for k in 0..n
            invariant
                n == self.active_handles@.len(),
                self.active_handles@.len() == old(self).active_handles@.len(),
                self.columns@ == old(self).columns@,
                self.entity_count == old(self).entity_count,
                self.free_slots@ == old(self).free_slots@,
                self.wf(),
                !(self.has_col(tag) && self.col_exclusive(tag)),
                forall|m: int|
                    0 <= m < k ==> self.active_handles@[m] == Self::sweep_one(
                        *old(self),
                        tag,
                        old(self).active_handles@[m],
                    ),
                forall|m: int|
                    k <= m < n ==> self.active_handles@[m] == old(self).active_handles@[m],
        {
            let rec = self.active_handles[k];
            match rec {
                Some(h) => {
                    if h.component_type == tag {
                        let is_orphan = match self.get_component(tag, h.entity_id) {
                            Ok(v) => v.is_none(),
                            Err(_) => true,
                        };
                        proof {
                            assert(self.lookup(tag, h.entity_id) == old(self).lookup(
                                tag,
                                h.entity_id,
                            )) by {
                                Self::lemma_same_layout(*old(self), *self);
                                if old(self).has_col(tag) {
                                    let m = old(self).col_idx(tag);
                                    assert(self.col_idx(tag) == m);
                                }
                            }
                            if h.entity_id >= self.entity_count && self.has_col(tag) {
                                self.lemma_col_len(tag);
                            }
                            assert(is_orphan == (self.lookup(tag, h.entity_id) is None));
                        }
                        if is_orphan {
                            self.active_handles.set(k, None);
                        }
                    }
                },
                None => {
                },
            }
        }
        proof {
            Self::lemma_same_layout(*old(self), *self);
            assert forall|t: u64| #[trigger] old(self).has_col(t) implies self.col(t) == old(
                self,
            ).col(t) by {
                let m = old(self).col_idx(t);
                assert(0 <= m < old(self).columns@.len() && old(self).columns@[m].type_tag == t);
                assert(self.col_idx(t) == m);
            }
        }
        Ok(())
    }

    /// How a successful entity removal relates the world before and after
    /// the call: the slot at `id` is cleared in every column and `id` joins
    /// the free list; handles and the set of columns are untouched.
    pub open spec fn remove_post(pre: Self, post: Self, id: usize) -> bool {
        &&& post.spec_entity_count() == pre.spec_entity_count()
        &&& post.free_list() == pre.free_list().push(id)
        &&& post.handles() == pre.handles()
        &&& forall|t: u64|
            #![trigger pre.has_col(t)]
            #![trigger post.has_col(t)]
            (pre.has_col(t) <==> post.has_col(t))
        &&& forall|t: u64|
            #[trigger] pre.has_col(t) ==> post.col(t) == pre.col(t).update(id as int, None::<V>)
        &&& post.all_cols_free()
    }

    /// Remove the entity `id`: clear its slot in every column (occupied or
    /// not) and push the id onto the free list for reuse. Removing an id
    /// that was never handed out is `IndexOutOfRange`; removing one that is
    /// already free is `DoubleFree` and changes nothing, so the free list
    /// never holds the same id twice.
    pub fn remove_entity(&mut self, id: usize) -> (r: Result<(), WorldError>)
        requires
            old(self).wf(),
        ensures
            final(self).wf(),
            match r {
                Ok(_) => {
                    &&& id < old(self).spec_entity_count()
                    &&& !old(self).free_list().contains(id)
                    &&& old(self).all_cols_free()
                    &&& Self::remove_post(*old(self), *final(self), id)
                    &&& final(self).live_count() == old(self).live_count() - 1
                },
                Err(e) => {
                    &&& *final(self) == *old(self)
                    &&& (e == WorldError::IndexOutOfRange || e == WorldError::DoubleFree || e
                        == WorldError::BorrowConflict)
                    &&& (e == WorldError::IndexOutOfRange <==> id >= old(self).spec_entity_count())
                    &&& (e == WorldError::DoubleFree <==> id < old(self).spec_entity_count()
                        && old(self).free_list().contains(id))
                    &&& (e == WorldError::BorrowConflict <==> id < old(self).spec_entity_count()
                        && !old(self).free_list().contains(id) && !old(self).all_cols_free())
                },
            },
    {
        if id >= self.entity_count {
            return Err(WorldError::IndexOutOfRange);
        }
        if self.free_contains(id) {
            return Err(WorldError::DoubleFree);
        }
        if !self.all_columns_free() {
            return Err(WorldError::BorrowConflict);
        }
        self.clear_all_columns(id);
        let ghost mid = *self;
        self.free_slots.push(id);
        proof {
            assert(mid.columns@ == self.columns@);
            Self::lemma_same_layout(mid, *self);
            assert forall|t: u64|
                #![trigger old(self).has_col(t)]
                #![trigger self.has_col(t)]
                (old(self).has_col(t) <==> self.has_col(t)) by {
                assert(old(self).has_col(t) <==> mid.has_col(t));
                assert(mid.has_col(t) <==> self.has_col(t));
            }
            assert forall|t: u64| #[trigger] old(self).has_col(t) implies self.col(t) == old(
                self,
            ).col(t).update(id as int, None::<V>) by {
                assert(mid.has_col(t));
                assert(mid.col(t) == old(self).col(t).update(id as int, None::<V>));
                let j = mid.col_idx(t);
                assert(0 <= j < mid.columns@.len() && mid.columns@[j].type_tag == t);
                assert(self.col_idx(t) == j);
                assert(self.col(t) == mid.col(t));
            }
            assert forall|t: u64| #[trigger] self.has_col(t) implies self.col_free(t) by {
                assert(mid.has_col(t));
                assert(mid.col_free(t));
            }
            assert(self.free_slots@ == old(self).free_slots@.push(id));
            assert(self.free_slots@.no_duplicates()) by {
                let s = old(self).free_slots@;
                assert forall|a: int, b: int|
                    0 <= a < b < s.push(id).len() implies s.push(id)[a] != s.push(id)[b] by {
                    if b < s.len() {
                        assert(s[a] != s[b]);
                    } else {
                        assert(s.push(id)[b] == id);
                        assert(s.push(id)[a] == s[a]);
                        if s[a] == id {
                            assert(s.contains(id));
                        }
                    }
                }
            }
        }
        Ok(())
    }
}

} // verus!
