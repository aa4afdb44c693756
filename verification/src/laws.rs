//! The laws the storage engine obeys across calls, proved once over the
//! operations' transition relations. Each operation's contract names its
//! relation (`attach_post`, `remove_post`, `create_post`, `detach_post`),
//! so chaining two calls is chaining two relations; the lemmas here state
//! what such chains guarantee.

use vstd::prelude::*;

use crate::component::Component;
use crate::world::ComponentHandle;
use crate::world::HandleId;
use crate::world::World;

verus! {

/// Law: attaching a value and then reading the same slot observes that
/// value, whether or not the slot was previously occupied — `set` followed
/// immediately by `get` returns what was set.
pub proof fn lemma_set_then_get<V: Component>(
    pre: World<V>,
    post: World<V>,
    tag: u64,
    id: usize,
    v: V,
    h: HandleId,
)
    requires
        pre.wf(),
        id < pre.spec_entity_count(),
        World::attach_post(pre, post, tag, id, v, h),
    ensures
        post.lookup(tag, id) == Some(v),
{
    if pre.has_col(tag) {
        pre.lemma_col_len(tag);
    }
    assert(post.col(tag).len() == pre.spec_entity_count());
    assert(post.col(tag)[id as int] == Some(v));
}

/// Law: removing an entity empties its slot in every column that existed at
/// the time of removal, so any later read of that slot reports absence
/// until the slot is written again.
pub proof fn lemma_remove_then_get<V: Component>(pre: World<V>, post: World<V>, id: usize)
    requires
        pre.wf(),
        id < pre.spec_entity_count(),
        World::remove_post(pre, post, id),
    ensures
        forall|t: u64| #[trigger] pre.has_col(t) ==> post.lookup(t, id) == None::<V>,
{
    assert forall|t: u64| #[trigger] pre.has_col(t) implies post.lookup(t, id) == None::<V> by {
        pre.lemma_col_len(t);
        assert(post.col(t) == pre.col(t).update(id as int, None::<V>));
        assert(post.col(t)[id as int] == None::<V>);
    }
}

/// Law: the id a creation returns is live and names a fresh entity — its
/// slot is empty in every existing column, and every existing column is
/// long enough to hold it. In particular a reused id leaks nothing of the
/// prior occupant.
pub proof fn lemma_create_fresh<V: Component>(pre: World<V>, post: World<V>, id: usize)
    requires
        pre.wf(),
        World::create_post(pre, post, id),
    ensures
        post.is_live(id),
        forall|t: u64|
            #[trigger] post.has_col(t) ==> post.col(t).len() > id && post.col(t)[id as int]
                == None::<V>,
{
    pre.lemma_wf_free_list();
    if pre.free_list().len() > 0 {
        let last = pre.free_list().len() - 1;
        assert(id == pre.free_list()[last]);
        assert(id < pre.spec_entity_count());
        assert(!post.free_list().contains(id)) by {
            if post.free_list().contains(id) {
                let k = choose|k: int|
                    0 <= k < post.free_list().len() && post.free_list()[k] == id;
                assert(pre.free_list()[k] == id);
                assert(k != last);
            }
        }
    } else {
        assert(!post.free_list().contains(id)) by {
            if post.free_list().contains(id) {
                let k = choose|k: int|
                    0 <= k < post.free_list().len() && post.free_list()[k] == id;
                assert(pre.free_list()[k] < pre.spec_entity_count());
            }
        }
    }
    assert forall|t: u64| #[trigger] post.has_col(t) implies post.col(t).len() > id && post.col(
        t,
    )[id as int] == None::<V> by {
        assert(pre.has_col(t));
        pre.lemma_col_len(t);
        if pre.free_list().len() > 0 {
            assert(post.col(t) == pre.col(t).update(id as int, None::<V>));
        } else {
            assert(post.col(t) == pre.col(t).push(None::<V>));
        }
    }
}

/// Law: an attach hands back a handle id whose registry record points at
/// the attached `(entity, type)` pair and whose slot reads back the value;
/// a detach of that pair then prunes the record — the handle is no longer
/// tracked — while the registry keeps its length, so no other handle id
/// moves.
pub proof fn lemma_attach_then_detach<V: Component>(
    w1: World<V>,
    w2: World<V>,
    w3: World<V>,
    tag: u64,
    id: usize,
    v: V,
    h: HandleId,
)
    requires
        w1.wf(),
        id < w1.spec_entity_count(),
        World::attach_post(w1, w2, tag, id, v, h),
        World::detach_post(w2, w3, tag, id),
    ensures
        h.index < w2.handles().len(),
        w2.handles()[h.index as int] == Some(
            ComponentHandle { entity_id: id, component_type: tag },
        ),
        w2.lookup(tag, id) == Some(v),
        w3.handles().len() == w2.handles().len(),
        w3.handles()[h.index as int] == None::<ComponentHandle>,
{
    lemma_set_then_get(w1, w2, tag, id, v, h);
    assert(w2.handles()[h.index as int] == Some(
        ComponentHandle { entity_id: id, component_type: tag },
    ));
}

} // verus!
