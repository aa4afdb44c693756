//! The system pipeline: an ordered sequence of update-logic units, each run
//! once per step with exclusive access to the whole world. What a run of
//! the pipeline does to the world is the chained effect of its systems, in
//! registration order: see `runs_chain`.

use vstd::prelude::*;

use crate::component::Component;
use crate::world::World;

verus! {

/// A unit of update logic, supplied by the caller. The pipeline hands each
/// system the whole world, mutably, once per run; a system borrows the
/// columns it needs through the world's borrow discipline and must release
/// them before it returns, or later systems observe the conflict.
pub trait System<V: Component> {
    /// What one run of this system may do to the world: the
    /// implementation's own relation between the world it was handed and
    /// the world it leaves behind. The default promises nothing, so an
    /// implementation that leaves it alone contributes a vacuous link to
    /// the pipeline's chain; a verified implementation overrides it with
    /// its actual effect.
    open spec fn rel(&self, pre: World<V>, post: World<V>) -> bool {
        true
    }

    /// Run the system once over the world.
    fn run(&self, world: &mut World<V>)
        requires
            old(world).wf(),
        ensures
            final(world).wf(),
            self.rel(*old(world), *final(world)),
    ;
}

/// `post` is reachable from `pre` by running each system of `systems`
/// exactly once, in order: the empty sequence relates a world only to
/// itself, and a nonempty one chains the effects of all but the last
/// system with one run of the last.
pub open spec fn runs_chain<V: Component, S: System<V>>(
    systems: Seq<S>,
    pre: World<V>,
    post: World<V>,
) -> bool
    decreases systems.len(),
{
    if systems.len() == 0 {
        post == pre
    } else {
        exists|mid: World<V>|
            #[trigger] systems.last().rel(mid, post) && runs_chain(
                systems.drop_last(),
                pre,
                mid,
            )
    }
}

/// The pipeline. It keeps no state beyond the registration order, and it
/// never reorders, deduplicates, or skips: every registered system runs
/// once per `run` call, strictly in the order registered.
pub struct Systems<S> {
    systems: Vec<S>,
}

impl<S> Systems<S> {
    /// The ordered sequence of registered systems.
    pub closed spec fn systems_seq(self) -> Seq<S> {
        self.systems@
    }

    /// An empty pipeline.
    pub fn new() -> (s: Systems<S>)
        ensures
            s.systems_seq() == Seq::<S>::empty(),
    {
        Systems { systems: Vec::new() }
    }

    /// Register a system: it will run after every system already
    /// registered, on every later `run` call.
    pub fn add_system(&mut self, system: S)
        ensures
            final(self).systems_seq() == old(self).systems_seq().push(system),
    {
        self.systems.push(system);
    }

    /// Run every registered system once, strictly in registration order,
    /// each with full mutable access to the world: the world ends exactly
    /// where the chain of the registered systems' effects puts it. An
    /// empty pipeline leaves the world unchanged.
    pub fn run<V: Component>(&self, world: &mut World<V>) where S: System<V>
        requires
            old(world).wf(),
        ensures
            final(world).wf(),
            runs_chain(self.systems_seq(), *old(world), *final(world)),
    {
        let n = self.systems.len();
        let ghost start = *world;
        for i in 0..n
            invariant
                n == self.systems@.len(),
                world.wf(),
                start == *old(world),
                runs_chain(self.systems@.take(i as int), start, *world),
        {
            let ghost before = *world;
            self.systems[i].run(world);
            proof {
                let taken = self.systems@.take(i + 1 as int);
                assert(taken.drop_last() =~= self.systems@.take(i as int));
                assert(taken.last() == self.systems@[i as int]);
                assert(taken.last().rel(before, *world));
                assert(runs_chain(taken, start, *world));
            }
        }
        proof {
            assert(self.systems@.take(n as int) =~= self.systems@);
        }
    }
}

} // verus!
