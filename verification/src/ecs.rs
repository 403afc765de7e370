//! The three parts of a simulation in one place, and a handle on one entity.

use crate::registry::entity_registry::EntityRegistry;
use crate::registry::event_registry::EventRegistry;
use crate::state_queue::StateQueue;
use crate::traits::Anyable;
use crate::traits::Erased;
use std::any::TypeId;
use vstd::prelude::*;

verus! {

/// A simulation's components, its staged edits and its event bus. The three
/// are owned by the simulation and handed on by it; none is shared behind
/// its back.
#[verifier::reject_recursive_types(C)]
#[verifier::reject_recursive_types(R)]
pub struct ECS<C: Erased + 'static, R: 'static> {
    pub entities: EntityRegistry<C>,
    pub staged: StateQueue<C>,
    pub events: EventRegistry<C, R>,
}

impl<C: Erased + 'static, R: 'static> ECS<C, R> {
    /// Each of the three parts is in order.
    pub open spec fn wf(&self) -> bool {
        &&& self.entities.wf()
        &&& self.staged.wf()
        &&& self.events.wf()
    }

    /// A simulation without components, staged edits or subscribers.
    pub fn new() -> (ecs: Self)
        ensures
            ecs.wf(),
            ecs.entities@ == Map::<(Seq<char>, TypeId), C>::empty(),
            forall|entity: Seq<char>, tag: TypeId| ecs.staged.staged(entity, tag).len() == 0,
            forall|tag: TypeId| ecs.events.subscriptions(tag).len() == 0,
    {
        ECS { entities: EntityRegistry::new(), staged: StateQueue::new(), events: EventRegistry::new() }
    }
}

/// One entity of a store: its key, and the store.
pub struct EntityProxy<'a, C>(pub String, pub &'a mut EntityRegistry<C>);

impl<'a, C: Erased> EntityProxy<'a, C> {
    /// The entity's component of type `T`, if it has one. The store is not
    /// changed.
    pub fn get_component<T: Anyable<C>>(&self) -> (found: Option<&T>)
        requires
            self.1.wf(),
        ensures
            found.is_some() == old(self.1)@.contains_key((self.0@, T::type_tag())),
            match found {
                Some(component) => old(self.1).component::<T>(self.0@) == Some(*component),
                None => old(self.1).component::<T>(self.0@).is_none(),
            },
    {
        self.1.get_component::<T>(&self.0)
    }

    /// The entity's component of type `T`, to be changed in place. The
    /// handle goes on borrowing the same store, and what is written through
    /// the reference is what that store holds afterwards.
    pub fn get_component_mut<T: Anyable<C>>(&mut self) -> (found: Option<&mut T>)
        requires
            old(self).1.wf(),
        ensures
            final(self).0 == old(self).0,
            *final(final(self).1) == *final(old(self).1),
            final(self).1.wf(),
            found.is_some() == old(self).1@.contains_key((old(self).0@, T::type_tag())),
            match found {
                Some(component) => old(self).1.component::<T>(old(self).0@) == Some(*component)
                    && final(self).1@ == old(self).1@.insert(
                    (old(self).0@, T::type_tag()),
                    (*final(component)).as_cell(),
                ),
                None => final(self).1@ == old(self).1@,
            },
            forall|tag: TypeId| final(self).1.listing(tag) == old(self).1.listing(tag),
    {
        self.1.get_component_mut::<T>(&self.0)
    }
}

} // verus!
