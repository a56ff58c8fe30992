//! Extremely simple entity component system.

use vstd::prelude::*;
use vstd::pervasive::cloned;
use vstd::std_specs::convert::IntoSpec;

verus! {

/// Storage for a component in an entity component system.
///
/// Every entity has a number. The storage holds the value that stands for "no
/// component" and, for the entities up to the highest that was set, the value
/// of each one's component.
pub struct Storage<T: Clone, U: Into<u32>> {
    // The value for no component, then one element for each entity.
    entities: Vec<T>,
    _phantom_data: std::marker::PhantomData<U>,
}

impl<T: Clone, U: Into<u32>> Storage<T, U> {
    /// The storage always holds the value for no component.
    pub closed spec fn wf(&self) -> bool {
        self.entities@.len() >= 1
    }

    /// The value that stands for an entity not having this component.
    pub closed spec fn none(&self) -> T {
        self.entities@[0]
    }

    /// The components of the entities 0, 1, 2, ... that the storage has room
    /// for.
    pub closed spec fn components(&self) -> Seq<T> {
        self.entities@.skip(1)
    }

    /// Create a new storage with default value `none`.  `none` represents an entity not having this
    /// component.
    pub fn new(none: T) -> (storage: Storage<T, U>)
        ensures
            storage.wf(),
            storage.none() == none,
            storage.components().len() == 0,
    {
        let mut entities: Vec<T> = Vec::new();
        entities.push(none);
        Storage { entities, _phantom_data: std::marker::PhantomData }
    }

    /// The value that the storage has for entity `id`: its component, or the
    /// value for no component where the storage has no room for the entity.
    pub open spec fn slot(&self, id: int) -> T {
        if 0 <= id < self.components().len() {
            self.components()[id]
        } else {
            self.none()
        }
    }

    /// Whether this storage is what setting the component of entity `id` to
    /// `value` makes of the storage `before`. The value for no component and
    /// the components of the other entities are kept. Where `before` had no
    /// room for the entity, the storage has grown up to it: the value for no
    /// component was cloned once, and every entity in between has a clone of
    /// that.
    pub open spec fn is_set(&self, before: Self, id: int, value: T) -> bool {
        &&& self.wf()
        &&& self.none() == before.none()
        &&& self.components().len() == if id < before.components().len() {
            before.components().len()
        } else {
            (id + 1) as nat
        }
        &&& self.components()[id] == value
        &&& forall|i: int|
            0 <= i < before.components().len() && i != id ==> self.components()[i]
                == before.components()[i]
        &&& exists|filler: T|
            cloned(before.none(), filler) && forall|i: int|
                before.components().len() <= i < id ==> cloned(
                    filler,
                    #[trigger] self.components()[i],
                )
    }

    /// Set the value of the component for the entity with the number `id`.
    pub fn set_at(&mut self, id: u32, value: T)
        requires
            old(self).wf(),
            id + 2 <= usize::MAX,
        ensures
            final(self).is_set(*old(self), id as int, value),
    {
        // Get Id as index.
        let at: usize = id as usize + 1;
        let ghost before = self.entities@;
        let ghost mut mid = self.entities@;
        // Allocate space if not enough.
        if at >= self.entities.len() {
            let none = self.entities[0].clone();
            self.entities.resize(at + 1, none);
            proof {
                mid = self.entities@;
                assert(cloned(before[0], none) && forall|i: int|
                    before.len() <= i <= at ==> cloned(none, mid[i]));
            }
            assert(self.entities@.subrange(0, before.len() as int)[0] == before[0]);
            assert forall|i: int| 0 <= i < before.len() implies self.entities@[i] == before[i] by {
                assert(self.entities@.subrange(0, before.len() as int)[i] == before[i]);
            }
        }
        // Set entity's component.
        self.entities[at] = value;
        proof {
            let filler = if at >= before.len() {
                choose|c: T|
                    cloned(before[0], c) && forall|i: int|
                        before.len() <= i <= at ==> cloned(c, mid[i])
            } else {
                before[0]
            };
            assert(cloned(old(self).none(), filler));
            assert forall|i: int| old(self).components().len() <= i < id implies cloned(
                filler,
                #[trigger] self.components()[i],
            ) by {
                assert(self.components()[i] == self.entities@[i + 1]);
                assert(self.entities@[i + 1] == mid[i + 1]);
            }
        }
    }

    /// Get the value of the component for the entity with the number `id`: a
    /// clone of the value that was set for it, or of the value for no
    /// component where the storage has no room for the entity.
    pub fn get_at(&mut self, id: u32) -> (value: T)
        requires
            old(self).wf(),
        ensures
            *final(self) == *old(self),
            cloned(old(self).slot(id as int), value),
    {
        // Get exists.
        if (id as usize) < self.entities.len() - 1 {
            self.entities[id as usize + 1].clone()
        } else {
            self.entities[0].clone()  /* none */

        }
    }

    /// Set the value of the component for an entity. The entity is the
    /// number that its conversion gives.
    pub fn set(&mut self, entity: U, value: T)
        requires
            old(self).wf(),
            U::obeys_into_spec(),
            entity.into_spec() + 2 <= usize::MAX,
        ensures
            final(self).is_set(*old(self), entity.into_spec() as int, value),
    {
        self.set_at(entity.into(), value)
    }

    /// Get the value of the component for an entity. The entity is the
    /// number that its conversion gives.
    pub fn get(&mut self, entity: U) -> (value: T)
        requires
            old(self).wf(),
        ensures
            *final(self) == *old(self),
            exists|id: u32|
                (U::obeys_into_spec() ==> id == entity.into_spec()) && cloned(
                    old(self).slot(id as int),
                    value,
                ),
    {
        let raw: u32 = entity.into();
        let value = self.get_at(raw);
        assert((U::obeys_into_spec() ==> raw == entity.into_spec()) && cloned(
            old(self).slot(raw as int),
            value,
        ));
        value
    }
}

} // verus!
