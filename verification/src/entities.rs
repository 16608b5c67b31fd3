use crate::components::ComponentStore;
use crate::tag::TypeTag;
use crate::components::{first_match, is_first_match};
use crate::Entity;
use vstd::prelude::*;

verus! {

/// A short-lived handle on the components of exactly one entity. It edits
/// the entity without giving access to the rest of the table. The fields
/// are public so that contracts can speak of the store behind the handle.
pub struct EntityEditor<'a> {
    /// The entity that the editor is bound to.
    pub ent: Entity,
    /// The components of that entity.
    pub components: &'a mut ComponentStore,
    /// Whether the removal of the entity was asked for through this
    /// editor. The scheduler looks at it when a system hands the editor
    /// back, and then queues the removal for the end of the tick.
    pub remove_requested: bool,
}

impl<'a> EntityEditor<'a> {
    /// An editor for `ent`, working on `components`. No removal is asked
    /// for yet.
    pub fn new(ent: Entity, components: &'a mut ComponentStore) -> (editor: EntityEditor<'a>)
        ensures
            editor.ent == ent,
            *editor.components == *old(components),
            *final(editor.components) == *final(components),
            !editor.remove_requested,
    {
        EntityEditor { ent, components, remove_requested: false }
    }

    /// Asks for the removal of the entity at the end of the tick. The
    /// entity stays as it is until then, and the systems that come later
    /// in the tick still run on it. The request counts when a system
    /// makes it on the editor that the scheduler handed to it; on any
    /// other editor it has no effect.
    pub fn remove(&mut self)
        ensures
            final(self).remove_requested,
            final(self).ent == old(self).ent,
            *final(self).components == *old(self).components,
            *final(final(self).components) == *final(old(self).components),
    {
        self.remove_requested = true;
    }

    /// The entity that the editor is bound to.
    pub fn entity(&self) -> (ent: Entity)
        ensures
            ent == self.ent,
    {
        self.ent
    }

    /// Appends `component` under the tag of `T`. Nothing else changes.
    pub fn add<T: 'static>(&mut self, component: T)
        ensures
            final(self).ent == old(self).ent,
            final(self).remove_requested == old(self).remove_requested,
            *final(final(self).components) == *final(old(self).components),
            final(self).components@.len() == old(self).components@.len() + 1,
            final(self).components@.drop_last() == old(self).components@,
            final(self).components@.last().tag() == TypeTag::spec_of::<T>(),
            final(self).components@.last().value::<T>() == component,
            final(self).components.tags() == old(self).components.tags().push(
                TypeTag::spec_of::<T>(),
            ),
    {
        self.components.add(component);
    }

    /// Whether the entity has a component of type `T`.
    pub fn has<T: 'static>(&self) -> (present: bool)
        ensures
            present == old(self.components).tags().contains(TypeTag::spec_of::<T>()),
    {
        self.components.has::<T>()
    }

    /// The entity's first component of type `T`, for writing; absent
    /// exactly when the entity has no component of that type. What is
    /// written through the reference is that component's value
    /// afterwards; no tag and no other component changes.
    pub fn get<T: 'static>(&mut self) -> (value: Option<&mut T>)
        ensures
            value.is_some() == old(self).components.tags().contains(TypeTag::spec_of::<T>()),
            value matches Some(v) ==> {
                let first = first_match(old(self).components.tags(), TypeTag::spec_of::<T>());
                &&& *v == old(self).components@[first].value::<T>()
                &&& *final(v) == final(self).components@[first].value::<T>()
            },
            final(self).ent == old(self).ent,
            final(self).remove_requested == old(self).remove_requested,
            *final(final(self).components) == *final(old(self).components),
            final(self).components.tags() == old(self).components.tags(),
            forall|k: int|
                0 <= k < old(self).components@.len() && !is_first_match(
                    old(self).components.tags(),
                    TypeTag::spec_of::<T>(),
                    k,
                ) ==> #[trigger] final(self).components@[k] == old(self).components@[k],
    {
        self.components.get::<T>()
    }
}

} // verus!
