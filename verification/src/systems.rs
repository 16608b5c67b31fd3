use crate::entities::EntityEditor;
use crate::query::{Cond, Query};
use crate::table::EntityTable;
use std::marker::PhantomData;
use vstd::prelude::*;

verus! {

/// Ghost carrier that ties one expression to each type `S`.
struct Declaration<S> {
    expr: Cond,
    marker: PhantomData<S>,
}

/// The expression that a system type `S` declares without saying which:
/// one fixed expression for each type, of which nothing else is known.
pub closed spec fn undisclosed<S>() -> Cond {
    arbitrary::<Declaration<S>>().expr
}

/// A system that is run, on every tick, once for each entity that its
/// query selects.
pub trait IterativeSystem {
    /// The expression of the query that this type of system declares:
    /// what every call of `get_query` gives. A type that says nothing of
    /// it has a fixed expression of its own, of which nothing else is
    /// known.
    open spec fn declared() -> Cond where Self: Sized {
        undisclosed::<Self>()
    }

    /// The query that selects the entities handed to this system. It is
    /// asked for once, when the system is registered.
    fn get_query() -> (query: Query) where Self: Sized
        ensures
            query@ == Self::declared(),
    ;

    /// Called for every selected entity on every tick, with an editor
    /// for that entity and a read-only view of all entities. While the
    /// call lasts, the entity's components are in the editor's hands
    /// alone: the table shows the entity as busy, and hands out nothing
    /// of it. The table cannot be changed from here; a system that wants
    /// its entity removed asks for it through the editor, and the
    /// removal is carried out at the end of the tick.
    fn process(&mut self, ent: &mut EntityEditor<'_>, world: &EntityTable)
        requires
            world.wf(),
            world@.is_active(old(ent).ent),
            world@.slots[old(ent).ent as int].busy,
            !old(ent).remove_requested,
    ;
}

} // verus!
