use crate::components::{first_match, is_first_match, Component, ComponentStore};
use crate::entities::EntityEditor;
use crate::tag::TypeTag;
use crate::Entity;
use std::collections::VecDeque;
use vstd::prelude::*;

verus! {

/// Why the components of an entity cannot be handed out.
#[derive(Clone, Copy, Debug, PartialEq, Eq, Structural)]
pub enum AccessError {
    /// The handle names no slot of the table.
    OutOfRange,
    /// The slot holds no live entity.
    LookupMiss,
    /// The entity's components are in an editor's hands.
    BorrowConflict,
}

/// One slot as contracts see it.
pub struct SlotView {
    /// Whether the slot holds a live entity.
    pub valid: bool,
    /// Whether the entity's components are in an editor's hands while a
    /// system runs on it. The slot then shows no components.
    pub busy: bool,
    /// The components stored in the slot, in insertion order.
    pub components: Seq<Component>,
}

impl SlotView {
    /// The tags of the slot's components, in insertion order.
    pub open spec fn tags(self) -> Seq<TypeTag> {
        self.components.map_values(|c: Component| c.tag())
    }

    /// A slot that holds a live entity without components.
    pub open spec fn fresh() -> SlotView {
        SlotView { valid: true, busy: false, components: Seq::empty() }
    }

    /// A slot that waits for reuse.
    pub open spec fn vacant() -> SlotView {
        SlotView { valid: false, busy: false, components: Seq::empty() }
    }

    /// A slot whose entity is live and whose components are in an
    /// editor's hands.
    pub open spec fn lent() -> SlotView {
        SlotView { valid: true, busy: true, components: Seq::empty() }
    }

    /// A slot that holds a live entity with `components`.
    pub open spec fn holding(components: Seq<Component>) -> SlotView {
        SlotView { valid: true, busy: false, components }
    }
}

/// The table as contracts see it: the slots by index, the indices that
/// wait for reuse, oldest first, and the indices whose removal was
/// requested, oldest first.
pub struct TableView {
    pub slots: Seq<SlotView>,
    pub free: Seq<Entity>,
    pub dead: Seq<Entity>,
}

impl TableView {
    /// Whether `ent` names a slot that holds a live entity. A live entity
    /// whose removal is pending is still active.
    pub open spec fn is_active(self, ent: Entity) -> bool {
        ent < self.slots.len() && self.slots[ent as int].valid
    }

    /// Whether `ent` is active and its components are in the table, not
    /// in an editor's hands.
    pub open spec fn is_accessible(self, ent: Entity) -> bool {
        self.is_active(ent) && !self.slots[ent as int].busy
    }

    /// What an attempt to reach the components of `ent` runs into, if
    /// anything.
    pub open spec fn obstacle(self, ent: Entity) -> Option<AccessError> {
        if ent >= self.slots.len() {
            Some(AccessError::OutOfRange)
        } else if !self.slots[ent as int].valid {
            Some(AccessError::LookupMiss)
        } else if self.slots[ent as int].busy {
            Some(AccessError::BorrowConflict)
        } else {
            None
        }
    }

    /// The table's invariant: the free list holds exactly the vacant
    /// slots, each once; a vacant slot holds no components and is not
    /// busy; a busy slot shows no components; the removal queue names
    /// slots of the table only.
    pub open spec fn wf(self) -> bool {
        &&& self.slots.len() <= usize::MAX
        &&& self.free.no_duplicates()
        &&& forall|i: int| 0 <= i < self.free.len() ==> #[trigger] self.free[i] < self.slots.len()
        &&& forall|e: int|
            0 <= e < self.slots.len() ==> ((#[trigger] self.slots[e]).valid
                <==> !self.free.contains(e as Entity))
        &&& forall|e: int|
            0 <= e < self.slots.len() && !(#[trigger] self.slots[e]).valid ==> self.slots[e]
                == SlotView::vacant()
        &&& forall|e: int|
            0 <= e < self.slots.len() && (#[trigger] self.slots[e]).busy ==> self.slots[e]
                == SlotView::lent()
        &&& forall|i: int| 0 <= i < self.dead.len() ==> #[trigger] self.dead[i] < self.slots.len()
    }

    /// Whether no slot is busy: the state between ticks.
    pub open spec fn at_rest(self) -> bool {
        forall|e: int| 0 <= e < self.slots.len() ==> !(#[trigger] self.slots[e]).busy
    }

    /// Whether `ent` is active and no removal of it is pending.
    pub open spec fn settled(self, ent: Entity) -> bool {
        self.is_active(ent) && !self.dead.contains(ent)
    }

    /// The entity that the next creation hands out: the oldest free slot,
    /// or a fresh slot at the end when none is free.
    pub open spec fn next_entity(self) -> Entity {
        if self.free.len() > 0 {
            self.free[0]
        } else {
            self.slots.len() as Entity
        }
    }

    /// The table after one creation.
    pub open spec fn created(self) -> TableView {
        if self.free.len() > 0 {
            TableView {
                slots: self.slots.update(self.free[0] as int, SlotView::fresh()),
                free: self.free.skip(1),
                dead: self.dead,
            }
        } else {
            TableView { slots: self.slots.push(SlotView::fresh()), free: self.free, dead: self.dead }
        }
    }

    /// The table after a removal of `ent` was requested: the request is
    /// queued when `ent` names a slot, and dropped otherwise.
    pub open spec fn removal_requested(self, ent: Entity) -> TableView {
        if ent < self.slots.len() {
            TableView { slots: self.slots, free: self.free, dead: self.dead.push(ent) }
        } else {
            self
        }
    }

    /// The table after `ent` was dropped: an active slot loses its
    /// components, becomes vacant and joins the free list at its tail.
    /// Anything else leaves the table as it is.
    pub open spec fn dropped(self, ent: Entity) -> TableView {
        if self.is_active(ent) {
            TableView {
                slots: self.slots.update(ent as int, SlotView::vacant()),
                free: self.free.push(ent),
                dead: self.dead,
            }
        } else {
            self
        }
    }

    /// The table after the entities of `queue` were dropped one by one,
    /// first to last.
    pub open spec fn dropped_all(self, queue: Seq<Entity>) -> TableView
        decreases queue.len(),
    {
        if queue.len() == 0 {
            self
        } else {
            self.dropped(queue[0]).dropped_all(queue.skip(1))
        }
    }

    /// The table after the end-of-tick drain: every queued removal was
    /// carried out in the order of the requests, and the queue is empty.
    pub open spec fn drained(self) -> TableView {
        let swept = self.dropped_all(self.dead);
        TableView { slots: swept.slots, free: swept.free, dead: Seq::empty() }
    }

    /// The table with slot `ent` replaced.
    pub open spec fn with_slot(self, ent: Entity, slot: SlotView) -> TableView {
        TableView { slots: self.slots.update(ent as int, slot), free: self.free, dead: self.dead }
    }

    /// The table after a system handed `components` back for `ent`: the
    /// slot holds them and is no longer busy, and when the system asked
    /// for the removal of the entity, the request is queued behind the
    /// earlier ones.
    pub open spec fn taken_back(
        self,
        ent: Entity,
        components: Seq<Component>,
        asked: bool,
    ) -> TableView {
        if asked {
            self.with_slot(ent, SlotView::holding(components)).removal_requested(ent)
        } else {
            self.with_slot(ent, SlotView::holding(components))
        }
    }

    /// The table with the components of slot `ent` replaced.
    pub open spec fn with_components(self, ent: Entity, components: Seq<Component>) -> TableView {
        self.with_slot(
            ent,
            SlotView {
                valid: self.slots[ent as int].valid,
                busy: self.slots[ent as int].busy,
                components,
            },
        )
    }

    /// Whether two tables agree on everything but the components: on
    /// which slots are active, on which are busy, and on both queues.
    pub open spec fn same_lifecycle(self, other: TableView) -> bool {
        &&& self.slots.len() == other.slots.len()
        &&& self.free == other.free
        &&& self.dead == other.dead
        &&& forall|e: int|
            0 <= e < self.slots.len() ==> (#[trigger] self.slots[e]).valid == other.slots[e].valid
        &&& forall|e: int|
            0 <= e < self.slots.len() ==> (#[trigger] self.slots[e]).busy == other.slots[e].busy
    }

    /// Whether `scanned` can be what the scan of one tick makes of this
    /// table, before the drain: components may have changed, and
    /// removals of slots of the table may have been asked for, behind
    /// those that were queued already. Nothing else differs.
    pub open spec fn scan_of(self, scanned: TableView) -> bool {
        &&& scanned.slots.len() == self.slots.len()
        &&& scanned.free == self.free
        &&& forall|e: int|
            0 <= e < self.slots.len() ==> (#[trigger] scanned.slots[e]).valid == self.slots[e].valid
        &&& forall|e: int|
            0 <= e < self.slots.len() ==> (#[trigger] scanned.slots[e]).busy == self.slots[e].busy
        &&& self.dead.is_prefix_of(scanned.dead)
        &&& forall|i: int|
            0 <= i < scanned.dead.len() ==> #[trigger] scanned.dead[i] < scanned.slots.len()
    }

    /// Whether `after` is what one operation that does not name `ent`
    /// for removal makes of this table: a creation, a request to remove
    /// another entity, the drop of another entity, an edit of any
    /// entity's components, the lending of an entity's components to a
    /// system, the taking back of what a system returned unless it is
    /// for `ent` with a request for its removal, or a whole tick in
    /// which no system asks for the removal of `ent`.
    pub open spec fn step_sparing(self, after: TableView, ent: Entity) -> bool {
        ||| after == self.created()
        ||| exists|other: Entity| other != ent && after == #[trigger] self.removal_requested(other)
        ||| exists|other: Entity| other != ent && after == #[trigger] self.dropped(other)
        ||| after.same_lifecycle(self)
        ||| exists|other: Entity|
            self.is_active(other) && after == #[trigger] self.with_slot(other, SlotView::lent())
        ||| exists|other: Entity, components: Seq<Component>, asked: bool|
            self.is_active(other) && (other != ent || !asked) && after == #[trigger] self.taken_back(
                other,
                components,
                asked,
            )
        ||| exists|scanned: TableView| #[trigger]
            self.scan_of(scanned) && !scanned.dead.contains(ent) && after == scanned.drained()
    }
}

/// One slot of the table.
pub struct EntitySlot {
    valid: bool,
    busy: bool,
    store: ComponentStore,
}

impl View for EntitySlot {
    type V = SlotView;

    closed spec fn view(&self) -> SlotView {
        SlotView { valid: self.valid, busy: self.busy, components: self.store@ }
    }
}

/// The views of a sequence of slots.
spec fn slot_views(slots: Seq<EntitySlot>) -> Seq<SlotView> {
    slots.map_values(|slot: EntitySlot| slot@)
}

/// Owns every slot with its components, the list of slots that wait for
/// reuse, and the queue of requested removals.
pub struct EntityTable {
    slots: Vec<EntitySlot>,
    free: VecDeque<Entity>,
    dead: VecDeque<Entity>,
}

impl View for EntityTable {
    type V = TableView;

    closed spec fn view(&self) -> TableView {
        TableView { slots: slot_views(self.slots@), free: self.free@, dead: self.dead@ }
    }
}

impl EntityTable {
    /// Whether the table's invariant holds.
    pub open spec fn wf(&self) -> bool {
        self@.wf()
    }

    /// An empty table.
    pub fn new() -> (table: EntityTable)
        ensures
            table.wf(),
            table@.slots.len() == 0,
            table@.free.len() == 0,
            table@.dead.len() == 0,
    {
        EntityTable { slots: Vec::new(), free: VecDeque::new(), dead: VecDeque::new() }
    }

    /// An empty table with room for `capacity` entities. The capacity is
    /// a hint: the table grows as needed.
    pub fn with_capacity(capacity: usize) -> (table: EntityTable)
        ensures
            table.wf(),
            table@.slots.len() == 0,
            table@.free.len() == 0,
            table@.dead.len() == 0,
    {
        EntityTable {
            slots: Vec::with_capacity(capacity),
            free: VecDeque::with_capacity(capacity / 3),
            dead: VecDeque::with_capacity(capacity / 3),
        }
    }

    /// The number of slots, vacant ones included.
    pub fn len(&self) -> (n: usize)
        ensures
            n == self@.slots.len(),
    {
        self.slots.len()
    }

    /// Whether `ent` names a slot that holds a live entity.
    pub fn is_valid(&self, ent: Entity) -> (active: bool)
        ensures
            active == self@.is_active(ent),
    {
        ent < self.slots.len() && self.slots[ent].valid
    }

    /// Hands out an entity without components: the oldest free slot, or
    /// a new slot when none is free.
    pub fn create_entity(&mut self) -> (ent: Entity)
        requires
            old(self).wf(),
        ensures
            ent == old(self)@.next_entity(),
            final(self)@ == old(self)@.created(),
            final(self).wf(),
            final(self)@.slots[ent as int] == SlotView::fresh(),
            old(self)@.at_rest() ==> final(self)@.at_rest(),
    {
        match self.free.pop_front() {
            Some(ent) => {
                assert(old(self)@.free[0] == ent);
                assert(ent < self.slots.len());
                self.slots[ent].store.clear();
                self.slots[ent].valid = true;
                proof {
                    assert(old(self)@.slots[ent as int] == SlotView::vacant());
                    assert(self@.slots =~= old(self)@.slots.update(ent as int, SlotView::fresh()));
                    assert(self@.free =~= old(self)@.free.skip(1));
                    lemma_created_wf(old(self)@);
                }
                ent
            },
            None => {
                let ent = self.slots.len();
                self.slots.push(
                    EntitySlot { valid: true, busy: false, store: ComponentStore::with_capacity(12) },
                );
                proof {
                    assert(self.slots@.len() == self.slots.len());
                    assert(self@.slots =~= old(self)@.slots.push(SlotView::fresh()));
                    lemma_created_wf(old(self)@);
                }
                ent
            },
        }
    }

    /// Asks for the removal of `ent` at the end of the tick. The entity
    /// stays active until then. A handle that names no slot is ignored.
    pub fn remove_entity(&mut self, ent: Entity)
        requires
            old(self).wf(),
        ensures
            final(self)@ == old(self)@.removal_requested(ent),
            final(self).wf(),
    {
        if ent < self.slots.len() {
            self.dead.push_back(ent);
            proof {
                assert forall|i: int| 0 <= i < self@.dead.len() implies #[trigger] self@.dead[i]
                    < self@.slots.len() by {
                    if i < old(self)@.dead.len() {
                        assert(self@.dead[i] == old(self)@.dead[i]);
                    }
                }
            }
        }
    }

    /// Removes `ent` at once: its components are destroyed and its slot
    /// joins the free list. A handle that names no active slot is
    /// ignored, so that no slot is ever freed twice.
    pub fn drop_entity(&mut self, ent: Entity)
        requires
            old(self).wf(),
        ensures
            final(self)@ == old(self)@.dropped(ent),
            final(self).wf(),
            old(self)@.at_rest() ==> final(self)@.at_rest(),
    {
        proof {
            lemma_dropped_wf(self@, ent);
        }
        if ent < self.slots.len() && self.slots[ent].valid {
            self.slots[ent].store.clear();
            self.slots[ent].valid = false;
            self.slots[ent].busy = false;
            self.free.push_back(ent);
            proof {
                assert(self@.slots =~= old(self)@.slots.update(ent as int, SlotView::vacant()));
            }
        }
    }

    /// Carries out every requested removal, oldest request first, and
    /// empties the queue.
    pub fn drain(&mut self)
        requires
            old(self).wf(),
        ensures
            final(self)@ == old(self)@.drained(),
            final(self).wf(),
            old(self)@.at_rest() ==> final(self)@.at_rest(),
    {
        proof {
            lemma_drained_slots(self@);
        }
        let ghost start = self@;
        let ghost mut done: int = 0;
        loop
            invariant
                self.wf(),
                0 <= done <= start.dead.len(),
                self@.dead == start.dead.skip(done),
                (TableView { dead: start.dead, ..self@ }) == start.dropped_all(
                    start.dead.take(done),
                ),
            ensures
                self@ == start.drained(),
            decreases self@.dead.len(),
        {
            match self.dead.pop_front() {
                Some(ent) => {
                    assert(ent == start.dead[done]);
                    self.drop_entity(ent);
                    proof {
                        lemma_dropped_all_push(start, start.dead.take(done), ent);
                        assert(start.dead.take(done).push(ent) =~= start.dead.take(done + 1));
                        assert(self@.dead =~= start.dead.skip(done + 1));
                        done = done + 1;
                    }
                },
                None => {
                    proof {
                        assert(start.dead.take(done) =~= start.dead);
                        assert(self@.dead =~= Seq::<Entity>::empty());
                    }
                    break ;
                },
            }
        }
    }

    /// The components of `ent`, read-only, or the reason why they cannot
    /// be had: the handle names no slot, the slot holds no live entity,
    /// or the components are in an editor's hands.
    pub fn access(&self, ent: Entity) -> (outcome: Result<&ComponentStore, AccessError>)
        ensures
            match outcome {
                Ok(store) => self@.obstacle(ent) is None && store@
                    == self@.slots[ent as int].components,
                Err(e) => self@.obstacle(ent) == Some(e),
            },
    {
        if ent >= self.slots.len() {
            Err(AccessError::OutOfRange)
        } else if !self.slots[ent].valid {
            Err(AccessError::LookupMiss)
        } else if self.slots[ent].busy {
            Err(AccessError::BorrowConflict)
        } else {
            Ok(&self.slots[ent].store)
        }
    }

    /// The components of `ent`, read-only; absent when `ent` names no
    /// active slot or the components are in an editor's hands.
    pub fn components(&self, ent: Entity) -> (store: Option<&ComponentStore>)
        ensures
            store.is_some() == self@.is_accessible(ent),
            store matches Some(s) ==> s@ == self@.slots[ent as int].components,
    {
        match self.access(ent) {
            Ok(store) => Some(store),
            Err(_) => None,
        }
    }

    /// An editor for `ent`; absent when `ent` names no active slot or
    /// its components are in another editor's hands. What the editor does
    /// to its components is what happens to the slot.
    pub fn edit(&mut self, ent: Entity) -> (editor: Option<EntityEditor<'_>>)
        ensures
            editor.is_some() == old(self)@.is_accessible(ent),
            editor matches Some(ed) ==> {
                &&& ed.ent == ent
                &&& ed.components@ == old(self)@.slots[ent as int].components
                &&& final(self)@ == old(self)@.with_components(ent, final(ed.components)@)
            },
            editor is None ==> final(self)@ == old(self)@,
    {
        if ent < self.slots.len() && self.slots[ent].valid && !self.slots[ent].busy {
            proof {
                lemma_store_update(self.slots@, ent as int);
            }
            Some(EntityEditor::new(ent, &mut self.slots[ent].store))
        } else {
            None
        }
    }

    /// Appends `component` to `ent` under the tag of `T` and reports
    /// whether that was done: it is not when `ent` names no active slot
    /// or its components are in an editor's hands.
    pub fn add_component<T: 'static>(&mut self, ent: Entity, component: T) -> (added: bool)
        ensures
            added == old(self)@.is_accessible(ent),
            !added ==> final(self)@ == old(self)@,
            added ==> {
                let before = old(self)@.slots[ent as int];
                let after = final(self)@.slots[ent as int];
                &&& final(self)@ == old(self)@.with_components(ent, after.components)
                &&& after.components.len() == before.components.len() + 1
                &&& after.components.drop_last() == before.components
                &&& after.components.last().tag() == TypeTag::spec_of::<T>()
                &&& after.components.last().value::<T>() == component
                &&& after.tags() == before.tags().push(TypeTag::spec_of::<T>())
            },
    {
        match self.edit(ent) {
            Some(mut editor) => {
                editor.add(component);
                true
            },
            None => false,
        }
    }

    /// Whether the components of `ent` can be had and hold one of type
    /// `T`.
    pub fn has_component<T: 'static>(&self, ent: Entity) -> (present: bool)
        ensures
            present == (self@.is_accessible(ent) && self@.slots[ent as int].tags().contains(
                TypeTag::spec_of::<T>(),
            )),
    {
        match self.components(ent) {
            Some(store) => store.has::<T>(),
            None => false,
        }
    }

    /// The first component of type `T` of `ent`, for writing; absent when
    /// the components of `ent` cannot be had or hold none of that type.
    /// What is written through the reference is that component's value
    /// afterwards; no tag, no other component and no other slot changes.
    pub fn get_component<T: 'static>(&mut self, ent: Entity) -> (value: Option<&mut T>)
        ensures
            value.is_some() == (old(self)@.is_accessible(ent) && old(
                self,
            )@.slots[ent as int].tags().contains(TypeTag::spec_of::<T>())),
            value matches Some(v) ==> {
                let before = old(self)@.slots[ent as int];
                let first = first_match(before.tags(), TypeTag::spec_of::<T>());
                &&& *v == before.components[first].value::<T>()
                &&& *final(v) == final(self)@.slots[ent as int].components[first].value::<T>()
            },
            !old(self)@.is_accessible(ent) ==> final(self)@ == old(self)@,
            old(self)@.is_accessible(ent) ==> {
                let before = old(self)@.slots[ent as int];
                let after = final(self)@.slots[ent as int];
                &&& final(self)@ == old(self)@.with_components(ent, after.components)
                &&& after.tags() == before.tags()
                &&& forall|k: int|
                    0 <= k < before.components.len() && !is_first_match(
                        before.tags(),
                        TypeTag::spec_of::<T>(),
                        k,
                    ) ==> #[trigger] after.components[k] == before.components[k]
            },
    {
        if ent < self.slots.len() && self.slots[ent].valid && !self.slots[ent].busy {
            proof {
                lemma_store_update(self.slots@, ent as int);
            }
            self.slots[ent].store.get::<T>()
        } else {
            None
        }
    }

    /// The first active entity at or behind `from`, if there is one: the
    /// entity that a scan which stands at `from` visits next.
    pub fn next_active(&self, from: Entity) -> (next: Option<Entity>)
        ensures
            match next {
                Some(ent) => {
                    &&& from <= ent
                    &&& self@.is_active(ent)
                    &&& forall|e: Entity| from <= e < ent ==> !self@.is_active(e)
                },
                None => forall|e: Entity| from <= e ==> !self@.is_active(e),
            },
    {
        let count = self.slots.len();
        let mut ent: usize = from;
        while ent < count
            invariant
                from <= ent,
                count == self.slots@.len(),
                forall|e: Entity| from <= e < ent ==> !self@.is_active(e),
            decreases count - ent,
        {
            if self.slots[ent].valid {
                return Some(ent);
            }
            ent += 1;
        }
        None
    }

    /// Takes back what a system returned for `ent`: the components go
    /// back into the slot, which is no longer busy, and when the system
    /// asked for the removal of the entity, the request is queued behind
    /// the earlier ones. The entity stays active either way.
    pub fn take_back(&mut self, ent: Entity, store: ComponentStore, asked: bool)
        requires
            old(self).wf(),
            old(self)@.is_active(ent),
            old(self)@.slots[ent as int].busy,
        ensures
            final(self)@ == old(self)@.taken_back(ent, store@, asked),
            final(self).wf(),
    {
        proof {
            lemma_with_slot_wf(self@, ent, SlotView::holding(store@));
        }
        let refused = self.check_in(ent, store);
        assert(refused is None);
        if asked {
            self.remove_entity(ent);
        }
    }

    /// Takes the components of `ent` out of the table, for the time that
    /// a system runs on the entity: the slot is busy until they are
    /// handed back. Nothing is taken when the components of `ent` cannot
    /// be had, which includes that they are lent already.
    pub fn check_out(&mut self, ent: Entity) -> (store: Option<ComponentStore>)
        ensures
            store.is_some() == old(self)@.is_accessible(ent),
            store matches Some(s) ==> {
                &&& s@ == old(self)@.slots[ent as int].components
                &&& final(self)@ == old(self)@.with_slot(ent, SlotView::lent())
            },
            store is None ==> final(self)@ == old(self)@,
    {
        if ent < self.slots.len() && self.slots[ent].valid && !self.slots[ent].busy {
            let mut store = ComponentStore::new();
            std::mem::swap(&mut store, &mut self.slots[ent].store);
            self.slots[ent].busy = true;
            assert(self@.slots =~= old(self)@.slots.update(ent as int, SlotView::lent()));
            Some(store)
        } else {
            None
        }
    }

    /// Hands the components of `ent` back to the table and ends the
    /// slot's being busy. A store that was not lent from an active slot
    /// named `ent` is refused and comes back to the caller.
    pub fn check_in(&mut self, ent: Entity, store: ComponentStore) -> (refused: Option<
        ComponentStore,
    >)
        ensures
            refused.is_none() == (old(self)@.is_active(ent) && old(self)@.slots[ent as int].busy),
            refused is None ==> final(self)@ == old(self)@.with_slot(
                ent,
                SlotView::holding(store@),
            ),
            refused matches Some(s) ==> s == store && final(self)@ == old(self)@,
    {
        if ent < self.slots.len() && self.slots[ent].valid && self.slots[ent].busy {
            self.slots[ent].store = store;
            self.slots[ent].busy = false;
            assert(self@.slots =~= old(self)@.slots.update(ent as int, SlotView::holding(store@)));
            None
        } else {
            Some(store)
        }
    }
}

/// Replacing the store of one slot replaces that slot's components in the
/// view and nothing else.
proof fn lemma_store_update(slots: Seq<EntitySlot>, index: int)
    requires
        0 <= index < slots.len(),
    ensures
        forall|store: ComponentStore| #[trigger]
            slot_views(
                slots.update(
                    index,
                    EntitySlot { valid: slots[index].valid, busy: slots[index].busy, store },
                ),
            ) == slot_views(slots).update(
                index,
                SlotView {
                    valid: slots[index]@.valid,
                    busy: slots[index]@.busy,
                    components: store@,
                },
            ),
{
    assert forall|store: ComponentStore| #[trigger]
        slot_views(
            slots.update(
                index,
                EntitySlot { valid: slots[index].valid, busy: slots[index].busy, store },
            ),
        ) == slot_views(slots).update(
            index,
            SlotView { valid: slots[index]@.valid, busy: slots[index]@.busy, components: store@ },
        ) by {
        assert(slot_views(
            slots.update(
                index,
                EntitySlot { valid: slots[index].valid, busy: slots[index].busy, store },
            ),
        ) =~= slot_views(slots).update(
            index,
            SlotView { valid: slots[index]@.valid, busy: slots[index]@.busy, components: store@ },
        ));
    }
}

/// A creation keeps the invariant, hands out a fresh slot and leaves
/// every other slot and the removal queue as they are. No slot becomes
/// busy by it.
pub proof fn lemma_created_wf(table: TableView)
    requires
        table.wf(),
        table.slots.len() < usize::MAX || table.free.len() > 0,
    ensures
        table.created().wf(),
        table.created().slots[table.next_entity() as int] == SlotView::fresh(),
        forall|e: int|
            0 <= e < table.slots.len() && e != table.next_entity() ==> (
            #[trigger] table.created().slots[e]) == table.slots[e],
        table.created().dead == table.dead,
        table.at_rest() ==> table.created().at_rest(),
{
    let after = table.created();
    if table.free.len() > 0 {
        let ent = table.free[0];
        assert forall|e: int| 0 <= e < after.slots.len() implies ((#[trigger] after.slots[e]).valid
            <==> !after.free.contains(e as Entity)) by {
            if e == ent {
                if after.free.contains(ent) {
                    let i = choose|i: int| 0 <= i < after.free.len() && after.free[i] == ent;
                    assert(table.free[i + 1] == ent);
                }
            } else {
                if table.free.contains(e as Entity) {
                    let i = choose|i: int| 0 <= i < table.free.len() && table.free[i] == e as Entity;
                    assert(after.free[i - 1] == e as Entity);
                }
            }
        }
        assert(after.free.no_duplicates());
    } else {
        assert forall|e: int| 0 <= e < after.slots.len() implies ((#[trigger] after.slots[e]).valid
            <==> !after.free.contains(e as Entity)) by {}
    }
}

/// Dropping an entity keeps the invariant, and makes no slot busy.
pub proof fn lemma_dropped_wf(table: TableView, ent: Entity)
    requires
        table.wf(),
    ensures
        table.dropped(ent).wf(),
        table.at_rest() ==> table.dropped(ent).at_rest(),
{
    let after = table.dropped(ent);
    if table.is_active(ent) {
        assert(!table.free.contains(ent));
        assert forall|e: int| 0 <= e < after.slots.len() implies ((#[trigger] after.slots[e]).valid
            <==> !after.free.contains(e as Entity)) by {
            if e == ent {
                assert(after.free[table.free.len() as int] == ent);
            } else {
                if table.free.contains(e as Entity) {
                    let i = choose|i: int| 0 <= i < table.free.len() && table.free[i] == e as Entity;
                    assert(after.free[i] == e as Entity);
                }
            }
        }
        assert forall|i: int, j: int|
            0 <= i < after.free.len() && 0 <= j < after.free.len() && i != j implies after.free[i]
            != after.free[j] by {
            if i < table.free.len() {
                assert(table.free[i] == after.free[i]);
            }
            if j < table.free.len() {
                assert(table.free[j] == after.free[j]);
            }
        }
    }
}

/// Dropping the entities of a queue and then one more is dropping the
/// entities of the longer queue.
pub proof fn lemma_dropped_all_push(table: TableView, queue: Seq<Entity>, ent: Entity)
    ensures
        table.dropped_all(queue.push(ent)) == table.dropped_all(queue).dropped(ent),
    decreases queue.len(),
{
    if queue.len() == 0 {
        assert(queue.push(ent).skip(1) =~= Seq::<Entity>::empty());
        assert(table.dropped(ent).dropped_all(Seq::<Entity>::empty()) == table.dropped(ent));
    } else {
        assert(queue.push(ent).skip(1) =~= queue.skip(1).push(ent));
        lemma_dropped_all_push(table.dropped(queue[0]), queue.skip(1), ent);
    }
}

/// Replacing an active slot by a live one keeps the invariant, provided
/// that a busy slot shows no components.
pub proof fn lemma_with_slot_wf(table: TableView, ent: Entity, slot: SlotView)
    requires
        table.wf(),
        table.is_active(ent),
        slot.valid,
        slot.busy ==> slot == SlotView::lent(),
    ensures
        table.with_slot(ent, slot).wf(),
        table.with_slot(ent, slot).is_active(ent),
{
    let after = table.with_slot(ent, slot);
    assert forall|e: int| 0 <= e < after.slots.len() implies ((#[trigger] after.slots[e]).valid
        <==> !after.free.contains(e as Entity)) by {
        assert(after.slots[e].valid == table.slots[e].valid);
    }
    assert forall|e: int|
        0 <= e < after.slots.len() && !(#[trigger] after.slots[e]).valid implies after.slots[e]
        == SlotView::vacant() by {
        assert(after.slots[e] == table.slots[e]);
    }
    assert forall|e: int|
        0 <= e < after.slots.len() && (#[trigger] after.slots[e]).busy implies after.slots[e]
        == SlotView::lent() by {
        if e != ent {
            assert(after.slots[e] == table.slots[e]);
        }
    }
}

/// Replacing the components of an entity whose components are in the
/// table keeps the invariant and changes nothing about which slots are
/// active, busy or queued.
pub proof fn lemma_with_components_wf(table: TableView, ent: Entity, components: Seq<Component>)
    requires
        table.wf(),
        table.is_accessible(ent),
    ensures
        table.with_components(ent, components).wf(),
        table.with_components(ent, components).same_lifecycle(table),
        table.with_components(ent, components).is_accessible(ent),
        table.at_rest() ==> table.with_components(ent, components).at_rest(),
{
    lemma_with_slot_wf(table, ent, SlotView::holding(components));
}

/// What dropping a queue of entities comes to, slot by slot: the table
/// keeps its size, its removal queue and its invariant; a slot that was
/// active and is not named by the queue stays as it was, and every other
/// slot is vacant.
pub proof fn lemma_dropped_all_slots(table: TableView, queue: Seq<Entity>)
    requires
        table.wf(),
    ensures
        table.dropped_all(queue).wf(),
        table.dropped_all(queue).dead == table.dead,
        table.dropped_all(queue).slots.len() == table.slots.len(),
        forall|e: int|
            0 <= e < table.slots.len() ==> (#[trigger] table.dropped_all(queue).slots[e]) == (if table.slots[e].valid
                && !queue.contains(e as Entity) {
                table.slots[e]
            } else {
                SlotView::vacant()
            }),
{
    lemma_dropped_all_wf(table, queue);
    lemma_dropped_all_valid(table, queue);
}

/// Dropping a queue of entities keeps the invariant, and makes no slot
/// busy.
pub proof fn lemma_dropped_all_wf(table: TableView, queue: Seq<Entity>)
    requires
        table.wf(),
    ensures
        table.dropped_all(queue).wf(),
        table.at_rest() ==> table.dropped_all(queue).at_rest(),
    decreases queue.len(),
{
    if queue.len() > 0 {
        lemma_dropped_wf(table, queue[0]);
        lemma_dropped_all_wf(table.dropped(queue[0]), queue.skip(1));
    }
}

/// What the end-of-tick drain comes to, slot by slot: the table keeps
/// its size and its invariant, and its removal queue is empty; an entity
/// that was active and whose removal was not requested stays as it was,
/// and every other slot is vacant.
pub proof fn lemma_drained_slots(table: TableView)
    requires
        table.wf(),
    ensures
        table.drained().wf(),
        table.drained().dead.len() == 0,
        table.drained().slots.len() == table.slots.len(),
        forall|e: int|
            0 <= e < table.slots.len() ==> (#[trigger] table.drained().slots[e]) == (if table.slots[e].valid
                && !table.dead.contains(e as Entity) {
                table.slots[e]
            } else {
                SlotView::vacant()
            }),
        table.at_rest() ==> table.drained().at_rest(),
{
    lemma_dropped_all_slots(table, table.dead);
}

/// Identity is stable: an entity that is active, and whose removal
/// nobody has asked for, is still so after any operation that does not
/// name it for removal. Between ticks such an entity therefore gets an
/// editor whenever it is asked for, since `edit` is present for exactly
/// the active entities whose components are in the table.
pub proof fn lemma_identity_stable(before: TableView, after: TableView, ent: Entity)
    requires
        before.wf(),
        before.settled(ent),
        before.step_sparing(after, ent),
    ensures
        after.settled(ent),
        after.at_rest() ==> after.is_accessible(ent),
{
    if after == before.created() {
        if before.free.len() > 0 {
            assert(before.free.contains(before.free[0]));
        }
    } else if exists|scanned: TableView| #[trigger]
        before.scan_of(scanned) && !scanned.dead.contains(ent) && after == scanned.drained() {
        let scanned = choose|scanned: TableView| #[trigger]
            before.scan_of(scanned) && !scanned.dead.contains(ent) && after == scanned.drained();
        lemma_dropped_all_valid(scanned, scanned.dead);
        assert(scanned.slots[ent as int].valid);
    }
}

/// Which slots are active after a queue of entities was dropped: those
/// that were active and that the queue does not name. An active slot
/// that the queue does not name stays as it was.
pub proof fn lemma_dropped_all_valid(table: TableView, queue: Seq<Entity>)
    requires
        table.slots.len() <= usize::MAX,
    ensures
        table.dropped_all(queue).dead == table.dead,
        table.dropped_all(queue).slots.len() == table.slots.len(),
        forall|e: int|
            0 <= e < table.slots.len() ==> (#[trigger] table.dropped_all(queue).slots[e]).valid == (table.slots[e].valid
                && !queue.contains(e as Entity)),
        forall|e: int|
            0 <= e < table.slots.len() && table.slots[e].valid && !queue.contains(e as Entity) ==> (
            #[trigger] table.dropped_all(queue).slots[e]) == table.slots[e],
    decreases queue.len(),
{
    if queue.len() > 0 {
        let ent = queue[0];
        let next = table.dropped(ent);
        lemma_dropped_all_valid(next, queue.skip(1));
        assert forall|e: int| 0 <= e < table.slots.len() implies (#[trigger] table.dropped_all(
            queue,
        ).slots[e]).valid == (table.slots[e].valid && !queue.contains(e as Entity)) by {
            if queue.skip(1).contains(e as Entity) {
                let i = choose|i: int| 0 <= i < queue.skip(1).len() && queue.skip(1)[i] == e as Entity;
                assert(queue[i + 1] == e as Entity);
            }
            if queue.contains(e as Entity) && e != ent {
                let i = choose|i: int| 0 <= i < queue.len() && queue[i] == e as Entity;
                assert(queue.skip(1)[i - 1] == e as Entity);
            }
            if e == ent {
                assert(queue[0] == ent);
            }
        }
        assert forall|e: int|
            0 <= e < table.slots.len() && table.slots[e].valid && !queue.contains(
                e as Entity,
            ) implies (#[trigger] table.dropped_all(queue).slots[e]) == table.slots[e] by {
            if queue.skip(1).contains(e as Entity) {
                let i = choose|i: int| 0 <= i < queue.skip(1).len() && queue.skip(1)[i] == e as Entity;
                assert(queue[i + 1] == e as Entity);
            }
            assert(queue[0] == ent);
            assert(next.slots[e] == table.slots[e]);
        }
    }
}

/// Recycling is clean: once the removal of an active entity was asked
/// for and a tick has passed, its slot is vacant, without components,
/// and waits in the free list; and when a later creation hands the same
/// index out again, the new entity starts without components.
pub proof fn lemma_recycled_slot_is_empty(
    before: TableView,
    scanned: TableView,
    after: TableView,
    ent: Entity,
)
    requires
        before.wf(),
        before.is_active(ent),
        before.removal_requested(ent).scan_of(scanned),
        after.wf(),
        after == scanned.drained(),
    ensures
        !after.is_active(ent),
        after.free.contains(ent),
        after.slots[ent as int].components.len() == 0,
        after.next_entity() == ent ==> after.created().slots[ent as int] == SlotView::fresh(),
{
    let asked = before.removal_requested(ent);
    assert(asked.dead.last() == ent);
    assert(scanned.dead[asked.dead.len() - 1] == ent);
    lemma_dropped_all_valid(scanned, scanned.dead);
    assert(!after.slots[ent as int].valid);
}

} // verus!
