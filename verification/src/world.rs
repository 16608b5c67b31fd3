use crate::components::Component;
use crate::components::{first_match, is_first_match};
use crate::entities::EntityEditor;
use crate::query::{Cond, Condition, Query, QueryRunner};
use crate::systems::IterativeSystem;
use crate::table::{
    lemma_drained_slots, lemma_dropped_all_valid, lemma_with_components_wf, lemma_with_slot_wf,
    EntityTable, SlotView, TableView,
};
use crate::tag::TypeTag;
use crate::Entity;
use vstd::prelude::*;

verus! {

/// A registered system with the query that was compiled for it.
pub struct SystemEntry {
    system: Box<dyn IterativeSystem>,
    query: Query,
}

impl SystemEntry {
    /// The expression of the entry's query.
    pub closed spec fn cond(self) -> Cond {
        self.query@
    }

    fn new(system: Box<dyn IterativeSystem>, query: Query) -> (entry: SystemEntry)
        ensures
            entry.cond() == query@,
    {
        SystemEntry { system, query }
    }
}

/// One call of a system, as the world records it.
pub struct Call {
    /// The position of the system in the registry.
    pub system: int,
    /// The entity that the system was called on.
    pub ent: Entity,
    /// The components that the system handed back.
    pub after: Seq<Component>,
    /// Whether the system asked for the removal of the entity.
    pub asked: bool,
}

/// The world as contracts see it: the entity table, the expressions of
/// the registered systems' queries in registration order, and the calls
/// of systems that the world has made so far, oldest first.
pub struct WorldView {
    pub table: TableView,
    pub queries: Seq<Cond>,
    pub calls: Seq<Call>,
}

/// The tags of `components`, in order.
pub open spec fn tags_of(components: Seq<Component>) -> Seq<TypeTag> {
    components.map_values(|c: Component| c.tag())
}

/// The components of an entity that had `start` before the calls of
/// `made` were made on it: what the last call handed back.
pub open spec fn components_after(start: Seq<Component>, made: Seq<Call>) -> Seq<Component> {
    if made.len() == 0 {
        start
    } else {
        made.last().after
    }
}

/// Whether some call of `made` asked for the removal of `ent`.
pub open spec fn asked_for(made: Seq<Call>, ent: Entity) -> bool {
    exists|k: int| 0 <= k < made.len() && (#[trigger] made[k]).asked && made[k].ent == ent
}

/// The table after the outcome of each call of `made` was taken back,
/// first to last.
pub open spec fn replayed(table: TableView, made: Seq<Call>) -> TableView
    decreases made.len(),
{
    if made.len() == 0 {
        table
    } else {
        replayed(table, made.drop_last()).taken_back(
            made.last().ent,
            made.last().after,
            made.last().asked,
        )
    }
}

/// Whether `made` is the calls that one visit to `ent` makes to the
/// systems at positions below `upto`, when the entity had the components
/// `start` at the beginning of the visit. The systems are taken in
/// registration order, and each is called exactly when its query holds
/// of the components as they are at its turn: those that the call before
/// handed back.
pub open spec fn visit_made(
    queries: Seq<Cond>,
    ent: Entity,
    start: Seq<Component>,
    made: Seq<Call>,
    upto: int,
) -> bool
    decreases upto,
{
    if upto <= 0 {
        made.len() == 0
    } else if made.len() > 0 && made.last().system == upto - 1 {
        &&& made.last().ent == ent
        &&& queries[upto - 1].holds(tags_of(components_after(start, made.drop_last())))
        &&& visit_made(queries, ent, start, made.drop_last(), upto - 1)
    } else {
        &&& !queries[upto - 1].holds(tags_of(components_after(start, made)))
        &&& visit_made(queries, ent, start, made, upto - 1)
    }
}

impl WorldView {
    /// Whether `made` is the calls that a visit to slot `ent` makes: none
    /// for a slot that holds no live entity, and else those of all the
    /// registered systems, as `visit_made` says.
    pub open spec fn visit(self, ent: int, made: Seq<Call>) -> bool {
        if self.table.is_active(ent as Entity) {
            visit_made(
                self.queries,
                ent as Entity,
                self.table.slots[ent].components,
                made,
                self.queries.len() as int,
            )
        } else {
            made.len() == 0
        }
    }

    /// Whether `made` is the calls that the scan of a tick makes on the
    /// slots below `upto`: the calls of the visit to slot 0, then those
    /// of the visit to slot 1, and so on, in ascending order.
    pub open spec fn scan_made(self, made: Seq<Call>, upto: int) -> bool
        decreases upto,
    {
        if upto <= 0 {
            made.len() == 0
        } else {
            exists|n: int|
                0 <= n <= made.len() && self.scan_made(#[trigger] made.take(n), upto - 1)
                    && self.visit(upto - 1, made.skip(n))
        }
    }

    /// Whether some registered system selects an entity whose components
    /// carry `tags`.
    pub open spec fn selects(self, tags: Seq<TypeTag>) -> bool {
        exists|j: int| 0 <= j < self.queries.len() && (#[trigger] self.queries[j]).holds(tags)
    }

    /// Whether the next tick runs a system on `ent`: the entity is
    /// active and some registered query selects it as it is.
    pub open spec fn runs_on(self, ent: Entity) -> bool {
        self.table.is_active(ent) && self.selects(self.table.slots[ent as int].tags())
    }

    /// Whether `scanned` can be what the scan of one tick makes of the
    /// entities, before the drain. An entity on which no system runs is
    /// as before; for the others the components may have changed in any
    /// way, and the removal queue may have grown by any of them.
    pub open spec fn scan_result(self, scanned: TableView) -> bool {
        &&& self.table.scan_of(scanned)
        &&& scanned.wf()
        &&& scanned.at_rest()
        &&& forall|e: int|
            0 <= e < self.table.slots.len() && !self.runs_on(e as Entity) ==> (
            #[trigger] scanned.slots[e]) == self.table.slots[e]
        &&& forall|i: int|
            self.table.dead.len() <= i < scanned.dead.len() ==> self.runs_on(
                #[trigger] scanned.dead[i],
            )
    }
}

/// Holds all entities with their components, and the systems that
/// process them.
pub struct World {
    table: EntityTable,
    iterative_systems: Vec<SystemEntry>,
    calls: Ghost<Seq<Call>>,
}

impl View for World {
    type V = WorldView;

    closed spec fn view(&self) -> WorldView {
        WorldView {
            table: self.table@,
            queries: self.iterative_systems@.map_values(|entry: SystemEntry| entry.cond()),
            calls: self.calls@,
        }
    }
}

impl World {
    /// Whether the world's invariant holds: that of its entity table,
    /// with no slot busy.
    pub open spec fn wf(&self) -> bool {
        self@.table.wf() && self@.table.at_rest()
    }

    /// A world without entities or systems, with room for 131072
    /// entities.
    pub fn new() -> (world: World)
        ensures
            world.wf(),
            world@.table.slots.len() == 0,
            world@.table.free.len() == 0,
            world@.table.dead.len() == 0,
            world@.queries.len() == 0,
            world@.calls.len() == 0,
    {
        World::with_capacity(131072)
    }

    /// A world without entities or systems, with room for `capacity`
    /// entities. The capacity is a hint: the world grows as needed.
    pub fn with_capacity(capacity: usize) -> (world: World)
        ensures
            world.wf(),
            world@.table.slots.len() == 0,
            world@.table.free.len() == 0,
            world@.table.dead.len() == 0,
            world@.queries.len() == 0,
            world@.calls.len() == 0,
    {
        World {
            table: EntityTable::with_capacity(capacity),
            iterative_systems: Vec::new(),
            calls: Ghost(Seq::empty()),
        }
    }

    /// The entities of the world, read-only.
    pub fn entities(&self) -> (table: &EntityTable)
        ensures
            table@ == self@.table,
    {
        &self.table
    }

    /// Registers `system` under `query`, behind the systems registered
    /// before.
    pub fn register_system_with(&mut self, system: Box<dyn IterativeSystem>, query: Query)
        ensures
            final(self)@.table == old(self)@.table,
            final(self)@.queries == old(self)@.queries.push(query@),
            final(self)@.calls == old(self)@.calls,
    {
        let entry = SystemEntry::new(system, query);
        self.iterative_systems.push(entry);
        assert(self@.queries =~= old(self)@.queries.push(query@));
    }

    /// Registers `system` under the query that its type declares, behind
    /// the systems registered before. The query is asked for once, here.
    pub fn register_iterative_system<T: IterativeSystem + 'static>(&mut self, system: T)
        ensures
            final(self)@.table == old(self)@.table,
            final(self)@.queries == old(self)@.queries.push(T::declared()),
            final(self)@.calls == old(self)@.calls,
    {
        let query = T::get_query();
        self.register_system_with(Box::new(system), query);
    }

    /// Hands out an entity without components: the oldest free slot, or
    /// a new slot when none is free.
    pub fn create_entity(&mut self) -> (ent: Entity)
        requires
            old(self).wf(),
        ensures
            ent == old(self)@.table.next_entity(),
            final(self)@.table == old(self)@.table.created(),
            final(self)@.queries == old(self)@.queries,
            final(self)@.calls == old(self)@.calls,
            final(self).wf(),
            final(self)@.table.slots[ent as int] == SlotView::fresh(),
    {
        self.table.create_entity()
    }

    /// Removes `ent` at once: its components are destroyed and its slot
    /// joins the free list. A handle that names no active slot is
    /// ignored.
    pub fn drop_entity(&mut self, ent: Entity)
        requires
            old(self).wf(),
        ensures
            final(self)@.table == old(self)@.table.dropped(ent),
            final(self)@.queries == old(self)@.queries,
            final(self)@.calls == old(self)@.calls,
            final(self).wf(),
    {
        self.table.drop_entity(ent)
    }

    /// Asks for the removal of `ent` at the end of the next tick. Until
    /// then the entity stays active, and the systems of that tick still
    /// run on it. A handle that names no slot is ignored.
    pub fn remove_entity(&mut self, ent: Entity)
        requires
            old(self).wf(),
        ensures
            final(self)@.table == old(self)@.table.removal_requested(ent),
            final(self)@.queries == old(self)@.queries,
            final(self)@.calls == old(self)@.calls,
            final(self).wf(),
    {
        self.table.remove_entity(ent)
    }

    /// An editor for `ent`; absent when `ent` names no active entity.
    /// What the editor does to its components is what happens to the
    /// entity.
    pub fn edit(&mut self, ent: Entity) -> (editor: Option<EntityEditor<'_>>)
        requires
            old(self).wf(),
        ensures
            editor.is_some() == old(self)@.table.is_active(ent),
            final(self).wf(),
            editor matches Some(ed) ==> {
                &&& ed.ent == ent
                &&& ed.components@ == old(self)@.table.slots[ent as int].components
                &&& final(self)@.table == old(self)@.table.with_components(
                    ent,
                    final(ed.components)@,
                )
            },
            editor is None ==> final(self)@.table == old(self)@.table,
            final(self)@.queries == old(self)@.queries,
            final(self)@.calls == old(self)@.calls,
    {
        proof {
            lemma_edit_keeps_wf(self@.table, ent);
        }
        self.table.edit(ent)
    }

    /// Appends `component` to `ent` under the tag of `T` and reports
    /// whether that was done: it is not when `ent` names no active slot.
    pub fn add_component<T: 'static>(&mut self, ent: Entity, component: T) -> (added: bool)
        requires
            old(self).wf(),
        ensures
            added == old(self)@.table.is_active(ent),
            !added ==> final(self)@ == old(self)@,
            final(self)@.queries == old(self)@.queries,
            final(self)@.calls == old(self)@.calls,
            final(self).wf(),
            added ==> {
                let before = old(self)@.table.slots[ent as int];
                let after = final(self)@.table.slots[ent as int];
                &&& final(self)@.table == old(self)@.table.with_components(ent, after.components)
                &&& after.components.len() == before.components.len() + 1
                &&& after.components.drop_last() == before.components
                &&& after.components.last().tag() == TypeTag::spec_of::<T>()
                &&& after.components.last().value::<T>() == component
                &&& after.tags() == before.tags().push(TypeTag::spec_of::<T>())
            },
    {
        let added = self.table.add_component(ent, component);
        proof {
            if added {
                lemma_with_components_wf(
                    old(self)@.table,
                    ent,
                    self@.table.slots[ent as int].components,
                );
            }
        }
        added
    }

    /// Whether `ent` names an active slot that holds a component of type
    /// `T`.
    pub fn has_component<T: 'static>(&self, ent: Entity) -> (present: bool)
        requires
            self.wf(),
        ensures
            present == (self@.table.is_active(ent) && self@.table.slots[ent as int].tags().contains(
                TypeTag::spec_of::<T>(),
            )),
    {
        self.table.has_component::<T>(ent)
    }

    /// The first component of type `T` of `ent`, for writing; absent when
    /// `ent` names no active slot or the entity has no such component.
    /// Writing through the reference changes no tag, no other component
    /// and no other entity.
    pub fn get_component<T: 'static>(&mut self, ent: Entity) -> (value: Option<&mut T>)
        requires
            old(self).wf(),
        ensures
            value.is_some() == (old(self)@.table.is_active(ent) && old(
                self,
            )@.table.slots[ent as int].tags().contains(TypeTag::spec_of::<T>())),
            value matches Some(v) ==> {
                let before = old(self)@.table.slots[ent as int];
                let first = first_match(before.tags(), TypeTag::spec_of::<T>());
                &&& *v == before.components[first].value::<T>()
                &&& *final(v) == final(self)@.table.slots[ent as int].components[first].value::<
                    T,
                >()
            },
            final(self)@.queries == old(self)@.queries,
            final(self)@.calls == old(self)@.calls,
            final(self).wf(),
            !old(self)@.table.is_active(ent) ==> final(self)@ == old(self)@,
            old(self)@.table.is_active(ent) ==> {
                let before = old(self)@.table.slots[ent as int];
                let after = final(self)@.table.slots[ent as int];
                &&& final(self)@.table == old(self)@.table.with_components(ent, after.components)
                &&& after.tags() == before.tags()
                &&& forall|k: int|
                    0 <= k < before.components.len() && !is_first_match(
                        before.tags(),
                        TypeTag::spec_of::<T>(),
                        k,
                    ) ==> #[trigger] after.components[k] == before.components[k]
            },
    {
        proof {
            lemma_edit_keeps_wf(self@.table, ent);
        }
        self.table.get_component::<T>(ent)
    }

    /// A runner of `query` over the entities of this world.
    pub fn filter_entities<'world, 'query>(&'world self, query: &'query Query) -> (runner:
        QueryRunner<'world, 'query>)
        ensures
            runner.table() == self@.table,
            runner.cond() == query@,
    {
        QueryRunner::new(&self.table, query)
    }

    /// The system that is due next on `ent`: the first one at or behind
    /// position `from` of the registry whose query selects the entity as
    /// it is now. None is due on an entity that is not active.
    pub fn next_system(&self, ent: Entity, from: usize) -> (next: Option<usize>)
        requires
            self.wf(),
        ensures
            match next {
                Some(i) => {
                    &&& from <= i < self@.queries.len()
                    &&& self@.table.is_active(ent)
                    &&& self@.queries[i as int].holds(self@.table.slots[ent as int].tags())
                    &&& forall|j: int|
                        from <= j < i ==> !(#[trigger] self@.queries[j]).holds(
                            self@.table.slots[ent as int].tags(),
                        )
                },
                None => !self@.table.is_active(ent) || forall|j: int|
                    from <= j < self@.queries.len() ==> !(#[trigger] self@.queries[j]).holds(
                        self@.table.slots[ent as int].tags(),
                    ),
            },
    {
        let count = self.iterative_systems.len();
        match self.table.components(ent) {
            Some(store) => {
                let mut index: usize = from;
                while index < count
                    invariant
                        from <= index,
                        count == self.iterative_systems@.len(),
                        count == self@.queries.len(),
                        self@.table.is_active(ent),
                        store@ == self@.table.slots[ent as int].components,
                        forall|j: int|
                            from <= j < index ==> !(#[trigger] self@.queries[j]).holds(
                                self@.table.slots[ent as int].tags(),
                            ),
                    decreases count - index,
                {
                    assert(self@.queries[index as int] == self.iterative_systems@[index as int].cond());
                    if self.iterative_systems[index].query.test(store) {
                        return Some(index);
                    }
                    index += 1;
                }
                None
            },
            None => None,
        }
    }

    /// Runs system `index` on `ent`: the entity's components are lent to
    /// an editor, the system is called with it, and what it hands back
    /// is taken back, a request for the removal of the entity included.
    /// The call is recorded with its outcome.
    fn run_system(&mut self, index: usize, ent: Entity)
        requires
            old(self).wf(),
            index < old(self)@.queries.len(),
            old(self)@.table.is_active(ent),
        ensures
            final(self).wf(),
            final(self)@.queries == old(self)@.queries,
            final(self)@.calls.len() == old(self)@.calls.len() + 1,
            final(self)@.calls.drop_last() == old(self)@.calls,
            final(self)@.calls.last().system == index,
            final(self)@.calls.last().ent == ent,
            final(self)@.calls.last().after == final(self)@.table.slots[ent as int].components,
            final(self)@.table == old(self)@.table.taken_back(
                ent,
                final(self)@.calls.last().after,
                final(self)@.calls.last().asked,
            ),
    {
        proof {
            lemma_with_slot_wf(self@.table, ent, SlotView::lent());
        }
        match self.table.check_out(ent) {
            Some(mut store) => {
                let mut editor = EntityEditor::new(ent, &mut store);
                self.iterative_systems[index].system.process(&mut editor, &self.table);
                let asked = editor.remove_requested;
                let ghost call = Call { system: index as int, ent, after: store@, asked };
                self.table.take_back(ent, store, asked);
                self.calls = Ghost(self.calls@.push(call));
                proof {
                    assert(self@.queries =~= old(self)@.queries);
                    assert(self@.calls.drop_last() =~= old(self)@.calls);
                    assert(self@.table.slots =~= old(self)@.table.taken_back(
                        ent,
                        call.after,
                        asked,
                    ).slots);
                }
            },
            None => {
                assert(false);
            },
        }
    }

    /// Visits `ent`: runs on it, in registration order, every system
    /// whose query selects the entity as it is when the system's turn
    /// comes.
    #[verifier::rlimit(50)]
    fn run_systems(&mut self, ent: Entity)
        requires
            old(self).wf(),
            old(self)@.table.is_active(ent),
        ensures
            final(self).wf(),
            final(self)@.queries == old(self)@.queries,
            old(self)@.calls.is_prefix_of(final(self)@.calls),
            old(self)@.visit(ent as int, final(self)@.calls.skip(old(self)@.calls.len() as int)),
            final(self)@.table == replayed(
                old(self)@.table,
                final(self)@.calls.skip(old(self)@.calls.len() as int),
            ),
            final(self)@.table.slots == old(self)@.table.with_components(
                ent,
                final(self)@.table.slots[ent as int].components,
            ).slots,
            final(self)@.table.free == old(self)@.table.free,
            old(self)@.table.dead.is_prefix_of(final(self)@.table.dead),
            forall|i: int|
                old(self)@.table.dead.len() <= i < final(self)@.table.dead.len() ==> (
                #[trigger] final(self)@.table.dead[i]) == ent,
            final(self)@.table != old(self)@.table ==> old(self)@.runs_on(ent),
    {
        let ghost start = self@;
        let ghost start_components = start.table.slots[ent as int].components;
        let count = self.iterative_systems.len();
        let mut from: usize = 0;
        proof {
            assert(self@.table.slots =~= start.table.with_components(
                ent,
                self@.table.slots[ent as int].components,
            ).slots);
            assert(self@.calls.skip(start.calls.len() as int) =~= Seq::<Call>::empty());
        }
        loop
            invariant
                start.table.wf(),
                start.table.at_rest(),
                start.table.is_active(ent),
                start_components == start.table.slots[ent as int].components,
                self.wf(),
                self@.queries == start.queries,
                self@.table.slots == start.table.with_components(
                    ent,
                    self@.table.slots[ent as int].components,
                ).slots,
                self@.table.free == start.table.free,
                start.table.dead.is_prefix_of(self@.table.dead),
                forall|i: int|
                    start.table.dead.len() <= i < self@.table.dead.len() ==> (
                    #[trigger] self@.table.dead[i]) == ent,
                self@.table != start.table ==> start.runs_on(ent),
                count == self@.queries.len(),
                from <= count,
                start.calls.is_prefix_of(self@.calls),
                visit_made(
                    start.queries,
                    ent,
                    start_components,
                    self@.calls.skip(start.calls.len() as int),
                    from as int,
                ),
                self@.calls.len() > start.calls.len() ==> self@.calls.last().system < from,
                components_after(start_components, self@.calls.skip(start.calls.len() as int))
                    == self@.table.slots[ent as int].components,
                self@.table == replayed(start.table, self@.calls.skip(start.calls.len() as int)),
            ensures
                visit_made(
                    start.queries,
                    ent,
                    start_components,
                    self@.calls.skip(start.calls.len() as int),
                    count as int,
                ),
            decreases count - from,
        {
            let ghost before = self@;
            let ghost made = self@.calls.skip(start.calls.len() as int);
            match self.next_system(ent, from) {
                Some(index) => {
                    proof {
                        if before.table == start.table {
                            assert(start.queries[index as int].holds(
                                start.table.slots[ent as int].tags(),
                            ));
                        }
                        lemma_visit_skips(
                            start.queries,
                            ent,
                            start_components,
                            made,
                            from as int,
                            index as int,
                        );
                    }
                    self.run_system(index, ent);
                    proof {
                        let longer = self@.calls.skip(start.calls.len() as int);
                        assert(self@.table.slots =~= start.table.with_components(
                            ent,
                            self@.table.slots[ent as int].components,
                        ).slots);
                        assert(longer.drop_last() =~= made);
                        assert(longer.last() == self@.calls.last());
                        assert(self@.calls.drop_last() == before.calls);
                        assert(start.calls.is_prefix_of(self@.calls)) by {
                            assert forall|k: int| 0 <= k < start.calls.len() implies start.calls[k]
                                == self@.calls[k] by {
                                assert(self@.calls[k] == self@.calls.drop_last()[k]);
                            }
                        }
                    }
                    from = index + 1;
                },
                None => {
                    proof {
                        lemma_visit_skips(
                            start.queries,
                            ent,
                            start_components,
                            made,
                            from as int,
                            count as int,
                        );
                    }
                    break ;
                },
            }
        }
    }

    /// One tick. The active entities are visited in ascending order of
    /// their indices; on each, the systems run in registration order,
    /// each one when its query selects the entity as it is at that
    /// moment. A system that asks for the removal of its entity has the
    /// request queued at once, behind the earlier ones. After the whole
    /// scan the queued removals are carried out, oldest request first.
    ///
    /// The contract says which calls are made, by the record of calls:
    /// the tick adds to it exactly the calls of a scan of all slots.
    /// What the systems do in those calls is theirs to decide; the
    /// record holds what each handed back, and the table after the tick
    /// is the drain of the table on which those outcomes were taken
    /// back in order. It follows that the scan changes nothing but the
    /// components of entities on which a system runs, and the removal
    /// queue, which it extends by such entities only.
    #[verifier::rlimit(50)]
    pub fn process(&mut self)
        requires
            old(self).wf(),
        ensures
            final(self).wf(),
            final(self)@.queries == old(self)@.queries,
            old(self)@.calls.is_prefix_of(final(self)@.calls),
            old(self)@.scan_made(
                final(self)@.calls.skip(old(self)@.calls.len() as int),
                old(self)@.table.slots.len() as int,
            ),
            final(self)@.table == replayed(
                old(self)@.table,
                final(self)@.calls.skip(old(self)@.calls.len() as int),
            ).drained(),
            exists|scanned: TableView| #[trigger]
                old(self)@.scan_result(scanned) && final(self)@.table == scanned.drained(),
    {
        let ghost start = self@;
        let mut from: usize = 0;
        proof {
            assert(self@.calls.skip(start.calls.len() as int) =~= Seq::<Call>::empty());
        }
        loop
            invariant
                start.table.wf(),
                self.wf(),
                self@.queries == start.queries,
                start.scan_result(self@.table),
                from <= start.table.slots.len(),
                start.calls.is_prefix_of(self@.calls),
                start.scan_made(self@.calls.skip(start.calls.len() as int), from as int),
                self@.table == replayed(start.table, self@.calls.skip(start.calls.len() as int)),
                forall|e: int|
                    from <= e < start.table.slots.len() ==> (#[trigger] self@.table.slots[e])
                        == start.table.slots[e],
            ensures
                start.scan_made(
                    self@.calls.skip(start.calls.len() as int),
                    start.table.slots.len() as int,
                ),
            decreases start.table.slots.len() - from,
        {
            let ghost before = self@;
            let ghost made = self@.calls.skip(start.calls.len() as int);
            match self.table.next_active(from) {
                Some(ent) => {
                    proof {
                        assert forall|e: Entity| from <= e < ent implies !start.table.is_active(
                            e,
                        ) by {
                            assert(!before.table.is_active(e));
                            assert(before.table.slots[e as int].valid
                                == start.table.slots[e as int].valid);
                        }
                        lemma_scan_skips(start, made, from as int, ent as int);
                    }
                    self.run_systems(ent);
                    proof {
                        let count = start.table.slots.len();
                        let visit = self@.calls.skip(before.calls.len() as int);
                        let longer = self@.calls.skip(start.calls.len() as int);
                        assert(longer =~= made + visit);
                        assert(longer.take(made.len() as int) =~= made);
                        assert(longer.skip(made.len() as int) =~= visit);
                        assert(start.visit(ent as int, visit));
                        assert(start.scan_made(longer, ent + 1));
                        lemma_replayed_add(start.table, made, visit);
                        assert forall|e: int|
                            0 <= e < count && !start.runs_on(e as Entity) implies (
                        #[trigger] self@.table.slots[e]) == start.table.slots[e] by {
                            assert(before.table.slots[e] == start.table.slots[e]);
                            if e == ent {
                                assert(before.runs_on(ent) == start.runs_on(ent));
                            }
                        }
                        assert forall|i: int|
                            start.table.dead.len() <= i
                                < self@.table.dead.len() implies start.runs_on(
                            #[trigger] self@.table.dead[i],
                        ) by {
                            if i >= before.table.dead.len() {
                                assert(self@.table.dead[i] == ent);
                                if !start.runs_on(ent) {
                                    assert(before.table.slots[ent as int]
                                        == start.table.slots[ent as int]);
                                    assert(before.runs_on(ent) == start.runs_on(ent));
                                }
                            } else {
                                assert(self@.table.dead[i] == before.table.dead[i]);
                            }
                        }
                    }
                    from = ent + 1;
                },
                None => {
                    proof {
                        assert forall|e: Entity|
                            from <= e < start.table.slots.len() implies !start.table.is_active(
                            e,
                        ) by {
                            assert(!before.table.is_active(e));
                            assert(before.table.slots[e as int].valid
                                == start.table.slots[e as int].valid);
                        }
                        lemma_scan_skips(
                            start,
                            made,
                            from as int,
                            start.table.slots.len() as int,
                        );
                    }
                    break ;
                },
            }
        }
        self.table.drain();
    }
}

/// A visit in which no system between two positions is due makes no call
/// there.
proof fn lemma_visit_skips(
    queries: Seq<Cond>,
    ent: Entity,
    start: Seq<Component>,
    made: Seq<Call>,
    from: int,
    upto: int,
)
    requires
        0 <= from <= upto,
        visit_made(queries, ent, start, made, from),
        made.len() > 0 ==> made.last().system < from,
        forall|j: int|
            from <= j < upto ==> !(#[trigger] queries[j]).holds(
                tags_of(components_after(start, made)),
            ),
    ensures
        visit_made(queries, ent, start, made, upto),
    decreases upto - from,
{
    if from < upto {
        lemma_visit_skips(queries, ent, start, made, from, upto - 1);
        assert(!queries[upto - 1].holds(tags_of(components_after(start, made))));
    }
}

/// A scan makes no call on slots that hold no live entity.
proof fn lemma_scan_skips(world: WorldView, made: Seq<Call>, from: int, upto: int)
    requires
        0 <= from <= upto <= usize::MAX,
        world.scan_made(made, from),
        forall|e: Entity| from <= e < upto ==> !world.table.is_active(e),
    ensures
        world.scan_made(made, upto),
    decreases upto - from,
{
    if from < upto {
        lemma_scan_skips(world, made, from, upto - 1);
        assert(made.take(made.len() as int) =~= made);
        assert(made.skip(made.len() as int) =~= Seq::<Call>::empty());
        assert(!world.table.is_active((upto - 1) as Entity));
        assert(world.visit(upto - 1, made.skip(made.len() as int)));
    }
}

/// The calls of one visit: all are on the visited entity, their systems
/// come in ascending order of registration, and each system's query held
/// of the components as they were at its turn. When calls were made, the
/// first went to the first system whose query holds of the components
/// from before the visit; when none was made, no query holds of them.
#[verifier::rlimit(50)]
pub proof fn lemma_visit_calls(
    queries: Seq<Cond>,
    ent: Entity,
    start: Seq<Component>,
    made: Seq<Call>,
    upto: int,
)
    requires
        visit_made(queries, ent, start, made, upto),
    ensures
        forall|k: int|
            0 <= k < made.len() ==> (#[trigger] made[k]).ent == ent && 0 <= made[k].system < upto,
        forall|k: int, l: int|
            0 <= k < l < made.len() ==> (#[trigger] made[k]).system < (#[trigger] made[l]).system,
        forall|k: int|
            0 <= k < made.len() ==> queries[(#[trigger] made[k]).system].holds(
                tags_of(components_after(start, made.take(k))),
            ),
        made.len() > 0 ==> forall|j: int|
            0 <= j < made[0].system ==> !(#[trigger] queries[j]).holds(tags_of(start)),
        made.len() == 0 ==> forall|j: int|
            0 <= j < upto ==> !(#[trigger] queries[j]).holds(tags_of(start)),
    decreases upto,
{
    if upto > 0 {
        if made.len() > 0 && made.last().system == upto - 1 {
            let rest = made.drop_last();
            lemma_visit_calls(queries, ent, start, rest, upto - 1);
            assert forall|k: int| 0 <= k < made.len() implies queries[(
            #[trigger] made[k]).system].holds(tags_of(components_after(start, made.take(k)))) by {
                if k < rest.len() {
                    assert(made[k] == rest[k]);
                    assert(made.take(k) =~= rest.take(k));
                } else {
                    assert(made.take(k) =~= rest);
                }
            }
            assert forall|k: int, l: int| 0 <= k < l < made.len() implies (#[trigger] made[k]).system
                < (#[trigger] made[l]).system by {
                assert(made[k] == rest[k]);
                if l < rest.len() {
                    assert(made[l] == rest[l]);
                }
            }
            assert forall|k: int| 0 <= k < made.len() implies (#[trigger] made[k]).ent == ent && 0
                <= made[k].system < upto by {
                if k < rest.len() {
                    assert(made[k] == rest[k]);
                }
            }
            if rest.len() > 0 {
                assert(made[0] == rest[0]);
            } else {
                assert(components_after(start, rest) == start);
            }
        } else {
            lemma_visit_calls(queries, ent, start, made, upto - 1);
            if made.len() == 0 {
                assert(components_after(start, made) == start);
            }
        }
    }
}

/// Each call of a scan is on an entity that was active before the scan,
/// and went to a registered system.
#[verifier::rlimit(50)]
pub proof fn lemma_scan_calls(world: WorldView, made: Seq<Call>, upto: int)
    requires
        world.scan_made(made, upto),
        upto <= usize::MAX,
    ensures
        forall|k: int|
            0 <= k < made.len() ==> {
                &&& 0 <= (#[trigger] made[k]).ent < upto
                &&& world.table.is_active(made[k].ent)
                &&& 0 <= made[k].system < world.queries.len()
            },
    decreases upto,
{
    if upto > 0 {
        let n = choose|n: int|
            0 <= n <= made.len() && world.scan_made(#[trigger] made.take(n), upto - 1)
                && world.visit(upto - 1, made.skip(n));
        let head = made.take(n);
        let tail = made.skip(n);
        lemma_scan_calls(world, head, upto - 1);
        if world.table.is_active((upto - 1) as Entity) {
            lemma_visit_calls(
                world.queries,
                (upto - 1) as Entity,
                world.table.slots[upto - 1].components,
                tail,
                world.queries.len() as int,
            );
        }
        assert forall|k: int| 0 <= k < made.len() implies {
            &&& 0 <= (#[trigger] made[k]).ent < upto
            &&& world.table.is_active(made[k].ent)
            &&& 0 <= made[k].system < world.queries.len()
        } by {
            if k < n {
                assert(made[k] == head[k]);
            } else {
                assert(made[k] == tail[k - n]);
            }
        }
    }
}

/// The calls of a scan come in the order of the scan: by ascending
/// entity, and on one entity by ascending position of the system in the
/// registry.
#[verifier::rlimit(50)]
pub proof fn lemma_scan_order(world: WorldView, made: Seq<Call>, upto: int, k: int, l: int)
    requires
        world.scan_made(made, upto),
        upto <= usize::MAX,
        0 <= k < l < made.len(),
    ensures
        made[k].ent < made[l].ent || (made[k].ent == made[l].ent && made[k].system
            < made[l].system),
    decreases upto,
{
    let n = choose|n: int|
        0 <= n <= made.len() && world.scan_made(#[trigger] made.take(n), upto - 1) && world.visit(
            upto - 1,
            made.skip(n),
        );
    let head = made.take(n);
    let tail = made.skip(n);
    if l < n {
        lemma_scan_order(world, head, upto - 1, k, l);
        assert(made[k] == head[k]);
        assert(made[l] == head[l]);
    } else {
        assert(made[l] == tail[l - n]);
        assert(tail.len() > 0);
        lemma_visit_calls(
            world.queries,
            (upto - 1) as Entity,
            world.table.slots[upto - 1].components,
            tail,
            world.queries.len() as int,
        );
        if k < n {
            lemma_scan_calls(world, head, upto - 1);
            assert(made[k] == head[k]);
        } else {
            assert(made[k] == tail[k - n]);
        }
    }
}

/// A visit makes a call exactly when a system is due on the entity as
/// it is before the visit, and every call of the visit is on that
/// entity.
pub proof fn lemma_visit_called(world: WorldView, ent: Entity, made: Seq<Call>)
    requires
        world.visit(ent as int, made),
    ensures
        (made.len() > 0) == world.runs_on(ent),
        forall|k: int| 0 <= k < made.len() ==> (#[trigger] made[k]).ent == ent,
{
    if world.table.is_active(ent) {
        let components = world.table.slots[ent as int].components;
        lemma_visit_calls(world.queries, ent, components, made, world.queries.len() as int);
        assert(tags_of(components) == world.table.slots[ent as int].tags());
        if made.len() > 0 {
            assert(made.take(0) =~= Seq::<Call>::empty());
            assert(world.queries[made[0].system].holds(tags_of(components)));
        }
    }
}

/// Whether some call of `made` is on `ent`.
pub open spec fn called_on(made: Seq<Call>, ent: Entity) -> bool {
    exists|k: int| 0 <= k < made.len() && (#[trigger] made[k]).ent == ent
}

/// A scan calls a system on an entity exactly when a system was due on
/// it before the scan: an entity that no query selected gets no call,
/// and an entity that some query selected gets one.
#[verifier::rlimit(50)]
pub proof fn lemma_scan_calls_selected(world: WorldView, made: Seq<Call>, upto: int, ent: Entity)
    requires
        world.scan_made(made, upto),
        upto <= usize::MAX,
        ent < upto,
    ensures
        world.runs_on(ent) == called_on(made, ent),
    decreases upto,
{
    let n = choose|n: int|
        0 <= n <= made.len() && world.scan_made(#[trigger] made.take(n), upto - 1) && world.visit(
            upto - 1,
            made.skip(n),
        );
    let head = made.take(n);
    let tail = made.skip(n);
    let last = (upto - 1) as Entity;
    lemma_visit_called(world, last, tail);
    lemma_scan_calls(world, head, upto - 1);
    if ent < last {
        lemma_scan_calls_selected(world, head, upto - 1, ent);
    }
    if called_on(made, ent) {
        let k = choose|k: int| 0 <= k < made.len() && (#[trigger] made[k]).ent == ent;
        if k < n {
            assert(made[k] == head[k]);
            assert(called_on(head, ent));
        } else {
            assert(made[k] == tail[k - n]);
        }
    }
    if ent < last && called_on(head, ent) {
        let k = choose|k: int| 0 <= k < head.len() && (#[trigger] head[k]).ent == ent;
        assert(made[k] == head[k]);
    }
    if ent == last && tail.len() > 0 {
        assert(made[n] == tail[0]);
    }
}

/// Taking back the outcomes of calls on active entities keeps the
/// invariant and every entity active, leaves the free list alone, and
/// extends the removal queue by nothing but entities whose call asked
/// for their removal.
#[verifier::rlimit(50)]
pub proof fn lemma_replayed(table: TableView, made: Seq<Call>)
    requires
        table.wf(),
        forall|k: int| 0 <= k < made.len() ==> table.is_active((#[trigger] made[k]).ent),
    ensures
        replayed(table, made).wf(),
        replayed(table, made).slots.len() == table.slots.len(),
        replayed(table, made).free == table.free,
        forall|e: int|
            0 <= e < table.slots.len() ==> (#[trigger] replayed(table, made).slots[e]).valid
                == table.slots[e].valid,
        table.dead.is_prefix_of(replayed(table, made).dead),
        forall|i: int|
            table.dead.len() <= i < replayed(table, made).dead.len() ==> asked_for(
                made,
                #[trigger] replayed(table, made).dead[i],
            ),
        forall|k: int|
            0 <= k < made.len() && (#[trigger] made[k]).asked ==> replayed(
                table,
                made,
            ).dead.contains(made[k].ent),
    decreases made.len(),
{
    if made.len() > 0 {
        let rest = made.drop_last();
        let last = made.last();
        assert forall|k: int| 0 <= k < rest.len() implies table.is_active(
            (#[trigger] rest[k]).ent,
        ) by {
            assert(rest[k] == made[k]);
        }
        lemma_replayed(table, rest);
        let mid = replayed(table, rest);
        let held = mid.with_slot(last.ent, SlotView::holding(last.after));
        assert(table.is_active(last.ent));
        lemma_with_slot_wf(mid, last.ent, SlotView::holding(last.after));
        let after = replayed(table, made);
        assert(after == mid.taken_back(last.ent, last.after, last.asked));
        assert forall|i: int| table.dead.len() <= i < after.dead.len() implies asked_for(
            made,
            #[trigger] after.dead[i],
        ) by {
            if i < mid.dead.len() {
                assert(after.dead[i] == mid.dead[i]);
                assert(asked_for(rest, mid.dead[i]));
                let k = choose|k: int|
                    0 <= k < rest.len() && (#[trigger] rest[k]).asked && rest[k].ent == mid.dead[i];
                assert(made[k] == rest[k]);
            } else {
                assert(made[made.len() - 1] == last);
                assert(last.asked);
            }
        }
        assert forall|i: int| 0 <= i < after.dead.len() implies #[trigger] after.dead[i]
            < after.slots.len() by {
            if i < mid.dead.len() {
                assert(after.dead[i] == mid.dead[i]);
            }
        }
        assert forall|k: int| 0 <= k < made.len() && (#[trigger] made[k]).asked implies after.dead.contains(
            made[k].ent,
        ) by {
            if k < rest.len() {
                assert(made[k] == rest[k]);
                let i = choose|i: int| 0 <= i < mid.dead.len() && mid.dead[i] == rest[k].ent;
                assert(after.dead[i] == mid.dead[i]);
            } else {
                assert(after.dead[mid.dead.len() as int] == last.ent);
            }
        }
    }
}

/// A removal that a system asks for is carried out at the end of the
/// tick: the entity of a call that asked for it is not active after the
/// tick.
pub proof fn lemma_tick_removes_asked(world: WorldView, made: Seq<Call>, k: int)
    requires
        world.table.wf(),
        world.scan_made(made, world.table.slots.len() as int),
        0 <= k < made.len(),
        made[k].asked,
    ensures
        !replayed(world.table, made).drained().is_active(made[k].ent),
{
    lemma_scan_calls(world, made, world.table.slots.len() as int);
    lemma_replayed(world.table, made);
    let scanned = replayed(world.table, made);
    lemma_dropped_all_valid(scanned, scanned.dead);
}

/// Identity is stable across a tick: an entity that is active before the
/// tick, whose removal is not pending and for whose removal no system
/// asks during the tick, is active after the tick, with no removal
/// pending.
pub proof fn lemma_tick_keeps_identity(world: WorldView, made: Seq<Call>, ent: Entity)
    requires
        world.table.wf(),
        world.scan_made(made, world.table.slots.len() as int),
        world.table.settled(ent),
        forall|k: int| 0 <= k < made.len() && (#[trigger] made[k]).ent == ent ==> !made[k].asked,
    ensures
        replayed(world.table, made).drained().settled(ent),
{
    lemma_scan_calls(world, made, world.table.slots.len() as int);
    lemma_replayed(world.table, made);
    let scanned = replayed(world.table, made);
    if scanned.dead.contains(ent) {
        let i = choose|i: int| 0 <= i < scanned.dead.len() && scanned.dead[i] == ent;
        if i < world.table.dead.len() {
            assert(world.table.dead[i] == ent);
        } else {
            assert(asked_for(made, scanned.dead[i]));
            let k = choose|k: int|
                0 <= k < made.len() && (#[trigger] made[k]).asked && made[k].ent == scanned.dead[i];
            assert(!made[k].asked);
        }
    }
    lemma_dropped_all_valid(scanned, scanned.dead);
}

/// Taking back the outcomes of two runs of calls, one after the other,
/// is taking back those of the whole.
pub proof fn lemma_replayed_add(table: TableView, first: Seq<Call>, second: Seq<Call>)
    ensures
        replayed(table, first + second) == replayed(replayed(table, first), second),
    decreases second.len(),
{
    if second.len() == 0 {
        assert(first + second =~= first);
    } else {
        lemma_replayed_add(table, first, second.drop_last());
        assert((first + second).drop_last() =~= first + second.drop_last());
        assert((first + second).last() == second.last());
    }
}

/// Whatever an editor makes of the components of an active entity of a
/// table at rest, the table keeps its invariant and stays at rest.
proof fn lemma_edit_keeps_wf(table: TableView, ent: Entity)
    requires
        table.wf(),
        table.at_rest(),
    ensures
        forall|components: Seq<Component>|
            table.is_active(ent) ==> (#[trigger] table.with_components(ent, components)).wf()
                && table.with_components(ent, components).at_rest(),
{
    assert forall|components: Seq<Component>| table.is_active(ent) implies (
    #[trigger] table.with_components(ent, components)).wf() && table.with_components(
        ent,
        components,
    ).at_rest() by {
        lemma_with_components_wf(table, ent, components);
    }
}

/// A tick leaves alone what no system runs on: an entity that no query
/// selected before the tick, and every vacant slot, is afterwards what
/// the drain alone would have made of it.
pub proof fn lemma_tick_spares_unselected(world: WorldView, scanned: TableView, ent: Entity)
    requires
        world.table.wf(),
        world.scan_result(scanned),
        ent < world.table.slots.len(),
        !world.runs_on(ent),
    ensures
        scanned.drained().slots.len() == world.table.slots.len(),
        scanned.drained().slots[ent as int] == world.table.drained().slots[ent as int],
{
    lemma_drained_slots(world.table);
    lemma_drained_slots(scanned);
    if scanned.dead.contains(ent) {
        let i = choose|i: int| 0 <= i < scanned.dead.len() && scanned.dead[i] == ent;
        if i < world.table.dead.len() {
            assert(world.table.dead[i] == ent);
        }
    }
    if world.table.dead.contains(ent) {
        let i = choose|i: int| 0 <= i < world.table.dead.len() && world.table.dead[i] == ent;
        assert(scanned.dead[i] == ent);
    }
    assert(scanned.slots[ent as int] == world.table.slots[ent as int]);
}

} // verus!
