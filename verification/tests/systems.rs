use apollo_ecs::query::Matchers;
use apollo_ecs::systems::IterativeSystem;
use apollo_ecs::table::{AccessError, EntityTable};
use apollo_ecs::{Entity, EntityEditor, EntityQuery, World};
use std::cell::Cell;
use std::cell::RefCell;
use std::rc::Rc;

struct A;
struct B;
struct C;

struct Number(i64);

struct TestSystem {
    matched: Rc<Cell<i32>>,
}

impl IterativeSystem for TestSystem {
    fn get_query() -> EntityQuery {
        EntityQuery::new(Matchers::with::<A>().with::<B>().and(Matchers::without::<C>()))
    }

    fn process(&mut self, _ent: &mut EntityEditor<'_>, _world: &EntityTable) {
        self.matched.set(self.matched.get() + 1);
    }
}

#[test]
fn test_iterative_system() {
    let matched = Rc::new(Cell::new(0));
    let mut world = World::new();
    world.register_iterative_system(TestSystem { matched: Rc::clone(&matched) });

    let ent = world.create_entity();
    world.add_component(ent, A);
    world.add_component(ent, B);

    let ent = world.create_entity();
    world.add_component(ent, A);
    world.add_component(ent, B);

    let ent = world.create_entity();
    world.add_component(ent, A);
    world.add_component(ent, B);
    world.add_component(ent, C);

    let ent = world.create_entity();
    world.add_component(ent, A);
    world.add_component(ent, B);

    world.process();

    assert_eq!(matched.get(), 3);
}

struct Recorder {
    seen: Rc<RefCell<Vec<Entity>>>,
}

impl IterativeSystem for Recorder {
    fn get_query() -> EntityQuery {
        Matchers::with::<A>().build()
    }

    fn process(&mut self, ent: &mut EntityEditor<'_>, _world: &EntityTable) {
        self.seen.borrow_mut().push(ent.entity());
    }
}

#[test]
fn a_removed_entity_is_still_processed_in_the_same_tick() {
    let seen = Rc::new(RefCell::new(Vec::new()));
    let mut world = World::new();
    world.register_iterative_system(Recorder { seen: Rc::clone(&seen) });
    let mut ents = Vec::new();
    for _ in 0..4 {
        let e = world.create_entity();
        world.add_component(e, A);
        ents.push(e);
    }
    world.remove_entity(ents[1]);

    world.process();
    assert_eq!(seen.borrow().len(), 4);
    assert_eq!(*seen.borrow(), vec![0, 1, 2, 3]);

    seen.borrow_mut().clear();
    world.process();
    assert_eq!(seen.borrow().len(), 3);
    assert_eq!(*seen.borrow(), vec![0, 2, 3]);
}

struct Increment;

impl IterativeSystem for Increment {
    fn get_query() -> EntityQuery {
        Matchers::with::<Number>().build()
    }

    fn process(&mut self, ent: &mut EntityEditor<'_>, _world: &EntityTable) {
        ent.get::<Number>().unwrap().0 += 1;
    }
}

struct Double;

impl IterativeSystem for Double {
    fn get_query() -> EntityQuery {
        Matchers::with::<Number>().build()
    }

    fn process(&mut self, ent: &mut EntityEditor<'_>, _world: &EntityTable) {
        ent.get::<Number>().unwrap().0 *= 2;
    }
}

#[test]
fn systems_run_in_registration_order() {
    let mut world = World::new();
    world.register_iterative_system(Increment);
    world.register_iterative_system(Double);
    let ent = world.create_entity();
    world.add_component(ent, Number(1));

    world.process();
    assert_eq!(world.get_component::<Number>(ent).unwrap().0, 4);

    world.process();
    assert_eq!(world.get_component::<Number>(ent).unwrap().0, 10);
}

#[test]
fn the_other_registration_order_gives_the_other_result() {
    let mut world = World::new();
    world.register_iterative_system(Double);
    world.register_iterative_system(Increment);
    let ent = world.create_entity();
    world.add_component(ent, Number(1));

    world.process();
    assert_eq!(world.get_component::<Number>(ent).unwrap().0, 3);
}

struct Promote;

impl IterativeSystem for Promote {
    fn get_query() -> EntityQuery {
        Matchers::with::<A>().without::<B>().build()
    }

    fn process(&mut self, ent: &mut EntityEditor<'_>, _world: &EntityTable) {
        ent.add(B);
    }
}

struct CountB {
    count: Rc<Cell<i32>>,
}

impl IterativeSystem for CountB {
    fn get_query() -> EntityQuery {
        Matchers::with::<B>().build()
    }

    fn process(&mut self, _ent: &mut EntityEditor<'_>, _world: &EntityTable) {
        self.count.set(self.count.get() + 1);
    }
}

#[test]
fn a_later_system_sees_what_an_earlier_one_added() {
    let count = Rc::new(Cell::new(0));
    let mut world = World::new();
    world.register_iterative_system(Promote);
    world.register_iterative_system(CountB { count: Rc::clone(&count) });
    let ent = world.create_entity();
    world.add_component(ent, A);

    world.process();
    assert_eq!(count.get(), 1);
    assert!(world.has_component::<B>(ent));
    assert_eq!(world.entities().components(ent).unwrap().len(), 2);

    world.process();
    assert_eq!(count.get(), 2);
    assert_eq!(world.entities().components(ent).unwrap().len(), 2);
}

struct Census {
    others_with_a: Rc<Cell<usize>>,
    own_visible: Rc<Cell<bool>>,
    own_access: Rc<Cell<Option<AccessError>>>,
}

impl IterativeSystem for Census {
    fn get_query() -> EntityQuery {
        Matchers::with::<C>().build()
    }

    fn process(&mut self, ent: &mut EntityEditor<'_>, world: &EntityTable) {
        let mut n = 0;
        for other in 0..world.len() {
            if world.has_component::<A>(other) {
                n += 1;
            }
        }
        self.others_with_a.set(n);
        self.own_visible.set(world.has_component::<C>(ent.entity()));
        self.own_access.set(world.access(ent.entity()).err());
        assert!(world.components(ent.entity()).is_none());
        assert!(world.access(0).is_ok());
        assert!(world.is_valid(ent.entity()));
        assert!(ent.has::<C>());
    }
}

#[test]
fn a_system_reads_the_other_entities_through_the_table() {
    let others = Rc::new(Cell::new(0));
    let own = Rc::new(Cell::new(true));
    let access = Rc::new(Cell::new(None));
    let mut world = World::new();
    world.register_iterative_system(Census {
        others_with_a: Rc::clone(&others),
        own_visible: Rc::clone(&own),
        own_access: Rc::clone(&access),
    });
    for _ in 0..3 {
        let e = world.create_entity();
        world.add_component(e, A);
    }
    let me = world.create_entity();
    world.add_component(me, A);
    world.add_component(me, C);

    world.process();
    // the entity in process is in the editor's hands alone
    assert_eq!(others.get(), 3);
    assert_eq!(own.get(), false);
    assert_eq!(access.get(), Some(AccessError::BorrowConflict));
    assert!(world.entities().access(me).is_ok());
    assert!(world.has_component::<C>(me));
    assert!(world.has_component::<A>(me));
}

#[test]
fn vacant_slots_are_not_processed() {
    let seen = Rc::new(RefCell::new(Vec::new()));
    let mut world = World::new();
    world.register_iterative_system(Recorder { seen: Rc::clone(&seen) });
    for _ in 0..3 {
        let e = world.create_entity();
        world.add_component(e, A);
    }
    world.drop_entity(1);
    world.process();
    assert_eq!(*seen.borrow(), vec![0, 2]);
}

#[test]
fn a_system_can_be_registered_under_any_query() {
    let seen = Rc::new(RefCell::new(Vec::new()));
    let mut world = World::new();
    world.register_system_with(
        Box::new(Recorder { seen: Rc::clone(&seen) }),
        Matchers::without::<A>().build(),
    );
    let with_a = world.create_entity();
    world.add_component(with_a, A);
    let without_a = world.create_entity();
    world.process();
    assert_eq!(*seen.borrow(), vec![without_a]);
}

#[test]
fn a_tick_without_systems_only_drains() {
    let mut world = World::new();
    let a = world.create_entity();
    let b = world.create_entity();
    world.add_component(b, Number(5));
    world.remove_entity(a);
    world.process();
    assert!(!world.entities().is_valid(a));
    assert!(world.entities().is_valid(b));
    assert_eq!(world.get_component::<Number>(b).unwrap().0, 5);
}

struct Reaper {
    victim: Entity,
}

impl IterativeSystem for Reaper {
    fn get_query() -> EntityQuery {
        Matchers::with::<A>().build()
    }

    fn process(&mut self, ent: &mut EntityEditor<'_>, world: &EntityTable) {
        if ent.entity() == self.victim {
            ent.remove();
            // the request is deferred: the entity is still live
            assert!(world.is_valid(ent.entity()));
            assert!(ent.has::<A>());
        }
    }
}

#[test]
fn a_system_can_ask_for_the_removal_of_its_entity_during_the_scan() {
    let seen = Rc::new(RefCell::new(Vec::new()));
    let mut world = World::new();
    world.register_iterative_system(Reaper { victim: 1 });
    world.register_iterative_system(Recorder { seen: Rc::clone(&seen) });
    for _ in 0..4 {
        let e = world.create_entity();
        world.add_component(e, A);
    }

    world.process();
    // the later system still ran on the entity in the same tick
    assert_eq!(*seen.borrow(), vec![0, 1, 2, 3]);
    assert!(!world.entities().is_valid(1));
    assert!(world.entities().is_valid(0));
    assert!(world.entities().is_valid(2));

    seen.borrow_mut().clear();
    world.process();
    assert_eq!(*seen.borrow(), vec![0, 2, 3]);
    assert_eq!(world.create_entity(), 1);
    assert_eq!(world.entities().components(1).unwrap().len(), 0);
}

#[test]
fn requests_are_served_in_the_order_in_which_they_were_made() {
    let mut world = World::new();
    world.register_iterative_system(Reaper { victim: 0 });
    for _ in 0..3 {
        let e = world.create_entity();
        world.add_component(e, A);
    }
    // asked for before the tick: ahead of what the systems ask for
    world.remove_entity(2);
    world.process();
    assert_eq!(world.create_entity(), 2);
    assert_eq!(world.create_entity(), 0);
    assert_eq!(world.create_entity(), 3);
}

#[test]
fn two_requests_for_one_entity_free_its_slot_once() {
    let mut world = World::new();
    world.register_iterative_system(Reaper { victim: 0 });
    world.register_iterative_system(Reaper { victim: 0 });
    let e = world.create_entity();
    world.add_component(e, A);
    world.remove_entity(e);
    world.process();
    assert!(!world.entities().is_valid(e));
    assert_eq!(world.create_entity(), e);
    assert_eq!(world.create_entity(), e + 1);
}

#[test]
fn a_request_on_an_editor_outside_a_tick_has_no_effect() {
    let mut world = World::new();
    let e = world.create_entity();
    {
        let mut editor = world.edit(e).unwrap();
        assert!(!editor.remove_requested);
        editor.remove();
        assert!(editor.remove_requested);
    }
    world.process();
    assert!(world.entities().is_valid(e));
}

#[test]
fn the_next_system_is_the_first_whose_query_holds() {
    let count = Rc::new(Cell::new(0));
    let mut world = World::new();
    world.register_iterative_system(Promote);
    world.register_iterative_system(CountB { count: Rc::clone(&count) });
    world.register_iterative_system(Increment);

    let only_a = world.create_entity();
    world.add_component(only_a, A);
    let only_b = world.create_entity();
    world.add_component(only_b, B);
    let bare = world.create_entity();
    let numbered = world.create_entity();
    world.add_component(numbered, A);
    world.add_component(numbered, Number(1));

    // Promote asks for A without B, CountB for B, Increment for Number
    assert_eq!(world.next_system(only_a, 0), Some(0));
    assert_eq!(world.next_system(only_a, 1), None);
    assert_eq!(world.next_system(only_b, 0), Some(1));
    assert_eq!(world.next_system(only_b, 1), Some(1));
    assert_eq!(world.next_system(only_b, 2), None);
    assert_eq!(world.next_system(bare, 0), None);
    assert_eq!(world.next_system(numbered, 0), Some(0));
    assert_eq!(world.next_system(numbered, 1), Some(2));
    assert_eq!(world.next_system(numbered, 3), None);
    assert_eq!(world.next_system(numbered, 99), None);
}

#[test]
fn the_next_system_is_chosen_by_the_components_of_the_moment() {
    let count = Rc::new(Cell::new(0));
    let mut world = World::new();
    world.register_iterative_system(Promote);
    world.register_iterative_system(CountB { count: Rc::clone(&count) });
    let ent = world.create_entity();
    world.add_component(ent, A);

    assert_eq!(world.next_system(ent, 0), Some(0));
    assert_eq!(world.next_system(ent, 1), None);
    // what the first system does decides whether the second is due
    world.add_component(ent, B);
    assert_eq!(world.next_system(ent, 0), Some(1));
    assert_eq!(world.next_system(ent, 1), Some(1));
}

#[test]
fn no_system_is_due_on_an_entity_that_is_not_active() {
    let seen = Rc::new(RefCell::new(Vec::new()));
    let mut world = World::new();
    world.register_system_with(
        Box::new(Recorder { seen: Rc::clone(&seen) }),
        Matchers::any().build(),
    );
    let kept = world.create_entity();
    let freed = world.create_entity();
    world.drop_entity(freed);

    assert_eq!(world.next_system(kept, 0), Some(0));
    assert_eq!(world.next_system(freed, 0), None);
    assert_eq!(world.next_system(freed + 1, 0), None);
    world.process();
    assert_eq!(*seen.borrow(), vec![kept]);
}

#[test]
fn the_counting_system_is_due_on_three_of_four_entities() {
    let matched = Rc::new(Cell::new(0));
    let mut world = World::new();
    world.register_iterative_system(TestSystem { matched: Rc::clone(&matched) });
    for with_c in [false, false, true, false] {
        let ent = world.create_entity();
        world.add_component(ent, A);
        world.add_component(ent, B);
        if with_c {
            world.add_component(ent, C);
        }
    }
    assert_eq!(world.next_system(0, 0), Some(0));
    assert_eq!(world.next_system(1, 0), Some(0));
    assert_eq!(world.next_system(2, 0), None);
    assert_eq!(world.next_system(3, 0), Some(0));
}
