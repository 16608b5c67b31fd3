use apollo_ecs::components::{Component, ComponentStore};
use apollo_ecs::tag::TypeTag;
use apollo_ecs::EntityEditor;
use std::rc::Rc;

struct A;
struct B;

#[derive(Debug, PartialEq)]
struct Health(u32);

#[test]
fn test_add() {
    let mut comps = ComponentStore::new();
    {
        let mut editor = EntityEditor::new(1, &mut comps);
        editor.add(A);
    }

    assert_eq!(comps.len(), 1);
}

#[test]
fn editor_reports_its_entity() {
    let mut comps = ComponentStore::new();
    let editor = EntityEditor::new(7, &mut comps);
    assert_eq!(editor.entity(), 7);
    assert_eq!(editor.ent, 7);
}

#[test]
fn editor_has_follows_add() {
    let mut comps = ComponentStore::new();
    let mut editor = EntityEditor::new(0, &mut comps);
    assert!(!editor.has::<A>());
    editor.add(A);
    assert!(editor.has::<A>());
    assert!(!editor.has::<B>());
}

#[test]
fn editor_get_returns_the_stored_value() {
    let mut comps = ComponentStore::new();
    let mut editor = EntityEditor::new(0, &mut comps);
    editor.add(Health(10));
    assert_eq!(editor.get::<Health>(), Some(&mut Health(10)));
    editor.get::<Health>().unwrap().0 = 25;
    assert_eq!(editor.get::<Health>().unwrap().0, 25);
    assert!(editor.get::<A>().is_none());
}

#[test]
fn editor_writes_reach_the_store() {
    let mut comps = ComponentStore::new();
    {
        let mut editor = EntityEditor::new(3, &mut comps);
        editor.add(Health(1));
        editor.get::<Health>().unwrap().0 += 4;
    }
    assert_eq!(comps.get_ref::<Health>(), Some(&Health(5)));
}

#[test]
fn tags_are_equal_exactly_for_equal_types() {
    assert_eq!(TypeTag::of::<A>(), TypeTag::of::<A>());
    assert_ne!(TypeTag::of::<A>(), TypeTag::of::<B>());
    assert_ne!(TypeTag::of::<u32>(), TypeTag::of::<i32>());
    assert_ne!(TypeTag::of::<Box<u32>>(), TypeTag::of::<u32>());
}

#[test]
fn component_carries_the_tag_of_its_type() {
    let c = Component::new(Health(3));
    assert_eq!(c.type_tag(), TypeTag::of::<Health>());
    assert_ne!(c.type_tag(), TypeTag::of::<A>());
}

#[test]
fn component_downcast_is_checked() {
    let mut c = Component::new(Health(3));
    assert_eq!(c.get_ref::<Health>(), Some(&Health(3)));
    assert!(c.get_ref::<u32>().is_none());
    assert!(c.get_mut::<A>().is_none());
    c.get_mut::<Health>().unwrap().0 = 9;
    assert_eq!(c.get_ref::<Health>(), Some(&Health(9)));
}

#[test]
fn store_keeps_duplicates_and_reports_the_first() {
    let mut store = ComponentStore::new();
    store.add(Health(1));
    store.add(A);
    store.add(Health(2));
    assert_eq!(store.len(), 3);
    assert_eq!(store.position(TypeTag::of::<Health>()), Some(0));
    assert_eq!(store.position(TypeTag::of::<A>()), Some(1));
    assert_eq!(store.position(TypeTag::of::<B>()), None);
    assert_eq!(store.get::<Health>(), Some(&mut Health(1)));
    store.get::<Health>().unwrap().0 = 7;
    assert_eq!(store.get_ref::<Health>(), Some(&Health(7)));
    assert_eq!(store.len(), 3);
}

#[test]
fn store_has_and_has_tag_agree() {
    let mut store = ComponentStore::with_capacity(4);
    assert_eq!(store.len(), 0);
    assert!(!store.has::<A>());
    store.add(A);
    assert!(store.has::<A>());
    assert!(store.has_tag(TypeTag::of::<A>()));
    assert!(!store.has_tag(TypeTag::of::<B>()));
}

#[test]
fn store_clear_destroys_every_component() {
    let witness = Rc::new(());
    let mut store = ComponentStore::new();
    store.add(Rc::clone(&witness));
    store.add(Rc::clone(&witness));
    assert_eq!(Rc::strong_count(&witness), 3);
    store.clear();
    assert_eq!(store.len(), 0);
    assert_eq!(Rc::strong_count(&witness), 1);
    assert!(!store.has::<Rc<()>>());
}
