use apollo_ecs::components::ComponentStore;
use apollo_ecs::query::{Cond, Condition, Matchers, Query, QueryBuilder};
use apollo_ecs::tag::TypeTag;
use apollo_ecs::EntityQuery;

struct A;
struct B;
struct C;

fn store_a() -> ComponentStore {
    let mut s = ComponentStore::new();
    s.add(A);
    s
}

fn store_b() -> ComponentStore {
    let mut s = ComponentStore::new();
    s.add(B);
    s
}

fn store_c() -> ComponentStore {
    let mut s = ComponentStore::new();
    s.add(C);
    s
}

fn store_ab() -> ComponentStore {
    let mut s = ComponentStore::new();
    s.add(A);
    s.add(B);
    s
}

fn store_abc() -> ComponentStore {
    let mut s = ComponentStore::new();
    s.add(A);
    s.add(B);
    s.add(C);
    s
}

#[test]
fn test_query_builder() {
    let query = Matchers::with::<A>().with::<B>().build();

    assert!(query.test(&store_ab()));
    assert_eq!(query.test(&store_a()), false);
}

#[test]
fn test_any() {
    let query = Matchers::any().build();

    assert_eq!(query.test(&store_ab()), true);
    assert_eq!(query.test(&store_a()), true);
    assert_eq!(query.test(&store_b()), true);
}

#[test]
fn test_not_conditions() {
    let query = Matchers::without::<A>().and_not(Matchers::with::<B>()).build();

    assert_eq!(query.test(&store_ab()), false);
    assert_eq!(query.test(&store_a()), false);
    assert_eq!(query.test(&store_c()), true);
}

#[test]
fn test_with_not() {
    let query = Matchers::with::<A>().without::<B>().build();

    assert_eq!(query.test(&store_ab()), false);
    assert_eq!(query.test(&store_a()), true);
    assert_eq!(query.test(&store_c()), false);
}

#[test]
fn test_or() {
    let query = Matchers::with::<A>().or(Matchers::with::<B>()).build();
    assert_eq!(query.test(&store_a()), true);
    assert_eq!(query.test(&store_b()), true);

    let query = Matchers::with::<A>().without::<B>().or(Matchers::with::<C>()).build();

    assert_eq!(query.test(&store_ab()), false);
    assert_eq!(query.test(&store_a()), true);
    assert_eq!(query.test(&store_c()), true);
}

fn outcomes(query: &Query) -> [bool; 4] {
    [
        query.test(&store_a()),
        query.test(&store_ab()),
        query.test(&store_abc()),
        query.test(&ComponentStore::new()),
    ]
}

#[test]
fn truth_table_with_with() {
    let query = Matchers::with::<A>().with::<B>().build();
    assert_eq!(outcomes(&query), [false, true, true, false]);
}

#[test]
fn truth_table_without() {
    let query = Matchers::without::<C>().build();
    assert_eq!(outcomes(&query), [true, true, false, true]);
}

#[test]
fn truth_table_with_without() {
    let query = Matchers::with::<A>().without::<B>().build();
    assert_eq!(outcomes(&query), [true, false, false, false]);
}

#[test]
fn truth_table_or() {
    let query = Matchers::with::<A>().or(Matchers::with::<B>()).build();
    assert_eq!(outcomes(&query), [true, true, true, false]);
}

#[test]
fn truth_table_and_not() {
    let query = Matchers::without::<A>().and_not(Matchers::with::<B>()).build();
    assert_eq!(outcomes(&query), [false, false, false, true]);
}

#[test]
fn or_not_holds_when_the_right_side_fails() {
    let query = Matchers::with::<A>().or_not(Matchers::with::<B>()).build();
    assert_eq!(outcomes(&query), [true, true, true, true]);
    assert_eq!(query.test(&store_b()), false);
}

#[test]
fn and_requires_both_sides() {
    let query = Matchers::with::<A>().and(Matchers::with::<C>()).build();
    assert_eq!(outcomes(&query), [false, false, true, false]);
}

#[test]
fn chaining_is_left_associative() {
    // (A and B) or C
    let query = Matchers::with::<A>().and(Matchers::with::<B>()).or(Matchers::with::<C>()).build();
    assert_eq!(query.test(&store_c()), true);
    assert_eq!(query.test(&store_a()), false);
    assert_eq!(query.test(&store_ab()), true);
    // A and (B or C) would reject a store that holds C alone
    let nested = Matchers::with::<A>().and(Matchers::with::<B>().or(Matchers::with::<C>())).build();
    assert_eq!(nested.test(&store_c()), false);
    assert_eq!(nested.test(&store_ab()), true);
}

#[test]
fn an_empty_builder_matches_everything() {
    let query = QueryBuilder::new().build();
    assert_eq!(outcomes(&query), [true, true, true, true]);
    let query = Query::new(QueryBuilder::new());
    assert_eq!(outcomes(&query), [true, true, true, true]);
}

#[test]
fn matchers_combinators_start_from_any() {
    assert_eq!(outcomes(&Matchers::and(Matchers::with::<A>()).build()), [true, true, true, false]);
    assert_eq!(outcomes(&Matchers::and_not(Matchers::with::<B>()).build()), [true, false, false, true]);
    assert_eq!(outcomes(&Matchers::or(Matchers::with::<C>()).build()), [true, true, true, true]);
    assert_eq!(outcomes(&Matchers::or_not(Matchers::with::<C>()).build()), [true, true, true, true]);
}

#[test]
fn a_query_can_be_an_operand() {
    let inner: EntityQuery = Matchers::with::<B>().build();
    let query = Matchers::with::<A>().and_not(inner).build();
    assert_eq!(outcomes(&query), [true, false, false, false]);
}

#[test]
fn an_expression_can_be_an_operand_and_be_tested() {
    let expr = Cond::Or(
        Box::new(Cond::Is(TypeTag::of::<C>())),
        Box::new(Cond::Not(Box::new(Cond::Is(TypeTag::of::<A>())))),
    );
    assert_eq!(expr.test(&store_a()), false);
    assert_eq!(expr.test(&store_abc()), true);
    assert_eq!(expr.eval(&ComponentStore::new()), true);
    let query = Matchers::any().and(expr).build();
    assert_eq!(outcomes(&query), [false, false, true, true]);
}

#[test]
fn a_builder_can_be_tested_and_converted() {
    let builder = Matchers::with::<A>().without::<C>();
    assert_eq!(builder.test(&store_ab()), true);
    assert_eq!(builder.test(&store_abc()), false);
    assert_eq!(QueryBuilder::new().test(&store_abc()), true);
    let expr = builder.into_cond();
    assert_eq!(expr.test(&store_ab()), true);
    let expr = Matchers::with::<B>().build().into_cond();
    assert_eq!(expr.test(&store_a()), false);
}

#[test]
fn duplicates_and_order_do_not_matter() {
    let query = Matchers::with::<A>().without::<C>().build();
    let mut doubled = ComponentStore::new();
    doubled.add(B);
    doubled.add(A);
    doubled.add(A);
    assert_eq!(query.test(&doubled), query.test(&store_ab()));
    assert_eq!(query.test(&doubled), true);
}

#[test]
fn the_same_expression_built_twice_gives_the_same_outcomes() {
    let first = Matchers::with::<A>().without::<B>().or(Matchers::with::<C>()).build();
    let second = Matchers::with::<A>().without::<B>().or(Matchers::with::<C>()).build();
    assert_eq!(outcomes(&first), outcomes(&second));
    assert_eq!(first.test(&store_c()), second.test(&store_c()));
    assert_eq!(first.test(&store_b()), second.test(&store_b()));
    assert_eq!(outcomes(&first), [true, false, true, false]);
}
