use crate::components::ComponentStore;
use crate::table::{EntityTable, TableView};
use crate::tag::TypeTag;
use crate::Entity;
use vstd::prelude::*;

verus! {

/// A boolean expression over the component types of one entity.
pub enum Cond {
    /// Holds of every entity.
    Any,
    /// Holds when a component with this tag is present.
    Is(TypeTag),
    /// Holds when no component with this tag is present.
    IsNot(TypeTag),
    /// Holds when both sides hold.
    And(Box<Cond>, Box<Cond>),
    /// Holds when at least one side holds.
    Or(Box<Cond>, Box<Cond>),
    /// Holds when the inner expression does not.
    Not(Box<Cond>),
}

impl Cond {
    /// Whether the expression holds of an entity whose components carry
    /// `tags`.
    pub open spec fn holds(self, tags: Seq<TypeTag>) -> bool
        decreases self,
    {
        match self {
            Cond::Any => true,
            Cond::Is(tag) => tags.contains(tag),
            Cond::IsNot(tag) => !tags.contains(tag),
            Cond::And(left, right) => left.holds(tags) && right.holds(tags),
            Cond::Or(left, right) => left.holds(tags) || right.holds(tags),
            Cond::Not(inner) => !inner.holds(tags),
        }
    }

    /// Evaluates the expression against the components of one entity.
    pub fn eval(&self, components: &ComponentStore) -> (matched: bool)
        ensures
            matched == self.holds(components.tags()),
        decreases self,
    {
        match self {
            Cond::Any => true,
            Cond::Is(tag) => components.has_tag(*tag),
            Cond::IsNot(tag) => !components.has_tag(*tag),
            Cond::And(left, right) => left.eval(components) && right.eval(components),
            Cond::Or(left, right) => left.eval(components) || right.eval(components),
            Cond::Not(inner) => !inner.eval(components),
        }
    }
}

/// Something that stands for a boolean expression over component types
/// and can be tested against the components of one entity.
pub trait Condition: Sized {
    /// The expression that this value stands for.
    spec fn cond(&self) -> Cond;

    /// Whether the expression holds of `components`.
    fn test(&self, components: &ComponentStore) -> (matched: bool)
        ensures
            matched == self.cond().holds(components.tags()),
    ;

    /// Hands over the expression itself.
    fn into_cond(self) -> (expr: Cond)
        ensures
            expr == self.cond(),
    ;
}

impl Condition for Cond {
    open spec fn cond(&self) -> Cond {
        *self
    }

    fn test(&self, components: &ComponentStore) -> (matched: bool) {
        self.eval(components)
    }

    fn into_cond(self) -> (expr: Cond) {
        self
    }
}

/// The conjunction of what a builder holds so far with one more
/// expression. An empty builder contributes nothing.
pub open spec fn extend(so_far: Option<Cond>, next: Cond) -> Cond {
    match so_far {
        Some(expr) => Cond::And(Box::new(expr), Box::new(next)),
        None => next,
    }
}

/// The expression that a builder stands for: what it holds so far, or
/// `Any` while it holds nothing.
pub open spec fn finished(so_far: Option<Cond>) -> Cond {
    match so_far {
        Some(expr) => expr,
        None => Cond::Any,
    }
}

/// Builds an expression step by step. `with`, `without` and `any` add one
/// more requirement to the expression so far; `and`, `and_not`, `or` and
/// `or_not` take the expression so far as their left operand.
pub struct QueryBuilder {
    expr: Option<Cond>,
}

impl View for QueryBuilder {
    type V = Option<Cond>;

    closed spec fn view(&self) -> Option<Cond> {
        self.expr
    }
}

impl QueryBuilder {
    /// A builder that holds nothing yet.
    pub fn new() -> (builder: QueryBuilder)
        ensures
            builder@ == None::<Cond>,
    {
        QueryBuilder { expr: None }
    }

    fn push(self, next: Cond) -> (builder: QueryBuilder)
        ensures
            builder@ == Some(extend(self@, next)),
    {
        match self.expr {
            Some(expr) => QueryBuilder { expr: Some(Cond::And(Box::new(expr), Box::new(next))) },
            None => QueryBuilder { expr: Some(next) },
        }
    }

    fn finish(self) -> (expr: Cond)
        ensures
            expr == finished(self@),
    {
        match self.expr {
            Some(expr) => expr,
            None => Cond::Any,
        }
    }

    /// Adds a requirement that every entity meets.
    pub fn any(self) -> (builder: QueryBuilder)
        ensures
            builder@ == Some(extend(self@, Cond::Any)),
    {
        self.push(Cond::Any)
    }

    /// Adds the requirement that a component of type `T` is present.
    pub fn with<T: 'static>(self) -> (builder: QueryBuilder)
        ensures
            builder@ == Some(extend(self@, Cond::Is(TypeTag::spec_of::<T>()))),
    {
        self.push(Cond::Is(TypeTag::of::<T>()))
    }

    /// Adds the requirement that no component of type `T` is present.
    pub fn without<T: 'static>(self) -> (builder: QueryBuilder)
        ensures
            builder@ == Some(extend(self@, Cond::IsNot(TypeTag::spec_of::<T>()))),
    {
        self.push(Cond::IsNot(TypeTag::of::<T>()))
    }

    /// The expression so far, and `condition`.
    pub fn and<C: Condition>(self, condition: C) -> (builder: QueryBuilder)
        ensures
            builder@ == Some(
                Cond::And(Box::new(finished(self@)), Box::new(condition.cond())),
            ),
    {
        let left = self.finish();
        let right = condition.into_cond();
        QueryBuilder { expr: Some(Cond::And(Box::new(left), Box::new(right))) }
    }

    /// The expression so far, and not `condition`.
    pub fn and_not<C: Condition>(self, condition: C) -> (builder: QueryBuilder)
        ensures
            builder@ == Some(
                Cond::And(
                    Box::new(finished(self@)),
                    Box::new(Cond::Not(Box::new(condition.cond()))),
                ),
            ),
    {
        let left = self.finish();
        let right = Cond::Not(Box::new(condition.into_cond()));
        QueryBuilder { expr: Some(Cond::And(Box::new(left), Box::new(right))) }
    }

    /// The expression so far, or `condition`.
    pub fn or<C: Condition>(self, condition: C) -> (builder: QueryBuilder)
        ensures
            builder@ == Some(
                Cond::Or(Box::new(finished(self@)), Box::new(condition.cond())),
            ),
    {
        let left = self.finish();
        let right = condition.into_cond();
        QueryBuilder { expr: Some(Cond::Or(Box::new(left), Box::new(right))) }
    }

    /// The expression so far, or not `condition`.
    pub fn or_not<C: Condition>(self, condition: C) -> (builder: QueryBuilder)
        ensures
            builder@ == Some(
                Cond::Or(
                    Box::new(finished(self@)),
                    Box::new(Cond::Not(Box::new(condition.cond()))),
                ),
            ),
    {
        let left = self.finish();
        let right = Cond::Not(Box::new(condition.into_cond()));
        QueryBuilder { expr: Some(Cond::Or(Box::new(left), Box::new(right))) }
    }

    /// Finishes the builder. The query stands for the expression so far,
    /// or for `Any` when nothing was added.
    pub fn build(self) -> (query: Query)
        ensures
            query@ == finished(self@),
    {
        Query { expr: self.finish() }
    }
}

impl Condition for QueryBuilder {
    open spec fn cond(&self) -> Cond {
        finished(self@)
    }

    fn test(&self, components: &ComponentStore) -> (matched: bool) {
        match &self.expr {
            Some(expr) => expr.eval(components),
            None => true,
        }
    }

    fn into_cond(self) -> (expr: Cond) {
        self.finish()
    }
}

/// A finished, immutable expression: the rule by which entities are
/// selected.
pub struct Query {
    expr: Cond,
}

impl View for Query {
    type V = Cond;

    closed spec fn view(&self) -> Cond {
        self.expr
    }
}

impl Query {
    /// Finishes `builder`.
    pub fn new(builder: QueryBuilder) -> (query: Query)
        ensures
            query@ == finished(builder@),
    {
        builder.build()
    }

    /// Whether the query selects an entity whose components carry `tags`.
    pub open spec fn matches(&self, tags: Seq<TypeTag>) -> bool {
        self@.holds(tags)
    }
}

impl Condition for Query {
    open spec fn cond(&self) -> Cond {
        self@
    }

    fn test(&self, components: &ComponentStore) -> (matched: bool) {
        self.expr.eval(components)
    }

    fn into_cond(self) -> (expr: Cond) {
        self.expr
    }
}

/// The entry points of the query language: each starts a fresh builder.
pub struct Matchers;

impl Matchers {
    /// Matches every entity.
    pub fn any() -> (builder: QueryBuilder)
        ensures
            builder@ == Some(Cond::Any),
    {
        QueryBuilder::new().any()
    }

    /// Matches entities that have a component of type `T`.
    pub fn with<T: 'static>() -> (builder: QueryBuilder)
        ensures
            builder@ == Some(Cond::Is(TypeTag::spec_of::<T>())),
    {
        QueryBuilder::new().with::<T>()
    }

    /// Matches entities that have no component of type `T`.
    pub fn without<T: 'static>() -> (builder: QueryBuilder)
        ensures
            builder@ == Some(Cond::IsNot(TypeTag::spec_of::<T>())),
    {
        QueryBuilder::new().without::<T>()
    }

    /// `Any` and `condition`.
    pub fn and<C: Condition>(condition: C) -> (builder: QueryBuilder)
        ensures
            builder@ == Some(Cond::And(Box::new(Cond::Any), Box::new(condition.cond()))),
    {
        QueryBuilder::new().and(condition)
    }

    /// `Any` and not `condition`.
    pub fn and_not<C: Condition>(condition: C) -> (builder: QueryBuilder)
        ensures
            builder@ == Some(
                Cond::And(
                    Box::new(Cond::Any),
                    Box::new(Cond::Not(Box::new(condition.cond()))),
                ),
            ),
    {
        QueryBuilder::new().and_not(condition)
    }

    /// `Any` or `condition`.
    pub fn or<C: Condition>(condition: C) -> (builder: QueryBuilder)
        ensures
            builder@ == Some(Cond::Or(Box::new(Cond::Any), Box::new(condition.cond()))),
    {
        QueryBuilder::new().or(condition)
    }

    /// `Any` or not `condition`.
    pub fn or_not<C: Condition>(condition: C) -> (builder: QueryBuilder)
        ensures
            builder@ == Some(
                Cond::Or(
                    Box::new(Cond::Any),
                    Box::new(Cond::Not(Box::new(condition.cond()))),
                ),
            ),
    {
        QueryBuilder::new().or_not(condition)
    }
}

/// Whether `ent` is an active entity of `table` whose components are in
/// the table and of which `expr` holds.
pub open spec fn selected(table: TableView, expr: Cond, ent: Entity) -> bool {
    table.is_accessible(ent) && expr.holds(table.slots[ent as int].tags())
}

/// A query bound to the entities that it is to run over.
pub struct QueryRunner<'world, 'query> {
    ents: &'world EntityTable,
    query: &'query Query,
}

impl<'world, 'query> QueryRunner<'world, 'query> {
    /// The entities that the runner looks at.
    pub closed spec fn table(&self) -> TableView {
        self.ents@
    }

    /// The expression by which the runner selects.
    pub closed spec fn cond(&self) -> Cond {
        self.query@
    }

    /// Binds `query` to `ents`.
    pub fn new(ents: &'world EntityTable, query: &'query Query) -> (runner: QueryRunner<
        'world,
        'query,
    >)
        ensures
            runner.table() == ents@,
            runner.cond() == query@,
    {
        QueryRunner { ents, query }
    }

    /// A cursor that starts at the first slot.
    pub fn into_iter(self) -> (iter: QueryRunnerIter<'world, 'query>)
        ensures
            iter.table() == self.table(),
            iter.cond() == self.cond(),
            iter.position() == 0,
    {
        QueryRunnerIter { ents: self.ents, query: self.query, index: 0 }
    }
}

/// A cursor over the entities that a query selects, in ascending order
/// of their indices.
pub struct QueryRunnerIter<'world, 'query> {
    ents: &'world EntityTable,
    query: &'query Query,
    index: usize,
}

impl<'world, 'query> QueryRunnerIter<'world, 'query> {
    /// The entities that the cursor looks at.
    pub closed spec fn table(&self) -> TableView {
        self.ents@
    }

    /// The expression by which the cursor selects.
    pub closed spec fn cond(&self) -> Cond {
        self.query@
    }

    /// The index of the first slot that the cursor has not looked at.
    pub closed spec fn position(&self) -> int {
        self.index as int
    }

    /// The next selected entity: the first active entity at or behind
    /// the cursor of which the query holds. The cursor then stands just
    /// behind it. Without such an entity the cursor stays where it is.
    pub fn next(&mut self) -> (found: Option<Entity>)
        ensures
            final(self).table() == old(self).table(),
            final(self).cond() == old(self).cond(),
            match found {
                Some(ent) => {
                    &&& old(self).position() <= ent
                    &&& selected(old(self).table(), old(self).cond(), ent)
                    &&& forall|e: Entity|
                        old(self).position() <= e < ent ==> !selected(
                            old(self).table(),
                            old(self).cond(),
                            e,
                        )
                    &&& final(self).position() == ent + 1
                },
                None => {
                    &&& forall|e: Entity|
                        old(self).position() <= e < old(self).table().slots.len() ==> !selected(
                            old(self).table(),
                            old(self).cond(),
                            e,
                        )
                    &&& final(self).position() == old(self).position()
                },
            },
    {
        let count = self.ents.len();
        let mut idx: usize = self.index;
        while idx < count
            invariant
                self.index <= idx,
                count == self.ents@.slots.len(),
                *self == *old(self),
                forall|e: Entity| self.index <= e < idx ==> !selected(self.ents@, self.query@, e),
            decreases count - idx,
        {
            let hit = match self.ents.components(idx) {
                Some(store) => self.query.test(store),
                None => false,
            };
            if hit {
                self.index = idx + 1;
                return Some(idx);
            }
            idx += 1;
        }
        None
    }
}

/// Whether an expression holds depends only on which tags are present,
/// not on their order nor on how often one occurs.
pub proof fn lemma_holds_by_tag_set(expr: Cond, tags: Seq<TypeTag>, others: Seq<TypeTag>)
    requires
        forall|tag: TypeTag| tags.contains(tag) == others.contains(tag),
    ensures
        expr.holds(tags) == expr.holds(others),
    decreases expr,
{
    match expr {
        Cond::And(left, right) => {
            lemma_holds_by_tag_set(*left, tags, others);
            lemma_holds_by_tag_set(*right, tags, others);
        },
        Cond::Or(left, right) => {
            lemma_holds_by_tag_set(*left, tags, others);
            lemma_holds_by_tag_set(*right, tags, others);
        },
        Cond::Not(inner) => {
            lemma_holds_by_tag_set(*inner, tags, others);
        },
        _ => {},
    }
}

/// Building is deterministic, and so is testing: two queries that stand
/// for the same expression, as any two queries built by the same calls
/// do, give the same outcome on every store.
pub proof fn lemma_same_expression_same_outcome(
    first: Query,
    second: Query,
    components: ComponentStore,
)
    requires
        first@ == second@,
    ensures
        first.cond().holds(components.tags()) == second.cond().holds(components.tags()),
        first.matches(components.tags()) == second.matches(components.tags()),
{
}

} // verus!
