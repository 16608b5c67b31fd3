use std::any::TypeId;
use std::marker::PhantomData;
use vstd::prelude::*;

verus! {

/// `std::any::TypeId`, carried around as an opaque value.
#[verifier::external_type_specification]
#[verifier::external_body]
pub struct ExTypeId(TypeId);

/// Ghost carrier that ties one identifier to each type `T`.
struct TypeProbe<T> {
    id: TypeId,
    marker: PhantomData<T>,
}

/// The identifier that belongs to the type `T`: one fixed value for each
/// type, of which contracts know nothing else. In particular nothing
/// here says that two types have different identifiers.
pub closed spec fn type_id_spec<T: 'static>() -> TypeId {
    arbitrary::<TypeProbe<T>>().id
}

/// Calls `std::any::TypeId::of::<T>()`. The contract claims that the
/// identifier depends on the type `T` alone: every call for one `T`
/// yields the same value, the one that `type_id_spec::<T>()` names.
#[verifier::external_body]
fn type_id_of<T: 'static>() -> (id: TypeId)
    ensures
        id == type_id_spec::<T>(),
{
    TypeId::of::<T>()
}

/// Calls `TypeId`'s `==`. The contract claims that two identifiers
/// compare equal exactly when they are the same value.
#[verifier::external_body]
fn type_id_eq(a: &TypeId, b: &TypeId) -> (same: bool)
    ensures
        same == (*a == *b),
{
    a == b
}

/// The identity of one concrete component type. Tags made for the same
/// type are equal.
#[derive(Clone, Copy, Debug)]
pub struct TypeTag {
    id: TypeId,
}

impl TypeTag {
    /// The tag of `T`, as a ghost value.
    pub closed spec fn spec_of<T: 'static>() -> TypeTag {
        TypeTag { id: type_id_spec::<T>() }
    }

    /// The identifier behind the tag.
    pub closed spec fn id(self) -> TypeId {
        self.id
    }

    /// The tag of the type `T`.
    #[verifier::when_used_as_spec(spec_of)]
    pub fn of<T: 'static>() -> (tag: TypeTag)
        ensures
            tag == TypeTag::spec_of::<T>(),
    {
        TypeTag { id: type_id_of::<T>() }
    }

    /// A tag is its identifier and nothing more: the tag of `T` has the
    /// identifier of `T`, and tags with one identifier are one tag.
    pub proof fn lemma_tag_is_id<T: 'static>(tag: TypeTag)
        ensures
            TypeTag::spec_of::<T>().id() == type_id_spec::<T>(),
            (tag.id() == type_id_spec::<T>()) == (tag == TypeTag::spec_of::<T>()),
    {
    }
}

impl PartialEq for TypeTag {
    fn eq(&self, other: &TypeTag) -> (same: bool) {
        type_id_eq(&self.id, &other.id)
    }
}

impl Eq for TypeTag {

}

impl vstd::std_specs::cmp::PartialEqSpecImpl for TypeTag {
    open spec fn obeys_eq_spec() -> bool {
        true
    }

    open spec fn eq_spec(&self, other: &TypeTag) -> bool {
        *self == *other
    }
}

} // verus!
