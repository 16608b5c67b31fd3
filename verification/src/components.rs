use crate::tag::{type_id_spec, TypeTag};
use std::any::Any;
use std::any::TypeId;
use vstd::prelude::*;

verus! {

/// A value whose concrete type has been erased. It owns the value and
/// drops it through the value's own destructor.
#[verifier::external_body]
pub struct Erased {
    inner: Box<dyn Any>,
}

/// The identifier of the concrete type behind an erased value: what
/// `Any::type_id` reports for it.
pub uninterp spec fn erased_type(value: Erased) -> TypeId;

/// The value behind an erased value, read as a `T`: the value that was
/// erased, when `T` is its concrete type. Nothing is known of it
/// otherwise.
pub closed spec fn payload<T: 'static>(value: Erased) -> T {
    arbitrary::<spec_fn(Erased) -> T>()(value)
}

/// Boxes `value` as a `Box<dyn Any>`. The contract claims that the erased
/// value reports the identifier of `T` as its concrete type and holds
/// `value`.
#[verifier::external_body]
fn erase<T: 'static>(value: T) -> (erased: Erased)
    ensures
        erased_type(erased) == type_id_spec::<T>(),
        payload::<T>(erased) == value,
{
    Erased { inner: Box::new(value) }
}

/// Calls `<dyn Any>::downcast_ref::<T>()`. The contract claims that the
/// reference is present exactly when the concrete type is `T`, and that
/// it then points at the value that was erased.
#[verifier::external_body]
fn downcast_ref<T: 'static>(erased: &Erased) -> (value: Option<&T>)
    ensures
        value.is_some() == (erased_type(*erased) == type_id_spec::<T>()),
        value matches Some(v) ==> *v == payload::<T>(*erased),
{
    erased.inner.downcast_ref::<T>()
}

/// Calls `<dyn Any>::downcast_mut::<T>()`. The contract claims that the
/// reference is present exactly when the concrete type is `T`; that it
/// then points at the value that was erased, and that what is written
/// through it is the value held afterwards; that writing never changes
/// the concrete type; and that without a reference the erased value
/// stays as it was.
#[verifier::external_body]
fn downcast_mut<T: 'static>(erased: &mut Erased) -> (value: Option<&mut T>)
    ensures
        value.is_some() == (erased_type(*old(erased)) == type_id_spec::<T>()),
        value matches Some(v) ==> {
            &&& *v == payload::<T>(*old(erased))
            &&& *final(v) == payload::<T>(*final(erased))
        },
        erased_type(*final(erased)) == erased_type(*old(erased)),
        value.is_none() ==> *final(erased) == *old(erased),
    no_unwind
{
    erased.inner.downcast_mut::<T>()
}

/// One component: the tag of its type and the erased value.
pub struct Component {
    tag: TypeTag,
    value: Erased,
}

impl Component {
    #[verifier::type_invariant]
    spec fn tag_matches_value(self) -> bool {
        erased_type(self.value) == self.tag.id()
    }

    /// The tag under which the component is stored.
    pub closed spec fn tag(self) -> TypeTag {
        self.tag
    }

    /// The value of the component, read as a `T`: the value that the
    /// component was made of, when it is tagged with `T`.
    pub closed spec fn value<T: 'static>(self) -> T {
        payload::<T>(self.value)
    }

    /// Erases `value` and tags it with the identity of `T`.
    pub fn new<T: 'static>(value: T) -> (component: Component)
        ensures
            component.tag() == TypeTag::spec_of::<T>(),
            component.value::<T>() == value,
    {
        let tag = TypeTag::of::<T>();
        proof {
            TypeTag::lemma_tag_is_id::<T>(tag);
        }
        Component { tag, value: erase(value) }
    }

    /// The tag under which the component is stored.
    pub fn type_tag(&self) -> (tag: TypeTag)
        ensures
            tag == self.tag(),
    {
        self.tag
    }

    /// The value as a `T`, present exactly when the component is tagged
    /// with `T`.
    pub fn get_ref<T: 'static>(&self) -> (value: Option<&T>)
        ensures
            value.is_some() == (self.tag() == TypeTag::spec_of::<T>()),
            value matches Some(v) ==> *v == self.value::<T>(),
    {
        proof {
            use_type_invariant(self);
            TypeTag::lemma_tag_is_id::<T>(self.tag);
        }
        downcast_ref::<T>(&self.value)
    }

    /// The value as a mutable `T`, present exactly when the component is
    /// tagged with `T`. What is written through the reference is the
    /// component's value afterwards. The tag never changes.
    pub fn get_mut<T: 'static>(&mut self) -> (value: Option<&mut T>)
        ensures
            value.is_some() == (old(self).tag() == TypeTag::spec_of::<T>()),
            value matches Some(v) ==> {
                &&& *v == old(self).value::<T>()
                &&& *final(v) == final(self).value::<T>()
            },
            final(self).tag() == old(self).tag(),
            value.is_none() ==> *final(self) == *old(self),
    {
        proof {
            use_type_invariant(&*self);
            TypeTag::lemma_tag_is_id::<T>(self.tag);
        }
        downcast_mut::<T>(&mut self.value)
    }
}

/// Whether `index` is the first position in `tags` that holds `tag`.
pub open spec fn is_first_match(tags: Seq<TypeTag>, tag: TypeTag, index: int) -> bool {
    &&& 0 <= index < tags.len()
    &&& tags[index] == tag
    &&& forall|k: int| 0 <= k < index ==> tags[k] != tag
}

/// The first position in `tags` that holds `tag`, when there is one.
pub open spec fn first_match(tags: Seq<TypeTag>, tag: TypeTag) -> int {
    choose|index: int| is_first_match(tags, tag, index)
}

/// There is at most one first position.
pub proof fn lemma_first_match_unique(tags: Seq<TypeTag>, tag: TypeTag, index: int)
    requires
        is_first_match(tags, tag, index),
    ensures
        first_match(tags, tag) == index,
{
    let other = first_match(tags, tag);
    assert(is_first_match(tags, tag, other));
    if other < index {
        assert(tags[other] != tag);
    }
    if index < other {
        assert(tags[index] != tag);
    }
}

/// Replacing a component by one with the same tag changes no tag.
proof fn lemma_update_keeps_tags(components: Seq<Component>, index: int)
    requires
        0 <= index < components.len(),
    ensures
        forall|c: Component|
            c.tag() == components[index].tag() ==> (#[trigger] components.update(
                index,
                c,
            )).map_values(|c: Component| c.tag()) == components.map_values(
                |c: Component| c.tag(),
            ),
{
    assert forall|c: Component| c.tag() == components[index].tag() implies (
    #[trigger] components.update(index, c)).map_values(|c: Component| c.tag())
        == components.map_values(|c: Component| c.tag()) by {
        assert(components.update(index, c).map_values(|c: Component| c.tag())
            =~= components.map_values(|c: Component| c.tag()));
    }
}

/// The components of one entity, in the order in which they were added.
/// Nothing is deduplicated: two components may carry the same tag, and
/// lookups then report the first.
pub struct ComponentStore {
    items: Vec<Component>,
}

impl View for ComponentStore {
    type V = Seq<Component>;

    closed spec fn view(&self) -> Seq<Component> {
        self.items@
    }
}

impl ComponentStore {
    /// The tags of the components, in insertion order.
    pub open spec fn tags(&self) -> Seq<TypeTag> {
        self@.map_values(|c: Component| c.tag())
    }

    /// A store without components.
    pub fn new() -> (store: ComponentStore)
        ensures
            store@ == Seq::<Component>::empty(),
    {
        ComponentStore { items: Vec::new() }
    }

    /// A store without components, with room for `capacity` of them.
    pub fn with_capacity(capacity: usize) -> (store: ComponentStore)
        ensures
            store@ == Seq::<Component>::empty(),
    {
        ComponentStore { items: Vec::with_capacity(capacity) }
    }

    /// The number of components.
    pub fn len(&self) -> (n: usize)
        ensures
            n == self@.len(),
    {
        self.items.len()
    }

    /// Appends `value` under the tag of `T`. Earlier components stay as
    /// they are, also those with the same tag.
    pub fn add<T: 'static>(&mut self, value: T)
        ensures
            final(self)@.len() == old(self)@.len() + 1,
            final(self)@.drop_last() == old(self)@,
            final(self)@.last().tag() == TypeTag::spec_of::<T>(),
            final(self)@.last().value::<T>() == value,
            final(self).tags() == old(self).tags().push(TypeTag::spec_of::<T>()),
    {
        let component = Component::new(value);
        self.items.push(component);
        assert(self@.drop_last() =~= old(self)@);
        assert(self.tags() =~= old(self).tags().push(TypeTag::spec_of::<T>()));
    }

    /// The position of the first component tagged `tag`, if there is one.
    pub fn position(&self, tag: TypeTag) -> (found: Option<usize>)
        ensures
            found.is_some() == self.tags().contains(tag),
            found matches Some(index) ==> is_first_match(self.tags(), tag, index as int) && index
                == first_match(self.tags(), tag),
    {
        let mut index: usize = 0;
        while index < self.items.len()
            invariant
                index <= self.items@.len(),
                forall|k: int| 0 <= k < index ==> self.tags()[k] != tag,
            decreases self.items@.len() - index,
        {
            if self.items[index].type_tag() == tag {
                assert(self.tags()[index as int] == tag);
                proof {
                    lemma_first_match_unique(self.tags(), tag, index as int);
                }
                return Some(index);
            }
            index += 1;
        }
        None
    }

    /// Whether some component is tagged `tag`.
    pub fn has_tag(&self, tag: TypeTag) -> (present: bool)
        ensures
            present == self.tags().contains(tag),
    {
        self.position(tag).is_some()
    }

    /// Whether some component has type `T`.
    pub fn has<T: 'static>(&self) -> (present: bool)
        ensures
            present == self.tags().contains(TypeTag::spec_of::<T>()),
    {
        self.has_tag(TypeTag::of::<T>())
    }

    /// The first component of type `T`, read-only; absent exactly when
    /// the store holds no component of that type.
    pub fn get_ref<T: 'static>(&self) -> (value: Option<&T>)
        ensures
            value.is_some() == self.tags().contains(TypeTag::spec_of::<T>()),
            value matches Some(v) ==> *v == self@[first_match(
                self.tags(),
                TypeTag::spec_of::<T>(),
            )].value::<T>(),
    {
        match self.position(TypeTag::of::<T>()) {
            Some(index) => {
                assert(self.tags()[index as int] == self@[index as int].tag());
                self.items[index].get_ref::<T>()
            },
            None => None,
        }
    }

    /// The first component of type `T`, for writing; absent exactly when
    /// the store holds no component of that type. What is written
    /// through the reference is that component's value afterwards; no
    /// tag and no other component changes.
    pub fn get<T: 'static>(&mut self) -> (value: Option<&mut T>)
        ensures
            value.is_some() == old(self).tags().contains(TypeTag::spec_of::<T>()),
            value matches Some(v) ==> {
                let first = first_match(old(self).tags(), TypeTag::spec_of::<T>());
                &&& *v == old(self)@[first].value::<T>()
                &&& *final(v) == final(self)@[first].value::<T>()
            },
            final(self).tags() == old(self).tags(),
            forall|k: int|
                0 <= k < old(self)@.len() && !is_first_match(
                    old(self).tags(),
                    TypeTag::spec_of::<T>(),
                    k,
                ) ==> #[trigger] final(self)@[k] == old(self)@[k],
    {
        match self.position(TypeTag::of::<T>()) {
            Some(index) => {
                assert(self.tags()[index as int] == self@[index as int].tag());
                proof {
                    lemma_update_keeps_tags(self@, index as int);
                }
                self.items[index].get_mut::<T>()
            },
            None => None,
        }
    }

    /// Destroys every component.
    pub fn clear(&mut self)
        ensures
            final(self)@ == Seq::<Component>::empty(),
    {
        self.items.clear();
    }
}

} // verus!
