//! Components and their type-erased form.
//!
//! A component is plain data of any type that can be owned and shared across
//! threads. The registry keeps components of unrelated types side by side, so
//! it stores each one erased, behind [`ErasedComponent`], and recovers the
//! type on access.
//!
//! The verifier cannot look inside an erased box. What it knows of one is
//! what the few trusted functions at the end of this file state about the
//! standard library's `Any`.

use vstd::prelude::*;
use std::any::Any;
use std::any::TypeId;

verus! {

/// Marker for types whose values can be attached to an entity.
pub trait Component: Send + Sync + 'static {
}

/// The standard library's identifier of a type.
#[verifier::external_type_specification]
#[verifier::external_body]
pub struct ExTypeId(TypeId);

/// A component without its static type, as contracts speak of it.
pub ghost struct Payload {
    pub value: Box<dyn Component>,
}

/// A component whose static type has been erased.
///
/// Holds the standard library's `Box<dyn Any + Send + Sync>`, a type that
/// the verifier does not accept in a field, so the struct is opaque to it.
#[verifier::external_body]
pub struct ErasedComponent {
    inner: Box<dyn Any + Send + Sync>,
}

/// The component inside an erased box.
pub uninterp spec fn payload(boxed: ErasedComponent) -> Payload;

/// The identifier of the concrete type of an erased component: what
/// `Any::type_id` answers for it.
pub uninterp spec fn type_of(p: Payload) -> TypeId;

/// The erased form of a component.
pub open spec fn erased<C: Component>(component: C) -> Payload {
    Payload { value: Box::new(component) }
}

/// `key` identifies the type `C`: every erased `C` has it as its type.
pub open spec fn is_key_of<C: Component>(key: TypeId) -> bool {
    forall|v: C| #![trigger erased(v)] type_of(erased(v)) == key
}

/// The identifier of the type `C`.
pub open spec fn type_key<C: Component>() -> TypeId {
    type_of(erased(arbitrary::<C>()))
}

/// `component` is the value inside the payload `p`: the payload is its
/// erased form, and the erased form of no other `C`.
pub open spec fn is_inner<C: Component>(p: Payload, component: C) -> bool {
    &&& p == erased(component)
    &&& forall|v: C| #![trigger erased(v)] erased(v) == p ==> v == component
}

/// The payload holds a `C`.
pub open spec fn has_inner<C: Component>(p: Payload) -> bool {
    exists|c: C| #[trigger] is_inner(p, c)
}

/// The `C` inside a payload that holds one.
pub open spec fn inner<C: Component>(p: Payload) -> C
    recommends
        has_inner::<C>(p),
{
    choose|c: C| #[trigger] is_inner(p, c)
}

/// A key that identifies `C` is `type_key::<C>()`.
pub proof fn lemma_key_unique<C: Component>(key: TypeId)
    requires
        is_key_of::<C>(key),
    ensures
        key == type_key::<C>(),
{
    assert(type_of(erased(arbitrary::<C>())) == key);
}

/// The value inside a payload is determined by the payload.
pub proof fn lemma_inner<C: Component>(p: Payload, component: C)
    requires
        is_inner(p, component),
    ensures
        has_inner::<C>(p),
        inner::<C>(p) == component,
{
    let c = inner::<C>(p);
    assert(is_inner(p, c));
    assert(erased(c) == p);
}

impl ErasedComponent {
    /// Erases the type of a component.
    ///
    /// Trusted: `Box::new` and the coercion of the box to `dyn Any`. The
    /// contract claims that the box holds `component` and nothing else.
    #[verifier::external_body]
    pub(crate) fn new<C: Component>(component: C) -> (r: Self)
        ensures
            is_inner(payload(r), component),
    {
        ErasedComponent { inner: Box::new(component) }
    }

    /// The component as a `C`, if it is one.
    ///
    /// Trusted: `<dyn Any>::downcast_ref`, which returns a reference to the
    /// inner value if it is of type `C`, and `None` if it is not. The
    /// contract claims exactly that: success if and only if the type of the
    /// payload is the one that identifies `C`, and then the inner value.
    #[verifier::external_body]
    pub(crate) fn downcast_ref<C: Component>(&self) -> (r: Option<&C>)
        ensures
            r is Some <==> is_key_of::<C>(type_of(payload(*self))),
            r matches Some(c) ==> is_inner(payload(*self), *c),
    {
        self.inner.downcast_ref::<C>()
    }

    /// The component as a mutable `C`, if it is one.
    ///
    /// Trusted: `<dyn Any>::downcast_mut`, which returns a mutable reference
    /// to the inner value if it is of type `C`, and `None` if it is not. The
    /// contract claims that, and that whatever is written through the
    /// reference is the inner value afterwards. On `None` the box is not
    /// touched.
    #[verifier::external_body]
    pub(crate) fn downcast_mut<C: Component>(&mut self) -> (r: Option<&mut C>)
        ensures
            r is Some <==> is_key_of::<C>(type_of(payload(*old(self)))),
            r matches Some(c) ==> is_inner(payload(*old(self)), *c) && is_inner(
                payload(*final(self)),
                *final(c),
            ),
            r is None ==> *final(self) == *old(self),
    {
        self.inner.downcast_mut::<C>()
    }
}

/// The identifier of the type `C`.
///
/// Trusted: `TypeId::of`. The contract claims that the identifier it returns
/// for `C` is the type of every erased `C`.
#[verifier::external_body]
pub(crate) fn component_type<C: Component>() -> (r: TypeId)
    ensures
        is_key_of::<C>(r),
{
    TypeId::of::<C>()
}

/// Whether two identifiers name the same type.
///
/// Trusted: `==` on `TypeId`. The contract claims that it is equality.
#[verifier::external_body]
pub(crate) fn same_type(a: &TypeId, b: &TypeId) -> (r: bool)
    ensures
        r == (*a == *b),
{
    a == b
}

} // verus!
