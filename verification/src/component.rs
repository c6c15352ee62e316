//! The capability traits for typed data kept in the type-erased stores. A
//! component or resource type says how its values flatten into a plain
//! payload and back, and proves that the two directions compose — the typed
//! face of the storage round trip.

use crate::entity::ComponentValue;
use crate::world::ResourceValue;
use vstd::prelude::*;

verus! {

/// Typed data attached to entities: at most one value per entity per type.
///
/// A component type carries the registry key its author registers it under,
/// and an encoding of its values into plain payloads, with decoding proved to
/// invert it.
pub trait Component: Sized {
    /// The registry key this type registers under.
    spec fn spec_key() -> u64;

    /// The payload a value flattens to.
    spec fn encoding(&self) -> Seq<i64>;

    /// The value a payload decodes to, if it is a valid encoding.
    spec fn decoding(d: Seq<i64>) -> Option<Self>;

    fn type_key() -> (k: u64)
        ensures
            k == Self::spec_key(),
    ;

    fn encode(&self) -> (d: Vec<i64>)
        ensures
            d@ == self.encoding(),
    ;

    fn decode(d: &Vec<i64>) -> (r: Option<Self>)
        ensures
            r == Self::decoding(d@),
    ;

    /// Decoding inverts encoding.
    proof fn lemma_round_trip(&self)
        ensures
            Self::decoding(self.encoding()) == Some(*self),
    ;
}

/// A world-global singleton value: at most one instance per resource type.
/// The same encoding discipline as for components.
pub trait Resource: Sized {
    /// The registry key this type registers under.
    spec fn spec_key() -> u64;

    /// The payload a value flattens to.
    spec fn encoding(&self) -> Seq<i64>;

    /// The value a payload decodes to, if it is a valid encoding.
    spec fn decoding(d: Seq<i64>) -> Option<Self>;

    fn type_key() -> (k: u64)
        ensures
            k == Self::spec_key(),
    ;

    fn encode(&self) -> (d: Vec<i64>)
        ensures
            d@ == self.encoding(),
    ;

    fn decode(d: &Vec<i64>) -> (r: Option<Self>)
        ensures
            r == Self::decoding(d@),
    ;

    /// Decoding inverts encoding.
    proof fn lemma_round_trip(&self)
        ensures
            Self::decoding(self.encoding()) == Some(*self),
    ;
}

/// Wraps a typed component value into the payload stored at its type's id.
pub fn make_component<T: Component>(value: &T, id: usize) -> (cv: ComponentValue)
    ensures
        cv.type_id == id,
        cv.data@ == value.encoding(),
{
    ComponentValue { type_id: id, data: value.encode() }
}

/// Reads a typed component value back out of a stored payload.
pub fn read_component<T: Component>(cv: &ComponentValue) -> (r: Option<T>)
    ensures
        r == T::decoding(cv.data@),
{
    T::decode(&cv.data)
}

/// Wraps a typed resource value into the payload stored at its type's id.
pub fn make_resource<T: Resource>(value: &T, id: usize) -> (rv: ResourceValue)
    ensures
        rv.type_id == id,
        rv.data@ == value.encoding(),
{
    ResourceValue { type_id: id, data: value.encode() }
}

/// Reads a typed resource value back out of a stored payload.
pub fn read_resource<T: Resource>(rv: &ResourceValue) -> (r: Option<T>)
    ensures
        r == T::decoding(rv.data@),
{
    T::decode(&rv.data)
}

/// Typed storage round trip: adding the encoding of `value` at slot `id` and
/// reading the slot back yields a payload that decodes to `value` again.
/// Together with the contracts of `Entity::add_component` and
/// `Entity::get_component`, this pins the add-then-get round trip for any
/// component type.
pub proof fn lemma_component_round_trip<T: Component>(
    value: T,
    slots: Seq<Option<Seq<i64>>>,
    id: int,
)
    requires
        0 <= id < slots.len(),
    ensures
        slots.update(id, Some(value.encoding()))[id] == Some(value.encoding()),
        T::decoding(slots.update(id, Some(value.encoding()))[id].unwrap()) == Some(value),
{
    value.lemma_round_trip();
}

} // verus!
