//! What a type must be able to do to take part: name its tag, go into a
//! type-erased cell, and come out of one again by a checked downcast.

use std::any::TypeId;
use vstd::prelude::*;

verus! {

/// `std::any::TypeId`, the tag of a type. Nothing is known here of what is
/// inside one: a tag is copied, compared and handed on.
#[verifier::external_type_specification]
#[verifier::external_body]
pub struct ExTypeId(TypeId);

/// `TypeId`'s `==`. Two tags compare equal exactly when they are the same tag.
#[verifier::external_body]
pub(crate) fn same_tag(a: TypeId, b: TypeId) -> (same: bool)
    ensures
        same == (a == b),
{
    a == b
}

/// A type-erased cell: it holds one value of some type and knows that type's
/// tag.
pub trait Erased {
    /// The tag of the type of the value that is held.
    spec fn held(&self) -> TypeId;

    /// Reads the tag of the type of the value that is held.
    fn tag(&self) -> (tag: TypeId)
        ensures
            tag == self.held(),
    ;
}

/// A type whose values can be kept in cells of type `C`.
///
/// The laws say that a cell made from a value gives that value back, that it
/// is the tag which decides whether a downcast succeeds, and that a cell holds
/// nothing but its value.
pub trait Anyable<C: Erased>: Sized {
    /// The tag of this type.
    spec fn type_tag() -> TypeId;

    /// The cell that holds `self`.
    spec fn as_cell(self) -> C;

    /// The value of this type that `cell` holds, if it holds one.
    spec fn from_cell(cell: C) -> Option<Self>;

    /// A value that went into a cell comes out again, and the cell carries
    /// the tag of the value's type.
    proof fn lemma_as_cell(value: Self)
        ensures
            Self::from_cell(value.as_cell()) == Some(value),
            value.as_cell().held() == Self::type_tag(),
    ;

    /// A cell holds a value of this type exactly when it carries this type's
    /// tag, and then it is the cell of that value.
    proof fn lemma_from_cell(cell: C)
        ensures
            Self::from_cell(cell).is_some() <==> cell.held() == Self::type_tag(),
            Self::from_cell(cell) matches Some(value) ==> value.as_cell() == cell,
    ;

    /// Names the tag of this type.
    fn tag() -> (tag: TypeId)
        ensures
            tag == Self::type_tag(),
    ;

    /// Puts the value into a cell.
    fn into_cell(self) -> (cell: C)
        ensures
            cell == self.as_cell(),
    ;

    /// The value in `cell`, if it is of this type.
    fn downcast_ref(cell: &C) -> (found: Option<&Self>)
        ensures
            match found {
                Some(value) => Self::from_cell(*cell) == Some(*value),
                None => Self::from_cell(*cell).is_none(),
            },
    ;

    /// The value in `cell`, to be changed in place, if it is of this type.
    /// What is written through the reference is what the cell holds
    /// afterwards.
    fn downcast_mut(cell: &mut C) -> (found: Option<&mut Self>)
        ensures
            match found {
                Some(value) => Self::from_cell(*old(cell)) == Some(*value) && *final(cell) == (
                *final(value)).as_cell(),
                None => Self::from_cell(*old(cell)).is_none() && *final(cell) == *old(cell),
            },
    ;
}

/// The list `tags` with the tag of `T` behind it. A list of tags is built
/// with it type by type, for a query or for the filter of a subscription.
pub fn with_tag<C: Erased, T: Anyable<C>>(tags: Vec<TypeId>) -> (longer: Vec<TypeId>)
    ensures
        longer@ == tags@.push(T::type_tag()),
{
    let mut longer = tags;
    longer.push(T::tag());
    longer
}

} // verus!
