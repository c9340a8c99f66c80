//! The key under which a provider is registered: the `TypeId` of the type it
//! produces.

use std::any::TypeId;
use vstd::prelude::*;

verus! {

/// `std::any::TypeId`, carried through the library as an opaque key.
#[verifier::external_type_specification]
#[verifier::external_body]
pub struct ExTypeId(TypeId);

/// Calls `TypeId::of::<T>()`. Nothing is claimed of the key it returns: it is
/// a value that identifies `T` and that the library only compares.
#[verifier::external_body]
pub fn type_id_of<T: ?Sized + 'static>() -> (key: TypeId) {
    TypeId::of::<T>()
}

/// Calls `TypeId`'s `==`. Claimed: it returns `true` exactly when the two keys
/// are the same value (std documents `TypeId` equality as identity of types,
/// and `PartialEq` for it is derived over its bits).
#[verifier::external_body]
pub fn same_type(a: &TypeId, b: &TypeId) -> (r: bool)
    ensures
        r == (*a == *b),
{
    *a == *b
}

/// Whether `key` occurs in `keys`.
pub fn contains_key(keys: &Vec<TypeId>, key: &TypeId) -> (r: bool)
    ensures
        r == keys@.contains(*key),
{
    let mut i: usize = 0;
    while i < keys.len()
        invariant
            i <= keys@.len(),
            forall|j: int| 0 <= j < i ==> keys@[j] != *key,
        decreases keys@.len() - i,
    {
        if same_type(&keys[i], key) {
            return true;
        }
        i = i + 1;
    }
    false
}

} // verus!
