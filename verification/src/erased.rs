//! Declared-error-type tags and the tagged, type-erased error container.
//!
//! A call site that requests initialization declares what kind of failure its
//! computation can produce: none at all, a typed error (identified here by a
//! numeric type identifier), or absence (an "optional" computation returned
//! nothing). Failure outcomes are stored type-erased together with their tag;
//! because waiter cells are partitioned by tag, downcasting an erased error
//! back to the declared type always succeeds.

use vstd::prelude::*;

verus! {

/// The declared error kind of one initialization call site.
///
/// Two requests for the same key under different tags are independent: they
/// never share a waiter cell.
#[derive(Clone, Copy, PartialEq, Eq, Structural, Debug, Hash)]
pub enum TypeTag {
    /// The computation cannot fail.
    NoError,
    /// The computation may fail with the error type identified by this value.
    Typed(u64),
    /// The computation may produce no value at all.
    Absence,
}

/// Sentinel error delivered when an "optional" computation returns nothing.
#[derive(Clone, Copy, PartialEq, Eq, Structural, Debug)]
pub struct OptionallyNone;

/// A type-erased failure outcome: either a caller error value stored together
/// with the identifier of its declared type, or the absence sentinel.
#[derive(Clone, Copy, Debug)]
pub enum ErasedError<E> {
    /// An error value of the declared type identified by the first field.
    Typed(u64, E),
    /// The computation produced no value.
    Absence,
}

impl<E> ErasedError<E> {
    /// The tag under which this erased error may be stored.
    pub open spec fn tag(self) -> TypeTag {
        match self {
            ErasedError::Typed(id, _) => TypeTag::Typed(id),
            ErasedError::Absence => TypeTag::Absence,
        }
    }
}

/// What downcasting an erased error to the declared type `type_id` yields.
pub open spec fn spec_downcast<E>(err: ErasedError<E>, type_id: u64) -> Option<E> {
    match err {
        ErasedError::Typed(id, e) => if id == type_id { Some(e) } else { None },
        ErasedError::Absence => None,
    }
}

/// Recover the typed error value from an erased error, checking that it was
/// stored under the expected type identifier.
pub fn downcast<E>(err: ErasedError<E>, type_id: u64) -> (r: Option<E>)
    ensures
        r == spec_downcast(err, type_id),
{
    match err {
        ErasedError::Typed(id, e) => {
            if id == type_id {
                Some(e)
            } else {
                None
            }
        }
        ErasedError::Absence => None,
    }
}

/// Erasing an error value under a type identifier and downcasting it back to
/// the same identifier recovers the value unchanged.
pub proof fn lemma_downcast_roundtrip<E>(type_id: u64, e: E)
    ensures
        spec_downcast(ErasedError::Typed(type_id, e), type_id) == Some(e),
{
}

/// Downcasting to any other type identifier fails instead of confusing types,
/// and the absence sentinel never downcasts to a typed error.
pub proof fn lemma_downcast_no_confusion<E>(stored_id: u64, asked_id: u64, e: E)
    requires
        stored_id != asked_id,
    ensures
        spec_downcast(ErasedError::Typed(stored_id, e), asked_id) is None,
        spec_downcast(ErasedError::<E>::Absence, asked_id) is None,
{
}

} // verus!
