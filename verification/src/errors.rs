use vstd::prelude::*;
use crate::value::Value;

verus! {

/// An error returned by the container.
///
/// Every failure of resolution or of an explicit cache write is one of these;
/// an error raised by a factory is carried through verbatim as `Factory`.
#[derive(Debug)]
pub enum DiError {
    /// The key has no entry in any override layer or the base store.
    NotFound(String),
    /// The key reoccurred within the same resolution chain.
    Cycle(String),
    /// The entry is marked async but was resolved on the synchronous path.
    AsyncUnsupported(String),
    /// An explicit cache write targeted a missing or non-singleton key.
    InvalidCacheTarget(String),
    /// The payload a failing factory handed back, untouched.
    Factory(Value),
}

/// The mathematical shape of a [`DiError`]: keys as character sequences.
pub ghost enum ErrV {
    NotFound(Seq<char>),
    Cycle(Seq<char>),
    AsyncUnsupported(Seq<char>),
    InvalidCacheTarget(Seq<char>),
    Factory(Value),
}

impl View for DiError {
    type V = ErrV;

    open spec fn view(&self) -> ErrV {
        match self {
            DiError::NotFound(k) => ErrV::NotFound(k@),
            DiError::Cycle(k) => ErrV::Cycle(k@),
            DiError::AsyncUnsupported(k) => ErrV::AsyncUnsupported(k@),
            DiError::InvalidCacheTarget(k) => ErrV::InvalidCacheTarget(k@),
            DiError::Factory(v) => ErrV::Factory(*v),
        }
    }
}

/// The view of a resolution outcome: the value on success, else the error's
/// view.
pub open spec fn outcome(r: Result<Value, DiError>) -> Result<Value, ErrV> {
    match r {
        Ok(v) => Ok(v),
        Err(e) => Err(e@),
    }
}

/// The view of a unit-valued outcome: success, or the error's view.
pub open spec fn outcome_unit(r: Result<(), DiError>) -> Result<(), ErrV> {
    match r {
        Ok(u) => Ok(u),
        Err(e) => Err(e@),
    }
}

impl DiError {
    /// A short description of the error kind, for hosts that print errors.
    pub fn describe(&self) -> &'static str {
        match self {
            DiError::NotFound(_) => "no provider registered for key",
            DiError::Cycle(_) => "dependency cycle detected at key",
            DiError::AsyncUnsupported(_) => "provider is async and requires async resolution",
            DiError::InvalidCacheTarget(_) => "cannot set cache for non-singleton or unknown key",
            DiError::Factory(_) => "factory raised an error",
        }
    }
}

} // verus!
