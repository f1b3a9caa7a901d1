use vstd::prelude::*;

verus! {

/// An opaque value handle.
///
/// The engine never inspects a value: it only stores handles in singleton
/// cache slots, passes them to factories, and returns them to callers. A host
/// embedding the engine maps each handle to whatever payload it manages.
#[derive(Clone, Copy, PartialEq, Eq, Structural, Debug)]
pub struct Value {
    pub handle: u64,
}

impl Value {
    /// Wraps a raw handle.
    pub fn new(handle: u64) -> (v: Value)
        ensures
            v.handle == handle,
    {
        Value { handle }
    }
}

} // verus!
