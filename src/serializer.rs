//! A hook for values that can be written out and read back.
use vstd::prelude::*;

verus! {

/// A value that can be written out and read back; both steps do nothing
/// unless an implementation says otherwise.
pub trait Serializer {
    /// Writes the value out.
    fn serialize(&self) {
    }

    /// Reads the value back.
    fn deserialize(&self) {
    }
}

} // verus!
