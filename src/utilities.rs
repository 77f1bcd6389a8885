//! A value together with whether it was edited since it was last read.
pub use crate::hop_net::NetworkType;
use vstd::prelude::*;

verus! {

/// A value and a flag that records an edit.
pub struct EditableValue<T> {
    pub value: T,
    pub changed: bool,
}

impl<T> EditableValue<T> {
    /// An unedited value.
    pub fn new(value: T) -> (r: Self)
        ensures
            r.value == value,
            !r.changed,
    {
        Self { value, changed: false }
    }
}

} // verus!
