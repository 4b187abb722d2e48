//! The plain values that containers hold.

use vstd::prelude::*;

verus! {

/// Strings that are interned wherever they are used as keys.
pub type InternalString = String;

#[derive(Clone, Debug, PartialEq, Eq)]
pub enum LoroValue {
    Null,
    Bool(bool),
    I32(i32),
    Str(String),
}

impl LoroValue {
    /// A copy that is the same value.
    pub fn duplicate(&self) -> (copy: LoroValue)
        ensures
            copy == *self,
    {
        match self {
            LoroValue::Null => LoroValue::Null,
            LoroValue::Bool(b) => LoroValue::Bool(*b),
            LoroValue::I32(i) => LoroValue::I32(*i),
            LoroValue::Str(s) => LoroValue::Str(s.clone()),
        }
    }
}

} // verus!
