use vstd::prelude::*;

verus! {

/// A mutation handed down by the surrounding engine and dispatched by
/// `Collision::apply`.
#[derive(Debug)]
pub enum Operation {
    /// Bind the key to the value.
    Insert(Vec<u8>, Vec<u8>),
    /// Unbind the key, if it is bound.
    Delete(Vec<u8>),
}

} // verus!
