//! What the nodes of a system under test send each other.

use vstd::prelude::*;

verus! {

/// A message: one number.
#[derive(Debug, Clone, Copy, PartialEq, Eq, Structural)]
pub struct Msg {
    pub inner: u64,
}

} // verus!
