//! The ways in which a file that was not synced can come back after a crash.

use vstd::prelude::*;

verus! {

/// How a crash corrupts a file.
#[derive(Debug, Clone, Copy, PartialEq, Eq, Structural)]
pub enum CorruptionStyle {
    JournaledFs,
    UnjournaledFs,
    CosmicRay,
    InfantWithMagnet,
}

} // verus!
