use vstd::prelude::*;

verus! {

/// Why a dispatch was cut short.
#[derive(Clone, Copy, Debug, PartialEq, Eq, Structural)]
pub enum Fault {
    /// The object of a node was asked for while a bound method was still
    /// running on it.
    Reentrant,
    /// A node names no slot of the arena it was used with.
    Dangling,
}

} // verus!
