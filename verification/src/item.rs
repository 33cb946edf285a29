//! Values held in object fields and root slots, and the engine's errors.

use vstd::prelude::*;

verus! {

/// The identity of a heap object: an index into the heap's slot array.
/// An identity is never reused while its object is live; once the
/// collector has reclaimed the slot, a later allocation may hand the
/// identity out again.
pub type ObjectId = usize;

/// A value stored in an object field or bound to a root.
///
/// A `Scalar` carries no heap reference. A `Pointer` refers to exactly one
/// heap object by identity, or to nothing at all (`Pointer(None)`), the
/// explicit null state.
#[derive(Clone, Copy, Debug, PartialEq, Eq, Structural)]
pub enum Item {
    Scalar,
    Pointer(Option<ObjectId>),
}

/// The errors the engine reports to its caller.
#[derive(Clone, Copy, Debug, PartialEq, Eq, Structural)]
pub enum GcError {
    /// Resource exhaustion on allocation.
    OutOfMemory,
    /// A direct reference to an identity that was never allocated or has
    /// been reclaimed.
    UnknownObject,
    /// A field access beyond an object's field count.
    IndexOutOfRange,
    /// An attempt to bind a non-pointer value as a root.
    InvalidRootValue,
}

/// What a collection pass reports: how many objects it reclaimed, and how
/// many objects (of what total declared size) remain live.
#[derive(Clone, Copy, Debug, PartialEq, Eq, Structural)]
pub struct CollectionStats {
    pub reclaimed_count: usize,
    pub live_count: usize,
    pub live_size: usize,
}

} // verus!
