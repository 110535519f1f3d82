//! A fixed-capacity object pool with tracing mark-and-sweep garbage
//! collection.
//!
//! The pool hands out integer identities for records that carry two optional
//! outgoing links (`head` and `tail`) and an opaque payload.  A root set pins
//! identities as always reachable; when the free list runs dry, allocation
//! triggers a full stop-the-world collection pass that marks everything
//! reachable from the roots and sweeps the rest back onto the free list.

use vstd::prelude::*;

mod reach;
mod sets;
mod heap;

verus! {

pub use crate::heap::Object;
pub use crate::heap::Heap;
pub use crate::heap::GcError;

} // verus!
