//! A cycle-tracking garbage collector for reference-counted managed boxes.
//!
//! Boxes live in an arena owned by a [`Dumpster`]. Ordinary reference counting
//! frees acyclic garbage at once; boxes whose count stays positive after a drop
//! are registered, and [`Dumpster::collect_all`] finds and frees the registered
//! boxes that only dead cycles still hold.
use vstd::prelude::*;

pub mod graph;
pub mod collect;
pub mod laws;

verus! {

} // verus!
