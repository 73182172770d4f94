//! Core data structures for straight-skeleton based polygon offsetting.
//!
//! The skeleton engine drives a shrinking wavefront of polygon edges. Its
//! discrete bookkeeping lives here, fully verified:
//!
//! - [`priority_queue`]: the event queue, a binary min-heap generic over the
//!   item comparison, used to process wavefront events in time order;
//! - [`vertex_queue`]: the wavefront topology, a set of circular doubly
//!   linked chains over an append-only arena of vertex slots, supporting
//!   merge (vertex collapse) and split (reflex vertex reaching an opposing
//!   edge);
//! - [`skeleton`]: the permanent event log entries and their replay, which
//!   reconstructs the wavefront topology after any prefix of events.
//!
//! The numeric side of the engine (coordinates, rays, bisectors, event
//! times) works with floating-point values and therefore lives with the
//! callers of this crate; it drives the structures here through plain
//! indices.

pub mod priority_queue;
pub mod skeleton;
pub mod vertex_queue;
