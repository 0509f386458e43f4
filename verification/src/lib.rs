//! Engine for an image-tile canvas: blocks (single images or groups of
//! child blocks) are arranged on a bounded-width canvas by a deterministic
//! row-packing reflow, linked into "chains" whose drag and resize deltas
//! propagate to every member, boxed into and unboxed out of groups, and
//! limited in memory by a least-recently-used cap on decoded animation
//! frames.
//!
//! All coordinates and sizes are integer canvas units; the hosting
//! application converts to and from its own screen representation.

pub mod constants;
pub mod frames;
mod ids;
pub mod geom;
pub mod layout;
pub mod block;
pub mod block_manager;
