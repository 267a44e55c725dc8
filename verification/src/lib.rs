//! Verified bookkeeping for a tile-tracking renderer and its script cache.
//!
//! - [`action_cache`] decodes script code once and keeps the decoded blocks.
//! - [`command`], [`fingerprint`], [`coalesce`] and [`dirty`] find out which
//!   part of a frame differs from the one before.
//! - [`passes`] orders the render passes of a frame, and [`surface`] puts both
//!   together.
//! - [`bounded_cache`], [`buffer_pool`] and [`texture_pool`] keep what is
//!   expensive to make.
//! - [`dynamic_transforms`] and [`globals`] set up the uniforms of draws.

use vstd::prelude::*;

pub mod action_cache;
pub mod bounded_cache;
pub mod buffer_pool;
pub mod coalesce;
pub mod command;
pub mod dirty;
pub mod dynamic_transforms;
pub mod fingerprint;
pub mod globals;
pub mod gpu;
pub mod passes;
pub mod region;
pub mod signature;
pub mod surface;
pub mod texture_pool;

verus! {

} // verus!
