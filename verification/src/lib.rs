//! Streaming-render and reconciliation logic of the Topcoat web framework.
use vstd::prelude::*;

pub mod text;
pub mod reconcile;
pub mod deferred;
pub mod page;
pub mod attr;
pub mod boundary;
pub mod react;
pub mod memo;
pub mod edit;

verus! {
} // verus!
