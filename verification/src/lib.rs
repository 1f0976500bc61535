use vstd::prelude::*;

pub mod assignment;
pub mod decimal;
pub mod engine;
pub mod monitor;
pub mod placement;
pub mod registry;
pub mod text;

verus! {

/// Largest number of workspaces that are ever assigned.
pub const MAX_WORKSPACES: usize = 100;

/// Largest number of monitors that the registry tracks.
pub const MAX_MONITORS: usize = 10;

/// Number of consecutive workspaces that each monitor receives.
pub const WORKSPACES_PER_MONITOR: usize = 10;

} // verus!
