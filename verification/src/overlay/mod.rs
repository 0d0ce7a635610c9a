//! Overlay building: hashing, WAD archives and the build pipeline.

pub mod fast;
pub mod game_outcome;
pub mod game_paths;
pub mod hash;
pub mod laws;
pub mod map_cache;
pub mod outcome;
pub mod patch_outcome;
pub mod pipeline;
pub mod reconciling;
pub mod runtime;
pub mod wad;
