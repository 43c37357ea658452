//! Keeps a local view of the custom levels stored on a headset, the playlists
//! that reference them, and the set of levels that no playlist uses yet.

pub mod bmbf_utils;
pub mod ranking;
pub mod engine;
