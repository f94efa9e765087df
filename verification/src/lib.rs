//! Verified core of the subvox voice-analysis backend.

pub mod audio;
pub mod frames;
pub mod notes;
pub mod peaks;
pub mod pitch;
