//! Requests and responses, and the engine that answers them.

pub mod anchors;
pub mod answers;
pub mod context;
pub mod dto;
pub mod engine;
pub mod footprints;
pub mod paths;
pub mod ranking;
pub mod reaching;
pub mod sources;
