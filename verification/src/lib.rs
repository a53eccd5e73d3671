//! Context footprint: how much code has to be read to reason about a unit of code.

pub mod app;
pub mod domain;
