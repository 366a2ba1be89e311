//! Bundle composition: feature modules contribute named, interdependent units
//! of work to a schedule builder, which validates the dependency graph and
//! compiles it into a staged per-tick schedule.
pub mod bundle;
pub mod laws;
pub mod render;
pub mod schedule;
pub mod ui;
pub mod world;
