//! Staged hook dispatch: extension points that plugins tap callbacks into and
//! that a host later calls under a bail, series or parallel discipline.
//!
//! Every collection keeps its registrations in a `Vec` and brings them into
//! invocation order, ascending by stage and stable within a stage, before it
//! dispatches.

pub mod bail;
pub mod bail_map;
pub mod parallel;
pub mod plugin;
pub mod registration;
pub mod series;
