//! git-hud core: the decision logic of a Git heads-up display, verified with Verus.
//!
//! Reading repositories, the local cache database, subprocesses and the desktop shell
//! are left to the application around this crate; it hands the library plain values
//! and performs the actions the library decides on.

pub mod text;
pub mod lanes;
pub mod error;
pub mod workspace;
pub mod tally;
pub mod stats;
pub mod reviews;
pub mod model;
pub mod git;
pub mod conflicts;
pub mod fetch;
pub mod alerts;
pub mod remote;
