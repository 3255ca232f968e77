//! Core engine for a capture-the-flag competition site.
//!
//! Organizers author challenges and a competition description as files on
//! disk; competitors register teams, submit flags, and view a scoreboard.
//! This crate holds the two pieces with real invariants: the repository
//! reconciliation engine, which converges the challenge store to match an
//! organizer-edited directory tree while garbage-collecting orphaned
//! assets, and the solve-tracking engine, which credits a team for a
//! challenge at most once and keeps a derived leaderboard consistent.
//! Filesystem, database and HTTP plumbing live outside the crate and hand
//! plain values in.

pub mod accounts;
pub mod assets;
pub mod bits;
pub mod challenge;
pub mod ctf;
pub mod errors;
pub mod store;
pub mod util;
pub mod views;
pub mod policy;
pub mod reconcile;
pub mod render;
pub mod scoring;
pub mod timestamp;
