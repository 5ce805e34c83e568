//! Resolves a filesystem path to the root of the project that contains it,
//! and keeps a small persisted registry of known projects: a map from
//! canonical path to project record, a usage-based priority ranking, and a
//! blacklist of paths never to treat as projects.
//!
//! The crate itself is pure logic: directory listings, canonical paths and
//! persisted bytes come in as plain values, and every function is verified.
//! A thin unverified front end does the actual filesystem and terminal work.

pub mod codec;
pub mod project;
pub mod state;
