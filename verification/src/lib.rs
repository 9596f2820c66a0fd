//! Dozor, the watch that walks ahead of a registry: compiles the OSV feed, an
//! inventory of what the registry holds and a policy into a blocklist that NORA
//! enforces.
//!
//! Three files in, one file out. What goes in is read by [`index`], [`inventory`]
//! and [`policy`]; [`builder`] holds one against the other by the version rules
//! of [`vers`], and [`blocklist`] is what comes out. [`intervals`] says what the
//! ranges of a feed come to and [`holdings`] what an inventory holds; [`laws`],
//! [`outcome`], [`recorded`] and [`tally`] say what holds of every build.

pub mod advisory;
pub mod arena;
pub mod blocklist;
pub mod builder;
pub mod date;
pub mod digest;
pub mod hits;
pub mod holdings;
pub mod index;
pub mod intervals;
pub mod inventory;
pub mod json;
pub mod laws;
pub mod order;
pub mod outcome;
pub mod pipeline;
pub mod policy;
pub mod recorded;
pub mod report;
pub mod room;
pub mod tally;
pub mod text;
pub mod vers;
