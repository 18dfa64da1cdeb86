//! What the library promises of its calls: what each call gives for what it is
//! given, and how calls relate to one another.
//!
//! Each law speaks of a call by its arguments, its result and the states
//! before and after it.

pub mod attestations;
pub mod blocks;
pub mod checking;
pub mod circuits;
pub mod claims;
pub mod commands;
pub mod files;
pub mod issuers;
pub mod pool;
pub mod proving;
pub mod texts;
pub mod tree;
pub mod verifying;
