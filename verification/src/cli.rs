//! The `attesta-prover` command line, without its input and output: reading
//! arguments and files' texts, and writing the texts that it prints and
//! stores.

pub mod args;
pub mod bundle;
pub mod commands;
pub mod verify;
