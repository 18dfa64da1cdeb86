//! Confidential payments with built-in compliance.
//!
//! - Notes, their commitments and nullifiers ([`note`]), the Poseidon hash
//!   ([`poseidon`]) and the commitment tree ([`merkle`]).
//! - Circuits over the BLS12-381 scalar field ([`circuit`]), and the
//!   [`transfer`] and [`withdraw`] relations.
//! - The contracts: [`shielded_pool`], [`zk_verifier`],
//!   [`attestation_registry`] and [`issuer_registry`], with what they share in
//!   [`interfaces`] and what they take from the host in [`host`].
//! - The proving pipeline ([`prover`]), byte encodings ([`encoding`]),
//!   published artifacts ([`artifacts`]) and the command line ([`cli`]).

pub mod artifacts;
pub mod attestation_registry;
pub mod bytes;
pub mod circuit;
pub mod cli;
pub mod curve;
pub mod encoding;
pub mod field;
pub mod hex_codec;
pub mod host;
pub mod interfaces;
pub mod issuer_registry;
pub mod laws;
pub mod layout;
pub mod merkle;
pub mod note;
pub mod number;
pub mod poseidon;
pub mod prover;
pub mod shielded_pool;
pub mod store;
pub mod text;
pub mod transfer;
pub mod util;
pub mod withdraw;
pub mod zk_verifier;
