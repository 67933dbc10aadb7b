//! Bitcoin P2PKH address derivation and vanity address search.
//!
//! The base58 codec, the derivation of addresses and wallet import strings
//! and the search loop are verified. Elliptic-curve arithmetic, the hash
//! functions and the random source are outside collaborators, reached
//! through a small set of trusted wrappers in `primitives`.
pub mod address;
pub mod base58;
pub mod primitives;
pub mod search;
