//! A lookup argument over KZG commitments on BN254: a prover shows that every
//! entry of a committed witness vector occurs in a public table, with a proof
//! of constant size and one pairing check for the verifier.
//!
//! The table is preprocessed once ([`indexer`]); a proof ([`prover`]) rests on
//! the logarithmic-derivative identity `sum of m_i / (t_i + beta) = sum of
//! 1 / (f_j + beta)` between table and witness, carried by polynomial
//! commitments ([`kzg`]) and made non-interactive by a transcript
//! ([`transcript`]); the verifier ([`verify`]) checks it with one product of
//! pairings. That the verifier accepts every proof of the prover is proved in
//! [`completeness`].

pub mod completeness;
pub mod data_structures;
pub mod domain;
pub mod error;
pub mod field;
pub mod group;
pub mod indexer;
pub mod kzg;
pub mod measure;
pub mod modmath;
pub mod poly;
pub mod protocol;
pub mod prover;
pub mod rng;
pub mod roots;
pub mod table;
pub mod transcript;
pub mod utils;
pub mod verify;
