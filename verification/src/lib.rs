//! Inspection of raw smart-contract bytecode and a hash-based
//! challenge–response proof scheme.
//!
//! Both components are built from hex-encoded input; malformed hex degrades
//! to an empty buffer rather than an error, and every query on an empty
//! buffer is well defined.

pub mod analyzer;
pub mod hexcode;
pub mod hashing;
pub mod prover;
pub mod record;
pub mod text;

pub use analyzer::BytecodeAnalyzer;
pub use hexcode::{is_hex_digit, all_hex_digits, spec_hex_decode, spec_hex_encode};
pub use hashing::sha256_of;
pub use prover::{ProofData, ProofGenerator};
