//! Reader and writer for an encrypted `.it` archive container.
//!
//! The container layers a word-oriented stream cipher, optional zlib
//! compression, and filename/salt-derived keys and offsets over a simple
//! header / entry-table / payload layout.

pub mod common;
pub mod encryption;
pub mod errors;
pub mod extract;
pub mod filter;
pub mod keystream;
pub mod list;
pub mod pack;
pub mod salts;
pub mod text;
pub mod zlib;
