//! Zigzag scanning and run-length encoding for (ternary) coefficient matrices.
pub mod grid;
pub mod laws;
pub mod order;
pub mod rle;
pub mod scan;

pub use order::zigzag_indices;
pub use rle::{rle_decode, rle_encode, RLEPair};
pub use scan::{block_zigzag, full_block_zigzag, inverse_block_zigzag, inverse_zigzag, zigzag_scan};
