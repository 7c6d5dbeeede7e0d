# ternary_zigzag

Zigzag (JPEG-order) scanning of square matrices and their blocks, the inverse
reconstruction, and run-length encoding, written in Verus with proofs.

- `src/order.rs`: the zigzag walk (`zigzag_rank`, `zigzag_cell`) and `zigzag_indices`.
- `src/grid.rs`: the model of matrices, blocks and scans.
- `src/scan.rs`: `zigzag_scan`, `inverse_zigzag`, `block_zigzag`, `inverse_block_zigzag`,
  `full_block_zigzag`.
- `src/rle.rs`: `RLEPair`, `rle_encode`, `rle_decode`.
- `src/laws.rs`: round trips and other properties of the library as a whole.
- `app/lib.rs`: `rle_compression_ratio`, which works in floating point.
