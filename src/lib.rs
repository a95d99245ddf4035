//! Radix-2 decimation-in-frequency FFT: size validation, the recursive
//! butterfly plan, and the bit-reversal reordering pass.
pub mod size;
pub mod reorder;
pub mod plan;
