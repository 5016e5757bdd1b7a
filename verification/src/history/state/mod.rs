pub mod bits_runs;
pub mod recent_bits;
