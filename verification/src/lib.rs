//! demixer: the modelling core of a context-mixing compressor.
//!
//! Bits, fixed-point arithmetic, probability estimators, look-up tables,
//! mixers, adaptive probability maps, the sliding input window and the
//! binary suffix tree that gathers context histories.

pub mod bit;
pub mod fixed_point;
pub mod util;
pub mod history;
pub mod random;
pub mod estimators;
pub mod lut;
pub mod entropy;
pub mod mixing;
pub mod predictor;
