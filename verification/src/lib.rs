//! Weightless classification: bit-packed samples, bit-level encoders,
//! counting filters, discriminators and label models.

pub mod word;
pub mod bits;
pub mod rng;
pub mod sample;
pub mod dataset;
pub mod label;
pub mod encode;
pub mod filter;
pub mod model;
pub mod util;
pub mod utils;
