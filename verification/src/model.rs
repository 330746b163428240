//! Discriminators, and the models that hold one for every label.

pub mod disc;
pub mod wisard;

pub use crate::model::disc::Discriminator;
pub use crate::model::wisard::{BinaryWisard, WisardBase};
