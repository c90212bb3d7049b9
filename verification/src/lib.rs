//! Gamma-spectrum text loading and the integer side of peak processing.

pub mod data_processing;
pub mod spectrum;
pub mod text;
