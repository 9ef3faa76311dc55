//! What holds of the library as a whole.

pub mod frequency;
pub mod null_tests;
pub mod numbers;
pub mod order;
