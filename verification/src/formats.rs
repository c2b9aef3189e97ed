//! Concrete object formats: each implements the conversion contract
//! [`crate::database::ObjectImpl`] against the generic object type.

pub mod colored_tlsh;
pub mod colored_tlsh_with_distance;
pub mod simple_tlsh;
