//! Arithmetic modulo the field prime and modulo the group order.

pub mod bytes;
pub mod choice;
pub mod congruence;
pub mod field_element;
pub mod field_element_serde;
pub mod limbs;
pub mod lookup_table;
pub mod modular;
pub mod scalar;
