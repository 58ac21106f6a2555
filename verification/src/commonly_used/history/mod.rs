pub mod generic;
pub mod linear;
pub mod one_slot;
