pub mod computation;
pub mod memory;
pub mod names;
pub mod outcomes;
pub mod registers;
