//! Copies of the kernel's tables, made in every shape that its code has and
//! held against what they must be; and a search in compiled code for copies
//! that leave out every other byte.

pub mod cases;
pub mod listing;
pub mod scan;
pub mod tables;
