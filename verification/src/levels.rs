//! The puzzle variants, one module each, and the laws that hold of them.

pub mod level1;
pub mod level2;
pub mod acceptance;
pub mod reading_back;
pub mod twice;
pub mod level3;
pub mod banded;
pub mod level4;
pub mod level5;
pub mod pairing;
