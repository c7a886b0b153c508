pub mod vm;
pub mod circuit;
pub mod encoding;
pub mod commitment;
