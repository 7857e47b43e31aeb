pub mod spread;
pub mod string;
pub mod tree;
