pub mod mutable;
pub mod storage;
pub mod unit;
