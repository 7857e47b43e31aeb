pub mod rule;
pub mod session;
pub mod immutable;
pub mod index;
pub mod recovery;
pub mod node;
pub mod cluster;
pub mod morphism;
pub mod captures;
pub mod children;
pub mod describe;
pub mod error;
pub mod observer;
pub mod parse;
pub mod no;
pub mod simple;
pub mod tree;
pub mod void;
