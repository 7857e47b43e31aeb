pub mod iters;
pub mod lexis;
pub mod syntax;
pub mod unit;
pub mod watcher;
