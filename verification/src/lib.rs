//! Verified core data structures of an incremental compiler front-end:
//! rule sets, token sets, panic-mode recovery, capture and child containers,
//! syntax error span alignment and messages, parsing sessions and immutable
//! syntax trees, parse-tree building, and the balanced token tree with its page storage.

pub mod arena;
pub mod lexis;
pub mod syntax;
pub mod units;
