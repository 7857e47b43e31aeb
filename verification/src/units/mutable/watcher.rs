use vstd::prelude::*;

use crate::syntax::error::ErrorRef;
use crate::syntax::node::NodeRef;

verus! {

/// An observer of the nodes and syntax errors that a write into a mutable
/// compilation unit creates or changes.
pub trait Watcher {
    /// Reports a node that the write created or changed.
    fn report_node(&mut self, node_ref: &NodeRef);

    /// Reports a syntax error that the write created or changed.
    fn report_error(&mut self, error_ref: &ErrorRef);
}

/// A watcher that ignores every report.
pub struct VoidWatcher;

impl Default for VoidWatcher {
    fn default() -> (result: Self) {
        VoidWatcher
    }
}

impl Watcher for VoidWatcher {
    fn report_node(&mut self, node_ref: &NodeRef) {
    }

    fn report_error(&mut self, error_ref: &ErrorRef) {
    }
}

} // verus!
