//! What an update asks of the runtime.

use vstd::prelude::*;

verus! {

/// The answer of a widget's update function.
#[derive(Debug)]
pub enum Action<T> {
    /// The state changed: render again and reconcile.
    Diff,
    /// Nothing to do.
    Nothing,
    /// Wait for the task; the message it ends in goes to the same widget.
    Async(T),
}

} // verus!
