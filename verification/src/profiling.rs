//! Running an action under a label.

use vstd::prelude::*;

verus! {

/// Executes `action` and returns what it returned; `label` names the action to whoever times it.
pub fn with_timer<T, F>(_label: &str, action: F) -> (r: T) where F: FnOnce() -> T
    requires
        action.requires(()),
    ensures
        action.ensures((), r),
{
    action()
}

} // verus!
