//! What a plugin is to a host: something that taps its callbacks into a
//! container of hooks when asked.

use vstd::prelude::*;

verus! {

/// A plugin for hook containers of type `HookContainer`. One plugin may serve
/// several container types, with one impl for each.
pub trait Plugin<HookContainer> {
    /// Taps this plugin's callbacks into the hooks of `hook_container`.
    fn apply(&self, hook_container: &mut HookContainer);
}

} // verus!
