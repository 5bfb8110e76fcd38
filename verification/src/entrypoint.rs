//! What a kernel sets up before it runs.

use vstd::prelude::*;

verus! {

/// The panic hook of a kernel built without one: it sets nothing up, and a
/// panic is handled as the platform handles it.
pub fn set_panic_hook() {
}

} // verus!
