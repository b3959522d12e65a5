//! Arguments of a Vault `xCallNative` call.

use vstd::prelude::*;

verus! {

/// The arguments of a call to the Vault's `xCallNative` function; the call
/// takes none yet.
#[derive(Clone, Debug, PartialEq, Eq, Structural)]
pub struct XCallNative {}

impl XCallNative {
    pub fn new() -> (r: Self)
        ensures
            r == (XCallNative {}),
    {
        XCallNative {}
    }
}

} // verus!
