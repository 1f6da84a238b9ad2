//! A fixed answer for a host that wants to know whether the library is there.

use vstd::prelude::*;

verus! {

/// The text that `test_wasm` answers with.
pub open spec fn liveness_message() -> Seq<char> {
    "WASM module loaded successfully!"@
}

/// Answers with a fixed message; a host calls it to see that the library has
/// loaded.
pub fn test_wasm() -> (message: String)
    ensures
        message@ == liveness_message(),
{
    "WASM module loaded successfully!".to_owned()
}

} // verus!
