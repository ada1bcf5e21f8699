//! Facts about the library itself.
use vstd::prelude::*;

verus! {

/// The version of the library.
pub const VERSION: &'static str = "0.2.0";

/// Returns the version of the library.
pub fn get_version() -> (r: &'static str)
    ensures
        r@ == VERSION@,
{
    VERSION
}

} // verus!
