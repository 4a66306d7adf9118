//! The root endpoint's greeting.

use vstd::prelude::*;

verus! {

/// The greeting served at the root path.
pub fn hello_world() -> (r: &'static str)
    ensures
        r@ == "Hello, world!"@,
{
    "Hello, world!"
}

} // verus!
