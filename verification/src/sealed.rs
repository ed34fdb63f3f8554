//! The marker that keeps the ways to treat a payload a closed set: it cannot
//! be named outside the library, so nothing outside can implement it.

use vstd::prelude::*;

verus! {

/// The marker of what may stand for a way to treat a payload.
pub trait Sealed {

}

} // verus!
