//! A wrapper for values shown in diagnostics.
use vstd::prelude::*;

verus! {

/// A value wrapped for display in diagnostics.
pub struct Dbg<T>(pub T);

} // verus!
