use vstd::prelude::*;

verus! {

/// The tab listing the functions that were found.
#[derive(Clone, Copy, Debug, Default)]
pub struct FunctionsTab {}

} // verus!
