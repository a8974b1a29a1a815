use vstd::prelude::*;

verus! {

/// The disassembly listing tab.
#[derive(Clone, Copy, Debug, Default)]
pub struct AssemblyTab {}

} // verus!
