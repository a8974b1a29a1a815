//! Segment extraction for executable headers and an address-range type registry.
use vstd::prelude::*;

pub mod error;
pub mod format;
pub mod registry;
pub mod views;

verus! {

/// Executable formats that an import can be configured with.
#[derive(PartialEq, Eq, Structural, Copy, Clone, Debug)]
pub enum BinaryFormat {
    BinaryFile,
    GameCubeDOL,
}

impl Default for BinaryFormat {
    fn default() -> (r: Self)
        ensures
            r == BinaryFormat::GameCubeDOL,
    {
        BinaryFormat::GameCubeDOL
    }
}

/// Processor architectures that an import can be configured with.
#[derive(PartialEq, Eq, Structural, Copy, Clone, Debug)]
pub enum ProcessorType {
    PowerPCGekko,
}

impl Default for ProcessorType {
    fn default() -> (r: Self)
        ensures
            r == ProcessorType::PowerPCGekko,
    {
        ProcessorType::PowerPCGekko
    }
}

} // verus!
