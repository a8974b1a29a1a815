use crate::{BinaryFormat, ProcessorType};
use vstd::prelude::*;

verus! {

/// Where the configuration of a new import stands.
#[derive(PartialEq, Eq, Structural, Clone, Copy, Debug)]
pub enum ImportState {
    Waiting,
    Configured,
    Cancelled,
}

impl Default for ImportState {
    fn default() -> (r: Self)
        ensures
            r == ImportState::Waiting,
    {
        ImportState::Waiting
    }
}

/// The choices offered when a file is imported: its format and its processor.
pub struct ImportWindow {
    supported_formats: Vec<(&'static str, BinaryFormat)>,
    supported_processors: Vec<(&'static str, ProcessorType)>,
}

impl ImportWindow {
    pub closed spec fn formats(&self) -> Seq<(&'static str, BinaryFormat)> {
        self.supported_formats@
    }

    pub closed spec fn processors(&self) -> Seq<(&'static str, ProcessorType)> {
        self.supported_processors@
    }

    pub fn new(
        supported_formats: Vec<(&'static str, BinaryFormat)>,
        supported_processors: Vec<(&'static str, ProcessorType)>,
    ) -> (r: Self)
        ensures
            r.formats() == supported_formats@,
            r.processors() == supported_processors@,
    {
        Self { supported_formats, supported_processors }
    }

    /// The formats offered, each with its label.
    pub fn supported_formats(&self) -> (r: &Vec<(&'static str, BinaryFormat)>)
        ensures
            r@ == self.formats(),
    {
        &self.supported_formats
    }

    /// The processors offered, each with its label.
    pub fn supported_processors(&self) -> (r: &Vec<(&'static str, ProcessorType)>)
        ensures
            r@ == self.processors(),
    {
        &self.supported_processors
    }
}

} // verus!
