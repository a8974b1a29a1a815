//! Errors of the library.
use orthrus_core::data::DataError;
use vstd::prelude::*;

verus! {

/// The error of orthrus-core's data cursors.
#[verifier::external_type_specification]
#[verifier::external_body]
pub struct ExDataError(DataError);

/// Failures of segment extraction.
#[derive(Debug)]
pub enum FerroxError {
    /// Reading the header ran past the end of the data.
    DataError { source: DataError },
}

impl From<DataError> for FerroxError {
    fn from(source: DataError) -> (r: Self)
        ensures
            r == (FerroxError::DataError { source }),
    {
        FerroxError::DataError { source }
    }
}

impl vstd::std_specs::convert::FromSpecImpl<DataError> for FerroxError {
    open spec fn obeys_from_spec() -> bool {
        true
    }

    open spec fn from_spec(source: DataError) -> FerroxError {
        FerroxError::DataError { source }
    }
}

} // verus!
