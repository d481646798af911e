//! The error type shared by every structure of the crate.

use crate::coo::coo_error::CooError;
use crate::csl::csl_error::CslError;
use crate::csl::csl_line_constructor::CslLineConstructorError;
use vstd::prelude::*;

verus! {

/// Contains all errors related to this crate.
#[derive(Debug, PartialEq, Eq, Clone, Copy)]
#[non_exhaustive]
pub enum Error {
    /// An error of the coordinate structure.
    Coo(CooError),
    /// An error of the compressed sparse line structure.
    Csl(CslError),
    /// An error of the line constructor.
    CslLineConstructor(CslLineConstructorError),
    /// The internal buffer can't store all necessary data.
    InsufficientCapacity,
    /// An unknown error that probably shouldn't have happened.
    UnknownError,
}

impl Error {
    /// The name of the variant and, in brackets, of the error that it holds.
    pub open spec fn name(self) -> Seq<char> {
        match self {
            Error::Coo(CooError::InvalidIndcsOrder) => "Coo(InvalidIndcsOrder)"@,
            Error::Coo(CooError::InvalidIndcs) => "Coo(InvalidIndcs)"@,
            Error::Coo(CooError::DuplicatedIndices) => "Coo(DuplicatedIndices)"@,
            Error::Coo(CooError::NnzGreaterThanMaximumNnz) => "Coo(NnzGreaterThanMaximumNnz)"@,
            Error::Csl(CslError::DataIndcsLengthGreaterThanDimsLength) => {
                "Csl(DataIndcsLengthGreaterThanDimsLength)"@
            },
            Error::Csl(CslError::DiffDataIndcsLength) => "Csl(DiffDataIndcsLength)"@,
            Error::Csl(CslError::DuplicatedIndices) => "Csl(DuplicatedIndices)"@,
            Error::Csl(CslError::IndcsGreaterThanEqualDimLength) => {
                "Csl(IndcsGreaterThanEqualDimLength)"@
            },
            Error::Csl(CslError::InnermostDimsZero) => "Csl(InnermostDimsZero)"@,
            Error::Csl(CslError::InvalidIterDim) => "Csl(InvalidIterDim)"@,
            Error::Csl(CslError::InvalidOffsetsLength) => "Csl(InvalidOffsetsLength)"@,
            Error::Csl(CslError::InvalidOffsetsOrder) => "Csl(InvalidOffsetsOrder)"@,
            Error::Csl(CslError::LastOffsetDifferentNnz) => "Csl(LastOffsetDifferentNnz)"@,
            Error::Csl(CslError::NnzGreaterThanMaximumNnz) => "Csl(NnzGreaterThanMaximumNnz)"@,
            Error::Csl(CslError::OffsLengthOverflow) => "Csl(OffsLengthOverflow)"@,
            Error::CslLineConstructor(CslLineConstructorError::DimsOverflow) => {
                "CslLineConstructor(DimsOverflow)"@
            },
            Error::CslLineConstructor(CslLineConstructorError::UnsortedIndices) => {
                "CslLineConstructor(UnsortedIndices)"@
            },
            Error::CslLineConstructor(CslLineConstructorError::EmptyDimension) => {
                "CslLineConstructor(EmptyDimension)"@
            },
            Error::CslLineConstructor(CslLineConstructorError::MaxNumOfLines) => {
                "CslLineConstructor(MaxNumOfLines)"@
            },
            Error::InsufficientCapacity => "Inefficient Capacity"@,
            Error::UnknownError => "UnknownError"@,
        }
    }

    /// The name of the variant and, in brackets, of the error that it holds.
    pub fn to_string(&self) -> (r: String)
        ensures
            r@ == self.name(),
    {
        match *self {
            Error::Coo(CooError::InvalidIndcsOrder) => "Coo(InvalidIndcsOrder)".to_owned(),
            Error::Coo(CooError::InvalidIndcs) => "Coo(InvalidIndcs)".to_owned(),
            Error::Coo(CooError::DuplicatedIndices) => "Coo(DuplicatedIndices)".to_owned(),
            Error::Coo(CooError::NnzGreaterThanMaximumNnz) => {
                "Coo(NnzGreaterThanMaximumNnz)".to_owned()
            },
            Error::Csl(CslError::DataIndcsLengthGreaterThanDimsLength) => {
                "Csl(DataIndcsLengthGreaterThanDimsLength)".to_owned()
            },
            Error::Csl(CslError::DiffDataIndcsLength) => "Csl(DiffDataIndcsLength)".to_owned(),
            Error::Csl(CslError::DuplicatedIndices) => "Csl(DuplicatedIndices)".to_owned(),
            Error::Csl(CslError::IndcsGreaterThanEqualDimLength) => {
                "Csl(IndcsGreaterThanEqualDimLength)".to_owned()
            },
            Error::Csl(CslError::InnermostDimsZero) => "Csl(InnermostDimsZero)".to_owned(),
            Error::Csl(CslError::InvalidIterDim) => "Csl(InvalidIterDim)".to_owned(),
            Error::Csl(CslError::InvalidOffsetsLength) => "Csl(InvalidOffsetsLength)".to_owned(),
            Error::Csl(CslError::InvalidOffsetsOrder) => "Csl(InvalidOffsetsOrder)".to_owned(),
            Error::Csl(CslError::LastOffsetDifferentNnz) => {
                "Csl(LastOffsetDifferentNnz)".to_owned()
            },
            Error::Csl(CslError::NnzGreaterThanMaximumNnz) => {
                "Csl(NnzGreaterThanMaximumNnz)".to_owned()
            },
            Error::Csl(CslError::OffsLengthOverflow) => "Csl(OffsLengthOverflow)".to_owned(),
            Error::CslLineConstructor(CslLineConstructorError::DimsOverflow) => {
                "CslLineConstructor(DimsOverflow)".to_owned()
            },
            Error::CslLineConstructor(CslLineConstructorError::UnsortedIndices) => {
                "CslLineConstructor(UnsortedIndices)".to_owned()
            },
            Error::CslLineConstructor(CslLineConstructorError::EmptyDimension) => {
                "CslLineConstructor(EmptyDimension)".to_owned()
            },
            Error::CslLineConstructor(CslLineConstructorError::MaxNumOfLines) => {
                "CslLineConstructor(MaxNumOfLines)".to_owned()
            },
            Error::InsufficientCapacity => "Inefficient Capacity".to_owned(),
            Error::UnknownError => "UnknownError".to_owned(),
        }
    }
}

impl From<CooError> for Error {
    fn from(f: CooError) -> (r: Self) {
        Error::Coo(f)
    }
}

impl vstd::std_specs::convert::FromSpecImpl<CooError> for Error {
    open spec fn obeys_from_spec() -> bool {
        true
    }

    open spec fn from_spec(f: CooError) -> Self {
        Error::Coo(f)
    }
}

impl From<CslError> for Error {
    fn from(f: CslError) -> (r: Self) {
        Error::Csl(f)
    }
}

impl vstd::std_specs::convert::FromSpecImpl<CslError> for Error {
    open spec fn obeys_from_spec() -> bool {
        true
    }

    open spec fn from_spec(f: CslError) -> Self {
        Error::Csl(f)
    }
}

impl From<CslLineConstructorError> for Error {
    fn from(f: CslLineConstructorError) -> (r: Self) {
        Error::CslLineConstructor(f)
    }
}

impl vstd::std_specs::convert::FromSpecImpl<CslLineConstructorError> for Error {
    open spec fn obeys_from_spec() -> bool {
        true
    }

    open spec fn from_spec(f: CslLineConstructorError) -> Self {
        Error::CslLineConstructor(f)
    }
}

} // verus!
