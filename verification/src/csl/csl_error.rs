//! Errors of the compressed sparse line structure.

use vstd::prelude::*;

verus! {

/// Any error related to `Csl` operations.
#[derive(Debug, PartialEq, Eq, Clone, Copy)]
pub enum CslError {
    /// Data or indices length is greater than the product of all dimensions length.
    DataIndcsLengthGreaterThanDimsLength,
    /// The data length is different than the indices length.
    DiffDataIndcsLength,
    /// The indices of a line are not strictly ascending.
    DuplicatedIndices,
    /// An index is greater or equal to the innermost dimension length.
    IndcsGreaterThanEqualDimLength,
    /// Some dimension of length zero comes after a dimension that is not empty.
    InnermostDimsZero,
    /// Line iterator must deal with non-empty dimensions.
    InvalidIterDim,
    /// Offsets length is different than the dimensions product (without the
    /// innermost dimension) plus one.
    InvalidOffsetsLength,
    /// Offsets aren't in ascending order.
    InvalidOffsetsOrder,
    /// Last offset is not equal to the nnz.
    LastOffsetDifferentNnz,
    /// nnz is greater than the maximum permitted number of nnz.
    NnzGreaterThanMaximumNnz,
    /// It isn't possible to have more lines than the largest `usize` minus two.
    OffsLengthOverflow,
}

impl CslError {
    /// The name of the variant, as characters.
    pub open spec fn name(self) -> Seq<char> {
        match self {
        CslError::DataIndcsLengthGreaterThanDimsLength => "DataIndcsLengthGreaterThanDimsLength"@,
        CslError::DiffDataIndcsLength => "DiffDataIndcsLength"@,
        CslError::DuplicatedIndices => "DuplicatedIndices"@,
        CslError::IndcsGreaterThanEqualDimLength => "IndcsGreaterThanEqualDimLength"@,
        CslError::InnermostDimsZero => "InnermostDimsZero"@,
        CslError::InvalidIterDim => "InvalidIterDim"@,
        CslError::InvalidOffsetsLength => "InvalidOffsetsLength"@,
        CslError::InvalidOffsetsOrder => "InvalidOffsetsOrder"@,
        CslError::LastOffsetDifferentNnz => "LastOffsetDifferentNnz"@,
        CslError::NnzGreaterThanMaximumNnz => "NnzGreaterThanMaximumNnz"@,
        CslError::OffsLengthOverflow => "OffsLengthOverflow"@,
    }
    }

    /// The name of the variant.
    pub fn to_string(&self) -> (r: String)
        ensures
            r@ == self.name(),
    {
        match *self {
            CslError::DataIndcsLengthGreaterThanDimsLength => {
                "DataIndcsLengthGreaterThanDimsLength".to_owned()
            },
            CslError::DiffDataIndcsLength => "DiffDataIndcsLength".to_owned(),
            CslError::DuplicatedIndices => "DuplicatedIndices".to_owned(),
            CslError::IndcsGreaterThanEqualDimLength => "IndcsGreaterThanEqualDimLength".to_owned(),
            CslError::InnermostDimsZero => "InnermostDimsZero".to_owned(),
            CslError::InvalidIterDim => "InvalidIterDim".to_owned(),
            CslError::InvalidOffsetsLength => "InvalidOffsetsLength".to_owned(),
            CslError::InvalidOffsetsOrder => "InvalidOffsetsOrder".to_owned(),
            CslError::LastOffsetDifferentNnz => "LastOffsetDifferentNnz".to_owned(),
            CslError::NnzGreaterThanMaximumNnz => "NnzGreaterThanMaximumNnz".to_owned(),
            CslError::OffsLengthOverflow => "OffsLengthOverflow".to_owned(),
        }
    }
}

} // verus!
