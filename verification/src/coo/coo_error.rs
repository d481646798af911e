//! Errors of the coordinate structure.

use vstd::prelude::*;

verus! {

/// Any error related to `Coo` operations.
#[derive(Debug, PartialEq, Eq, Clone, Copy)]
#[non_exhaustive]
pub enum CooError {
    /// Some index isn't in ascending order.
    InvalidIndcsOrder,
    /// Some index is greater than the defined dimensions.
    InvalidIndcs,
    /// There are duplicated indices.
    DuplicatedIndices,
    /// nnz is greater than the maximum permitted number of nnz.
    NnzGreaterThanMaximumNnz,
}

impl CooError {
    /// The name of the variant, as characters.
    pub open spec fn name(self) -> Seq<char> {
        match self {
            CooError::InvalidIndcsOrder => "InvalidIndcsOrder"@,
            CooError::InvalidIndcs => "InvalidIndcs"@,
            CooError::DuplicatedIndices => "DuplicatedIndices"@,
            CooError::NnzGreaterThanMaximumNnz => "NnzGreaterThanMaximumNnz"@,
        }
    }

    /// The name of the variant.
    pub fn to_string(&self) -> (r: String)
        ensures
            r@ == self.name(),
    {
        match *self {
            CooError::InvalidIndcsOrder => "InvalidIndcsOrder".to_owned(),
            CooError::InvalidIndcs => "InvalidIndcs".to_owned(),
            CooError::DuplicatedIndices => "DuplicatedIndices".to_owned(),
            CooError::NnzGreaterThanMaximumNnz => "NnzGreaterThanMaximumNnz".to_owned(),
        }
    }
}

} // verus!
