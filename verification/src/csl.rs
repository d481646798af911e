//! CSL (Compressed Sparse Line).
//!
//! A generalization of the CSC/CSR structures for N dimensions. Beware that this
//! structure doesn't make any distinction of what is a `column` or a `row` because
//! the order of the elements is up to the caller.

pub mod csl_error;
pub mod csl_line_constructor;
pub mod csl_line_iter;
pub mod csl_line_iter_proofs;
pub mod csl_model;
pub mod csl_proofs;
pub mod csl_rnd;
pub mod csl_utils;

use core::ops::Range;
use crate::csl::csl_error::CslError;
use crate::csl::csl_line_constructor::{CslLineConstructor, CslLineConstructorError, first_nonzero};
use crate::csl::csl_line_iter::{CslLineIterMut, CslLineIterRef, fresh_iter};
use crate::csl::csl_model::{
    CslData, empty_data, first_violation, lemma_cut_unique, lemma_line_wf, lemma_sub_dim_wf,
    lemma_truncate_wf, line_hi, line_lo, line_offs_spec, line_ok, line_spec, lines_ok,
    sub_dim_in_range, sub_dim_spec, sub_dim_start, sub_dims, swapped, truncate_spec, valid,
    value_spec, zeroed,
};
use crate::csl::csl_proofs::{lemma_sub_dim_in_range, lemma_valid_wf};
use crate::csl::csl_utils::{correct_offs_len, data_idx_in, line_offs, lower_bound, outermost_offs};
use crate::error::Error;
use crate::utils::{
    are_in_ascending_order, are_in_strictly_ascending_order, are_in_upper_bound, ascending,
    is_zero_after_nonzero, max_nnz, ParallelIteratorWrapper,
};
use vstd::prelude::*;
use vstd::slice::slice_subrange;

verus! {

/// Tells whether every line that lies within `indcs` is strictly ascending.
fn are_lines_ok(indcs: &[usize], offs: &[usize]) -> (r: bool)
    requires
        ascending(offs@),
    ensures
        r == lines_ok(indcs@, offs@),
{
    let n: usize = offs.len();
    if n < 2 {
        return true;
    }
    let first: usize = offs[0];
    let mut i: usize = 0;
    while i < n - 1
        invariant
            n >= 2,
            i <= n - 1,
            n == offs@.len(),
            first == offs@[0],
            ascending(offs@),
            forall|k: int| 0 <= k < i ==> #[trigger] line_ok(indcs@, offs@, k),
        decreases n - 1 - i,
    {
        let lo: usize = offs[i] - first;
        let hi: usize = offs[i + 1] - first;
        if hi <= indcs.len() && !are_in_strictly_ascending_order(slice_subrange(indcs, lo, hi)) {
            assert(!line_ok(indcs@, offs@, i as int));
            return false;
        }
        assert(line_ok(indcs@, offs@, i as int));
        i += 1;
    }
    true
}

/// The first rule that the four parts break, if they break one.
pub fn check_parts<T, const D: usize>(
    dims: &[usize; D],
    data: &[T],
    indcs: &[usize],
    offs: &[usize],
) -> (r: Option<CslError>)
    ensures
        r == first_violation(CslData { dims: dims@, data: data@, indcs: indcs@, offs: offs@ }),
{
    let ghost v = CslData { dims: dims@, data: data@, indcs: indcs@, offs: offs@ };
    if is_zero_after_nonzero(dims.as_slice()) {
        return Some(CslError::InnermostDimsZero);
    }
    if data.len() != indcs.len() {
        return Some(CslError::DiffDataIndcsLength);
    }
    if !are_in_ascending_order(offs) {
        return Some(CslError::InvalidOffsetsOrder);
    }
    if data.len() > max_nnz(dims) {
        return Some(CslError::DataIndcsLengthGreaterThanDimsLength);
    }
    if D > 0 && !are_in_upper_bound(indcs, dims[D - 1]) {
        return Some(CslError::IndcsGreaterThanEqualDimLength);
    }
    assert(!(v.dims.len() > 0 && v.index_out_of_bound()));
    if !are_lines_ok(indcs, offs) {
        return Some(CslError::DuplicatedIndices);
    }
    if D > 0 {
        match correct_offs_len(dims) {
            Err(_) => {
                return Some(CslError::OffsLengthOverflow);
            },
            Ok(n) => {
                if offs.len() != n {
                    return Some(CslError::InvalidOffsetsLength);
                }
            },
        }
    }
    let m: usize = offs.len();
    if m > 0 && offs[m - 1] - offs[0] != data.len() {
        return Some(CslError::LastOffsetDifferentNnz);
    }
    None
}

/// The shape of the view of a line, the positions of its values and the
/// place of its first offset, if the structure holds the line.
fn line_parts<T, const D: usize>(
    dims: &[usize; D],
    data: &[T],
    indcs: &[usize],
    offs: &[usize],
    idx: &[usize; D],
) -> (r: Option<([usize; 1], usize, usize, usize)>)
    ensures
        match r {
            Some((d, lo, hi, line)) => lo <= hi <= data@.len() && hi <= indcs@.len() && line + 2
                <= offs@.len() && line + 2 <= usize::MAX && line_offs_spec(dims@, idx@, offs@)
                == Some((line as int, lo as int, hi as int)) && line_spec(
                CslData { dims: dims@, data: data@, indcs: indcs@, offs: offs@ },
                idx@,
            ) == Some(
                CslData {
                    dims: d@,
                    data: data@.subrange(lo as int, hi as int),
                    indcs: indcs@.subrange(lo as int, hi as int),
                    offs: offs@.subrange(line as int, line + 2),
                },
            ),
            None => line_spec(
                CslData { dims: dims@, data: data@, indcs: indcs@, offs: offs@ },
                idx@,
            ) is None,
        },
        (CslData { dims: dims@, data: data@, indcs: indcs@, offs: offs@ }).wf() && r is Some
            ==> line_spec(
            CslData { dims: dims@, data: data@, indcs: indcs@, offs: offs@ },
            idx@,
        ).unwrap().wf() && line_spec(
            CslData { dims: dims@, data: data@, indcs: indcs@, offs: offs@ },
            idx@,
        ).unwrap().balanced(),
{
    let ghost v = CslData { dims: dims@, data: data@, indcs: indcs@, offs: offs@ };
    if D == 0 {
        return None;
    }
    let last_dim: usize = dims[D - 1];
    let ranges = match line_offs(dims, idx, offs) {
        Some(r) => r,
        None => {
            return None;
        },
    };
    let line: usize = ranges[0].start;
    let lo: usize = ranges[1].start;
    let hi: usize = ranges[1].end;
    if lo > hi || hi > data.len() || hi > indcs.len() {
        return None;
    }
    let d: [usize; 1] = [last_dim];
    assert(d@ =~= seq![dims@.last()]);
    proof {
        if v.wf() {
            lemma_line_wf(v, idx@);
        }
    }
    Some((d, lo, hi, line))
}

/// The shape of a sub dimension, the positions of its values and the places
/// of its offsets, if the structure holds it.
fn sub_dim_parts<T, const D: usize, const TD: usize>(
    dims: &[usize; D],
    data: &[T],
    indcs: &[usize],
    offs: &[usize],
    range: Range<usize>,
) -> (r: Option<([usize; TD], usize, usize, usize, usize)>)
    requires
        (CslData { dims: dims@, data: data@, indcs: indcs@, offs: offs@ }).wf(),
    ensures
        match r {
            Some((d, a, b, s, e)) => a <= b <= data@.len() && b <= indcs@.len() && s <= e
                <= offs@.len() && a == sub_dim_start(
                CslData { dims: dims@, data: data@, indcs: indcs@, offs: offs@ },
                TD as int,
                range.start,
                range.end,
            ) && sub_dim_spec(
                CslData { dims: dims@, data: data@, indcs: indcs@, offs: offs@ },
                TD as int,
                range.start,
                range.end,
            ) == Some(
                CslData {
                    dims: d@,
                    data: data@.subrange(a as int, b as int),
                    indcs: indcs@.subrange(a as int, b as int),
                    offs: offs@.subrange(s as int, e as int),
                },
            ),
            None => sub_dim_spec(
                CslData { dims: dims@, data: data@, indcs: indcs@, offs: offs@ },
                TD as int,
                range.start,
                range.end,
            ) is None,
        },
        r is Some ==> sub_dim_spec(
            CslData { dims: dims@, data: data@, indcs: indcs@, offs: offs@ },
            TD as int,
            range.start,
            range.end,
        ).unwrap().wf(),
        valid(CslData { dims: dims@, data: data@, indcs: indcs@, offs: offs@ })
            && sub_dim_in_range(
            CslData { dims: dims@, data: data@, indcs: indcs@, offs: offs@ },
            TD as int,
            range.start,
            range.end,
        ) ==> r is Some,
{
    proof {
        let v = CslData { dims: dims@, data: data@, indcs: indcs@, offs: offs@ };
        assert(offs.len() <= usize::MAX);
        if sub_dim_spec(v, TD as int, range.start, range.end) is Some {
            lemma_sub_dim_wf(v, TD as int, range.start, range.end);
        }
        if valid(v) && sub_dim_in_range(v, TD as int, range.start, range.end) {
            lemma_sub_dim_in_range(v, TD as int, range.start, range.end);
        }
    }
    if range.start > range.end || TD > D {
        return None;
    }
    let mut d: [usize; TD] = [0usize;TD];
    if TD == 0 {
        assert(d@ =~= Seq::<usize>::empty());
        assert(data@.subrange(0, 0) =~= Seq::<T>::empty());
        assert(indcs@.subrange(0, 0) =~= Seq::<usize>::empty());
        assert(offs@.subrange(0, 0) =~= Seq::<usize>::empty());
        return Some((d, 0, 0, 0, 0));
    }
    if TD == 1 {
        if offs.len() < 2 || offs[1] < offs[0] {
            return None;
        }
        let e: usize = offs[1] - offs[0];
        if e > indcs.len() {
            return None;
        }
        proof {
            assert(line_ok(indcs@, offs@, 0));
            assert(indcs@.subrange(0, e as int) == indcs@.subrange(
                line_lo(offs@, 0),
                line_hi(offs@, 0),
            ));
        }
        let p: usize = lower_bound(indcs, 0, e, range.start);
        proof {
            lemma_cut_unique(indcs@, 0, e as int, range.start, p as int);
            let whole = indcs@.subrange(0, e as int);
            let part = indcs@.subrange(p as int, e as int);
            assert forall|x: int, y: int| 0 <= x < y < part.len() implies part[x] < part[y] by {
                assert(whole[x + p] < whole[y + p]);
            }
        }
        let q: usize = lower_bound(indcs, p, e, range.end);
        proof {
            lemma_cut_unique(indcs@, p as int, e as int, range.end, q as int);
        }
        d[0] = dims[D - 1];
        assert(d@ =~= seq![dims@.last()]);
        return Some((d, p, q, 0, 2));
    }
    let mut k: usize = 0;
    while k < TD
        invariant
            k <= TD <= D,
            d@.len() == TD,
            forall|j: int| 0 <= j < k ==> d@[j] == dims@[D - TD + j],
        decreases TD - k,
    {
        d[k] = dims[D - TD + k];
        k += 1;
    }
    d[0] = range.end - range.start;
    assert(d@ =~= sub_dims(dims@, TD as int, range.start, range.end));
    let ranges = outermost_offs(&d, offs, range);
    let s: usize = ranges[0].start;
    let e1: usize = ranges[0].end;
    let a: usize = ranges[1].start;
    let b: usize = ranges[1].end;
    if a > b || b > data.len() || b > indcs.len() || s > e1 || e1 > offs.len() {
        return None;
    }
    Some((d, a, b, s, e1))
}

/// The values `data[lo..hi]`, to read and to write.
fn slice_mut_part<T>(data: &mut Vec<T>, lo: usize, hi: usize) -> (r: &mut [T])
    requires
        lo <= hi <= old(data)@.len(),
    ensures
        r@ == old(data)@.subrange(lo as int, hi as int),
        final(data)@ == old(data)@.subrange(0, lo as int) + final(r)@ + old(data)@.subrange(
            hi as int,
            old(data)@.len() as int,
        ),
{
    let (head, rest) = data.as_mut_slice().split_at_mut(lo);
    let (mid, tail) = rest.split_at_mut(hi - lo);
    mid
}

/// Base structure of the compressed sparse line format, backed by vectors.
#[derive(Clone, Debug, Eq, Ord, PartialEq, PartialOrd)]
pub struct Csl<T, const D: usize> {
    pub(crate) data: Vec<T>,
    pub(crate) dims: [usize; D],
    pub(crate) indcs: Vec<usize>,
    pub(crate) offs: Vec<usize>,
}

/// A compressed sparse line structure that borrows its parts.
#[derive(Clone, Copy, Debug, Eq, Ord, PartialEq, PartialOrd)]
pub struct CslRef<'a, T, const D: usize> {
    pub(crate) data: &'a [T],
    pub(crate) dims: [usize; D],
    pub(crate) indcs: &'a [usize],
    pub(crate) offs: &'a [usize],
}

/// A compressed sparse line structure that borrows its parts and whose
/// values can be changed.
#[derive(Debug, Eq, Ord, PartialEq, PartialOrd)]
pub struct CslMut<'a, T, const D: usize> {
    /// The stored values.
    pub data: &'a mut [T],
    /// Length of each axis, outermost first.
    pub dims: [usize; D],
    /// Innermost coordinate of each stored value.
    pub indcs: &'a [usize],
    /// Where each line starts and ends in `data` and `indcs`.
    pub offs: &'a [usize],
}

impl<'a, T, const D: usize> View for CslMut<'a, T, D> {
    type V = CslData<T>;

    open spec fn view(&self) -> CslData<T> {
        CslData { dims: self.dims@, data: self.data@, indcs: self.indcs@, offs: self.offs@ }
    }
}

impl<'a, T, const D: usize> CslMut<'a, T, D> {
    /// The same structure, to read only.
    pub fn as_ref(&self) -> (r: CslRef<'_, T, D>)
        ensures
            r@ == self@,
    {
        CslRef { data: &*self.data, dims: self.dims, indcs: self.indcs, offs: self.offs }
    }
}

impl<T, const D: usize> View for Csl<T, D> {
    type V = CslData<T>;

    open(crate) spec fn view(&self) -> CslData<T> {
        CslData { dims: self.dims@, data: self.data@, indcs: self.indcs@, offs: self.offs@ }
    }
}

impl<'a, T, const D: usize> View for CslRef<'a, T, D> {
    type V = CslData<T>;

    open(crate) spec fn view(&self) -> CslData<T> {
        CslData { dims: self.dims@, data: self.data@, indcs: self.indcs@, offs: self.offs@ }
    }
}

impl<T, const D: usize> Csl<T, D> {
    /// Creates a valid CSL instance.
    ///
    /// # Arguments
    ///
    /// * `dims`: Array of dimensions
    /// * `data`: Data collection
    /// * `indcs`: Indices of each data item
    /// * `offs`: Offset of each innermost line
    pub fn new(dims: [usize; D], data: Vec<T>, indcs: Vec<usize>, offs: Vec<usize>) -> (r: Result<
        Self,
        Error,
    >)
        ensures
            match first_violation(
                CslData { dims: dims@, data: data@, indcs: indcs@, offs: offs@ },
            ) {
                Some(e) => r == Err::<Self, Error>(Error::Csl(e)),
                None => r is Ok && r.unwrap()@ == (CslData {
                    dims: dims@,
                    data: data@,
                    indcs: indcs@,
                    offs: offs@,
                }) && r.unwrap()@.wf() && r.unwrap()@.balanced(),
            },
    {
        match check_parts(&dims, data.as_slice(), indcs.as_slice(), offs.as_slice()) {
            Some(e) => Err(Error::Csl(e)),
            None => {
                let csl = Csl { data, dims, indcs, offs };
                proof {
                    lemma_valid_wf(csl@);
                }
                Ok(csl)
            },
        }
    }

    /// Creates an empty instance with initial capacity.
    ///
    /// # Arguments
    ///
    /// * `nnz`: Number of Non-Zero elements
    /// * `nolp1`: Number Of Lines Plus 1, i.e., the dimensions product
    ///   (without the innermost dimension) plus 1
    pub fn with_capacity(nnz: usize, nolp1: usize) -> (r: Self)
        ensures
            r@ == (CslData { offs: Seq::<usize>::empty(), ..empty_data::<T>(D as nat) }),
            r@.wf(),
            r@.balanced(),
    {
        let dims: [usize; D] = [0usize;D];
        assert(dims@ =~= empty_data::<T>(D as nat).dims);
        Csl {
            data: Vec::with_capacity(nnz),
            dims,
            indcs: Vec::with_capacity(nnz),
            offs: Vec::with_capacity(nolp1),
        }
    }

    /// The same structure, borrowed.
    pub fn as_ref(&self) -> (r: CslRef<'_, T, D>)
        ensures
            r@ == self@,
    {
        CslRef {
            data: self.data.as_slice(),
            dims: self.dims,
            indcs: self.indcs.as_slice(),
            offs: self.offs.as_slice(),
        }
    }

    /// The definitions of all dimensions.
    pub fn dims(&self) -> (r: &[usize; D])
        ensures
            r@ == self@.dims,
    {
        &self.dims
    }

    /// The data that is being stored.
    pub fn data(&self) -> (r: &[T])
        ensures
            r@ == self@.data,
    {
        self.data.as_slice()
    }

    /// Indices (indcs) of a line, i.e., indices of the innermost dimension.
    pub fn indcs(&self) -> (r: &[usize])
        ensures
            r@ == self@.indcs,
    {
        self.indcs.as_slice()
    }

    /// Number of NonZero elements.
    pub fn nnz(&self) -> (r: usize)
        ensures
            r == self@.data.len(),
    {
        self.data.len()
    }

    /// The joining of two consecutives offsets (offs) represent the starting and
    /// ending points of a line in the `data` and `indcs` slices.
    pub fn offs(&self) -> (r: &[usize])
        ensures
            r@ == self@.offs,
    {
        self.offs.as_slice()
    }

    /// Any immutable line reference determined by `indcs`. The innermost
    /// dimension is ignored.
    pub fn line(&self, indcs: [usize; D]) -> (r: Option<CslRef<'_, T, 1>>)
        ensures
            match r {
                Some(l) => line_spec(self@, indcs@) == Some(l@),
                None => line_spec(self@, indcs@) is None,
            },
            self@.wf() && r is Some ==> r.unwrap()@.wf() && r.unwrap()@.balanced(),
    {
        self.as_ref().line(indcs)
    }

    /// Iterator that returns immutable line references of the outermost
    /// dimension.
    pub fn outermost_line_iter(&self) -> (r: Result<CslLineIterRef<'_, T, D>, Error>)
        ensures
            D < 2 ==> r == Err::<CslLineIterRef<'_, T, D>, Error>(
                Error::Csl(CslError::InvalidIterDim),
            ),
            D >= 2 ==> r is Ok && r.unwrap()@ == fresh_iter(self@),
            D >= 2 && valid(self@) ==> r.unwrap()@.wf(),
    {
        CslLineIterRef::new(
            self.dims,
            self.data.as_slice(),
            self.indcs.as_slice(),
            self.offs.as_slice(),
        )
    }

    /// The iterator of the outermost dimension, held for an executor that
    /// walks it in parallel.
    pub fn outermost_line_rayon_iter(&self) -> (r: Result<
        ParallelIteratorWrapper<CslLineIterRef<'_, T, D>>,
        Error,
    >)
        ensures
            D < 2 ==> r == Err::<ParallelIteratorWrapper<CslLineIterRef<'_, T, D>>, Error>(
                Error::Csl(CslError::InvalidIterDim),
            ),
            D >= 2 ==> r is Ok && r.unwrap().0@ == fresh_iter(self@),
            D >= 2 && valid(self@) ==> r.unwrap().0@.wf(),
    {
        match self.outermost_line_iter() {
            Ok(it) => Ok(ParallelIteratorWrapper(it)),
            Err(e) => Err(e),
        }
    }

    /// Retrieves an immutable reference of any sub dimension.
    ///
    /// # Arguments
    ///
    /// * `range`: Starting and ending of the desired dimension
    pub fn sub_dim<const TD: usize>(&self, range: Range<usize>) -> (r: Option<CslRef<'_, T, TD>>)
        requires
            self@.wf(),
        ensures
            match r {
                Some(l) => sub_dim_spec(self@, TD as int, range.start, range.end) == Some(l@),
                None => sub_dim_spec(self@, TD as int, range.start, range.end) is None,
            },
            r is Some ==> r.unwrap()@.wf(),
            valid(self@) && sub_dim_in_range(self@, TD as int, range.start, range.end)
                ==> r is Some,
    {
        self.as_ref().sub_dim(range)
    }

    /// Retrieves an immutable reference of a single data value.
    ///
    /// # Arguments
    ///
    /// * `indcs`: Indices of all dimensions
    pub fn value(&self, indcs: [usize; D]) -> (r: Option<&T>)
        requires
            self@.wf(),
        ensures
            match r {
                Some(x) => value_spec(self@, indcs@) == Some(*x),
                None => value_spec(self@, indcs@) is None,
            },
    {
        match data_idx_in(&self.dims, self.indcs.as_slice(), self.offs.as_slice(), &indcs) {
            Some(idx) => Some(&self.data[idx]),
            None => None,
        }
    }

    /// Clears all values and dimensions.
    pub fn clear(&mut self)
        ensures
            final(self)@ == empty_data::<T>(D as nat),
            final(self)@.wf(),
            final(self)@.balanced(),
    {
        self.dims = [0usize;D];
        self.data.clear();
        self.indcs.clear();
        self.offs.clear();
        self.offs.push(0);
        assert(self.dims@ =~= empty_data::<T>(D as nat).dims);
        assert(self.offs@ =~= seq![0usize]);
    }

    /// See [`CslLineConstructor`](CslLineConstructor) for more information.
    pub fn constructor(&mut self) -> (r: Result<CslLineConstructor<'_, T, D>, Error>)
        requires
            old(self)@.wf(),
            old(self)@.balanced(),
        ensures
            D == 0 ==> r == Err::<CslLineConstructor<'_, T, D>, Error>(
                Error::CslLineConstructor(CslLineConstructorError::EmptyDimension),
            ) && final(self)@ == old(self)@,
            D > 0 ==> r is Ok && r.unwrap().wf() && r.unwrap().csl@ == (CslData {
                offs: if old(self)@.offs.len() == 0 {
                    seq![0usize]
                } else {
                    old(self)@.offs
                },
                ..old(self)@
            }) && r.unwrap().cursor.curr_dim_idx() == first_nonzero(old(self)@.dims) && *final(
                r.unwrap().csl
            ) == *final(self),
    {
        CslLineConstructor::new(self)
    }

    /// Mutable version of [`data`](#method.data).
    pub fn data_mut(&mut self) -> (r: &mut [T])
        ensures
            r@ == old(self)@.data,
            final(self)@ == (CslData { data: final(r)@, ..old(self)@ }),
    {
        self.data.as_mut_slice()
    }

    /// Mutable version of [`line`](#method.line). What is written through the
    /// view is written to the values of the line.
    pub fn line_mut(&mut self, indcs: [usize; D]) -> (r: Option<CslMut<'_, T, 1>>)
        ensures
            match r {
                Some(l) => line_spec(old(self)@, indcs@) == Some(l@) && final(self)@ == (CslData {
                    data: old(self)@.data.subrange(
                        0,
                        line_offs_spec(old(self)@.dims, indcs@, old(self)@.offs).unwrap().1,
                    ) + final(l.data)@ + old(self)@.data.subrange(
                        line_offs_spec(old(self)@.dims, indcs@, old(self)@.offs).unwrap().2,
                        old(self)@.data.len() as int,
                    ),
                    ..old(self)@
                }),
                None => line_spec(old(self)@, indcs@) is None && final(self)@ == old(self)@,
            },
    {
        match line_parts(
            &self.dims,
            self.data.as_slice(),
            self.indcs.as_slice(),
            self.offs.as_slice(),
            &indcs,
        ) {
            None => None,
            Some((dims, lo, hi, line)) => Some(
                CslMut {
                    data: slice_mut_part(&mut self.data, lo, hi),
                    dims,
                    indcs: slice_subrange(self.indcs.as_slice(), lo, hi),
                    offs: slice_subrange(self.offs.as_slice(), line, line + 2),
                },
            ),
        }
    }

    /// Mutable version of [`outermost_line_iter`](#method.outermost_line_iter).
    pub fn outermost_line_iter_mut(&mut self) -> (r: Result<CslLineIterMut<'_, T, D>, Error>)
        ensures
            D < 2 ==> r == Err::<CslLineIterMut<'_, T, D>, Error>(
                Error::Csl(CslError::InvalidIterDim),
            ) && final(self)@ == old(self)@,
            D >= 2 ==> r is Ok && r.unwrap()@ == fresh_iter(old(self)@) && final(self)@
                == (CslData { data: final(r.unwrap().data)@, ..old(self)@ }),
            D >= 2 && valid(old(self)@) ==> r.unwrap()@.wf(),
    {
        CslLineIterMut::new(
            self.dims,
            self.data.as_mut_slice(),
            self.indcs.as_slice(),
            self.offs.as_slice(),
        )
    }

    /// Mutable version of
    /// [`outermost_line_rayon_iter`](#method.outermost_line_rayon_iter).
    pub fn outermost_line_rayon_iter_mut(&mut self) -> (r: Result<
        ParallelIteratorWrapper<CslLineIterMut<'_, T, D>>,
        Error,
    >)
        ensures
            D < 2 ==> r == Err::<ParallelIteratorWrapper<CslLineIterMut<'_, T, D>>, Error>(
                Error::Csl(CslError::InvalidIterDim),
            ) && final(self)@ == old(self)@,
            D >= 2 ==> r is Ok && r.unwrap().0@ == fresh_iter(old(self)@) && final(self)@
                == (CslData { data: final(r.unwrap().0.data)@, ..old(self)@ }),
            D >= 2 && valid(old(self)@) ==> r.unwrap().0@.wf(),
    {
        match self.outermost_line_iter_mut() {
            Ok(it) => Ok(ParallelIteratorWrapper(it)),
            Err(e) => Err(e),
        }
    }

    /// Mutable version of [`sub_dim`](#method.sub_dim). What is written
    /// through the view is written to the values of the sub dimension.
    pub fn sub_dim_mut<const TD: usize>(&mut self, range: Range<usize>) -> (r: Option<
        CslMut<'_, T, TD>,
    >)
        requires
            old(self)@.wf(),
        ensures
            match r {
                Some(l) => sub_dim_spec(old(self)@, TD as int, range.start, range.end) == Some(l@)
                    && final(self)@ == (CslData {
                    data: old(self)@.data.subrange(
                        0,
                        sub_dim_start(old(self)@, TD as int, range.start, range.end),
                    ) + final(l.data)@ + old(self)@.data.subrange(
                        sub_dim_start(old(self)@, TD as int, range.start, range.end)
                            + l@.data.len(),
                        old(self)@.data.len() as int,
                    ),
                    ..old(self)@
                }),
                None => sub_dim_spec(old(self)@, TD as int, range.start, range.end) is None
                    && final(self)@ == old(self)@,
            },
            r is Some ==> r.unwrap()@.wf(),
            valid(old(self)@) && sub_dim_in_range(
                old(self)@,
                TD as int,
                range.start,
                range.end,
            ) ==> r is Some,
    {
        match sub_dim_parts::<T, D, TD>(
            &self.dims,
            self.data.as_slice(),
            self.indcs.as_slice(),
            self.offs.as_slice(),
            range,
        ) {
            None => None,
            Some((dims, a, b, s, e)) => Some(
                CslMut {
                    data: slice_mut_part(&mut self.data, a, b),
                    dims,
                    indcs: slice_subrange(self.indcs.as_slice(), a, b),
                    offs: slice_subrange(self.offs.as_slice(), s, e),
                },
            ),
        }
    }

    /// Intra-swap a single data value.
    ///
    /// # Arguments
    ///
    /// * `a`: First set of indices
    /// * `b`: Second set of indices
    pub fn swap_value(&mut self, a: [usize; D], b: [usize; D]) -> (r: bool)
        requires
            old(self)@.wf(),
        ensures
            match (old(self)@.place(a@), old(self)@.place(b@)) {
                (Some(p), Some(q)) => r && final(self)@ == swapped(old(self)@, p, q),
                _ => !r && final(self)@ == old(self)@,
            },
    {
        if let Some(a_idx) = data_idx_in(
            &self.dims,
            self.indcs.as_slice(),
            self.offs.as_slice(),
            &a,
        ) {
            if let Some(b_idx) = data_idx_in(
                &self.dims,
                self.indcs.as_slice(),
                self.offs.as_slice(),
                &b,
            ) {
                swap_entries(&mut self.data, a_idx, b_idx);
                return true;
            }
        }
        false
    }

    /// Truncates all values in the exactly exclusive point defined by `indcs`:
    /// what is stored at `indcs` or after it, in row-major order, goes.
    pub fn truncate(&mut self, indcs: [usize; D])
        requires
            old(self)@.wf(),
        ensures
            final(self)@ == truncate_spec(old(self)@, indcs@),
            final(self)@.wf(),
            old(self)@.balanced() ==> final(self)@.balanced(),
    {
        proof {
            lemma_truncate_wf(self@, indcs@);
        }
        let ranges = match line_offs(&self.dims, &indcs, self.offs.as_slice()) {
            Some(r) => r,
            None => {
                return ;
            },
        };
        let line: usize = ranges[0].start;
        let lo: usize = ranges[1].start;
        let hi: usize = ranges[1].end;
        if lo > hi || hi > self.indcs.len() {
            return ;
        }
        proof {
            assert(line_ok(self@.indcs, self@.offs, line as int));
        }
        let p: usize = lower_bound(self.indcs.as_slice(), lo, hi, indcs[D - 1]);
        proof {
            lemma_cut_unique(self@.indcs, lo as int, hi as int, indcs@.last(), p as int);
        }
        let first: usize = self.offs[0];
        self.data.truncate(p);
        self.indcs.truncate(p);
        self.offs.truncate(line + 1);
        self.offs.push(first + p);
        let ghost dims0 = self.dims@;
        let mut i: usize = 0;
        while i < D
            invariant
                i <= D,
                dims0.len() == D,
                self.dims@.len() == D,
                forall|k: int| 0 <= k < i ==> self.dims@[k] == zeroed(dims0, indcs@)[k],
                forall|k: int| i <= k < D ==> self.dims@[k] == dims0[k],
                self.data@ == old(self)@.data.take(p as int),
                self.indcs@ == old(self)@.indcs.take(p as int),
                self.offs@ == old(self)@.offs.take(line + 1).push((first + p) as usize),
            decreases D - i,
        {
            if indcs[i] == 0 {
                self.dims[i] = 0;
            }
            i += 1;
        }
        assert(self.dims@ =~= zeroed(dims0, indcs@));
    }

    /// Mutable version of [`value`](#method.value).
    pub fn value_mut(&mut self, indcs: [usize; D]) -> (r: Option<&mut T>)
        requires
            old(self)@.wf(),
        ensures
            match r {
                Some(x) => old(self)@.place(indcs@) is Some && value_spec(old(self)@, indcs@)
                    == Some(*x) && final(self)@ == (CslData {
                    data: old(self)@.data.update(old(self)@.place(indcs@).unwrap(), *final(x)),
                    ..old(self)@
                }),
                None => value_spec(old(self)@, indcs@) is None && final(self)@ == old(self)@,
            },
    {
        match data_idx_in(&self.dims, self.indcs.as_slice(), self.offs.as_slice(), &indcs) {
            Some(idx) => Some(&mut self.data[idx]),
            None => None,
        }
    }
}

impl<'a, T, const D: usize> CslRef<'a, T, D> {
    /// Creates a valid CSL instance over borrowed parts.
    ///
    /// # Arguments
    ///
    /// * `dims`: Array of dimensions
    /// * `data`: Data collection
    /// * `indcs`: Indices of each data item
    /// * `offs`: Offset of each innermost line
    pub fn new(dims: [usize; D], data: &'a [T], indcs: &'a [usize], offs: &'a [usize]) -> (r:
        Result<Self, Error>)
        ensures
            match first_violation(
                CslData { dims: dims@, data: data@, indcs: indcs@, offs: offs@ },
            ) {
                Some(e) => r == Err::<Self, Error>(Error::Csl(e)),
                None => r is Ok && r.unwrap()@ == (CslData {
                    dims: dims@,
                    data: data@,
                    indcs: indcs@,
                    offs: offs@,
                }) && r.unwrap()@.wf() && r.unwrap()@.balanced(),
            },
    {
        match check_parts(&dims, data, indcs, offs) {
            Some(e) => Err(Error::Csl(e)),
            None => {
                let csl = CslRef { data, dims, indcs, offs };
                proof {
                    lemma_valid_wf(csl@);
                }
                Ok(csl)
            },
        }
    }

    /// The definitions of all dimensions.
    pub fn dims(&self) -> (r: &[usize; D])
        ensures
            r@ == self@.dims,
    {
        &self.dims
    }

    /// The data that is being stored.
    pub fn data(&self) -> (r: &'a [T])
        ensures
            r@ == self@.data,
    {
        self.data
    }

    /// Indices (indcs) of a line, i.e., indices of the innermost dimension.
    pub fn indcs(&self) -> (r: &'a [usize])
        ensures
            r@ == self@.indcs,
    {
        self.indcs
    }

    /// Number of NonZero elements.
    pub fn nnz(&self) -> (r: usize)
        ensures
            r == self@.data.len(),
    {
        self.data.len()
    }

    /// The joining of two consecutives offsets (offs) represent the starting and
    /// ending points of a line in the `data` and `indcs` slices.
    pub fn offs(&self) -> (r: &'a [usize])
        ensures
            r@ == self@.offs,
    {
        self.offs
    }

    /// Any immutable line reference determined by `indcs`. The innermost
    /// dimension is ignored.
    pub fn line(&self, indcs: [usize; D]) -> (r: Option<CslRef<'a, T, 1>>)
        ensures
            match r {
                Some(l) => line_spec(self@, indcs@) == Some(l@),
                None => line_spec(self@, indcs@) is None,
            },
            self@.wf() && r is Some ==> r.unwrap()@.wf() && r.unwrap()@.balanced(),
    {
        match line_parts(&self.dims, self.data, self.indcs, self.offs, &indcs) {
            None => None,
            Some((dims, lo, hi, line)) => Some(
                CslRef {
                    data: slice_subrange(self.data, lo, hi),
                    dims,
                    indcs: slice_subrange(self.indcs, lo, hi),
                    offs: slice_subrange(self.offs, line, line + 2),
                },
            ),
        }
    }

    /// Iterator that returns immutable line references of the outermost
    /// dimension.
    pub fn outermost_line_iter(&self) -> (r: Result<CslLineIterRef<'a, T, D>, Error>)
        ensures
            D < 2 ==> r == Err::<CslLineIterRef<'a, T, D>, Error>(
                Error::Csl(CslError::InvalidIterDim),
            ),
            D >= 2 ==> r is Ok && r.unwrap()@ == fresh_iter(self@),
            D >= 2 && valid(self@) ==> r.unwrap()@.wf(),
    {
        CslLineIterRef::new(self.dims, self.data, self.indcs, self.offs)
    }

    /// The iterator of the outermost dimension, held for an executor that
    /// walks it in parallel.
    pub fn outermost_line_rayon_iter(&self) -> (r: Result<
        ParallelIteratorWrapper<CslLineIterRef<'a, T, D>>,
        Error,
    >)
        ensures
            D < 2 ==> r == Err::<ParallelIteratorWrapper<CslLineIterRef<'a, T, D>>, Error>(
                Error::Csl(CslError::InvalidIterDim),
            ),
            D >= 2 ==> r is Ok && r.unwrap().0@ == fresh_iter(self@),
            D >= 2 && valid(self@) ==> r.unwrap().0@.wf(),
    {
        match self.outermost_line_iter() {
            Ok(it) => Ok(ParallelIteratorWrapper(it)),
            Err(e) => Err(e),
        }
    }

    /// Retrieves an immutable reference of any sub dimension.
    ///
    /// # Arguments
    ///
    /// * `range`: Starting and ending of the desired dimension
    pub fn sub_dim<const TD: usize>(&self, range: Range<usize>) -> (r: Option<CslRef<'a, T, TD>>)
        requires
            self@.wf(),
        ensures
            match r {
                Some(l) => sub_dim_spec(self@, TD as int, range.start, range.end) == Some(l@),
                None => sub_dim_spec(self@, TD as int, range.start, range.end) is None,
            },
            r is Some ==> r.unwrap()@.wf(),
            valid(self@) && sub_dim_in_range(self@, TD as int, range.start, range.end)
                ==> r is Some,
    {
        match sub_dim_parts::<T, D, TD>(&self.dims, self.data, self.indcs, self.offs, range) {
            None => None,
            Some((dims, a, b, s, e)) => Some(
                CslRef {
                    data: slice_subrange(self.data, a, b),
                    dims,
                    indcs: slice_subrange(self.indcs, a, b),
                    offs: slice_subrange(self.offs, s, e),
                },
            ),
        }
    }

    /// Retrieves an immutable reference of a single data value.
    ///
    /// # Arguments
    ///
    /// * `indcs`: Indices of all dimensions
    pub fn value(&self, indcs: [usize; D]) -> (r: Option<&'a T>)
        requires
            self@.wf(),
        ensures
            match r {
                Some(x) => value_spec(self@, indcs@) == Some(*x),
                None => value_spec(self@, indcs@) is None,
            },
    {
        match data_idx_in(&self.dims, self.indcs, self.offs, &indcs) {
            Some(idx) => Some(&self.data[idx]),
            None => None,
        }
    }
}

impl<T, const D: usize> Default for Csl<T, D> {
    fn default() -> (r: Self)
        ensures
            r@ == empty_data::<T>(D as nat),
            r@.wf(),
            r@.balanced(),
    {
        let dims: [usize; D] = [0usize;D];
        assert(dims@ =~= empty_data::<T>(D as nat).dims);
        let mut offs: Vec<usize> = Vec::new();
        offs.push(0);
        assert(offs@ =~= seq![0usize]);
        Csl { data: Vec::new(), dims, indcs: Vec::new(), offs }
    }
}

/// Exchanges the entries `a` and `b` of `v`.
fn swap_entries<T>(v: &mut Vec<T>, a: usize, b: usize)
    requires
        a < old(v)@.len(),
        b < old(v)@.len(),
    ensures
        final(v)@ == old(v)@.update(a as int, old(v)@[b as int]).update(
            b as int,
            old(v)@[a as int],
        ),
{
    if a == b {
        return ;
    }
    let (lo, hi) = if a < b {
        (a, b)
    } else {
        (b, a)
    };
    let (left, right) = v.as_mut_slice().split_at_mut(hi);
    core::mem::swap(&mut left[lo], &mut right[0]);
}

} // verus!
