//! Line by line construction of a `Csl`.

use crate::csl::Csl;
use crate::csl::csl_model::{CslData, line_hi, line_lo, line_ok};
use crate::csl::csl_utils::manage_last_offset;
use crate::error::Error;
use crate::utils::strictly_ascending;
use vstd::prelude::*;

verus! {

/// Contains all errors related to the line constructor.
#[derive(Debug, PartialEq, Eq, Clone, Copy)]
pub enum CslLineConstructorError {
    /// The maximum number of dimensions has been reached.
    DimsOverflow,
    /// All indices must be in ascending order.
    UnsortedIndices,
    /// It isn't possible to construct new elements in an empty dimension.
    EmptyDimension,
    /// The maximum number of lines for the current dimension has been reached.
    MaxNumOfLines,
}

impl CslLineConstructorError {
    /// The name of the variant, as characters.
    pub open spec fn name(self) -> Seq<char> {
        match self {
        CslLineConstructorError::DimsOverflow => "DimsOverflow"@,
        CslLineConstructorError::UnsortedIndices => "UnsortedIndices"@,
        CslLineConstructorError::EmptyDimension => "EmptyDimension"@,
        CslLineConstructorError::MaxNumOfLines => "MaxNumOfLines"@,
    }
    }

    /// The name of the variant.
    pub fn to_string(&self) -> (r: String)
        ensures
            r@ == self.name(),
    {
        match *self {
            CslLineConstructorError::DimsOverflow => "DimsOverflow".to_owned(),
            CslLineConstructorError::UnsortedIndices => "UnsortedIndices".to_owned(),
            CslLineConstructorError::EmptyDimension => "EmptyDimension".to_owned(),
            CslLineConstructorError::MaxNumOfLines => "MaxNumOfLines".to_owned(),
        }
    }
}

/// Place of the first axis of `dims` whose length is not zero, or the
/// number of axes where there is none.
pub open spec fn first_nonzero(dims: Seq<usize>) -> int
    decreases dims.len(),
{
    if dims.len() == 0 {
        0
    } else if dims[0] != 0 {
        0
    } else {
        1 + first_nonzero(dims.skip(1))
    }
}

/// Number of pairs that a line takes in: not more than the innermost axis
/// is long, and not more than offsets can still count.
pub open spec fn taken(pairs: int, last_dim: usize, last_off: usize) -> int {
    let room = usize::MAX - last_off;
    let a = if pairs <= last_dim {
        pairs
    } else {
        last_dim as int
    };
    if a <= room {
        a
    } else {
        room
    }
}

/// The indices of the first `n` pairs.
pub open spec fn pair_indices<T>(di: Seq<(usize, T)>, n: int) -> Seq<usize> {
    Seq::new(n as nat, |i: int| di[i].0)
}

/// The values of the first `n` pairs.
pub open spec fn pair_values<T>(di: Seq<(usize, T)>, n: int) -> Seq<T> {
    Seq::new(n as nat, |i: int| di[i].1)
}

/// `v` with one line more, which holds the first `n` pairs of `di`.
pub open spec fn with_line<T>(v: CslData<T>, di: Seq<(usize, T)>, n: int) -> CslData<T> {
    CslData {
        dims: v.dims,
        data: v.data + pair_values(di, n),
        indcs: v.indcs + pair_indices(di, n),
        offs: v.offs.push((v.offs.last() + n) as usize),
    }
}

/// A line more, strictly ascending and as long as its offsets say, keeps a
/// structure well formed and its offsets spanning what is stored.
pub proof fn lemma_with_line_wf<T>(v: CslData<T>, di: Seq<(usize, T)>, n: int)
    requires
        v.wf(),
        v.balanced(),
        v.offs.len() > 0,
        0 <= n <= di.len(),
        v.offs.last() + n <= usize::MAX,
        strictly_ascending(pair_indices(di, n)),
    ensures
        with_line(v, di, n).wf(),
        with_line(v, di, n).balanced(),
{
    let w = with_line(v, di, n);
    let m = v.offs.len() as int;
    assert forall|i: int, j: int| 0 <= i <= j < w.offs.len() implies w.offs[i] <= w.offs[j] by {
        if j < m {
            assert(v.offs[i] <= v.offs[j]);
        } else if i < m {
            assert(v.offs[i] <= v.offs[m - 1]);
        }
    }
    assert forall|i: int| 0 <= i < w.offs.len() - 1 implies #[trigger] line_ok(
        w.indcs,
        w.offs,
        i,
    ) by {
        let a = line_lo(w.offs, i);
        let b = line_hi(w.offs, i);
        if i < m - 1 {
            assert(v.offs[0] <= v.offs[i] <= v.offs[i + 1] <= v.offs[m - 1]);
            assert(line_ok(v.indcs, v.offs, i));
            assert(w.indcs.subrange(a, b) =~= v.indcs.subrange(a, b));
        } else {
            assert(w.indcs.subrange(a, b) =~= pair_indices(di, n));
        }
    }
}

/// Where a line constructor stands: the outermost axis that has a length,
/// and the offset that the last line ends with. Only a constructor makes one
/// and moves it on.
#[derive(Debug, PartialEq)]
pub struct LineCursor<const D: usize> {
    curr_dim_idx: usize,
    last_off: usize,
}

impl<const D: usize> LineCursor<D> {
    /// A cursor never leaves the axes: there is an axis, and the place of the
    /// cursor is not above the number of axes.
    #[verifier::type_invariant]
    spec fn within_axes(self) -> bool {
        0 < D && self.curr_dim_idx <= D
    }

    /// Place of the outermost axis that has a length.
    pub closed spec fn curr_dim_idx(self) -> usize {
        self.curr_dim_idx
    }

    /// The offset that the last line ends with.
    pub closed spec fn last_off(self) -> usize {
        self.last_off
    }
}

/// Constructs valid lines in a easy and interactive manner, abstracting away
/// the complexity of the compressed sparse format.
#[derive(Debug, PartialEq)]
pub struct CslLineConstructor<'a, T, const D: usize> {
    /// The structure that grows.
    pub csl: &'a mut Csl<T, D>,
    /// Where the constructor stands.
    pub cursor: LineCursor<D>,
}

impl<'a, T, const D: usize> CslLineConstructor<'a, T, D> {
    /// The constructor and its structure fit together: the structure is well
    /// formed, its offsets span what it stores, and the constructor knows the
    /// last of them.
    pub open spec fn wf(self) -> bool {
        &&& D > 0
        &&& self.cursor.curr_dim_idx() <= D
        &&& self.csl@.wf()
        &&& self.csl@.balanced()
        &&& self.csl@.offs.len() > 0
        &&& self.cursor.last_off() == self.csl@.offs.last()
    }

    /// Place of the outermost axis that has a length; the number of axes
    /// where none has one.
    pub fn curr_dim_idx(&self) -> (r: usize)
        ensures
            r == self.cursor.curr_dim_idx(),
    {
        self.cursor.curr_dim_idx
    }

    /// The offset that the last line ends with.
    pub fn last_off(&self) -> (r: usize)
        ensures
            r == self.cursor.last_off(),
    {
        self.cursor.last_off
    }

    /// A constructor that goes on where `csl` stands. A structure without
    /// offsets gets its first one, zero.
    pub fn new(csl: &'a mut Csl<T, D>) -> (r: Result<Self, Error>)
        requires
            old(csl)@.wf(),
            old(csl)@.balanced(),
        ensures
            D == 0 ==> r == Err::<Self, Error>(
                Error::CslLineConstructor(CslLineConstructorError::EmptyDimension),
            ) && final(csl)@ == old(csl)@,
            D > 0 ==> r is Ok,
            D > 0 ==> r.unwrap().wf(),
            D > 0 ==> r.unwrap().csl@ == (CslData {
                offs: if old(csl)@.offs.len() == 0 {
                    seq![0usize]
                } else {
                    old(csl)@.offs
                },
                ..old(csl)@
            }),
            D > 0 ==> r.unwrap().cursor.curr_dim_idx() == first_nonzero(old(csl)@.dims),
            D > 0 ==> *final(r.unwrap().csl) == *final(csl),
    {
        if D == 0 {
            return Err(Error::CslLineConstructor(CslLineConstructorError::EmptyDimension));
        }
        let mut curr_dim_idx: usize = 0;
        assert(csl.dims@.skip(0) =~= csl.dims@);
        while curr_dim_idx < D && csl.dims[curr_dim_idx] == 0
            invariant
                curr_dim_idx <= D,
                csl.dims@.len() == D,
                *csl == *old(csl),
                first_nonzero(csl.dims@) == curr_dim_idx + first_nonzero(
                    csl.dims@.skip(curr_dim_idx as int),
                ),
            decreases D - curr_dim_idx,
        {
            proof {
                let rest = csl.dims@.skip(curr_dim_idx as int);
                assert(rest[0] == 0);
                assert(rest.skip(1) =~= csl.dims@.skip(curr_dim_idx + 1));
            }
            curr_dim_idx += 1;
        }
        proof {
            let rest = csl.dims@.skip(curr_dim_idx as int);
            assert(first_nonzero(rest) == 0) by {
                if curr_dim_idx < D {
                    assert(rest[0] != 0);
                }
            }
        }
        let last_off: usize = manage_last_offset(&mut csl.offs);
        Ok(CslLineConstructor { csl, cursor: LineCursor { curr_dim_idx, last_off } })
    }

    /// Jumps to the next outermost dimension, i.e., from right to left, and
    /// gives it the length `len`.
    pub fn next_outermost_dim(self, len: usize) -> (r: Result<Self, Error>)
        requires
            self.wf(),
        ensures
            self.cursor.curr_dim_idx() == 0 ==> r == Err::<Self, Error>(
                Error::CslLineConstructor(CslLineConstructorError::DimsOverflow),
            ) && final(self.csl)@ == old(self.csl)@,
            self.cursor.curr_dim_idx() > 0 ==> r is Ok && r.unwrap().wf(),
            r is Ok ==> r.unwrap().csl@ == (CslData {
                dims: old(self.csl)@.dims.update(self.cursor.curr_dim_idx() - 1, len),
                ..old(self.csl)@
            }),
            r is Ok ==> r.unwrap().cursor.curr_dim_idx() == self.cursor.curr_dim_idx() - 1,
            r is Ok ==> r.unwrap().cursor.last_off() == self.cursor.last_off(),
            r is Ok ==> *final(r.unwrap().csl) == *final(self.csl),
    {
        let CslLineConstructor { csl, cursor } = self;
        let curr_dim_idx: usize = cursor.curr_dim_idx;
        let last_off: usize = cursor.last_off;
        if curr_dim_idx == 0 {
            return Err(Error::CslLineConstructor(CslLineConstructorError::DimsOverflow));
        }
        let curr_dim_idx: usize = curr_dim_idx - 1;
        csl.dims[curr_dim_idx] = len;
        Ok(CslLineConstructor { csl, cursor: LineCursor { curr_dim_idx, last_off } })
    }

    /// Pushes a line without values: the last offset once more.
    pub fn push_empty_line(self) -> (r: Self)
        requires
            self.wf(),
        ensures
            r.wf(),
            r.csl@ == (CslData {
                offs: old(self.csl)@.offs.push(self.cursor.last_off()),
                ..old(self.csl)@
            }),
            r.cursor.curr_dim_idx() == self.cursor.curr_dim_idx(),
            r.cursor.last_off() == self.cursor.last_off(),
            *final(r.csl) == *final(self.csl),
    {
        let CslLineConstructor { csl, cursor } = self;
        let curr_dim_idx: usize = cursor.curr_dim_idx;
        let last_off: usize = cursor.last_off;
        proof {
            let di = Seq::<(usize, T)>::empty();
            lemma_with_line_wf(csl@, di, 0);
            assert(with_line(csl@, di, 0).data =~= csl@.data);
            assert(with_line(csl@, di, 0).indcs =~= csl@.indcs);
        }
        csl.offs.push(last_off);
        CslLineConstructor { csl, cursor: LineCursor { curr_dim_idx, last_off } }
    }

    /// Pushes a new compressed line made of pairs of an index and a value.
    ///
    /// Not more pairs are taken than the innermost dimension is long, nor more
    /// than the offsets can still count. The indices of the pairs that are
    /// taken must be strictly ascending; if they are not, nothing is pushed.
    #[verifier::loop_isolation(false)]
    pub fn push_line(self, di: Vec<(usize, T)>) -> (r: Result<Self, Error>)
        requires
            self.wf(),
        ensures
            !strictly_ascending(
                pair_indices(
                    di@,
                    taken(di@.len() as int, old(self.csl)@.dims.last(), self.cursor.last_off()),
                ),
            ) ==> r == Err::<Self, Error>(
                Error::CslLineConstructor(CslLineConstructorError::UnsortedIndices),
            ),
            r is Err ==> final(self.csl)@ == old(self.csl)@,
            strictly_ascending(
                pair_indices(
                    di@,
                    taken(di@.len() as int, old(self.csl)@.dims.last(), self.cursor.last_off()),
                ),
            ) ==> r is Ok,
            r is Ok ==> r.unwrap().wf(),
            r is Ok ==> r.unwrap().csl@ == with_line(
                old(self.csl)@,
                di@,
                taken(di@.len() as int, old(self.csl)@.dims.last(), self.cursor.last_off()),
            ),
            r is Ok ==> r.unwrap().cursor.curr_dim_idx() == self.cursor.curr_dim_idx(),
            r is Ok ==> r.unwrap().cursor.last_off() == self.cursor.last_off() + taken(
                di@.len() as int,
                old(self.csl)@.dims.last(),
                self.cursor.last_off(),
            ),
            r is Ok ==> *final(r.unwrap().csl) == *final(self.csl),
    {
        let CslLineConstructor { csl, cursor } = self;
        let curr_dim_idx: usize = cursor.curr_dim_idx;
        let last_off: usize = cursor.last_off;
        let last_dim: usize = csl.dims[D - 1];
        let room: usize = usize::MAX - last_off;
        let mut n: usize = di.len();
        if n > last_dim {
            n = last_dim;
        }
        if n > room {
            n = room;
        }
        let ghost idxs = pair_indices(di@, n as int);
        let ghost before = csl@;
        assert(n == taken(di@.len() as int, before.dims.last(), last_off));
        let mut k: usize = 1;
        while k < n
            invariant
                1 <= k,
                n <= di@.len(),
                csl@ == before,
                idxs == pair_indices(di@, n as int),
                forall|a: int, b: int| 0 <= a < b < k && b < n ==> idxs[a] < idxs[b],
            decreases n - k,
        {
            if di[k - 1].0 >= di[k].0 {
                assert(idxs[k - 1] >= idxs[k as int]);
                return Err(Error::CslLineConstructor(CslLineConstructorError::UnsortedIndices));
            }
            assert forall|a: int, b: int| 0 <= a < b < k + 1 && b < n implies idxs[a]
                < idxs[b] by {
                if b == k && a < k - 1 {
                    assert(idxs[a] < idxs[k - 1]);
                }
            }
            k += 1;
        }
        proof {
            lemma_with_line_wf(csl@, di@, n as int);
        }
        let ghost pairs = di@;
        let mut taken_so_far: usize = 0;
        for pair in it: di
            invariant
                taken_so_far == if it.index() <= n {
                    it.index()
                } else {
                    n as int
                },
                it.seq() == pairs,
                n <= pairs.len(),
                csl@.dims == before.dims,
                csl@.offs == before.offs,
                csl@.data == before.data + pair_values(pairs, taken_so_far as int),
                csl@.indcs == before.indcs + pair_indices(pairs, taken_so_far as int),
        {
            if taken_so_far < n {
                let (idx, value) = pair;
                csl.indcs.push(idx);
                csl.data.push(value);
                taken_so_far += 1;
                assert(pair_values(pairs, taken_so_far as int) =~= pair_values(
                    pairs,
                    taken_so_far - 1,
                ).push(value));
                assert(pair_indices(pairs, taken_so_far as int) =~= pair_indices(
                    pairs,
                    taken_so_far - 1,
                ).push(idx));
            }
        }
        csl.offs.push(last_off + n);
        Ok(CslLineConstructor { csl, cursor: LineCursor { curr_dim_idx, last_off: last_off + n } })
    }
}

} // verus!
