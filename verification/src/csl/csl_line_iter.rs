//! Traversal of the outermost axis of a `Csl`, one position at a time.

use crate::csl::{CslMut, CslRef};
use crate::csl::csl_error::CslError;
use crate::csl::csl_line_iter_proofs::{
    lemma_fresh_iter_well_formed, lemma_next_back_well_formed, lemma_next_well_formed,
    lemma_nth_well_formed, lemma_split_well_formed,
};
use crate::csl::csl_model::{CslData, valid};
use crate::csl::csl_utils::{outermost_offs, place_or_zero};
use crate::dims::{outer_stride, saturated};
use crate::error::Error;
use crate::utils::{ascending, strictly_ascending};
use vstd::prelude::*;
use vstd::slice::slice_subrange;

verus! {

/// What a line iterator holds, as plain values: the positions `curr..max`
/// that are still to come, the shape of what it yields, the values and
/// indices of those positions, and all the offsets.
pub struct LineIterData<T> {
    /// The next position from the front.
    pub curr: usize,
    /// The position after the next one from the back.
    pub max: usize,
    /// The shape of each view that comes out.
    pub dims: Seq<usize>,
    /// Values of the positions that are still to come.
    pub data: Seq<T>,
    /// Indices of the positions that are still to come.
    pub indcs: Seq<usize>,
    /// Every offset of the structure that is walked.
    pub offs: Seq<usize>,
}

/// The iterator over the whole outermost axis of `v`.
pub open spec fn fresh_iter<T>(v: CslData<T>) -> LineIterData<T> {
    LineIterData {
        curr: 0,
        max: v.dims[0],
        dims: v.dims.update(0, 1),
        data: v.data,
        indcs: v.indcs,
        offs: v.offs,
    }
}

/// First offset of position `i`.
pub open spec fn slab_lo(dims: Seq<usize>, i: int) -> int {
    saturated(outer_stride(dims) * (i as nat)) as int
}

/// Number of values in the positions `i..j`, as the offsets tell it. It is
/// negative where the offsets decrease.
pub open spec fn span(dims: Seq<usize>, offs: Seq<usize>, i: int, j: int) -> int {
    place_or_zero(offs, slab_lo(dims, j)) - place_or_zero(offs, slab_lo(dims, i))
}

/// The iterator fits its offsets: the positions that are left are within
/// them, the offsets never decrease, and the values and indices that the
/// offsets give to these positions are there.
pub open spec fn iter_fits<T>(it: LineIterData<T>) -> bool {
    &&& it.curr <= it.max
    &&& it.offs.len() <= usize::MAX
    &&& outer_stride(it.dims) * (it.max as nat) + 1 <= it.offs.len()
    &&& ascending(it.offs)
    &&& span(it.dims, it.offs, it.curr as int, it.max as int) <= it.data.len()
    &&& span(it.dims, it.offs, it.curr as int, it.max as int) <= it.indcs.len()
}

/// Indices of line `l`, as the iterator holds them: counted from the first
/// offset of the position that comes next.
pub open spec fn iter_line<T>(it: LineIterData<T>, l: int) -> Seq<usize> {
    it.indcs.subrange(
        it.offs[l] - it.offs[slab_lo(it.dims, it.curr as int)],
        it.offs[l + 1] - it.offs[slab_lo(it.dims, it.curr as int)],
    )
}

/// Each line of the positions that are left is strictly ascending.
pub open spec fn iter_sorted<T>(it: LineIterData<T>) -> bool {
    forall|l: int|
        slab_lo(it.dims, it.curr as int) <= l < slab_lo(it.dims, it.max as int)
            ==> strictly_ascending(#[trigger] iter_line(it, l))
}

/// The iterator holds the values and the indices of the positions that are
/// left, and no others.
pub open spec fn iter_exact<T>(it: LineIterData<T>) -> bool {
    &&& it.data.len() == span(it.dims, it.offs, it.curr as int, it.max as int)
    &&& it.indcs.len() == span(it.dims, it.offs, it.curr as int, it.max as int)
}

impl<T> LineIterData<T> {
    /// The iterator fits its offsets, the lines of the positions that are
    /// left are strictly ascending, and as long as a position is left the
    /// iterator holds the values and indices of these positions and no
    /// others. The iterator over a structure that passes the checks of `new`
    /// is so, and stays so.
    pub open spec fn wf(self) -> bool {
        &&& iter_fits(self)
        &&& iter_sorted(self)
        &&& self.curr < self.max ==> iter_exact(self)
    }
}

/// The offsets of position `i` are there: from its first offset to the
/// first offset of the next position, that one taken in.
pub open spec fn slab_in_offs(dims: Seq<usize>, offs: Seq<usize>, i: int) -> bool {
    slab_lo(dims, i) <= slab_end(dims, i) <= offs.len()
}

/// Place after the last offset of position `i`.
pub open spec fn slab_end(dims: Seq<usize>, i: int) -> int {
    saturated((slab_lo(dims, i + 1) + 1) as nat) as int
}

/// The view of position `i` over the values `data` and the indices `indcs`.
pub open spec fn slab_view<T>(
    it: LineIterData<T>,
    data: Seq<T>,
    indcs: Seq<usize>,
    i: int,
) -> CslData<T> {
    CslData {
        dims: it.dims,
        data,
        indcs,
        offs: it.offs.subrange(slab_lo(it.dims, i), slab_end(it.dims, i)),
    }
}

/// The position `i` can come out: its offsets are there, and they give it a
/// length that the values and the indices that are left have.
pub open spec fn slab_ready<T>(it: LineIterData<T>, i: int) -> bool {
    &&& slab_in_offs(it.dims, it.offs, i)
    &&& 0 <= span(it.dims, it.offs, i, i + 1) <= it.data.len()
    &&& span(it.dims, it.offs, i, i + 1) <= it.indcs.len()
}

/// What `next` gives and what it leaves. The front position always moves
/// on. Where the position can come out, its values and indices leave the
/// front of what is left; where it cannot, nothing comes out and nothing
/// leaves.
pub open spec fn next_spec<T>(it: LineIterData<T>) -> (Option<CslData<T>>, LineIterData<T>) {
    if it.curr >= it.max {
        (None, it)
    } else {
        let len = span(it.dims, it.offs, it.curr as int, it.curr + 1);
        let moved = LineIterData { curr: (it.curr + 1) as usize, ..it };
        if slab_ready(it, it.curr as int) {
            (
                Some(slab_view(it, it.data.take(len), it.indcs.take(len), it.curr as int)),
                LineIterData { data: it.data.skip(len), indcs: it.indcs.skip(len), ..moved },
            )
        } else {
            (None, moved)
        }
    }
}

/// What `next_back` gives and what it leaves: as `next_spec`, from the back.
pub open spec fn next_back_spec<T>(it: LineIterData<T>) -> (Option<CslData<T>>, LineIterData<T>) {
    if it.curr >= it.max {
        (None, it)
    } else {
        let len = span(it.dims, it.offs, it.max - 1, it.max as int);
        let moved = LineIterData { max: (it.max - 1) as usize, ..it };
        if slab_ready(it, it.max - 1) {
            (
                Some(
                    slab_view(
                        it,
                        it.data.skip(it.data.len() - len),
                        it.indcs.skip(it.indcs.len() - len),
                        it.max - 1,
                    ),
                ),
                LineIterData {
                    data: it.data.take(it.data.len() - len),
                    indcs: it.indcs.take(it.indcs.len() - len),
                    ..moved
                },
            )
        } else {
            (None, moved)
        }
    }
}

/// What `nth` gives and what it leaves: `n` views are passed over, as long
/// as `next` gives some, and the one after them comes out.
pub open spec fn nth_spec<T>(it: LineIterData<T>, n: nat) -> (Option<CslData<T>>, LineIterData<T>)
    decreases n,
{
    if n == 0 {
        next_spec(it)
    } else if next_spec(it).0 is None {
        next_spec(it)
    } else {
        nth_spec(next_spec(it).1, (n - 1) as nat)
    }
}

/// `idx` positions can be split off the front: so many are left, and their
/// values are there.
pub open spec fn can_split<T>(it: LineIterData<T>, idx: usize) -> bool {
    &&& it.curr + idx <= it.max
    &&& 0 <= span(it.dims, it.offs, it.curr as int, it.curr + idx) <= it.data.len()
    &&& span(it.dims, it.offs, it.curr as int, it.curr + idx) <= it.indcs.len()
}

/// The first `idx` positions of `it`, as an iterator of their own.
pub open spec fn split_head<T>(it: LineIterData<T>, idx: usize) -> LineIterData<T> {
    let len = span(it.dims, it.offs, it.curr as int, it.curr + idx);
    LineIterData {
        max: (it.curr + idx) as usize,
        data: it.data.take(len),
        indcs: it.indcs.take(len),
        ..it
    }
}

/// What follows the first `idx` positions of `it`.
pub open spec fn split_tail<T>(it: LineIterData<T>, idx: usize) -> LineIterData<T> {
    let len = span(it.dims, it.offs, it.curr as int, it.curr + idx);
    LineIterData {
        curr: (it.curr + idx) as usize,
        data: it.data.skip(len),
        indcs: it.indcs.skip(len),
        ..it
    }
}

/// The offsets of position `i`, if they are there.
fn slab_bounds<const D: usize>(dims: &[usize; D], offs: &[usize], i: usize) -> (r: Option<
    (usize, usize),
>)
    requires
        i < usize::MAX,
    ensures
        match r {
            Some((s, e)) => slab_in_offs(dims@, offs@, i as int) && s == slab_lo(dims@, i as int)
                && e == slab_end(dims@, i as int),
            None => !slab_in_offs(dims@, offs@, i as int),
        },
{
    let ranges = outermost_offs(dims, offs, i..i + 1);
    let s: usize = ranges[0].start;
    let e: usize = ranges[0].end;
    if s > e || e > offs.len() {
        return None;
    }
    Some((s, e))
}

/// Number of values in the positions `i..j`, if the offsets give one that
/// is not above `data_len` nor `indcs_len`.
fn span_len<const D: usize>(
    dims: &[usize; D],
    offs: &[usize],
    data_len: usize,
    indcs_len: usize,
    i: usize,
    j: usize,
) -> (r: Option<usize>)
    ensures
        match r {
            Some(len) => len == span(dims@, offs@, i as int, j as int) && len <= data_len && len
                <= indcs_len,
            None => !(0 <= span(dims@, offs@, i as int, j as int) <= data_len && span(
                dims@,
                offs@,
                i as int,
                j as int,
            ) <= indcs_len),
        },
{
    let ranges = outermost_offs(dims, offs, i..j);
    let a: usize = ranges[1].start;
    let b: usize = ranges[1].end;
    if a > b || b - a > data_len || b - a > indcs_len {
        return None;
    }
    Some(b - a)
}

/// The length and the offsets of position `i`, if it can come out.
fn slab_parts<const D: usize>(
    dims: &[usize; D],
    offs: &[usize],
    data_len: usize,
    indcs_len: usize,
    i: usize,
) -> (r: Option<(usize, usize, usize)>)
    requires
        i < usize::MAX,
    ensures
        match r {
            Some((len, s, e)) => len == span(dims@, offs@, i as int, i + 1) && len <= data_len
                && len <= indcs_len && slab_in_offs(dims@, offs@, i as int) && s == slab_lo(
                dims@,
                i as int,
            ) && e == slab_end(dims@, i as int),
            None => !(slab_in_offs(dims@, offs@, i as int) && 0 <= span(
                dims@,
                offs@,
                i as int,
                i + 1,
            ) <= data_len && span(dims@, offs@, i as int, i + 1) <= indcs_len),
        },
{
    match span_len(dims, offs, data_len, indcs_len, i, i + 1) {
        None => None,
        Some(len) => match slab_bounds(dims, offs, i) {
            None => None,
            Some((s, e)) => Some((len, s, e)),
        },
    }
}

/// Iterator of the outermost axis of a CSL structure. Each position comes
/// out as a view with the shape of the structure, its outermost axis cut to
/// length one.
#[derive(Debug, PartialEq)]
pub struct CslLineIterRef<'a, T, const D: usize> {
    curr_idx: usize,
    data: &'a [T],
    dims: [usize; D],
    indcs: &'a [usize],
    max_idx: usize,
    offs: &'a [usize],
}

impl<'a, T, const D: usize> View for CslLineIterRef<'a, T, D> {
    type V = LineIterData<T>;

    closed spec fn view(&self) -> LineIterData<T> {
        LineIterData {
            curr: self.curr_idx,
            max: self.max_idx,
            dims: self.dims@,
            data: self.data@,
            indcs: self.indcs@,
            offs: self.offs@,
        }
    }
}

impl<'a, T, const D: usize> CslLineIterRef<'a, T, D> {
    /// The iterator over the outermost axis of a structure with these parts.
    /// A structure with fewer than two axes has no outer axis to walk.
    pub fn new(dims: [usize; D], data: &'a [T], indcs: &'a [usize], offs: &'a [usize]) -> (r:
        Result<Self, Error>)
        ensures
            D < 2 ==> r == Err::<Self, Error>(Error::Csl(CslError::InvalidIterDim)),
            D >= 2 ==> r is Ok && r.unwrap()@ == fresh_iter(
                CslData { dims: dims@, data: data@, indcs: indcs@, offs: offs@ },
            ),
            D >= 2 && valid(CslData { dims: dims@, data: data@, indcs: indcs@, offs: offs@ })
                ==> r.unwrap()@.wf(),
    {
        if D < 2 {
            return Err(Error::Csl(CslError::InvalidIterDim));
        }
        proof {
            let v = CslData { dims: dims@, data: data@, indcs: indcs@, offs: offs@ };
            if valid(v) {
                lemma_fresh_iter_well_formed(v);
            }
        }
        let mut dims = dims;
        let max_idx: usize = dims[0];
        dims[0] = 1;
        Ok(CslLineIterRef { curr_idx: 0, data, dims, indcs, max_idx, offs })
    }

    /// Number of positions that are still to come.
    pub fn len(&self) -> (r: usize)
        ensures
            r == if self@.curr <= self@.max {
                self@.max - self@.curr
            } else {
                0
            },
    {
        if self.curr_idx <= self.max_idx {
            self.max_idx - self.curr_idx
        } else {
            0
        }
    }

    /// The view of the next position from the front, if one is left.
    pub fn next(&mut self) -> (r: Option<CslRef<'a, T, D>>)
        ensures
            match r {
                Some(v) => next_spec(old(self)@).0 == Some(v@),
                None => next_spec(old(self)@).0 is None,
            },
            final(self)@ == next_spec(old(self)@).1,
            old(self)@.wf() ==> final(self)@.wf() && (r is Some <==> old(self)@.curr < old(
                self,
            )@.max) && (r is Some ==> r.unwrap()@.wf() && r.unwrap()@.balanced()),
    {
        proof {
            if self@.wf() && self@.curr < self@.max {
                lemma_next_well_formed(self@);
            }
        }
        if self.curr_idx >= self.max_idx {
            return None;
        }
        let i: usize = self.curr_idx;
        self.curr_idx = i + 1;
        let n: usize = self.data.len();
        let m: usize = self.indcs.len();
        match slab_parts(&self.dims, self.offs, n, m, i) {
            None => None,
            Some((len, s, e)) => {
                let data_head = slice_subrange(self.data, 0, len);
                let indcs_head = slice_subrange(self.indcs, 0, len);
                self.data = slice_subrange(self.data, len, n);
                self.indcs = slice_subrange(self.indcs, len, m);
                Some(
                    CslRef {
                        data: data_head,
                        dims: self.dims,
                        indcs: indcs_head,
                        offs: slice_subrange(self.offs, s, e),
                    },
                )
            },
        }
    }

    /// The view of the next position from the back, if one is left.
    pub fn next_back(&mut self) -> (r: Option<CslRef<'a, T, D>>)
        ensures
            match r {
                Some(v) => next_back_spec(old(self)@).0 == Some(v@),
                None => next_back_spec(old(self)@).0 is None,
            },
            final(self)@ == next_back_spec(old(self)@).1,
            old(self)@.wf() ==> final(self)@.wf() && (r is Some <==> old(self)@.curr < old(
                self,
            )@.max) && (r is Some ==> r.unwrap()@.wf() && r.unwrap()@.balanced()),
    {
        proof {
            if self@.wf() && self@.curr < self@.max {
                lemma_next_back_well_formed(self@);
            }
        }
        if self.curr_idx >= self.max_idx {
            return None;
        }
        let i: usize = self.max_idx - 1;
        self.max_idx = i;
        let n: usize = self.data.len();
        let m: usize = self.indcs.len();
        match slab_parts(&self.dims, self.offs, n, m, i) {
            None => None,
            Some((len, s, e)) => {
                let data_tail = slice_subrange(self.data, n - len, n);
                let indcs_tail = slice_subrange(self.indcs, m - len, m);
                self.data = slice_subrange(self.data, 0, n - len);
                self.indcs = slice_subrange(self.indcs, 0, m - len);
                Some(
                    CslRef {
                        data: data_tail,
                        dims: self.dims,
                        indcs: indcs_tail,
                        offs: slice_subrange(self.offs, s, e),
                    },
                )
            },
        }
    }

    /// Passes over `n` views and gives the one after them. It stops at the
    /// first position that gives none.
    pub fn nth(&mut self, n: usize) -> (r: Option<CslRef<'a, T, D>>)
        ensures
            match r {
                Some(v) => nth_spec(old(self)@, n as nat).0 == Some(v@),
                None => nth_spec(old(self)@, n as nat).0 is None,
            },
            final(self)@ == nth_spec(old(self)@, n as nat).1,
            old(self)@.wf() ==> final(self)@.wf() && (r is Some <==> old(self)@.curr + n < old(
                self,
            )@.max) && (r is Some ==> r.unwrap()@.wf() && r.unwrap()@.balanced()),
    {
        proof {
            if self@.wf() {
                lemma_nth_well_formed(self@, n as nat);
            }
        }
        let mut k: usize = n;
        while k > 0
            invariant
                nth_spec(self@, k as nat) == nth_spec(old(self)@, n as nat),
                old(self)@.wf() ==> self@.wf(),
                old(self)@.wf() ==> (nth_spec(old(self)@, n as nat).0 is Some <==> old(
                    self,
                )@.curr + n < old(self)@.max),
            decreases k,
        {
            if self.next().is_none() {
                return None;
            }
            k -= 1;
        }
        self.next()
    }

    /// Tells whether `idx` positions can be split off the front.
    pub fn can_split_at(&self, idx: usize) -> (r: bool)
        ensures
            r == can_split(self@, idx),
    {
        if idx > usize::MAX - self.curr_idx || self.curr_idx + idx > self.max_idx {
            return false;
        }
        span_len(
            &self.dims,
            self.offs,
            self.data.len(),
            self.indcs.len(),
            self.curr_idx,
            self.curr_idx + idx,
        ).is_some()
    }

    /// Divides the positions that are left into the first `idx` and the
    /// others. The two iterators share the offsets, and no value belongs to
    /// both.
    pub fn split_at(self, idx: usize) -> (r: [Self; 2])
        requires
            can_split(self@, idx),
        ensures
            r@[0]@ == split_head(self@, idx),
            r@[1]@ == split_tail(self@, idx),
            self@.wf() ==> r@[0]@.wf() && r@[1]@.wf(),
    {
        proof {
            if self@.wf() {
                lemma_split_well_formed(self@, idx);
            }
        }
        let cut_point: usize = self.curr_idx + idx;
        let n: usize = self.data.len();
        let m: usize = self.indcs.len();
        let len: usize = match span_len(&self.dims, self.offs, n, m, self.curr_idx, cut_point) {
            Some(len) => len,
            None => 0,
        };
        [
            CslLineIterRef {
                curr_idx: self.curr_idx,
                data: slice_subrange(self.data, 0, len),
                dims: self.dims,
                indcs: slice_subrange(self.indcs, 0, len),
                max_idx: cut_point,
                offs: self.offs,
            },
            CslLineIterRef {
                curr_idx: cut_point,
                data: slice_subrange(self.data, len, n),
                dims: self.dims,
                indcs: slice_subrange(self.indcs, len, m),
                max_idx: self.max_idx,
                offs: self.offs,
            },
        ]
    }
}

/// Iterator of the outermost axis of a CSL structure whose values can be
/// changed through the views that come out.
#[derive(Debug, PartialEq)]
pub struct CslLineIterMut<'a, T, const D: usize> {
    /// The next position from the front.
    pub curr_idx: usize,
    /// Values of the positions that are still to come.
    pub data: &'a mut [T],
    /// The shape of each view that comes out.
    pub dims: [usize; D],
    /// Indices of the positions that are still to come.
    pub indcs: &'a [usize],
    /// The position after the next one from the back.
    pub max_idx: usize,
    /// Every offset of the structure that is walked.
    pub offs: &'a [usize],
}

impl<'a, T, const D: usize> View for CslLineIterMut<'a, T, D> {
    type V = LineIterData<T>;

    open spec fn view(&self) -> LineIterData<T> {
        LineIterData {
            curr: self.curr_idx,
            max: self.max_idx,
            dims: self.dims@,
            data: self.data@,
            indcs: self.indcs@,
            offs: self.offs@,
        }
    }
}

impl<'a, T, const D: usize> CslLineIterMut<'a, T, D> {
    /// The iterator over the outermost axis of a structure with these parts.
    /// A structure with fewer than two axes has no outer axis to walk.
    pub fn new(dims: [usize; D], data: &'a mut [T], indcs: &'a [usize], offs: &'a [usize]) -> (r:
        Result<Self, Error>)
        ensures
            D < 2 ==> r == Err::<Self, Error>(Error::Csl(CslError::InvalidIterDim)) && final(data)@
                == old(data)@,
            D >= 2 ==> r is Ok && r.unwrap()@ == fresh_iter(
                CslData { dims: dims@, data: old(data)@, indcs: indcs@, offs: offs@ },
            ) && final(r.unwrap().data)@ == final(data)@,
            D >= 2 && valid(
                CslData { dims: dims@, data: old(data)@, indcs: indcs@, offs: offs@ },
            ) ==> r.unwrap()@.wf(),
    {
        if D < 2 {
            return Err(Error::Csl(CslError::InvalidIterDim));
        }
        proof {
            let v = CslData { dims: dims@, data: data@, indcs: indcs@, offs: offs@ };
            if valid(v) {
                lemma_fresh_iter_well_formed(v);
            }
        }
        let mut dims = dims;
        let max_idx: usize = dims[0];
        dims[0] = 1;
        Ok(CslLineIterMut { curr_idx: 0, data, dims, indcs, max_idx, offs })
    }

    /// Number of positions that are still to come.
    pub fn len(&self) -> (r: usize)
        ensures
            r == if self@.curr <= self@.max {
                self@.max - self@.curr
            } else {
                0
            },
    {
        if self.curr_idx <= self.max_idx {
            self.max_idx - self.curr_idx
        } else {
            0
        }
    }

    /// The view of the next position from the front, if one is left. What is
    /// written through the view is written to the values of that position.
    pub fn next(&mut self) -> (r: Option<CslMut<'a, T, D>>)
        ensures
            match r {
                Some(v) => next_spec(old(self)@).0 == Some(v@) && final(old(self).data)@
                    == final(v.data)@ + final(final(self).data)@,
                None => next_spec(old(self)@).0 is None && final(old(self).data)@
                    == final(final(self).data)@,
            },
            final(self)@ == next_spec(old(self)@).1,
            old(self)@.wf() ==> final(self)@.wf() && (r is Some <==> old(self)@.curr < old(
                self,
            )@.max) && (r is Some ==> r.unwrap()@.wf() && r.unwrap()@.balanced()),
    {
        proof {
            if self@.wf() && self@.curr < self@.max {
                lemma_next_well_formed(self@);
            }
        }
        if self.curr_idx >= self.max_idx {
            return None;
        }
        let i: usize = self.curr_idx;
        self.curr_idx = i + 1;
        let n: usize = self.data.len();
        let m: usize = self.indcs.len();
        match slab_parts(&self.dims, self.offs, n, m, i) {
            None => None,
            Some((len, s, e)) => {
                let mut taken: &'a mut [T] = &mut [];
                core::mem::swap(&mut self.data, &mut taken);
                let (data_head, data_tail) = taken.split_at_mut(len);
                self.data = data_tail;
                let indcs_head = slice_subrange(self.indcs, 0, len);
                self.indcs = slice_subrange(self.indcs, len, m);
                Some(
                    CslMut {
                        data: data_head,
                        dims: self.dims,
                        indcs: indcs_head,
                        offs: slice_subrange(self.offs, s, e),
                    },
                )
            },
        }
    }

    /// The view of the next position from the back, if one is left. What is
    /// written through the view is written to the values of that position.
    pub fn next_back(&mut self) -> (r: Option<CslMut<'a, T, D>>)
        ensures
            match r {
                Some(v) => next_back_spec(old(self)@).0 == Some(v@) && final(old(self).data)@
                    == final(final(self).data)@ + final(v.data)@,
                None => next_back_spec(old(self)@).0 is None && final(old(self).data)@
                    == final(final(self).data)@,
            },
            final(self)@ == next_back_spec(old(self)@).1,
            old(self)@.wf() ==> final(self)@.wf() && (r is Some <==> old(self)@.curr < old(
                self,
            )@.max) && (r is Some ==> r.unwrap()@.wf() && r.unwrap()@.balanced()),
    {
        proof {
            if self@.wf() && self@.curr < self@.max {
                lemma_next_back_well_formed(self@);
            }
        }
        if self.curr_idx >= self.max_idx {
            return None;
        }
        let i: usize = self.max_idx - 1;
        self.max_idx = i;
        let n: usize = self.data.len();
        let m: usize = self.indcs.len();
        match slab_parts(&self.dims, self.offs, n, m, i) {
            None => None,
            Some((len, s, e)) => {
                let mut taken: &'a mut [T] = &mut [];
                core::mem::swap(&mut self.data, &mut taken);
                let (data_head, data_tail) = taken.split_at_mut(n - len);
                self.data = data_head;
                let indcs_tail = slice_subrange(self.indcs, m - len, m);
                self.indcs = slice_subrange(self.indcs, 0, m - len);
                Some(
                    CslMut {
                        data: data_tail,
                        dims: self.dims,
                        indcs: indcs_tail,
                        offs: slice_subrange(self.offs, s, e),
                    },
                )
            },
        }
    }

    /// Tells whether `idx` positions can be split off the front.
    pub fn can_split_at(&self, idx: usize) -> (r: bool)
        ensures
            r == can_split(self@, idx),
    {
        if idx > usize::MAX - self.curr_idx || self.curr_idx + idx > self.max_idx {
            return false;
        }
        span_len(
            &self.dims,
            self.offs,
            self.data.len(),
            self.indcs.len(),
            self.curr_idx,
            self.curr_idx + idx,
        ).is_some()
    }

    /// Divides the positions that are left into the first `idx` and the
    /// others. The two iterators share the offsets, and no value belongs to
    /// both: what is written through one is not seen through the other.
    pub fn split_at(self, idx: usize) -> (r: [Self; 2])
        requires
            can_split(self@, idx),
        ensures
            r@[0]@ == split_head(self@, idx),
            r@[1]@ == split_tail(self@, idx),
            final(self.data)@ == final(r@[0].data)@ + final(r@[1].data)@,
            self@.wf() ==> r@[0]@.wf() && r@[1]@.wf(),
    {
        proof {
            if self@.wf() {
                lemma_split_well_formed(self@, idx);
            }
        }
        let CslLineIterMut { curr_idx, data, dims, indcs, max_idx, offs } = self;
        let cut_point: usize = curr_idx + idx;
        let n: usize = data.len();
        let m: usize = indcs.len();
        let len: usize = match span_len(&dims, offs, n, m, curr_idx, cut_point) {
            Some(len) => len,
            None => 0,
        };
        let (data_head, data_tail) = data.split_at_mut(len);
        [
            CslLineIterMut {
                curr_idx,
                data: data_head,
                dims,
                indcs: slice_subrange(indcs, 0, len),
                max_idx: cut_point,
                offs,
            },
            CslLineIterMut {
                curr_idx: cut_point,
                data: data_tail,
                dims,
                indcs: slice_subrange(indcs, len, m),
                max_idx,
                offs,
            },
        ]
    }
}

} // verus!
