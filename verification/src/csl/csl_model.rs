//! What a compressed sparse line structure is, as plain sequences: its
//! parts, the rules that they keep, and what each operation makes of them.

use crate::csl::csl_error::CslError;
use crate::csl::csl_utils::place_or_zero;
use crate::dims::{all_zero, line_number, nonzero_product, outer_stride, saturated, zeros_lead};
use crate::utils::{ascending, max_nnz_spec, strictly_ascending};
use vstd::prelude::*;

verus! {

/// What a compressed sparse line structure holds, as plain sequences.
pub struct CslData<T> {
    /// Length of each axis, outermost first.
    pub dims: Seq<usize>,
    /// The stored values.
    pub data: Seq<T>,
    /// Innermost coordinate of each stored value.
    pub indcs: Seq<usize>,
    /// Where each line starts and ends in `data` and `indcs`.
    pub offs: Seq<usize>,
}

/// First position of line `i`, counted from the first offset.
pub open spec fn line_lo(offs: Seq<usize>, i: int) -> int {
    offs[i] - offs[0]
}

/// Position after the last one of line `i`, counted from the first offset.
pub open spec fn line_hi(offs: Seq<usize>, i: int) -> int {
    offs[i + 1] - offs[0]
}

/// Line `i`, if it lies within the stored indices, is strictly ascending.
pub open spec fn line_ok(indcs: Seq<usize>, offs: Seq<usize>, i: int) -> bool {
    line_hi(offs, i) <= indcs.len() ==> strictly_ascending(
        indcs.subrange(line_lo(offs, i), line_hi(offs, i)),
    )
}

/// Every line that lies within the stored indices is strictly ascending.
pub open spec fn lines_ok(indcs: Seq<usize>, offs: Seq<usize>) -> bool {
    forall|i: int| 0 <= i < offs.len() - 1 ==> #[trigger] line_ok(indcs, offs, i)
}

/// The offsets never decrease and every line can be searched.
pub open spec fn searchable(indcs: Seq<usize>, offs: Seq<usize>) -> bool {
    ascending(offs) && lines_ok(indcs, offs)
}

impl<T> CslData<T> {
    /// What every structure keeps, whichever way it was made: one index for
    /// each value, offsets that never decrease, and lines that can be searched.
    pub open spec fn wf(self) -> bool {
        self.data.len() == self.indcs.len() && searchable(self.indcs, self.offs)
    }

    /// The offsets span exactly the stored values.
    pub open spec fn balanced(self) -> bool {
        if self.offs.len() == 0 {
            self.data.len() == 0
        } else {
            self.offs.last() - self.offs[0] == self.data.len()
        }
    }

    /// Some index is not below the length of the innermost axis.
    pub open spec fn index_out_of_bound(self) -> bool {
        exists|i: int| 0 <= i < self.indcs.len() && self.indcs[i] >= self.dims.last()
    }
}

/// The structure of `d` axes that holds nothing: every axis of length
/// zero, and the one offset zero.
pub open spec fn empty_data<T>(d: nat) -> CslData<T> {
    CslData {
        dims: Seq::new(d, |i: int| 0usize),
        data: Seq::<T>::empty(),
        indcs: Seq::<usize>::empty(),
        offs: seq![0usize],
    }
}

/// Number of offsets that a shape asks for, or `None` where that number does
/// not fit: one for a shape without axes or whose axes all have length zero,
/// two for a single axis, else one more than the product of the lengths, the
/// innermost left out, that are not zero.
pub open spec fn correct_offs_len_spec(dims: Seq<usize>) -> Option<usize> {
    if dims.len() == 0 {
        Some(1)
    } else if dims.len() == 1 {
        Some(2)
    } else if all_zero(dims) {
        Some(1)
    } else if nonzero_product(dims.drop_last()) >= usize::MAX {
        None
    } else {
        Some((nonzero_product(dims.drop_last()) + 1) as usize)
    }
}

/// The first rule that the four parts of a structure break, or `None` where
/// they break none.
pub open spec fn first_violation<T>(v: CslData<T>) -> Option<CslError> {
    if !zeros_lead(v.dims) {
        Some(CslError::InnermostDimsZero)
    } else if v.data.len() != v.indcs.len() {
        Some(CslError::DiffDataIndcsLength)
    } else if !ascending(v.offs) {
        Some(CslError::InvalidOffsetsOrder)
    } else if v.data.len() > max_nnz_spec(v.dims) {
        Some(CslError::DataIndcsLengthGreaterThanDimsLength)
    } else if v.dims.len() > 0 && v.index_out_of_bound() {
        Some(CslError::IndcsGreaterThanEqualDimLength)
    } else if !lines_ok(v.indcs, v.offs) {
        Some(CslError::DuplicatedIndices)
    } else if v.dims.len() > 0 && correct_offs_len_spec(v.dims) is None {
        Some(CslError::OffsLengthOverflow)
    } else if v.dims.len() > 0 && correct_offs_len_spec(v.dims).unwrap() != v.offs.len() {
        Some(CslError::InvalidOffsetsLength)
    } else if v.offs.len() > 0 && v.offs.last() - v.offs[0] != v.data.len() {
        Some(CslError::LastOffsetDifferentNnz)
    } else {
        None
    }
}

/// The four parts break no rule of the format.
pub open spec fn valid<T>(v: CslData<T>) -> bool {
    first_violation(v) is None
}

/// The line that `idx` names and the positions that the line covers, or
/// `None` where the offsets hold no such line.
pub open spec fn line_offs_spec(dims: Seq<usize>, idx: Seq<usize>, offs: Seq<usize>) -> Option<
    (int, int, int),
> {
    let line = line_number(dims, idx) as int;
    if dims.len() == 0 || line + 1 >= offs.len() {
        None
    } else {
        Some(
            (
                line,
                if offs[line] >= offs[0] {
                    offs[line] - offs[0]
                } else {
                    0
                },
                if offs[line + 1] >= offs[0] {
                    offs[line + 1] - offs[0]
                } else {
                    0
                },
            ),
        )
    }
}

/// Where, counted from the start of the stored indices, the entry of `idx` is
/// stored, or `None` where the structure holds no such entry.
pub open spec fn data_idx_spec(
    dims: Seq<usize>,
    indcs: Seq<usize>,
    offs: Seq<usize>,
    idx: Seq<usize>,
) -> Option<int> {
    match line_offs_spec(dims, idx, offs) {
        None => None,
        Some((_, lo, hi)) => if lo <= hi <= indcs.len() && exists|p: int|
            lo <= p < hi && indcs[p] == idx.last() {
            Some(choose|p: int| lo <= p < hi && indcs[p] == idx.last())
        } else {
            None
        },
    }
}

impl<T> CslData<T> {
    /// Place of the value of `idx` among the stored values, if one is stored.
    pub open spec fn place(self, idx: Seq<usize>) -> Option<int> {
        data_idx_spec(self.dims, self.indcs, self.offs, idx)
    }
}

/// The value stored for `idx`, or `None` where the structure holds none.
pub open spec fn value_spec<T>(v: CslData<T>, idx: Seq<usize>) -> Option<T> {
    match v.place(idx) {
        Some(p) => if p < v.data.len() {
            Some(v.data[p])
        } else {
            None
        },
        None => None,
    }
}

/// `v` with the values at `p` and `q` exchanged.
pub open spec fn swapped<T>(v: CslData<T>, p: int, q: int) -> CslData<T> {
    CslData { data: v.data.update(p, v.data[q]).update(q, v.data[p]), ..v }
}

/// Within a line that can be searched, an index is stored at one place at most.
pub proof fn lemma_data_idx_unique(
    dims: Seq<usize>,
    indcs: Seq<usize>,
    offs: Seq<usize>,
    idx: Seq<usize>,
    p: int,
)
    requires
        searchable(indcs, offs),
        line_offs_spec(dims, idx, offs) is Some,
        line_offs_spec(dims, idx, offs).unwrap().1 <= p < line_offs_spec(dims, idx, offs).unwrap().2
            <= indcs.len(),
        indcs[p] == idx.last(),
    ensures
        data_idx_spec(dims, indcs, offs, idx) == Some(p),
{
    let (line, lo, hi) = line_offs_spec(dims, idx, offs).unwrap();
    assert(line_ok(indcs, offs, line));
    assert(lo == line_lo(offs, line) && hi == line_hi(offs, line));
    let q = choose|q: int| lo <= q < hi && indcs[q] == idx.last();
    let sub = indcs.subrange(lo, hi);
    assert(sub[p - lo] == sub[q - lo]);
    if p < q {
        assert(sub[p - lo] < sub[q - lo]);
    }
    if q < p {
        assert(sub[q - lo] < sub[p - lo]);
    }
}

/// `p` parts `indcs[lo..hi]` into the entries below `c` and the others.
pub open spec fn is_cut(indcs: Seq<usize>, lo: int, hi: int, c: usize, p: int) -> bool {
    &&& lo <= p <= hi
    &&& forall|k: int| lo <= k < p ==> indcs[k] < c
    &&& forall|k: int| p <= k < hi ==> indcs[k] >= c
}

/// The position that parts `indcs[lo..hi]` into the entries below `c` and
/// the others.
pub open spec fn cut_point(indcs: Seq<usize>, lo: int, hi: int, c: usize) -> int {
    choose|p: int| is_cut(indcs, lo, hi, c, p)
}

/// At most one position parts a line.
pub proof fn lemma_cut_unique(indcs: Seq<usize>, lo: int, hi: int, c: usize, p: int)
    requires
        is_cut(indcs, lo, hi, c, p),
    ensures
        cut_point(indcs, lo, hi, c) == p,
{
    let q = cut_point(indcs, lo, hi, c);
    if p < q {
        assert(indcs[p] >= c);
    }
    if q < p {
        assert(indcs[q] >= c);
    }
}

/// `dims` with length zero for each axis whose coordinate in `idx` is zero.
pub open spec fn zeroed(dims: Seq<usize>, idx: Seq<usize>) -> Seq<usize> {
    Seq::new(
        dims.len(),
        |i: int|
            if idx[i] == 0 {
                0usize
            } else {
                dims[i]
            },
    )
}

/// What is left of `v` once every entry at `idx` or after it has gone: the
/// lines before the line of `idx`, and of that line the entries whose index
/// is below the innermost coordinate of `idx`. Where the offsets hold no such
/// line, or the line lies outside the stored indices, `v` itself.
pub open spec fn truncate_spec<T>(v: CslData<T>, idx: Seq<usize>) -> CslData<T> {
    match line_offs_spec(v.dims, idx, v.offs) {
        None => v,
        Some((line, lo, hi)) => if lo <= hi <= v.indcs.len() {
            let p = cut_point(v.indcs, lo, hi, idx.last());
            CslData {
                dims: zeroed(v.dims, idx),
                data: v.data.take(p),
                indcs: v.indcs.take(p),
                offs: v.offs.take(line + 1).push((v.offs[0] + p) as usize),
            }
        } else {
            v
        },
    }
}

/// Truncation keeps a structure well formed and leaves its offsets spanning
/// exactly what is stored.
pub proof fn lemma_truncate_wf<T>(v: CslData<T>, idx: Seq<usize>)
    requires
        v.wf(),
    ensures
        truncate_spec(v, idx).wf(),
        v.balanced() ==> truncate_spec(v, idx).balanced(),
        truncate_spec(v, idx) != v ==> truncate_spec(v, idx).balanced(),
{
    match line_offs_spec(v.dims, idx, v.offs) {
        None => {},
        Some((line, lo, hi)) => {
            if lo <= hi <= v.indcs.len() {
                let c = idx.last();
                assert(line_ok(v.indcs, v.offs, line));
                let sub = v.indcs.subrange(lo, hi);
                lemma_cut_exists(v.indcs, lo, hi, c);
                let p = cut_point(v.indcs, lo, hi, c);
                let w = truncate_spec(v, idx);
                assert(w.offs.len() == line + 2);
                assert forall|i: int, j: int| 0 <= i <= j < w.offs.len() implies w.offs[i]
                    <= w.offs[j] by {
                    if j <= line {
                        assert(v.offs[i] <= v.offs[j]);
                    } else if i <= line {
                        assert(v.offs[i] <= v.offs[line]);
                    }
                }
                assert forall|i: int| 0 <= i < w.offs.len() - 1 implies #[trigger] line_ok(
                    w.indcs,
                    w.offs,
                    i,
                ) by {
                    let a = line_lo(w.offs, i);
                    let b = line_hi(w.offs, i);
                    if i < line {
                        assert(v.offs[i] <= v.offs[i + 1] <= v.offs[line]);
                        assert(v.offs[0] <= v.offs[i]);
                        assert(line_ok(v.indcs, v.offs, i));
                        assert(w.indcs.subrange(a, b) =~= v.indcs.subrange(a, b));
                    } else {
                        assert(a == lo && b == p);
                        let ws = w.indcs.subrange(a, b);
                        assert forall|x: int, y: int| 0 <= x < y < ws.len() implies ws[x]
                            < ws[y] by {
                            assert(sub[x] < sub[y]);
                        }
                    }
                }
            }
        },
    }
}

/// A line that is strictly ascending has a position that parts it.
pub proof fn lemma_cut_exists(indcs: Seq<usize>, lo: int, hi: int, c: usize)
    requires
        0 <= lo <= hi <= indcs.len(),
        strictly_ascending(indcs.subrange(lo, hi)),
    ensures
        is_cut(indcs, lo, hi, c, cut_point(indcs, lo, hi, c)),
    decreases hi - lo,
{
    let sub = indcs.subrange(lo, hi);
    if lo == hi {
        assert(is_cut(indcs, lo, hi, c, lo));
    } else if indcs[hi - 1] < c {
        assert forall|k: int| lo <= k < hi implies indcs[k] < c by {
            if k < hi - 1 {
                assert(sub[k - lo] < sub[hi - 1 - lo]);
            }
        }
        assert(is_cut(indcs, lo, hi, c, hi));
    } else {
        let sub2 = indcs.subrange(lo, hi - 1);
        assert forall|x: int, y: int| 0 <= x < y < sub2.len() implies sub2[x] < sub2[y] by {
            assert(sub[x] < sub[y]);
        }
        lemma_cut_exists(indcs, lo, hi - 1, c);
        let p = cut_point(indcs, lo, hi - 1, c);
        assert(is_cut(indcs, lo, hi, c, p));
    }
}

/// The one-axis view of the line of `idx`: its values, its indices and its
/// two offsets, or `None` where the offsets hold no such line or the line lies
/// outside what is stored.
pub open spec fn line_spec<T>(v: CslData<T>, idx: Seq<usize>) -> Option<CslData<T>> {
    match line_offs_spec(v.dims, idx, v.offs) {
        None => None,
        Some((line, lo, hi)) => if lo <= hi <= v.data.len() && hi <= v.indcs.len() {
            Some(
                CslData {
                    dims: seq![v.dims.last()],
                    data: v.data.subrange(lo, hi),
                    indcs: v.indcs.subrange(lo, hi),
                    offs: v.offs.subrange(line, line + 2),
                },
            )
        } else {
            None
        },
    }
}

/// The part of the first line of `v` whose indices lie in `start..end`, as a
/// one-axis view that keeps the two offsets of that line.
pub open spec fn sub_line_spec<T>(v: CslData<T>, start: usize, end: usize) -> Option<CslData<T>> {
    if v.offs.len() < 2 || v.offs[1] < v.offs[0] || v.offs[1] - v.offs[0] > v.indcs.len() {
        None
    } else {
        let e = v.offs[1] - v.offs[0];
        let p = cut_point(v.indcs, 0, e, start);
        let q = cut_point(v.indcs, p, e, end);
        if q <= v.data.len() {
            Some(
                CslData {
                    dims: seq![v.dims.last()],
                    data: v.data.subrange(p, q),
                    indcs: v.indcs.subrange(p, q),
                    offs: v.offs.subrange(0, 2),
                },
            )
        } else {
            None
        }
    }
}

/// The innermost `td` axes of `dims`, the first of them with length
/// `end - start`.
pub open spec fn sub_dims(dims: Seq<usize>, td: int, start: usize, end: usize) -> Seq<usize> {
    dims.subrange(dims.len() - td, dims.len() as int).update(0, (end - start) as usize)
}

/// The view of `td` axes, two at least, that covers the positions
/// `start..end` of the outermost of them: the offsets from `start` times the
/// stride to `end` times the stride, and the values at the places that these
/// offsets name, counted from the first offset of the structure. `None` where
/// the offsets or the values do not reach that far.
pub open spec fn slab_spec<T>(v: CslData<T>, td: int, start: usize, end: usize) -> Option<
    CslData<T>,
> {
    let dims = sub_dims(v.dims, td, start, end);
    let s = saturated(outer_stride(dims) * (start as nat)) as int;
    let e = saturated(outer_stride(dims) * (end as nat)) as int;
    let e1 = saturated((e + 1) as nat) as int;
    let a = place_or_zero(v.offs, s) as int;
    let b = place_or_zero(v.offs, e) as int;
    if a <= b <= v.data.len() && b <= v.indcs.len() && s <= e1 <= v.offs.len() {
        Some(
            CslData {
                dims,
                data: v.data.subrange(a, b),
                indcs: v.indcs.subrange(a, b),
                offs: v.offs.subrange(s, e1),
            },
        )
    } else {
        None
    }
}

/// The view of the innermost `td` axes of `v` over the positions
/// `start..end`: `None` for a range that ends before it starts or for more
/// axes than `v` has, an empty view for no axis, part of the first line for
/// one axis, and a slab of lines for more.
pub open spec fn sub_dim_spec<T>(v: CslData<T>, td: int, start: usize, end: usize) -> Option<
    CslData<T>,
> {
    if start > end || td > v.dims.len() {
        None
    } else if td == 0 {
        Some(
            CslData {
                dims: Seq::<usize>::empty(),
                data: Seq::<T>::empty(),
                indcs: Seq::<usize>::empty(),
                offs: Seq::<usize>::empty(),
            },
        )
    } else if td == 1 {
        sub_line_spec(v, start, end)
    } else {
        slab_spec(v, td, start, end)
    }
}

/// The sub dimension of `td` axes over the positions `start..end` is asked
/// of a structure that has it: the range does not end before it starts, the
/// structure has that many axes, and, for two axes or more, the outermost of
/// them has these positions; for a single axis, the structure has a line.
pub open spec fn sub_dim_in_range<T>(v: CslData<T>, td: int, start: usize, end: usize) -> bool {
    &&& 1 <= td <= v.dims.len()
    &&& start <= end
    &&& td >= 2 ==> end <= v.dims[v.dims.len() - td]
    &&& td == 1 ==> v.offs.len() >= 2
}

/// The view of a sub dimension is well formed: its lines are lines of the
/// structure, or part of the first of them.
pub proof fn lemma_sub_dim_wf<T>(v: CslData<T>, td: int, start: usize, end: usize)
    requires
        v.wf(),
        v.offs.len() <= usize::MAX,
        sub_dim_spec(v, td, start, end) is Some,
        0 <= td,
    ensures
        sub_dim_spec(v, td, start, end).unwrap().wf(),
{
    let w = sub_dim_spec(v, td, start, end).unwrap();
    if td == 0 {
    } else if td == 1 {
        let e = v.offs[1] - v.offs[0];
        assert(line_ok(v.indcs, v.offs, 0));
        lemma_cut_exists(v.indcs, 0, e, start);
        let p = cut_point(v.indcs, 0, e, start);
        let whole = v.indcs.subrange(0, e);
        let part = v.indcs.subrange(p, e);
        assert forall|x: int, y: int| 0 <= x < y < part.len() implies part[x] < part[y] by {
            assert(whole[x + p] < whole[y + p]);
        }
        lemma_cut_exists(v.indcs, p, e, end);
        let q = cut_point(v.indcs, p, e, end);
        assert(w.offs[0] == v.offs[0] && w.offs[1] == v.offs[1]);
        assert forall|i: int| 0 <= i < w.offs.len() - 1 implies #[trigger] line_ok(
            w.indcs,
            w.offs,
            i,
        ) by {
            if line_hi(w.offs, i) <= w.indcs.len() {
                assert(w.indcs.subrange(0, e) =~= v.indcs.subrange(0, e));
            }
        }
    } else {
        let dims = sub_dims(v.dims, td, start, end);
        let s = saturated(outer_stride(dims) * (start as nat)) as int;
        let e = saturated(outer_stride(dims) * (end as nat)) as int;
        let e1 = saturated((e + 1) as nat) as int;
        let a = place_or_zero(v.offs, s) as int;
        let b = place_or_zero(v.offs, e) as int;
        assert forall|i: int, j: int| 0 <= i <= j < w.offs.len() implies w.offs[i]
            <= w.offs[j] by {
            assert(v.offs[s + i] <= v.offs[s + j]);
        }
        assert forall|i: int| 0 <= i < w.offs.len() - 1 implies #[trigger] line_ok(
            w.indcs,
            w.offs,
            i,
        ) by {
            let lo = line_lo(w.offs, i);
            let hi = line_hi(w.offs, i);
            if hi <= w.indcs.len() {
                assert(v.offs[0] <= v.offs[s] <= v.offs[s + i] <= v.offs[s + i + 1]);
                assert(w.offs[0] == v.offs[s] && w.offs[i] == v.offs[s + i] && w.offs[i + 1]
                    == v.offs[s + i + 1]);
                assert(a == v.offs[s] - v.offs[0]);
                assert(w.indcs.len() == b - a);
                assert(line_hi(v.offs, s + i) == a + hi);
                assert(line_lo(v.offs, s + i) == a + lo);
                assert(line_ok(v.indcs, v.offs, s + i));
                assert(w.indcs.subrange(lo, hi) =~= v.indcs.subrange(
                    line_lo(v.offs, s + i),
                    line_hi(v.offs, s + i),
                ));
            }
        }
    }
}

/// The view of a line is well formed, and its offsets span what it holds.
pub proof fn lemma_line_wf<T>(v: CslData<T>, idx: Seq<usize>)
    requires
        v.wf(),
        line_spec(v, idx) is Some,
    ensures
        line_spec(v, idx).unwrap().wf(),
        line_spec(v, idx).unwrap().balanced(),
{
    let (line, lo, hi) = line_offs_spec(v.dims, idx, v.offs).unwrap();
    let w = line_spec(v, idx).unwrap();
    assert(v.offs[0] <= v.offs[line] <= v.offs[line + 1]);
    assert(line_ok(v.indcs, v.offs, line));
    assert(w.offs[0] == v.offs[line] && w.offs[1] == v.offs[line + 1]);
    assert forall|i: int| 0 <= i < w.offs.len() - 1 implies #[trigger] line_ok(
        w.indcs,
        w.offs,
        i,
    ) by {
        assert(w.indcs.subrange(line_lo(w.offs, i), line_hi(w.offs, i)) =~= v.indcs.subrange(
            lo,
            hi,
        ));
    }
}

/// Place in the values of `v` where its sub dimension of `td` axes over the
/// positions `start..end` begins.
pub open spec fn sub_dim_start<T>(v: CslData<T>, td: int, start: usize, end: usize) -> int {
    if td == 0 {
        0
    } else if td == 1 {
        cut_point(v.indcs, 0, v.offs[1] - v.offs[0], start)
    } else {
        place_or_zero(
            v.offs,
            saturated(outer_stride(sub_dims(v.dims, td, start, end)) * (start as nat)) as int,
        ) as int
    }
}

} // verus!
