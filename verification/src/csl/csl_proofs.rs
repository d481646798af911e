//! What holds of every `Csl`: lookups, swaps and truncation, stated over the
//! plain sequences that a structure holds.

use crate::csl::csl_model::{
    correct_offs_len_spec, CslData, cut_point, is_cut, lemma_cut_exists, lemma_data_idx_unique,
    lemma_truncate_wf, line_hi, line_lo, line_offs_spec, line_ok, sub_dim_in_range, sub_dim_spec,
    sub_dims, swapped, truncate_spec, valid, value_spec, zeroed,
};
use crate::dims::{
    all_zero, block, in_range, lemma_block_step, lemma_block_within_lines, lemma_last_line_of_block,
    lemma_lex_order_is_line_order, lemma_line_in_shape, lemma_line_sum_zero,
    lemma_nonzero_product_skips_zeros, lemma_product_push, lemma_product_without_zeros, lex_lt,
    line_number, line_sum, nonzero_product, outer_stride, stride,
};
use crate::utils::{max_nnz_spec, strictly_ascending};
use vstd::prelude::*;

verus! {

/// What passes the checks of `new` is well formed, and its offsets span
/// exactly what it stores.
pub proof fn lemma_valid_wf<T>(v: CslData<T>)
    requires
        valid(v),
    ensures
        v.wf(),
        v.balanced(),
{
    if v.offs.len() == 0 {
        if v.dims.len() > 0 {
            assert(correct_offs_len_spec(v.dims).unwrap() == 0);
        }
    }
}

/// In a structure that passes the checks of `new`, every index within the
/// shape names a line that the offsets hold, and the line lies within what
/// is stored.
pub proof fn lemma_valid_line<T>(v: CslData<T>, idx: Seq<usize>)
    requires
        valid(v),
        v.dims.len() >= 1,
        in_range(v.dims, idx),
    ensures
        line_number(v.dims, idx) + 1 < v.offs.len(),
        line_offs_spec(v.dims, idx, v.offs) == Some(
            (
                line_number(v.dims, idx) as int,
                line_lo(v.offs, line_number(v.dims, idx) as int),
                line_hi(v.offs, line_number(v.dims, idx) as int),
            ),
        ),
        0 <= line_lo(v.offs, line_number(v.dims, idx) as int) <= line_hi(
            v.offs,
            line_number(v.dims, idx) as int,
        ) <= v.indcs.len(),
{
    lemma_valid_wf(v);
    lemma_line_in_shape(v.dims, idx);
    let line = line_number(v.dims, idx) as int;
    if v.dims.len() == 1 {
        assert(v.dims.drop_last() =~= Seq::<usize>::empty());
    } else {
        assert(v.dims[0] != 0);
        lemma_product_without_zeros(v.dims.drop_last());
    }
    assert(line + 1 < v.offs.len());
    assert(v.offs[0] <= v.offs[line] <= v.offs[line + 1] <= v.offs[v.offs.len() - 1]);
}

/// A lookup within the shape gives a value exactly where the line of the
/// index holds its innermost coordinate, and the value is the one stored at
/// the place of that coordinate; elsewhere it gives none.
pub proof fn lemma_value_iff_stored<T>(v: CslData<T>, idx: Seq<usize>)
    requires
        valid(v),
        v.dims.len() >= 1,
        in_range(v.dims, idx),
    ensures
        value_spec(v, idx) is Some <==> exists|p: int|
            line_lo(v.offs, line_number(v.dims, idx) as int) <= p < line_hi(
                v.offs,
                line_number(v.dims, idx) as int,
            ) && v.indcs[p] == idx.last(),
        forall|p: int|
            line_lo(v.offs, line_number(v.dims, idx) as int) <= p < line_hi(
                v.offs,
                line_number(v.dims, idx) as int,
            ) && v.indcs[p] == idx.last() ==> value_spec(v, idx) == Some(v.data[p]),
{
    lemma_valid_wf(v);
    lemma_valid_line(v, idx);
    let line = line_number(v.dims, idx) as int;
    assert forall|p: int|
        line_lo(v.offs, line) <= p < line_hi(v.offs, line) && v.indcs[p]
            == idx.last() implies value_spec(v, idx) == Some(v.data[p]) by {
        lemma_data_idx_unique(v.dims, v.indcs, v.offs, idx, p);
    }
}

/// A swap exchanges what two indices look up and leaves every other lookup
/// as it was.
pub proof fn lemma_swap_values<T>(v: CslData<T>, a: Seq<usize>, b: Seq<usize>, c: Seq<usize>)
    requires
        v.wf(),
        v.place(a) is Some,
        v.place(b) is Some,
    ensures
        ({
            let p = v.place(a).unwrap();
            let q = v.place(b).unwrap();
            let w = swapped(v, p, q);
            &&& value_spec(w, a) == value_spec(v, b)
            &&& value_spec(w, b) == value_spec(v, a)
            &&& v.place(c) != Some(p) && v.place(c) != Some(q) ==> value_spec(w, c) == value_spec(
                v,
                c,
            )
        }),
{
}

/// Truncation at `idx` leaves every index within the shape `dims` in its
/// line: before each middle axis whose coordinate in `idx` is zero, and
/// whose length the truncation therefore sets to zero, every axis has length
/// one, so that no coordinate before it counts lines.
pub open spec fn keeps_lines(dims: Seq<usize>, idx: Seq<usize>) -> bool {
    forall|i: int, j: int| 0 <= i < j < dims.len() - 1 && idx[j] == 0 ==> dims[i] == 1
}

/// Where truncation at `idx` keeps the lines, an index within the shape has
/// the same line number in the shape that the truncation leaves.
pub proof fn lemma_line_sum_zeroed(dims: Seq<usize>, idx: Seq<usize>, other: Seq<usize>, k: int)
    requires
        in_range(dims, idx),
        in_range(dims, other),
        keeps_lines(dims, idx),
        0 <= k <= dims.len() - 1,
    ensures
        line_sum(dims, other, k) == line_sum(zeroed(dims, idx), other, k),
    decreases k,
{
    if k > 0 {
        lemma_line_sum_zeroed(dims, idx, other, k - 1);
        let z = zeroed(dims, idx);
        let n = dims.len() as int;
        if exists|j: int| k - 1 < j < n - 1 && idx[j] == 0 {
            let j = choose|j: int| k - 1 < j < n - 1 && idx[j] == 0;
            assert(dims[k - 1] == 1);
            assert(other[k - 1] == 0);
            assert(0 * stride(dims, k - 1) == 0) by (nonlinear_arith);
            assert(0 * stride(z, k - 1) == 0) by (nonlinear_arith);
        } else {
            assert(z.subrange(k, n - 1) =~= dims.subrange(k, n - 1));
        }
    }
}

/// After a truncation at `idx` that keeps the lines, a lookup before `idx`
/// in row-major order gives what it gave, and a lookup at `idx` or after it
/// gives nothing.
pub proof fn lemma_truncate_values<T>(v: CslData<T>, idx: Seq<usize>, other: Seq<usize>)
    requires
        valid(v),
        v.dims.len() >= 1,
        in_range(v.dims, idx),
        in_range(v.dims, other),
        keeps_lines(v.dims, idx),
    ensures
        lex_lt(other, idx) ==> value_spec(truncate_spec(v, idx), other) == value_spec(v, other),
        !lex_lt(other, idx) ==> value_spec(truncate_spec(v, idx), other) is None,
{
    lemma_valid_wf(v);
    lemma_valid_line(v, idx);
    lemma_valid_line(v, other);
    lemma_truncate_wf(v, idx);
    lemma_lex_order_is_line_order(v.dims, other, idx);
    let w = truncate_spec(v, idx);
    let line = line_number(v.dims, idx) as int;
    let lo = line_lo(v.offs, line);
    let hi = line_hi(v.offs, line);
    let c = idx.last();
    assert(line_ok(v.indcs, v.offs, line));
    lemma_cut_exists(v.indcs, lo, hi, c);
    let p = cut_point(v.indcs, lo, hi, c);
    assert(is_cut(v.indcs, lo, hi, c, p));
    assert(w.dims == zeroed(v.dims, idx));
    lemma_line_sum_zeroed(v.dims, idx, other, v.dims.len() - 1);
    let l2 = line_number(v.dims, other) as int;
    assert(line_number(w.dims, other) == l2);
    let lo2 = line_lo(v.offs, l2);
    let hi2 = line_hi(v.offs, l2);
    let c2 = other.last();
    assert(w.offs.len() == line + 2);
    if l2 < line {
        assert(v.offs[0] <= v.offs[l2] <= v.offs[l2 + 1] <= v.offs[line]);
        assert(line_offs_spec(w.dims, other, w.offs) == Some((l2, lo2, hi2)));
        assert(hi2 <= p);
        if exists|q: int| lo2 <= q < hi2 && v.indcs[q] == c2 {
            let q = choose|q: int| lo2 <= q < hi2 && v.indcs[q] == c2;
            assert(w.indcs[q] == c2);
            lemma_data_idx_unique(v.dims, v.indcs, v.offs, other, q);
            lemma_data_idx_unique(w.dims, w.indcs, w.offs, other, q);
        } else {
            assert forall|q: int| lo2 <= q < hi2 implies w.indcs[q] != c2 by {
                assert(w.indcs[q] == v.indcs[q]);
            }
        }
    } else if l2 == line {
        assert(v.offs[0] <= v.offs[line]);
        assert(line_offs_spec(w.dims, other, w.offs) == Some((line, lo, p)));
        if c2 < c {
            if exists|q: int| lo <= q < hi && v.indcs[q] == c2 {
                let q = choose|q: int| lo <= q < hi && v.indcs[q] == c2;
                assert(q < p);
                assert(w.indcs[q] == c2);
                lemma_data_idx_unique(v.dims, v.indcs, v.offs, other, q);
                lemma_data_idx_unique(w.dims, w.indcs, w.offs, other, q);
            } else {
                assert forall|q: int| lo <= q < p implies w.indcs[q] != c2 by {
                    assert(w.indcs[q] == v.indcs[q]);
                }
            }
        } else {
            assert forall|q: int| lo <= q < p implies w.indcs[q] != c2 by {
                assert(w.indcs[q] == v.indcs[q]);
            }
        }
    } else {
        assert(line_offs_spec(w.dims, other, w.offs) is None);
    }
}

/// A strictly ascending sequence holds at each place a value that is not
/// below the place.
pub proof fn lemma_ascending_at_least(s: Seq<usize>, i: int)
    requires
        strictly_ascending(s),
        0 <= i < s.len(),
    ensures
        s[i] >= i,
    decreases i,
{
    if i > 0 {
        lemma_ascending_at_least(s, i - 1);
        assert(s[i - 1] < s[i]);
    }
}

/// In a structure that passes the checks of `new`, the first `n` lines hold
/// no more than `n` times the length of the innermost axis.
pub proof fn lemma_lines_capacity<T>(v: CslData<T>, n: int)
    requires
        valid(v),
        v.dims.len() >= 1,
        0 <= n < v.offs.len(),
    ensures
        v.offs[n] - v.offs[0] <= n * v.dims.last(),
    decreases n,
{
    lemma_valid_wf(v);
    if n > 0 {
        lemma_lines_capacity(v, n - 1);
        let lo = line_lo(v.offs, n - 1);
        let hi = line_hi(v.offs, n - 1);
        assert(v.offs[0] <= v.offs[n - 1] <= v.offs[n] <= v.offs[v.offs.len() - 1]);
        assert(line_ok(v.indcs, v.offs, n - 1));
        let line = v.indcs.subrange(lo, hi);
        if line.len() > 0 {
            lemma_ascending_at_least(line, line.len() - 1);
            assert(line[line.len() - 1] == v.indcs[hi - 1]);
            assert(v.indcs[hi - 1] < v.dims.last());
        }
        assert(n * v.dims.last() == (n - 1) * v.dims.last() + v.dims.last()) by (nonlinear_arith);
    }
}

/// The index `idx` is the last of a block of lines: its innermost
/// coordinate is not zero, its coordinates before that are zero up to some
/// axis, and from that axis on each is the last of its axis and not zero. A
/// single axis is a block by itself.
pub open spec fn ends_block(dims: Seq<usize>, idx: Seq<usize>) -> bool {
    dims.len() == 1 || {
        &&& idx.last() != 0
        &&& forall|i: int| 0 <= i < dims.len() - 1 ==> idx[i] == 0 || idx[i] == dims[i] - 1
        &&& forall|i: int, j: int| 0 <= i < j < dims.len() - 1 && idx[i] != 0 ==> idx[j] != 0
    }
}

/// Truncation at the last index of a block of lines leaves a structure that
/// passes every check of `new`.
pub proof fn lemma_truncate_valid<T>(v: CslData<T>, idx: Seq<usize>)
    requires
        valid(v),
        v.dims.len() >= 1,
        in_range(v.dims, idx),
        ends_block(v.dims, idx),
    ensures
        valid(truncate_spec(v, idx)),
{
    lemma_valid_wf(v);
    lemma_valid_line(v, idx);
    lemma_truncate_wf(v, idx);
    let w = truncate_spec(v, idx);
    let n = v.dims.len() as int;
    let line = line_number(v.dims, idx) as int;
    let lo = line_lo(v.offs, line);
    let hi = line_hi(v.offs, line);
    let c = idx.last();
    let last = v.dims.last();
    assert(line_ok(v.indcs, v.offs, line));
    lemma_cut_exists(v.indcs, lo, hi, c);
    let p = cut_point(v.indcs, lo, hi, c);
    assert(w.dims == zeroed(v.dims, idx));
    assert(w.data.len() == p);
    assert(w.offs.len() == line + 2);
    assert(p <= v.data.len() <= max_nnz_spec(v.dims));
    lemma_lines_capacity(v, line + 1);
    if n == 1 {
        assert(w.dims.drop_last() =~= Seq::<usize>::empty());
        assert(w.dims.drop_last().push(w.dims.last()) =~= w.dims);
        lemma_product_push(w.dims.drop_last(), w.dims.last());
        if c == 0 {
            assert(p == 0) by {
                if p > lo {
                    assert(v.indcs[lo] < c);
                }
            }
            assert(all_zero(w.dims));
        } else {
            assert(w.dims[0] == last);
            assert(!all_zero(w.dims));
            assert(p <= 1 * last);
        }
        assert(!w.index_out_of_bound()) by {
            if w.index_out_of_bound() {
                let i = choose|i: int| 0 <= i < w.indcs.len() && w.indcs[i] >= w.dims.last();
                assert(w.indcs[i] == v.indcs[i]);
                assert(v.indcs[i] < c);
            }
        }
    } else {
        let k = first_kept(idx, 0);
        lemma_first_kept(idx, 0);
        assert(w.dims.last() == last);
        assert(!all_zero(w.dims));
        assert forall|i: int, j: int| 0 <= i < j < w.dims.len() && w.dims[i] != 0 implies w.dims[j]
            != 0 by {
            if j < n - 1 {
                assert(idx[i] != 0);
            }
        }
        let wd = w.dims.drop_last();
        lemma_nonzero_product_skips_zeros(wd, k);
        assert(wd.skip(k) =~= v.dims.subrange(k, n - 1));
        lemma_line_sum_zero(v.dims, idx, k);
        lemma_last_line_of_block(v.dims, idx, k);
        assert(nonzero_product(wd) == line + 1);
        assert(wd.push(last) =~= w.dims);
        lemma_product_push(wd, last);
        assert(nonzero_product(w.dims) == (line + 1) * last);
        assert(!w.index_out_of_bound()) by {
            if w.index_out_of_bound() {
                let i = choose|i: int| 0 <= i < w.indcs.len() && w.indcs[i] >= w.dims.last();
                assert(w.indcs[i] == v.indcs[i]);
            }
        }
    }
}

/// Place of the first coordinate of `idx` from `from` on, the innermost left
/// out, that is not zero, or the place of the innermost where there is none.
pub open spec fn first_kept(idx: Seq<usize>, from: int) -> int
    decreases idx.len() - from,
{
    if from >= idx.len() - 1 || idx[from] != 0 {
        from
    } else {
        first_kept(idx, from + 1)
    }
}

/// Before the first coordinate that is not zero, every coordinate is zero.
pub proof fn lemma_first_kept(idx: Seq<usize>, from: int)
    requires
        0 <= from,
        idx.len() >= 1,
    ensures
        from <= first_kept(idx, from),
        from <= idx.len() - 1 ==> first_kept(idx, from) <= idx.len() - 1,
        forall|i: int| from <= i < first_kept(idx, from) ==> idx[i] == 0,
        first_kept(idx, from) < idx.len() - 1 ==> idx[first_kept(idx, from)] != 0,
    decreases idx.len() - from,
{
    if !(from >= idx.len() - 1 || idx[from] != 0) {
        lemma_first_kept(idx, from + 1);
    }
}

/// On a structure that passes the checks of `new`, a sub dimension of two
/// axes or more over positions that its outermost axis has is there, and so
/// is one of a single axis where the structure has a line.
pub proof fn lemma_sub_dim_in_range<T>(v: CslData<T>, td: int, start: usize, end: usize)
    requires
        valid(v),
        sub_dim_in_range(v, td, start, end),
    ensures
        sub_dim_spec(v, td, start, end) is Some,
{
    lemma_valid_wf(v);
    let n = v.dims.len() as int;
    let last = v.offs.len() - 1;
    if td == 1 {
        let e = v.offs[1] - v.offs[0];
        assert(v.offs[0] <= v.offs[1] <= v.offs[last]);
        assert(line_ok(v.indcs, v.offs, 0));
        lemma_cut_exists(v.indcs, 0, e, start);
        let p = cut_point(v.indcs, 0, e, start);
        let whole = v.indcs.subrange(0, e);
        let part = v.indcs.subrange(p, e);
        assert forall|x: int, y: int| 0 <= x < y < part.len() implies part[x] < part[y] by {
            assert(whole[x + p] < whole[y + p]);
        }
        lemma_cut_exists(v.indcs, p, e, end);
    } else {
        let m = n - td;
        let dims = sub_dims(v.dims, td, start, end);
        let st = outer_stride(dims);
        assert(dims.subrange(1, td - 1) =~= v.dims.subrange(m + 1, n - 1));
        assert(st == block(v.dims, m + 1));
        lemma_block_step(v.dims, m);
        if v.dims[m] == 0 {
            assert(st * (start as nat) == 0 && st * (end as nat) == 0) by (nonlinear_arith)
                requires
                    start == 0,
                    end == 0,
            ;
            assert(v.offs.len() >= 1);
            assert(sub_dim_spec(v, td, start, end) is Some);
        } else {
            lemma_block_within_lines(v.dims, m);
            assert(!all_zero(v.dims));
            let lines = nonzero_product(v.dims.drop_last());
            assert(v.offs.len() == lines + 1);
            let d = v.dims[m] as nat;
            assert(st * (start as nat) <= st * (end as nat) <= d * st) by (nonlinear_arith)
                requires
                    start <= end <= d,
            ;
            let s = st * (start as nat);
            let e = st * (end as nat);
            assert(e <= lines);
            assert(v.offs[0] <= v.offs[s as int] <= v.offs[e as int] <= v.offs[last]);
            assert(sub_dim_spec(v, td, start, end) is Some);
        }
    }
}

} // verus!
