//! Index arithmetic shared by the operations of a `Csl`.

use core::ops::Range;
use crate::csl::Csl;
use crate::csl::csl_error::CslError;
use crate::csl::csl_model::{
    correct_offs_len_spec, data_idx_spec, lemma_data_idx_unique, line_offs_spec, line_ok,
    searchable,
};
use crate::dims::{
    block, coordinate_of, index_of, lemma_block_step, lemma_line_sum_update, lemma_line_sum_zero,
    lemma_nonzero_product_skips_zeros, lemma_saturated_add, lemma_saturated_mul, line_number,
    line_sum, nonzero_product, outer_stride, run_start, run_start_from, saturated, stride,
    zeros_lead,
};
use crate::error::Error;
use crate::utils::{
    is_all_zero, saturating_mul, saturating_nonzero_product, saturating_product, strictly_ascending,
};
use vstd::arithmetic::div_mod::lemma_div_denominator;
use vstd::prelude::*;

verus! {

/// Number of offsets that the shape `dims` asks for.
pub fn correct_offs_len<const D: usize>(dims: &[usize; D]) -> (r: Result<usize, Error>)
    ensures
        match correct_offs_len_spec(dims@) {
            Some(n) => r == Ok::<usize, Error>(n),
            None => r == Err::<usize, Error>(Error::Csl(CslError::OffsLengthOverflow)),
        },
{
    if D == 0 {
        return Ok(1);
    }
    if D == 1 {
        return Ok(2);
    }
    if is_all_zero(dims.as_slice()) {
        return Ok(1);
    }
    assert(dims@.subrange(0, D - 1) =~= dims@.drop_last());
    let offs_len: usize = saturating_nonzero_product(dims.as_slice(), 0, D - 1);
    match offs_len.checked_add(1) {
        Some(n) => Ok(n),
        None => Err(Error::Csl(CslError::OffsLengthOverflow)),
    }
}

/// Number of lines that one step along the outermost axis skips, capped at
/// the largest `usize`.
pub fn outermost_stride<const D: usize>(dims: &[usize; D]) -> (r: usize)
    ensures
        r == saturated(outer_stride(dims@)),
{
    if D < 2 {
        return 1;
    }
    saturating_product(dims.as_slice(), 1, D - 1)
}

/// Place, counted from the first offset, that entry `i` of `offs` names:
/// the entry less the first offset. Zero where there is no such entry, or
/// where it is below the first offset.
pub open spec fn place_or_zero(offs: Seq<usize>, i: int) -> usize {
    if 0 <= i < offs.len() && offs[i] >= offs[0] {
        (offs[i] - offs[0]) as usize
    } else {
        0
    }
}

/// For the positions `range` of the outermost axis, the offsets that delimit
/// them and the places, counted from the first offset, of the values that
/// those offsets span.
pub fn outermost_offs<const D: usize>(dims: &[usize; D], offs: &[usize], range: Range<usize>) -> (r:
    [Range<usize>; 2])
    ensures
        r@[0].start == saturated(outer_stride(dims@) * (range.start as nat)),
        r@[0].end == saturated(
            (saturated(outer_stride(dims@) * (range.end as nat)) + 1) as nat,
        ),
        r@[1].start == place_or_zero(offs@, r@[0].start as int),
        r@[1].end == place_or_zero(
            offs@,
            saturated(outer_stride(dims@) * (range.end as nat)) as int,
        ),
{
    let outermost_stride: usize = outermost_stride(dims);
    proof {
        lemma_saturated_mul(outer_stride(dims@), range.start);
        lemma_saturated_mul(outer_stride(dims@), range.end);
    }
    let start_off_idx: usize = saturating_mul(outermost_stride, range.start);
    let end_off_idx: usize = saturating_mul(outermost_stride, range.end);
    let off_start: usize = if start_off_idx < offs.len() {
        offs[start_off_idx].saturating_sub(offs[0])
    } else {
        0
    };
    let off_end: usize = if end_off_idx < offs.len() {
        offs[end_off_idx].saturating_sub(offs[0])
    } else {
        0
    };
    [start_off_idx..end_off_idx.saturating_add(1), off_start..off_end]
}

/// The offsets that delimit the line of `indcs` and the positions, counted
/// from the first offset, that the line covers.
pub fn line_offs<const D: usize>(dims: &[usize; D], indcs: &[usize; D], offs: &[usize]) -> (r:
    Option<[Range<usize>; 2]>)
    ensures
        match line_offs_spec(dims@, indcs@, offs@) {
            None => r is None,
            Some((line, lo, hi)) => r is Some && r.unwrap()@[0].start == line && r.unwrap()@[0].end
                == line + 2 && r.unwrap()@[1].start == lo && r.unwrap()@[1].end == hi,
        },
{
    if D == 0 {
        return None;
    }
    let mut lines: usize = 0;
    let mut i: usize = 0;
    while i < D - 1
        invariant
            D >= 1,
            i <= D - 1,
            lines == saturated(line_sum(dims@, indcs@, i as int)),
        decreases D - 1 - i,
    {
        let p: usize = saturating_product(dims.as_slice(), i + 1, D - 1);
        let term: usize = saturating_mul(p, indcs[i]);
        proof {
            lemma_saturated_mul(stride(dims@, i as int), indcs@[i as int]);
            assert(stride(dims@, i as int) * (indcs@[i as int] as nat) == (indcs@[i as int] as nat)
                * stride(dims@, i as int)) by (nonlinear_arith);
            lemma_saturated_add(
                line_sum(dims@, indcs@, i as int),
                (indcs@[i as int] as nat) * stride(dims@, i as int),
            );
        }
        lines = lines.saturating_add(term);
        i += 1;
    }
    if lines >= offs.len() || lines + 1 >= offs.len() {
        return None;
    }
    let first: usize = offs[0];
    let off_start: usize = offs[lines].saturating_sub(first);
    let off_end: usize = offs[lines + 1].saturating_sub(first);
    Some([lines..lines + 2, off_start..off_end])
}

/// The last offset. Offsets that are empty get their first one, zero.
pub fn manage_last_offset(offs: &mut Vec<usize>) -> (r: usize)
    ensures
        final(offs)@ == if old(offs)@.len() == 0 {
            seq![0usize]
        } else {
            old(offs)@
        },
        r == final(offs)@.last(),
{
    let n: usize = offs.len();
    if n == 0 {
        offs.push(0);
        assert(offs@ =~= seq![0usize]);
        0
    } else {
        offs[n - 1]
    }
}

/// The index whose line is `line` and whose innermost coordinate is
/// `innermost`: the line number read back, axis by axis from the inside, as
/// digits whose bases are the lengths of the axes. An axis of length zero,
/// and each axis before it, gets the coordinate zero.
pub fn line_to_index<const D: usize>(dims: &[usize; D], line: usize, innermost: usize) -> (r:
    [usize; D])
    requires
        D >= 1,
    ensures
        r@ == index_of(dims@, line, innermost),
        forall|i: int| 0 <= i < D - 1 ==> (dims@[i] == 0 ==> r@[i] == 0),
        forall|i: int| 0 <= i < D - 1 ==> (dims@[i] != 0 ==> r@[i] < dims@[i]),
        zeros_lead(dims@.drop_last()) && line < nonzero_product(dims@.drop_last())
            ==> line_number(dims@, r@) == line,
{
    let mut idx: [usize; D] = [0usize;D];
    idx[D - 1] = innermost;
    let mut rem: usize = line;
    let mut i: usize = D - 1;
    proof {
        lemma_block_step(dims@, D - 1);
        lemma_line_sum_zero(dims@, idx@, D - 1);
        assert(rem * block(dims@, D - 1) == rem) by (nonlinear_arith)
            requires
                block(dims@, D - 1) == 1,
        ;
        assert(line as int / 1 == line);
    }
    while i > 0 && dims[i - 1] != 0
        invariant
            i <= D - 1,
            idx@.len() == D,
            idx@[D - 1] == innermost,
            forall|j: int| 0 <= j < i ==> idx@[j] == 0,
            forall|j: int| i <= j < D - 1 ==> dims@[j] != 0 && idx@[j] < dims@[j],
            forall|j: int|
                i <= j < D - 1 ==> idx@[j] == (line as int / block(dims@, j + 1) as int) % (
                dims@[j] as int),
            line == rem * block(dims@, i as int) + line_number(dims@, idx@),
            block(dims@, i as int) > 0,
            rem == line as int / block(dims@, i as int) as int,
            run_start(dims@) == run_start_from(dims@, i as int),
        decreases i,
    {
        let d: usize = dims[i - 1];
        let q: usize = rem / d;
        let m: usize = rem % d;
        proof {
            let old_idx = idx@;
            lemma_line_sum_update(dims@, old_idx, i - 1, m, D - 1);
            lemma_block_step(dims@, i - 1);
            let b = block(dims@, i as int) as int;
            assert(stride(dims@, i - 1) == b);
            assert(rem == q * d + m) by (nonlinear_arith)
                requires
                    q == rem / d,
                    m == rem % d,
                    d > 0,
            ;
            assert(rem * b == q * (d * b) + m * b) by (nonlinear_arith)
                requires
                    rem == q * d + m,
            ;
            lemma_div_denominator(line as int, b, d as int);
            assert(b * d == d * b) by (nonlinear_arith);
            assert(d * b > 0) by (nonlinear_arith)
                requires
                    d > 0,
                    b > 0,
            ;
        }
        idx[i - 1] = m;
        rem = q;
        i -= 1;
    }
    proof {
        assert(run_start(dims@) == i);
        assert forall|j: int| 0 <= j < D - 1 implies idx@[j] == coordinate_of(dims@, line, j) by {}
        assert(idx@ =~= index_of(dims@, line, innermost));
        if zeros_lead(dims@.drop_last()) && line < nonzero_product(dims@.drop_last()) {
            let s = dims@.drop_last();
            assert forall|j: int| 0 <= j < i implies s[j] == 0 by {
                if s[j] != 0 {
                    assert(s[i - 1] != 0);
                }
            }
            lemma_nonzero_product_skips_zeros(s, i as int);
            assert(s.skip(i as int) =~= dims@.subrange(i as int, D - 1));
            let b = block(dims@, i as int) as int;
            assert(rem == 0) by (nonlinear_arith)
                requires
                    rem * b + line_number(dims@, idx@) < b,
                    rem >= 0,
                    b >= 0,
            ;
            assert(rem * b == 0) by (nonlinear_arith)
                requires
                    rem == 0,
            ;
        }
    }
    idx
}

/// First position `p` of `s[lo..hi]` whose entry is not below `x`, or `hi`
/// where every entry is below it.
pub fn lower_bound(s: &[usize], lo: usize, hi: usize, x: usize) -> (p: usize)
    requires
        lo <= hi <= s@.len(),
        strictly_ascending(s@.subrange(lo as int, hi as int)),
    ensures
        lo <= p <= hi,
        forall|k: int| lo <= k < p ==> s@[k] < x,
        forall|k: int| p <= k < hi ==> s@[k] >= x,
{
    let mut a: usize = lo;
    let mut b: usize = hi;
    let ghost sub = s@.subrange(lo as int, hi as int);
    while a < b
        invariant
            lo <= a <= b <= hi <= s@.len(),
            sub == s@.subrange(lo as int, hi as int),
            strictly_ascending(sub),
            forall|k: int| lo <= k < a ==> s@[k] < x,
            forall|k: int| b <= k < hi ==> s@[k] >= x,
        decreases b - a,
    {
        let mid: usize = a + (b - a) / 2;
        if s[mid] < x {
            assert forall|k: int| lo <= k < mid + 1 implies s@[k] < x by {
                if k < mid {
                    assert(sub[k - lo] < sub[mid - lo]);
                }
            }
            a = mid + 1;
        } else {
            assert forall|k: int| mid <= k < hi implies s@[k] >= x by {
                if k > mid {
                    assert(sub[mid - lo] < sub[k - lo]);
                }
            }
            b = mid;
        }
    }
    a
}

/// Where in `store_indcs` the entry of `idx` is stored, if it is stored.
pub fn data_idx_in<const D: usize>(
    dims: &[usize; D],
    store_indcs: &[usize],
    offs: &[usize],
    idx: &[usize; D],
) -> (r: Option<usize>)
    requires
        searchable(store_indcs@, offs@),
    ensures
        match r {
            Some(p) => data_idx_spec(dims@, store_indcs@, offs@, idx@) == Some(p as int) && p
                < store_indcs@.len(),
            None => data_idx_spec(dims@, store_indcs@, offs@, idx@) is None,
        },
{
    if D == 0 {
        return None;
    }
    let innermost_idx: usize = idx[D - 1];
    match line_offs(dims, idx, offs) {
        None => None,
        Some(ranges) => {
            let lo: usize = ranges[1].start;
            let hi: usize = ranges[1].end;
            if lo > hi || hi > store_indcs.len() {
                return None;
            }
            proof {
                let line = line_offs_spec(dims@, idx@, offs@).unwrap().0;
                assert(line_ok(store_indcs@, offs@, line));
            }
            let p: usize = lower_bound(store_indcs, lo, hi, innermost_idx);
            if p < hi && store_indcs[p] == innermost_idx {
                proof {
                    lemma_data_idx_unique(dims@, store_indcs@, offs@, idx@, p as int);
                }
                Some(p)
            } else {
                proof {
                    let sub = store_indcs@.subrange(lo as int, hi as int);
                    assert forall|k: int| lo <= k < hi implies store_indcs@[k]
                        != innermost_idx by {
                        if k > p {
                            assert(sub[p - lo] < sub[k - lo]);
                        }
                    }
                }
                None
            }
        },
    }
}

/// Where in the data of `csl` the value of `indcs` is stored, if it is stored.
pub fn data_idx<T, const D: usize>(csl: &Csl<T, D>, indcs: [usize; D]) -> (r: Option<usize>)
    requires
        csl@.wf(),
    ensures
        match r {
            Some(p) => csl@.place(indcs@) == Some(p as int)
                && p < csl@.data.len(),
            None => csl@.place(indcs@) is None,
        },
{
    data_idx_in(&csl.dims, csl.indcs.as_slice(), csl.offs.as_slice(), &indcs)
}

} // verus!
