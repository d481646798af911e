//! Small checks over slices and saturating arithmetic over shapes.

use crate::dims::{
    all_zero, lemma_saturated_mul, lemma_subrange_step, nonzero_product, product, saturated,
    zeros_lead,
};
use crate::rnd::gen_range;
use rand::Rng;
use vstd::prelude::*;

verus! {

/// Holds an iterator that a fork-join executor may split and walk in
/// parallel.
#[derive(Debug)]
pub struct ParallelIteratorWrapper<I>(pub I);

/// Holds an iterator while a fork-join executor splits it.
#[derive(Debug)]
pub struct ParallelProducerWrapper<I>(pub I);

/// No entry of `s` is smaller than an entry before it.
pub open spec fn ascending(s: Seq<usize>) -> bool {
    forall|i: int, j: int| 0 <= i <= j < s.len() ==> s[i] <= s[j]
}

/// Every entry of `s` is smaller than the entries after it.
pub open spec fn strictly_ascending(s: Seq<usize>) -> bool {
    forall|i: int, j: int| 0 <= i < j < s.len() ==> s[i] < s[j]
}

/// Two entries of `s` at different places are equal.
pub open spec fn repeats(s: Seq<usize>) -> bool {
    exists|i: int, j: int| 0 <= i < j < s.len() && s[i] == s[j]
}

/// `a * b`, capped at the largest `usize`.
pub fn saturating_mul(a: usize, b: usize) -> (r: usize)
    ensures
        r == saturated((a as nat) * (b as nat)),
{
    match a.checked_mul(b) {
        Some(v) => v,
        None => usize::MAX,
    }
}

/// Tells whether each entry is at least as large as the one before it.
pub fn are_in_ascending_order(slice: &[usize]) -> (r: bool)
    ensures
        r == ascending(slice@),
{
    let n: usize = slice.len();
    if n < 2 {
        return true;
    }
    let mut i: usize = 1;
    while i < n
        invariant
            1 <= i <= n,
            n == slice@.len(),
            forall|a: int, b: int| 0 <= a <= b < i ==> slice@[a] <= slice@[b],
        decreases n - i,
    {
        if slice[i - 1] > slice[i] {
            return false;
        }
        i += 1;
    }
    true
}

/// Tells whether each entry is larger than the one before it.
pub fn are_in_strictly_ascending_order(slice: &[usize]) -> (r: bool)
    ensures
        r == strictly_ascending(slice@),
{
    let n: usize = slice.len();
    if n < 2 {
        return true;
    }
    let mut i: usize = 1;
    while i < n
        invariant
            1 <= i <= n,
            n == slice@.len(),
            forall|a: int, b: int| 0 <= a < b < i ==> slice@[a] < slice@[b],
        decreases n - i,
    {
        if slice[i - 1] >= slice[i] {
            return false;
        }
        i += 1;
    }
    true
}

/// Tells whether every entry is below `upper_bound`.
pub fn are_in_upper_bound(slice: &[usize], upper_bound: usize) -> (r: bool)
    ensures
        r == (forall|i: int| 0 <= i < slice@.len() ==> slice@[i] < upper_bound),
{
    let n: usize = slice.len();
    let mut i: usize = 0;
    while i < n
        invariant
            i <= n,
            n == slice@.len(),
            forall|a: int| 0 <= a < i ==> slice@[a] < upper_bound,
        decreases n - i,
    {
        if slice[i] >= upper_bound {
            return false;
        }
        i += 1;
    }
    true
}

/// Tells whether some value occurs twice.
pub fn has_duplicates(slice: &[usize]) -> (r: bool)
    ensures
        r == repeats(slice@),
{
    let n: usize = slice.len();
    let mut a: usize = 0;
    while a < n
        invariant
            a <= n,
            n == slice@.len(),
            forall|i: int, j: int| 0 <= i < a && i < j < n ==> slice@[i] != slice@[j],
        decreases n - a,
    {
        let mut b: usize = a + 1;
        while b < n
            invariant
                a < b <= n,
                n == slice@.len(),
                forall|j: int| a < j < b ==> slice@[a as int] != slice@[j],
            decreases n - b,
        {
            if slice[a] == slice[b] {
                return true;
            }
            b += 1;
        }
        a += 1;
    }
    false
}

/// Tells whether every axis has length zero.
pub fn is_all_zero(dims: &[usize]) -> (r: bool)
    ensures
        r == all_zero(dims@),
{
    let n: usize = dims.len();
    let mut i: usize = 0;
    while i < n
        invariant
            i <= n,
            n == dims@.len(),
            forall|a: int| 0 <= a < i ==> dims@[a] == 0,
        decreases n - i,
    {
        if dims[i] != 0 {
            return false;
        }
        i += 1;
    }
    true
}

/// Product of `dims[from..to]`, capped at the largest `usize`.
pub fn saturating_product(dims: &[usize], from: usize, to: usize) -> (r: usize)
    requires
        from <= to <= dims@.len(),
    ensures
        r == saturated(product(dims@.subrange(from as int, to as int))),
{
    let mut p: usize = 1;
    let mut j: usize = from;
    assert(dims@.subrange(from as int, from as int) =~= Seq::<usize>::empty());
    while j < to
        invariant
            from <= j <= to <= dims@.len(),
            p == saturated(product(dims@.subrange(from as int, j as int))),
        decreases to - j,
    {
        proof {
            lemma_subrange_step(dims@, from as int, j as int);
            lemma_saturated_mul(product(dims@.subrange(from as int, j as int)), dims@[j as int]);
        }
        p = saturating_mul(p, dims[j]);
        j += 1;
    }
    p
}

/// Product of the entries of `dims[from..to]` that are not zero, capped at
/// the largest `usize`.
pub fn saturating_nonzero_product(dims: &[usize], from: usize, to: usize) -> (r: usize)
    requires
        from <= to <= dims@.len(),
    ensures
        r == saturated(nonzero_product(dims@.subrange(from as int, to as int))),
{
    let mut p: usize = 1;
    let mut j: usize = from;
    assert(dims@.subrange(from as int, from as int) =~= Seq::<usize>::empty());
    while j < to
        invariant
            from <= j <= to <= dims@.len(),
            p == saturated(nonzero_product(dims@.subrange(from as int, j as int))),
        decreases to - j,
    {
        proof {
            lemma_subrange_step(dims@, from as int, j as int);
            lemma_saturated_mul(
                nonzero_product(dims@.subrange(from as int, j as int)),
                dims@[j as int],
            );
        }
        if dims[j] != 0 {
            p = saturating_mul(p, dims[j]);
        }
        j += 1;
    }
    p
}

/// Largest number of entries that a shape admits: zero for a shape whose
/// axes all have length zero, else the product of the lengths that are not
/// zero, capped at the largest `usize`.
pub open spec fn max_nnz_spec(dims: Seq<usize>) -> usize {
    if all_zero(dims) {
        0
    } else {
        saturated(nonzero_product(dims))
    }
}

/// Largest number of entries that the shape `dims` admits.
pub fn max_nnz<const D: usize>(dims: &[usize; D]) -> (r: usize)
    ensures
        r == max_nnz_spec(dims@),
{
    if is_all_zero(dims.as_slice()) {
        return 0;
    }
    assert(dims@.subrange(0, D as int) =~= dims@);
    saturating_nonzero_product(dims.as_slice(), 0, D)
}

/// Tells whether some axis of length zero comes after an axis that is not empty.
pub fn is_zero_after_nonzero(dims: &[usize]) -> (r: bool)
    ensures
        r == !zeros_lead(dims@),
{
    let n: usize = dims.len();
    let mut i: usize = 0;
    while i < n && dims[i] == 0
        invariant
            i <= n,
            n == dims@.len(),
            forall|a: int| 0 <= a < i ==> dims@[a] == 0,
        decreases n - i,
    {
        i += 1;
    }
    let ghost first = i as int;
    while i < n
        invariant
            0 <= first <= i <= n,
            n == dims@.len(),
            forall|a: int| 0 <= a < first ==> dims@[a] == 0,
            first < n ==> dims@[first] != 0,
            forall|a: int| first <= a < i ==> dims@[a] != 0,
        decreases n - i,
    {
        if dims[i] == 0 {
            assert(dims@[first] != 0 && dims@[i as int] == 0);
            return true;
        }
        i += 1;
    }
    false
}

/// `dims` is a shape that `valid_random_dims` can give for `upper_bound`:
/// lengths of zero up to some axis, and from that axis on, the innermost axis
/// at least, lengths from one up to `upper_bound`, which is left out. With an
/// `upper_bound` of one these lengths are one, and with an `upper_bound` of
/// zero every length is zero.
pub open spec fn random_shape(dims: Seq<usize>, upper_bound: usize) -> bool {
    &&& zeros_lead(dims)
    &&& upper_bound == 0 ==> all_zero(dims)
    &&& upper_bound > 0 && dims.len() > 0 ==> dims.last() != 0
    &&& forall|i: int|
        0 <= i < dims.len() ==> dims[i] == 0 || dims[i] < upper_bound || (upper_bound == 1
            && dims[i] == 1)
}

/// A random shape that a structure can have: lengths of zero up to some
/// axis, and from that axis on lengths from one up to `upper_bound`, which
/// is left out. With an `upper_bound` of one these lengths are one, and with
/// an `upper_bound` of zero every length is zero.
pub fn valid_random_dims<R: Rng, const D: usize>(rng: &mut R, upper_bound: usize) -> (r: [usize; D])
    ensures
        random_shape(r@, upper_bound),
{
    let mut dims: [usize; D] = [0usize;D];
    if D == 0 || upper_bound == 0 {
        return dims;
    }
    let cut_point: usize = gen_range(rng, 0, D);
    let mut i: usize = cut_point;
    while i < D
        invariant
            cut_point <= i <= D,
            upper_bound > 0,
            dims@.len() == D,
            forall|k: int| 0 <= k < cut_point ==> dims@[k] == 0,
            forall|k: int| cut_point <= k < i ==> dims@[k] != 0,
            forall|k: int| i <= k < D ==> dims@[k] == 0,
            forall|k: int|
                0 <= k < D ==> dims@[k] == 0 || dims@[k] < upper_bound || (upper_bound == 1
                    && dims@[k] == 1),
        decreases D - i,
    {
        dims[i] = if upper_bound == 1 {
            1
        } else {
            gen_range(rng, 1, upper_bound)
        };
        i += 1;
    }
    dims
}

} // verus!
