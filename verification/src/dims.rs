//! Arithmetic over shapes: products of axis lengths, strides and line numbers.

use vstd::prelude::*;

verus! {

/// Product of every entry of `s`; the empty product is one.
pub open spec fn product(s: Seq<usize>) -> nat
    decreases s.len(),
{
    if s.len() == 0 {
        1
    } else {
        product(s.drop_last()) * (s.last() as nat)
    }
}

/// Product of the entries of `s` that are not zero.
pub open spec fn nonzero_product(s: Seq<usize>) -> nat
    decreases s.len(),
{
    if s.len() == 0 {
        1
    } else if s.last() == 0 {
        nonzero_product(s.drop_last())
    } else {
        nonzero_product(s.drop_last()) * (s.last() as nat)
    }
}

/// Every axis has length zero.
pub open spec fn all_zero(s: Seq<usize>) -> bool {
    forall|i: int| 0 <= i < s.len() ==> s[i] == 0
}

/// The zero-length axes, if any, come before every other axis.
pub open spec fn zeros_lead(dims: Seq<usize>) -> bool {
    forall|i: int, j: int| 0 <= i < j < dims.len() && dims[i] != 0 ==> dims[j] != 0
}

/// `a` capped at the largest `usize`.
pub open spec fn saturated(a: nat) -> usize {
    if a > usize::MAX {
        usize::MAX
    } else {
        a as usize
    }
}

/// Number of lines that one step along axis `i` skips: the product of the
/// lengths of the axes strictly between axis `i` and the innermost one.
pub open spec fn stride(dims: Seq<usize>, i: int) -> nat {
    product(dims.subrange(i + 1, dims.len() - 1))
}

/// Sum of `idx[i] * stride(dims, i)` over the first `k` axes.
pub open spec fn line_sum(dims: Seq<usize>, idx: Seq<usize>, k: int) -> nat
    decreases k,
{
    if k <= 0 {
        0
    } else {
        line_sum(dims, idx, k - 1) + (idx[k - 1] as nat) * stride(dims, k - 1)
    }
}

/// Row-major number of the line that holds `idx`: each coordinate but the
/// innermost times the stride of its axis, summed up. With a single axis it
/// is zero, for then there is one line.
pub open spec fn line_number(dims: Seq<usize>, idx: Seq<usize>) -> nat {
    line_sum(dims, idx, dims.len() - 1)
}

/// Number of lines that one step along the outermost axis skips.
pub open spec fn outer_stride(dims: Seq<usize>) -> nat {
    if dims.len() < 2 {
        1
    } else {
        product(dims.subrange(1, dims.len() - 1))
    }
}

/// Every coordinate of `idx` lies below the length of its axis.
pub open spec fn in_range(dims: Seq<usize>, idx: Seq<usize>) -> bool {
    &&& idx.len() == dims.len()
    &&& forall|i: int| 0 <= i < dims.len() ==> idx[i] < dims[i]
}

/// `a` comes strictly before `b` in lexicographic order.
pub open spec fn lex_lt(a: Seq<usize>, b: Seq<usize>) -> bool {
    exists|k: int|
        0 <= k < a.len() && k < b.len() && a[k] < b[k] && (forall|i: int|
            0 <= i < k ==> a[i] == b[i])
}

/// Number of lines that share the coordinates before axis `m`: the product
/// of the lengths of the axes from `m` on, the innermost left out.
pub open spec fn block(dims: Seq<usize>, m: int) -> nat {
    product(dims.subrange(m, dims.len() - 1))
}

/// First of the axes before the innermost one from which on, up to axis `i`,
/// no length is zero. Axis `i` and those after it are taken to have none.
pub open spec fn run_start_from(dims: Seq<usize>, i: int) -> int
    decreases i,
{
    if i <= 0 || dims[i - 1] == 0 {
        i
    } else {
        run_start_from(dims, i - 1)
    }
}

/// First of the axes before the innermost one from which on no length is
/// zero.
pub open spec fn run_start(dims: Seq<usize>) -> int {
    run_start_from(dims, dims.len() - 1)
}

/// Coordinate on axis `i` of the indices of line `line`: the digit of
/// `line` whose base is the length of axis `i`, where the lengths of the
/// axes after it, the innermost left out, are the bases of the digits
/// before it. Zero for axis `i` at or before an axis of length zero.
pub open spec fn coordinate_of(dims: Seq<usize>, line: usize, i: int) -> int {
    if run_start(dims) <= i < dims.len() - 1 {
        (line as int / block(dims, i + 1) as int) % (dims[i] as int)
    } else {
        0
    }
}

/// The index of the entry of line `line` whose innermost coordinate is `c`.
pub open spec fn index_of(dims: Seq<usize>, line: usize, c: usize) -> Seq<usize> {
    Seq::new(
        dims.len(),
        |i: int|
            if i == dims.len() - 1 {
                c
            } else {
                coordinate_of(dims, line, i) as usize
            },
    )
}

/// `b` multiplied by itself `e` times; one where `e` is zero.
pub open spec fn power(b: nat, e: nat) -> nat
    decreases e,
{
    if e == 0 {
        1
    } else {
        b * power(b, (e - 1) as nat)
    }
}

/// One factor more multiplies the product, unless the factor is zero and the
/// product leaves zeros out.
pub proof fn lemma_product_push(s: Seq<usize>, d: usize)
    ensures
        product(s.push(d)) == product(s) * (d as nat),
        nonzero_product(s.push(d)) == if d == 0 {
            nonzero_product(s)
        } else {
            nonzero_product(s) * (d as nat)
        },
{
    assert(s.push(d).drop_last() =~= s);
}

/// The product over `s[a..j + 1]` is the product over `s[a..j]` times `s[j]`.
pub proof fn lemma_subrange_step(s: Seq<usize>, a: int, j: int)
    requires
        0 <= a <= j < s.len(),
    ensures
        product(s.subrange(a, j + 1)) == product(s.subrange(a, j)) * (s[j] as nat),
        nonzero_product(s.subrange(a, j + 1)) == if s[j] == 0 {
            nonzero_product(s.subrange(a, j))
        } else {
            nonzero_product(s.subrange(a, j)) * (s[j] as nat)
        },
{
    assert(s.subrange(a, j + 1) =~= s.subrange(a, j).push(s[j]));
    lemma_product_push(s.subrange(a, j), s[j]);
}

/// A product that leaves zeros out is one at least.
pub proof fn lemma_nonzero_product_positive(s: Seq<usize>)
    ensures
        nonzero_product(s) >= 1,
    decreases s.len(),
{
    if s.len() > 0 {
        lemma_nonzero_product_positive(s.drop_last());
        if s.last() != 0 {
            assert(nonzero_product(s.drop_last()) * (s.last() as nat) >= 1) by (nonlinear_arith)
                requires
                    nonzero_product(s.drop_last()) >= 1,
                    s.last() >= 1,
            ;
        }
    }
}

/// A product that leaves zeros out, of entries that are not above `b`, is
/// not above `b` to the power of their number.
pub proof fn lemma_nonzero_product_bound(s: Seq<usize>, b: nat)
    requires
        b >= 1,
        forall|i: int| 0 <= i < s.len() ==> s[i] <= b,
    ensures
        nonzero_product(s) <= power(b, s.len()),
    decreases s.len(),
{
    if s.len() > 0 {
        lemma_nonzero_product_bound(s.drop_last(), b);
        let p = nonzero_product(s.drop_last());
        let q = power(b, (s.len() - 1) as nat);
        let l = s.last() as nat;
        assert(power(b, s.len()) == b * q);
        if l == 0 {
            assert(p <= b * q) by (nonlinear_arith)
                requires
                    p <= q,
                    b >= 1,
            ;
        } else {
            assert(p * l <= b * q) by (nonlinear_arith)
                requires
                    p <= q,
                    l <= b,
            ;
        }
    }
}

/// One to any power is one.
pub proof fn lemma_power_of_one(e: nat)
    ensures
        power(1, e) == 1,
    decreases e,
{
    if e > 0 {
        lemma_power_of_one((e - 1) as nat);
    }
}

/// The product that leaves zeros out, of two sequences one after the other,
/// is the product of their two products.
pub proof fn lemma_nonzero_product_concat(s1: Seq<usize>, s2: Seq<usize>)
    ensures
        nonzero_product(s1 + s2) == nonzero_product(s1) * nonzero_product(s2),
    decreases s2.len(),
{
    let a = nonzero_product(s1);
    if s2.len() == 0 {
        assert(s1 + s2 =~= s1);
        assert(a * 1 == a) by (nonlinear_arith);
    } else {
        lemma_nonzero_product_concat(s1, s2.drop_last());
        assert((s1 + s2).drop_last() =~= s1 + s2.drop_last());
        let b = nonzero_product(s2.drop_last());
        let c = s2.last() as nat;
        assert((s1 + s2).last() == s2.last());
        if c != 0 {
            assert((a * b) * c == a * (b * c)) by (nonlinear_arith);
        }
    }
}

/// In a shape whose zero lengths lead, a block at an axis that has a length,
/// or at the innermost axis, is not above the number of lines of the shape.
pub proof fn lemma_block_within_lines(dims: Seq<usize>, m: int)
    requires
        zeros_lead(dims),
        0 <= m <= dims.len() - 1,
        m < dims.len() - 1 ==> dims[m] != 0,
    ensures
        block(dims, m) <= nonzero_product(dims.drop_last()),
        block(dims, m) >= 1,
{
    let n = dims.len() as int;
    let s1 = dims.subrange(0, m);
    let s2 = dims.subrange(m, n - 1);
    assert(s1 + s2 =~= dims.drop_last());
    lemma_nonzero_product_concat(s1, s2);
    lemma_nonzero_product_positive(s1);
    assert forall|i: int| 0 <= i < s2.len() implies s2[i] != 0 by {
        if m + i > m {
            assert(dims[m + i] != 0);
        }
    }
    lemma_product_without_zeros(s2);
    let a = nonzero_product(s1);
    let b = nonzero_product(s2);
    assert(b <= a * b) by (nonlinear_arith)
        requires
            a >= 1,
    ;
}

/// Where no entry is zero the two products agree.
pub proof fn lemma_product_without_zeros(s: Seq<usize>)
    requires
        forall|i: int| 0 <= i < s.len() ==> s[i] != 0,
    ensures
        product(s) == nonzero_product(s),
        product(s) >= 1,
    decreases s.len(),
{
    lemma_nonzero_product_positive(s);
    if s.len() > 0 {
        lemma_product_without_zeros(s.drop_last());
    }
}

/// Multiplying two capped factors and capping again caps the true product.
pub proof fn lemma_saturated_mul(a: nat, b: usize)
    ensures
        saturated((saturated(a) as nat) * (b as nat)) == saturated(a * (b as nat)),
{
    if a > usize::MAX {
        if b == 0 {
            assert(a * (b as nat) == 0) by (nonlinear_arith)
                requires
                    b == 0,
            ;
            assert((usize::MAX as nat) * (b as nat) == 0) by (nonlinear_arith)
                requires
                    b == 0,
            ;
        } else {
            assert(a * (b as nat) > usize::MAX) by (nonlinear_arith)
                requires
                    a > usize::MAX,
                    b >= 1,
            ;
            assert((usize::MAX as nat) * (b as nat) >= usize::MAX) by (nonlinear_arith)
                requires
                    b >= 1,
            ;
        }
    }
}

/// Adding two capped terms and capping again caps the true sum.
pub proof fn lemma_saturated_add(a: nat, b: nat)
    ensures
        saturated((saturated(a) + saturated(b)) as nat) == saturated(a + b),
{
}

/// A product is its first factor times the product of the others.
pub proof fn lemma_product_first(s: Seq<usize>)
    requires
        s.len() > 0,
    ensures
        product(s) == (s[0] as nat) * product(s.skip(1)),
    decreases s.len(),
{
    let a = s[0] as nat;
    let c = s.last() as nat;
    let ps = product(s);
    let pt = product(s.drop_last());
    let pk = product(s.skip(1));
    assert(ps == pt * c);
    if s.len() == 1 {
        assert(s.drop_last() =~= Seq::<usize>::empty());
        assert(s.skip(1) =~= Seq::<usize>::empty());
        assert(pt == 1);
        assert(pk == 1);
        assert(ps == a * pk) by (nonlinear_arith)
            requires
                ps == pt * c,
                pt == 1,
                pk == 1,
                a == c,
        ;
    } else {
        let t = s.drop_last();
        lemma_product_first(t);
        assert(t.skip(1) =~= s.skip(1).drop_last());
        assert(s.skip(1).last() == s.last());
        let b = product(t.skip(1));
        assert(pt == a * b);
        assert(pk == product(s.skip(1).drop_last()) * c);
        assert(pk == b * c);
        assert(ps == a * pk) by (nonlinear_arith)
            requires
                ps == pt * c,
                pt == a * b,
                pk == b * c,
        ;
    }
}

/// A block at axis `m` is made of as many blocks at the next axis as axis
/// `m` is long, and a block at the innermost axis is one line.
pub proof fn lemma_block_step(dims: Seq<usize>, m: int)
    requires
        0 <= m <= dims.len() - 1,
    ensures
        m == dims.len() - 1 ==> block(dims, m) == 1,
        m < dims.len() - 1 ==> block(dims, m) == (dims[m] as nat) * block(dims, m + 1),
        stride(dims, m) == block(dims, m + 1) || m == dims.len() - 1,
{
    let s = dims.subrange(m, dims.len() - 1);
    if m < dims.len() - 1 {
        lemma_product_first(s);
        assert(s.skip(1) =~= dims.subrange(m + 1, dims.len() - 1));
    } else {
        assert(s =~= Seq::<usize>::empty());
    }
}

/// The lines that the axes from `m` on add up to stay within one block at
/// axis `m`.
pub proof fn lemma_tail_bound(dims: Seq<usize>, idx: Seq<usize>, m: int)
    requires
        in_range(dims, idx),
        0 <= m <= dims.len() - 1,
    ensures
        line_sum(dims, idx, m) <= line_number(dims, idx),
        line_number(dims, idx) - line_sum(dims, idx, m) < block(dims, m),
    decreases dims.len() - m,
{
    lemma_block_step(dims, m);
    if m < dims.len() - 1 {
        lemma_tail_bound(dims, idx, m + 1);
        lemma_block_step(dims, m + 1);
        let u = line_number(dims, idx) - line_sum(dims, idx, m + 1);
        let i = idx[m] as nat;
        let d = dims[m] as nat;
        let b = block(dims, m + 1);
        assert(line_sum(dims, idx, m + 1) == line_sum(dims, idx, m) + i * stride(dims, m));
        assert(stride(dims, m) == b);
        assert(i * b + u < d * b) by (nonlinear_arith)
            requires
                u < b,
                i < d,
        ;
    }
}

/// Where each coordinate from axis `m` on is the last of its axis, the lines
/// that these axes add up to are one less than a block at axis `m`.
pub proof fn lemma_last_line_of_block(dims: Seq<usize>, idx: Seq<usize>, m: int)
    requires
        in_range(dims, idx),
        0 <= m <= dims.len() - 1,
        forall|i: int| m <= i < dims.len() - 1 ==> idx[i] == dims[i] - 1,
    ensures
        line_number(dims, idx) - line_sum(dims, idx, m) == block(dims, m) - 1,
    decreases dims.len() - m,
{
    lemma_block_step(dims, m);
    if m < dims.len() - 1 {
        lemma_last_line_of_block(dims, idx, m + 1);
        let i = idx[m] as int;
        let d = dims[m] as int;
        let b = block(dims, m + 1) as int;
        assert(line_sum(dims, idx, m + 1) == line_sum(dims, idx, m) + (idx[m] as nat) * stride(
            dims,
            m,
        ));
        assert(stride(dims, m) == b);
        assert(i * b + (b - 1) == d * b - 1) by (nonlinear_arith)
            requires
                i == d - 1,
        ;
    }
}

/// Within the shape, every index names a line that the shape has.
pub proof fn lemma_line_in_shape(dims: Seq<usize>, idx: Seq<usize>)
    requires
        in_range(dims, idx),
        dims.len() >= 1,
    ensures
        line_number(dims, idx) < product(dims.drop_last()),
{
    lemma_tail_bound(dims, idx, 0);
    assert(dims.subrange(0, dims.len() - 1) =~= dims.drop_last());
}

/// A changed coordinate moves the sum by the change times the stride of its
/// axis.
pub proof fn lemma_line_sum_update(dims: Seq<usize>, idx: Seq<usize>, k: int, val: usize, n: int)
    requires
        0 <= k < n <= idx.len(),
    ensures
        line_sum(dims, idx.update(k, val), n) == line_sum(dims, idx, n) + (val - idx[k]) * stride(
            dims,
            k,
        ),
    decreases n,
{
    let s = stride(dims, k) as int;
    if n - 1 == k {
        lemma_line_sum_agrees(dims, idx.update(k, val), idx, k);
        assert((val as nat) * stride(dims, k) == (idx[k] as nat) * stride(dims, k) + (val - idx[k])
            * s) by (nonlinear_arith)
            requires
                s == stride(dims, k),
        ;
    } else {
        lemma_line_sum_update(dims, idx, k, val, n - 1);
    }
}

/// A sum over coordinates that are all zero is zero.
pub proof fn lemma_line_sum_zero(dims: Seq<usize>, idx: Seq<usize>, n: int)
    requires
        forall|i: int| 0 <= i < n ==> idx[i] == 0,
    ensures
        line_sum(dims, idx, n) == 0,
    decreases n,
{
    if n > 0 {
        lemma_line_sum_zero(dims, idx, n - 1);
        assert(0 * stride(dims, n - 1) == 0) by (nonlinear_arith);
    }
}

/// Where the `z` first lengths are zero and no other is, the product of the
/// lengths that are not zero is the product of the lengths from `z` on.
pub proof fn lemma_nonzero_product_skips_zeros(s: Seq<usize>, z: int)
    requires
        0 <= z <= s.len(),
        forall|i: int| 0 <= i < z ==> s[i] == 0,
        forall|i: int| z <= i < s.len() ==> s[i] != 0,
    ensures
        nonzero_product(s) == product(s.skip(z)),
    decreases s.len(),
{
    if s.len() == 0 {
        assert(s.skip(z) =~= s);
    } else if s.len() == z {
        lemma_nonzero_product_skips_zeros(s.drop_last(), z - 1);
        assert(s.skip(z) =~= Seq::<usize>::empty());
        assert(s.drop_last().skip(z - 1) =~= Seq::<usize>::empty());
    } else {
        lemma_nonzero_product_skips_zeros(s.drop_last(), z);
        assert(s.skip(z).drop_last() =~= s.drop_last().skip(z));
    }
}

/// The line number looks at the first `k` coordinates only where the sum
/// stops at `k`.
pub proof fn lemma_line_sum_agrees(dims: Seq<usize>, a: Seq<usize>, b: Seq<usize>, k: int)
    requires
        0 <= k,
        forall|i: int| 0 <= i < k ==> a[i] == b[i],
    ensures
        line_sum(dims, a, k) == line_sum(dims, b, k),
    decreases k,
{
    if k > 0 {
        lemma_line_sum_agrees(dims, a, b, k - 1);
    }
}

/// Row-major order: of two indices within the shape, the one that comes
/// first in lexicographic order lies in an earlier line, or in the same line
/// at a smaller innermost coordinate.
pub proof fn lemma_lex_order_is_line_order(dims: Seq<usize>, a: Seq<usize>, b: Seq<usize>)
    requires
        in_range(dims, a),
        in_range(dims, b),
        dims.len() >= 1,
    ensures
        lex_lt(a, b) <==> (line_number(dims, a) < line_number(dims, b) || (line_number(dims, a)
            == line_number(dims, b) && a.last() < b.last())),
{
    if lex_lt(a, b) {
        lemma_lex_lt_lines(dims, a, b);
    } else if a =~= b {
    } else {
        lemma_lex_total(a, b, 0);
        lemma_lex_lt_lines(dims, b, a);
    }
}

/// Two sequences of one length that differ from place `from` on, and agree
/// before it, are ordered one way or the other.
pub proof fn lemma_lex_total(a: Seq<usize>, b: Seq<usize>, from: int)
    requires
        a.len() == b.len(),
        0 <= from <= a.len(),
        forall|i: int| 0 <= i < from ==> a[i] == b[i],
        a != b,
    ensures
        lex_lt(a, b) || lex_lt(b, a),
    decreases a.len() - from,
{
    if from == a.len() {
        assert(a =~= b);
    } else if a[from] < b[from] {
        assert(0 <= from < a.len() && from < b.len() && a[from] < b[from] && (forall|i: int|
            0 <= i < from ==> a[i] == b[i]));
    } else if b[from] < a[from] {
        assert(0 <= from < b.len() && from < a.len() && b[from] < a[from] && (forall|i: int|
            0 <= i < from ==> b[i] == a[i]));
    } else {
        lemma_lex_total(a, b, from + 1);
    }
}

/// One direction of the row-major order.
pub proof fn lemma_lex_lt_lines(dims: Seq<usize>, a: Seq<usize>, b: Seq<usize>)
    requires
        in_range(dims, a),
        in_range(dims, b),
        dims.len() >= 1,
        lex_lt(a, b),
    ensures
        line_number(dims, a) < line_number(dims, b) || (line_number(dims, a) == line_number(
            dims,
            b,
        ) && a.last() < b.last()),
{
    let k = choose|k: int|
        0 <= k < a.len() && k < b.len() && a[k] < b[k] && (forall|i: int|
            0 <= i < k ==> a[i] == b[i]);
    let n = dims.len() as int;
    if k == n - 1 {
        lemma_line_sum_agrees(dims, a, b, n - 1);
    } else {
        lemma_line_sum_agrees(dims, a, b, k);
        lemma_tail_bound(dims, a, k + 1);
        lemma_tail_bound(dims, b, k + 1);
        lemma_block_step(dims, k);
        let s = stride(dims, k);
        let x = a[k] as nat;
        let y = b[k] as nat;
        assert(line_sum(dims, a, k + 1) == line_sum(dims, a, k) + x * s);
        assert(line_sum(dims, b, k + 1) == line_sum(dims, b, k) + y * s);
        assert(x * s + s <= y * s) by (nonlinear_arith)
            requires
                x < y,
        ;
    }
}

} // verus!
