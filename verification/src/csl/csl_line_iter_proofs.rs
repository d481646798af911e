//! What holds of the iterators over the outermost axis of a `Csl`: what
//! comes out of them, in which order, and that splitting loses nothing.

use crate::csl::csl_line_iter::{
    can_split, fresh_iter, iter_exact, iter_fits, iter_line, iter_sorted, LineIterData,
    next_back_spec, next_spec, nth_spec, slab_lo, span, split_head, split_tail,
};
use crate::csl::csl_model::{CslData, line_hi, line_lo, line_ok, sub_dim_spec, sub_dims, valid};
use crate::csl::csl_proofs::lemma_valid_wf;
use crate::dims::{lemma_product_first, lemma_product_without_zeros, outer_stride};
use crate::utils::strictly_ascending;
use vstd::prelude::*;

verus! {

/// The views that an iterator gives, one `next` after the other, up to the
/// first that is none.
pub open spec fn items<T>(it: LineIterData<T>) -> Seq<CslData<T>>
    decreases it.max - it.curr,
{
    if it.curr >= it.max {
        Seq::empty()
    } else {
        match next_spec(it).0 {
            Some(x) => seq![x] + items(next_spec(it).1),
            None => Seq::empty(),
        }
    }
}

/// Within an iterator that fits its offsets, each position up to the last
/// has its first offset where the stride says, without capping, and the
/// offsets of a later position are not smaller.
pub proof fn lemma_slab_lo<T>(it: LineIterData<T>, i: int, j: int)
    requires
        iter_fits(it),
        0 <= i <= j <= it.max,
    ensures
        slab_lo(it.dims, i) == outer_stride(it.dims) * (i as nat),
        slab_lo(it.dims, j) == outer_stride(it.dims) * (j as nat),
        slab_lo(it.dims, i) <= slab_lo(it.dims, j) < it.offs.len(),
        0 <= span(it.dims, it.offs, i, j),
        span(it.dims, it.offs, i, j) == it.offs[slab_lo(it.dims, j)] - it.offs[slab_lo(
            it.dims,
            i,
        )],
{
    let st = outer_stride(it.dims);
    let m = it.max as nat;
    assert(st * (i as nat) <= st * (j as nat) <= st * m) by (nonlinear_arith)
        requires
            0 <= i <= j <= m,
    ;
    assert(it.offs[slab_lo(it.dims, i)] <= it.offs[slab_lo(it.dims, j)]);
}

/// In an iterator that fits its offsets, `next` gives a view as long as a
/// position is left, and leaves an iterator that fits them too.
pub proof fn lemma_next_some<T>(it: LineIterData<T>)
    requires
        iter_fits(it),
        it.curr < it.max,
    ensures
        next_spec(it).0 is Some,
        iter_fits(next_spec(it).1),
        next_spec(it).1.curr == it.curr + 1,
        next_spec(it).1.max == it.max,
        next_spec(it).1.dims == it.dims,
        next_spec(it).1.offs == it.offs,
        next_spec(it).1.data == it.data.skip(span(it.dims, it.offs, it.curr as int, it.curr + 1)),
        next_spec(it).1.indcs == it.indcs.skip(
            span(it.dims, it.offs, it.curr as int, it.curr + 1),
        ),
{
    lemma_slab_lo(it, it.curr as int, it.curr + 1);
    lemma_slab_lo(it, it.curr + 1, it.max as int);
    lemma_slab_lo(it, it.curr as int, it.max as int);
}

/// The iterator over a structure that passes the checks of `new` fits its
/// offsets.
pub proof fn lemma_fresh_iter_fits<T>(v: CslData<T>)
    requires
        valid(v),
        v.dims.len() >= 2,
    ensures
        iter_fits(fresh_iter(v)),
{
    lemma_valid_wf(v);
    let it = fresh_iter(v);
    let n = v.dims.len() as int;
    assert(it.dims.subrange(1, n - 1) =~= v.dims.subrange(1, n - 1));
    let st = outer_stride(it.dims);
    if v.dims[0] == 0 {
        assert(st * 0 == 0) by (nonlinear_arith);
        assert(v.offs.len() >= 1);
    } else {
        assert forall|i: int| 0 <= i < v.dims.drop_last().len() implies v.dims.drop_last()[i]
            != 0 by {
            assert(v.dims[i] != 0);
        }
        lemma_product_without_zeros(v.dims.drop_last());
        lemma_product_first(v.dims.drop_last());
        assert(v.dims.drop_last().skip(1) =~= v.dims.subrange(1, n - 1));
        assert(st * (v.dims[0] as nat) == (v.dims[0] as nat) * st) by (nonlinear_arith);
        assert(v.offs.len() == st * (v.dims[0] as nat) + 1);
        assert(slab_lo(it.dims, it.max as int) == v.offs.len() - 1);
    }
    assert(st * 0 == 0) by (nonlinear_arith);
    assert(slab_lo(it.dims, 0) == 0);
    assert(v.offs[slab_lo(it.dims, it.max as int)] <= v.offs[v.offs.len() - 1]);
}

/// Splitting an iterator that fits its offsets loses nothing and repeats
/// nothing: the views of the first part, then those of the second, are the
/// views of the whole.
pub proof fn lemma_split_concat<T>(it: LineIterData<T>, k: usize)
    requires
        iter_fits(it),
        it.curr + k <= it.max,
    ensures
        can_split(it, k),
        iter_fits(split_head(it, k)),
        iter_fits(split_tail(it, k)),
        items(split_head(it, k)) + items(split_tail(it, k)) == items(it),
    decreases k,
{
    let cut = it.curr + k;
    lemma_slab_lo(it, it.curr as int, cut);
    lemma_slab_lo(it, cut, it.max as int);
    lemma_slab_lo(it, it.curr as int, it.max as int);
    let st = outer_stride(it.dims);
    assert(st * (cut as nat) <= st * (it.max as nat)) by (nonlinear_arith)
        requires
            0 <= cut <= it.max,
    ;
    let len = span(it.dims, it.offs, it.curr as int, cut);
    let head = split_head(it, k);
    let tail = split_tail(it, k);
    assert(iter_fits(head));
    assert(iter_fits(tail));
    if k == 0 {
        assert(len == 0);
        assert(tail.data =~= it.data);
        assert(tail.indcs =~= it.indcs);
        assert(tail == it);
        assert(items(head) =~= Seq::<CslData<T>>::empty());
        assert(items(head) + items(tail) =~= items(it));
    } else {
        lemma_next_some(it);
        lemma_next_some(head);
        let rest = next_spec(it).1;
        let len1 = span(it.dims, it.offs, it.curr as int, it.curr + 1);
        lemma_slab_lo(it, it.curr as int, it.curr + 1);
        lemma_slab_lo(it, it.curr + 1, cut);
        assert(0 <= len1 <= len);
        let k1 = (k - 1) as usize;
        lemma_split_concat(rest, k1);
        let h1 = next_spec(head).1;
        assert(head.data.take(len1) =~= it.data.take(len1));
        assert(head.indcs.take(len1) =~= it.indcs.take(len1));
        assert(next_spec(head).0 == next_spec(it).0);
        assert(span(rest.dims, rest.offs, rest.curr as int, rest.curr + k1) == len - len1);
        assert(h1.data =~= split_head(rest, k1).data);
        assert(h1.indcs =~= split_head(rest, k1).indcs);
        assert(h1 == split_head(rest, k1));
        assert(tail.data =~= split_tail(rest, k1).data);
        assert(tail.indcs =~= split_tail(rest, k1).indcs);
        assert(tail == split_tail(rest, k1));
        let x = next_spec(it).0.unwrap();
        assert(items(it) == seq![x] + items(rest));
        assert(items(head) == seq![x] + items(h1));
        assert(items(head) + items(tail) =~= seq![x] + (items(h1) + items(tail)));
    }
}

/// The lines of the iterator over a structure that passes the checks of
/// `new` are strictly ascending.
pub proof fn lemma_fresh_iter_sorted<T>(v: CslData<T>)
    requires
        valid(v),
        v.dims.len() >= 2,
    ensures
        iter_sorted(fresh_iter(v)),
{
    lemma_valid_wf(v);
    lemma_fresh_iter_fits(v);
    let it = fresh_iter(v);
    lemma_slab_lo(it, 0, it.max as int);
    assert(outer_stride(it.dims) * 0 == 0) by (nonlinear_arith);
    assert forall|l: int|
        slab_lo(it.dims, it.curr as int) <= l < slab_lo(
            it.dims,
            it.max as int,
        ) implies strictly_ascending(#[trigger] iter_line(it, l)) by {
        assert(v.offs[0] <= v.offs[l] <= v.offs[l + 1] <= v.offs[v.offs.len() - 1]);
        assert(line_ok(v.indcs, v.offs, l));
    }
}

/// Where the lines that are left are strictly ascending, the view that
/// `next` gives is well formed, its offsets span what it holds, and the
/// lines that are left after it are strictly ascending too.
pub proof fn lemma_next_wf<T>(it: LineIterData<T>)
    requires
        iter_fits(it),
        iter_sorted(it),
        it.curr < it.max,
    ensures
        next_spec(it).0 is Some,
        next_spec(it).0.unwrap().wf(),
        next_spec(it).0.unwrap().balanced(),
        iter_fits(next_spec(it).1),
        iter_sorted(next_spec(it).1),
{
    lemma_next_some(it);
    lemma_slab_lo(it, it.curr as int, it.curr + 1);
    lemma_slab_lo(it, it.curr + 1, it.max as int);
    lemma_slab_lo(it, it.curr as int, it.max as int);
    let s = slab_lo(it.dims, it.curr as int);
    let e = slab_lo(it.dims, it.curr + 1);
    let m = slab_lo(it.dims, it.max as int);
    let len = span(it.dims, it.offs, it.curr as int, it.curr + 1);
    let x = next_spec(it).0.unwrap();
    let rest = next_spec(it).1;
    assert(x.offs.len() == e + 1 - s);
    assert forall|i: int, j: int| 0 <= i <= j < x.offs.len() implies x.offs[i] <= x.offs[j] by {
        assert(it.offs[s + i] <= it.offs[s + j]);
    }
    assert forall|i: int| 0 <= i < x.offs.len() - 1 implies #[trigger] line_ok(
        x.indcs,
        x.offs,
        i,
    ) by {
        assert(it.offs[s] <= it.offs[s + i] <= it.offs[s + i + 1] <= it.offs[e]);
        assert(strictly_ascending(iter_line(it, s + i)));
        assert(x.indcs.subrange(line_lo(x.offs, i), line_hi(x.offs, i)) =~= iter_line(it, s + i));
    }
    assert forall|l: int|
        slab_lo(rest.dims, rest.curr as int) <= l < slab_lo(
            rest.dims,
            rest.max as int,
        ) implies strictly_ascending(#[trigger] iter_line(rest, l)) by {
        assert(it.offs[s] <= it.offs[e] <= it.offs[l] <= it.offs[l + 1] <= it.offs[m]);
        assert(strictly_ascending(iter_line(it, l)));
        assert(iter_line(rest, l) =~= iter_line(it, l));
    }
}

/// In an iterator that fits its offsets and holds the positions that are
/// left and no others, `next_back` gives a view as long as a position is
/// left; where the lines that are left are strictly ascending, the view is
/// well formed, its offsets span what it holds, and what is left after it is
/// as the iterator was.
pub proof fn lemma_next_back_wf<T>(it: LineIterData<T>)
    requires
        iter_fits(it),
        iter_exact(it),
        iter_sorted(it),
        it.curr < it.max,
    ensures
        next_back_spec(it).0 is Some,
        next_back_spec(it).0.unwrap().wf(),
        next_back_spec(it).0.unwrap().balanced(),
        iter_fits(next_back_spec(it).1),
        iter_exact(next_back_spec(it).1),
        iter_sorted(next_back_spec(it).1),
{
    lemma_slab_lo(it, it.max - 1, it.max as int);
    lemma_slab_lo(it, it.curr as int, it.max - 1);
    lemma_slab_lo(it, it.curr as int, it.max as int);
    let s = slab_lo(it.dims, it.curr as int);
    let b = slab_lo(it.dims, it.max - 1);
    let m = slab_lo(it.dims, it.max as int);
    let len = span(it.dims, it.offs, it.max - 1, it.max as int);
    let x = next_back_spec(it).0.unwrap();
    let rest = next_back_spec(it).1;
    let st = outer_stride(it.dims);
    assert(st * ((it.max - 1) as nat) <= st * (it.max as nat)) by (nonlinear_arith)
        requires
            it.max >= 1,
    ;
    assert(x.offs.len() == m + 1 - b);
    assert forall|i: int, j: int| 0 <= i <= j < x.offs.len() implies x.offs[i] <= x.offs[j] by {
        assert(it.offs[b + i] <= it.offs[b + j]);
    }
    assert forall|i: int| 0 <= i < x.offs.len() - 1 implies #[trigger] line_ok(
        x.indcs,
        x.offs,
        i,
    ) by {
        assert(it.offs[s] <= it.offs[b] <= it.offs[b + i] <= it.offs[b + i + 1] <= it.offs[m]);
        assert(strictly_ascending(iter_line(it, b + i)));
        assert(x.indcs.subrange(line_lo(x.offs, i), line_hi(x.offs, i)) =~= iter_line(it, b + i));
    }
    assert forall|l: int|
        slab_lo(rest.dims, rest.curr as int) <= l < slab_lo(
            rest.dims,
            rest.max as int,
        ) implies strictly_ascending(#[trigger] iter_line(rest, l)) by {
        assert(it.offs[s] <= it.offs[l] <= it.offs[l + 1] <= it.offs[b]);
        assert(strictly_ascending(iter_line(it, l)));
        assert(iter_line(rest, l) =~= iter_line(it, l));
    }
}

/// The two parts of a split keep their lines strictly ascending.
pub proof fn lemma_split_sorted<T>(it: LineIterData<T>, k: usize)
    requires
        iter_fits(it),
        iter_sorted(it),
        it.curr + k <= it.max,
    ensures
        iter_sorted(split_head(it, k)),
        iter_sorted(split_tail(it, k)),
{
    let cut = it.curr + k;
    lemma_slab_lo(it, it.curr as int, cut);
    lemma_slab_lo(it, cut, it.max as int);
    lemma_slab_lo(it, it.curr as int, it.max as int);
    let s = slab_lo(it.dims, it.curr as int);
    let c = slab_lo(it.dims, cut);
    let m = slab_lo(it.dims, it.max as int);
    let head = split_head(it, k);
    let tail = split_tail(it, k);
    assert forall|l: int|
        slab_lo(head.dims, head.curr as int) <= l < slab_lo(
            head.dims,
            head.max as int,
        ) implies strictly_ascending(#[trigger] iter_line(head, l)) by {
        assert(it.offs[s] <= it.offs[l] <= it.offs[l + 1] <= it.offs[c]);
        assert(strictly_ascending(iter_line(it, l)));
        assert(iter_line(head, l) =~= iter_line(it, l));
    }
    assert forall|l: int|
        slab_lo(tail.dims, tail.curr as int) <= l < slab_lo(
            tail.dims,
            tail.max as int,
        ) implies strictly_ascending(#[trigger] iter_line(tail, l)) by {
        assert(it.offs[s] <= it.offs[c] <= it.offs[l] <= it.offs[l + 1] <= it.offs[m]);
        assert(strictly_ascending(iter_line(it, l)));
        assert(iter_line(tail, l) =~= iter_line(it, l));
    }
}

/// Place, counted from the first offset, of the first value of the
/// outermost position `i` of `v`.
pub open spec fn position_place<T>(v: CslData<T>, i: int) -> int {
    v.offs[slab_lo(v.dims.update(0, 1), i)] - v.offs[0]
}

/// The view of the outermost positions `start..end` of `v`, with all the
/// axes of `v`.
pub open spec fn positions_view<T>(v: CslData<T>, start: int, end: int) -> CslData<T> {
    CslData {
        dims: v.dims.update(0, (end - start) as usize),
        data: v.data.subrange(position_place(v, start), position_place(v, end)),
        indcs: v.indcs.subrange(position_place(v, start), position_place(v, end)),
        offs: v.offs.subrange(
            slab_lo(v.dims.update(0, 1), start),
            slab_lo(v.dims.update(0, 1), end) + 1,
        ),
    }
}

/// The iterator holds the outermost positions `curr..max` of `v`, and no
/// others.
pub open spec fn covers<T>(it: LineIterData<T>, v: CslData<T>) -> bool {
    &&& it.dims == v.dims.update(0, 1)
    &&& it.offs == v.offs
    &&& it.curr <= it.max <= v.dims[0]
    &&& it.data == v.data.subrange(
        position_place(v, it.curr as int),
        position_place(v, it.max as int),
    )
    &&& it.indcs == v.indcs.subrange(
        position_place(v, it.curr as int),
        position_place(v, it.max as int),
    )
}

/// In a structure that passes the checks of `new`, the outermost positions
/// lie one after the other within what is stored, and the last one ends
/// where the stored values end.
pub proof fn lemma_positions<T>(v: CslData<T>, i: int, j: int)
    requires
        valid(v),
        v.dims.len() >= 2,
        0 <= i <= j <= v.dims[0],
    ensures
        slab_lo(v.dims.update(0, 1), i) == outer_stride(v.dims.update(0, 1)) * (i as nat),
        slab_lo(v.dims.update(0, 1), j) == outer_stride(v.dims.update(0, 1)) * (j as nat),
        slab_lo(v.dims.update(0, 1), i) <= slab_lo(v.dims.update(0, 1), j) < v.offs.len(),
        v.offs.len() <= usize::MAX,
        0 <= position_place(v, i) <= position_place(v, j) <= v.data.len(),
        v.data.len() == v.indcs.len(),
        span(v.dims.update(0, 1), v.offs, i, j) == position_place(v, j) - position_place(v, i),
        v.dims[0] > 0 ==> position_place(v, v.dims[0] as int) == v.data.len(),
{
    lemma_valid_wf(v);
    lemma_fresh_iter_well_formed(v);
    let f = fresh_iter(v);
    lemma_slab_lo(f, i, j);
    lemma_slab_lo(f, 0, i);
    lemma_slab_lo(f, j, f.max as int);
    lemma_slab_lo(f, 0, f.max as int);
    assert(outer_stride(f.dims) * 0 == 0) by (nonlinear_arith);
    assert(v.offs[0] <= v.offs[slab_lo(f.dims, i)] <= v.offs[slab_lo(f.dims, j)]
        <= v.offs[v.offs.len() - 1]);
}

/// On a structure that passes the checks of `new`, the sub dimension with
/// all the axes over any outermost positions that the structure has is
/// there, and is the view of these positions.
pub proof fn lemma_sub_dim_some<T>(v: CslData<T>, start: usize, end: usize)
    requires
        valid(v),
        v.dims.len() >= 2,
        start <= end <= v.dims[0],
    ensures
        sub_dim_spec(v, v.dims.len() as int, start, end) == Some(
            positions_view(v, start as int, end as int),
        ),
{
    lemma_positions(v, start as int, end as int);
    let d = v.dims.len() as int;
    let dims = sub_dims(v.dims, d, start, end);
    assert(v.dims.subrange(0, d) =~= v.dims);
    assert(dims =~= v.dims.update(0, (end - start) as usize));
    assert(dims.subrange(1, d - 1) =~= v.dims.update(0, 1).subrange(1, d - 1));
    assert(outer_stride(dims) == outer_stride(v.dims.update(0, 1)));
}

/// The iterator over a structure that passes the checks of `new` and has
/// outermost positions holds all of them.
pub proof fn lemma_fresh_covers<T>(v: CslData<T>)
    requires
        valid(v),
        v.dims.len() >= 2,
        v.dims[0] > 0,
    ensures
        covers(fresh_iter(v), v),
{
    lemma_positions(v, 0, v.dims[0] as int);
    assert(outer_stride(v.dims.update(0, 1)) * 0 == 0) by (nonlinear_arith);
    assert(v.data.subrange(0, v.data.len() as int) =~= v.data);
    assert(v.indcs.subrange(0, v.indcs.len() as int) =~= v.indcs);
}

/// An iterator that holds positions of a structure that passes the checks of
/// `new` gives, by `next`, the sub dimension of the first of them alone, and
/// holds the others after it.
pub proof fn lemma_next_is_sub_dim<T>(it: LineIterData<T>, v: CslData<T>)
    requires
        valid(v),
        v.dims.len() >= 2,
        covers(it, v),
        it.curr < it.max,
    ensures
        next_spec(it).0 is Some,
        next_spec(it).0 == sub_dim_spec(
            v,
            v.dims.len() as int,
            it.curr,
            (it.curr + 1) as usize,
        ),
        covers(next_spec(it).1, v),
{
    let i = it.curr as int;
    lemma_positions(v, i, i + 1);
    lemma_positions(v, i + 1, it.max as int);
    lemma_positions(v, i, it.max as int);
    lemma_sub_dim_some(v, it.curr, (it.curr + 1) as usize);
    let a = position_place(v, i);
    let b = position_place(v, i + 1);
    let m = position_place(v, it.max as int);
    assert(v.data.subrange(a, m).take(b - a) =~= v.data.subrange(a, b));
    assert(v.indcs.subrange(a, m).take(b - a) =~= v.indcs.subrange(a, b));
    assert(v.data.subrange(a, m).skip(b - a) =~= v.data.subrange(b, m));
    assert(v.indcs.subrange(a, m).skip(b - a) =~= v.indcs.subrange(b, m));
    assert(v.dims.update(0, 1usize) =~= v.dims.update(0, ((i + 1) - i) as usize));
}

/// An iterator that holds positions of a structure that passes the checks of
/// `new` gives, by `next_back`, the sub dimension of the last of them alone,
/// and holds the others after it.
pub proof fn lemma_next_back_is_sub_dim<T>(it: LineIterData<T>, v: CslData<T>)
    requires
        valid(v),
        v.dims.len() >= 2,
        covers(it, v),
        it.curr < it.max,
    ensures
        next_back_spec(it).0 is Some,
        next_back_spec(it).0 == sub_dim_spec(
            v,
            v.dims.len() as int,
            (it.max - 1) as usize,
            it.max,
        ),
        covers(next_back_spec(it).1, v),
{
    let i = it.max - 1;
    lemma_positions(v, i, i + 1);
    lemma_positions(v, it.curr as int, i);
    lemma_positions(v, it.curr as int, it.max as int);
    lemma_sub_dim_some(v, (it.max - 1) as usize, it.max);
    let c = position_place(v, it.curr as int);
    let a = position_place(v, i);
    let b = position_place(v, i + 1);
    let n = b - c;
    assert(v.data.subrange(c, b).skip(n - (b - a)) =~= v.data.subrange(a, b));
    assert(v.indcs.subrange(c, b).skip(n - (b - a)) =~= v.indcs.subrange(a, b));
    assert(v.data.subrange(c, b).take(n - (b - a)) =~= v.data.subrange(c, a));
    assert(v.indcs.subrange(c, b).take(n - (b - a)) =~= v.indcs.subrange(c, a));
    assert(v.dims.update(0, 1usize) =~= v.dims.update(0, ((i + 1) - i) as usize));
}

/// An iterator that holds positions of a structure that passes the checks of
/// `new` gives, after `n` views, the sub dimension of the position `n` places
/// after its first one.
pub proof fn lemma_nth_covers<T>(it: LineIterData<T>, v: CslData<T>, n: nat)
    requires
        valid(v),
        v.dims.len() >= 2,
        covers(it, v),
        it.curr + n < it.max,
    ensures
        nth_spec(it, n).0 is Some,
        nth_spec(it, n).0 == sub_dim_spec(
            v,
            v.dims.len() as int,
            (it.curr + n) as usize,
            (it.curr + n + 1) as usize,
        ),
        covers(nth_spec(it, n).1, v),
    decreases n,
{
    lemma_next_is_sub_dim(it, v);
    if n > 0 {
        lemma_nth_covers(next_spec(it).1, v, (n - 1) as nat);
    }
}

/// On a structure of two axes or more that passes the checks of `new`, the
/// view that the outermost iterator gives after `i` others is the sub
/// dimension of the position `i` alone, and both are there.
pub proof fn lemma_nth_is_sub_dim<T>(v: CslData<T>, i: usize)
    requires
        valid(v),
        v.dims.len() >= 2,
        i < v.dims[0],
    ensures
        nth_spec(fresh_iter(v), i as nat).0 is Some,
        nth_spec(fresh_iter(v), i as nat).0 == sub_dim_spec(
            v,
            v.dims.len() as int,
            i,
            (i + 1) as usize,
        ),
{
    lemma_fresh_covers(v);
    lemma_nth_covers(fresh_iter(v), v, i as nat);
}

/// The iterator over a structure that passes the checks of `new` is well
/// formed.
pub proof fn lemma_fresh_iter_well_formed<T>(v: CslData<T>)
    requires
        valid(v),
        v.dims.len() >= 2,
    ensures
        fresh_iter(v).wf(),
{
    lemma_valid_wf(v);
    lemma_fresh_iter_fits(v);
    lemma_fresh_iter_sorted(v);
    let it = fresh_iter(v);
    if it.curr < it.max {
        let d = v.dims.len() as int;
        lemma_slab_lo(it, 0, it.max as int);
        assert(outer_stride(it.dims) * 0 == 0) by (nonlinear_arith);
        assert forall|k: int| 0 <= k < v.dims.drop_last().len() implies v.dims.drop_last()[k]
            != 0 by {
            assert(v.dims[k] != 0);
        }
        lemma_product_without_zeros(v.dims.drop_last());
        lemma_product_first(v.dims.drop_last());
        assert(v.dims.drop_last().skip(1) =~= v.dims.subrange(1, d - 1));
        assert(it.dims.subrange(1, d - 1) =~= v.dims.subrange(1, d - 1));
        let st = outer_stride(it.dims);
        assert(st * (v.dims[0] as nat) == (v.dims[0] as nat) * st) by (nonlinear_arith);
        assert(slab_lo(it.dims, it.max as int) == v.offs.len() - 1);
    }
}

/// A well formed iterator with a position left gives, by `next`, a well
/// formed view whose offsets span what it holds, and stays well formed.
pub proof fn lemma_next_well_formed<T>(it: LineIterData<T>)
    requires
        it.wf(),
        it.curr < it.max,
    ensures
        next_spec(it).0 is Some,
        next_spec(it).0.unwrap().wf(),
        next_spec(it).0.unwrap().balanced(),
        next_spec(it).1.wf(),
{
    lemma_next_wf(it);
    lemma_slab_lo(it, it.curr as int, it.curr + 1);
    lemma_slab_lo(it, it.curr + 1, it.max as int);
    lemma_slab_lo(it, it.curr as int, it.max as int);
}

/// A well formed iterator with a position left gives, by `next_back`, a well
/// formed view whose offsets span what it holds, and stays well formed.
pub proof fn lemma_next_back_well_formed<T>(it: LineIterData<T>)
    requires
        it.wf(),
        it.curr < it.max,
    ensures
        next_back_spec(it).0 is Some,
        next_back_spec(it).0.unwrap().wf(),
        next_back_spec(it).0.unwrap().balanced(),
        next_back_spec(it).1.wf(),
{
    lemma_next_back_wf(it);
}

/// A well formed iterator gives a view after `n` others exactly where more
/// than `n` positions are left; the view is well formed and its offsets span
/// what it holds, and the iterator stays well formed.
pub proof fn lemma_nth_well_formed<T>(it: LineIterData<T>, n: nat)
    requires
        it.wf(),
    ensures
        nth_spec(it, n).0 is Some <==> it.curr + n < it.max,
        nth_spec(it, n).0 is Some ==> nth_spec(it, n).0.unwrap().wf() && nth_spec(
            it,
            n,
        ).0.unwrap().balanced(),
        nth_spec(it, n).1.wf(),
    decreases n,
{
    if it.curr < it.max {
        lemma_next_well_formed(it);
        if n > 0 {
            lemma_nth_well_formed(next_spec(it).1, (n - 1) as nat);
        }
    }
}

/// The two parts of a split of a well formed iterator are well formed.
pub proof fn lemma_split_well_formed<T>(it: LineIterData<T>, k: usize)
    requires
        it.wf(),
        it.curr + k <= it.max,
    ensures
        can_split(it, k),
        split_head(it, k).wf(),
        split_tail(it, k).wf(),
{
    lemma_split_concat(it, k);
    lemma_split_sorted(it, k);
    let cut = it.curr + k;
    lemma_slab_lo(it, it.curr as int, cut);
    lemma_slab_lo(it, cut, it.max as int);
    lemma_slab_lo(it, it.curr as int, it.max as int);
}

} // verus!
