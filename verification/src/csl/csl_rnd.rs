//! Random construction of a `Csl`.

use crate::csl::Csl;
use crate::csl::csl_error::CslError;
use crate::csl::csl_model::{
    correct_offs_len_spec, CslData, line_hi, line_lo, line_ok, lines_ok, valid,
};
use crate::csl::csl_utils::{correct_offs_len, line_to_index};
use crate::dims::{
    all_zero, index_of, lemma_nonzero_product_bound, lemma_nonzero_product_positive,
    lemma_power_of_one, lemma_product_push, nonzero_product, power, zeros_lead,
};
use crate::error::Error;
use crate::rnd::{gen_range, gen_value, sample_inclusive};
use crate::utils::{
    is_zero_after_nonzero, max_nnz, max_nnz_spec, random_shape, saturating_mul, strictly_ascending,
    valid_random_dims,
};
use rand::Rng;
use rand::distributions::{Distribution, Standard};
use vstd::prelude::*;

verus! {

/// Offsets for `lines` lines that start at zero: each line holds `last_dim`
/// entries at most.
pub open spec fn offs_fit(offs: Seq<usize>, lines: int, last_dim: usize) -> bool {
    &&& offs.len() == lines + 1
    &&& offs[0] == 0
    &&& forall|i: int| 0 <= i < lines ==> offs[i] <= #[trigger] offs[i + 1] <= offs[i] + last_dim
}

/// Offsets of which none is below the one before it never decrease.
pub proof fn lemma_offs_fit_ascending(offs: Seq<usize>, lines: int, last_dim: usize, i: int, j: int)
    requires
        offs_fit(offs, lines, last_dim),
        0 <= i <= j <= lines,
    ensures
        offs[i] <= offs[j],
    decreases j - i,
{
    if i < j {
        lemma_offs_fit_ascending(offs, lines, last_dim, i, j - 1);
        assert(offs[j - 1] <= offs[j - 1 + 1]);
    }
}

/// Every stored index is below `bound`.
pub open spec fn below(indcs: Seq<usize>, bound: usize) -> bool {
    forall|p: int| 0 <= p < indcs.len() ==> indcs[p] < bound
}

/// Number of entries that a shape whose zero lengths lead has room for: the
/// lines times the length of the innermost axis.
proof fn lemma_room(dims: Seq<usize>, nnz: usize)
    requires
        dims.len() >= 1,
        zeros_lead(dims),
        nnz <= max_nnz_spec(dims),
        correct_offs_len_spec(dims) is Some,
    ensures
        nnz <= (correct_offs_len_spec(dims).unwrap() - 1) * dims.last(),
        correct_offs_len_spec(dims).unwrap() >= 1,
{
    let lines = correct_offs_len_spec(dims).unwrap() - 1;
    let last = dims.last();
    lemma_nonzero_product_positive(dims.drop_last());
    if all_zero(dims) {
        assert(lines * last >= 0) by (nonlinear_arith)
            requires
                lines >= 0,
                last >= 0,
        ;
    } else {
        assert(last != 0) by {
            let k = choose|k: int| 0 <= k < dims.len() && dims[k] != 0;
            if k < dims.len() - 1 {
                assert(dims[dims.len() - 1] != 0);
            }
        }
        assert(dims.drop_last().push(last) =~= dims);
        lemma_product_push(dims.drop_last(), last);
        if dims.len() == 1 {
            assert(dims.drop_last() =~= Seq::<usize>::empty());
        }
        assert(nonzero_product(dims) == lines * last);
    }
}

/// The fewest and the most entries that a line can get when `rem` entries
/// are still to be placed and `lines_after` lines follow: so many at least
/// that the lines after it can hold the others, and not more than are left
/// nor than a line holds.
pub fn line_nnz_bounds(rem: usize, lines_after: usize, last_dim: usize) -> (r: (usize, usize))
    ensures
        r.0 == if rem > lines_after * last_dim {
            rem - lines_after * last_dim
        } else {
            0
        },
        r.1 == if rem < last_dim {
            rem
        } else {
            last_dim
        },
{
    let cap: usize = saturating_mul(lines_after, last_dim);
    let lo: usize = rem.saturating_sub(cap);
    let hi: usize = if rem < last_dim {
        rem
    } else {
        last_dim
    };
    (lo, hi)
}

/// Number of entries for one line, drawn between the bounds of
/// `line_nnz_bounds`.
fn do_fill_offs<R: Rng>(rng: &mut R, rem: usize, lines_after: usize, last_dim: usize) -> (c: usize)
    requires
        rem <= (lines_after + 1) * last_dim,
    ensures
        c <= last_dim,
        c <= rem,
        rem - c <= lines_after * last_dim,
{
    let (lo, hi) = line_nnz_bounds(rem, lines_after, last_dim);
    assert((lines_after + 1) * last_dim == lines_after * last_dim + last_dim) by (nonlinear_arith);
    sample_inclusive(rng, lo, hi)
}

/// Offsets of `lines` lines that hold `nnz` entries in all.
fn fill_offs<R: Rng>(rng: &mut R, lines: usize, last_dim: usize, nnz: usize) -> (offs: Vec<usize>)
    requires
        lines < usize::MAX,
        nnz <= lines * last_dim,
    ensures
        offs_fit(offs@, lines as int, last_dim),
        offs@.last() == nnz,
{
    let mut offs: Vec<usize> = Vec::new();
    offs.push(0);
    let mut i: usize = 0;
    let mut last: usize = 0;
    while i < lines
        invariant
            i <= lines,
            offs@.len() == i + 1,
            offs@[0] == 0,
            offs@.last() == last,
            last <= nnz,
            nnz - last <= (lines - i) * last_dim,
            forall|k: int|
                0 <= k < i ==> offs@[k] <= #[trigger] offs@[k + 1] <= offs@[k] + last_dim,
        decreases lines - i,
    {
        let c: usize = do_fill_offs(rng, nnz - last, lines - 1 - i, last_dim);
        last = last + c;
        offs.push(last);
        i += 1;
    }
    assert(nnz - last <= 0) by (nonlinear_arith)
        requires
            nnz - last <= (lines - i) * last_dim,
            i == lines,
    ;
    offs
}

/// Indices for the lines that `offs` delimits: within each line strictly
/// ascending, and each below `last_dim`.
fn fill_indcs<R: Rng>(rng: &mut R, offs: &Vec<usize>, lines: usize, last_dim: usize) -> (indcs: Vec<
    usize,
>)
    requires
        offs_fit(offs@, lines as int, last_dim),
    ensures
        indcs@.len() == offs@.last(),
        below(indcs@, last_dim),
        lines_ok(indcs@, offs@),
{
    let mut indcs: Vec<usize> = Vec::new();
    let mut i: usize = 0;
    while i < lines
        invariant
            i <= lines,
            offs_fit(offs@, lines as int, last_dim),
            indcs@.len() == offs@[i as int],
            below(indcs@, last_dim),
            forall|l: int| 0 <= l < i ==> #[trigger] line_ok(indcs@, offs@, l),
        decreases lines - i,
    {
        let start: usize = offs[i];
        let c: usize = offs[i + 1] - start;
        let ghost before = indcs@;
        let mut k: usize = 0;
        let mut next: usize = 0;
        while k < c
            invariant
                k <= c,
                c <= last_dim,
                i < lines,
                offs_fit(offs@, lines as int, last_dim),
                start == offs@[i as int],
                start + c == offs@[i + 1],
                indcs@.len() == start + k,
                indcs@.take(start as int) == before,
                before.len() == start,
                below(indcs@, last_dim),
                next + (c - k) <= last_dim,
                strictly_ascending(indcs@.skip(start as int)),
                k > 0 ==> indcs@.last() < next,
            decreases c - k,
        {
            let ghost prev = indcs@;
            let idx: usize = gen_range(rng, next, last_dim - (c - 1 - k));
            indcs.push(idx);
            proof {
                let now = indcs@.skip(start as int);
                let was = prev.skip(start as int);
                assert(now =~= was.push(idx));
                assert forall|a: int, b: int| 0 <= a < b < now.len() implies now[a] < now[b] by {
                    if b == k {
                        if a < k - 1 {
                            assert(was[a] < was[k - 1]);
                        }
                        assert(was[k - 1] == prev.last());
                    } else {
                        assert(was[a] < was[b]);
                    }
                }
                assert(indcs@.take(start as int) =~= prev.take(start as int));
            }
            next = idx + 1;
            k += 1;
        }
        proof {
            assert forall|l: int| 0 <= l < i + 1 implies #[trigger] line_ok(
                indcs@,
                offs@,
                l,
            ) by {
                let a = line_lo(offs@, l);
                let b = line_hi(offs@, l);
                lemma_offs_fit_ascending(offs@, lines as int, last_dim, l, l + 1);
                if l < i {
                    lemma_offs_fit_ascending(offs@, lines as int, last_dim, l + 1, i as int);
                    assert(line_ok(before, offs@, l));
                    assert(indcs@.subrange(a, b) =~= before.subrange(a, b));
                } else {
                    assert(indcs@.subrange(a, b) =~= indcs@.skip(start as int));
                }
            }
        }
        i += 1;
    }
    assert forall|l: int| 0 <= l < offs@.len() - 1 implies #[trigger] line_ok(
        indcs@,
        offs@,
        l,
    ) by {}
    indcs
}

/// `x` is a value that `cb` can give for the index `idx`.
pub open spec fn made_by<T, R, F: FnMut(&mut R, [usize; D]) -> T, const D: usize>(
    cb: F,
    idx: Seq<usize>,
    x: T,
) -> bool {
    exists|g: &mut R, a: [usize; D]| a@ == idx && call_ensures(cb, (g, a), x)
}

/// Each of the first `n` values was made by `cb` for the index of its
/// entry: the line that the offsets give it, and the innermost coordinate
/// that is stored for it.
pub open spec fn all_made_by<T, R, F: FnMut(&mut R, [usize; D]) -> T, const D: usize>(
    cb: F,
    v: CslData<T>,
    n: int,
) -> bool {
    forall|l: int, p: int|
        #![trigger v.offs[l], v.data[p]]
        0 <= l < v.offs.len() - 1 && v.offs[l] <= p < v.offs[l + 1] && p < n ==> made_by::<
            T,
            R,
            F,
            D,
        >(cb, index_of(v.dims, l as usize, v.indcs[p]), v.data[p])
}

/// A value for each stored entry, from `cb` on the index of the entry.
fn fill_data<T, R: Rng, F, const D: usize>(
    rng: &mut R,
    dims: &[usize; D],
    indcs: &Vec<usize>,
    offs: &Vec<usize>,
    lines: usize,
    last_dim: usize,
    cb: &mut F,
) -> (data: Vec<T>) where F: FnMut(&mut R, [usize; D]) -> T
    requires
        D >= 1,
        offs_fit(offs@, lines as int, last_dim),
        indcs@.len() == offs@.last(),
        forall|g: &mut R, idx: [usize; D]| call_requires(*old(cb), (g, idx)),
    ensures
        data@.len() == indcs@.len(),
        *final(cb) == *old(cb),
        all_made_by::<T, R, F, D>(
            *old(cb),
            CslData { dims: dims@, data: data@, indcs: indcs@, offs: offs@ },
            data@.len() as int,
        ),
{
    let mut data: Vec<T> = Vec::new();
    let mut i: usize = 0;
    while i < lines
        invariant
            D >= 1,
            i <= lines,
            offs_fit(offs@, lines as int, last_dim),
            indcs@.len() == offs@.last(),
            data@.len() == offs@[i as int],
            *cb == *old(cb),
            forall|g: &mut R, idx: [usize; D]| call_requires(*cb, (g, idx)),
            all_made_by::<T, R, F, D>(
                *cb,
                CslData { dims: dims@, data: data@, indcs: indcs@, offs: offs@ },
                data@.len() as int,
            ),
        decreases lines - i,
    {
        let end: usize = offs[i + 1];
        proof {
            lemma_offs_fit_ascending(offs@, lines as int, last_dim, i + 1, lines as int);
        }
        let mut p: usize = offs[i];
        while p < end
            invariant
                D >= 1,
                i < lines,
                offs_fit(offs@, lines as int, last_dim),
                offs@[i as int] <= p <= end,
                end == offs@[i + 1],
                end <= indcs@.len(),
                data@.len() == p,
                *cb == *old(cb),
                forall|g: &mut R, idx: [usize; D]| call_requires(*cb, (g, idx)),
                all_made_by::<T, R, F, D>(
                    *cb,
                    CslData { dims: dims@, data: data@, indcs: indcs@, offs: offs@ },
                    data@.len() as int,
                ),
            decreases end - p,
        {
            let idx: [usize; D] = line_to_index(dims, i, indcs[p]);
            let ghost before = data@;
            let ghost f = *cb;
            let value: T = cb(rng, idx);
            data.push(value);
            proof {
                let was = CslData { dims: dims@, data: before, indcs: indcs@, offs: offs@ };
                let now = CslData { dims: dims@, data: data@, indcs: indcs@, offs: offs@ };
                assert(made_by::<T, R, F, D>(f, index_of(dims@, i, indcs@[p as int]), value));
                assert forall|l: int, q: int|
                    #![trigger now.offs[l], now.data[q]]
                    0 <= l < now.offs.len() - 1 && now.offs[l] <= q < now.offs[l + 1] && q
                        < now.data.len() implies made_by::<T, R, F, D>(
                    f,
                    index_of(now.dims, l as usize, now.indcs[q]),
                    now.data[q],
                ) by {
                    if q < p {
                        assert(was.offs[l] <= q && was.data[q] == now.data[q]);
                    } else {
                        if l < i {
                            lemma_offs_fit_ascending(
                                offs@,
                                lines as int,
                                last_dim,
                                l + 1,
                                i as int,
                            );
                        }
                        if l > i {
                            lemma_offs_fit_ascending(offs@, lines as int, last_dim, i + 1, l);
                        }
                        assert(l == i);
                    }
                }
            }
            p += 1;
        }
        i += 1;
    }
    data
}

/// What a random fill needs: the shape, the number of entries, and the source
/// of randomness.
struct CslRnd<'a, R, const D: usize> {
    dims: [usize; D],
    nnz: usize,
    rng: &'a mut R,
}

impl<'a, R: Rng, const D: usize> CslRnd<'a, R, D> {
    /// Refuses more entries than the shape has room for.
    fn new(dims: [usize; D], nnz: usize, rng: &'a mut R) -> (r: Result<Self, Error>)
        ensures
            nnz > max_nnz_spec(dims@) ==> r == Err::<Self, Error>(
                Error::Csl(CslError::NnzGreaterThanMaximumNnz),
            ),
            nnz <= max_nnz_spec(dims@) ==> r is Ok && r.unwrap().dims == dims && r.unwrap().nnz
                == nnz,
    {
        if nnz > max_nnz(&dims) {
            return Err(Error::Csl(CslError::NnzGreaterThanMaximumNnz));
        }
        Ok(CslRnd { dims, nnz, rng })
    }

    /// Offsets, then indices, then values.
    fn fill<T, F>(self, cb: &mut F) -> (r: Result<Csl<T, D>, Error>) where
        F: FnMut(&mut R, [usize; D]) -> T,

        requires
            self.nnz <= max_nnz_spec(self.dims@),
            forall|g: &mut R, idx: [usize; D]| call_requires(*old(cb), (g, idx)),
        ensures
            *final(cb) == *old(cb),
            r is Ok ==> all_made_by::<T, R, F, D>(
                *old(cb),
                r.unwrap()@,
                r.unwrap()@.data.len() as int,
            ),
            r is Ok ==> r.unwrap()@.offs.len() > 0 && r.unwrap()@.offs[0] == 0,
            !zeros_lead(self.dims@) ==> r == Err::<Csl<T, D>, Error>(
                Error::Csl(CslError::InnermostDimsZero),
            ),
            zeros_lead(self.dims@) && D > 0 && correct_offs_len_spec(self.dims@) is None ==> r
                == Err::<Csl<T, D>, Error>(Error::UnknownError),
            zeros_lead(self.dims@) && (D == 0 || correct_offs_len_spec(self.dims@) is Some)
                ==> r is Ok && valid(r.unwrap()@) && r.unwrap()@.dims == self.dims@
                && r.unwrap()@.data.len() == self.nnz,
    {
        let CslRnd { dims, nnz, rng } = self;
        if is_zero_after_nonzero(dims.as_slice()) {
            return Err(Error::Csl(CslError::InnermostDimsZero));
        }
        if D == 0 {
            let mut offs: Vec<usize> = Vec::new();
            offs.push(0);
            let csl = Csl { data: Vec::new(), dims, indcs: Vec::new(), offs };
            assert(all_zero(dims@));
            assert(lines_ok(csl@.indcs, csl@.offs));
            return Ok(csl);
        }
        let offs_len: usize = match correct_offs_len(&dims) {
            Ok(n) => n,
            Err(_) => {
                return Err(Error::UnknownError);
            },
        };
        proof {
            lemma_room(dims@, nnz);
        }
        let lines: usize = offs_len - 1;
        let last_dim: usize = dims[D - 1];
        let offs: Vec<usize> = fill_offs(rng, lines, last_dim, nnz);
        let indcs: Vec<usize> = fill_indcs(rng, &offs, lines, last_dim);
        let data: Vec<T> = fill_data(rng, &dims, &indcs, &offs, lines, last_dim, cb);
        proof {
            assert forall|i: int, j: int| 0 <= i <= j < offs@.len() implies offs@[i]
                <= offs@[j] by {
                lemma_offs_fit_ascending(offs@, lines as int, last_dim, i, j);
            }
        }
        let csl = Csl { data, dims, indcs, offs };
        assert(!csl@.index_out_of_bound());
        Ok(csl)
    }
}

/// The lines of a random shape can be counted where its lengths, one less
/// than `upper_bound` at most, give a product below the largest `usize`.
pub proof fn lemma_random_shape_lines(dims: Seq<usize>, upper_bound: usize)
    requires
        random_shape(dims, upper_bound),
    ensures
        dims.len() < 2 || upper_bound <= 2 || power(
            (upper_bound - 1) as nat,
            (dims.len() - 1) as nat,
        ) < usize::MAX ==> correct_offs_len_spec(dims) is Some,
{
    if dims.len() >= 2 && !all_zero(dims) {
        let s = dims.drop_last();
        if upper_bound <= 2 {
            assert forall|i: int| 0 <= i < s.len() implies s[i] <= 1nat by {
                assert(s[i] == dims[i]);
            }
            lemma_nonzero_product_bound(s, 1);
            lemma_power_of_one(s.len());
        } else {
            let b = (upper_bound - 1) as nat;
            assert forall|i: int| 0 <= i < s.len() implies s[i] <= b by {
                assert(s[i] == dims[i]);
            }
            lemma_nonzero_product_bound(s, b);
        }
    }
}

impl<T, const D: usize> Csl<T, D> {
    /// Creates a new random and valid instance delimited by the passed
    /// arguments.
    ///
    /// # Arguments
    ///
    /// * `dims`: Array of dimensions
    /// * `nnz`: Number of Non-Zero elements
    /// * `rng`: `rand::Rng` trait
    /// * `cb`: Callback to control data creation. It makes the value of each
    ///   entry from the index of the entry.
    pub fn new_controlled_random_rand<F, R: Rng>(
        dims: [usize; D],
        nnz: usize,
        rng: &mut R,
        cb: F,
    ) -> (r: Result<Self, Error>) where F: FnMut(&mut R, [usize; D]) -> T
        requires
            forall|g: &mut R, idx: [usize; D]| call_requires(cb, (g, idx)),
        ensures
            nnz > max_nnz_spec(dims@) ==> r == Err::<Self, Error>(
                Error::Csl(CslError::NnzGreaterThanMaximumNnz),
            ),
            nnz <= max_nnz_spec(dims@) && !zeros_lead(dims@) ==> r == Err::<Self, Error>(
                Error::Csl(CslError::InnermostDimsZero),
            ),
            nnz <= max_nnz_spec(dims@) && zeros_lead(dims@) && D > 0 && correct_offs_len_spec(
                dims@,
            ) is None ==> r == Err::<Self, Error>(Error::UnknownError),
            nnz <= max_nnz_spec(dims@) && zeros_lead(dims@) && (D == 0 || correct_offs_len_spec(
                dims@,
            ) is Some) ==> r is Ok && valid(r.unwrap()@) && r.unwrap()@.dims == dims@
                && r.unwrap()@.data.len() == nnz,
            r is Ok ==> all_made_by::<T, R, F, D>(cb, r.unwrap()@, r.unwrap()@.data.len() as int),
            r is Ok ==> r.unwrap()@.offs.len() > 0 && r.unwrap()@.offs[0] == 0,
    {
        let mut cb = cb;
        match CslRnd::new(dims, nnz, rng) {
            Err(e) => Err(e),
            Ok(rnd) => rnd.fill(&mut cb),
        }
    }

    /// Creates a new random and valid instance: its shape is one that
    /// `valid_random_dims` gives for `upper_bound`, and it stores fewer values
    /// than the shape has room for. It fails only where the lines of the shape
    /// cannot be counted, which no shape does whose lengths, one less than
    /// `upper_bound` at most, give a product below the largest `usize`.
    ///
    /// # Arguments
    ///
    /// * `rng`: `rand::Rng` trait
    /// * `upper_bound`: The maximum allowed exclusive dimension
    pub fn new_random_rand<R: Rng>(rng: &mut R, upper_bound: usize) -> (r: Result<
        Self,
        Error,
    >) where Standard: Distribution<T>

        ensures
            match r {
                Ok(csl) => valid(csl@) && csl@.offs[0] == 0 && (csl@.data.len() == 0
                    || csl@.data.len() < max_nnz_spec(csl@.dims)) && random_shape(
                    csl@.dims,
                    upper_bound,
                ),
                Err(e) => e == Error::UnknownError,
            },
            D < 2 || upper_bound <= 2 || power((upper_bound - 1) as nat, (D - 1) as nat)
                < usize::MAX ==> r is Ok,
    {
        let dims: [usize; D] = valid_random_dims(rng, upper_bound);
        proof {
            lemma_random_shape_lines(dims@, upper_bound);
        }
        let max_nnz: usize = max_nnz(&dims);
        let nnz: usize = if max_nnz == 0 {
            0
        } else {
            gen_range(rng, 0, max_nnz)
        };
        Self::new_controlled_random_rand(
            dims,
            nnz,
            rng,
            |g: &mut R, idx: [usize; D]| -> T { gen_value(g) },
        )
    }
}

} // verus!
