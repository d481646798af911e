//! Random construction of a `Coo`.

use crate::coo::{
    Coo, CooData, coordinate_fits, entries, first_violation, index_fits, locate, sorted,
};
use crate::coo::coo_error::CooError;
use crate::coo::coo_utils::{lemma_lex_lt_irreflexive, lemma_lex_lt_transitive};
use crate::dims::lex_lt;
use crate::error::Error;
use crate::rnd::{gen_range, gen_value};
use crate::utils::{max_nnz, max_nnz_spec, random_shape, valid_random_dims};
use rand::Rng;
use rand::distributions::{Distribution, Standard};
use vstd::prelude::*;

verus! {

/// A random index within the shape `dims`: on an axis of length zero the
/// coordinate zero.
fn random_index<R: Rng, const D: usize>(rng: &mut R, dims: &[usize; D]) -> (r: [usize; D])
    ensures
        index_fits(dims@, r@),
{
    let mut idx: [usize; D] = [0usize;D];
    let mut k: usize = 0;
    while k < D
        invariant
            k <= D,
            idx@.len() == D,
            forall|i: int| 0 <= i < k ==> #[trigger] coordinate_fits(dims@, idx@, i),
        decreases D - k,
    {
        let ghost before = idx@;
        if dims[k] != 0 {
            idx[k] = gen_range(rng, 0, dims[k]);
        }
        assert forall|i: int| 0 <= i < k + 1 implies #[trigger] coordinate_fits(
            dims@,
            idx@,
            i,
        ) by {
            if i < k {
                assert(coordinate_fits(dims@, before, i));
            }
        }
        k += 1;
    }
    idx
}

/// Sorted entries within a shape break no rule of the format.
pub proof fn lemma_sorted_valid<T>(v: CooData<T>)
    requires
        sorted(v.data),
        forall|i: int| 0 <= i < v.data.len() ==> index_fits(v.dims, (#[trigger] v.data[i]).0),
    ensures
        first_violation(v) is None,
{
    assert forall|i: int| 0 <= i < v.data.len() - 1 implies !lex_lt(
        #[trigger] v.data[i + 1].0,
        v.data[i].0,
    ) && v.data[i + 1].0 != v.data[i].0 by {
        assert(lex_lt(v.data[i].0, v.data[i + 1].0));
        lemma_lex_lt_irreflexive(v.data[i].0, v.data[i + 1].0);
    }
}

/// `x` is a value that `cb` can give for the index `idx`.
pub open spec fn made_by<T, R, F: FnMut(&mut R, &[usize; D]) -> T, const D: usize>(
    cb: F,
    idx: Seq<usize>,
    x: T,
) -> bool {
    exists|g: &mut R, a: &[usize; D]| a@ == idx && call_ensures(cb, (g, a), x)
}

/// Each value was made by `cb` for the index that it is stored with.
pub open spec fn all_made_by<T, R, F: FnMut(&mut R, &[usize; D]) -> T, const D: usize>(
    cb: F,
    data: Seq<(Seq<usize>, T)>,
) -> bool {
    forall|i: int|
        0 <= i < data.len() ==> made_by::<T, R, F, D>(cb, (#[trigger] data[i]).0, data[i].1)
}

impl<T, const D: usize> Coo<T, D> {
    /// Creates a new random and valid instance delimited by the passed
    /// arguments. It draws `nnz` indices and stores a value for each that it
    /// had not drawn before: one value at least where `nnz` is not zero.
    ///
    /// # Arguments
    ///
    /// * `dims`: Array of dimensions
    /// * `nnz`: Number of Non-Zero elements
    /// * `rng`: `rand::Rng` trait
    /// * `cb`: Callback to control data creation
    pub fn new_controlled_random_rand<F, R: Rng>(
        dims: [usize; D],
        nnz: usize,
        rng: &mut R,
        cb: F,
    ) -> (r: Result<Self, Error>) where F: FnMut(&mut R, &[usize; D]) -> T
        requires
            forall|g: &mut R, idx: &[usize; D]| call_requires(cb, (g, idx)),
        ensures
            nnz > max_nnz_spec(dims@) ==> r == Err::<Self, Error>(
                Error::Coo(CooError::NnzGreaterThanMaximumNnz),
            ),
            nnz <= max_nnz_spec(dims@) ==> r is Ok && r.unwrap().wf() && first_violation(
                r.unwrap()@,
            ) is None && r.unwrap()@.dims == dims@ && r.unwrap()@.data.len() <= nnz && (nnz > 0
                ==> r.unwrap()@.data.len() > 0),
            r is Ok ==> all_made_by::<T, R, F, D>(cb, r.unwrap()@.data),
    {
        let ghost f = cb;
        let mut cb = cb;
        if nnz > max_nnz(&dims) {
            return Err(Error::Coo(CooError::NnzGreaterThanMaximumNnz));
        }
        let mut data: Vec<([usize; D], T)> = Vec::new();
        let mut n: usize = 0;
        while n < nnz
            invariant
                n <= nnz,
                data@.len() <= n,
                n > 0 ==> data@.len() > 0,
                cb == f,
                all_made_by::<T, R, F, D>(f, entries(data@)),
                sorted(entries(data@)),
                forall|i: int| 0 <= i < data@.len() ==> index_fits(dims@, (#[trigger] data@[i]).0@),
                forall|g: &mut R, idx: &[usize; D]| call_requires(cb, (g, idx)),
            decreases nnz - n,
        {
            let indcs: [usize; D] = random_index(rng, &dims);
            let (found, at) = locate(data.as_slice(), &indcs);
            if !found {
                let element: T = cb(rng, &indcs);
                let ghost before = data@;
                data.insert(at, (indcs, element));
                proof {
                    let e = entries(data@);
                    let b = entries(before);
                    assert forall|i: int, j: int| 0 <= i < j < e.len() implies lex_lt(
                        e[i].0,
                        e[j].0,
                    ) by {
                        if j < at {
                            assert(lex_lt(b[i].0, b[j].0));
                        } else if j == at {
                            assert(lex_lt(before[i].0@, indcs@));
                        } else if i < at {
                            assert(lex_lt(before[i].0@, indcs@));
                            if j - 1 > at {
                                assert(lex_lt(indcs@, before[j - 1].0@));
                            }
                            lemma_lex_lt_transitive(e[i].0, indcs@, e[j].0);
                        } else if i == at {
                            if j - 1 > at {
                                assert(lex_lt(indcs@, before[j - 1].0@));
                            }
                        } else {
                            assert(lex_lt(b[i - 1].0, b[j - 1].0));
                        }
                    }
                    assert(made_by::<T, R, F, D>(f, indcs@, e[at as int].1));
                    assert forall|i: int| 0 <= i < e.len() implies made_by::<T, R, F, D>(
                        f,
                        (#[trigger] e[i]).0,
                        e[i].1,
                    ) by {
                        if i < at {
                            assert(e[i] == b[i]);
                        } else if i > at {
                            assert(e[i] == b[i - 1]);
                        }
                    }
                    assert forall|i: int| 0 <= i < data@.len() implies index_fits(
                        dims@,
                        (#[trigger] data@[i]).0@,
                    ) by {
                        if i < at {
                            assert(index_fits(dims@, before[i].0@));
                        } else if i > at {
                            assert(index_fits(dims@, before[i - 1].0@));
                        }
                    }
                }
            }
            n += 1;
        }
        let coo = Coo { data, dims };
        proof {
            assert forall|i: int| 0 <= i < coo@.data.len() implies index_fits(
                coo@.dims,
                (#[trigger] coo@.data[i]).0,
            ) by {
                assert(index_fits(dims@, coo.data@[i].0@));
            }
            lemma_sorted_valid(coo@);
        }
        Ok(coo)
    }

    /// Creates a new random and valid instance: its shape is one that
    /// `valid_random_dims` gives for `upper_bound`, and it stores fewer values
    /// than the shape has room for.
    ///
    /// # Arguments
    ///
    /// * `rng`: `rand::Rng` trait
    /// * `upper_bound`: The maximum allowed exclusive dimension
    pub fn new_random_rand<R: Rng>(rng: &mut R, upper_bound: usize) -> (r: Result<
        Self,
        Error,
    >) where Standard: Distribution<T>

        ensures
            r is Ok,
            r.unwrap().wf(),
            first_violation(r.unwrap()@) is None,
            random_shape(r.unwrap()@.dims, upper_bound),
            r.unwrap()@.data.len() == 0 || r.unwrap()@.data.len() < max_nnz_spec(
                r.unwrap()@.dims,
            ),
    {
        let dims: [usize; D] = valid_random_dims(rng, upper_bound);
        let max_nnz: usize = max_nnz(&dims);
        let nnz: usize = if max_nnz == 0 {
            0
        } else {
            gen_range(rng, 0, max_nnz)
        };
        Self::new_controlled_random_rand(
            dims,
            nnz,
            rng,
            |g: &mut R, idx: &[usize; D]| -> T { gen_value(g) },
        )
    }
}

} // verus!
