//! COO (Coordinate) format for N-dimensions.

pub mod coo_error;
pub mod coo_rnd;
pub mod coo_utils;

use crate::coo::coo_error::CooError;
use crate::coo::coo_utils::{
    does_not_have_duplicates_sorted, lemma_lex_lt_irreflexive, lemma_lex_lt_transitive, lex_order,
    Order,
};
use crate::dims::lex_lt;
use crate::error::Error;
use vstd::prelude::*;

verus! {

/// What a coordinate structure holds, as plain sequences.
pub struct CooData<T> {
    /// Length of each axis, outermost first.
    pub dims: Seq<usize>,
    /// Each stored value with its index.
    pub data: Seq<(Seq<usize>, T)>,
}

/// The entries of a coordinate structure, each index as a sequence.
pub open spec fn entries<T, const D: usize>(s: Seq<([usize; D], T)>) -> Seq<(Seq<usize>, T)> {
    Seq::new(s.len(), |i: int| (s[i].0@, s[i].1))
}

/// Some index comes after the one that follows it.
pub open spec fn out_of_order<T>(data: Seq<(Seq<usize>, T)>) -> bool {
    exists|i: int| 0 <= i < data.len() - 1 && lex_lt(#[trigger] data[i + 1].0, data[i].0)
}

/// The coordinate `k` of `idx` is within the axis `k`; an axis of length zero
/// holds every coordinate.
pub open spec fn coordinate_fits(dims: Seq<usize>, idx: Seq<usize>, k: int) -> bool {
    dims[k] == 0 || idx[k] < dims[k]
}

/// Every coordinate of `idx` is within its axis.
pub open spec fn index_fits(dims: Seq<usize>, idx: Seq<usize>) -> bool {
    forall|k: int| 0 <= k < dims.len() ==> #[trigger] coordinate_fits(dims, idx, k)
}

/// Some index has a coordinate outside its axis.
pub open spec fn out_of_shape<T>(dims: Seq<usize>, data: Seq<(Seq<usize>, T)>) -> bool {
    exists|i: int| 0 <= i < data.len() && !index_fits(dims, #[trigger] data[i].0)
}

/// Some index is the same as the one that follows it.
pub open spec fn repeated<T>(data: Seq<(Seq<usize>, T)>) -> bool {
    exists|i: int| 0 <= i < data.len() - 1 && #[trigger] data[i + 1].0 == data[i].0
}

/// The first rule that the two parts of a structure break, or `None` where
/// they break none.
pub open spec fn first_violation<T>(v: CooData<T>) -> Option<CooError> {
    if out_of_order(v.data) {
        Some(CooError::InvalidIndcsOrder)
    } else if out_of_shape(v.dims, v.data) {
        Some(CooError::InvalidIndcs)
    } else if repeated(v.data) {
        Some(CooError::DuplicatedIndices)
    } else {
        None
    }
}

/// Each index comes before every index after it.
pub open spec fn sorted<T>(data: Seq<(Seq<usize>, T)>) -> bool {
    forall|i: int, j: int| 0 <= i < j < data.len() ==> lex_lt(data[i].0, data[j].0)
}

/// `idx` is the index of entry `i`.
pub open spec fn stored_at<T>(v: CooData<T>, idx: Seq<usize>, i: int) -> bool {
    0 <= i < v.data.len() && v.data[i].0 == idx
}

/// The place of an entry whose index is `idx`.
pub open spec fn place_of<T>(v: CooData<T>, idx: Seq<usize>) -> int {
    choose|i: int| stored_at(v, idx, i)
}

/// The value stored for `idx`, or `None` where the structure stores none.
pub open spec fn value_spec<T>(v: CooData<T>, idx: Seq<usize>) -> Option<T> {
    if exists|i: int| stored_at(v, idx, i) {
        Some(v.data[place_of(v, idx)].1)
    } else {
        None
    }
}

/// Indices of one length of which each comes before the next, or is the
/// next, and none is the next, are sorted.
pub proof fn lemma_valid_sorted<T>(data: Seq<(Seq<usize>, T)>, d: nat)
    requires
        forall|i: int| 0 <= i < data.len() ==> (#[trigger] data[i]).0.len() == d,
        !out_of_order(data),
        !repeated(data),
    ensures
        sorted(data),
{
    assert forall|i: int, j: int| 0 <= i < j < data.len() implies lex_lt(
        data[i].0,
        data[j].0,
    ) by {
        lemma_sorted_between(data, d, i, j);
    }
}

/// Within such indices, an index comes before each one after it.
pub proof fn lemma_sorted_between<T>(data: Seq<(Seq<usize>, T)>, d: nat, i: int, j: int)
    requires
        forall|i: int| 0 <= i < data.len() ==> (#[trigger] data[i]).0.len() == d,
        !out_of_order(data),
        !repeated(data),
        0 <= i < j < data.len(),
    ensures
        lex_lt(data[i].0, data[j].0),
    decreases j - i,
{
    let a = data[j - 1].0;
    let b = data[j].0;
    assert(data[j - 1 + 1].0 == b);
    assert(!lex_lt(b, a));
    assert(a != b);
    crate::dims::lemma_lex_total(a, b, 0);
    if i < j - 1 {
        lemma_sorted_between(data, d, i, j - 1);
        lemma_lex_lt_transitive(data[i].0, a, b);
    }
}

/// In sorted entries an index is stored at one place at most.
pub proof fn lemma_value_unique<T>(v: CooData<T>, idx: Seq<usize>, i: int)
    requires
        sorted(v.data),
        0 <= i < v.data.len(),
        v.data[i].0 == idx,
    ensures
        value_spec(v, idx) == Some(v.data[i].1),
        place_of(v, idx) == i,
{
    assert(stored_at(v, idx, i));
    let j = place_of(v, idx);
    if i < j {
        lemma_lex_lt_irreflexive(v.data[i].0, v.data[j].0);
    }
    if j < i {
        lemma_lex_lt_irreflexive(v.data[j].0, v.data[i].0);
    }
}

/// Base structure of the coordinate format, backed by a vector.
#[derive(Clone, Debug, Eq, Ord, PartialEq, PartialOrd)]
pub struct Coo<T, const D: usize> {
    pub(crate) data: Vec<([usize; D], T)>,
    pub(crate) dims: [usize; D],
}

impl<T, const D: usize> View for Coo<T, D> {
    type V = CooData<T>;

    open(crate) spec fn view(&self) -> CooData<T> {
        CooData { dims: self.dims@, data: entries(self.data@) }
    }
}

/// Tells whether every coordinate of `idx` is within its axis.
fn fits<const D: usize>(dims: &[usize; D], idx: &[usize; D]) -> (r: bool)
    ensures
        r == index_fits(dims@, idx@),
{
    let mut k: usize = 0;
    while k < D
        invariant
            k <= D,
            forall|i: int| 0 <= i < k ==> #[trigger] coordinate_fits(dims@, idx@, i),
        decreases D - k,
    {
        if dims[k] != 0 && idx[k] >= dims[k] {
            assert(!coordinate_fits(dims@, idx@, k as int));
            return false;
        }
        assert(coordinate_fits(dims@, idx@, k as int));
        k += 1;
    }
    true
}

/// The first rule that the two parts break, if they break one.
#[verifier::loop_isolation(false)]
pub fn check_parts<T, const D: usize>(dims: &[usize; D], data: &[([usize; D], T)]) -> (r: Option<
    CooError,
>)
    ensures
        r == first_violation(CooData { dims: dims@, data: entries(data@) }),
{
    let ghost e = entries(data@);
    let n: usize = data.len();
    let mut i: usize = 1;
    while i < n
        invariant
            1 <= i,
            n == data@.len(),
            e == entries(data@),
            forall|k: int| 0 <= k < i - 1 && k < n - 1 ==> !lex_lt(#[trigger] e[k + 1].0, e[k].0),
        decreases n - i,
    {
        if matches!(lex_order(&data[i].0, &data[i - 1].0), Order::Before) {
            assert(lex_lt(e[i - 1 + 1].0, e[i - 1].0));
            return Some(CooError::InvalidIndcsOrder);
        }
        i += 1;
    }
    assert(!out_of_order(e));
    let mut i: usize = 0;
    while i < n
        invariant
            i <= n,
            n == data@.len(),
            e == entries(data@),
            forall|k: int| 0 <= k < i ==> index_fits(dims@, #[trigger] e[k].0),
        decreases n - i,
    {
        if !fits(dims, &data[i].0) {
            assert(!index_fits(dims@, e[i as int].0));
            return Some(CooError::InvalidIndcs);
        }
        i += 1;
    }
    assert(!out_of_shape(dims@, e));
    let differ = |a: &([usize; D], T), b: &([usize; D], T)| -> (r: bool)
        ensures
            r == (a.0@ != b.0@),
        { !matches!(lex_order(&a.0, &b.0), Order::Same) };
    if !does_not_have_duplicates_sorted(data, differ) {
        let ghost i = choose|i: int|
            #![trigger data@[i]]
            0 <= i < data@.len() - 1 && call_ensures(differ, (&data@[i], &data@[i + 1]), false);
        assert(e[i + 1].0 == e[i].0);
        return Some(CooError::DuplicatedIndices);
    }
    assert forall|i: int| 0 <= i < e.len() - 1 implies #[trigger] e[i + 1].0 != e[i].0 by {
        assert(call_ensures(differ, (&data@[i], &data@[i + 1]), true));
    }
    None
}

/// The place that `idx` has, or would have, in the sorted `data`: the first
/// whose index does not come before `idx`.
pub fn locate<T, const D: usize>(data: &[([usize; D], T)], idx: &[usize; D]) -> (r: (bool, usize))
    requires
        sorted(entries(data@)),
    ensures
        r.1 <= data@.len(),
        forall|i: int| 0 <= i < r.1 ==> lex_lt((#[trigger] data@[i]).0@, idx@),
        forall|i: int| r.1 < i < data@.len() ==> lex_lt(idx@, (#[trigger] data@[i]).0@),
        r.0 ==> r.1 < data@.len() && data@[r.1 as int].0@ == idx@,
        !r.0 && r.1 < data@.len() ==> lex_lt(idx@, data@[r.1 as int].0@),
{
    let ghost e = entries(data@);
    let mut a: usize = 0;
    let mut b: usize = data.len();
    while a < b
        invariant
            a <= b <= data@.len(),
            e == entries(data@),
            sorted(e),
            forall|i: int| 0 <= i < a ==> lex_lt(e[i].0, idx@),
            forall|i: int| b <= i < data@.len() ==> lex_lt(idx@, e[i].0),
        decreases b - a,
    {
        let mid: usize = a + (b - a) / 2;
        match lex_order(&data[mid].0, idx) {
            Order::Same => {
                assert forall|i: int| 0 <= i < mid implies lex_lt(
                    (#[trigger] data@[i]).0@,
                    idx@,
                ) by {
                    assert(lex_lt(e[i].0, e[mid as int].0));
                }
                assert forall|i: int| mid < i < data@.len() implies lex_lt(
                    idx@,
                    (#[trigger] data@[i]).0@,
                ) by {
                    assert(lex_lt(e[mid as int].0, e[i].0));
                }
                return (true, mid);
            },
            Order::Before => {
                assert forall|i: int| 0 <= i < mid + 1 implies lex_lt(e[i].0, idx@) by {
                    if i < mid {
                        lemma_lex_lt_transitive(e[i].0, e[mid as int].0, idx@);
                    }
                }
                a = mid + 1;
            },
            Order::After => {
                assert forall|i: int| mid <= i < data@.len() implies lex_lt(idx@, e[i].0) by {
                    if i > mid {
                        lemma_lex_lt_transitive(idx@, e[mid as int].0, e[i].0);
                    }
                }
                b = mid;
            },
        }
    }
    proof {
        assert forall|i: int| 0 <= i < a implies lex_lt((#[trigger] data@[i]).0@, idx@) by {
            assert(lex_lt(e[i].0, idx@));
        }
        assert forall|i: int| a <= i < data@.len() implies lex_lt(
            idx@,
            (#[trigger] data@[i]).0@,
        ) by {
            assert(lex_lt(idx@, e[i].0));
        }
    }
    (false, a)
}

/// Where in the sorted `data` the index `idx` is stored, if it is stored.
fn search<T, const D: usize>(data: &[([usize; D], T)], idx: &[usize; D]) -> (r: Option<usize>)
    requires
        sorted(entries(data@)),
    ensures
        match r {
            Some(i) => i < data@.len() && data@[i as int].0@ == idx@,
            None => forall|i: int| 0 <= i < data@.len() ==> (#[trigger] data@[i]).0@ != idx@,
        },
{
    let (found, at) = locate(data, idx);
    if found {
        Some(at)
    } else {
        proof {
            assert forall|i: int| 0 <= i < data@.len() implies (#[trigger] data@[i]).0@
                != idx@ by {
                if i < at {
                    lemma_lex_lt_irreflexive(data@[i].0@, idx@);
                } else {
                    lemma_lex_lt_irreflexive(idx@, data@[i].0@);
                }
            }
        }
        None
    }
}

impl<T, const D: usize> Coo<T, D> {
    /// The structure keeps its entries sorted, each index before every index
    /// after it.
    pub open spec fn wf(&self) -> bool {
        sorted(self@.data)
    }

    /// The definitions of all dimensions.
    pub fn dims(&self) -> (r: &[usize; D])
        ensures
            r@ == self@.dims,
    {
        &self.dims
    }

    /// Creates a valid COO instance.
    ///
    /// # Arguments
    ///
    /// * `dims`: Array of dimensions
    /// * `data`: Data collection
    pub fn new(dims: [usize; D], data: Vec<([usize; D], T)>) -> (r: Result<Self, Error>)
        ensures
            match first_violation(CooData { dims: dims@, data: entries(data@) }) {
                Some(e) => r == Err::<Self, Error>(Error::Coo(e)),
                None => r is Ok && r.unwrap()@ == (CooData { dims: dims@, data: entries(data@) })
                    && r.unwrap().wf(),
            },
    {
        match check_parts(&dims, data.as_slice()) {
            Some(e) => Err(Error::Coo(e)),
            None => {
                proof {
                    lemma_valid_sorted(entries(data@), D as nat);
                }
                Ok(Coo { data, dims })
            },
        }
    }

    /// The data that is being stored.
    pub fn data(&self) -> (r: &[([usize; D], T)])
        ensures
            entries(r@) == self@.data,
    {
        self.data.as_slice()
    }

    /// If any, retrieves an immutable data reference of a given set of indices.
    ///
    /// # Arguments
    ///
    /// * `indcs`: Indices of the desired data location
    pub fn value(&self, indcs: [usize; D]) -> (r: Option<&T>)
        requires
            self.wf(),
        ensures
            match r {
                Some(x) => value_spec(self@, indcs@) == Some(*x),
                None => value_spec(self@, indcs@) is None,
            },
    {
        match search(self.data.as_slice(), &indcs) {
            Some(i) => {
                proof {
                    lemma_value_unique(self@, indcs@, i as int);
                }
                Some(&self.data[i].1)
            },
            None => None,
        }
    }
}

impl<T, const D: usize> Coo<T, D> {
    /// Mutable version of [`value`](#method.value).
    pub fn value_mut(&mut self, indcs: [usize; D]) -> (r: Option<&mut T>)
        requires
            old(self).wf(),
        ensures
            match r {
                Some(x) => value_spec(old(self)@, indcs@) == Some(*x) && final(self)@
                    == (CooData {
                    data: old(self)@.data.update(
                        place_of(old(self)@, indcs@),
                        (indcs@, *final(x)),
                    ),
                    ..old(self)@
                }),
                None => value_spec(old(self)@, indcs@) is None && final(self)@ == old(self)@,
            },
    {
        match search(self.data.as_slice(), &indcs) {
            Some(i) => {
                proof {
                    lemma_value_unique(self@, indcs@, i as int);
                }
                let ghost before = self.data@;
                let entry = &mut self.data[i];
                proof {
                    assert(entries(before.update(i as int, *final(entry))) =~= entries(
                        before,
                    ).update(i as int, (final(entry).0@, final(entry).1)));
                }
                Some(&mut entry.1)
            },
            None => None,
        }
    }
}

impl<T, const D: usize> Default for Coo<T, D> {
    fn default() -> (r: Self)
        ensures
            r@.dims == Seq::new(D as nat, |i: int| 0usize),
            r@.data.len() == 0,
            r.wf(),
    {
        let dims: [usize; D] = [0usize;D];
        assert(dims@ =~= Seq::new(D as nat, |i: int| 0usize));
        Coo { data: Vec::new(), dims }
    }
}

} // verus!
