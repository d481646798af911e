//! Order and search over the entries of a `Coo`.

use crate::dims::lex_lt;
use vstd::prelude::*;

verus! {

/// How two indices stand to each other in lexicographic order.
#[derive(Debug, PartialEq, Eq, Clone, Copy)]
pub enum Order {
    /// The first comes before the second.
    Before,
    /// The two are the same.
    Same,
    /// The first comes after the second.
    After,
}

/// Lexicographic order is transitive.
pub proof fn lemma_lex_lt_transitive(a: Seq<usize>, b: Seq<usize>, c: Seq<usize>)
    requires
        lex_lt(a, b),
        lex_lt(b, c),
    ensures
        lex_lt(a, c),
{
    let k1 = choose|k: int|
        0 <= k < a.len() && k < b.len() && a[k] < b[k] && (forall|i: int|
            0 <= i < k ==> a[i] == b[i]);
    let k2 = choose|k: int|
        0 <= k < b.len() && k < c.len() && b[k] < c[k] && (forall|i: int|
            0 <= i < k ==> b[i] == c[i]);
    let k = if k1 < k2 {
        k1
    } else {
        k2
    };
    assert(0 <= k < a.len() && k < c.len() && a[k] < c[k] && (forall|i: int|
        0 <= i < k ==> a[i] == c[i]));
}

/// No index comes before itself.
pub proof fn lemma_lex_lt_irreflexive(a: Seq<usize>, b: Seq<usize>)
    requires
        lex_lt(a, b),
    ensures
        a != b,
        !lex_lt(b, a),
{
    let k1 = choose|k: int|
        0 <= k < a.len() && k < b.len() && a[k] < b[k] && (forall|i: int|
            0 <= i < k ==> a[i] == b[i]);
    if lex_lt(b, a) {
        let k2 = choose|k: int|
            0 <= k < b.len() && k < a.len() && b[k] < a[k] && (forall|i: int|
                0 <= i < k ==> b[i] == a[i]);
        if k1 < k2 {
            assert(b[k1] == a[k1]);
        } else if k2 < k1 {
            assert(a[k2] == b[k2]);
        }
    }
}

/// Compares two indices in lexicographic order.
pub fn lex_order<const D: usize>(a: &[usize; D], b: &[usize; D]) -> (r: Order)
    ensures
        r == Order::Before <==> lex_lt(a@, b@),
        r == Order::Same <==> a@ == b@,
        r == Order::After <==> lex_lt(b@, a@),
{
    let mut k: usize = 0;
    while k < D
        invariant
            k <= D,
            forall|i: int| 0 <= i < k ==> a@[i] == b@[i],
        decreases D - k,
    {
        if a[k] < b[k] {
            assert(0 <= k < a@.len() && k < b@.len() && a@[k as int] < b@[k as int] && (forall|
                i: int,
            | 0 <= i < k ==> a@[i] == b@[i]));
            proof {
                lemma_lex_lt_irreflexive(a@, b@);
            }
            return Order::Before;
        }
        if a[k] > b[k] {
            assert(0 <= k < b@.len() && k < a@.len() && b@[k as int] < a@[k as int] && (forall|
                i: int,
            | 0 <= i < k ==> b@[i] == a@[i]));
            proof {
                lemma_lex_lt_irreflexive(b@, a@);
            }
            return Order::After;
        }
        k += 1;
    }
    assert(a@ =~= b@);
    proof {
        if lex_lt(a@, b@) {
            lemma_lex_lt_irreflexive(a@, b@);
        }
        if lex_lt(b@, a@) {
            lemma_lex_lt_irreflexive(b@, a@);
        }
    }
    Order::Same
}

/// Tells whether `cb` holds of every entry and the one after it. For a
/// sorted slice and a `cb` that tells two entries apart, that is whether no
/// entry occurs twice.
pub fn does_not_have_duplicates_sorted<F, T>(slice: &[T], cb: F) -> (r: bool) where
    F: Fn(&T, &T) -> bool,

    requires
        forall|i: int|
            #![trigger slice@[i]]
            0 <= i < slice@.len() - 1 ==> call_requires(cb, (&slice@[i], &slice@[i + 1])),
    ensures
        r ==> forall|i: int|
            #![trigger slice@[i]]
            0 <= i < slice@.len() - 1 ==> call_ensures(cb, (&slice@[i], &slice@[i + 1]), true),
        !r ==> exists|i: int|
            #![trigger slice@[i]]
            0 <= i < slice@.len() - 1 && call_ensures(cb, (&slice@[i], &slice@[i + 1]), false),
{
    let n: usize = slice.len();
    if n < 2 {
        return true;
    }
    let mut i: usize = 0;
    while i < n - 1
        invariant
            n >= 2,
            i <= n - 1,
            n == slice@.len(),
            forall|k: int|
                #![trigger slice@[k]]
                0 <= k < slice@.len() - 1 ==> call_requires(cb, (&slice@[k], &slice@[k + 1])),
            forall|k: int|
                #![trigger slice@[k]]
                0 <= k < i ==> call_ensures(cb, (&slice@[k], &slice@[k + 1]), true),
        decreases n - 1 - i,
    {
        if !cb(&slice[i], &slice[i + 1]) {
            return false;
        }
        i += 1;
    }
    true
}

} // verus!
