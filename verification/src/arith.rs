//! Arithmetic that the caller supplies.
//!
//! The library builds formulas and decides; the caller evaluates formulas in
//! the number type of its choice. `eval` takes a formula and the values of the
//! variables, by index.
use vstd::prelude::*;

use crate::expr::{Expr, Reading};

verus! {

/// Every formula can be evaluated.
pub open spec fn evaluates_all<T, E: Fn(&Expr<T>, &Vec<T>) -> T>(eval: E) -> bool {
    forall|e: &Expr<T>, vars: &Vec<T>| #[trigger] call_requires(eval, (e, vars))
}

/// The formula means the given function of what its leaves stand for.
pub open spec fn means<T>(e: Expr<T>, meaning: spec_fn(Reading<T>) -> real) -> bool {
    forall|at: Reading<T>| #[trigger] e.eval(at) == meaning(at)
}

/// `r` is what `eval` gives for a formula of the given meaning, with the given
/// values of the variables.
pub open spec fn computes<T, E: Fn(&Expr<T>, &Vec<T>) -> T>(
    eval: E,
    meaning: spec_fn(Reading<T>) -> real,
    vars: Seq<T>,
    r: T,
) -> bool {
    exists|e: Expr<T>, v: Vec<T>| #[trigger]
        call_ensures(eval, (&e, &v), r) && v@ == vars && means(e, meaning)
}

/// `r` is what `eval` gives for a formula, with the given values of the
/// variables.
pub open spec fn gives<T, E: Fn(&Expr<T>, &Vec<T>) -> T>(
    eval: E,
    e: Expr<T>,
    vars: Seq<T>,
    r: T,
) -> bool {
    exists|v: Vec<T>| #[trigger] call_ensures(eval, (&e, &v), r) && v@ == vars
}

/// The evaluation of a formula with the same values has one result.
pub open spec fn evaluates_alike<T, E: Fn(&Expr<T>, &Vec<T>) -> T>(eval: E) -> bool {
    forall|e: Expr<T>, vars: Seq<T>, a: T, b: T| #[trigger]
        gives(eval, e, vars, a) && #[trigger] gives(eval, e, vars, b) ==> a == b
}

/// The comparison of the same numbers has one result.
pub open spec fn compares_alike<T, L: Fn(&T, &T) -> bool>(less: L) -> bool {
    forall|a: &T, b: &T, x: bool, y: bool| #[trigger]
        call_ensures(less, (a, b), x) && #[trigger] call_ensures(less, (a, b), y) ==> x == y
}

/// Every pair of numbers can be compared.
pub open spec fn compares_all<T, L: Fn(&T, &T) -> bool>(less: L) -> bool {
    forall|a: &T, b: &T| #[trigger] call_requires(less, (a, b))
}

/// How distances are held against a limit and ordered.
pub struct Order<M, Q> {
    /// Whether one number is at most another.
    pub at_most: M,
    /// The place of a number in the order of all numbers.
    pub key: Q,
}

/// Every distance can be held against every limit, and has a place.
pub open spec fn orders_all<T, M: Fn(&T, &T) -> bool, Q: Fn(&T) -> i64>(
    order: Order<M, Q>,
) -> bool {
    &&& forall|a: &T, b: &T| #[trigger] call_requires(order.at_most, (a, b))
    &&& forall|a: &T| #[trigger] call_requires(order.key, (a,))
}

/// `rank` is the rank of a distance: its place in the order if it is found to
/// be at most the limit, else none.
pub open spec fn is_rank<T, M: Fn(&T, &T) -> bool, Q: Fn(&T) -> i64>(
    order: Order<M, Q>,
    distance: T,
    limit: T,
    rank: Option<i64>,
) -> bool {
    exists|within: bool| #[trigger]
        call_ensures(order.at_most, (&distance, &limit), within) && match rank {
            Some(place) => within && call_ensures(order.key, (&distance,), place),
            None => !within,
        }
}

/// The rank of a distance.
pub(crate) fn rank_within<T, M: Fn(&T, &T) -> bool, Q: Fn(&T) -> i64>(
    order: &Order<M, Q>,
    distance: &T,
    limit: &T,
) -> (rank: Option<i64>)
    requires
        orders_all(*order),
    ensures
        is_rank(*order, *distance, *limit, rank),
{
    if (order.at_most)(distance, limit) {
        Some((order.key)(distance))
    } else {
        None
    }
}

/// The index `i` has the smallest rank, and no smaller index has it too.
pub open spec fn is_first_least(ranks: Seq<Option<i64>>, i: int) -> bool {
    &&& 0 <= i < ranks.len()
    &&& ranks[i] is Some
    &&& forall|j: int|
        0 <= j < ranks.len() ==> (#[trigger] ranks[j] matches Some(other) ==> ranks[i]->Some_0
            <= other && (j < i ==> ranks[i]->Some_0 < other))
}

/// Position of a number in the total order of double precision numbers, from
/// the bits of its format: a sign and a magnitude.
pub open spec fn place_of_bits(bits: u64) -> int {
    if bits < 0x8000_0000_0000_0000 {
        bits as int
    } else {
        0x7fff_ffff_ffff_ffff - bits
    }
}

/// The position of a number in the total order of double precision numbers.
/// Negative numbers come before positive ones, and of two negative numbers the
/// one of larger magnitude comes first.
pub fn order_key(bits: u64) -> (key: i64)
    ensures
        key == place_of_bits(bits),
{
    if bits < 0x8000_0000_0000_0000 {
        bits as i64
    } else {
        let magnitude: i64 = (bits - 0x8000_0000_0000_0000) as i64;
        -1 - magnitude
    }
}

/// Index of the first smallest rank, if there is any.
pub fn first_least(ranks: &Vec<Option<i64>>) -> (index: Option<usize>)
    ensures
        match index {
            Some(i) => is_first_least(ranks@, i as int),
            None => forall|j: int| 0 <= j < ranks@.len() ==> #[trigger] ranks@[j] is None,
        },
{
    let mut best: Option<(usize, i64)> = None;
    let mut i: usize = 0;
    while i < ranks.len()
        invariant
            i <= ranks@.len(),
            match best {
                Some((b, rank)) => b < i && ranks@[b as int] == Some(rank) && is_first_least(
                    ranks@.take(i as int),
                    b as int,
                ),
                None => forall|j: int| 0 <= j < i ==> #[trigger] ranks@[j] is None,
            },
        decreases ranks@.len() - i,
    {
        let ghost shorter = ranks@.take(i as int);
        let ghost longer = ranks@.take(i + 1);
        if let Some(rank) = ranks[i] {
            let better = match best {
                Some((_, least)) => rank < least,
                None => true,
            };
            if better {
                best = Some((i, rank));
            }
        }
        proof {
            assert forall|j: int| 0 <= j < i implies #[trigger] longer[j] == shorter[j] by {}
            assert(longer[i as int] == ranks@[i as int]);
            if best is Some {
                let b = best->Some_0.0 as int;
                assert forall|j: int| 0 <= j < longer.len() implies (
                #[trigger] longer[j] matches Some(other) ==> longer[b]->Some_0 <= other && (j < b
                    ==> longer[b]->Some_0 < other)) by {
                    if j < i {
                        assert(longer[j] == shorter[j]);
                    }
                }
            }
        }
        i = i + 1;
    }
    assert(ranks@.take(i as int) =~= ranks@);
    match best {
        Some((b, _)) => Some(b),
        None => None,
    }
}

/// `r` is the reciprocal of a positive integer.
pub open spec fn is_reciprocal<T, E: Fn(&Expr<T>, &Vec<T>) -> T>(eval: E, n: i64, r: T) -> bool {
    &&& computes(eval, |at: Reading<T>| 1real / ((n as int) as real), Seq::empty(), r)
    &&& gives(eval, Expr::Ratio(1, n), Seq::empty(), r)
}

/// `zero` is what `eval` gives for nothing.
pub open spec fn is_zero<T, E: Fn(&Expr<T>, &Vec<T>) -> T>(eval: E, zero: T) -> bool {
    &&& computes(eval, |at: Reading<T>| 0real, Seq::empty(), zero)
    &&& gives(eval, Expr::Ratio(0, 1), Seq::empty(), zero)
}

/// Evaluates a formula without variables.
pub(crate) fn eval_closed<T: Copy, E: Fn(&Expr<T>, &Vec<T>) -> T>(
    eval: &E,
    e: Expr<T>,
    Ghost(meaning): Ghost<spec_fn(Reading<T>) -> real>,
) -> (r: T)
    requires
        evaluates_all(*eval),
        means(e, meaning),
    ensures
        computes(*eval, meaning, Seq::empty(), r),
        gives(*eval, e, Seq::empty(), r),
{
    let none: Vec<T> = Vec::new();
    assert(none@ =~= Seq::<T>::empty());
    eval(&e, &none)
}

/// The reciprocal of a positive integer.
pub(crate) fn reciprocal<T: Copy, E: Fn(&Expr<T>, &Vec<T>) -> T>(eval: &E, n: i64) -> (r: T)
    requires
        evaluates_all(*eval),
    ensures
        is_reciprocal(*eval, n, r),
{
    assert((1 as int) as real == 1real);
    eval_closed(eval, Expr::ratio(1, n), Ghost(|at: Reading<T>| 1real / ((n as int) as real)))
}

/// Zero.
pub(crate) fn nothing<T: Copy, E: Fn(&Expr<T>, &Vec<T>) -> T>(eval: &E) -> (zero: T)
    requires
        evaluates_all(*eval),
    ensures
        is_zero(*eval, zero),
{
    assert((0 as int) as real / (1 as int) as real == 0real);
    eval_closed(eval, Expr::ratio(0, 1), Ghost(|at: Reading<T>| 0real))
}

} // verus!
