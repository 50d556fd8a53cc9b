//! Laws of what formulas mean.
use vstd::prelude::*;

use crate::expr::{Expr, Reading};
use crate::ids::VarId;
use crate::laws::reals::lemma_root_is;

verus! {

/// Formulas mean what they are named after. `r` is a number that is not
/// negative.
pub proof fn lemma_operations<T>(at: Reading<T>, a: Box<Expr<T>>, b: Box<Expr<T>>, r: real)
    requires
        r >= 0real,
    ensures
        ({
            let (x, y) = ((*a).eval(at), (*b).eval(at));
            &&& Expr::Neg(a).eval(at) + x == 0real
            &&& Expr::Add(a, b).eval(at) == x + y
            &&& Expr::Sub(a, b).eval(at) + y == x
            &&& Expr::Mul(a, b).eval(at) == x * y
            &&& Expr::Div(a, b).eval(at) == x / y
            &&& x == r * r ==> Expr::Sqrt(a).eval(at) == r
            &&& x == r || x == -r ==> Expr::Abs(a).eval(at) == r
            &&& Expr::Max(a, b).eval(at) >= x && Expr::Max(a, b).eval(at) >= y
            &&& Expr::Max(a, b).eval(at) == x || Expr::Max(a, b).eval(at) == y
            &&& 0real <= Expr::Clamp(a).eval(at) <= 1real
            &&& 0real <= x <= 1real ==> Expr::Clamp(a).eval(at) == x
            &&& x < 0real ==> Expr::Clamp(a).eval(at) == 0real
            &&& x > 1real ==> Expr::Clamp(a).eval(at) == 1real
        }),
{
    let x = (*a).eval(at);
    if x == r * r {
        lemma_root_is(r, x);
    }
}

/// The leaves of formulas mean what they stand for, and a choice between two
/// formulas depends on whether a third one is tiny.
pub proof fn lemma_leaves<T>(
    at: Reading<T>,
    t: T,
    v: VarId,
    n: i64,
    test: Box<Expr<T>>,
    a: Box<Expr<T>>,
    b: Box<Expr<T>>,
)
    ensures
        Expr::Value(t).eval(at) == (at.num)(t),
        Expr::<T>::Var(v).eval(at) == (at.env)(v),
        Expr::<T>::Ratio(n, 1).eval(at) == (n as int) as real,
        n > 0 ==> Expr::<T>::Ratio(1, n).eval(at) == 1real / ((n as int) as real),
        (*test).eval(at) <= 1real / 4503599627370496real ==> Expr::IfTiny(test, a, b).eval(at)
            == (*a).eval(at),
        (*test).eval(at) > 1real / 4503599627370496real ==> Expr::IfTiny(test, a, b).eval(at)
            == (*b).eval(at),
{
    let x = (n as int) as real;
    assert((1i64 as int) as real == 1real);
    assert(x / 1real == x) by (nonlinear_arith);
}

} // verus!
