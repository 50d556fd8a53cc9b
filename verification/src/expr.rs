//! Numeric formulas as data.
//!
//! The library states which numbers are to be computed and leaves the number
//! type open. A formula is an [`Expr`] over values of that type and over the
//! variables of a sketch; whoever owns the number type evaluates it, operation
//! by operation in the order in which the formula is written. What a formula
//! means is its value over the real numbers.
use vstd::prelude::*;

use crate::ids::VarId;

verus! {

/// A formula over values of type `T` and variables.
#[derive(Debug)]
pub enum Expr<T> {
    /// The quotient of two integers.
    Ratio(i64, i64),
    /// A given value.
    Value(T),
    /// The value of a variable.
    Var(VarId),
    /// Negation.
    Neg(Box<Expr<T>>),
    /// Sum.
    Add(Box<Expr<T>>, Box<Expr<T>>),
    /// Difference.
    Sub(Box<Expr<T>>, Box<Expr<T>>),
    /// Product.
    Mul(Box<Expr<T>>, Box<Expr<T>>),
    /// Quotient.
    Div(Box<Expr<T>>, Box<Expr<T>>),
    /// Non-negative square root.
    Sqrt(Box<Expr<T>>),
    /// Absolute value.
    Abs(Box<Expr<T>>),
    /// The larger of two numbers.
    Max(Box<Expr<T>>, Box<Expr<T>>),
    /// The nearest number between zero and one.
    Clamp(Box<Expr<T>>),
    /// The second formula where the first is at most the machine epsilon,
    /// else the third.
    IfTiny(Box<Expr<T>>, Box<Expr<T>>, Box<Expr<T>>),
}

/// The non-negative square root of a real number.
pub open spec fn root(x: real) -> real {
    choose|r: real| is_root(r, x)
}

/// `r` is the non-negative square root of `x`.
pub open spec fn is_root(r: real, x: real) -> bool {
    r >= 0real && r * r == x
}

/// The absolute value of a real number.
pub open spec fn magnitude(x: real) -> real {
    if x < 0real {
        -x
    } else {
        x
    }
}

/// The larger of two real numbers.
pub open spec fn larger(x: real, y: real) -> real {
    if x < y {
        y
    } else {
        x
    }
}

/// The number between zero and one that is nearest to `x`.
pub open spec fn clamped(x: real) -> real {
    if x < 0real {
        0real
    } else if x > 1real {
        1real
    } else {
        x
    }
}

/// The machine epsilon of the double precision format.
pub open spec fn epsilon() -> real {
    1real / 4503599627370496real
}

/// What the leaves of a formula stand for: the real number behind each value
/// of the number type, and behind each variable.
#[verifier::reject_recursive_types(T)]
pub struct Reading<T> {
    /// The real number that a value stands for.
    pub num: spec_fn(T) -> real,
    /// The real number that a variable stands for.
    pub env: spec_fn(VarId) -> real,
}

impl<T> Expr<T> {
    /// The real number that the formula denotes.
    pub open spec fn eval(self, at: Reading<T>) -> real
        decreases self,
    {
        match self {
            Expr::Ratio(n, d) => (n as int) as real / (d as int) as real,
            Expr::Value(v) => (at.num)(v),
            Expr::Var(id) => (at.env)(id),
            Expr::Neg(a) => -a.eval(at),
            Expr::Add(a, b) => a.eval(at) + b.eval(at),
            Expr::Sub(a, b) => a.eval(at) - b.eval(at),
            Expr::Mul(a, b) => a.eval(at) * b.eval(at),
            Expr::Div(a, b) => a.eval(at) / b.eval(at),
            Expr::Sqrt(a) => root(a.eval(at)),
            Expr::Abs(a) => magnitude(a.eval(at)),
            Expr::Max(a, b) => larger(a.eval(at), b.eval(at)),
            Expr::Clamp(a) => clamped(a.eval(at)),
            Expr::IfTiny(test, small, large) => if test.eval(at) <= epsilon() {
                small.eval(at)
            } else {
                large.eval(at)
            },
        }
    }

    /// `n / d`.
    pub fn ratio(n: i64, d: i64) -> (e: Expr<T>)
        ensures
            e == Expr::<T>::Ratio(n, d),
            forall|at: Reading<T>| #[trigger]
                e.eval(at) == (n as int) as real / (d as int) as real,
    {
        Expr::Ratio(n, d)
    }

    /// A given value.
    pub fn value(v: T) -> (e: Expr<T>)
        ensures
            e == Expr::Value(v),
            forall|at: Reading<T>| #[trigger] e.eval(at) == (at.num)(v),
    {
        Expr::Value(v)
    }

    /// The value of a variable.
    pub fn var(id: VarId) -> (e: Expr<T>)
        ensures
            e == Expr::<T>::Var(id),
            forall|at: Reading<T>| #[trigger] e.eval(at) == (at.env)(id),
    {
        Expr::Var(id)
    }

    /// `-a`.
    pub fn negated(a: Expr<T>) -> (e: Expr<T>)
        ensures
            e == Expr::Neg(Box::new(a)),
            forall|at: Reading<T>| #[trigger] e.eval(at) == -a.eval(at),
    {
        Expr::Neg(Box::new(a))
    }

    /// `a + b`.
    pub fn sum(a: Expr<T>, b: Expr<T>) -> (e: Expr<T>)
        ensures
            e == Expr::Add(Box::new(a), Box::new(b)),
            forall|at: Reading<T>| #[trigger] e.eval(at) == a.eval(at) + b.eval(at),
    {
        Expr::Add(Box::new(a), Box::new(b))
    }

    /// `a - b`.
    pub fn difference(a: Expr<T>, b: Expr<T>) -> (e: Expr<T>)
        ensures
            e == Expr::Sub(Box::new(a), Box::new(b)),
            forall|at: Reading<T>| #[trigger] e.eval(at) == a.eval(at) - b.eval(at),
    {
        Expr::Sub(Box::new(a), Box::new(b))
    }

    /// `a * b`.
    pub fn product(a: Expr<T>, b: Expr<T>) -> (e: Expr<T>)
        ensures
            e == Expr::Mul(Box::new(a), Box::new(b)),
            forall|at: Reading<T>| #[trigger] e.eval(at) == a.eval(at) * b.eval(at),
    {
        Expr::Mul(Box::new(a), Box::new(b))
    }

    /// `a / b`.
    pub fn quotient(a: Expr<T>, b: Expr<T>) -> (e: Expr<T>)
        ensures
            e == Expr::Div(Box::new(a), Box::new(b)),
            forall|at: Reading<T>| #[trigger] e.eval(at) == a.eval(at) / b.eval(at),
    {
        Expr::Div(Box::new(a), Box::new(b))
    }

    /// The square root of `a`.
    pub fn sqrt(a: Expr<T>) -> (e: Expr<T>)
        ensures
            e == Expr::Sqrt(Box::new(a)),
            forall|at: Reading<T>| #[trigger] e.eval(at) == root(a.eval(at)),
    {
        Expr::Sqrt(Box::new(a))
    }

    /// The absolute value of `a`.
    pub fn abs(a: Expr<T>) -> (e: Expr<T>)
        ensures
            e == Expr::Abs(Box::new(a)),
            forall|at: Reading<T>| #[trigger] e.eval(at) == magnitude(a.eval(at)),
    {
        Expr::Abs(Box::new(a))
    }

    /// The larger of `a` and `b`.
    pub fn max_of(a: Expr<T>, b: Expr<T>) -> (e: Expr<T>)
        ensures
            e == Expr::Max(Box::new(a), Box::new(b)),
            forall|at: Reading<T>| #[trigger] e.eval(at) == larger(a.eval(at), b.eval(at)),
    {
        Expr::Max(Box::new(a), Box::new(b))
    }

    /// `a` clamped to the range from zero to one.
    pub fn clamp(a: Expr<T>) -> (e: Expr<T>)
        ensures
            e == Expr::Clamp(Box::new(a)),
            forall|at: Reading<T>| #[trigger] e.eval(at) == clamped(a.eval(at)),
    {
        Expr::Clamp(Box::new(a))
    }

    /// `small` where `test` is at most the machine epsilon, else `large`.
    pub fn if_tiny(test: Expr<T>, small: Expr<T>, large: Expr<T>) -> (e: Expr<T>)
        ensures
            e == Expr::IfTiny(Box::new(test), Box::new(small), Box::new(large)),
            forall|at: Reading<T>| #[trigger]
                e.eval(at) == (if test.eval(at) <= epsilon() {
                    small.eval(at)
                } else {
                    large.eval(at)
                }),
    {
        Expr::IfTiny(Box::new(test), Box::new(small), Box::new(large))
    }
}

} // verus!
