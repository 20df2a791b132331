//! Strategies that find the district containing a position.
//!
//! The geometric tests (does a rectangle or a district contain the position,
//! does a district reach into a rectangle, how a rectangle is halved) work on
//! floating-point geometry and are supplied by the caller as closures. What is
//! verified here is everything else: which tests are made, in which order, and
//! which district is chosen from their answers.

use vstd::prelude::*;

pub mod binary_search;
pub mod naive_linear;

verus! {

/// `pred` may answer `b` when asked about `x`.
pub open spec fn answers<X, P: Fn(&X) -> bool>(pred: P, x: X, b: bool) -> bool {
    pred.ensures((&x,), b)
}

/// `pred` gives exactly one answer about `x`: it behaves as a function there.
pub open spec fn decides<X, P: Fn(&X) -> bool>(pred: P, x: X) -> bool {
    answers(pred, x, true) != answers(pred, x, false)
}

/// `pred` may answer `b` when asked about the pair `(x, y)`.
pub open spec fn answers2<X, Y, P: Fn(&X, &Y) -> bool>(pred: P, x: X, y: Y, b: bool) -> bool {
    pred.ensures((&x, &y), b)
}

} // verus!
