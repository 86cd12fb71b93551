//! The expression engine of a pocket calculator: a flat buffer of numbers and the
//! operators `+ - x / ^` is checked and split into tokens (`expression`), with the
//! character classes and the precedence table in `classify`, and rewritten in postfix
//! order (`postfix`), ready to be run on a stack of values.

use vstd::prelude::*;

pub mod classify;
pub mod expression;
pub mod postfix;

verus! {

} // verus!
