//! Logical formulas: free names, fresh names, capture-avoiding
//! substitution, first-order unification up to renaming of bound names, a
//! fixed-point tree transformer and the normalization passes built on it.
use vstd::prelude::*;

pub mod expr;
pub mod names;
pub mod subst;
pub mod unify;
pub mod unify_laws;
pub mod order;
pub mod expression_builders;
pub mod transform;
pub mod normalize;
pub mod fixpoint;
pub mod display;

verus! {

} // verus!
