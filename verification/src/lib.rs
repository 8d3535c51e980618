//! Structural core of the eigenfunction-policy library: the index logic of
//! Dirichlet (absorbing) boundaries and the transition graphs of the
//! grid-world and chain MDPs.  Matrix entries are carried generically and
//! never computed on here.
use vstd::prelude::*;

pub mod dirichlet;
pub mod linear_mdp;

verus! {

} // verus!
