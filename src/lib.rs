//! Computations with finite groups given by generators: stabilizer chains
//! (Schreier-Sims), membership tests and words that certify membership.
use vstd::prelude::*;

pub mod group;
