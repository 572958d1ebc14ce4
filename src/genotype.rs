//! What every evolvable representation offers the engine.

use vstd::prelude::*;

verus! {

/// The encoded model for the characteristics of a solution. Fitness is not
/// part of it: the engine is handed one integer score per individual.
pub trait Genotype: Sized + View {
    /// A well-formed genome.
    spec fn valid(v: Self::V) -> bool;

    /// Two genomes of one problem instance, which may be recombined.
    spec fn compatible(a: Self::V, b: Self::V) -> bool;

    /// `c0` and `c1` are a pair of children that crossover may produce
    /// from `x` and `y`.
    spec fn offspring(x: Self, y: Self, c0: Self, c1: Self) -> bool;

    /// `child` is an outcome that mutation may produce from `parent`.
    spec fn mutant(parent: Self, child: Self) -> bool;

    proof fn lemma_compatible(a: Self::V, b: Self::V, c: Self::V)
        ensures
            Self::valid(a) ==> Self::compatible(a, a),
            Self::compatible(a, b) ==> Self::compatible(b, a),
            Self::compatible(a, b) && Self::compatible(b, c) ==> Self::compatible(a, c),
    ;

    /// Generates two offspring of two parents.
    fn crossover(x: &Self, y: &Self) -> (r: (Self, Self))
        requires
            Self::valid(x@),
            Self::valid(y@),
            Self::compatible(x@, y@),
        ensures
            Self::valid(r.0@),
            Self::valid(r.1@),
            Self::compatible(x@, r.0@),
            Self::compatible(x@, r.1@),
            Self::offspring(*x, *y, r.0, r.1),
    ;

    /// A randomised change, possibly none.
    fn mutation(&self) -> (r: Self)
        requires
            Self::valid(self@),
        ensures
            Self::valid(r@),
            Self::compatible(self@, r@),
            Self::mutant(*self, r),
    ;

    /// An unchanged copy.
    fn duplicate(&self) -> (r: Self)
        ensures
            r@ == self@,
    ;
}

/// A genome that can be drawn at random, for populating an empty generation.
pub trait RandomGenotype: Genotype {
    fn random() -> (r: Self)
        ensures
            Self::valid(r@),
            forall|v: Self::V| Self::valid(v) ==> Self::compatible(v, r@),
    ;
}

} // verus!
