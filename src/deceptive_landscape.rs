//! The deceptive landscape: like target matching, except that a string
//! agreeing with the pattern nowhere scores the full length, a local
//! optimum that attracts the search away from the global one.

use vstd::prelude::*;

use crate::bitstring::{
    agreements, check_bitstring, count_matches, flip_bit, flipped_at_most_once, is_bitstring,
    random_bits, random_flip, random_splice, splice, spliced_at_some_cut, target, target_pattern,
    GENOME_LENGTH,
};
use crate::genotype::{Genotype, RandomGenotype};

verus! {

/// The agreement with the reference pattern, or the length when it is zero.
pub open spec fn deceptive_fitness(s: Seq<u8>) -> nat {
    let agree = agreements(s, target(), s.len() as int);
    if agree > 0 {
        agree
    } else {
        s.len()
    }
}

/// A bitstring of `GENOME_LENGTH` digits with the deceptive fitness.
#[derive(Debug, Clone)]
pub struct DeceptiveString(Vec<u8>);

impl View for DeceptiveString {
    type V = Seq<u8>;

    closed spec fn view(&self) -> Seq<u8> {
        self.0@
    }
}

impl DeceptiveString {
    /// The genome with the given digits, if they are `GENOME_LENGTH` zeros
    /// and ones.
    pub fn from_bits(bits: Vec<u8>) -> (r: Option<DeceptiveString>)
        ensures
            r is Some <==> is_bitstring(bits@),
            r matches Some(g) ==> g@ == bits@,
    {
        if check_bitstring(&bits) {
            Some(DeceptiveString(bits))
        } else {
            None
        }
    }

    /// The digits of the genome.
    pub fn bits(&self) -> (r: &Vec<u8>)
        ensures
            r@ == self@,
    {
        &self.0
    }

    /// The number of positions that agree with the reference pattern, or
    /// the genome's length when there is none.
    pub fn fitness(&self) -> (r: u64)
        requires
            is_bitstring(self@),
        ensures
            r == deceptive_fitness(self@),
    {
        let pattern = target_pattern();
        let agree = count_matches(&self.0, &pattern);
        if agree > 0 {
            agree
        } else {
            self.0.len() as u64
        }
    }

    /// Single-point crossover at cut index `index`.
    pub fn crossover_at(x: &DeceptiveString, y: &DeceptiveString, index: usize) -> (r: (DeceptiveString, DeceptiveString))
        requires
            is_bitstring(x@),
            is_bitstring(y@),
            index <= GENOME_LENGTH,
        ensures
            r.0@ == x@.subrange(0, index as int) + y@.subrange(index as int, GENOME_LENGTH as int),
            r.1@ == y@.subrange(0, index as int) + x@.subrange(index as int, GENOME_LENGTH as int),
    {
        let (c0, c1) = splice(&x.0, &y.0, index);
        (DeceptiveString(c0), DeceptiveString(c1))
    }

    /// The genome with the digit at `index` flipped.
    pub fn flip(&self, index: usize) -> (r: DeceptiveString)
        requires
            is_bitstring(self@),
            index < GENOME_LENGTH,
        ensures
            r@ == self@.update(index as int, (1 - self@[index as int]) as u8),
    {
        DeceptiveString(flip_bit(&self.0, index))
    }
}

impl Genotype for DeceptiveString {
    open spec fn valid(v: Seq<u8>) -> bool {
        is_bitstring(v)
    }

    open spec fn compatible(a: Seq<u8>, b: Seq<u8>) -> bool {
        a.len() == b.len()
    }

    /// The two splices of the parents at some cut index.
    open spec fn offspring(x: Self, y: Self, c0: Self, c1: Self) -> bool {
        spliced_at_some_cut(x@, y@, c0@, c1@)
    }

    /// The parent, or the parent with one digit flipped.
    open spec fn mutant(parent: Self, child: Self) -> bool {
        flipped_at_most_once(parent@, child@)
    }

    proof fn lemma_compatible(a: Seq<u8>, b: Seq<u8>, c: Seq<u8>) {
    }

    /// Single-point crossover at a uniformly random cut index.
    fn crossover(x: &Self, y: &Self) -> (r: (Self, Self)) {
        let (c0, c1) = random_splice(&x.0, &y.0);
        (DeceptiveString(c0), DeceptiveString(c1))
    }

    /// With probability one in a hundred, flips one uniformly chosen digit.
    fn mutation(&self) -> (r: Self) {
        DeceptiveString(random_flip(&self.0))
    }

    fn duplicate(&self) -> (r: Self) {
        let bits = self.0.clone();
        assert(bits@ =~= self.0@);
        DeceptiveString(bits)
    }
}

impl RandomGenotype for DeceptiveString {
    /// Each digit independently 0 or 1 with even chance.
    fn random() -> (r: Self) {
        DeceptiveString(random_bits())
    }
}

} // verus!
