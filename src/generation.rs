//! The generational engine: a population of fixed size, evaluated from
//! integer fitness scores, carried from one epoch to the next by elitism,
//! binary tournaments, crossover and mutation.

use vstd::prelude::*;

use crate::genotype::{Genotype, RandomGenotype};
use crate::random::random_in;
use crate::ConfigError;

verus! {

broadcast use vstd::seq_lib::group_to_multiset_ensures;

/// The number of best individuals carried unchanged into the next generation.
pub const ELITE_COUNT: usize = 5;

/// Whether a higher or a lower fitness is better.
#[derive(Debug, Clone, Copy, PartialEq, Eq, Structural)]
pub enum FitnessOrder {
    Max,
    Min,
}

/// Fitness `a` is strictly better than fitness `b`.
pub open spec fn better(order: FitnessOrder, a: u64, b: u64) -> bool {
    match order {
        FitnessOrder::Max => a > b,
        FitnessOrder::Min => a < b,
    }
}

/// A key under which the better fitness is the smaller.
pub open spec fn rank_key(order: FitnessOrder, s: u64) -> u64 {
    match order {
        FitnessOrder::Max => (u64::MAX - s) as u64,
        FitnessOrder::Min => s,
    }
}

/// Lexicographic order on (key, index) pairs.
pub open spec fn pair_le(a: (u64, usize), b: (u64, usize)) -> bool {
    a.0 < b.0 || (a.0 == b.0 && a.1 <= b.1)
}

/// The ranking entry of individual `q`.
pub open spec fn entry(scores: Seq<u64>, order: FitnessOrder, q: int) -> (u64, usize) {
    (rank_key(order, scores[q]), q as usize)
}

/// `e` lists, best first, the `ELITE_COUNT` best individuals by `scores`,
/// ties going to the earlier position.
pub open spec fn is_elite(scores: Seq<u64>, order: FitnessOrder, e: Seq<usize>) -> bool {
    &&& e.len() == ELITE_COUNT
    &&& forall|r: int| 0 <= r < e.len() ==> #[trigger] e[r] < scores.len()
    &&& forall|r1: int, r2: int|
        0 <= r1 < r2 < e.len() ==> pair_le(
            entry(scores, order, e[r1] as int),
            entry(scores, order, e[r2] as int),
        ) && e[r1] != e[r2]
    &&& forall|q: int|
        0 <= q < scores.len() && !e.contains(q as usize) ==> pair_le(
            entry(scores, order, e[ELITE_COUNT - 1] as int),
            #[trigger] entry(scores, order, q),
        )
}

/// `v` is the best of `scores`.
pub open spec fn is_best_value(scores: Seq<u64>, order: FitnessOrder, v: u64) -> bool {
    &&& scores.contains(v)
    &&& forall|p: int| 0 <= p < scores.len() ==> !better(order, #[trigger] scores[p], v)
}

/// `q` is the first position holding the best of `scores`.
pub open spec fn is_first_best(scores: Seq<u64>, order: FitnessOrder, q: int) -> bool {
    &&& 0 <= q < scores.len()
    &&& forall|p: int| 0 <= p < scores.len() ==> !better(order, #[trigger] scores[p], scores[q])
    &&& forall|p: int| 0 <= p < q ==> better(order, scores[q], #[trigger] scores[p])
}

/// The sum of the first `len` scores.
pub open spec fn sum_scores(scores: Seq<u64>, len: int) -> nat
    decreases len,
{
    if len <= 0 {
        0
    } else {
        sum_scores(scores, len - 1) + scores[len - 1] as nat
    }
}

/// The next population keeps the elite of the current one, by `scores`, in
/// its first `ELITE_COUNT` places.
pub open spec fn carries_elite<V>(current: Seq<V>, next: Seq<V>, scores: Seq<u64>, order: FitnessOrder) -> bool {
    exists|e: Seq<usize>|
        is_elite(scores, order, e) && forall|r: int| 0 <= r < ELITE_COUNT ==> #[trigger] next[r]
            == current[e[r] as int]
}

/// Position `r` of `next` holds a mutant of the first child, and position
/// `r + 1`, where there is one, a mutant of the second child, of a
/// crossover between two members of the selected pool `next[0..half)`.
pub open spec fn bred<T: Genotype>(next: Seq<T>, half: int, r: int) -> bool {
    exists|a: int, b: int, c0: T, c1: T|
        0 <= a < half && 0 <= b < half && #[trigger] T::offspring(next[a], next[b], c0, c1)
            && T::mutant(c0, next[r]) && (r + 1 < next.len() ==> T::mutant(c1, next[r + 1]))
}

proof fn lemma_bred_push<T: Genotype>(next: Seq<T>, item: T, half: int, r: int)
    requires
        bred(next, half, r),
        0 <= half <= r,
        r + 1 < next.len(),
    ensures
        bred(next.push(item), half, r),
{
    let (a, b, c0, c1) = choose|a: int, b: int, c0: T, c1: T|
        0 <= a < half && 0 <= b < half && #[trigger] T::offspring(next[a], next[b], c0, c1)
            && T::mutant(c0, next[r]) && (r + 1 < next.len() ==> T::mutant(c1, next[r + 1]));
    let grown = next.push(item);
    assert(grown[a] == next[a] && grown[b] == next[b] && grown[r] == next[r] && grown[r + 1] == next[r + 1]);
    assert(T::offspring(grown[a], grown[b], c0, c1));
}

/// The mean of the fitness scores of one epoch, as a sum and a count.
#[derive(Debug, Clone, Copy, PartialEq, Eq, Structural)]
pub struct Mean {
    pub sum: u128,
    pub count: usize,
}

/// One generation of a population of genomes of one type.
#[derive(Debug)]
pub struct Generation<T> {
    population: Vec<T>,
    fitness_total: u128,
    population_size: usize,
    order: FitnessOrder,
}

impl<T: Genotype> Generation<T> {
    /// The genome values, in population order.
    pub closed spec fn members(&self) -> Seq<T> {
        self.population@
    }

    /// The genomes, in population order.
    pub closed spec fn individuals(&self) -> Seq<T::V> {
        Seq::new(self.population@.len(), |i: int| self.population@[i]@)
    }

    pub closed spec fn spec_population_size(&self) -> nat {
        self.population_size as nat
    }

    pub closed spec fn spec_order(&self) -> FitnessOrder {
        self.order
    }

    /// The sum of the scores of the last epoch.
    pub closed spec fn spec_fitness_total(&self) -> nat {
        self.fitness_total as nat
    }

    /// Every genome is valid and any two may be recombined; the population
    /// never outgrows its target size.
    pub open spec fn wf(&self) -> bool {
        &&& self.spec_population_size() >= 2 * ELITE_COUNT
        &&& self.individuals().len() <= self.spec_population_size()
        &&& forall|i: int|
            0 <= i < self.individuals().len() ==> T::valid(#[trigger] self.individuals()[i])
        &&& forall|i: int, j: int|
            0 <= i < self.individuals().len() && 0 <= j < self.individuals().len()
                ==> T::compatible(#[trigger] self.individuals()[i], #[trigger] self.individuals()[j])
    }

    /// An empty generation of target size `size`, under `order`. A size
    /// below twice the elite count cannot be filled by elitism and
    /// tournaments, and is refused.
    pub fn new(size: usize, order: FitnessOrder) -> (r: Result<Generation<T>, ConfigError>)
        ensures
            size < 2 * ELITE_COUNT <==> r is Err,
            r is Err ==> r == Err::<Generation<T>, ConfigError>(ConfigError::PopulationTooSmall),
            r matches Ok(g) ==> g.wf() && g.individuals().len() == 0 && g.spec_population_size()
                == size && g.spec_order() == order && g.spec_fitness_total() == 0,
    {
        if size < 2 * ELITE_COUNT {
            return Err(ConfigError::PopulationTooSmall);
        }
        let g = Generation { population: Vec::new(), fitness_total: 0, population_size: size, order };
        assert(g.individuals() =~= Seq::<T::V>::empty());
        Ok(g)
    }

    /// The mean fitness of the last epoch, as the sum of its scores over
    /// the population size.
    pub fn get_average_fitness(&self) -> (r: Mean)
        ensures
            r.sum == self.spec_fitness_total(),
            r.count == self.spec_population_size(),
    {
        Mean { sum: self.fitness_total, count: self.population_size }
    }

    /// The target size of the population.
    pub fn get_population_size(&self) -> (r: usize)
        ensures
            r == self.spec_population_size(),
    {
        self.population_size
    }

    /// The fitness order fixed at construction.
    pub fn get_order(&self) -> (r: FitnessOrder)
        ensures
            r == self.spec_order(),
    {
        self.order
    }

    /// The current genomes, in population order.
    pub fn population(&self) -> (r: &Vec<T>)
        ensures
            r.len() == self.individuals().len(),
            forall|i: int| 0 <= i < r.len() ==> #[trigger] r@[i]@ == self.individuals()[i],
    {
        &self.population
    }

    /// Whether the population has reached its target size.
    pub fn is_full(&self) -> (r: bool)
        ensures
            r == (self.individuals().len() == self.spec_population_size()),
    {
        self.population.len() == self.population_size
    }

    /// Adds one genome, during initialisation.
    pub fn push(&mut self, item: T)
        requires
            old(self).wf(),
            old(self).individuals().len() < old(self).spec_population_size(),
            T::valid(item@),
            forall|i: int|
                0 <= i < old(self).individuals().len() ==> T::compatible(
                    #[trigger] old(self).individuals()[i],
                    item@,
                ),
        ensures
            final(self).wf(),
            final(self).individuals() == old(self).individuals().push(item@),
            final(self).spec_population_size() == old(self).spec_population_size(),
            final(self).spec_order() == old(self).spec_order(),
            final(self).spec_fitness_total() == old(self).spec_fitness_total(),
    {
        let ghost before = self.individuals();
        let ghost v = item@;
        self.population.push(item);
        proof {
            assert(self.individuals() =~= before.push(v));
            let ind = self.individuals();
            assert forall|i: int, j: int| 0 <= i < ind.len() && 0 <= j < ind.len() implies T::compatible(
                #[trigger] ind[i],
                #[trigger] ind[j],
            ) by {
                if i == before.len() && j == before.len() {
                    T::lemma_compatible(v, v, v);
                } else if i == before.len() {
                    assert(ind[j] == before[j]);
                    assert(T::compatible(before[j], v));
                    T::lemma_compatible(ind[j], v, v);
                } else if j == before.len() {
                    assert(ind[i] == before[i]);
                    assert(T::compatible(before[i], v));
                } else {
                    assert(ind[i] == before[i] && ind[j] == before[j]);
                }
            }
        }
    }

    /// The best fitness among `scores`, the scores of the current population.
    pub fn get_best_fitness(&self, scores: &Vec<u64>) -> (r: u64)
        requires
            scores.len() == self.individuals().len(),
            scores.len() > 0,
        ensures
            is_best_value(scores@, self.spec_order(), r),
    {
        let q = first_best(scores, self.order);
        scores[q]
    }

    /// The first genome, in population order, with the best of `scores`.
    pub fn get_best_solution(&self, scores: &Vec<u64>) -> (r: T)
        requires
            scores.len() == self.individuals().len(),
            scores.len() > 0,
        ensures
            exists|q: int| is_first_best(scores@, self.spec_order(), q) && r@ == self.individuals()[q],
    {
        let q = first_best(scores, self.order);
        let r = self.population[q].duplicate();
        assert(self.individuals()[q as int] == self.population@[q as int]@);
        r
    }
}

/// Whether fitness `a` is strictly better than fitness `b`.
pub fn is_better(order: FitnessOrder, a: u64, b: u64) -> (r: bool)
    ensures
        r == better(order, a, b),
{
    match order {
        FitnessOrder::Max => a > b,
        FitnessOrder::Min => a < b,
    }
}

/// The first position holding the best of `scores`.
pub fn first_best(scores: &Vec<u64>, order: FitnessOrder) -> (r: usize)
    requires
        scores.len() > 0,
    ensures
        is_first_best(scores@, order, r as int),
{
    let mut best: usize = 0;
    let mut k: usize = 1;
    while k < scores.len()
        invariant
            1 <= k <= scores.len(),
            best < k,
            forall|p: int| 0 <= p < k ==> !better(order, #[trigger] scores@[p], scores@[best as int]),
            forall|p: int| 0 <= p < best ==> better(order, scores@[best as int], #[trigger] scores@[p]),
        decreases scores.len() - k,
    {
        if is_better(order, scores[k], scores[best]) {
            best = k;
        }
        k = k + 1;
    }
    best
}

/// The winner of a binary tournament between positions `s0` and `s1`: the
/// first if it is strictly better, otherwise the second.
pub fn tournament_winner(scores: &Vec<u64>, order: FitnessOrder, s0: usize, s1: usize) -> (r: usize)
    requires
        s0 < scores.len(),
        s1 < scores.len(),
    ensures
        r == if better(order, scores@[s0 as int], scores@[s1 as int]) {
            s0
        } else {
            s1
        },
{
    if is_better(order, scores[s0], scores[s1]) {
        s0
    } else {
        s1
    }
}

/// A binary tournament between two positions drawn uniformly, with
/// replacement.
fn tournament_selection(scores: &Vec<u64>, order: FitnessOrder) -> (r: usize)
    requires
        scores.len() > 0,
    ensures
        r < scores.len(),
{
    let s0 = random_in(0, scores.len());
    let s1 = random_in(0, scores.len());
    tournament_winner(scores, order, s0, s1)
}

/// The sum of `scores`.
pub fn total_fitness(scores: &Vec<u64>) -> (r: u128)
    ensures
        r == sum_scores(scores@, scores.len() as int),
{
    let mut total: u128 = 0;
    let mut k: usize = 0;
    while k < scores.len()
        invariant
            k <= scores.len(),
            total == sum_scores(scores@, k as int),
            total <= k * (u64::MAX as int),
        decreases scores.len() - k,
    {
        let s = scores[k];
        proof {
            assert(k < 0x1_0000_0000_0000_0000int);
            assert((k + 1) * (u64::MAX as int) <= 0x1_0000_0000_0000_0000int * (u64::MAX as int))
                by (nonlinear_arith)
                requires
                    k + 1 <= 0x1_0000_0000_0000_0000int,
            ;
            assert(k * (u64::MAX as int) + s <= (k + 1) * (u64::MAX as int)) by (nonlinear_arith)
                requires
                    s <= u64::MAX,
            ;
        }
        total = total + s as u128;
        k = k + 1;
    }
    total
}

/// The ranking entries of all individuals, in population order.
fn ranking_entries(scores: &Vec<u64>, order: FitnessOrder) -> (r: Vec<(u64, usize)>)
    ensures
        r@ == Seq::new(scores@.len(), |q: int| entry(scores@, order, q)),
{
    let mut entries: Vec<(u64, usize)> = Vec::new();
    let mut q: usize = 0;
    while q < scores.len()
        invariant
            q <= scores.len(),
            entries@ == Seq::new(q as nat, |p: int| entry(scores@, order, p)),
        decreases scores.len() - q,
    {
        let key = match order {
            FitnessOrder::Max => u64::MAX - scores[q],
            FitnessOrder::Min => scores[q],
        };
        entries.push((key, q));
        proof {
            assert(entries@ =~= Seq::new((q + 1) as nat, |p: int| entry(scores@, order, p)));
        }
        q = q + 1;
    }
    entries
}

/// Relies on rayon's `ParallelSliceMut::par_sort`: a stable sort into
/// ascending order, which for tuples is the lexicographic order.
#[verifier::external_body]
fn sort_entries(v: &mut Vec<(u64, usize)>)
    ensures
        final(v)@.to_multiset() == old(v)@.to_multiset(),
        forall|i: int, j: int|
            0 <= i < j < final(v)@.len() ==> pair_le(#[trigger] final(v)@[i], #[trigger] final(v)@[j]),
{
    rayon::slice::ParallelSliceMut::par_sort(v.as_mut_slice())
}

/// The positions of the `ELITE_COUNT` best individuals, best first.
fn elite_positions(scores: &Vec<u64>, order: FitnessOrder) -> (r: Vec<usize>)
    requires
        scores.len() >= ELITE_COUNT,
    ensures
        is_elite(scores@, order, r@),
{
    let ghost s = Seq::new(scores@.len(), |q: int| entry(scores@, order, q));
    let mut entries = ranking_entries(scores, order);
    sort_entries(&mut entries);
    let ghost t = entries@;
    proof {
        assert(t.len() == t.to_multiset().len());
        assert(s.len() == s.to_multiset().len());
        assert(s.no_duplicates());
        s.lemma_multiset_has_no_duplicates();
        assert forall|x: (u64, usize)| t.to_multiset().contains(x) implies t.to_multiset().count(x)
            == 1 by {
            assert(s.to_multiset().contains(x));
        }
        t.lemma_multiset_has_no_duplicates_conv();
        assert forall|p: int| 0 <= p < t.len() implies exists|q: int|
            0 <= q < s.len() && s[q] == #[trigger] t[p] by {
            assert(t.contains(t[p]));
            assert(t.to_multiset().count(t[p]) > 0);
            assert(s.to_multiset().count(t[p]) > 0);
            assert(s.contains(t[p]));
        }
    }
    let mut e: Vec<usize> = Vec::new();
    let mut r: usize = 0;
    while r < ELITE_COUNT
        invariant
            r <= ELITE_COUNT <= t.len(),
            t.len() == scores.len(),
            entries@ == t,
            e@ == Seq::new(r as nat, |x: int| t[x].1),
        decreases ELITE_COUNT - r,
    {
        e.push(entries[r].1);
        proof {
            assert(e@ =~= Seq::new((r + 1) as nat, |x: int| t[x].1));
        }
        r = r + 1;
    }
    proof {
        assert forall|p: int| 0 <= p < t.len() implies #[trigger] t[p] == entry(
            scores@,
            order,
            t[p].1 as int,
        ) && t[p].1 < scores.len() by {
            let q = choose|q: int| 0 <= q < s.len() && s[q] == t[p];
        }
        assert forall|q: int| 0 <= q < scores.len() && !e@.contains(q as usize) implies pair_le(
            entry(scores@, order, e@[ELITE_COUNT - 1] as int),
            #[trigger] entry(scores@, order, q),
        ) by {
            assert(s[q] == entry(scores@, order, q));
            assert(s.contains(s[q]));
            assert(s.to_multiset().count(s[q]) > 0);
            assert(t.to_multiset().count(s[q]) > 0);
            let p = choose|p: int| 0 <= p < t.len() && t[p] == s[q];
            if p < ELITE_COUNT {
                assert(e@[p] == q as usize);
            } else if p > ELITE_COUNT - 1 {
                assert(pair_le(t[ELITE_COUNT - 1], t[p]));
            }
            assert(t[ELITE_COUNT - 1] == entry(scores@, order, e@[ELITE_COUNT - 1] as int));
        }
        assert forall|r1: int, r2: int| 0 <= r1 < r2 < e@.len() implies pair_le(
            entry(scores@, order, e@[r1] as int),
            entry(scores@, order, e@[r2] as int),
        ) && e@[r1] != e@[r2] by {
            assert(pair_le(t[r1], t[r2]));
            assert(t[r1] != t[r2]);
        }
    }
    e
}

/// One evolutionary step. `scores` holds the fitness of each current
/// genome, in population order. Their sum is kept as the epoch's total; the
/// `ELITE_COUNT` best genomes are carried over unchanged; binary tournaments
/// fill the selected pool up to half the target size; pairs drawn from that
/// pool are crossed over and their mutated children fill the rest.
pub fn epoch<T: Genotype>(gen: &mut Generation<T>, scores: &Vec<u64>)
    requires
        old(gen).wf(),
        old(gen).individuals().len() == old(gen).spec_population_size(),
        scores.len() == old(gen).individuals().len(),
    ensures
        final(gen).wf(),
        final(gen).individuals().len() == final(gen).spec_population_size(),
        final(gen).spec_population_size() == old(gen).spec_population_size(),
        final(gen).spec_order() == old(gen).spec_order(),
        final(gen).spec_fitness_total() == sum_scores(scores@, scores.len() as int),
        final(gen).spec_population_size() == scores.len(),
        carries_elite(old(gen).individuals(), final(gen).individuals(), scores@, old(gen).spec_order()),
        forall|r: int|
            ELITE_COUNT <= r < old(gen).spec_population_size() / 2 ==> exists|q: int|
                0 <= q < old(gen).individuals().len() && #[trigger] final(gen).individuals()[r]
                    == old(gen).individuals()[q],
        forall|r: int|
            old(gen).spec_population_size() / 2 <= r < old(gen).spec_population_size() && (r
                - old(gen).spec_population_size() / 2) % 2 == 0 ==> #[trigger] bred(
                final(gen).members(),
                (old(gen).spec_population_size() / 2) as int,
                r,
            ),
        forall|r: int|
            0 <= r < final(gen).members().len() ==> #[trigger] final(gen).members()[r]@
                == final(gen).individuals()[r],
{
    let ghost current = gen.individuals();
    let ghost anchor = current[0];
    let size = gen.population_size;
    let order = gen.order;
    gen.fitness_total = total_fitness(scores);

    let elite = elite_positions(scores, order);
    let mut next: Vec<T> = Vec::new();
    let mut r: usize = 0;
    while r < ELITE_COUNT
        invariant
            r <= ELITE_COUNT,
            elite@.len() == ELITE_COUNT,
            is_elite(scores@, order, elite@),
            gen.population@.len() == size,
            current == gen.individuals(),
            scores.len() == size,
            next.len() == r,
            forall|x: int| 0 <= x < r ==> #[trigger] next@[x]@ == current[elite@[x] as int],
        decreases ELITE_COUNT - r,
    {
        let q = elite[r];
        next.push(gen.population[q].duplicate());
        r = r + 1;
    }
    let half = size / 2;
    while r < half
        invariant
            ELITE_COUNT <= r <= half,
            half == size / 2,
            gen.population@.len() == size,
            current == gen.individuals(),
            scores.len() == size,
            next.len() == r,
            forall|x: int| 0 <= x < ELITE_COUNT ==> #[trigger] next@[x]@ == current[elite@[x] as int],
            forall|x: int|
                ELITE_COUNT <= x < r ==> exists|q: int| 0 <= q < size && #[trigger] next@[x]@ == current[q],
        decreases half - r,
    {
        let q = tournament_selection(scores, order);
        next.push(gen.population[q].duplicate());
        proof {
            assert(next@[r as int]@ == current[q as int]);
        }
        r = r + 1;
    }
    proof {
        assert forall|x: int| 0 <= x < half implies exists|q: int| 0 <= q < size && #[trigger] next@[x]@ == current[q] by {
            if x < ELITE_COUNT {
                assert(next@[x]@ == current[elite@[x] as int]);
            }
        }
    }
    while next.len() < size
        invariant
            ELITE_COUNT <= half <= next.len() <= size,
            half == size / 2,
            gen.population@.len() == size,
            current == gen.individuals(),
            current.len() == size,
            anchor == current[0],
            forall|i: int| 0 <= i < current.len() ==> T::valid(#[trigger] current[i]),
            forall|i: int, j: int|
                0 <= i < current.len() && 0 <= j < current.len() ==> T::compatible(
                    #[trigger] current[i],
                    #[trigger] current[j],
                ),
            forall|x: int| 0 <= x < ELITE_COUNT ==> #[trigger] next@[x]@ == current[elite@[x] as int],
            forall|x: int| 0 <= x < half ==> exists|q: int| 0 <= q < size && #[trigger] next@[x]@ == current[q],
            forall|x: int| 0 <= x < next.len() ==> T::valid(#[trigger] next@[x]@) && T::compatible(anchor, next@[x]@),
            next.len() < size ==> (next.len() - half) % 2 == 0,
            forall|r: int|
                half <= r < next.len() && (r - half) % 2 == 0 ==> #[trigger] bred(next@, half as int, r),
        decreases size - next.len(),
    {
        let a = random_in(0, half);
        let b = random_in(0, half);
        proof {
            let qa = choose|q: int| 0 <= q < size && next@[a as int]@ == current[q];
            let qb = choose|q: int| 0 <= q < size && next@[b as int]@ == current[q];
            assert(T::compatible(current[qa], current[qb]));
        }
        let (child_0, child_1) = T::crossover(&next[a], &next[b]);
        let ghost pool = next@;
        let ghost g0 = child_0;
        let ghost g1 = child_1;
        proof {
            T::lemma_compatible(anchor, next@[a as int]@, child_0@);
            T::lemma_compatible(anchor, next@[a as int]@, child_1@);
        }
        let m0 = child_0.mutation();
        let ghost at = pool.len() as int;
        proof {
            T::lemma_compatible(anchor, child_0@, m0@);
            assert forall|r: int| half <= r < at && (r - half) % 2 == 0 implies #[trigger] bred(
                pool.push(m0),
                half as int,
                r,
            ) by {
                assert(bred(pool, half as int, r));
                assert(r + 1 < at) by {
                    assert((at - half) % 2 == 0);
                }
                lemma_bred_push(pool, m0, half as int, r);
            }
        }
        next.push(m0);
        proof {
            assert(next@[at] == m0 && next@[a as int] == pool[a as int] && next@[b as int] == pool[b as int]);
            assert(T::offspring(next@[a as int], next@[b as int], g0, g1));
            assert(bred(next@, half as int, at));
        }
        if next.len() < size {
            let m1 = child_1.mutation();
            let ghost one = next@;
            proof {
                T::lemma_compatible(anchor, child_1@, m1@);
                assert forall|r: int| half <= r < at && (r - half) % 2 == 0 implies #[trigger] bred(
                    one.push(m1),
                    half as int,
                    r,
                ) by {
                    assert(bred(one, half as int, r));
                    lemma_bred_push(one, m1, half as int, r);
                }
            }
            next.push(m1);
            proof {
                assert(next@[at] == m0 && next@[at + 1] == m1);
                assert(next@[a as int] == pool[a as int] && next@[b as int] == pool[b as int]);
                assert(T::offspring(next@[a as int], next@[b as int], g0, g1));
                assert(bred(next@, half as int, at));
            }
        }
    }
    gen.population = next;
    proof {
        assert(gen.members() == next@);
        let ind = gen.individuals();
        assert forall|i: int, j: int| 0 <= i < ind.len() && 0 <= j < ind.len() implies T::compatible(
            #[trigger] ind[i],
            #[trigger] ind[j],
        ) by {
            T::lemma_compatible(ind[i], anchor, ind[j]);
            T::lemma_compatible(anchor, ind[i], ind[j]);
        }
        assert forall|x: int| 0 <= x < ELITE_COUNT implies #[trigger] ind[x] == current[elite@[x] as int] by {
        }
        assert forall|x: int| ELITE_COUNT <= x < size / 2 implies exists|q: int|
            0 <= q < current.len() && #[trigger] ind[x] == current[q] by {
            let q = choose|q: int| 0 <= q < size && next@[x]@ == current[q];
            assert(ind[x] == current[q]);
        }
    }
}

/// Fills `gen` with random genomes up to its target size.
pub fn initialise<T: RandomGenotype>(gen: &mut Generation<T>)
    requires
        old(gen).wf(),
    ensures
        final(gen).wf(),
        final(gen).individuals().len() == final(gen).spec_population_size(),
        final(gen).spec_population_size() == old(gen).spec_population_size(),
        final(gen).spec_order() == old(gen).spec_order(),
        final(gen).individuals().subrange(0, old(gen).individuals().len() as int) == old(
            gen,
        ).individuals(),
{
    let ghost start = gen.individuals();
    while !gen.is_full()
        invariant
            gen.wf(),
            gen.spec_population_size() == old(gen).spec_population_size(),
            gen.spec_order() == old(gen).spec_order(),
            start.len() <= gen.individuals().len(),
            gen.individuals().subrange(0, start.len() as int) == start,
        decreases gen.spec_population_size() - gen.individuals().len(),
    {
        let item = T::random();
        let ghost before = gen.individuals();
        proof {
            assert forall|i: int| 0 <= i < before.len() implies T::compatible(#[trigger] before[i], item@) by {
                assert(T::valid(before[i]));
            }
        }
        gen.push(item);
        proof {
            assert(gen.individuals().subrange(0, start.len() as int) =~= start) by {
                assert(before.subrange(0, start.len() as int) == start);
            }
        }
    }
}

/// The first of the elite holds the best score.
proof fn lemma_elite_first_is_best(scores: Seq<u64>, order: FitnessOrder, e: Seq<usize>)
    requires
        is_elite(scores, order, e),
        scores.len() <= usize::MAX,
    ensures
        is_best_value(scores, order, scores[e[0] as int]),
{
    assert(scores.contains(scores[e[0] as int])) by {
        assert(e[0] < scores.len());
    }
    assert forall|p: int| 0 <= p < scores.len() implies !better(order, #[trigger] scores[p], scores[e[0] as int]) by {
        let first = entry(scores, order, e[0] as int);
        if e.contains(p as usize) {
            let r = choose|r: int| 0 <= r < e.len() && e[r] == p as usize;
            assert(e[r] as int == p);
            if r > 0 {
                assert(pair_le(first, entry(scores, order, e[r] as int)));
            }
        } else {
            let last = entry(scores, order, e[ELITE_COUNT - 1] as int);
            assert(pair_le(last, entry(scores, order, p)));
            assert(pair_le(first, last));
        }
        assert(first.0 <= entry(scores, order, p).0);
        lemma_key_order(order, scores[e[0] as int], scores[p]);
    }
}

proof fn lemma_key_order(order: FitnessOrder, a: u64, b: u64)
    requires
        rank_key(order, a) <= rank_key(order, b),
    ensures
        !better(order, b, a),
{
}

/// Two best values of one list of scores are equal.
pub proof fn lemma_best_value_unique(scores: Seq<u64>, order: FitnessOrder, v1: u64, v2: u64)
    requires
        is_best_value(scores, order, v1),
        is_best_value(scores, order, v2),
    ensures
        v1 == v2,
{
    let x = choose|p: int| 0 <= p < scores.len() && scores[p] == v1;
    let y = choose|p: int| 0 <= p < scores.len() && scores[p] == v2;
    assert(!better(order, scores[x], v2));
    assert(!better(order, scores[y], v1));
}

/// The best-fitness and best-genome queries are determined by the
/// population and its scores: asked twice without an epoch in between, they
/// answer the same fitness and the genome at the same position.
pub proof fn lemma_best_queries_determined(
    scores: Seq<u64>,
    order: FitnessOrder,
    v1: u64,
    v2: u64,
    q1: int,
    q2: int,
)
    requires
        is_best_value(scores, order, v1),
        is_best_value(scores, order, v2),
        is_first_best(scores, order, q1),
        is_first_best(scores, order, q2),
    ensures
        v1 == v2,
        q1 == q2,
        scores[q1] == v1,
{
    lemma_best_value_unique(scores, order, v1, v2);
    if q1 < q2 {
        assert(better(order, scores[q2], scores[q1]));
    } else if q2 < q1 {
        assert(better(order, scores[q1], scores[q2]));
    }
    assert(scores.contains(scores[q1]));
    assert forall|p: int| 0 <= p < scores.len() implies !better(order, #[trigger] scores[p], scores[q1]) by {}
    lemma_best_value_unique(scores, order, v1, scores[q1]);
}

/// Elitism: when each genome's score is its fitness, the best fitness of
/// the generation an epoch produces is never worse than the best fitness of
/// the generation it started from. `epoch` ensures `carries_elite` of the
/// generation before it and the one after, which have the same size.
pub proof fn lemma_best_never_worse<V>(
    current: Seq<V>,
    next: Seq<V>,
    order: FitnessOrder,
    fitness: spec_fn(V) -> u64,
    before: u64,
    after: u64,
)
    requires
        next.len() == current.len() <= usize::MAX,
        carries_elite(current, next, current.map_values(fitness), order),
        is_best_value(current.map_values(fitness), order, before),
        is_best_value(next.map_values(fitness), order, after),
    ensures
        !better(order, before, after),
{
    let scores = current.map_values(fitness);
    let e = choose|e: Seq<usize>|
        is_elite(scores, order, e) && forall|r: int| 0 <= r < ELITE_COUNT ==> #[trigger] next[r]
            == current[e[r] as int];
    lemma_elite_first_is_best(scores, order, e);
    lemma_best_value_unique(scores, order, before, scores[e[0] as int]);
    assert(next[0] == current[e[0] as int]);
    let next_scores = next.map_values(fitness);
    assert(next_scores[0] == before);
}

} // verus!
