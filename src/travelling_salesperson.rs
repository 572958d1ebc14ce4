//! Tours of the travelling salesperson problem: a permutation of city
//! identifiers with the rates at which its operators fire.

use vstd::prelude::*;

use crate::generation::Generation;
use crate::genotype::Genotype;
use crate::permutation::{
    is_permutation_of, lemma_distinct_members_len, members_of, ox_child, pmx_child, reversed_segment,
    slot_rank, swapped, lemma_permutation_from_members, lemma_shuffled_permutation,
    order_crossover_at, parents_ok, partially_mapped_crossover_at,
    reverse_sequence_mutation_at, swap_mutation_at,
};
use crate::random::{random_in, random_ratio, sample_indices, shuffle_range};
use crate::ConfigError;

verus! {

/// Rates are given in parts per million: `RATE_SCALE` stands for certainty.
pub const RATE_SCALE: u32 = 1000000;

/// A closed tour through every city of a dataset.
#[derive(Debug, Clone)]
pub struct TSPath {
    path: Vec<usize>,
    mutation_rate: u32,
    crossover_rate: u32,
}

impl View for TSPath {
    type V = Seq<usize>;

    closed spec fn view(&self) -> Seq<usize> {
        self.path@
    }
}

/// A trial that succeeds with probability `rate / RATE_SCALE`; rates above
/// the scale always succeed.
fn trial(rate: u32) -> (r: bool)
    ensures
        rate == 0 ==> !r,
        rate >= RATE_SCALE ==> r,
{
    let p = if rate > RATE_SCALE {
        RATE_SCALE
    } else {
        rate
    };
    random_ratio(p, RATE_SCALE)
}

/// `new` is `old` with its segment `[i, j]` put in some order and every
/// other position kept.
pub open spec fn reorders_segment(old: Seq<usize>, new: Seq<usize>, i: int, j: int) -> bool {
    &&& 0 <= i <= j < old.len()
    &&& new.len() == old.len()
    &&& new.subrange(i, j + 1).to_multiset() == old.subrange(i, j + 1).to_multiset()
    &&& forall|k: int| 0 <= k < old.len() && !(i <= k <= j) ==> #[trigger] new[k] == old[k]
}

/// `new` is an outcome of one of the mutation operators on `old`: the tour
/// itself, two positions swapped, a segment reversed, or a segment
/// reordered.
pub open spec fn tour_mutant(old: Seq<usize>, new: Seq<usize>) -> bool {
    ||| new == old
    ||| exists|i: int, j: int|
        0 <= i < old.len() && 0 <= j < old.len() && new == #[trigger] swapped(old, i, j)
    ||| exists|i: int, j: int|
        0 <= i <= j < old.len() && new == #[trigger] reversed_segment(old, i, j)
    ||| exists|i: int, j: int| #[trigger] reorders_segment(old, new, i, j)
}

/// The children of partially mapped crossover on some segment `[i, j]`
/// with `i < j`.
pub open spec fn pmx_outcome(x: Seq<usize>, y: Seq<usize>, c0: Seq<usize>, c1: Seq<usize>) -> bool {
    exists|i: int, j: int|
        0 <= i < j < x.len() && c0 == #[trigger] pmx_child(y, x, i, j + 1) && c1 == pmx_child(
            x,
            y,
            i,
            j + 1,
        )
}

/// The children of order crossover on a mask that keeps fewer positions
/// than the tour has.
pub open spec fn ox_outcome(x: Seq<usize>, y: Seq<usize>, c0: Seq<usize>, c1: Seq<usize>) -> bool {
    exists|keep: Seq<bool>|
        keep.len() == x.len() && slot_rank(keep, false, x.len() as int) < x.len() && c0
            == #[trigger] ox_child(x, y, keep, true) && c1 == ox_child(x, y, keep, false)
}

impl TSPath {
    pub closed spec fn spec_mutation_rate(&self) -> u32 {
        self.mutation_rate
    }

    pub closed spec fn spec_crossover_rate(&self) -> u32 {
        self.crossover_rate
    }

    /// A tour through the given cities in a uniformly shuffled order. An
    /// empty list of cities is a configuration error.
    pub fn new(cities: &Vec<usize>, mutation_rate: u32, crossover_rate: u32) -> (r: Result<
        TSPath,
        ConfigError,
    >)
        requires
            cities@.no_duplicates(),
        ensures
            cities.len() == 0 <==> r is Err,
            r is Err ==> r == Err::<TSPath, ConfigError>(ConfigError::NoCities),
            r matches Ok(t) ==> is_permutation_of(t@, cities@) && t.spec_mutation_rate()
                == mutation_rate && t.spec_crossover_rate() == crossover_rate,
    {
        if cities.len() == 0 {
            return Err(ConfigError::NoCities);
        }
        let mut keys = cities.clone();
        assert(keys@ =~= cities@);
        let n = keys.len();
        shuffle_range(&mut keys, 0, n);
        proof {
            assert(keys@.subrange(0, n as int) =~= keys@);
            assert(cities@.subrange(0, n as int) =~= cities@);
            lemma_shuffled_permutation(cities@, keys@, 0, n as int);
        }
        Ok(TSPath { path: keys, mutation_rate, crossover_rate })
    }

    /// The number of cities on the tour.
    pub fn length(&self) -> (r: usize)
        ensures
            r == self@.len(),
    {
        self.path.len()
    }

    /// The cities in the order of the tour.
    pub fn get_path(&self) -> (r: &Vec<usize>)
        ensures
            r@ == self@,
    {
        &self.path
    }

    /// The rate of mutation, in parts per million.
    pub fn mutation_rate(&self) -> (r: u32)
        ensures
            r == self.spec_mutation_rate(),
    {
        self.mutation_rate
    }

    /// The rate of crossover, in parts per million.
    pub fn crossover_rate(&self) -> (r: u32)
        ensures
            r == self.spec_crossover_rate(),
    {
        self.crossover_rate
    }

    fn copy(&self) -> (r: TSPath)
        ensures
            r@ == self@,
            r.spec_mutation_rate() == self.spec_mutation_rate(),
            r.spec_crossover_rate() == self.spec_crossover_rate(),
    {
        let path = self.path.clone();
        assert(path@ =~= self.path@);
        self.with_path(path)
    }

    fn with_path(&self, path: Vec<usize>) -> (r: TSPath)
        ensures
            r@ == path@,
            r.spec_mutation_rate() == self.spec_mutation_rate(),
            r.spec_crossover_rate() == self.spec_crossover_rate(),
    {
        TSPath { path, mutation_rate: self.mutation_rate, crossover_rate: self.crossover_rate }
    }
}

/// Partial shuffle mutation, in its bounded form: a random segment `[i, j]`
/// is shuffled in place and the rest of the tour is left as it is.
fn partial_shuffle_mutation(parent: &TSPath) -> (r: TSPath)
    requires
        parent@.no_duplicates(),
    ensures
        is_permutation_of(r@, parent@),
        r@ == parent@ || exists|i: int, j: int| #[trigger] reorders_segment(parent@, r@, i, j),
        r.spec_mutation_rate() == parent.spec_mutation_rate(),
        r.spec_crossover_rate() == parent.spec_crossover_rate(),
{
    let mut path = parent.path.clone();
    assert(path@ =~= parent@);
    let n = path.len();
    if n >= 2 {
        let i = random_in(0, n - 1);
        let j = random_in(i, n);
        if i != j {
            shuffle_range(&mut path, i, j + 1);
            proof {
                lemma_shuffled_permutation(parent@, path@, i as int, j + 1);
                assert(reorders_segment(parent@, path@, i as int, j as int));
            }
        }
    }
    proof {
        if path@ == parent@ {
            lemma_permutation_from_members(path@, parent@);
        }
    }
    parent.with_path(path)
}

/// Reverse sequence mutation: a random segment `[i, j]` is reversed.
fn reverse_sequence_mutation(parent: &TSPath) -> (r: TSPath)
    requires
        parent@.no_duplicates(),
    ensures
        is_permutation_of(r@, parent@),
        parent@.len() == 0 ==> r@ == parent@,
        parent@.len() > 0 ==> exists|i: int, j: int|
            0 <= i <= j < parent@.len() && r@ == #[trigger] reversed_segment(parent@, i, j),
        r.spec_mutation_rate() == parent.spec_mutation_rate(),
        r.spec_crossover_rate() == parent.spec_crossover_rate(),
{
    let n = parent.path.len();
    let mut i: usize = 0;
    let mut j: usize = 0;
    if n >= 2 {
        i = random_in(0, n - 1);
        j = random_in(i, n);
    }
    if n == 0 {
        proof {
            lemma_permutation_from_members(parent@, parent@);
        }
        return parent.with_path(parent.path.clone());
    }
    let path = reverse_sequence_mutation_at(&parent.path, i, j);
    parent.with_path(path)
}

/// Swap mutation: the values at two random positions are exchanged.
fn swap_mutation(parent: &TSPath) -> (r: TSPath)
    requires
        parent@.no_duplicates(),
    ensures
        is_permutation_of(r@, parent@),
        parent@.len() == 0 ==> r@ == parent@,
        parent@.len() > 0 ==> exists|i: int, j: int|
            0 <= i < parent@.len() && 0 <= j < parent@.len() && r@ == #[trigger] swapped(parent@, i, j),
        r.spec_mutation_rate() == parent.spec_mutation_rate(),
        r.spec_crossover_rate() == parent.spec_crossover_rate(),
{
    let n = parent.path.len();
    if n == 0 {
        proof {
            lemma_permutation_from_members(parent@, parent@);
        }
        return parent.with_path(parent.path.clone());
    }
    let i = random_in(0, n);
    let j = random_in(0, n);
    let path = swap_mutation_at(&parent.path, i, j);
    parent.with_path(path)
}

/// Partially mapped crossover on a random segment `[i, j]` with `i < j`.
fn partially_mapped_crossover(parent_0: &TSPath, parent_1: &TSPath) -> (r: (TSPath, TSPath))
    requires
        parents_ok(parent_0@, parent_1@),
    ensures
        is_permutation_of(r.0@, parent_0@),
        is_permutation_of(r.1@, parent_0@),
        parent_0@.len() >= 2 ==> pmx_outcome(parent_0@, parent_1@, r.0@, r.1@),
        parent_0@.len() < 2 ==> r.0@ == parent_0@ && r.1@ == parent_1@,
        r.0.spec_mutation_rate() == parent_0.spec_mutation_rate(),
        r.0.spec_crossover_rate() == parent_0.spec_crossover_rate(),
        r.1.spec_mutation_rate() == parent_1.spec_mutation_rate(),
        r.1.spec_crossover_rate() == parent_1.spec_crossover_rate(),
{
    let n = parent_0.path.len();
    if n < 2 {
        proof {
            lemma_permutation_from_members(parent_0@, parent_0@);
        }
        return (parent_0.with_path(parent_0.path.clone()), parent_1.with_path(parent_1.path.clone()));
    }
    let i = random_in(0, n - 1);
    let j = random_in(i + 1, n);
    let (path_0, path_1) = partially_mapped_crossover_at(&parent_0.path, &parent_1.path, i, j);
    assert(pmx_outcome(parent_0@, parent_1@, path_0@, path_1@)) by {
        assert(path_0@ == pmx_child(parent_1@, parent_0@, i as int, j + 1));
    }
    (parent_0.with_path(path_0), parent_1.with_path(path_1))
}

/// The mask that marks exactly the positions listed in `picks`.
fn keep_mask(n: usize, picks: &Vec<usize>) -> (r: Vec<bool>)
    requires
        forall|k: int| 0 <= k < picks.len() ==> #[trigger] picks@[k] < n,
    ensures
        r.len() == n,
        forall|q: int| 0 <= q < n ==> #[trigger] r@[q] == picks@.contains(q as usize),
{
    let mut mask: Vec<bool> = Vec::new();
    let mut q: usize = 0;
    while q < n
        invariant
            q <= n,
            mask.len() == q,
            forall|x: int| 0 <= x < q ==> #[trigger] mask@[x] == false,
        decreases n - q,
    {
        mask.push(false);
        q = q + 1;
    }
    let mut k: usize = 0;
    while k < picks.len()
        invariant
            k <= picks.len(),
            mask.len() == n,
            forall|x: int| 0 <= x < picks.len() ==> #[trigger] picks@[x] < n,
            forall|x: int| 0 <= x < n ==> #[trigger] mask@[x] == picks@.subrange(0, k as int).contains(
                x as usize,
            ),
        decreases picks.len() - k,
    {
        let p = picks[k];
        mask.set(p, true);
        proof {
            assert forall|x: int| 0 <= x < n implies #[trigger] mask@[x] == picks@.subrange(
                0,
                k + 1,
            ).contains(x as usize) by {
                let pre = picks@.subrange(0, k as int);
                let post = picks@.subrange(0, k + 1);
                assert(post =~= pre.push(p));
                if pre.contains(x as usize) {
                    let w = choose|w: int| 0 <= w < pre.len() && pre[w] == x as usize;
                    assert(post[w] == x as usize);
                }
                if x == p {
                    assert(post[k as int] == p);
                }
            }
        }
        k = k + 1;
    }
    assert(picks@.subrange(0, picks.len() as int) =~= picks@);
    mask
}

proof fn lemma_slot_rank_at_most(keep: Seq<bool>, side: bool, n: int)
    requires
        0 <= n,
    ensures
        slot_rank(keep, side, n) <= n,
    decreases n,
{
    if n > 0 {
        lemma_slot_rank_at_most(keep, side, n - 1);
    }
}

/// A position that is kept on `side` is no empty slot, so fewer than `n`
/// slots are empty.
proof fn lemma_slot_rank_below(keep: Seq<bool>, side: bool, n: int, q: int)
    requires
        0 <= q < n,
        keep[q] == side,
    ensures
        slot_rank(keep, side, n) < n,
    decreases n,
{
    if q < n - 1 {
        lemma_slot_rank_below(keep, side, n - 1, q);
    } else {
        lemma_slot_rank_at_most(keep, side, n - 1);
    }
}

/// Order crossover: a random number `k` of distinct random positions is kept.
fn order_crossover(parent_0: &TSPath, parent_1: &TSPath) -> (r: (TSPath, TSPath))
    requires
        parents_ok(parent_0@, parent_1@),
    ensures
        is_permutation_of(r.0@, parent_0@),
        is_permutation_of(r.1@, parent_0@),
        parent_0@.len() > 0 ==> ox_outcome(parent_0@, parent_1@, r.0@, r.1@),
        parent_0@.len() == 0 ==> r.0@ == parent_0@ && r.1@ == parent_1@,
        r.0.spec_mutation_rate() == parent_0.spec_mutation_rate(),
        r.0.spec_crossover_rate() == parent_0.spec_crossover_rate(),
        r.1.spec_mutation_rate() == parent_1.spec_mutation_rate(),
        r.1.spec_crossover_rate() == parent_1.spec_crossover_rate(),
{
    let n = parent_0.path.len();
    if n == 0 {
        proof {
            lemma_permutation_from_members(parent_0@, parent_0@);
        }
        return (parent_0.with_path(parent_0.path.clone()), parent_1.with_path(parent_1.path.clone()));
    }
    let k = random_in(0, n);
    let picks = sample_indices(n, k);
    let keep = keep_mask(n, &picks);
    proof {
        let range = Seq::new(n as nat, |q: int| q as usize);
        if forall|q: int| 0 <= q < n ==> picks@.contains(#[trigger] range[q]) {
            assert(range.no_duplicates());
            assert(members_of(range, picks@));
            lemma_distinct_members_len(range, picks@);
        }
        let q = choose|q: int| 0 <= q < n && !picks@.contains(#[trigger] range[q]);
        assert(keep@[q] == false);
        lemma_slot_rank_below(keep@, false, n as int, q);
    }
    let (path_0, path_1) = order_crossover_at(&parent_0.path, &parent_1.path, &keep);
    assert(ox_outcome(parent_0@, parent_1@, path_0@, path_1@)) by {
        assert(path_0@ == ox_child(parent_0@, parent_1@, keep@, true));
    }
    (parent_0.with_path(path_0), parent_1.with_path(path_1))
}

/// The mutation operator picked by a draw in `1..=100`: swap up to 25,
/// reverse sequence up to 75, partial shuffle above.
pub enum MutationOperator {
    Swap,
    ReverseSequence,
    PartialShuffle,
}

/// Which mutation operator a draw in `1..=100` selects.
pub fn mutation_operator_for(draw: usize) -> (r: MutationOperator)
    ensures
        draw <= 25 ==> r == MutationOperator::Swap,
        25 < draw <= 75 ==> r == MutationOperator::ReverseSequence,
        75 < draw ==> r == MutationOperator::PartialShuffle,
{
    if draw <= 25 {
        MutationOperator::Swap
    } else if draw <= 75 {
        MutationOperator::ReverseSequence
    } else {
        MutationOperator::PartialShuffle
    }
}

impl Genotype for TSPath {
    open spec fn valid(v: Seq<usize>) -> bool {
        v.no_duplicates()
    }

    open spec fn compatible(a: Seq<usize>, b: Seq<usize>) -> bool {
        a.len() == b.len() && forall|c: usize| a.contains(c) <==> b.contains(c)
    }

    /// The children carry their parents' rates. At a zero crossover rate
    /// they are the parents; at a rate of `RATE_SCALE` or more, on tours of
    /// two or more cities, they come from partially mapped or order
    /// crossover; otherwise they are either.
    open spec fn offspring(x: Self, y: Self, c0: Self, c1: Self) -> bool {
        &&& c0.spec_mutation_rate() == x.spec_mutation_rate()
        &&& c0.spec_crossover_rate() == x.spec_crossover_rate()
        &&& c1.spec_mutation_rate() == y.spec_mutation_rate()
        &&& c1.spec_crossover_rate() == y.spec_crossover_rate()
        &&& x.spec_crossover_rate() == 0 ==> c0@ == x@ && c1@ == y@
        &&& x.spec_crossover_rate() >= RATE_SCALE && x@.len() >= 2 ==> pmx_outcome(x@, y@, c0@, c1@)
            || ox_outcome(x@, y@, c0@, c1@)
        &&& (c0@ == x@ && c1@ == y@) || pmx_outcome(x@, y@, c0@, c1@) || ox_outcome(
            x@,
            y@,
            c0@,
            c1@,
        )
    }

    /// The rates are kept; at a zero mutation rate the tour is too, and
    /// otherwise it is an outcome of one of the three operators.
    open spec fn mutant(parent: Self, child: Self) -> bool {
        &&& child.spec_mutation_rate() == parent.spec_mutation_rate()
        &&& child.spec_crossover_rate() == parent.spec_crossover_rate()
        &&& parent.spec_mutation_rate() == 0 ==> child@ == parent@
        &&& tour_mutant(parent@, child@)
    }

    proof fn lemma_compatible(a: Seq<usize>, b: Seq<usize>, c: Seq<usize>) {
    }

    /// With probability `crossover_rate` one of partially mapped or order
    /// crossover, chosen evenly; otherwise unchanged copies of the parents.
    fn crossover(x: &Self, y: &Self) -> (r: (Self, Self)) {
        if trial(x.crossover_rate) {
            if random_ratio(1, 2) {
                return partially_mapped_crossover(x, y);
            } else {
                return order_crossover(x, y);
            }
        }
        (x.copy(), y.copy())
    }

    /// With probability `mutation_rate` one of the three mutation
    /// operators, weighted toward the less destructive; otherwise an
    /// unchanged copy.
    fn mutation(&self) -> (r: Self) {
        if trial(self.mutation_rate) {
            let draw = random_in(1, 101);
            match mutation_operator_for(draw) {
                MutationOperator::Swap => {
                    return swap_mutation(self);
                },
                MutationOperator::ReverseSequence => {
                    return reverse_sequence_mutation(self);
                },
                MutationOperator::PartialShuffle => {
                    return partial_shuffle_mutation(self);
                },
            }
        }
        self.copy()
    }

    fn duplicate(&self) -> (r: Self) {
        self.copy()
    }
}

/// Fills `gen` up to its target size with tours through `cities`, each in
/// its own shuffled order, with the given rates. An empty list of cities is
/// a configuration error, and `gen` is then left as it was.
pub fn initialise_with_values(
    gen: &mut Generation<TSPath>,
    cities: &Vec<usize>,
    mutation_rate: u32,
    crossover_rate: u32,
) -> (r: Result<(), ConfigError>)
    requires
        old(gen).wf(),
        cities@.no_duplicates(),
        forall|i: int|
            0 <= i < old(gen).individuals().len() ==> is_permutation_of(
                #[trigger] old(gen).individuals()[i],
                cities@,
            ),
    ensures
        final(gen).wf(),
        final(gen).spec_population_size() == old(gen).spec_population_size(),
        final(gen).spec_order() == old(gen).spec_order(),
        cities.len() == 0 <==> r == Err::<(), ConfigError>(ConfigError::NoCities),
        r is Err ==> final(gen).individuals() == old(gen).individuals(),
        r is Ok ==> final(gen).individuals().len() == final(gen).spec_population_size(),
        forall|i: int|
            0 <= i < final(gen).individuals().len() ==> is_permutation_of(
                #[trigger] final(gen).individuals()[i],
                cities@,
            ),
{
    if cities.len() == 0 {
        return Err(ConfigError::NoCities);
    }
    while !gen.is_full()
        invariant
            gen.wf(),
            cities@.no_duplicates(),
            cities.len() > 0,
            gen.spec_population_size() == old(gen).spec_population_size(),
            gen.spec_order() == old(gen).spec_order(),
            forall|i: int|
                0 <= i < gen.individuals().len() ==> is_permutation_of(
                    #[trigger] gen.individuals()[i],
                    cities@,
                ),
        decreases gen.spec_population_size() - gen.individuals().len(),
    {
        let tour = match TSPath::new(cities, mutation_rate, crossover_rate) {
            Ok(t) => t,
            Err(e) => return Err(e),
        };
        let ghost before = gen.individuals();
        proof {
            assert forall|i: int| 0 <= i < before.len() implies TSPath::compatible(
                #[trigger] before[i],
                tour@,
            ) by {
                assert(is_permutation_of(before[i], cities@));
            }
        }
        gen.push(tour);
        proof {
            assert forall|i: int| 0 <= i < gen.individuals().len() implies is_permutation_of(
                #[trigger] gen.individuals()[i],
                cities@,
            ) by {
                if i < before.len() {
                    assert(gen.individuals()[i] == before[i]);
                }
            }
        }
    }
    Ok(())
}

/// The legs of the closed tour along `path`: each city with the next, and
/// the last city with the first.
pub fn tour_edges(path: &Vec<usize>) -> (r: Vec<(usize, usize)>)
    ensures
        r.len() == path.len(),
        forall|k: int|
            0 <= k < path.len() ==> #[trigger] r@[k] == (path@[k], path@[(k + 1) % (path.len() as int)]),
{
    let n = path.len();
    let mut edges: Vec<(usize, usize)> = Vec::new();
    let mut k: usize = 0;
    while k < n
        invariant
            k <= n == path.len(),
            edges.len() == k,
            forall|x: int| 0 <= x < k ==> #[trigger] edges@[x] == (path@[x], path@[(x + 1) % (n as int)]),
        decreases n - k,
    {
        let next = if k + 1 == n {
            0
        } else {
            k + 1
        };
        proof {
            if k + 1 == n {
                vstd::arithmetic::div_mod::lemma_mod_self_0(n as int);
            } else {
                vstd::arithmetic::div_mod::lemma_small_mod((k + 1) as nat, n as nat);
            }
        }
        edges.push((path[k], path[next]));
        k = k + 1;
    }
    edges
}

} // verus!
