//! Tours as permutations of city identifiers, and the operators that
//! recombine or perturb them while keeping them permutations.

use vstd::prelude::*;

use crate::mapping::{
    bimap_pairs, mapping_get_by_left, mapping_get_by_right, mapping_insert, mapping_new,
    pairs_after_insert, CityBiMap,
};

verus! {

/// `s` holds exactly the values of `base`, each once.
pub open spec fn is_permutation_of(s: Seq<usize>, base: Seq<usize>) -> bool {
    &&& s.len() == base.len()
    &&& s.no_duplicates()
    &&& forall|v: usize| s.contains(v) <==> base.contains(v)
}

/// Every element of `s` occurs in `base`.
pub open spec fn members_of(s: Seq<usize>, base: Seq<usize>) -> bool {
    forall|k: int| 0 <= k < s.len() ==> base.contains(#[trigger] s[k])
}

/// A sequence of distinct values drawn from `base` is no longer than `base`.
pub proof fn lemma_distinct_members_len(s: Seq<usize>, base: Seq<usize>)
    requires
        s.no_duplicates(),
        members_of(s, base),
    ensures
        s.len() <= base.len(),
{
    broadcast use vstd::seq_lib::seq_to_set_is_finite;
    s.unique_seq_to_set();
    base.lemma_cardinality_of_set();
    assert(s.to_set().subset_of(base.to_set())) by {
        assert forall|v: usize| s.to_set().contains(v) implies base.to_set().contains(v) by {
            let k = choose|k: int| 0 <= k < s.len() && s[k] == v;
            assert(base.contains(s[k]));
        }
    }
    vstd::set_lib::lemma_len_subset(s.to_set(), base.to_set());
}

/// A sequence of distinct values drawn from `base`, as long as `base`,
/// holds every value of `base`.
pub proof fn lemma_distinct_members_cover(s: Seq<usize>, base: Seq<usize>, v: usize)
    requires
        s.no_duplicates(),
        members_of(s, base),
        s.len() == base.len(),
        base.contains(v),
    ensures
        s.contains(v),
{
    if !s.contains(v) {
        let t = s.push(v);
        assert(t.no_duplicates()) by {
            assert forall|a: int, b: int| 0 <= a < t.len() && 0 <= b < t.len() && a != b
                implies t[a] != t[b] by {
                if a == s.len() {
                    assert(t[b] == s[b]);
                    assert(s.contains(s[b]));
                } else if b == s.len() {
                    assert(t[a] == s[a]);
                    assert(s.contains(s[a]));
                }
            }
        }
        assert(members_of(t, base)) by {
            assert forall|k: int| 0 <= k < t.len() implies base.contains(#[trigger] t[k]) by {
                if k < s.len() {
                    assert(t[k] == s[k]);
                }
            }
        }
        lemma_distinct_members_len(t, base);
    }
}

/// Distinct members of `base`, as many as `base` holds, form a permutation of it.
pub proof fn lemma_permutation_from_members(s: Seq<usize>, base: Seq<usize>)
    requires
        s.no_duplicates(),
        members_of(s, base),
        s.len() == base.len(),
    ensures
        is_permutation_of(s, base),
{
    assert forall|v: usize| s.contains(v) <==> base.contains(v) by {
        if base.contains(v) {
            lemma_distinct_members_cover(s, base, v);
        }
        if s.contains(v) {
            let k = choose|k: int| 0 <= k < s.len() && s[k] == v;
            assert(base.contains(s[k]));
        }
    }
}

/// A permutation of a permutation of `base` is a permutation of `base`.
pub proof fn lemma_permutation_transitive(s: Seq<usize>, t: Seq<usize>, base: Seq<usize>)
    requires
        is_permutation_of(s, t),
        is_permutation_of(t, base),
    ensures
        is_permutation_of(s, base),
{
}

/// The tour with the values at positions `i` and `j` exchanged.
pub open spec fn swapped(s: Seq<usize>, i: int, j: int) -> Seq<usize> {
    s.update(i, s[j]).update(j, s[i])
}

/// The tour with the segment `[i, j]` (both ends included) reversed.
pub open spec fn reversed_segment(s: Seq<usize>, i: int, j: int) -> Seq<usize> {
    Seq::new(s.len(), |k: int| if i <= k <= j { s[i + j - k] } else { s[k] })
}

/// Swap mutation on chosen positions: when `i` and `j` differ, their values
/// are exchanged.
pub fn swap_mutation_at(tour: &Vec<usize>, i: usize, j: usize) -> (r: Vec<usize>)
    requires
        i < tour.len(),
        j < tour.len(),
    ensures
        r@ == swapped(tour@, i as int, j as int),
        tour@.no_duplicates() ==> is_permutation_of(r@, tour@),
{
    let mut child = tour.clone();
    assert(child@ =~= tour@);
    if i != j {
        let a = child[i];
        let b = child[j];
        child.set(i, b);
        child.set(j, a);
    }
    assert(child@ =~= swapped(tour@, i as int, j as int));
    proof {
        if tour@.no_duplicates() {
            lemma_swapped_permutation(tour@, i as int, j as int);
        }
    }
    child
}

proof fn lemma_swapped_permutation(s: Seq<usize>, i: int, j: int)
    requires
        s.no_duplicates(),
        0 <= i < s.len(),
        0 <= j < s.len(),
    ensures
        is_permutation_of(swapped(s, i, j), s),
{
    let t = swapped(s, i, j);
    let src = |k: int| if k == i { j } else if k == j { i } else { k };
    assert forall|k: int| 0 <= k < t.len() implies t[k] == s[src(k)] by {}
    assert(t.no_duplicates()) by {
        assert forall|a: int, b: int| 0 <= a < t.len() && 0 <= b < t.len() && a != b
            implies t[a] != t[b] by {
            assert(t[a] == s[src(a)]);
            assert(t[b] == s[src(b)]);
        }
    }
    assert(members_of(t, s)) by {
        assert forall|k: int| 0 <= k < t.len() implies s.contains(#[trigger] t[k]) by {
            assert(t[k] == s[src(k)]);
        }
    }
    lemma_permutation_from_members(t, s);
}

/// Reverse-sequence mutation on chosen positions: the segment `[i, j]` is
/// reversed in place.
pub fn reverse_sequence_mutation_at(tour: &Vec<usize>, i: usize, j: usize) -> (r: Vec<usize>)
    requires
        i <= j < tour.len(),
    ensures
        r@ == reversed_segment(tour@, i as int, j as int),
        tour@.no_duplicates() ==> is_permutation_of(r@, tour@),
{
    let mut child = tour.clone();
    assert(child@ =~= tour@);
    let mut lo = i;
    let mut hi = j;
    while lo < hi
        invariant
            i <= lo,
            hi <= j < tour.len(),
            lo + hi == i + j,
            child.len() == tour.len(),
            forall|k: int| 0 <= k < tour.len() ==> #[trigger] child@[k] == if lo <= k <= hi
                || k < i || k > j {
                tour@[k]
            } else {
                tour@[i + j - k]
            },
        decreases hi + 1 - lo,
    {
        let a = child[lo];
        let b = child[hi];
        child.set(lo, b);
        child.set(hi, a);
        lo = lo + 1;
        hi = hi - 1;
    }
    assert(child@ =~= reversed_segment(tour@, i as int, j as int));
    proof {
        if tour@.no_duplicates() {
            let t = child@;
            assert(t.no_duplicates()) by {
                assert forall|a: int, b: int| 0 <= a < t.len() && 0 <= b < t.len() && a != b
                    implies t[a] != t[b] by {}
            }
            assert(members_of(t, tour@)) by {
                assert forall|k: int| 0 <= k < t.len() implies tour@.contains(#[trigger] t[k]) by {
                    if i <= k <= j {
                        assert(t[k] == tour@[i + j - k]);
                    } else {
                        assert(t[k] == tour@[k]);
                    }
                }
            }
            lemma_permutation_from_members(t, tour@);
        }
    }
    child
}

/// The value mapping of partially mapped crossover: for each position `p`
/// of the segment `[lo, hi)`, `a[p]` is mapped to `b[p]`.
pub open spec fn segment_map(a: Seq<usize>, b: Seq<usize>, lo: int, hi: int) -> Map<usize, usize> {
    Map::new(
        |v: usize| exists|p: int| lo <= p < hi && a[p] == v,
        |v: usize| b[choose|p: int| lo <= p < hi && a[p] == v],
    )
}

/// `m` applied `t` times to `v`.
pub open spec fn iterate(m: Map<usize, usize>, v: usize, t: nat) -> usize
    decreases t,
{
    if t == 0 {
        v
    } else {
        m[iterate(m, v, (t - 1) as nat)]
    }
}

/// The first `t` values of the chain from `v` all lie in the domain of `m`.
pub open spec fn chain_in_domain(m: Map<usize, usize>, v: usize, t: nat) -> bool {
    forall|s: nat| s < t ==> m.dom().contains(#[trigger] iterate(m, v, s))
}

/// The chain from `v` leaves the domain of `m` after exactly `t` steps.
pub open spec fn chain_ends_at(m: Map<usize, usize>, v: usize, t: nat) -> bool {
    chain_in_domain(m, v, t) && !m.dom().contains(iterate(m, v, t))
}

/// `v` followed through `m` until it is no longer mapped.
pub open spec fn resolve(m: Map<usize, usize>, v: usize) -> usize {
    iterate(m, v, choose|t: nat| chain_ends_at(m, v, t))
}

/// The child of partially mapped crossover that takes the segment `[lo, hi)`
/// from `a` and every other position from `b`, where a value of `b` that
/// collides with the segment is translated through the mapping until it no
/// longer does.
pub open spec fn pmx_child(a: Seq<usize>, b: Seq<usize>, lo: int, hi: int) -> Seq<usize> {
    Seq::new(
        a.len(),
        |k: int|
            if lo <= k < hi {
                a[k]
            } else {
                resolve(segment_map(a, b, lo, hi), b[k])
            },
    )
}

pub open spec fn injective(m: Map<usize, usize>) -> bool {
    forall|x: usize, y: usize|
        #![trigger m[x], m[y]]
        m.dom().contains(x) && m.dom().contains(y) && m[x] == m[y] ==> x == y
}

/// Parents of a crossover: two permutations of one set of cities.
pub open spec fn parents_ok(a: Seq<usize>, b: Seq<usize>) -> bool {
    a.no_duplicates() && is_permutation_of(b, a)
}

proof fn lemma_segment_map(a: Seq<usize>, b: Seq<usize>, lo: int, hi: int)
    requires
        a.no_duplicates(),
        b.no_duplicates(),
        a.len() == b.len(),
        0 <= lo <= hi <= a.len(),
    ensures
        forall|p: int|
            lo <= p < hi ==> segment_map(a, b, lo, hi).contains_key(#[trigger] a[p])
                && segment_map(a, b, lo, hi)[a[p]] == b[p],
        forall|v: usize|
            #[trigger] segment_map(a, b, lo, hi).contains_key(v) ==> exists|p: int|
                lo <= p < hi && a[p] == v && segment_map(a, b, lo, hi)[v] == b[p],
        injective(segment_map(a, b, lo, hi)),
{
    let m = segment_map(a, b, lo, hi);
    assert forall|p: int| lo <= p < hi implies m.contains_key(#[trigger] a[p]) && m[a[p]]
        == b[p] by {
        let q = choose|q: int| lo <= q < hi && a[q] == a[p];
        assert(q == p);
    }
    assert forall|v: usize| #[trigger] m.contains_key(v) implies exists|p: int|
        lo <= p < hi && a[p] == v && m[v] == b[p] by {
        let q = choose|q: int| lo <= q < hi && a[q] == v;
        assert(m[v] == b[q]);
    }
    assert forall|x: usize, y: usize|
        m.dom().contains(x) && m.dom().contains(y) && m[x] == m[y] implies x == y by {
        let p = choose|q: int| lo <= q < hi && a[q] == x;
        let q = choose|q: int| lo <= q < hi && a[q] == y;
        assert(m[x] == b[p]);
        assert(m[y] == b[q]);
    }
}

/// Two chains through an injective map that meet were one chain earlier.
proof fn lemma_iterate_cancel(m: Map<usize, usize>, u: usize, w: usize, a: nat, c: nat)
    requires
        injective(m),
        chain_in_domain(m, u, a),
        chain_in_domain(m, w, c),
        a <= c,
        iterate(m, u, a) == iterate(m, w, c),
    ensures
        u == iterate(m, w, (c - a) as nat),
    decreases a,
{
    if a > 0 {
        let pu = iterate(m, u, (a - 1) as nat);
        let pw = iterate(m, w, (c - 1) as nat);
        assert(m.dom().contains(pu));
        assert(m.dom().contains(pw));
        assert(pu == pw);
        lemma_iterate_cancel(m, u, w, (a - 1) as nat, (c - 1) as nat);
    }
}

proof fn lemma_chain_end_unique(m: Map<usize, usize>, v: usize, t1: nat, t2: nat)
    requires
        chain_ends_at(m, v, t1),
        chain_ends_at(m, v, t2),
    ensures
        t1 == t2,
{
    if t1 < t2 {
        assert(m.dom().contains(iterate(m, v, t1)));
    } else if t2 < t1 {
        assert(m.dom().contains(iterate(m, v, t2)));
    }
}

/// Facts about position `k` outside the segment: the chain from `b[k]`
/// through the segment mapping ends, and where it ends.
proof fn lemma_chain_ends(a: Seq<usize>, b: Seq<usize>, lo: int, hi: int, k: int, t: nat) -> (end: nat)
    requires
        parents_ok(a, b),
        0 <= lo <= hi <= a.len(),
        0 <= k < a.len(),
        !(lo <= k < hi),
        chain_in_domain(segment_map(a, b, lo, hi), b[k], t),
        forall|s1: nat, s2: nat|
            #![trigger iterate(segment_map(a, b, lo, hi), b[k], s1), iterate(segment_map(a, b, lo, hi), b[k], s2)]
            s1 <= t && s2 <= t && s1 != s2 ==> iterate(segment_map(a, b, lo, hi), b[k], s1)
                != iterate(segment_map(a, b, lo, hi), b[k], s2),
        forall|s: nat| s <= t ==> b.contains(#[trigger] iterate(segment_map(a, b, lo, hi), b[k], s)),
    ensures
        end >= t,
        chain_ends_at(segment_map(a, b, lo, hi), b[k], end),
        b.contains(iterate(segment_map(a, b, lo, hi), b[k], end)),
    decreases b.len() - t,
{
    let m = segment_map(a, b, lo, hi);
    let v = b[k];
    lemma_segment_map(a, b, lo, hi);
    let cur = iterate(m, v, t);
    if !m.dom().contains(cur) {
        t
    } else {
        let nt = (t + 1) as nat;
        let next = iterate(m, v, nt);
        assert(next == m[cur]);
        let p = choose|p: int| lo <= p < hi && a[p] == cur && m[cur] == b[p];
        assert(b.contains(next)) by {
            assert(b[p] == next);
        }
        assert(chain_in_domain(m, v, nt));
        assert forall|s: nat| s <= t implies iterate(m, v, s) != next by {
            if s == 0 {
                assert(b[k] != b[p]);
            } else {
                let prev = iterate(m, v, (s - 1) as nat);
                assert(m.dom().contains(prev));
                assert(iterate(m, v, s) == m[prev]);
                if iterate(m, v, s) == next {
                    assert(prev == cur);
                    assert((s - 1) as nat != t);
                }
            }
        }
        let chain = Seq::new((nt + 1) as nat, |s: int| iterate(m, v, s as nat));
        assert(chain.no_duplicates()) by {
            assert forall|x: int, y: int| 0 <= x < chain.len() && 0 <= y < chain.len() && x != y
                implies chain[x] != chain[y] by {
                if x as nat == nt {
                    assert(iterate(m, v, y as nat) != next);
                } else if y as nat == nt {
                    assert(iterate(m, v, x as nat) != next);
                } else {
                    assert(iterate(m, v, x as nat) != iterate(m, v, y as nat));
                }
            }
        }
        assert(members_of(chain, b)) by {
            assert forall|x: int| 0 <= x < chain.len() implies b.contains(#[trigger] chain[x]) by {
                if x as nat <= t {
                    assert(b.contains(iterate(m, v, x as nat)));
                }
            }
        }
        lemma_distinct_members_len(chain, b);
        assert forall|s1: nat, s2: nat|
            #![trigger iterate(m, v, s1), iterate(m, v, s2)]
            s1 <= nt && s2 <= nt && s1 != s2 implies iterate(m, v, s1) != iterate(m, v, s2) by {
            assert(chain[s1 as int] != chain[s2 as int]);
        }
        lemma_chain_ends(a, b, lo, hi, k, nt)
    }
}

/// The translated value at position `k` outside the segment: it lies in `b`
/// and outside the domain of the mapping.
proof fn lemma_resolve(a: Seq<usize>, b: Seq<usize>, lo: int, hi: int, k: int) -> (end: nat)
    requires
        parents_ok(a, b),
        0 <= lo <= hi <= a.len(),
        0 <= k < a.len(),
        !(lo <= k < hi),
    ensures
        chain_ends_at(segment_map(a, b, lo, hi), b[k], end),
        resolve(segment_map(a, b, lo, hi), b[k]) == iterate(segment_map(a, b, lo, hi), b[k], end),
        b.contains(resolve(segment_map(a, b, lo, hi), b[k])),
        !segment_map(a, b, lo, hi).dom().contains(resolve(segment_map(a, b, lo, hi), b[k])),
{
    let m = segment_map(a, b, lo, hi);
    assert(b.contains(iterate(m, b[k], 0)));
    let end = lemma_chain_ends(a, b, lo, hi, k, 0);
    let t = choose|t: nat| chain_ends_at(m, b[k], t);
    lemma_chain_end_unique(m, b[k], t, end);
    end
}

/// Partially mapped crossover yields permutations of its parents' cities.
pub proof fn lemma_pmx_child_permutation(a: Seq<usize>, b: Seq<usize>, lo: int, hi: int)
    requires
        parents_ok(a, b),
        0 <= lo <= hi <= a.len(),
    ensures
        is_permutation_of(pmx_child(a, b, lo, hi), a),
{
    let m = segment_map(a, b, lo, hi);
    let c = pmx_child(a, b, lo, hi);
    lemma_segment_map(a, b, lo, hi);
    assert forall|k: int| 0 <= k < c.len() && !(lo <= k < hi) implies b.contains(#[trigger] c[k])
        && !m.dom().contains(c[k]) by {
        lemma_resolve(a, b, lo, hi, k);
    }
    assert(members_of(c, a)) by {
        assert forall|k: int| 0 <= k < c.len() implies a.contains(#[trigger] c[k]) by {
            if !(lo <= k < hi) {
                assert(b.contains(c[k]));
            }
        }
    }
    assert(c.no_duplicates()) by {
        assert forall|x: int, y: int| 0 <= x < c.len() && 0 <= y < c.len() && x != y implies c[x]
            != c[y] by {
            let xin = lo <= x < hi;
            let yin = lo <= y < hi;
            if xin && !yin {
                assert(m.dom().contains(a[x]));
                assert(!m.dom().contains(c[y]));
            } else if !xin && yin {
                assert(m.dom().contains(a[y]));
                assert(!m.dom().contains(c[x]));
            } else if !xin && !yin {
                let tx = lemma_resolve(a, b, lo, hi, x);
                let ty = lemma_resolve(a, b, lo, hi, y);
                if c[x] == c[y] {
                    if tx <= ty {
                        lemma_iterate_cancel(m, b[x], b[y], tx, ty);
                        if ty > tx {
                            let prev = iterate(m, b[y], (ty - tx - 1) as nat);
                            assert(m.dom().contains(prev));
                            let p = choose|p: int| lo <= p < hi && a[p] == prev && m[prev] == b[p];
                            assert(b[x] == b[p]);
                        }
                    } else {
                        lemma_iterate_cancel(m, b[y], b[x], ty, tx);
                        let prev = iterate(m, b[x], (tx - ty - 1) as nat);
                        assert(m.dom().contains(prev));
                        let p = choose|p: int| lo <= p < hi && a[p] == prev && m[prev] == b[p];
                        assert(b[y] == b[p]);
                    }
                }
            }
        }
    }
    lemma_permutation_from_members(c, a);
}

/// Looks `v` up in the mapping held by `mapping`, read from the side of the
/// parent whose segment the child takes.
fn lookup(
    mapping: &CityBiMap,
    v: usize,
    forward: bool,
    Ghost(a): Ghost<Seq<usize>>,
    Ghost(b): Ghost<Seq<usize>>,
    Ghost(lo): Ghost<int>,
    Ghost(hi): Ghost<int>,
) -> (r: Option<usize>)
    requires
        parents_ok(a, b),
        0 <= lo <= hi <= a.len(),
        bimap_pairs(*mapping) == (if forward {
            segment_map(a, b, lo, hi)
        } else {
            segment_map(b, a, lo, hi)
        }),
    ensures
        r == (if segment_map(a, b, lo, hi).contains_key(v) {
            Some(segment_map(a, b, lo, hi)[v])
        } else {
            None
        }),
{
    let m = Ghost(segment_map(a, b, lo, hi));
    proof {
        lemma_segment_map(a, b, lo, hi);
        lemma_segment_map(b, a, lo, hi);
    }
    if forward {
        mapping_get_by_left(mapping, v)
    } else {
        let r = mapping_get_by_right(mapping, v);
        proof {
            let inv = segment_map(b, a, lo, hi);
            match r {
                Some(left) => {
                    let p = choose|p: int| lo <= p < hi && b[p] == left && inv[left] == a[p];
                    assert(m@.contains_key(a[p]));
                }
                None => {
                    if m@.contains_key(v) {
                        let p = choose|p: int| lo <= p < hi && a[p] == v && m@[v] == b[p];
                        assert(inv.contains_key(b[p]));
                    }
                }
            }
        }
        r
    }
}

/// Follows `b[k]` through the mapping until it no longer collides with the
/// segment taken from `a`.
fn translate(
    mapping: &CityBiMap,
    forward: bool,
    Ghost(a): Ghost<Seq<usize>>,
    Ghost(b): Ghost<Seq<usize>>,
    Ghost(lo): Ghost<int>,
    Ghost(hi): Ghost<int>,
    v: usize,
    Ghost(k): Ghost<int>,
) -> (r: usize)
    requires
        parents_ok(a, b),
        0 <= lo <= hi <= a.len(),
        0 <= k < a.len(),
        !(lo <= k < hi),
        v == b[k],
        bimap_pairs(*mapping) == (if forward {
            segment_map(a, b, lo, hi)
        } else {
            segment_map(b, a, lo, hi)
        }),
    ensures
        r == resolve(segment_map(a, b, lo, hi), v),
{
    let ghost m = segment_map(a, b, lo, hi);
    let ghost end = lemma_resolve(a, b, lo, hi, k);
    let mut cur = v;
    let ghost mut t: nat = 0;
    loop
        invariant
            parents_ok(a, b),
            0 <= lo <= hi <= a.len(),
            bimap_pairs(*mapping) == (if forward {
                segment_map(a, b, lo, hi)
            } else {
                segment_map(b, a, lo, hi)
            }),
            m == segment_map(a, b, lo, hi),
            chain_ends_at(m, v, end),
            chain_in_domain(m, v, t),
            t <= end,
            cur == iterate(m, v, t),
            resolve(m, v) == iterate(m, v, end),
        decreases end - t,
    {
        match lookup(mapping, cur, forward, Ghost(a), Ghost(b), Ghost(lo), Ghost(hi)) {
            Some(next) => {
                proof {
                    if t == end {
                        assert(!m.dom().contains(cur));
                    }
                    assert(iterate(m, v, (t + 1) as nat) == next);
                    t = t + 1;
                }
                cur = next;
            },
            None => {
                proof {
                    if t < end {
                        assert(m.dom().contains(iterate(m, v, t)));
                    }
                }
                return cur;
            },
        }
    }
}

/// Partially mapped crossover with the segment `[i, j]` (both ends
/// included). The first child takes the segment from `parent_1` and the
/// other positions from `parent_0`; the second takes the segment from
/// `parent_0` and the other positions from `parent_1`. A value that collides
/// with the segment is translated through the bijective mapping between the
/// two segments until it no longer does.
pub fn partially_mapped_crossover_at(
    parent_0: &Vec<usize>,
    parent_1: &Vec<usize>,
    i: usize,
    j: usize,
) -> (r: (Vec<usize>, Vec<usize>))
    requires
        parents_ok(parent_0@, parent_1@),
        i <= j < parent_0.len(),
    ensures
        r.0@ == pmx_child(parent_1@, parent_0@, i as int, j + 1),
        r.1@ == pmx_child(parent_0@, parent_1@, i as int, j + 1),
        is_permutation_of(r.0@, parent_0@),
        is_permutation_of(r.1@, parent_0@),
{
    let ghost a = parent_0@;
    let ghost b = parent_1@;
    let ghost lo = i as int;
    let ghost hi = j + 1;
    let length = parent_0.len();
    let mut child_0 = parent_0.clone();
    let mut child_1 = parent_1.clone();
    let mut mapping = mapping_new();
    proof {
        lemma_segment_map(a, b, lo, hi);
        assert(bimap_pairs(mapping) =~= segment_map(a, b, lo, lo));
        assert(is_permutation_of(a, b)) by {
            lemma_permutation_from_members(a, b);
        }
    }
    let mut idx = i;
    while idx <= j
        invariant
            parents_ok(a, b),
            a == parent_0@,
            b == parent_1@,
            length == a.len(),
            lo == i,
            hi == j + 1,
            i <= idx <= j + 1,
            j < length,
            child_0.len() == length,
            child_1.len() == length,
            forall|k: int|
                0 <= k < length ==> #[trigger] child_0@[k] == if i <= k < idx {
                    b[k]
                } else {
                    a[k]
                },
            forall|k: int|
                0 <= k < length ==> #[trigger] child_1@[k] == if i <= k < idx {
                    a[k]
                } else {
                    b[k]
                },
            bimap_pairs(mapping) == segment_map(a, b, lo, idx as int),
        decreases j + 1 - idx,
    {
        let left = parent_0[idx];
        let right = parent_1[idx];
        child_1.set(idx, left);
        child_0.set(idx, right);
        proof {
            let old_m = segment_map(a, b, lo, idx as int);
            let new_m = segment_map(a, b, lo, idx + 1);
            lemma_segment_map(a, b, lo, idx as int);
            lemma_segment_map(a, b, lo, idx + 1);
            assert(pairs_after_insert(old_m, left, right) =~= new_m) by {
                assert forall|v: usize| #[trigger] new_m.contains_key(v) implies pairs_after_insert(
                    old_m,
                    left,
                    right,
                ).contains_key(v) by {
                    let p = choose|p: int| lo <= p < idx + 1 && a[p] == v && new_m[v] == b[p];
                    if p < idx {
                        assert(old_m.contains_key(a[p]));
                        assert(old_m[v] == b[p]);
                        assert(b[p] != b[idx as int]);
                    }
                }
                assert forall|v: usize| #[trigger]
                    pairs_after_insert(old_m, left, right).contains_key(v) implies new_m.contains_key(
                    v,
                ) by {
                    if v != left {
                        let p = choose|p: int| lo <= p < idx && a[p] == v && old_m[v] == b[p];
                        assert(new_m.contains_key(a[p]));
                    }
                }
                assert forall|v: usize| #[trigger]
                    new_m.contains_key(v) implies pairs_after_insert(old_m, left, right)[v]
                    == new_m[v] by {
                    let p = choose|p: int| lo <= p < idx + 1 && a[p] == v && new_m[v] == b[p];
                    if p < idx {
                        assert(old_m.contains_key(a[p]));
                        assert(old_m[v] == b[p]);
                    }
                }
            }
        }
        mapping_insert(&mut mapping, left, right);
        idx = idx + 1;
    }
    let mut k: usize = 0;
    while k < length
        invariant
            parents_ok(a, b),
            is_permutation_of(a, b),
            a == parent_0@,
            b == parent_1@,
            length == a.len(),
            lo == i,
            hi == j + 1,
            i <= j < length,
            k <= length,
            child_0.len() == length,
            child_1.len() == length,
            forall|x: int|
                0 <= x < length ==> #[trigger] child_0@[x] == if lo <= x < hi {
                    b[x]
                } else if x < k {
                    pmx_child(b, a, lo, hi)[x]
                } else {
                    a[x]
                },
            forall|x: int|
                0 <= x < length ==> #[trigger] child_1@[x] == if lo <= x < hi {
                    a[x]
                } else if x < k {
                    pmx_child(a, b, lo, hi)[x]
                } else {
                    b[x]
                },
            bimap_pairs(mapping) == segment_map(a, b, lo, hi),
        decreases length - k,
    {
        if k < i || k > j {
            let v1 = translate(
                &mapping,
                true,
                Ghost(a),
                Ghost(b),
                Ghost(lo),
                Ghost(hi),
                parent_1[k],
                Ghost(k as int),
            );
            child_1.set(k, v1);
            let v0 = translate(
                &mapping,
                false,
                Ghost(b),
                Ghost(a),
                Ghost(lo),
                Ghost(hi),
                parent_0[k],
                Ghost(k as int),
            );
            child_0.set(k, v0);
        }
        k = k + 1;
    }
    proof {
        assert(child_0@ =~= pmx_child(b, a, lo, hi));
        assert(child_1@ =~= pmx_child(a, b, lo, hi));
        lemma_pmx_child_permutation(a, b, lo, hi);
        lemma_pmx_child_permutation(b, a, lo, hi);
        lemma_permutation_transitive(child_0@, b, a);
    }
    (child_0, child_1)
}

/// The number of positions before `k` that are not kept on `side`: the
/// rank of an empty slot among the empty slots.
pub open spec fn slot_rank(keep: Seq<bool>, side: bool, k: int) -> nat
    decreases k,
{
    if k <= 0 {
        0
    } else {
        slot_rank(keep, side, k - 1) + if keep[k - 1] != side {
            1nat
        } else {
            0nat
        }
    }
}

/// `v` stands at a position of `a` that is kept on `side`.
pub open spec fn is_kept(a: Seq<usize>, keep: Seq<bool>, side: bool, v: usize) -> bool {
    exists|q: int| 0 <= q < a.len() && keep[q] == side && a[q] == v
}

/// The values among the first `len` of `b` that are not kept, in the order
/// of `b`.
pub open spec fn ox_missing(a: Seq<usize>, b: Seq<usize>, keep: Seq<bool>, side: bool, len: int) -> Seq<usize>
    decreases len,
{
    if len <= 0 {
        Seq::empty()
    } else {
        let prev = ox_missing(a, b, keep, side, len - 1);
        if is_kept(a, keep, side, b[len - 1]) {
            prev
        } else {
            prev.push(b[len - 1])
        }
    }
}

/// The child of order crossover: the positions kept on `side` hold the
/// values of `a`; the other positions, in increasing order, receive the
/// values of `b` that are not kept, in the order of `b`.
pub open spec fn ox_child(a: Seq<usize>, b: Seq<usize>, keep: Seq<bool>, side: bool) -> Seq<usize> {
    Seq::new(
        a.len(),
        |k: int|
            if keep[k] == side {
                a[k]
            } else {
                ox_missing(a, b, keep, side, b.len() as int)[slot_rank(keep, side, k) as int]
            },
    )
}

proof fn lemma_slot_rank_monotone(keep: Seq<bool>, side: bool, x: int, y: int)
    requires
        0 <= x <= y,
    ensures
        slot_rank(keep, side, x) <= slot_rank(keep, side, y),
    decreases y - x,
{
    if x < y {
        lemma_slot_rank_monotone(keep, side, x, y - 1);
    }
}

proof fn lemma_ox_missing_from_prefix(a: Seq<usize>, b: Seq<usize>, keep: Seq<bool>, side: bool, len: int)
    requires
        0 <= len <= b.len(),
    ensures
        forall|r: int|
            0 <= r < ox_missing(a, b, keep, side, len).len() ==> exists|q: int|
                0 <= q < len && b[q] == #[trigger] ox_missing(a, b, keep, side, len)[r],
    decreases len,
{
    if len > 0 {
        lemma_ox_missing_from_prefix(a, b, keep, side, len - 1);
        let prev = ox_missing(a, b, keep, side, len - 1);
        let cur = ox_missing(a, b, keep, side, len);
        assert forall|r: int| 0 <= r < cur.len() implies exists|q: int|
            0 <= q < len && b[q] == #[trigger] cur[r] by {
            if r < prev.len() {
                assert(cur[r] == prev[r]);
                let q = choose|q: int| 0 <= q < len - 1 && b[q] == prev[r];
                assert(b[q] == cur[r]);
            } else {
                assert(cur[r] == b[len - 1]);
            }
        }
    }
}

/// Whether some slot holds `v`.
fn slots_contain(slots: &Vec<Option<usize>>, v: usize) -> (r: bool)
    ensures
        r == exists|k: int| 0 <= k < slots.len() && slots@[k] == Some(v),
{
    let mut k: usize = 0;
    while k < slots.len()
        invariant
            k <= slots.len(),
            forall|x: int| 0 <= x < k ==> slots@[x] != Some(v),
        decreases slots.len() - k,
    {
        if slots[k] == Some(v) {
            return true;
        }
        k = k + 1;
    }
    false
}

/// The distinct values held by `slots`, when every slot is filled.
spec fn slot_values(slots: Seq<Option<usize>>) -> Seq<usize> {
    Seq::new(slots.len(), |k: int| slots[k]->0)
}

spec fn slots_distinct(slots: Seq<Option<usize>>) -> bool {
    forall|x: int, y: int|
        0 <= x < slots.len() && 0 <= y < slots.len() && x != y && slots[x] is Some && slots[y] is Some
            ==> slots[x] != slots[y]
}

/// One child of order crossover: kept positions take `a`'s values, then the
/// values of `b` that are still absent fill the empty slots front to back.
fn order_crossover_child(a: &Vec<usize>, b: &Vec<usize>, keep: &Vec<bool>, side: bool) -> (r: Vec<usize>)
    requires
        parents_ok(a@, b@),
        keep.len() == a.len(),
    ensures
        r@ == ox_child(a@, b@, keep@, side),
        is_permutation_of(r@, a@),
{
    let n = a.len();
    let ghost am = a@;
    let ghost bm = b@;
    let ghost km = keep@;
    let mut slots: Vec<Option<usize>> = Vec::new();
    let mut k: usize = 0;
    while k < n
        invariant
            k <= n == a.len() == keep.len(),
            slots.len() == k,
            forall|x: int| 0 <= x < k ==> #[trigger] slots@[x] == if keep@[x] == side {
                Some(a@[x])
            } else {
                None
            },
        decreases n - k,
    {
        if keep[k] == side {
            slots.push(Some(a[k]));
        } else {
            slots.push(None);
        }
        k = k + 1;
    }
    let ghost mut m: nat = 0;
    let mut next: usize = 0;
    let mut idx: usize = 0;
    while idx < n
        invariant
            parents_ok(am, bm),
            am == a@,
            bm == b@,
            km == keep@,
            n == am.len() == bm.len() == km.len() == slots.len(),
            idx <= n,
            next <= n,
            m == ox_missing(am, bm, km, side, idx as int).len(),
            slot_rank(km, side, next as int) == m,
            forall|x: int| 0 <= x < n ==> #[trigger] slots@[x] == if km[x] == side {
                Some(am[x])
            } else if slot_rank(km, side, x) < m {
                Some(ox_missing(am, bm, km, side, idx as int)[slot_rank(km, side, x) as int])
            } else {
                None
            },
            slots_distinct(slots@),
            forall|x: int| 0 <= x < n && slots@[x] is Some ==> am.contains(#[trigger] slots@[x]->0),
            forall|q: int| 0 <= q < idx ==> exists|x: int| 0 <= x < n && slots@[x] == Some(#[trigger] bm[q]),
        decreases n - idx,
    {
        let v = b[idx];
        proof {
            lemma_ox_missing_from_prefix(am, bm, km, side, idx as int);
        }
        let present = slots_contain(&slots, v);
        let ghost missing = ox_missing(am, bm, km, side, idx as int);
        proof {
            assert(ox_missing(am, bm, km, side, idx + 1) == if is_kept(am, km, side, v) {
                missing
            } else {
                missing.push(v)
            });
            if is_kept(am, km, side, v) {
                let q = choose|q: int| 0 <= q < n && km[q] == side && am[q] == v;
                assert(slots@[q] == Some(v));
            } else if present {
                let x = choose|x: int| 0 <= x < n && slots@[x] == Some(v);
                if km[x] == side {
                    assert(is_kept(am, km, side, v));
                } else {
                    let r = slot_rank(km, side, x) as int;
                    let q = choose|q: int| 0 <= q < idx && bm[q] == missing[r];
                    assert(bm[q] == bm[idx as int]);
                }
            }
        }
        if !present {
            proof {
                if forall|x: int| 0 <= x < n ==> slots@[x] is Some {
                    let vals = slot_values(slots@);
                    assert(vals.no_duplicates()) by {
                        assert forall|x: int, y: int| 0 <= x < vals.len() && 0 <= y < vals.len() && x != y
                            implies vals[x] != vals[y] by {
                            assert(slots@[x] is Some && slots@[y] is Some);
                        }
                    }
                    assert(members_of(vals, am)) by {
                        assert forall|x: int| 0 <= x < vals.len() implies am.contains(#[trigger] vals[x]) by {
                            assert(slots@[x] is Some);
                        }
                    }
                    assert(am.contains(v));
                    lemma_distinct_members_cover(vals, am, v);
                    let x = choose|x: int| 0 <= x < vals.len() && vals[x] == v;
                    assert(slots@[x] is Some);
                    assert(slots@[x] == Some(v));
                }
                let e = choose|x: int| 0 <= x < n && !(slots@[x] is Some);
                if e < next {
                    lemma_slot_rank_monotone(km, side, e + 1, next as int);
                }
                assert(e >= next);
            }
            while slots[next].is_some()
                invariant
                    n == slots.len() == km.len(),
                    next < n,
                    slot_rank(km, side, next as int) == m,
                    exists|x: int| next <= x < n && !(#[trigger] slots@[x] is Some),
                    forall|x: int| 0 <= x < n ==> #[trigger] slots@[x] == if km[x] == side {
                        Some(am[x])
                    } else if slot_rank(km, side, x) < m {
                        Some(ox_missing(am, bm, km, side, idx as int)[slot_rank(km, side, x) as int])
                    } else {
                        None
                    },
                decreases n - next,
            {
                assert(km[next as int] == side);
                assert(slot_rank(km, side, next + 1) == slot_rank(km, side, next as int));
                next = next + 1;
            }
            let ghost old_slots = slots@;
            slots.set(next, Some(v));
            proof {
                assert(km[next as int] != side);
                assert(slot_rank(km, side, next + 1) == m + 1);
                let new_missing = missing.push(v);
                assert forall|x: int| 0 <= x < n implies #[trigger] slots@[x] == if km[x] == side {
                    Some(am[x])
                } else if slot_rank(km, side, x) < m + 1 {
                    Some(new_missing[slot_rank(km, side, x) as int])
                } else {
                    None
                } by {
                    if x != next && km[x] != side {
                        if x < next {
                            lemma_slot_rank_monotone(km, side, x + 1, next as int);
                        } else {
                            lemma_slot_rank_monotone(km, side, next + 1, x);
                        }
                    }
                }
                assert(slots_distinct(slots@)) by {
                    assert forall|x: int, y: int|
                        0 <= x < n && 0 <= y < n && x != y && slots@[x] is Some && slots@[y] is Some
                        implies slots@[x] != slots@[y] by {
                        if x == next {
                            assert(old_slots[y] != Some(v));
                        } else if y == next {
                            assert(old_slots[x] != Some(v));
                        } else {
                            assert(old_slots[x] == slots@[x] && old_slots[y] == slots@[y]);
                        }
                    }
                }
                assert forall|q: int| 0 <= q < idx + 1 implies exists|x: int|
                    0 <= x < n && slots@[x] == Some(#[trigger] bm[q]) by {
                    if q < idx {
                        let x = choose|x: int| 0 <= x < n && old_slots[x] == Some(bm[q]);
                        assert(slots@[x] == Some(bm[q]));
                    } else {
                        assert(slots@[next as int] == Some(bm[q]));
                    }
                }
                m = m + 1;
            }
            next = next + 1;
        } else {
            proof {
                assert forall|q: int| 0 <= q < idx + 1 implies exists|x: int|
                    0 <= x < n && slots@[x] == Some(#[trigger] bm[q]) by {
                    if q == idx {
                        let x = choose|x: int| 0 <= x < n && slots@[x] == Some(v);
                    }
                }
            }
        }
        idx = idx + 1;
    }
    proof {
        let full = ox_missing(am, bm, km, side, n as int);
        let range = Seq::new(n as nat, |x: int| x as usize);
        let pos = Seq::new(
            n as nat,
            |r: int| (choose|x: int| 0 <= x < n && slots@[x] == Some(am[r])) as usize,
        );
        assert forall|r: int| 0 <= r < n implies exists|x: int|
            0 <= x < n && slots@[x] == Some(#[trigger] am[r]) by {
            assert(bm.contains(am[r]));
            let q = choose|q: int| 0 <= q < n && bm[q] == am[r];
            assert(exists|x: int| 0 <= x < n && slots@[x] == Some(bm[q]));
        }
        assert(pos.no_duplicates()) by {
            assert forall|x: int, y: int| 0 <= x < n && 0 <= y < n && x != y implies pos[x]
                != pos[y] by {
                assert(exists|z: int| 0 <= z < n && slots@[z] == Some(am[x]));
                assert(exists|z: int| 0 <= z < n && slots@[z] == Some(am[y]));
            }
        }
        assert(members_of(pos, range)) by {
            assert forall|r: int| 0 <= r < n implies range.contains(#[trigger] pos[r]) by {
                assert(exists|z: int| 0 <= z < n && slots@[z] == Some(am[r]));
                assert(range[pos[r] as int] == pos[r]);
            }
        }
        assert forall|x: int| 0 <= x < n implies #[trigger] slots@[x] is Some by {
            assert(range[x] == x as usize);
            lemma_distinct_members_cover(pos, range, x as usize);
            let r = choose|r: int| 0 <= r < n && pos[r] == x as usize;
            assert(exists|z: int| 0 <= z < n && slots@[z] == Some(am[r]));
        }
    }
    let mut result: Vec<usize> = Vec::new();
    let mut x: usize = 0;
    while x < n
        invariant
            x <= n == slots.len(),
            forall|y: int| 0 <= y < n ==> #[trigger] slots@[y] is Some,
            result.len() == x,
            forall|y: int| 0 <= y < x ==> Some(#[trigger] result@[y]) == slots@[y],
        decreases n - x,
    {
        match slots[x] {
            Some(v) => result.push(v),
            None => {},
        }
        x = x + 1;
    }
    proof {
        assert(result@ =~= ox_child(am, bm, km, side)) by {
            assert forall|y: int| 0 <= y < n implies result@[y] == ox_child(am, bm, km, side)[y] by {
                assert(slots@[y] is Some);
            }
        }
        assert(result@.no_duplicates()) by {
            assert forall|y: int, z: int| 0 <= y < n && 0 <= z < n && y != z implies result@[y]
                != result@[z] by {
                assert(slots@[y] is Some && slots@[z] is Some);
            }
        }
        assert(members_of(result@, am)) by {
            assert forall|y: int| 0 <= y < n implies am.contains(#[trigger] result@[y]) by {
                assert(slots@[y] is Some);
            }
        }
        lemma_permutation_from_members(result@, am);
    }
    result
}

/// Order crossover with the positions marked in `keep`: the first child
/// keeps `parent_0`'s values at the marked positions, the second at the
/// unmarked ones; each then fills its empty slots, front to back, with the
/// values of `parent_1` it lacks, in `parent_1`'s order.
pub fn order_crossover_at(parent_0: &Vec<usize>, parent_1: &Vec<usize>, keep: &Vec<bool>) -> (r: (
    Vec<usize>,
    Vec<usize>,
))
    requires
        parents_ok(parent_0@, parent_1@),
        keep.len() == parent_0.len(),
    ensures
        r.0@ == ox_child(parent_0@, parent_1@, keep@, true),
        r.1@ == ox_child(parent_0@, parent_1@, keep@, false),
        is_permutation_of(r.0@, parent_0@),
        is_permutation_of(r.1@, parent_0@),
{
    let child_0 = order_crossover_child(parent_0, parent_1, keep, true);
    let child_1 = order_crossover_child(parent_0, parent_1, keep, false);
    (child_0, child_1)
}

/// A tour whose segment `[lo, hi)` was reordered, and nothing else changed,
/// is a permutation of the tour it came from.
pub proof fn lemma_shuffled_permutation(old: Seq<usize>, new: Seq<usize>, lo: int, hi: int)
    requires
        old.no_duplicates(),
        0 <= lo <= hi <= old.len(),
        new.len() == old.len(),
        new.subrange(lo, hi).to_multiset() == old.subrange(lo, hi).to_multiset(),
        forall|k: int| 0 <= k < old.len() && !(lo <= k < hi) ==> #[trigger] new[k] == old[k],
    ensures
        is_permutation_of(new, old),
{
    broadcast use vstd::seq_lib::group_to_multiset_ensures;
    let os = old.subrange(lo, hi);
    let ns = new.subrange(lo, hi);
    assert(os.no_duplicates());
    os.lemma_multiset_has_no_duplicates();
    ns.lemma_multiset_has_no_duplicates_conv();
    assert forall|k: int| lo <= k < hi implies exists|p: int| lo <= p < hi && old[p] == #[trigger] new[k] by {
        assert(ns[k - lo] == new[k]);
        assert(ns.contains(new[k]));
        assert(ns.to_multiset().count(new[k]) > 0);
        assert(os.to_multiset().count(new[k]) > 0);
        assert(os.contains(new[k]));
        let q = choose|q: int| 0 <= q < os.len() && os[q] == new[k];
        assert(old[q + lo] == new[k]);
    }
    assert(new.no_duplicates()) by {
        assert forall|x: int, y: int| 0 <= x < new.len() && 0 <= y < new.len() && x != y implies new[x]
            != new[y] by {
            let xin = lo <= x < hi;
            let yin = lo <= y < hi;
            if xin && yin {
                assert(ns[x - lo] != ns[y - lo]);
            } else if xin {
                let p = choose|p: int| lo <= p < hi && old[p] == new[x];
                assert(old[p] != old[y]);
            } else if yin {
                let p = choose|p: int| lo <= p < hi && old[p] == new[y];
                assert(old[p] != old[x]);
            }
        }
    }
    assert(members_of(new, old)) by {
        assert forall|k: int| 0 <= k < new.len() implies old.contains(#[trigger] new[k]) by {
            if lo <= k < hi {
                let p = choose|p: int| lo <= p < hi && old[p] == new[k];
            } else {
                assert(old[k] == new[k]);
            }
        }
    }
    lemma_permutation_from_members(new, old);
}

} // verus!
