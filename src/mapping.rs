//! The two-way value mapping of partially mapped crossover, held in a
//! `bimap::BiMap`.

use vstd::prelude::*;

verus! {

#[verifier::external_type_specification]
#[verifier::external_body]
#[verifier::reject_recursive_types(L)]
#[verifier::reject_recursive_types(R)]
#[verifier::reject_recursive_types(LS)]
#[verifier::reject_recursive_types(RS)]
pub struct ExBiHashMap<L, R, LS, RS>(bimap::BiHashMap<L, R, LS, RS>);

/// A bimap between city identifiers.
pub type CityBiMap = bimap::BiMap<usize, usize>;

/// The left-to-right pairs that a bimap holds.
pub uninterp spec fn bimap_pairs(m: CityBiMap) -> Map<usize, usize>;

/// The pairs after `insert(left, right)`: any pair that shares the left or
/// the right value is dropped, then the new pair is added.
pub open spec fn pairs_after_insert(m: Map<usize, usize>, left: usize, right: usize) -> Map<
    usize,
    usize,
> {
    Map::new(
        |k: usize| k == left || (m.contains_key(k) && m[k] != right),
        |k: usize|
            if k == left {
                right
            } else {
                m[k]
            },
    )
}

/// Relies on `bimap::BiMap::new`: an empty bimap.
#[verifier::external_body]
pub(crate) fn mapping_new() -> (r: CityBiMap)
    ensures
        bimap_pairs(r).dom().is_empty(),
{
    bimap::BiMap::new()
}

/// Relies on `bimap::BiMap::insert`, which first removes the pairs holding
/// `left` or `right` and then adds `(left, right)`.
#[verifier::external_body]
pub(crate) fn mapping_insert(m: &mut CityBiMap, left: usize, right: usize)
    ensures
        bimap_pairs(*final(m)) == pairs_after_insert(bimap_pairs(*old(m)), left, right),
{
    m.insert(left, right);
}

/// Relies on `bimap::BiMap::get_by_left`: the right value paired with
/// `left`, if any.
#[verifier::external_body]
pub(crate) fn mapping_get_by_left(m: &CityBiMap, left: usize) -> (r: Option<usize>)
    ensures
        r == (if bimap_pairs(*m).contains_key(left) {
            Some(bimap_pairs(*m)[left])
        } else {
            None
        }),
{
    m.get_by_left(&left).copied()
}

/// Relies on `bimap::BiMap::get_by_right`: the left value paired with
/// `right`, if any.
#[verifier::external_body]
pub(crate) fn mapping_get_by_right(m: &CityBiMap, right: usize) -> (r: Option<usize>)
    ensures
        match r {
            Some(left) => bimap_pairs(*m).contains_key(left) && bimap_pairs(*m)[left] == right,
            None => forall|k: usize| #[trigger]
                bimap_pairs(*m).contains_key(k) ==> bimap_pairs(*m)[k] != right,
        },
{
    m.get_by_right(&right).copied()
}

} // verus!
