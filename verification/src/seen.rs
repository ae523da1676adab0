use vstd::prelude::*;

verus! {

/// `ahash::RandomState`, the hasher of the sets below; nothing is read of it.
#[verifier::external_type_specification]
#[verifier::external_body]
pub struct ExRandomState(ahash::RandomState);

/// `Default::default` of `ahash::HashSet`: a set that holds nothing.
#[verifier::external_body]
pub(crate) fn new_cell_set() -> (set: ahash::HashSet<u64>)
    ensures
        set@ == Set::<u64>::empty(),
{
    ahash::HashSet::default()
}

/// `HashSet::contains` on an `ahash::HashSet`: whether `cell` is a member.
#[verifier::external_body]
pub(crate) fn cell_set_holds(set: &ahash::HashSet<u64>, cell: u64) -> (held: bool)
    ensures
        held == set@.contains(cell),
{
    set.contains(&cell)
}

/// `HashSet::extend` on an `ahash::HashSet`: afterwards the set holds what
/// it held and every member of `cells`.
#[verifier::external_body]
pub(crate) fn cell_set_extend(set: &mut ahash::HashSet<u64>, cells: &Vec<u64>)
    ensures
        forall|cell: u64| final(set)@.contains(cell) <==> old(set)@.contains(cell) || cells@.contains(cell),
{
    set.extend(cells.iter().copied());
}

/// `Default::default` of `ahash::HashMap`: a map without entries.
#[verifier::external_body]
pub(crate) fn new_position_map() -> (positions: ahash::HashMap<u64, usize>)
    ensures
        positions@ == (Map::<u64, usize>::empty()),
{
    ahash::HashMap::default()
}

/// `HashMap::get` on an `ahash::HashMap`: the position kept for `key`, if
/// one is kept.
#[verifier::external_body]
pub(crate) fn position_map_get(positions: &ahash::HashMap<u64, usize>, key: u64) -> (found: Option<usize>)
    ensures
        (found is Some) == positions@.contains_key(key),
        found is Some ==> found->Some_0 == positions@[key],
{
    positions.get(&key).copied()
}

/// `HashMap::insert` on an `ahash::HashMap`: afterwards `position` is kept
/// for `key`, and for every other key what was kept before.
#[verifier::external_body]
pub(crate) fn position_map_insert(positions: &mut ahash::HashMap<u64, usize>, key: u64, place: usize)
    ensures
        final(positions)@ == old(positions)@.insert(key, place),
{
    positions.insert(key, place);
}

} // verus!
