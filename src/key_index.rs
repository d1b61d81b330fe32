use vstd::prelude::*;

verus! {

/// A hash map from a word to a position, kept in a `hashbrown::HashMap`.
#[verifier::external_body]
pub struct KeyIndex {
    map: hashbrown::HashMap<String, usize>,
}

/// What a `KeyIndex` holds: each word present and its position.
pub uninterp spec fn positions(m: KeyIndex) -> Map<Seq<char>, usize>;

/// Relies on hashbrown::HashMap::new: a new map is empty.
#[verifier::external_body]
pub(crate) fn index_new() -> (r: KeyIndex)
    ensures
        positions(r).dom().len() == 0,
        positions(r).dom().finite(),
{
    KeyIndex { map: hashbrown::HashMap::new() }
}

/// Relies on hashbrown::HashMap::get: the value stored under an equal key, if any.
/// `String` compares and hashes by its characters.
#[verifier::external_body]
pub(crate) fn index_get(m: &KeyIndex, k: &str) -> (r: Option<usize>)
    ensures
        r == (if positions(*m).contains_key(k@) {
            Some(positions(*m)[k@])
        } else {
            None::<usize>
        }),
{
    m.map.get(k).copied()
}

/// Relies on hashbrown::HashMap::insert: afterwards `k` maps to `v` and no other
/// key changes.
#[verifier::external_body]
pub(crate) fn index_insert(m: &mut KeyIndex, k: String, v: usize)
    ensures
        positions(*final(m)) == positions(*old(m)).insert(k@, v),
{
    m.map.insert(k, v);
}

/// Relies on hashbrown::HashMap::remove: afterwards no key equal to `k` is present
/// and no other key changes.
#[verifier::external_body]
pub(crate) fn index_remove(m: &mut KeyIndex, k: &str)
    ensures
        positions(*final(m)) == positions(*old(m)).remove(k@),
{
    m.map.remove(k);
}

/// A hash map from a pair of words to a position, kept in a `hashbrown::HashMap`.
#[verifier::external_body]
pub struct PairIndex {
    map: hashbrown::HashMap<(String, String), usize>,
}

/// What a `PairIndex` holds: each pair present and its position.
pub uninterp spec fn pair_positions(m: PairIndex) -> Map<(Seq<char>, Seq<char>), usize>;

/// Relies on hashbrown::HashMap::new: a new map is empty.
#[verifier::external_body]
pub(crate) fn pair_index_new() -> (r: PairIndex)
    ensures
        pair_positions(r).dom().len() == 0,
        pair_positions(r).dom().finite(),
{
    PairIndex { map: hashbrown::HashMap::new() }
}

/// Relies on hashbrown::HashMap::get: the value stored under an equal pair, if
/// any. A pair of `String`s compares and hashes by its characters.
#[verifier::external_body]
pub(crate) fn pair_index_get(m: &PairIndex, a: &str, b: &str) -> (r: Option<usize>)
    ensures
        r == (if pair_positions(*m).contains_key((a@, b@)) {
            Some(pair_positions(*m)[(a@, b@)])
        } else {
            None::<usize>
        }),
{
    m.map.get(&(a.to_string(), b.to_string())).copied()
}

/// Relies on hashbrown::HashMap::insert: afterwards `(a, b)` maps to `v` and no
/// other pair changes.
#[verifier::external_body]
pub(crate) fn pair_index_insert(m: &mut PairIndex, a: String, b: String, v: usize)
    ensures
        pair_positions(*final(m)) == pair_positions(*old(m)).insert((a@, b@), v),
{
    m.map.insert((a, b), v);
}

} // verus!
