use indexmap::IndexMap;
use vstd::prelude::*;

verus! {

/// indexmap's `IndexMap`, held as an opaque value.
#[verifier::external_type_specification]
#[verifier::external_body]
#[verifier::reject_recursive_types(K)]
#[verifier::reject_recursive_types(V)]
#[verifier::reject_recursive_types(S)]
pub struct ExIndexMap<K, V, S>(IndexMap<K, V, S>);

/// Unit positions by unit name.
pub type NameIndex = IndexMap<String, usize>;

/// What a name index maps each name to.
pub uninterp spec fn index_contents(m: NameIndex) -> Map<Seq<char>, usize>;

/// Relies on `IndexMap::new`: the map starts empty.
#[verifier::external_body]
pub(crate) fn index_new() -> (r: NameIndex)
    ensures
        index_contents(r).dom() == Set::<Seq<char>>::empty(),
{
    IndexMap::new()
}

/// Relies on `IndexMap::get`: the value stored under an equal key, if any.
#[verifier::external_body]
pub(crate) fn index_get(m: &NameIndex, key: &str) -> (r: Option<usize>)
    ensures
        match r {
            Some(v) => index_contents(*m).contains_key(key@) && index_contents(*m)[key@] == v,
            None => !index_contents(*m).contains_key(key@),
        },
{
    m.get(key).copied()
}

/// Relies on `IndexMap::insert`: the key now maps to the value; other keys are kept.
#[verifier::external_body]
pub(crate) fn index_insert(m: &mut NameIndex, key: String, value: usize)
    ensures
        index_contents(*final(m)) == index_contents(*old(m)).insert(key@, value),
{
    m.insert(key, value);
}

/// Relies on `IndexMap::swap_remove`: the key no longer maps to anything; other keys are kept.
#[verifier::external_body]
pub(crate) fn index_remove(m: &mut NameIndex, key: &str)
    ensures
        index_contents(*final(m)) == index_contents(*old(m)).remove(key@),
{
    m.swap_remove(key);
}

} // verus!
