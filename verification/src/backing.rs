//! The backing map: the authoritative key-to-value association, owned by the
//! concurrent `cht` hash table. The engine reads and mutates it only through
//! the wrappers here, whose contracts speak of `backing_contents`, the map of
//! buffered keys to values.

use vstd::prelude::*;

verus! {

#[verifier::external_type_specification]
#[verifier::external_body]
#[verifier::reject_recursive_types(K)]
#[verifier::reject_recursive_types(V)]
#[verifier::reject_recursive_types(S)]
pub struct ExChtHashMap<K, V, S>(cht::HashMap<K, V, S>);

/// The backing map as the engine holds it: string keys and values, hashed by
/// the standard library's default hasher.
pub type BackingMap = cht::HashMap<String, String, std::collections::hash_map::RandomState>;

/// The key-to-value association currently held by the table.
pub uninterp spec fn backing_contents(m: BackingMap) -> Map<Seq<char>, Seq<char>>;

/// The association an empty table holds.
pub open spec fn empty_contents() -> Map<Seq<char>, Seq<char>> {
    Map::empty()
}

/// Relies on cht::HashMap::with_capacity: an empty table sized to hold at
/// least `capacity` entries without reallocating its bucket array.
#[verifier::external_body]
pub(crate) fn backing_new(capacity: usize) -> (r: BackingMap)
    ensures
        backing_contents(r) == empty_contents(),
{
    cht::HashMap::with_capacity(capacity)
}

/// Relies on cht::HashMap::get: a clone of the value corresponding to the
/// key, or `None` when the key is absent.
#[verifier::external_body]
pub(crate) fn backing_get(m: &BackingMap, key: &String) -> (r: Option<String>)
    ensures
        r is Some <==> backing_contents(*m).contains_key(key@),
        r matches Some(v) ==> v@ == backing_contents(*m)[key@],
{
    m.get(key)
}

/// Relies on cht::HashMap::insert: the pair is stored, replacing and
/// returning a clone of the value previously corresponding to the key.
#[verifier::external_body]
pub(crate) fn backing_insert(m: &mut BackingMap, key: String, value: String) -> (r: Option<
    String,
>)
    ensures
        backing_contents(*final(m)) == backing_contents(*old(m)).insert(key@, value@),
        backing_contents(*old(m)).contains_key(key@) ==> (r matches Some(v) && v@
            == backing_contents(*old(m))[key@]),
        !backing_contents(*old(m)).contains_key(key@) ==> r is None,
{
    m.insert(key, value)
}

/// Relies on cht::HashMap::remove: the key's entry is removed and a clone of
/// its value returned, or `None` when the key is absent.
#[verifier::external_body]
pub(crate) fn backing_remove(m: &mut BackingMap, key: &String) -> (r: Option<String>)
    ensures
        backing_contents(*final(m)) == backing_contents(*old(m)).remove(key@),
        backing_contents(*old(m)).contains_key(key@) ==> (r matches Some(v) && v@
            == backing_contents(*old(m))[key@]),
        !backing_contents(*old(m)).contains_key(key@) ==> r is None,
{
    m.remove(key)
}

} // verus!
