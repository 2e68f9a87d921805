//! The in-memory index: key to the position of the key's live `Set` record,
//! kept in a concurrent skip list.
use vstd::prelude::*;
use vstd::utf8::*;
use crossbeam_skiplist::SkipMap;
use crate::command::CommandPos;

verus! {

#[verifier::external_type_specification]
#[verifier::external_body]
#[verifier::reject_recursive_types(K)]
#[verifier::reject_recursive_types(V)]
pub struct ExSkipMap<K, V>(SkipMap<K, V>);

/// The index's skip list.
pub type Index = SkipMap<String, CommandPos>;

/// `a` comes before `b` in the lexicographic order of their bytes.
pub open spec fn bytes_less(a: Seq<u8>, b: Seq<u8>) -> bool
    decreases a.len(),
{
    if a.len() == 0 {
        b.len() > 0
    } else if b.len() == 0 {
        false
    } else if a[0] != b[0] {
        a[0] < b[0]
    } else {
        bytes_less(a.drop_first(), b.drop_first())
    }
}

/// The order of `String`: the lexicographic order of the UTF-8 bytes.
pub open spec fn key_less(a: Seq<char>, b: Seq<char>) -> bool {
    bytes_less(encode_utf8(a), encode_utf8(b))
}

/// What a skip list of the index holds, keyed by the keys' characters.
pub uninterp spec fn index_map(m: Index) -> Map<Seq<char>, CommandPos>;

/// Relies on `SkipMap::new`: a new map is empty.
#[verifier::external_body]
pub(crate) fn index_new() -> (r: Index)
    ensures
        index_map(r).dom().is_empty(),
{
    SkipMap::new()
}

/// Relies on `SkipMap::get`: the entry of `key`, if there is one.
#[verifier::external_body]
pub(crate) fn index_get(m: &Index, key: &String) -> (r: Option<CommandPos>)
    ensures
        r == (if index_map(*m).contains_key(key@) {
            Some(index_map(*m)[key@])
        } else {
            None
        }),
{
    m.get(key).map(|e| *e.value())
}

/// Relies on `SkipMap::insert`: an existing entry of `key` is replaced.
#[verifier::external_body]
pub(crate) fn index_insert(m: &mut Index, key: String, pos: CommandPos)
    ensures
        index_map(*final(m)) == index_map(*old(m)).insert(key@, pos),
{
    m.insert(key, pos);
}

/// Relies on `SkipMap::remove`: the entry of `key` leaves the map and is returned.
#[verifier::external_body]
pub(crate) fn index_remove(m: &mut Index, key: &String) -> (r: Option<CommandPos>)
    ensures
        r == (if index_map(*old(m)).contains_key(key@) {
            Some(index_map(*old(m))[key@])
        } else {
            None
        }),
        index_map(*final(m)) == index_map(*old(m)).remove(key@),
{
    m.remove(key).map(|e| *e.value())
}

/// Relies on `SkipMap::iter`: on a map that nothing changes meanwhile (the
/// borrow rules that out here), every entry once, each key with its position,
/// from the front in ascending order of the keys (`String`'s `Ord`).
#[verifier::external_body]
pub(crate) fn index_entries(m: &Index) -> (r: Vec<(String, CommandPos)>)
    ensures
        forall|i: int|
            0 <= i < r@.len() ==> index_map(*m).contains_key(#[trigger] r@[i].0@) && index_map(
                *m,
            )[r@[i].0@] == r@[i].1,
        (forall|i: int, j: int|
            0 <= i < j < r@.len() ==> #[trigger] r@[i].0@ != #[trigger] r@[j].0@),
        (forall|i: int, j: int|
            0 <= i < j < r@.len() ==> key_less(#[trigger] r@[i].0@, #[trigger] r@[j].0@)),
        forall|k: Seq<char>|
            index_map(*m).contains_key(k) ==> exists|i: int| 0 <= i < r@.len() && #[trigger] r@[i].0@ == k,
{
    m.iter().map(|e| (e.key().clone(), *e.value())).collect()
}

} // verus!
