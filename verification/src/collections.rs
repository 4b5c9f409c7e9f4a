//! The persistent collections of the `im` crate and the bitmap of the
//! `roaring` crate, as the collector uses them.
//!
//! Each type is declared to the verifier as an opaque one, its contents get a
//! name, and each method in use is wrapped with a contract over that name.

use im::{HashMap, HashSet, OrdMap};
use roaring::RoaringBitmap;
use vstd::prelude::*;

verus! {

/// `im::OrdMap`, opaque.
#[verifier::external_type_specification]
#[verifier::external_body]
#[verifier::reject_recursive_types(K)]
#[verifier::reject_recursive_types(V)]
pub struct ExOrdMap<K, V>(im::OrdMap<K, V>);

/// `im::HashMap`, opaque.
#[verifier::external_type_specification]
#[verifier::external_body]
#[verifier::reject_recursive_types(K)]
#[verifier::reject_recursive_types(V)]
#[verifier::reject_recursive_types(S)]
pub struct ExHashMap<K, V, S>(im::HashMap<K, V, S>);

/// `im::HashSet`, opaque.
#[verifier::external_type_specification]
#[verifier::external_body]
#[verifier::reject_recursive_types(A)]
#[verifier::reject_recursive_types(S)]
pub struct ExHashSet<A, S>(im::HashSet<A, S>);

/// `roaring::RoaringBitmap`, opaque.
#[verifier::external_type_specification]
#[verifier::external_body]
pub struct ExRoaringBitmap(roaring::RoaringBitmap);

/// The entries of an ordered map.
pub uninterp spec fn ord_entries(m: OrdMap<usize, usize>) -> Map<usize, usize>;

/// The entries of a hash map: address to (node id, incoming edge count).
pub uninterp spec fn hash_entries(m: HashMap<usize, (u32, usize)>) -> Map<usize, (u32, usize)>;

/// The elements of a hash set.
pub uninterp spec fn hash_elements(s: HashSet<usize>) -> Set<usize>;

/// The elements of a bitmap.
pub uninterp spec fn bitmap_elements(b: RoaringBitmap) -> Set<u32>;

/// The rows of `s` hold each key of `m` once, lowest key first, with its value.
pub open spec fn lists_ascending(m: Map<usize, usize>, s: Seq<(usize, usize)>) -> bool {
    &&& forall|i: int| 0 <= i < s.len() ==> #[trigger] m.dom().contains(s[i].0) && m[s[i].0] == s[i].1
    &&& forall|k: usize| #[trigger] m.dom().contains(k) ==> exists|i: int| 0 <= i < s.len() && s[i].0 == k
    &&& forall|i: int, j: int| 0 <= i < j < s.len() ==> s[i].0 < s[j].0
}

/// One difference between two ordered maps.
pub enum Change {
    /// The key is only in the newer map.
    Add(usize, usize),
    /// The key is in both, with another value in the newer one.
    Update(usize, usize),
    /// The key is only in the older map.
    Remove(usize, usize),
}

/// The key that a difference is about.
pub open spec fn change_key(c: Change) -> usize {
    match c {
        Change::Add(k, _) => k,
        Change::Update(k, _) => k,
        Change::Remove(k, _) => k,
    }
}

/// `c` says truly how `new` differs from `old` at its key.
pub open spec fn change_holds(old_map: Map<usize, usize>, new_map: Map<usize, usize>, c: Change) -> bool {
    match c {
        Change::Add(k, v) => !old_map.dom().contains(k) && new_map.dom().contains(k) && new_map[k] == v,
        Change::Update(k, v) => old_map.dom().contains(k) && new_map.dom().contains(k)
            && old_map[k] != v && new_map[k] == v,
        Change::Remove(k, v) => old_map.dom().contains(k) && !new_map.dom().contains(k)
            && old_map[k] == v,
    }
}

/// The two maps differ at `k`.
pub open spec fn differ_at(old_map: Map<usize, usize>, new_map: Map<usize, usize>, k: usize) -> bool {
    ||| old_map.dom().contains(k) != new_map.dom().contains(k)
    ||| (old_map.dom().contains(k) && new_map.dom().contains(k) && old_map[k] != new_map[k])
}

/// `im::OrdMap::new` makes a map without entries.
#[verifier::external_body]
pub(crate) fn ord_new() -> (m: OrdMap<usize, usize>)
    ensures
        ord_entries(m).dom() == Set::<usize>::empty(),
{
    OrdMap::new()
}

/// `im::OrdMap::clone` gives a map with the same entries.
#[verifier::external_body]
pub(crate) fn ord_clone(m: &OrdMap<usize, usize>) -> (r: OrdMap<usize, usize>)
    ensures
        ord_entries(r) == ord_entries(*m),
{
    m.clone()
}

/// `im::OrdMap::contains_key` tells whether the map has the key.
#[verifier::external_body]
pub(crate) fn ord_contains(m: &OrdMap<usize, usize>, k: usize) -> (r: bool)
    ensures
        r == ord_entries(*m).dom().contains(k),
{
    m.contains_key(&k)
}

/// `im::OrdMap::insert` maps the key to the value, whether or not it was there.
#[verifier::external_body]
pub(crate) fn ord_insert(m: &mut OrdMap<usize, usize>, k: usize, v: usize)
    ensures
        ord_entries(*final(m)) == ord_entries(*old(m)).insert(k, v),
{
    m.insert(k, v);
}

/// `im::OrdMap::remove` takes the key out, if it was there.
#[verifier::external_body]
pub(crate) fn ord_remove(m: &mut OrdMap<usize, usize>, k: usize)
    ensures
        ord_entries(*final(m)) == ord_entries(*old(m)).remove(k),
{
    m.remove(&k);
}

/// `im::OrdMap::iter` walks the entries from the lowest key to the highest.
#[verifier::external_body]
pub(crate) fn ord_rows(m: &OrdMap<usize, usize>) -> (r: Vec<(usize, usize)>)
    ensures
        lists_ascending(ord_entries(*m), r@),
{
    m.iter().map(|(k, v)| (*k, *v)).collect()
}

/// `im::OrdMap::diff` lists, by ascending key, exactly the entries to add,
/// update or remove to turn the first map into the second.
#[verifier::external_body]
pub(crate) fn ord_diff(m: &OrdMap<usize, usize>, newer: &OrdMap<usize, usize>) -> (r: Vec<Change>)
    ensures
        forall|i: int| 0 <= i < r@.len() ==> change_holds(ord_entries(*m), ord_entries(*newer), #[trigger] r@[i]),
        forall|k: usize| #[trigger] differ_at(ord_entries(*m), ord_entries(*newer), k)
            ==> exists|i: int| 0 <= i < r@.len() && change_key(r@[i]) == k,
        forall|i: int, j: int| 0 <= i < j < r@.len() ==> change_key(r@[i]) < change_key(r@[j]),
{
    m.diff(newer)
        .map(|item| match item {
            im::ordmap::DiffItem::Add(k, v) => Change::Add(*k, *v),
            im::ordmap::DiffItem::Update { old: _, new } => Change::Update(*new.0, *new.1),
            im::ordmap::DiffItem::Remove(k, v) => Change::Remove(*k, *v),
        })
        .collect()
}

/// `im::HashMap::new` makes a map without entries.
#[verifier::external_body]
pub(crate) fn hash_new() -> (m: HashMap<usize, (u32, usize)>)
    ensures
        hash_entries(m).dom() == Set::<usize>::empty(),
{
    HashMap::new()
}

/// `im::HashMap::get` gives the value of the key, if the map has it.
#[verifier::external_body]
pub(crate) fn hash_get(m: &HashMap<usize, (u32, usize)>, k: usize) -> (r: Option<(u32, usize)>)
    ensures
        r == (if hash_entries(*m).dom().contains(k) { Some(hash_entries(*m)[k]) } else { None }),
{
    m.get(&k).copied()
}

/// `im::HashMap::insert` maps the key to the value, whether or not it was there.
#[verifier::external_body]
pub(crate) fn hash_insert(m: &mut HashMap<usize, (u32, usize)>, k: usize, v: (u32, usize))
    ensures
        hash_entries(*final(m)) == hash_entries(*old(m)).insert(k, v),
{
    m.insert(k, v);
}

/// `im::HashMap::remove` takes the key out, if it was there.
#[verifier::external_body]
pub(crate) fn hash_remove(m: &mut HashMap<usize, (u32, usize)>, k: usize)
    ensures
        hash_entries(*final(m)) == hash_entries(*old(m)).remove(k),
{
    m.remove(&k);
}

/// The rows of `s` hold each key of `m` once, in some order, with its value.
pub open spec fn lists_rows(m: Map<usize, (u32, usize)>, s: Seq<(usize, (u32, usize))>) -> bool {
    &&& forall|i: int| 0 <= i < s.len() ==> #[trigger] m.dom().contains(s[i].0) && m[s[i].0] == s[i].1
    &&& forall|k: usize| #[trigger] m.dom().contains(k) ==> exists|i: int| 0 <= i < s.len() && s[i].0 == k
    &&& forall|i: int, j: int| 0 <= i < j < s.len() ==> s[i].0 != s[j].0
}

/// `im::HashMap::iter` walks each entry once. The order is that of a hasher
/// seeded anew in each process, so nothing is said of it.
#[verifier::external_body]
pub(crate) fn hash_rows(m: &HashMap<usize, (u32, usize)>) -> (r: Vec<(usize, (u32, usize))>)
    ensures
        lists_rows(hash_entries(*m), r@),
{
    m.iter().map(|(k, v)| (*k, *v)).collect()
}

/// `im::HashSet::new` makes a set without elements.
#[verifier::external_body]
pub(crate) fn set_new() -> (s: HashSet<usize>)
    ensures
        hash_elements(s) == Set::<usize>::empty(),
{
    HashSet::new()
}

/// `im::HashSet::contains` tells whether the element is in the set.
#[verifier::external_body]
pub(crate) fn set_contains(s: &HashSet<usize>, a: usize) -> (r: bool)
    ensures
        r == hash_elements(*s).contains(a),
{
    s.contains(&a)
}

/// `im::HashSet::insert` puts the element in, whether or not it was there.
#[verifier::external_body]
pub(crate) fn set_insert(s: &mut HashSet<usize>, a: usize)
    ensures
        hash_elements(*final(s)) == hash_elements(*old(s)).insert(a),
{
    s.insert(a);
}

/// `im::HashSet::iter` walks each element once. The order is that of a hasher
/// seeded anew in each process, so nothing is said of it.
#[verifier::external_body]
pub(crate) fn set_items(s: &HashSet<usize>) -> (r: Vec<usize>)
    ensures
        r@.no_duplicates(),
        r@.to_set() == hash_elements(*s),
{
    s.iter().copied().collect()
}

/// `roaring::RoaringBitmap::new` makes a bitmap without elements.
#[verifier::external_body]
pub(crate) fn bitmap_new() -> (b: RoaringBitmap)
    ensures
        bitmap_elements(b) == Set::<u32>::empty(),
{
    RoaringBitmap::new()
}

/// `roaring::RoaringBitmap::insert` puts the element in, whether or not it was
/// there.
#[verifier::external_body]
pub(crate) fn bitmap_insert(b: &mut RoaringBitmap, value: u32)
    ensures
        bitmap_elements(*final(b)) == bitmap_elements(*old(b)).insert(value),
{
    b.insert(value);
}

/// `roaring::RoaringBitmap::iter` walks each element once, lowest first.
#[verifier::external_body]
pub(crate) fn bitmap_items(b: &RoaringBitmap) -> (r: Vec<u32>)
    ensures
        r@.to_set() == bitmap_elements(*b),
        forall|i: int, j: int| 0 <= i < j < r@.len() ==> r@[i] < r@[j],
{
    b.iter().collect()
}

} // verus!
