//! The record of what was last painted on an output: an insertion ordered map
//! from toplevel to rectangle, kept in `indexmap`'s `IndexMap`.
use vstd::prelude::*;
use indexmap::IndexMap;
use crate::entity::ToplevelId;
use crate::frame::lookup;
use crate::geometry::Rectangle;

verus! {

#[verifier::external_type_specification]
#[verifier::external_body]
#[verifier::reject_recursive_types(K)]
#[verifier::reject_recursive_types(V)]
#[verifier::reject_recursive_types(S)]
pub struct ExIndexMap<K, V, S>(IndexMap<K, V, S>);

/// The entries of the map, in their order.
pub uninterp spec fn painted_entries(m: IndexMap<ToplevelId, Rectangle>) -> Seq<(ToplevelId, Rectangle)>;

/// No key occurs twice.
pub open spec fn unique_keys(s: Seq<(ToplevelId, Rectangle)>) -> bool {
    forall|i: int, j: int| 0 <= i < j < s.len() ==> s[i].0 != s[j].0
}

/// Relies on `IndexMap::new`: a map without entries.
#[verifier::external_body]
pub(crate) fn new_painted() -> (r: IndexMap<ToplevelId, Rectangle>)
    ensures
        painted_entries(r) == Seq::<(ToplevelId, Rectangle)>::empty(),
        unique_keys(painted_entries(r)),
{
    IndexMap::new()
}

/// Relies on `IndexMap::len`: the number of entries.
#[verifier::external_body]
pub(crate) fn painted_len(m: &IndexMap<ToplevelId, Rectangle>) -> (r: usize)
    ensures
        r == painted_entries(*m).len(),
{
    m.len()
}

/// Relies on `IndexMap::get_index`: the entry at `i` in insertion order,
/// `None` past the end.
#[verifier::external_body]
pub(crate) fn painted_entry(m: &IndexMap<ToplevelId, Rectangle>, i: usize) -> (r: Option<(ToplevelId, Rectangle)>)
    ensures
        i < painted_entries(*m).len() ==> r == Some(painted_entries(*m)[i as int]),
        i >= painted_entries(*m).len() ==> r.is_none(),
{
    m.get_index(i).map(|(k, v)| (*k, *v))
}

/// Relies on `IndexMap::get`: the value stored for `key`.
#[verifier::external_body]
pub(crate) fn painted_get(m: &IndexMap<ToplevelId, Rectangle>, key: ToplevelId) -> (r: Option<Rectangle>)
    ensures
        r == lookup(painted_entries(*m), key),
{
    m.get(&key).copied()
}

/// Relies on `IndexMap`'s `FromIterator`: the map holds each key once, and
/// pairs with distinct keys keep their order.
#[verifier::external_body]
pub(crate) fn painted_from(v: Vec<(ToplevelId, Rectangle)>) -> (r: IndexMap<ToplevelId, Rectangle>)
    ensures
        unique_keys(painted_entries(r)),
        unique_keys(v@) ==> painted_entries(r) == v@,
{
    v.into_iter().collect()
}

} // verus!
