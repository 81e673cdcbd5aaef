//! The id-to-text map of one index.
//!
//! The entries live in a concurrent map so that the surrounding runtime
//! can serve many readers while writes are serialized by the index's
//! write permit. The map's contents are modelled as a mathematical map
//! from record id to character sequence.

use vstd::prelude::*;

verus! {

#[verifier::external_type_specification]
#[verifier::external_body]
#[verifier::reject_recursive_types(K)]
#[verifier::reject_recursive_types(V)]
#[verifier::reject_recursive_types(S)]
pub struct ExDashMap<K, V, S>(dashmap::DashMap<K, V, S>);

/// What the concurrent map holds: the association of record ids to
/// display text.
pub uninterp spec fn dash_map_contents(m: &dashmap::DashMap<i64, String>) -> Map<i64, Seq<char>>;

/// The id-to-text entries of one index.
#[derive(Debug)]
pub struct TextMap {
    pub map: dashmap::DashMap<i64, String>,
}

impl View for TextMap {
    type V = Map<i64, Seq<char>>;

    open spec fn view(&self) -> Map<i64, Seq<char>> {
        dash_map_contents(&self.map)
    }
}

impl TextMap {
    /// Relies on `DashMap::new`: a freshly created map holds no entries.
    #[verifier::external_body]
    pub fn new() -> (r: TextMap)
        ensures
            dash_map_contents(&r.map) =~= Map::empty(),
    {
        TextMap { map: dashmap::DashMap::new() }
    }

    /// Relies on `DashMap::insert`: it maps the key to the new value,
    /// replacing any previous value, and leaves other keys unchanged.
    #[verifier::external_body]
    pub fn insert(&mut self, id: i64, text: String)
        ensures
            dash_map_contents(&final(self).map) == dash_map_contents(&old(self).map).insert(
                id,
                text@,
            ),
    {
        self.map.insert(id, text);
    }

    /// Relies on `DashMap::remove`: it removes the key's entry, if any,
    /// and leaves other keys unchanged.
    #[verifier::external_body]
    pub fn remove(&mut self, id: i64)
        ensures
            dash_map_contents(&final(self).map) == dash_map_contents(&old(self).map).remove(id),
    {
        self.map.remove(&id);
    }

    /// Relies on `DashMap::get`: the value the map holds for the key, if
    /// any.
    #[verifier::external_body]
    pub fn get(&self, id: i64) -> (r: Option<String>)
        ensures
            (r is Some) == dash_map_contents(&self.map).contains_key(id),
            r matches Some(t) ==> t@ == dash_map_contents(&self.map)[id],
    {
        self.map.get(&id).map(|v| v.value().clone())
    }

    /// Relies on `DashMap::contains_key`.
    #[verifier::external_body]
    pub fn contains(&self, id: i64) -> (r: bool)
        ensures
            r == dash_map_contents(&self.map).contains_key(id),
    {
        self.map.contains_key(&id)
    }

    /// Relies on `DashMap::len`: the number of entries.
    #[verifier::external_body]
    pub fn len(&self) -> (r: usize)
        ensures
            r as nat == dash_map_contents(&self.map).dom().len(),
    {
        self.map.len()
    }

    /// Relies on `DashMap::iter`: every entry is visited exactly once;
    /// the order of the returned pairs is unspecified.
    #[verifier::external_body]
    pub fn entries(&self) -> (r: Vec<(i64, String)>)
        ensures
            r@.len() == dash_map_contents(&self.map).dom().len(),
            forall|i: int|
                0 <= i < r@.len() ==> dash_map_contents(&self.map).contains_key(
                    #[trigger] r@[i].0,
                ) && dash_map_contents(&self.map)[r@[i].0] == r@[i].1@,
            forall|i: int, j: int| 0 <= i < j < r@.len() ==> r@[i].0 != r@[j].0,
    {
        self.map.iter().map(|e| (*e.key(), e.value().clone())).collect()
    }
}

} // verus!
