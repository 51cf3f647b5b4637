use crate::aggregate::{Agg, Data};
use vstd::prelude::*;

verus! {

/// Table from key bytes to the running statistic of that key, held in a
/// `hashbrown::HashMap`.
#[verifier::external_body]
pub struct Table {
    map: hashbrown::HashMap<Vec<u8>, Data>,
}

/// What a table holds: the statistic of each key present.
pub uninterp spec fn table_contents(t: Table) -> Map<Seq<u8>, Data>;

impl View for Table {
    type V = Map<Seq<u8>, Agg>;

    open spec fn view(&self) -> Map<Seq<u8>, Agg> {
        let c = table_contents(*self);
        Map::new(|k: Seq<u8>| c.contains_key(k), |k: Seq<u8>| c[k]@)
    }
}

impl Table {
    /// Every statistic in the table is well formed.
    pub open spec fn wf(&self) -> bool {
        forall|k: Seq<u8>| #[trigger]
            table_contents(*self).contains_key(k) ==> table_contents(*self)[k].wf()
    }

    /// Relies on hashbrown::HashMap::with_capacity: the new map is empty. It
    /// panics when the capacity overflows the table's size computation, which
    /// a small capacity rules out.
    #[verifier::external_body]
    pub(crate) fn with_capacity(capacity: usize) -> (r: Table)
        requires
            capacity <= 65_536,
        ensures
            table_contents(r).dom() == Set::<Seq<u8>>::empty(),
    {
        Table { map: hashbrown::HashMap::with_capacity(capacity) }
    }

    /// Relies on hashbrown::HashMap::get: the value stored under an equal key,
    /// if any.
    #[verifier::external_body]
    pub(crate) fn get(&self, key: &[u8]) -> (r: Option<Data>)
        ensures
            table_contents(*self).contains_key(key@) ==> r == Some(table_contents(*self)[key@]),
            !table_contents(*self).contains_key(key@) ==> r is None,
    {
        self.map.get(key).copied()
    }

    /// Relies on hashbrown::HashMap::insert: afterwards the key maps to the
    /// given value, and every other key keeps its value.
    #[verifier::external_body]
    pub(crate) fn insert(&mut self, key: Vec<u8>, value: Data)
        ensures
            table_contents(*final(self)) == table_contents(*old(self)).insert(key@, value),
    {
        self.map.insert(key, value);
    }

    /// Relies on hashbrown::HashMap's consuming iterator: every entry once,
    /// in an unspecified order.
    #[verifier::external_body]
    pub(crate) fn into_entries(self) -> (r: Vec<(Vec<u8>, Data)>)
        ensures
            forall|i: int, j: int|
                0 <= i < j < r@.len() ==> (#[trigger] r@[i]).0@ != (#[trigger] r@[j]).0@,
            forall|i: int|
                0 <= i < r@.len() ==> table_contents(self).contains_key((#[trigger] r@[i]).0@)
                    && table_contents(self)[r@[i].0@] == r@[i].1,
            forall|k: Seq<u8>| #[trigger]
                table_contents(self).contains_key(k) ==> exists|i: int|
                    0 <= i < r@.len() && (#[trigger] r@[i]).0@ == k,
    {
        self.map.into_iter().collect()
    }
}

} // verus!
