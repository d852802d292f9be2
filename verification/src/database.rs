//! A database: a named collection of stores, addressed by store name.

use vstd::prelude::*;
use crate::Error;
use crate::store::{dedup_names, names_view, store_wf, Store, StoreV};
use crate::value::str_eq;

verus! {

/// Mathematical image of a database.
pub struct DbV {
    pub name: Seq<char>,
    /// The stores, as (name, store) entries in insertion order.
    pub stores: Seq<(Seq<char>, StoreV)>,
}

/// The entries hold a store with this name.
pub open spec fn stores_has(es: Seq<(Seq<char>, StoreV)>, name: Seq<char>) -> bool {
    exists|i: int| 0 <= i < es.len() && (#[trigger] es[i]).0 == name
}

/// Index of the first entry with this name (the count when there is none).
pub open spec fn stores_idx(es: Seq<(Seq<char>, StoreV)>, name: Seq<char>) -> int
    decreases es.len(),
{
    if es.len() == 0 {
        0
    } else if es[0].0 == name {
        0
    } else {
        1 + stores_idx(es.skip(1), name)
    }
}

/// The store of the first entry with this name, if any.
pub open spec fn stores_get(es: Seq<(Seq<char>, StoreV)>, name: Seq<char>) -> Option<StoreV>
    decreases es.len(),
{
    if es.len() == 0 {
        None
    } else if es[0].0 == name {
        Some(es[0].1)
    } else {
        stores_get(es.skip(1), name)
    }
}

/// The entries after writing `s` under `name`: in place when present,
/// appended otherwise.
pub open spec fn stores_set(es: Seq<(Seq<char>, StoreV)>, name: Seq<char>, s: StoreV) -> Seq<
    (Seq<char>, StoreV),
> {
    if stores_has(es, name) {
        es.update(stores_idx(es, name), (name, s))
    } else {
        es.push((name, s))
    }
}

/// Well-formedness: store names unique, every store well formed.
pub open spec fn db_wf(d: DbV) -> bool {
    &&& forall|i: int, j: int|
        0 <= i < j < d.stores.len() ==> (#[trigger] d.stores[i]).0 != (#[trigger] d.stores[j]).0
    &&& forall|i: int| 0 <= i < d.stores.len() ==> store_wf((#[trigger] d.stores[i]).1)
}

/// How the store lookup functions relate.
pub proof fn lemma_stores_first(es: Seq<(Seq<char>, StoreV)>, name: Seq<char>)
    ensures
        stores_has(es, name) <==> stores_get(es, name) is Some,
        stores_has(es, name) ==> {
            &&& 0 <= stores_idx(es, name) < es.len()
            &&& es[stores_idx(es, name)].0 == name
            &&& stores_get(es, name) == Some(es[stores_idx(es, name)].1)
            &&& forall|j: int| 0 <= j < stores_idx(es, name) ==> (#[trigger] es[j]).0 != name
        },
        !stores_has(es, name) ==> stores_idx(es, name) == es.len(),
    decreases es.len(),
{
    if es.len() == 0 {
    } else if es[0].0 == name {
    } else {
        lemma_stores_first(es.skip(1), name);
        assert(forall|j: int| 0 <= j < es.skip(1).len() ==> es.skip(1)[j] == es[j + 1]);
        if stores_has(es.skip(1), name) {
            let i = choose|i: int|
                0 <= i < es.skip(1).len() && (#[trigger] es.skip(1)[i]).0 == name;
            assert(es[i + 1].0 == name);
        }
        if stores_has(es, name) {
            let i = choose|i: int| 0 <= i < es.len() && (#[trigger] es[i]).0 == name;
            assert(es.skip(1)[i - 1].0 == name);
            let n = stores_idx(es.skip(1), name);
            assert(es[n + 1].0 == es.skip(1)[n].0);
            assert forall|j: int| 0 <= j < n + 1 implies (#[trigger] es[j]).0 != name by {
                if j > 0 {
                    assert(es.skip(1)[j - 1].0 != name);
                }
            }
        }
    }
}

/// An entry list that agrees with a known first hit.
pub proof fn lemma_stores_idx_at(es: Seq<(Seq<char>, StoreV)>, name: Seq<char>, n: int)
    requires
        0 <= n < es.len(),
        es[n].0 == name,
        forall|j: int| 0 <= j < n ==> (#[trigger] es[j]).0 != name,
    ensures
        stores_idx(es, name) == n,
        stores_get(es, name) == Some(es[n].1),
    decreases n,
{
    if n > 0 {
        assert(es[0].0 != name);
        assert(forall|j: int| 0 <= j < es.skip(1).len() ==> es.skip(1)[j] == es[j + 1]);
        lemma_stores_idx_at(es.skip(1), name, n - 1);
    }
}

/// A named collection of stores.
#[derive(Debug)]
pub struct Database {
    name: String,
    stores: Vec<(String, Store)>,
}

impl View for Database {
    type V = DbV;

    closed spec fn view(&self) -> DbV {
        DbV {
            name: self.name@,
            stores: Seq::new(
                self.stores@.len(),
                |i: int| (self.stores@[i].0@, self.stores@[i].1@),
            ),
        }
    }
}

impl Database {
    /// The database's structural invariant.
    pub open spec fn wf(self) -> bool {
        db_wf(self@)
    }

    /// Name of the database.
    pub fn name(&self) -> (r: &String)
        ensures
            r@ == self@.name,
    {
        &self.name
    }

    /// Number of stores.
    pub fn stores_len(&self) -> (n: usize)
        ensures
            n == self@.stores.len(),
    {
        self.stores.len()
    }

    /// Name of the store entry at `i`.
    pub fn store_name_at(&self, i: usize) -> (r: &String)
        requires
            i < self@.stores.len(),
        ensures
            r@ == self@.stores[i as int].0,
    {
        &self.stores[i].0
    }

    /// Store of the entry at `i`.
    pub fn store_at(&self, i: usize) -> (r: &Store)
        requires
            i < self@.stores.len(),
        ensures
            r@ == self@.stores[i as int].1,
    {
        &self.stores[i].1
    }

    /// A database built from already-validated parts.
    pub(crate) fn from_parts(name: String, stores: Vec<(String, Store)>) -> (r: Database)
        requires
            db_wf(
                DbV {
                    name: name@,
                    stores: Seq::new(stores@.len(), |i: int| (stores@[i].0@, stores@[i].1@)),
                },
            ),
        ensures
            r@ == (DbV {
                name: name@,
                stores: Seq::new(stores@.len(), |i: int| (stores@[i].0@, stores@[i].1@)),
            }),
            r.wf(),
    {
        Database { name, stores }
    }

    /// An empty database with the given name.
    pub fn new(name: &str) -> (r: Result<Database, Error>)
        ensures
            r matches Ok(d) && d.wf() && d@ == (DbV {
                name: name@,
                stores: Seq::empty(),
            }),
    {
        let d = Database { name: name.to_owned(), stores: Vec::new() };
        proof {
            assert(d@.stores =~= Seq::<(Seq<char>, StoreV)>::empty());
        }
        Ok(d)
    }

    /// Index of the store entry named `name`, if any.
    fn find_store(&self, name: &str) -> (r: Option<usize>)
        ensures
            match r {
                Some(i) => {
                    &&& i < self@.stores.len()
                    &&& self@.stores[i as int].0 == name@
                    &&& stores_has(self@.stores, name@)
                    &&& stores_idx(self@.stores, name@) == i as int
                    &&& stores_get(self@.stores, name@) == Some(self@.stores[i as int].1)
                },
                None => !stores_has(self@.stores, name@),
            },
    {
        let n = self.stores.len();
        let mut i: usize = 0;
        while i < n
            invariant
                i <= n,
                n == self@.stores.len(),
                forall|j: int| 0 <= j < i ==> (#[trigger] self@.stores[j]).0 != name@,
            decreases n - i,
        {
            if str_eq(self.stores[i].0.as_str(), name) {
                assert(self@.stores[i as int].0 == name@);
                proof {
                    lemma_stores_idx_at(self@.stores, name@, i as int);
                }
                return Some(i);
            }
            i = i + 1;
        }
        None
    }

    /// Creates a store with the given name and seed attributes and files it
    /// under that name, replacing any store the name already mapped to.
    pub fn add_store(&mut self, name: String, attributes: Vec<String>) -> (r: Result<(), Error>)
        requires
            old(self).wf(),
        ensures
            final(self).wf(),
            r is Ok,
            final(self)@.name == old(self)@.name,
            final(self)@.stores == stores_set(
                old(self)@.stores,
                name@,
                StoreV {
                    next_id: 0,
                    name: name@,
                    attributes: dedup_names(Seq::empty(), names_view(attributes@)),
                    records: Seq::empty(),
                },
            ),
    {
        let ghost nv = name@;
        let store = match Store::make_store(name.clone(), attributes) {
            Ok(s) => s,
            Err(e) => {
                return Err(e);
            },
        };
        match self.find_store(name.as_str()) {
            Some(i) => {
                let ghost before = self@;
                self.stores.set(i, (name, store));
                proof {
                    assert(self@.stores =~= before.stores.update(i as int, (nv, store@)));
                    assert forall|p: int, q: int|
                        0 <= p < q < self@.stores.len() implies (#[trigger] self@.stores[p]).0
                        != (#[trigger] self@.stores[q]).0 by {
                        assert(self@.stores[p].0 == before.stores[p].0);
                        assert(self@.stores[q].0 == before.stores[q].0);
                        assert(before.stores[p].0 != before.stores[q].0);
                    }
                }
            },
            None => {
                let ghost before = self@;
                self.stores.push((name, store));
                proof {
                    assert(self@.stores =~= before.stores.push((nv, store@)));
                }
            },
        }
        Ok(())
    }

    /// The store named `name`, if any.
    pub fn get_store(&self, name: &str) -> (r: Option<&Store>)
        ensures
            match r {
                Some(s) => stores_get(self@.stores, name@) == Some(s@),
                None => !stores_has(self@.stores, name@),
            },
    {
        match self.find_store(name) {
            Some(i) => Some(&self.stores[i].1),
            None => None,
        }
    }

    /// A mutable handle on the store named `name`, if any: the caller's
    /// changes to the handle land at that name, and nothing else changes.
    pub fn get_store_mut(&mut self, name: &str) -> (r: Option<&mut Store>)
        ensures
            match r {
                Some(s) => {
                    &&& stores_has(old(self)@.stores, name@)
                    &&& stores_get(old(self)@.stores, name@) == Some((*s)@)
                    &&& final(self)@.name == old(self)@.name
                    &&& final(self)@.stores == old(self)@.stores.update(
                        stores_idx(old(self)@.stores, name@),
                        (name@, final(s)@),
                    )
                },
                None => !stores_has(old(self)@.stores, name@) && final(self)@ == old(self)@,
            },
    {
        match self.find_store(name) {
            Some(i) => {
                let s = &mut self.stores[i].1;
                Some(s)
            },
            None => None,
        }
    }

    /// Removes the store filed under `name`; absent names are ignored.
    pub fn delete_store(&mut self, name: &str)
        requires
            old(self).wf(),
        ensures
            final(self).wf(),
            final(self)@.name == old(self)@.name,
            stores_has(old(self)@.stores, name@) ==> final(self)@.stores == old(
                self,
            )@.stores.remove(stores_idx(old(self)@.stores, name@)),
            !stores_has(old(self)@.stores, name@) ==> final(self)@ == old(self)@,
    {
        match self.find_store(name) {
            Some(i) => {
                let ghost before = self@;
                self.stores.remove(i);
                proof {
                    assert(self@.stores =~= before.stores.remove(i as int));
                }
            },
            None => {},
        }
    }
}

} // verus!
