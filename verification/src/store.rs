//! The record store: a named, schema-growing collection of records keyed by
//! an auto-incrementing integer id.

use vstd::prelude::*;
use crate::Error;
use crate::record::{Record, RecordV, rec_wf};
use crate::value::str_eq;

verus! {

/// Mathematical image of a store.
pub struct StoreV {
    /// The id the next added record will receive.
    pub next_id: int,
    pub name: Seq<char>,
    /// Attribute names ever declared or introduced by an added record.
    pub attributes: Seq<Seq<char>>,
    /// The records, as (id, record) rows in insertion order.
    pub records: Seq<(int, RecordV)>,
}

/// The rows hold a record with this id.
pub open spec fn rows_has(rs: Seq<(int, RecordV)>, id: int) -> bool {
    exists|i: int| 0 <= i < rs.len() && (#[trigger] rs[i]).0 == id
}

/// Index of the first row with this id (the row count when there is none).
pub open spec fn rows_idx(rs: Seq<(int, RecordV)>, id: int) -> int
    decreases rs.len(),
{
    if rs.len() == 0 {
        0
    } else if rs[0].0 == id {
        0
    } else {
        1 + rows_idx(rs.skip(1), id)
    }
}

/// The record of the first row with this id, if any.
pub open spec fn rows_get(rs: Seq<(int, RecordV)>, id: int) -> Option<RecordV>
    decreases rs.len(),
{
    if rs.len() == 0 {
        None
    } else if rs[0].0 == id {
        Some(rs[0].1)
    } else {
        rows_get(rs.skip(1), id)
    }
}

/// How the row lookup functions relate.
pub proof fn lemma_rows_first(rs: Seq<(int, RecordV)>, id: int)
    ensures
        rows_has(rs, id) <==> rows_get(rs, id) is Some,
        rows_has(rs, id) ==> {
            &&& 0 <= rows_idx(rs, id) < rs.len()
            &&& rs[rows_idx(rs, id)].0 == id
            &&& rows_get(rs, id) == Some(rs[rows_idx(rs, id)].1)
            &&& forall|j: int| 0 <= j < rows_idx(rs, id) ==> (#[trigger] rs[j]).0 != id
        },
        !rows_has(rs, id) ==> rows_idx(rs, id) == rs.len(),
    decreases rs.len(),
{
    if rs.len() == 0 {
    } else if rs[0].0 == id {
    } else {
        lemma_rows_first(rs.skip(1), id);
        assert(forall|j: int| 0 <= j < rs.skip(1).len() ==> rs.skip(1)[j] == rs[j + 1]);
        if rows_has(rs.skip(1), id) {
            let i = choose|i: int| 0 <= i < rs.skip(1).len() && (#[trigger] rs.skip(1)[i]).0 == id;
            assert(rs[i + 1].0 == id);
        }
        if rows_has(rs, id) {
            let i = choose|i: int| 0 <= i < rs.len() && (#[trigger] rs[i]).0 == id;
            assert(rs.skip(1)[i - 1].0 == id);
            let n = rows_idx(rs.skip(1), id);
            assert(rs[n + 1].0 == rs.skip(1)[n].0);
            assert forall|j: int| 0 <= j < n + 1 implies (#[trigger] rs[j]).0 != id by {
                if j > 0 {
                    assert(rs.skip(1)[j - 1].0 != id);
                }
            }
        }
    }
}

/// A row list that agrees with a known first hit.
pub proof fn lemma_rows_idx_at(rs: Seq<(int, RecordV)>, id: int, n: int)
    requires
        0 <= n < rs.len(),
        rs[n].0 == id,
        forall|j: int| 0 <= j < n ==> (#[trigger] rs[j]).0 != id,
    ensures
        rows_idx(rs, id) == n,
        rows_get(rs, id) == Some(rs[n].1),
    decreases n,
{
    if n > 0 {
        assert(rs[0].0 != id);
        assert(forall|j: int| 0 <= j < rs.skip(1).len() ==> rs.skip(1)[j] == rs[j + 1]);
        lemma_rows_idx_at(rs.skip(1), id, n - 1);
    }
}

/// The rows after writing `rec` under `id`: in place when present,
/// appended otherwise.
pub open spec fn rows_set(rs: Seq<(int, RecordV)>, id: int, rec: RecordV) -> Seq<(int, RecordV)> {
    if rows_has(rs, id) {
        rs.update(rows_idx(rs, id), (id, rec))
    } else {
        rs.push((id, rec))
    }
}

/// The attribute list holds this name.
pub open spec fn attrs_has(attrs: Seq<Seq<char>>, a: Seq<char>) -> bool {
    exists|i: int| 0 <= i < attrs.len() && attrs[i] == a
}

/// Attributes extended with every field name of `r` not already present, in
/// field order.
pub open spec fn extend_attrs(attrs: Seq<Seq<char>>, r: RecordV) -> Seq<Seq<char>>
    decreases r.len(),
{
    if r.len() == 0 {
        attrs
    } else if attrs_has(attrs, r[0].0) {
        extend_attrs(attrs, r.skip(1))
    } else {
        extend_attrs(attrs.push(r[0].0), r.skip(1))
    }
}

/// Well-formedness of a store: bounded monotonic id counter, unique
/// attribute names, unique record ids all below the counter, and
/// well-formed records.
pub open spec fn store_wf(s: StoreV) -> bool {
    &&& 0 <= s.next_id <= i64::MAX
    &&& forall|i: int, j: int|
        0 <= i < j < s.attributes.len() ==> s.attributes[i] != s.attributes[j]
    &&& forall|i: int, j: int|
        0 <= i < j < s.records.len() ==> (#[trigger] s.records[i]).0 != (
        #[trigger] s.records[j]).0
    &&& forall|i: int| 0 <= i < s.records.len() ==> 0 <= (#[trigger] s.records[i]).0 < s.next_id
    &&& forall|i: int| 0 <= i < s.records.len() ==> rec_wf((#[trigger] s.records[i]).1)
}

/// The store after adding `r`: the record is stored under the current
/// counter value, unseen attribute names are adopted, the counter advances.
pub open spec fn add_record_spec(s: StoreV, r: RecordV) -> StoreV {
    StoreV {
        next_id: s.next_id + 1,
        name: s.name,
        attributes: extend_attrs(s.attributes, r),
        records: s.records.push((s.next_id, r)),
    }
}

/// The store after deleting the record with `id` (which must be present).
pub open spec fn delete_record_spec(s: StoreV, id: int) -> StoreV {
    StoreV {
        next_id: s.next_id,
        name: s.name,
        attributes: s.attributes,
        records: s.records.remove(rows_idx(s.records, id)),
    }
}

/// The store after replacing the record at `id` (which must be present);
/// the id is preserved, not reassigned.
pub open spec fn update_record_spec(s: StoreV, id: int, r: RecordV) -> StoreV {
    StoreV {
        next_id: s.next_id,
        name: s.name,
        attributes: s.attributes,
        records: s.records.update(rows_idx(s.records, id), (id, r)),
    }
}

} // verus!

verus! {

/// View of a row vector as (id, record) pairs.
pub open spec fn rows_view(v: Seq<(i64, Record)>) -> Seq<(int, RecordV)> {
    Seq::new(v.len(), |i: int| (v[i].0 as int, v[i].1@))
}

/// View of a name vector as character sequences.
pub open spec fn names_view(v: Seq<String>) -> Seq<Seq<char>> {
    Seq::new(v.len(), |i: int| v[i]@)
}

/// `names`, deduplicated from the left into `acc`.
pub open spec fn dedup_names(acc: Seq<Seq<char>>, names: Seq<Seq<char>>) -> Seq<Seq<char>>
    decreases names.len(),
{
    if names.len() == 0 {
        acc
    } else if attrs_has(acc, names[0]) {
        dedup_names(acc, names.skip(1))
    } else {
        dedup_names(acc.push(names[0]), names.skip(1))
    }
}

/// Whether one of the names in `v` is `a`.
pub(crate) fn names_contain(v: &Vec<String>, a: &str) -> (r: bool)
    ensures
        r == attrs_has(names_view(v@), a@),
{
    let n = v.len();
    let mut i: usize = 0;
    while i < n
        invariant
            i <= n,
            n == v@.len(),
            forall|j: int| 0 <= j < i ==> names_view(v@)[j] != a@,
        decreases n - i,
    {
        if str_eq(v[i].as_str(), a) {
            assert(names_view(v@)[i as int] == a@);
            return true;
        }
        i = i + 1;
    }
    false
}

/// A table of records with dynamic attributes.
#[derive(Debug)]
pub struct Store {
    /// The id the next added record will receive.
    id: i64,
    /// Name of the store.
    name: String,
    /// Attribute names, in declaration order, without repetition.
    attributes: Vec<String>,
    /// The records, keyed by their ids, in insertion order.
    values: Vec<(i64, Record)>,
}

impl View for Store {
    type V = StoreV;

    closed spec fn view(&self) -> StoreV {
        StoreV {
            next_id: self.id as int,
            name: self.name@,
            attributes: names_view(self.attributes@),
            records: rows_view(self.values@),
        }
    }
}

impl Store {
    /// The store's structural invariant.
    pub open spec fn wf(self) -> bool {
        store_wf(self@)
    }

    /// A store built from already-validated parts.
    pub(crate) fn from_parts(
        id: i64,
        name: String,
        attributes: Vec<String>,
        values: Vec<(i64, Record)>,
    ) -> (r: Store)
        requires
            store_wf(
                StoreV {
                    next_id: id as int,
                    name: name@,
                    attributes: names_view(attributes@),
                    records: rows_view(values@),
                },
            ),
        ensures
            r@ == (StoreV {
                next_id: id as int,
                name: name@,
                attributes: names_view(attributes@),
                records: rows_view(values@),
            }),
            r.wf(),
    {
        Store { id, name, attributes, values }
    }

    /// The id the next added record will receive.
    pub fn next_id(&self) -> (r: i64)
        ensures
            r as int == self@.next_id,
    {
        self.id
    }

    /// Name of the store.
    pub fn name(&self) -> (r: &String)
        ensures
            r@ == self@.name,
    {
        &self.name
    }

    /// Number of declared attributes.
    pub fn attrs_len(&self) -> (n: usize)
        ensures
            n == self@.attributes.len(),
    {
        self.attributes.len()
    }

    /// The declared attribute at `i`.
    pub fn attr_at(&self, i: usize) -> (r: &String)
        requires
            i < self@.attributes.len(),
        ensures
            r@ == self@.attributes[i as int],
    {
        &self.attributes[i]
    }

    /// Number of records.
    pub fn rows_len(&self) -> (n: usize)
        ensures
            n == self@.records.len(),
    {
        self.values.len()
    }

    /// Id of the row at `i`.
    pub fn row_id_at(&self, i: usize) -> (r: i64)
        requires
            i < self@.records.len(),
        ensures
            r as int == self@.records[i as int].0,
    {
        self.values[i].0
    }

    /// Record of the row at `i`.
    pub fn row_at(&self, i: usize) -> (r: &Record)
        requires
            i < self@.records.len(),
        ensures
            r@ == self@.records[i as int].1,
    {
        &self.values[i].1
    }

    /// Whether `a` is a declared attribute of the store.
    pub fn has_attribute(&self, a: &str) -> (r: bool)
        ensures
            r == attrs_has(self@.attributes, a@),
    {
        let n = self.attributes.len();
        let mut i: usize = 0;
        while i < n
            invariant
                i <= n,
                n == self@.attributes.len(),
                forall|j: int| 0 <= j < i ==> self@.attributes[j] != a@,
            decreases n - i,
        {
            if str_eq(self.attributes[i].as_str(), a) {
                assert(self@.attributes[i as int] == a@);
                return true;
            }
            i = i + 1;
        }
        false
    }

    /// A store named `DEFAULT` with no attributes and no records.
    pub fn new() -> (r: Result<Store, Error>)
        ensures
            r matches Ok(s) && s.wf() && s@ == (StoreV {
                next_id: 0,
                name: "DEFAULT"@,
                attributes: Seq::empty(),
                records: Seq::empty(),
            }),
    {
        let s = Store {
            id: 0,
            name: "DEFAULT".to_owned(),
            attributes: Vec::new(),
            values: Vec::new(),
        };
        proof {
            assert(s@.attributes =~= Seq::<Seq<char>>::empty());
            assert(s@.records =~= Seq::<(int, RecordV)>::empty());
        }
        Ok(s)
    }

    /// A store with the given name, seeded with the given attribute names
    /// (kept in first-occurrence order, without repetition) and no records.
    pub fn make_store(name: String, attributes: Vec<String>) -> (r: Result<Store, Error>)
        ensures
            r matches Ok(s) && s.wf() && s@ == (StoreV {
                next_id: 0,
                name: name@,
                attributes: dedup_names(Seq::empty(), names_view(attributes@)),
                records: Seq::empty(),
            }),
    {
        let ghost names = names_view(attributes@);
        let n = attributes.len();
        let mut attrs: Vec<String> = Vec::new();
        proof {
            assert(names_view(attrs@) =~= Seq::<Seq<char>>::empty());
            assert(names.skip(0) =~= names);
        }
        let mut i: usize = 0;
        while i < n
            invariant
                i <= n,
                n == attributes@.len(),
                names == names_view(attributes@),
                dedup_names(names_view(attrs@), names.skip(i as int)) == dedup_names(
                    Seq::empty(),
                    names,
                ),
                forall|p: int, q: int|
                    0 <= p < q < attrs@.len() ==> names_view(attrs@)[p] != names_view(attrs@)[q],
            decreases n - i,
        {
            let ghost cur = names_view(attrs@);
            let ghost rest = names.skip(i as int);
            proof {
                assert(rest[0] == names[i as int]);
                assert(rest.skip(1) =~= names.skip(i + 1));
            }
            let present = names_contain(&attrs, attributes[i].as_str());
            if !present {
                assert(!attrs_has(cur, names[i as int]));
                attrs.push(attributes[i].clone());
                proof {
                    assert(names_view(attrs@) =~= cur.push(names[i as int]));
                }
            }
            i = i + 1;
        }
        proof {
            assert(names.skip(n as int) =~= Seq::<Seq<char>>::empty());
        }
        let s = Store { id: 0, name, attributes: attrs, values: Vec::new() };
        proof {
            assert(s@.records =~= Seq::<(int, RecordV)>::empty());
        }
        Ok(s)
    }
}

} // verus!

verus! {

impl Store {
    /// Index of the row holding `id`, if any.
    fn find_row(&self, id: i64) -> (r: Option<usize>)
        ensures
            match r {
                Some(i) => {
                    &&& i < self@.records.len()
                    &&& self@.records[i as int].0 == id as int
                    &&& rows_has(self@.records, id as int)
                    &&& rows_idx(self@.records, id as int) == i as int
                    &&& rows_get(self@.records, id as int) == Some(self@.records[i as int].1)
                },
                None => !rows_has(self@.records, id as int),
            },
    {
        let n = self.values.len();
        let mut i: usize = 0;
        while i < n
            invariant
                i <= n,
                n == self@.records.len(),
                forall|j: int| 0 <= j < i ==> (#[trigger] self@.records[j]).0 != id as int,
            decreases n - i,
        {
            if self.values[i].0 == id {
                assert(self@.records[i as int].0 == id as int);
                proof {
                    lemma_rows_idx_at(self@.records, id as int, i as int);
                }
                return Some(i);
            }
            i = i + 1;
        }
        None
    }

    /// Stores `record` under the next id, adopts its unseen attribute names,
    /// and advances the id counter. Ids are never reused, even after
    /// deletion.
    pub fn add_record(&mut self, record: Record) -> (r: Result<i64, Error>)
        requires
            old(self).wf(),
            record.wf(),
            old(self)@.next_id < i64::MAX,
        ensures
            final(self).wf(),
            r matches Ok(id) && id as int == old(self)@.next_id,
            final(self)@ == add_record_spec(old(self)@, record@),
    {
        let record_id = self.id;
        let ghost rv = record@;
        let ghost orig = self@.attributes;
        proof {
            assert(rv.skip(0) =~= rv);
        }
        let nf = record.len();
        let mut i: usize = 0;
        while i < nf
            invariant
                i <= nf,
                nf == rv.len(),
                record@ == rv,
                self.id == old(self).id,
                self@.name == old(self)@.name,
                self@.records == old(self)@.records,
                extend_attrs(self@.attributes, rv.skip(i as int)) == extend_attrs(orig, rv),
                forall|p: int, q: int|
                    0 <= p < q < self@.attributes.len() ==> self@.attributes[p]
                        != self@.attributes[q],
            decreases nf - i,
        {
            let ghost cur = self@.attributes;
            let ghost rest = rv.skip(i as int);
            proof {
                assert(rest[0] == rv[i as int]);
                assert(rest.skip(1) =~= rv.skip(i as int + 1));
            }
            let name = record.name_at(i);
            if !names_contain(&self.attributes, name.as_str()) {
                let owned = name.clone();
                self.attributes.push(owned);
                proof {
                    assert(self@.attributes =~= cur.push(rv[i as int].0));
                }
            }
            i = i + 1;
        }
        proof {
            assert(rv.skip(nf as int) =~= Seq::<(Seq<char>, crate::value::ValueV)>::empty());
        }
        let ghost before = self@;
        self.values.push((record_id, record));
        self.id = self.id + 1;
        proof {
            assert(self@.records =~= before.records.push((record_id as int, rv)));
            assert(self@ == add_record_spec(old(self)@, rv));
            assert forall|p: int, q: int|
                0 <= p < q < self@.records.len() implies (#[trigger] self@.records[p]).0 != (
            #[trigger] self@.records[q]).0 by {
                if q == self@.records.len() - 1 {
                    assert(self@.records[p] == old(self)@.records[p]);
                }
            }
            assert(final(self).wf());
        }
        Ok(record_id)
    }

    /// Removes the record with `id`; fails with [`Error::NotFound`] (and
    /// leaves the store unchanged) when no record has that id.
    pub fn delete_record(&mut self, id: i64) -> (r: Result<(), Error>)
        requires
            old(self).wf(),
        ensures
            final(self).wf(),
            rows_has(old(self)@.records, id as int) ==> r is Ok && final(self)@ == delete_record_spec(old(self)@, id as int),
            !rows_has(old(self)@.records, id as int) ==> r == Err::<(), Error>(Error::NotFound)
                && final(self)@ == old(self)@,
    {
        match self.find_row(id) {
            Some(i) => {
                let ghost before = self@;
                self.values.remove(i);
                proof {
                    assert(self@.records =~= before.records.remove(i as int));
                    assert(self@ == delete_record_spec(old(self)@, id as int));
                    assert(final(self).wf());
                }
                Ok(())
            },
            None => Err(Error::NotFound),
        }
    }

    /// Atomically replaces the record at `id`, preserving the id; fails with
    /// [`Error::NotFound`] (and leaves the store unchanged) when absent.
    /// The attribute set is not widened by a replacement.
    pub fn update_record(&mut self, id: i64, record: Record) -> (r: Result<(), Error>)
        requires
            old(self).wf(),
            record.wf(),
        ensures
            final(self).wf(),
            rows_has(old(self)@.records, id as int) ==> r is Ok && final(self)@ == update_record_spec(old(self)@, id as int, record@),
            !rows_has(old(self)@.records, id as int) ==> r == Err::<(), Error>(Error::NotFound)
                && final(self)@ == old(self)@,
    {
        let ghost rv = record@;
        match self.find_row(id) {
            Some(i) => {
                let ghost before = self@;
                self.values.set(i, (id, record));
                proof {
                    assert(self@.records =~= before.records.update(i as int, (id as int, rv)));
                    assert(self@ == update_record_spec(old(self)@, id as int, rv));
                    assert(before.records[i as int].0 == id as int);
                    assert forall|p: int, q: int|
                        0 <= p < q < self@.records.len() implies (#[trigger] self@.records[p]).0
                        != (#[trigger] self@.records[q]).0 by {
                        assert(self@.records[p].0 == before.records[p].0);
                        assert(self@.records[q].0 == before.records[q].0);
                        assert(before.records[p].0 != before.records[q].0);
                    }
                    assert(final(self).wf());
                }
                Ok(())
            },
            None => Err(Error::NotFound),
        }
    }

    /// The record with `id`; fails with [`Error::NotFound`] when absent.
    pub fn get_record(&self, id: i64) -> (r: Result<&Record, Error>)
        ensures
            match r {
                Ok(rec) => rows_get(self@.records, id as int) == Some(rec@),
                Err(e) => e == Error::NotFound && !rows_has(self@.records, id as int),
            },
    {
        match self.find_row(id) {
            Some(i) => Ok(&self.values[i].1),
            None => Err(Error::NotFound),
        }
    }

    /// A full copy of the rows, in insertion order.
    pub fn get_all_records(&self) -> (r: Result<Vec<(i64, Record)>, Error>)
        ensures
            r matches Ok(v) && rows_view(v@) == self@.records,
    {
        let n = self.values.len();
        let mut out: Vec<(i64, Record)> = Vec::new();
        let mut i: usize = 0;
        while i < n
            invariant
                i <= n,
                n == self@.records.len(),
                out@.len() == i,
                forall|j: int|
                    0 <= j < i ==> (#[trigger] rows_view(out@)[j]) == self@.records[j],
            decreases n - i,
        {
            let ghost out0 = out@;
            let id = self.values[i].0;
            let rec = self.values[i].1.duplicate();
            out.push((id, rec));
            proof {
                assert forall|j: int| 0 <= j < i + 1 implies (#[trigger] rows_view(out@)[j])
                    == self@.records[j] by {
                    if j < i {
                        assert(out@[j] == out0[j]);
                        assert(rows_view(out0)[j] == self@.records[j]);
                    }
                }
            }
            i = i + 1;
        }
        proof {
            assert(rows_view(out@) =~= self@.records);
        }
        Ok(out)
    }
}

} // verus!

verus! {

/// Law: ids are never reused. Deleting a record and then adding another
/// hands out an id different from the deleted one — in fact greater than
/// every id the store held before the deletion.
pub proof fn lemma_no_id_reuse(s: StoreV, id: int, r: RecordV)
    requires
        store_wf(s),
        rows_has(s.records, id),
    ensures
        add_record_spec(delete_record_spec(s, id), r).records.last().0 == s.next_id,
        s.next_id != id,
        forall|j: int|
            0 <= j < s.records.len() ==> (#[trigger] s.records[j]).0 < s.next_id,
{
    let i = choose|i: int| 0 <= i < s.records.len() && (#[trigger] s.records[i]).0 == id;
    assert(s.records[i].0 < s.next_id);
}

} // verus!
