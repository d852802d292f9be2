//! Records: attribute-to-value maps with unique keys, kept in insertion
//! order so that rendering and persistence are deterministic.

use vstd::prelude::*;
use crate::value::{Value, ValueV, value_v_wf, str_eq};

verus! {

/// Mathematical image of a record: its fields in order.
pub type RecordV = Seq<(Seq<char>, ValueV)>;

/// The record has a field named `k`.
pub open spec fn rec_has(r: RecordV, k: Seq<char>) -> bool {
    exists|i: int| 0 <= i < r.len() && (#[trigger] r[i]).0 == k
}

/// Index of the first field named `k` (the record length when there is none).
pub open spec fn rec_idx(r: RecordV, k: Seq<char>) -> int
    decreases r.len(),
{
    if r.len() == 0 {
        0
    } else if r[0].0 == k {
        0
    } else {
        1 + rec_idx(r.skip(1), k)
    }
}

/// The value of the first field named `k`, if any.
pub open spec fn rec_get(r: RecordV, k: Seq<char>) -> Option<ValueV>
    decreases r.len(),
{
    if r.len() == 0 {
        None
    } else if r[0].0 == k {
        Some(r[0].1)
    } else {
        rec_get(r.skip(1), k)
    }
}

/// The record after writing `v` under `k`: in place when `k` is present,
/// appended otherwise.
pub open spec fn rec_set(r: RecordV, k: Seq<char>, v: ValueV) -> RecordV {
    if rec_has(r, k) {
        r.update(rec_idx(r, k), (k, v))
    } else {
        r.push((k, v))
    }
}

/// Well-formedness: field names unique, every value well formed.
pub open spec fn rec_wf(r: RecordV) -> bool {
    &&& forall|i: int, j: int|
        0 <= i < j < r.len() ==> (#[trigger] r[i]).0 != (#[trigger] r[j]).0
    &&& forall|i: int| 0 <= i < r.len() ==> value_v_wf((#[trigger] r[i]).1)
}

/// How the first-match functions relate: `rec_idx` points at the first field
/// named `k`, and `rec_get` reads exactly there.
pub proof fn lemma_rec_first(r: RecordV, k: Seq<char>)
    ensures
        rec_has(r, k) <==> rec_get(r, k) is Some,
        rec_has(r, k) ==> {
            &&& 0 <= rec_idx(r, k) < r.len()
            &&& r[rec_idx(r, k)].0 == k
            &&& rec_get(r, k) == Some(r[rec_idx(r, k)].1)
            &&& forall|j: int| 0 <= j < rec_idx(r, k) ==> (#[trigger] r[j]).0 != k
        },
        !rec_has(r, k) ==> rec_idx(r, k) == r.len(),
    decreases r.len(),
{
    if r.len() == 0 {
    } else if r[0].0 == k {
    } else {
        lemma_rec_first(r.skip(1), k);
        assert(forall|j: int| 0 <= j < r.skip(1).len() ==> r.skip(1)[j] == r[j + 1]);
        if rec_has(r.skip(1), k) {
            let i = choose|i: int| 0 <= i < r.skip(1).len() && (#[trigger] r.skip(1)[i]).0 == k;
            assert(r[i + 1].0 == k);
        }
        if rec_has(r, k) {
            let i = choose|i: int| 0 <= i < r.len() && (#[trigger] r[i]).0 == k;
            assert(r.skip(1)[i - 1].0 == k);
            let n = rec_idx(r.skip(1), k);
            assert(r[n + 1].0 == r.skip(1)[n].0);
            assert forall|j: int| 0 <= j < n + 1 implies (#[trigger] r[j]).0 != k by {
                if j > 0 {
                    assert(r.skip(1)[j - 1].0 != k);
                }
            }
        }
    }
}

/// Writing a well-formed value keeps a record well formed, and reads back.
pub proof fn lemma_rec_set_wf(r: RecordV, k: Seq<char>, v: ValueV)
    requires
        rec_wf(r),
        value_v_wf(v),
    ensures
        rec_wf(rec_set(r, k, v)),
        rec_has(rec_set(r, k, v), k),
        rec_get(rec_set(r, k, v), k) == Some(v),
{
    lemma_rec_first(r, k);
    let r2 = rec_set(r, k, v);
    if rec_has(r, k) {
        let n = rec_idx(r, k);
        assert(forall|i: int| 0 <= i < r2.len() && i != n ==> r2[i] == r[i]);
        assert(rec_has(r2, k)) by {
            assert(r2[n].0 == k);
        }
        lemma_rec_first(r2, k);
        assert(rec_idx(r2, k) == n) by {
            lemma_rec_idx_same(r, r2, k, n);
        }
    } else {
        assert(forall|i: int| 0 <= i < r.len() ==> r2[i] == r[i]);
        assert(r2[r.len() as int].0 == k);
        lemma_rec_idx_same(r, r2, k, r.len() as int);
    }
}

/// When two records agree on a prefix that is `k`-free and hit `k` at `n`,
/// their first index for `k` is `n`.
proof fn lemma_rec_idx_same(r: RecordV, r2: RecordV, k: Seq<char>, n: int)
    requires
        0 <= n < r2.len(),
        r2[n].0 == k,
        forall|j: int| 0 <= j < n ==> (#[trigger] r2[j]).0 != k,
    ensures
        rec_idx(r2, k) == n,
        rec_get(r2, k) == Some(r2[n].1),
    decreases n,
{
    if n == 0 {
    } else {
        assert(r2[0].0 != k);
        assert(forall|j: int| 0 <= j < r2.skip(1).len() ==> r2.skip(1)[j] == r2[j + 1]);
        lemma_rec_idx_same(r, r2.skip(1), k, n - 1);
    }
}

} // verus!

verus! {

/// A record: an ordered list of uniquely named fields.
#[derive(Debug)]
pub struct Record {
    fields: Vec<(String, Value)>,
}

impl View for Record {
    type V = RecordV;

    closed spec fn view(&self) -> RecordV {
        Seq::new(self.fields@.len(), |i: int| (self.fields@[i].0@, self.fields@[i].1@))
    }
}

impl Record {
    /// Unique names, well-formed values.
    pub open spec fn wf(self) -> bool {
        rec_wf(self@)
    }

    /// An empty record.
    pub fn new() -> (r: Record)
        ensures
            r@ == RecordV::empty(),
            r.wf(),
    {
        let r = Record { fields: Vec::new() };
        proof {
            assert(r@ =~= RecordV::empty());
        }
        r
    }

    /// Number of fields.
    pub fn len(&self) -> (n: usize)
        ensures
            n == self@.len(),
    {
        self.fields.len()
    }

    /// Name of the field at `i`.
    pub fn name_at(&self, i: usize) -> (r: &String)
        requires
            i < self@.len(),
        ensures
            r@ == self@[i as int].0,
    {
        &self.fields[i].0
    }

    /// Value of the field at `i`.
    pub fn value_at(&self, i: usize) -> (r: &Value)
        requires
            i < self@.len(),
        ensures
            r@ == self@[i as int].1,
    {
        &self.fields[i].1
    }

    /// The value under `name`, if the record has that field.
    pub fn get(&self, name: &str) -> (r: Option<&Value>)
        ensures
            match r {
                Some(v) => rec_get(self@, name@) == Some(v@),
                None => rec_get(self@, name@) is None,
            },
    {
        proof {
            lemma_rec_first(self@, name@);
        }
        let n = self.fields.len();
        let mut i: usize = 0;
        while i < n
            invariant
                i <= n,
                n == self@.len(),
                forall|j: int| 0 <= j < i ==> (#[trigger] self@[j]).0 != name@,
            decreases n - i,
        {
            if str_eq(self.fields[i].0.as_str(), name) {
                proof {
                    lemma_rec_idx_same(self@, self@, name@, i as int);
                }
                return Some(&self.fields[i].1);
            }
            i = i + 1;
        }
        None
    }

    /// Writes `v` under `name`: in place when the field exists, appended
    /// otherwise. A well-formed value keeps the record well formed.
    pub fn insert(&mut self, name: String, v: Value)
        ensures
            final(self)@ == rec_set(old(self)@, name@, v@),
            old(self).wf() && v.wf() ==> final(self).wf(),
    {
        proof {
            lemma_rec_first(self@, name@);
            if old(self).wf() && v.wf() {
                lemma_rec_set_wf(old(self)@, name@, v@);
            }
        }
        let n = self.fields.len();
        let mut i: usize = 0;
        while i < n
            invariant
                i <= n,
                n == self@.len(),
                self == old(self),
                forall|j: int| 0 <= j < i ==> (#[trigger] self@[j]).0 != name@,
            decreases n - i,
        {
            if str_eq(self.fields[i].0.as_str(), name.as_str()) {
                proof {
                    lemma_rec_idx_same(self@, self@, name@, i as int);
                }
                self.fields.set(i, (name, v));
                proof {
                    assert(final(self)@ =~= rec_set(old(self)@, name@, v@));
                }
                return;
            }
            i = i + 1;
        }
        self.fields.push((name, v));
        proof {
            assert(final(self)@ =~= rec_set(old(self)@, name@, v@));
        }
    }

    /// Copies the record; the copy has the same mathematical image.
    pub fn duplicate(&self) -> (r: Record)
        ensures
            r@ == self@,
    {
        let n = self.fields.len();
        let mut fields: Vec<(String, Value)> = Vec::new();
        let mut i: usize = 0;
        while i < n
            invariant
                i <= n,
                n == self@.len(),
                fields@.len() == i,
                forall|j: int|
                    0 <= j < i ==> (#[trigger] fields@[j]).0@ == self@[j].0 && fields@[j].1@
                        == self@[j].1,
            decreases n - i,
        {
            let name = self.fields[i].0.clone();
            let v = self.fields[i].1.duplicate();
            fields.push((name, v));
            i = i + 1;
        }
        let r = Record { fields };
        proof {
            assert(r@ =~= self@);
        }
        r
    }
}

} // verus!
