//! The query engine: exact-match filtering, multi-attribute filtering,
//! operator queries and attribute-based stable sorting, all over a snapshot
//! of a store's records.

use vstd::prelude::*;
use crate::Error;
use crate::record::{Record, RecordV, rec_get, rec_wf};
use crate::store::{Store, attrs_has, names_view, rows_view};
use crate::value::{
    lex_cmp_v, str_eq, str_cmp, value_cmp_v, value_v_wf, Value, ValueOrder, ValueV,
};

verus! {

/// Comparison operators a query can apply to a stored value and a probe.
#[derive(Clone, Copy, Debug, PartialEq, Eq, Structural)]
pub enum QueryOperator {
    /// Equal to (structural: kinds must match).
    Eq,
    /// Not equal to.
    Neq,
    /// Greater than (numeric values only).
    Gt,
    /// Less than (numeric values only).
    Lt,
    /// Greater than or equal to (numeric values only).
    Ge,
    /// Less than or equal to (numeric values only).
    Le,
    /// Substring test (text values only).
    Contains,
}

/// `n` occurs contiguously inside `h`.
pub open spec fn is_substring_v(h: Seq<char>, n: Seq<char>) -> bool {
    exists|k: int| 0 <= k && k + n.len() <= h.len() && #[trigger] h.subrange(k, k + n.len()) == n
}

/// Whether a stored value `a` satisfies `op` against the probe `b`.
///
/// Relational operators apply only between two numeric values and
/// `Contains` only between two texts; any other pairing does not match
/// (and is not an error).
pub open spec fn op_matches(op: QueryOperator, a: ValueV, b: ValueV) -> bool {
    match op {
        QueryOperator::Eq => a == b,
        QueryOperator::Neq => a != b,
        QueryOperator::Gt => crate::value::num_of(a) is Some && crate::value::num_of(b) is Some
            && value_cmp_v(a, b) == ValueOrder::Greater,
        QueryOperator::Lt => crate::value::num_of(a) is Some && crate::value::num_of(b) is Some
            && value_cmp_v(a, b) == ValueOrder::Less,
        QueryOperator::Ge => crate::value::num_of(a) is Some && crate::value::num_of(b) is Some
            && (value_cmp_v(a, b) == ValueOrder::Greater || value_cmp_v(a, b)
            == ValueOrder::Equal),
        QueryOperator::Le => crate::value::num_of(a) is Some && crate::value::num_of(b) is Some
            && (value_cmp_v(a, b) == ValueOrder::Less || value_cmp_v(a, b) == ValueOrder::Equal),
        QueryOperator::Contains => match (a, b) {
            (ValueV::Text(x), ValueV::Text(y)) => is_substring_v(x, y),
            _ => false,
        },
    }
}

/// The row matches `filter`: it has the attribute, stored as the text `val`.
pub open spec fn filter_pred(attr: Seq<char>, val: Seq<char>) -> spec_fn((int, RecordV)) -> bool {
    |row: (int, RecordV)| rec_get(row.1, attr) == Some(ValueV::Text(val))
}

/// The rows whose value at `attr` is the text `val`, in store order.
pub open spec fn filter_rows(rs: Seq<(int, RecordV)>, attr: Seq<char>, val: Seq<char>) -> Seq<
    (int, RecordV),
> {
    rs.filter(filter_pred(attr, val))
}

/// The row matches `query`: it has the attribute and the value satisfies the
/// operator against the probe.
pub open spec fn query_pred(attr: Seq<char>, op: QueryOperator, v: ValueV) -> spec_fn(
    (int, RecordV),
) -> bool {
    |row: (int, RecordV)|
        match rec_get(row.1, attr) {
            Some(a) => op_matches(op, a, v),
            None => false,
        }
}

/// The rows matching `query(attr, op, v)`, in store order.
pub open spec fn query_rows(
    rs: Seq<(int, RecordV)>,
    attr: Seq<char>,
    op: QueryOperator,
    v: ValueV,
) -> Seq<(int, RecordV)> {
    rs.filter(query_pred(attr, op, v))
}

/// The row matches every (attribute, value) pair, by position.
pub open spec fn pairs_pred(attrs: Seq<Seq<char>>, vals: Seq<Seq<char>>) -> spec_fn(
    (int, RecordV),
) -> bool {
    |row: (int, RecordV)|
        forall|j: int|
            0 <= j < attrs.len() ==> rec_get(row.1, attrs[j]) == Some(
                ValueV::Text(#[trigger] vals[j]),
            )
}

/// The rows matching every (attribute, value) pair, in store order.
pub open spec fn pairs_rows(
    rs: Seq<(int, RecordV)>,
    attrs: Seq<Seq<char>>,
    vals: Seq<Seq<char>>,
) -> Seq<(int, RecordV)> {
    rs.filter(pairs_pred(attrs, vals))
}

/// An element belongs to a filtered sequence exactly when it belongs to the
/// original and satisfies the predicate.
pub proof fn lemma_filter_membership<A>(s: Seq<A>, pred: spec_fn(A) -> bool, x: A)
    ensures
        s.filter(pred).contains(x) <==> s.contains(x) && pred(x),
    decreases s.len(),
{
    reveal(Seq::filter);
    if s.len() > 0 {
        lemma_filter_membership(s.drop_last(), pred, x);
        assert(s.drop_last() =~= s.take(s.len() - 1));
        if s.contains(x) && pred(x) {
            let i = choose|i: int| 0 <= i < s.len() && s[i] == x;
            if i < s.len() - 1 {
                assert(s.drop_last()[i] == x);
                assert(s.drop_last().contains(x));
            }
        }
        if s.filter(pred).contains(x) {
            if pred(s.last()) {
                let f = s.drop_last().filter(pred);
                let i = choose|i: int| 0 <= i < s.filter(pred).len() && s.filter(pred)[i] == x;
                if i < f.len() {
                    assert(f.contains(x));
                }
            }
        }
        if s.drop_last().contains(x) {
            let i = choose|i: int| 0 <= i < s.drop_last().len() && s.drop_last()[i] == x;
            assert(s[i] == x);
        }
        if s.last() == x {
            assert(s[s.len() - 1] == x);
        }
    }
}

/// Finds `n` inside `h`, scanning left to right.
pub fn str_contains(h: &str, n: &str) -> (r: bool)
    ensures
        r == is_substring_v(h@, n@),
{
    let hl = h.unicode_len();
    let nl = n.unicode_len();
    if nl > hl {
        assert(!is_substring_v(h@, n@));
        return false;
    }
    if nl == 0 {
        proof {
            assert(h@.subrange(0, 0 + n@.len() as int) =~= n@);
        }
        return true;
    }
    let mut k: usize = 0;
    while k <= hl - nl
        invariant
            nl <= hl,
            hl == h@.len(),
            nl == n@.len(),
            k <= hl - nl + 1,
            nl >= 1,
            forall|q: int| 0 <= q < k ==> #[trigger] h@.subrange(q, q + n@.len()) != n@,
        decreases hl - nl - k + 1,
    {
        let mut j: usize = 0;
        let mut hit = true;
        while j < nl && hit
            invariant
                nl <= hl,
                hl == h@.len(),
                nl == n@.len(),
                k + nl <= hl,
                j <= nl,
                hit ==> forall|q: int| 0 <= q < j ==> h@[k + q] == n@[q],
                !hit ==> h@.subrange(k as int, k + n@.len()) != n@,
            decreases nl - j + if hit {
                1int
            } else {
                0int
            },
        {
            let hc = h.get_char(k + j);
            let nc = n.get_char(j);
            if (hc as u32) != (nc as u32) {
                proof {
                    vstd::utf8::char_u32_cast(hc, hc as u32);
                    vstd::utf8::char_u32_cast(nc, nc as u32);
                    assert(h@.subrange(k as int, k + n@.len())[j as int] == h@[k + j]);
                }
                hit = false;
            } else {
                proof {
                    vstd::utf8::char_u32_cast(hc, hc as u32);
                    vstd::utf8::char_u32_cast(nc, nc as u32);
                }
                j = j + 1;
            }
        }
        if hit {
            proof {
                assert(h@.subrange(k as int, k + n@.len()) =~= n@);
            }
            return true;
        }
        k = k + 1;
    }
    proof {
        assert forall|q: int| 0 <= q && q + n@.len() <= h@.len() implies #[trigger] h@.subrange(
            q,
            q + n@.len(),
        ) != n@ by {
            assert(q < hl - nl + 1);
        }
    }
    false
}

} // verus!

verus! {

/// Whether the value is numeric (an integer or a decimal).
fn is_numeric(v: &Value) -> (r: bool)
    ensures
        r == (crate::value::num_of(v@) is Some),
{
    match v {
        Value::Int(_) => true,
        Value::Dec(_) => true,
        _ => false,
    }
}

impl Store {
    /// Returns every record whose value at `attribute` is the **text**
    /// `search_value`; a record storing a number or boolean there never
    /// matches, even when its display form agrees. Fails with
    /// [`Error::AttributeNotFound`] exactly when the store has never
    /// declared `attribute`.
    pub fn filter(&self, attribute: &str, search_value: &str) -> (r: Result<
        Vec<(i64, Record)>,
        Error,
    >)
        ensures
            attrs_has(self@.attributes, attribute@) ==> (r matches Ok(v) && rows_view(v@)
                == filter_rows(self@.records, attribute@, search_value@)),
            !attrs_has(self@.attributes, attribute@) ==> r == Err::<Vec<(i64, Record)>, Error>(
                Error::AttributeNotFound,
            ),
    {
        if !self.has_attribute(attribute) {
            return Err(Error::AttributeNotFound);
        }
        let ghost rs = self@.records;
        let ghost pred = filter_pred(attribute@, search_value@);
        let mut out: Vec<(i64, Record)> = Vec::new();
        proof {
            reveal(Seq::filter);
            assert(rs.take(0) =~= Seq::<(int, RecordV)>::empty());
            assert(rows_view(out@) =~= rs.take(0).filter(pred));
        }
        let n = self.rows_len();
        let mut i: usize = 0;
        while i < n
            invariant
                i <= n,
                n == rs.len(),
                rs == self@.records,
                pred == filter_pred(attribute@, search_value@),
                rows_view(out@) == rs.take(i as int).filter(pred),
            decreases n - i,
        {
            let ghost acc = rows_view(out@);
            let ghost t = rs.take(i as int);
            let rec = self.row_at(i);
            let sel = match rec.get(attribute) {
                Some(v) => match v {
                    Value::Text(s) => str_eq(s.as_str(), search_value),
                    _ => false,
                },
                None => false,
            };
            proof {
                assert(sel == pred(rs[i as int]));
                reveal(Seq::filter);
                assert(rs.take(i + 1).drop_last() =~= t);
                assert(rs.take(i + 1).last() == rs[i as int]);
            }
            if sel {
                let id = self.row_id_at(i);
                let dup = rec.duplicate();
                out.push((id, dup));
                proof {
                    assert(rows_view(out@) =~= acc.push(rs[i as int]));
                }
            }
            i = i + 1;
        }
        proof {
            assert(rs.take(n as int) =~= rs);
        }
        Ok(out)
    }

    /// Returns every record that matches all `(attribute, value)` pairs,
    /// paired by position; a record matches a pair only when it has the
    /// attribute stored as exactly that text. Fails with
    /// [`Error::InvalidInput`] exactly when the two lists differ in length.
    pub fn filter_attributes(&self, attributes: &Vec<String>, search_values: &Vec<String>) -> (r:
        Result<Vec<(i64, Record)>, Error>)
        ensures
            attributes@.len() == search_values@.len() ==> (r matches Ok(v) && rows_view(v@)
                == pairs_rows(
                self@.records,
                names_view(attributes@),
                names_view(search_values@),
            )),
            attributes@.len() != search_values@.len() ==> r == Err::<Vec<(i64, Record)>, Error>(
                Error::InvalidInput,
            ),
    {
        if attributes.len() != search_values.len() {
            return Err(Error::InvalidInput);
        }
        let ghost rs = self@.records;
        let ghost ats = names_view(attributes@);
        let ghost vls = names_view(search_values@);
        let ghost pred = pairs_pred(ats, vls);
        let mut out: Vec<(i64, Record)> = Vec::new();
        proof {
            reveal(Seq::filter);
            assert(rs.take(0) =~= Seq::<(int, RecordV)>::empty());
            assert(rows_view(out@) =~= rs.take(0).filter(pred));
        }
        let n = self.rows_len();
        let np = attributes.len();
        let mut i: usize = 0;
        while i < n
            invariant
                i <= n,
                n == rs.len(),
                rs == self@.records,
                np == ats.len(),
                ats == names_view(attributes@),
                vls == names_view(search_values@),
                np == attributes@.len(),
                np == search_values@.len(),
                pred == pairs_pred(ats, vls),
                rows_view(out@) == rs.take(i as int).filter(pred),
            decreases n - i,
        {
            let ghost acc = rows_view(out@);
            let ghost t = rs.take(i as int);
            let rec = self.row_at(i);
            let mut all = true;
            let mut j: usize = 0;
            while j < np && all
                invariant
                    j <= np,
                    np == ats.len(),
                    ats == names_view(attributes@),
                    vls == names_view(search_values@),
                    np == attributes@.len(),
                    np == search_values@.len(),
                    i < n,
                    n == rs.len(),
                    rs == self@.records,
                    rec@ == rs[i as int].1,
                    all ==> forall|q: int|
                        0 <= q < j ==> rec_get(rs[i as int].1, ats[q]) == Some(
                            ValueV::Text(#[trigger] vls[q]),
                        ),
                    !all ==> !pairs_pred(ats, vls)(rs[i as int]),
                decreases np - j + if all {
                    1int
                } else {
                    0int
                },
            {
                let ok = match rec.get(attributes[j].as_str()) {
                    Some(v) => match v {
                        Value::Text(s) => str_eq(s.as_str(), search_values[j].as_str()),
                        _ => false,
                    },
                    None => false,
                };
                proof {
                    assert(ats[j as int] == attributes@[j as int]@);
                    assert(vls[j as int] == search_values@[j as int]@);
                }
                if ok {
                    j = j + 1;
                } else {
                    proof {
                        assert(rec_get(rs[i as int].1, ats[j as int]) != Some(
                            ValueV::Text(vls[j as int]),
                        ));
                    }
                    all = false;
                }
            }
            proof {
                assert(all == pred(rs[i as int]));
                reveal(Seq::filter);
                assert(rs.take(i + 1).drop_last() =~= t);
                assert(rs.take(i + 1).last() == rs[i as int]);
            }
            if all {
                let id = self.row_id_at(i);
                let dup = rec.duplicate();
                out.push((id, dup));
                proof {
                    assert(rows_view(out@) =~= acc.push(rs[i as int]));
                }
            }
            i = i + 1;
        }
        proof {
            assert(rs.take(n as int) =~= rs);
        }
        Ok(out)
    }

    /// Returns every record having `attribute` whose value satisfies
    /// `operator` against `value`. Never fails: an attribute absent
    /// everywhere, or a pairing the operator does not apply to, simply
    /// matches nothing.
    pub fn query(&self, attribute: &str, operator: QueryOperator, value: Value) -> (r: Result<
        Vec<(i64, Record)>,
        Error,
    >)
        requires
            self.wf(),
            value.wf(),
        ensures
            r matches Ok(v) && rows_view(v@) == query_rows(
                self@.records,
                attribute@,
                operator,
                value@,
            ),
    {
        let ghost rs = self@.records;
        let ghost pred = query_pred(attribute@, operator, value@);
        let mut out: Vec<(i64, Record)> = Vec::new();
        proof {
            reveal(Seq::filter);
            assert(rs.take(0) =~= Seq::<(int, RecordV)>::empty());
            assert(rows_view(out@) =~= rs.take(0).filter(pred));
        }
        let n = self.rows_len();
        let mut i: usize = 0;
        while i < n
            invariant
                i <= n,
                n == rs.len(),
                rs == self@.records,
                self.wf(),
                value.wf(),
                pred == query_pred(attribute@, operator, value@),
                rows_view(out@) == rs.take(i as int).filter(pred),
            decreases n - i,
        {
            let ghost acc = rows_view(out@);
            let ghost t = rs.take(i as int);
            let rec = self.row_at(i);
            proof {
                crate::record::lemma_rec_first(rec@, attribute@);
            }
            let sel = match rec.get(attribute) {
                Some(a) => match operator {
                    QueryOperator::Eq => a.eq(&value),
                    QueryOperator::Neq => !a.eq(&value),
                    QueryOperator::Gt => is_numeric(a) && is_numeric(&value) && matches!(
                        a.compare(&value),
                        ValueOrder::Greater
                    ),
                    QueryOperator::Lt => is_numeric(a) && is_numeric(&value) && matches!(
                        a.compare(&value),
                        ValueOrder::Less
                    ),
                    QueryOperator::Ge => is_numeric(a) && is_numeric(&value) && match a.compare(
                        &value,
                    ) {
                        ValueOrder::Greater => true,
                        ValueOrder::Equal => true,
                        _ => false,
                    },
                    QueryOperator::Le => is_numeric(a) && is_numeric(&value) && match a.compare(
                        &value,
                    ) {
                        ValueOrder::Less => true,
                        ValueOrder::Equal => true,
                        _ => false,
                    },
                    QueryOperator::Contains => match (a, &value) {
                        (Value::Text(x), Value::Text(y)) => str_contains(
                            x.as_str(),
                            y.as_str(),
                        ),
                        _ => false,
                    },
                },
                None => false,
            };
            proof {
                assert(sel == pred(rs[i as int]));
                reveal(Seq::filter);
                assert(rs.take(i + 1).drop_last() =~= t);
                assert(rs.take(i + 1).last() == rs[i as int]);
            }
            if sel {
                let id = self.row_id_at(i);
                let dup = rec.duplicate();
                out.push((id, dup));
                proof {
                    assert(rows_view(out@) =~= acc.push(rs[i as int]));
                }
            }
            i = i + 1;
        }
        proof {
            assert(rs.take(n as int) =~= rs);
        }
        Ok(out)
    }
}

/// Law: `filter` keeps exactly the rows whose value at the attribute is the
/// given text, and none whose value is of any other kind.
pub proof fn lemma_filter_characterizes(
    rs: Seq<(int, RecordV)>,
    attr: Seq<char>,
    val: Seq<char>,
    row: (int, RecordV),
)
    ensures
        filter_rows(rs, attr, val).contains(row) <==> rs.contains(row) && rec_get(row.1, attr)
            == Some(ValueV::Text(val)),
{
    lemma_filter_membership(rs, filter_pred(attr, val), row);
}

/// Law: over the rows possessing the attribute, `Eq` and `Neq` queries with
/// one probe partition them exactly: each such row appears in exactly one of
/// the two results, and no other row appears in either.
pub proof fn lemma_query_eq_neq_partition(
    rs: Seq<(int, RecordV)>,
    attr: Seq<char>,
    v: ValueV,
    row: (int, RecordV),
)
    ensures
        rs.contains(row) && rec_get(row.1, attr) is Some ==> (query_rows(
            rs,
            attr,
            QueryOperator::Eq,
            v,
        ).contains(row) <==> !query_rows(rs, attr, QueryOperator::Neq, v).contains(row)),
        query_rows(rs, attr, QueryOperator::Eq, v).contains(row) || query_rows(
            rs,
            attr,
            QueryOperator::Neq,
            v,
        ).contains(row) ==> rs.contains(row) && rec_get(row.1, attr) is Some,
        !(query_rows(rs, attr, QueryOperator::Eq, v).contains(row) && query_rows(
            rs,
            attr,
            QueryOperator::Neq,
            v,
        ).contains(row)),
{
    lemma_filter_membership(rs, query_pred(attr, QueryOperator::Eq, v), row);
    lemma_filter_membership(rs, query_pred(attr, QueryOperator::Neq, v), row);
}

} // verus!

verus! {

/// How two records compare on `attr`: by their values when both have the
/// attribute and the values are mutually ordered, otherwise unordered.
pub open spec fn rec_cmp(attr: Seq<char>, a: RecordV, b: RecordV) -> ValueOrder {
    match (rec_get(a, attr), rec_get(b, attr)) {
        (Some(x), Some(y)) => value_cmp_v(x, y),
        _ => ValueOrder::Unordered,
    }
}

/// `a` must come strictly before `b` in a pass over `attr`; ties and
/// unordered pairs never force an exchange, which makes the sort stable.
pub open spec fn strictly_before(asc: bool, attr: Seq<char>, a: RecordV, b: RecordV) -> bool {
    if asc {
        rec_cmp(attr, a, b) == ValueOrder::Less
    } else {
        rec_cmp(attr, a, b) == ValueOrder::Greater
    }
}

/// Stable insertion of `x` into `acc` from the right: `x` is placed after
/// every element it is not strictly before.
pub open spec fn insert_row_spec(
    asc: bool,
    attr: Seq<char>,
    acc: Seq<(int, RecordV)>,
    x: (int, RecordV),
) -> Seq<(int, RecordV)>
    decreases acc.len(),
{
    if acc.len() == 0 {
        seq![x]
    } else if strictly_before(asc, attr, x.1, acc.last().1) {
        insert_row_spec(asc, attr, acc.drop_last(), x).push(acc.last())
    } else {
        acc.push(x)
    }
}

/// Stable insertion sort over the rows, in input order.
pub open spec fn sort_rows_spec(asc: bool, attr: Seq<char>, rs: Seq<(int, RecordV)>) -> Seq<
    (int, RecordV),
>
    decreases rs.len(),
{
    if rs.len() == 0 {
        rs
    } else {
        insert_row_spec(asc, attr, sort_rows_spec(asc, attr, rs.drop_last()), rs.last())
    }
}

/// Inserting at the position found by a right-to-left scan is exactly the
/// stable insertion.
proof fn lemma_insert_at(
    asc: bool,
    attr: Seq<char>,
    acc: Seq<(int, RecordV)>,
    x: (int, RecordV),
    p: int,
)
    requires
        0 <= p <= acc.len(),
        forall|j: int| p <= j < acc.len() ==> strictly_before(asc, attr, x.1, (#[trigger] acc[j]).1),
        p > 0 ==> !strictly_before(asc, attr, x.1, acc[p - 1].1),
    ensures
        insert_row_spec(asc, attr, acc, x) == acc.take(p) + seq![x] + acc.skip(p),
    decreases acc.len(),
{
    if p == acc.len() {
        if acc.len() == 0 {
            assert(insert_row_spec(asc, attr, acc, x) =~= acc.take(p) + seq![x] + acc.skip(p));
        } else {
            assert(!strictly_before(asc, attr, x.1, acc.last().1));
            assert(acc.push(x) =~= acc.take(p) + seq![x] + acc.skip(p));
        }
    } else {
        assert(strictly_before(asc, attr, x.1, acc.last().1)) by {
            assert(strictly_before(asc, attr, x.1, acc[acc.len() - 1].1));
        }
        let dl = acc.drop_last();
        assert(forall|j: int| p <= j < dl.len() ==> strictly_before(
            asc,
            attr,
            x.1,
            (#[trigger] dl[j]).1,
        ));
        if p > 0 {
            assert(dl[p - 1] == acc[p - 1]);
        }
        lemma_insert_at(asc, attr, dl, x, p);
        assert(insert_row_spec(asc, attr, acc, x) == (dl.take(p) + seq![x] + dl.skip(p)).push(
            acc.last(),
        ));
        assert((dl.take(p) + seq![x] + dl.skip(p)).push(acc.last()) =~= acc.take(p) + seq![x]
            + acc.skip(p));
    }
}

/// Compares two records on `attr` and decides whether the first must come
/// strictly before the second.
fn row_strictly_before(asc: bool, attribute: &str, a: &Record, b: &Record) -> (r: bool)
    requires
        rec_wf(a@),
        rec_wf(b@),
    ensures
        r == strictly_before(asc, attribute@, a@, b@),
{
    proof {
        crate::record::lemma_rec_first(a@, attribute@);
        crate::record::lemma_rec_first(b@, attribute@);
    }
    let ord = match (a.get(attribute), b.get(attribute)) {
        (Some(x), Some(y)) => x.compare(y),
        _ => ValueOrder::Unordered,
    };
    if asc {
        matches!(ord, ValueOrder::Less)
    } else {
        matches!(ord, ValueOrder::Greater)
    }
}

impl Store {
    /// Sorts a snapshot of the records by `attribute`, ascending or
    /// descending, with a stable insertion sort: records missing the
    /// attribute, or holding values that do not compare, keep their relative
    /// input order, as do ties.
    pub fn sort_by(&self, attribute: &str, ascending: bool) -> (r: Result<
        Vec<(i64, Record)>,
        Error,
    >)
        requires
            self.wf(),
        ensures
            r matches Ok(v) && rows_view(v@) == sort_rows_spec(
                ascending,
                attribute@,
                self@.records,
            ),
    {
        let ghost rs = self@.records;
        let mut out: Vec<(i64, Record)> = Vec::new();
        proof {
            assert(rs.take(0) =~= Seq::<(int, RecordV)>::empty());
            assert(rows_view(out@) =~= sort_rows_spec(ascending, attribute@, rs.take(0)));
        }
        let n = self.rows_len();
        let mut i: usize = 0;
        while i < n
            invariant
                i <= n,
                n == rs.len(),
                rs == self@.records,
                self.wf(),
                rows_view(out@) == sort_rows_spec(ascending, attribute@, rs.take(i as int)),
                forall|j: int| 0 <= j < out@.len() ==> rec_wf((#[trigger] out@[j]).1@),
            decreases n - i,
        {
            let ghost acc = rows_view(out@);
            let id = self.row_id_at(i);
            let dup = self.row_at(i).duplicate();
            proof {
                assert(rs[i as int] == (id as int, dup@));
                assert(rec_wf(dup@));
            }
            let mut p: usize = out.len();
            while p > 0 && row_strictly_before(ascending, attribute, &dup, &out[p - 1].1)
                invariant
                    p <= out@.len(),
                    acc == rows_view(out@),
                    rs == self@.records,
                    self.wf(),
                    rec_wf(dup@),
                    forall|j: int| 0 <= j < out@.len() ==> rec_wf((#[trigger] out@[j]).1@),
                    forall|j: int|
                        p <= j < acc.len() ==> strictly_before(
                            ascending,
                            attribute@,
                            dup@,
                            (#[trigger] acc[j]).1,
                        ),
                decreases p,
            {
                proof {
                    assert(acc[p - 1].1 == out@[p - 1].1@);
                }
                p = p - 1;
            }
            proof {
                if p > 0 {
                    assert(acc[p - 1].1 == out@[p - 1].1@);
                }
                lemma_insert_at(ascending, attribute@, acc, (id as int, dup@), p as int);
            }
            let ghost out0 = out@;
            out.insert(p, (id, dup));
            proof {
                out0.insert_ensures(p as int, (id, dup));
                assert(rows_view(out@) =~= acc.take(p as int) + seq![rs[i as int]] + acc.skip(
                    p as int,
                ));
                assert(rs.take(i + 1).drop_last() =~= rs.take(i as int));
                assert(rs.take(i + 1).last() == rs[i as int]);
                assert(rows_view(out@) == sort_rows_spec(ascending, attribute@, rs.take(i + 1)));
                assert forall|j: int| 0 <= j < out@.len() implies rec_wf(
                    (#[trigger] out@[j]).1@,
                ) by {
                    if j < p {
                        assert(out@[j] == out0[j]);
                    } else if j > p {
                        assert(out@[j] == out0[j - 1]);
                    }
                }
            }
            i = i + 1;
        }
        proof {
            assert(rs.take(n as int) =~= rs);
        }
        Ok(out)
    }
}

} // verus!

verus! {

/// Swapping the operands flips an ordering and keeps ties and unordered
/// pairs as they are.
pub proof fn lemma_lex_flip(a: Seq<char>, b: Seq<char>)
    ensures
        lex_cmp_v(b, a) == (match lex_cmp_v(a, b) {
            ValueOrder::Less => ValueOrder::Greater,
            ValueOrder::Greater => ValueOrder::Less,
            o => o,
        }),
    decreases a.len(),
{
    if a.len() > 0 && b.len() > 0 && (a[0] as u32) == (b[0] as u32) {
        lemma_lex_flip(a.skip(1), b.skip(1));
    }
}

/// Swapping the operands of a value comparison flips orderings only.
pub proof fn lemma_value_cmp_flip(a: ValueV, b: ValueV)
    ensures
        value_cmp_v(b, a) == (match value_cmp_v(a, b) {
            ValueOrder::Less => ValueOrder::Greater,
            ValueOrder::Greater => ValueOrder::Less,
            o => o,
        }),
{
    match (a, b) {
        (ValueV::Text(x), ValueV::Text(y)) => {
            lemma_lex_flip(x, y);
        },
        _ => {},
    }
}

/// Lexicographic strict order is transitive.
pub proof fn lemma_lex_trans(a: Seq<char>, b: Seq<char>, c: Seq<char>)
    requires
        lex_cmp_v(a, b) == ValueOrder::Less,
        lex_cmp_v(b, c) == ValueOrder::Less,
    ensures
        lex_cmp_v(a, c) == ValueOrder::Less,
    decreases a.len() + b.len() + c.len(),
{
    if a.len() == 0 {
        assert(b.len() > 0);
        assert(c.len() > 0);
    } else {
        assert(b.len() > 0);
        assert(c.len() > 0);
        if (a[0] as u32) < (b[0] as u32) {
            if (b[0] as u32) <= (c[0] as u32) {
            } else {
                assert(false);
            }
        } else {
            assert((a[0] as u32) == (b[0] as u32));
            if (b[0] as u32) < (c[0] as u32) {
            } else {
                assert((b[0] as u32) == (c[0] as u32));
                lemma_lex_trans(a.skip(1), b.skip(1), c.skip(1));
            }
        }
    }
}

/// Cross-multiplied comparison chains through a strict and a weak step.
proof fn lemma_scaled_trans(ma: int, pa: int, mb: int, pb: int, mc: int, pc: int)
    requires
        pa > 0,
        pb > 0,
        pc > 0,
        ma * pb < mb * pa,
        mb * pc <= mc * pb,
    ensures
        ma * pc < mc * pa,
{
    assert((ma * pb) * pc < (mb * pa) * pc) by (nonlinear_arith)
        requires
            pc > 0,
            ma * pb < mb * pa,
    ;
    assert((mb * pc) * pa <= (mc * pb) * pa) by (nonlinear_arith)
        requires
            pa > 0,
            mb * pc <= mc * pb,
    ;
    assert((ma * pb) * pc == (ma * pc) * pb && (mb * pa) * pc == (mb * pc) * pa && (mc * pb) * pa
        == (mc * pa) * pb) by (nonlinear_arith);
    assert((ma * pc) * pb < (mc * pa) * pb);
    assert(ma * pc < mc * pa) by (nonlinear_arith)
        requires
            pb > 0,
            (ma * pc) * pb < (mc * pa) * pb,
    ;
}

/// A strict value ordering chains through a strict or tied step, and a tied
/// step chains through a strict one.
pub proof fn lemma_value_cmp_trans(a: ValueV, b: ValueV, c: ValueV)
    requires
        value_cmp_v(a, b) == ValueOrder::Less || value_cmp_v(a, b) == ValueOrder::Equal,
        value_cmp_v(b, c) == ValueOrder::Less || value_cmp_v(b, c) == ValueOrder::Equal,
        value_cmp_v(a, b) == ValueOrder::Less || value_cmp_v(b, c) == ValueOrder::Less,
    ensures
        value_cmp_v(a, c) == ValueOrder::Less,
{
    match (crate::value::num_of(a), crate::value::num_of(b), crate::value::num_of(c)) {
        (Some(x), Some(y), Some(z)) => {
            crate::value::lemma_pow10_pos(x.1);
            crate::value::lemma_pow10_pos(y.1);
            crate::value::lemma_pow10_pos(z.1);
            let pa = crate::value::pow10(x.1);
            let pb = crate::value::pow10(y.1);
            let pc = crate::value::pow10(z.1);
            if value_cmp_v(a, b) == ValueOrder::Less {
                lemma_scaled_trans(x.0, pa, y.0, pb, z.0, pc);
            } else {
                // tied first step
                assert(x.0 * pb == y.0 * pa);
                assert(y.0 * pc < z.0 * pb);
                assert((z.0 * pa > x.0 * pc)) by (nonlinear_arith)
                    requires
                        pa > 0,
                        pb > 0,
                        pc > 0,
                        x.0 * pb == y.0 * pa,
                        y.0 * pc < z.0 * pb,
                ;
            }
        },
        _ => {
            match (a, b, c) {
                (ValueV::Text(x), ValueV::Text(y), ValueV::Text(z)) => {
                    if value_cmp_v(a, b) == ValueOrder::Equal {
                        crate::value::lemma_lex_eq(x, y);
                    } else if value_cmp_v(b, c) == ValueOrder::Equal {
                        crate::value::lemma_lex_eq(y, z);
                    } else {
                        lemma_lex_trans(x, y, z);
                    }
                },
                _ => {
                    assert(false);
                },
            }
        },
    }
}

} // verus!

verus! {

/// Every pair of rows is mutually ordered on `attr`.
pub open spec fn all_rows_comparable(attr: Seq<char>, rs: Seq<(int, RecordV)>) -> bool {
    forall|p: int, q: int|
        0 <= p < rs.len() && 0 <= q < rs.len() ==> rec_cmp(
            attr,
            (#[trigger] rs[p]).1,
            (#[trigger] rs[q]).1,
        ) != ValueOrder::Unordered
}

/// No later row must come strictly before an earlier one.
pub open spec fn rows_sorted(asc: bool, attr: Seq<char>, s: Seq<(int, RecordV)>) -> bool {
    forall|p: int, q: int|
        0 <= p < q < s.len() ==> !strictly_before(asc, attr, (#[trigger] s[q]).1, (
        #[trigger] s[p]).1)
}

/// Swapping the operands of a record comparison flips orderings only.
pub proof fn lemma_rec_cmp_flip(attr: Seq<char>, a: RecordV, b: RecordV)
    ensures
        rec_cmp(attr, b, a) == (match rec_cmp(attr, a, b) {
            ValueOrder::Less => ValueOrder::Greater,
            ValueOrder::Greater => ValueOrder::Less,
            o => o,
        }),
{
    match (rec_get(a, attr), rec_get(b, attr)) {
        (Some(x), Some(y)) => {
            lemma_value_cmp_flip(x, y);
        },
        _ => {},
    }
}

/// A strict record ordering chains through tied or strict steps.
pub proof fn lemma_rec_cmp_trans(attr: Seq<char>, a: RecordV, b: RecordV, c: RecordV)
    requires
        rec_cmp(attr, a, b) == ValueOrder::Less || rec_cmp(attr, a, b) == ValueOrder::Equal,
        rec_cmp(attr, b, c) == ValueOrder::Less || rec_cmp(attr, b, c) == ValueOrder::Equal,
        rec_cmp(attr, a, b) == ValueOrder::Less || rec_cmp(attr, b, c) == ValueOrder::Less,
    ensures
        rec_cmp(attr, a, c) == ValueOrder::Less,
{
    match (rec_get(a, attr), rec_get(b, attr), rec_get(c, attr)) {
        (Some(x), Some(y), Some(z)) => {
            lemma_value_cmp_trans(x, y, z);
        },
        _ => {
            assert(false);
        },
    }
}

/// Where stable insertion places the new row: after every row it is not
/// strictly before, and before all the rest.
pub open spec fn insert_decomp(
    asc: bool,
    attr: Seq<char>,
    acc: Seq<(int, RecordV)>,
    x: (int, RecordV),
    pos: int,
) -> bool {
    &&& 0 <= pos <= acc.len()
    &&& insert_row_spec(asc, attr, acc, x) == acc.take(pos) + seq![x] + acc.skip(pos)
    &&& forall|j: int|
        pos <= j < acc.len() ==> strictly_before(asc, attr, x.1, (#[trigger] acc[j]).1)
    &&& forall|j: int|
        0 <= j < pos ==> !strictly_before(asc, attr, x.1, (#[trigger] acc[j]).1)
}

/// Stable insertion splits a sorted run at a unique boundary and keeps it
/// sorted.
#[verifier::rlimit(80)]
pub proof fn lemma_insert_props(
    asc: bool,
    attr: Seq<char>,
    acc: Seq<(int, RecordV)>,
    x: (int, RecordV),
)
    requires
        rows_sorted(asc, attr, acc),
        forall|p: int|
            0 <= p < acc.len() ==> rec_cmp(attr, x.1, (#[trigger] acc[p]).1)
                != ValueOrder::Unordered,
        forall|p: int, q: int|
            0 <= p < acc.len() && 0 <= q < acc.len() ==> rec_cmp(
                attr,
                (#[trigger] acc[p]).1,
                (#[trigger] acc[q]).1,
            ) != ValueOrder::Unordered,
    ensures
        exists|pos: int| #[trigger] insert_decomp(asc, attr, acc, x, pos),
        rows_sorted(asc, attr, insert_row_spec(asc, attr, acc, x)),
    decreases acc.len(),
{
    let out = insert_row_spec(asc, attr, acc, x);
    if acc.len() == 0 {
        assert(out =~= acc.take(0) + seq![x] + acc.skip(0));
        assert(insert_decomp(asc, attr, acc, x, 0));
        assert(rows_sorted(asc, attr, out));
    } else if strictly_before(asc, attr, x.1, acc.last().1) {
        let dl = acc.drop_last();
        assert(forall|j: int| 0 <= j < dl.len() ==> dl[j] == acc[j]);
        lemma_insert_props(asc, attr, dl, x);
        let pos = choose|pos: int| #[trigger] insert_decomp(asc, attr, dl, x, pos);
        assert(out == insert_row_spec(asc, attr, dl, x).push(acc.last()));
        assert(out =~= acc.take(pos) + seq![x] + acc.skip(pos)) by {
            assert(insert_row_spec(asc, attr, dl, x) == dl.take(pos) + seq![x] + dl.skip(pos));
            assert(dl.take(pos) =~= acc.take(pos));
        }
        assert(insert_decomp(asc, attr, acc, x, pos)) by {
            assert(forall|j: int|
                pos <= j < acc.len() - 1 ==> strictly_before(
                    asc,
                    attr,
                    x.1,
                    (#[trigger] acc[j]).1,
                ));
            assert(acc[acc.len() - 1] == acc.last());
        }
        lemma_insert_sorted_from_decomp(asc, attr, acc, x, pos);
    } else {
        assert(out == acc.push(x));
        assert forall|j: int| 0 <= j < acc.len() implies !strictly_before(
            asc,
            attr,
            x.1,
            (#[trigger] acc[j]).1,
        ) by {
            if strictly_before(asc, attr, x.1, acc[j].1) && j < acc.len() - 1 {
                // the run is sorted, so the last row is not strictly before
                // row j; chain the orderings to contradict the stop at the end
                assert(!strictly_before(asc, attr, acc.last().1, acc[j].1));
                lemma_rec_cmp_flip(attr, acc.last().1, acc[j].1);
                lemma_rec_cmp_flip(attr, x.1, acc[j].1);
                lemma_rec_cmp_flip(attr, x.1, acc.last().1);
                assert(acc[acc.len() - 1] == acc.last());
                if asc {
                    assert(rec_cmp(attr, x.1, acc[j].1) == ValueOrder::Less);
                    assert(rec_cmp(attr, acc.last().1, acc[j].1) != ValueOrder::Less);
                    assert(rec_cmp(attr, acc[j].1, acc.last().1) == ValueOrder::Less || rec_cmp(
                        attr,
                        acc[j].1,
                        acc.last().1,
                    ) == ValueOrder::Equal);
                    lemma_rec_cmp_trans(attr, x.1, acc[j].1, acc.last().1);
                } else {
                    assert(rec_cmp(attr, x.1, acc[j].1) == ValueOrder::Greater);
                    assert(rec_cmp(attr, acc[j].1, x.1) == ValueOrder::Less);
                    assert(rec_cmp(attr, acc.last().1, acc[j].1) != ValueOrder::Greater);
                    assert(rec_cmp(attr, acc.last().1, acc[j].1) == ValueOrder::Less || rec_cmp(
                        attr,
                        acc.last().1,
                        acc[j].1,
                    ) == ValueOrder::Equal);
                    lemma_rec_cmp_trans(attr, acc.last().1, acc[j].1, x.1);
                    lemma_rec_cmp_flip(attr, acc.last().1, x.1);
                }
            }
        }
        assert(out =~= acc.take(acc.len() as int) + seq![x] + acc.skip(acc.len() as int));
        assert(insert_decomp(asc, attr, acc, x, acc.len() as int));
        lemma_insert_sorted_from_decomp(asc, attr, acc, x, acc.len() as int);
    }
}

/// A run split at the insertion boundary is sorted.
proof fn lemma_insert_sorted_from_decomp(
    asc: bool,
    attr: Seq<char>,
    acc: Seq<(int, RecordV)>,
    x: (int, RecordV),
    pos: int,
)
    requires
        rows_sorted(asc, attr, acc),
        insert_decomp(asc, attr, acc, x, pos),
    ensures
        rows_sorted(asc, attr, insert_row_spec(asc, attr, acc, x)),
{
    let out = insert_row_spec(asc, attr, acc, x);
    assert(out == acc.take(pos) + seq![x] + acc.skip(pos));
    assert forall|p: int, q: int| 0 <= p < q < out.len() implies !strictly_before(
        asc,
        attr,
        (#[trigger] out[q]).1,
        (#[trigger] out[p]).1,
    ) by {
        let op = if p < pos {
            acc[p]
        } else if p == pos {
            x
        } else {
            acc[p - 1]
        };
        let oq = if q < pos {
            acc[q]
        } else if q == pos {
            x
        } else {
            acc[q - 1]
        };
        assert(out[p] == op);
        assert(out[q] == oq);
        if p == pos {
            // x before a row it is strictly before: fine either way round
            assert(strictly_before(asc, attr, x.1, acc[q - 1].1));
            lemma_rec_cmp_flip(attr, x.1, acc[q - 1].1);
        } else if q == pos {
            assert(!strictly_before(asc, attr, x.1, acc[p].1));
        } else {
            assert(!strictly_before(asc, attr, oq.1, op.1));
        }
    }
}

} // verus!

verus! {

/// How two rows of the snapshot relate in one sorted pass: strictly ordered
/// pairs appear in comparison order, tied pairs keep their input order.
pub open spec fn pair_order(
    asc: bool,
    attr: Seq<char>,
    rs: Seq<(int, RecordV)>,
    out: Seq<(int, RecordV)>,
    p: int,
    q: int,
) -> bool {
    let u = crate::store::rows_idx(out, rs[p].0);
    let v = crate::store::rows_idx(out, rs[q].0);
    &&& (strictly_before(asc, attr, rs[p].1, rs[q].1) ==> u < v)
    &&& (strictly_before(asc, attr, rs[q].1, rs[p].1) ==> v < u)
    &&& (!strictly_before(asc, attr, rs[p].1, rs[q].1) && !strictly_before(
        asc,
        attr,
        rs[q].1,
        rs[p].1,
    ) ==> u < v)
}

/// What one pass guarantees, stated over a prefix of the snapshot.
pub open spec fn sort_shape(
    asc: bool,
    attr: Seq<char>,
    rs: Seq<(int, RecordV)>,
    k: int,
    out: Seq<(int, RecordV)>,
) -> bool {
    &&& out.len() == k
    &&& rows_sorted(asc, attr, out)
    &&& (forall|j: int|
        0 <= j < k ==> exists|p: int| 0 <= p < k && #[trigger] out[j] == rs[p])
    &&& (forall|p: int|
        0 <= p < k ==> {
            let u = crate::store::rows_idx(out, (#[trigger] rs[p]).0);
            0 <= u < k && out[u] == rs[p]
        })
    &&& (forall|p: int, q: int|
        0 <= p < q < k ==> #[trigger] pair_order(asc, attr, rs, out, p, q))
}

/// The new row and every old row keep well-defined positions across one
/// insertion: old rows keep their order, the new one sits at the boundary.
#[verifier::rlimit(100)]
proof fn lemma_sort_step(asc: bool, attr: Seq<char>, rs: Seq<(int, RecordV)>, k: int, pos: int)
    requires
        1 <= k <= rs.len(),
        forall|p: int, q: int|
            0 <= p < q < rs.len() ==> (#[trigger] rs[p]).0 != (#[trigger] rs[q]).0,
        all_rows_comparable(attr, rs),
        sort_shape(asc, attr, rs, k - 1, sort_rows_spec(asc, attr, rs.take(k - 1))),
        insert_decomp(asc, attr, sort_rows_spec(asc, attr, rs.take(k - 1)), rs[k - 1], pos),
        rows_sorted(asc, attr, sort_rows_spec(asc, attr, rs.take(k))),
        sort_rows_spec(asc, attr, rs.take(k)) == insert_row_spec(
            asc,
            attr,
            sort_rows_spec(asc, attr, rs.take(k - 1)),
            rs[k - 1],
        ),
    ensures
        sort_shape(asc, attr, rs, k, sort_rows_spec(asc, attr, rs.take(k))),
{
    let prev = sort_rows_spec(asc, attr, rs.take(k - 1));
    let x = rs[k - 1];
    let out = sort_rows_spec(asc, attr, rs.take(k));
    assert(out == prev.take(pos) + seq![x] + prev.skip(pos));
    assert(out.len() == k);
    assert(forall|j: int| 0 <= j < pos ==> #[trigger] out[j] == prev[j]);
    assert(out[pos] == x);
    assert(forall|j: int| pos < j < k ==> #[trigger] out[j] == prev[j - 1]);
    assert forall|j: int| 0 <= j < k implies exists|p: int|
        0 <= p < k && #[trigger] out[j] == rs[p] by {
        if j == pos {
            assert(out[j] == rs[k - 1]);
        } else {
            let jj = if j < pos {
                j
            } else {
                j - 1
            };
            let w = choose|w: int| 0 <= w < k - 1 && prev[jj] == rs[w];
            assert(out[j] == rs[w]);
        }
    }
    assert forall|j: int| 0 <= j < prev.len() implies (#[trigger] prev[j]).0 != x.0 by {
        let w = choose|w: int| 0 <= w < k - 1 && prev[j] == rs[w];
        assert(rs[w].0 != rs[k - 1].0);
    }
    assert(crate::store::rows_idx(out, x.0) == pos) by {
        assert(forall|j: int| 0 <= j < pos ==> (#[trigger] out[j]).0 != x.0);
        crate::store::lemma_rows_idx_at(out, x.0, pos);
    }
    assert forall|p: int| 0 <= p < k - 1 implies crate::store::rows_idx(out, (#[trigger] rs[p]).0)
        == (if crate::store::rows_idx(prev, rs[p].0) < pos {
        crate::store::rows_idx(prev, rs[p].0)
    } else {
        crate::store::rows_idx(prev, rs[p].0) + 1
    }) && out[crate::store::rows_idx(out, rs[p].0)] == rs[p] by {
        let u = crate::store::rows_idx(prev, rs[p].0);
        assert(0 <= u < k - 1 && prev[u] == rs[p]);
        crate::store::lemma_rows_first(prev, rs[p].0);
        let nu = if u < pos {
            u
        } else {
            u + 1
        };
        assert(out[nu] == rs[p]);
        assert forall|j: int| 0 <= j < nu implies (#[trigger] out[j]).0 != rs[p].0 by {
            if j == pos {
                assert(out[j] == x);
                assert(x.0 != rs[p].0);
            } else {
                let jj = if j < pos {
                    j
                } else {
                    j - 1
                };
                assert(out[j] == prev[jj]);
                assert(jj < u);
                assert(prev[jj].0 != rs[p].0);
            }
        }
        crate::store::lemma_rows_idx_at(out, rs[p].0, nu);
    }
    assert forall|p: int, q: int| 0 <= p < q < k implies #[trigger] pair_order(
        asc,
        attr,
        rs,
        out,
        p,
        q,
    ) by {
        if q < k - 1 {
            assert(pair_order(asc, attr, rs, prev, p, q));
            let u = crate::store::rows_idx(prev, rs[p].0);
            let v = crate::store::rows_idx(prev, rs[q].0);
            assert(0 <= u < k - 1 && prev[u] == rs[p]);
            assert(0 <= v < k - 1 && prev[v] == rs[q]);
            assert(u != v) by {
                assert(rs[p].0 != rs[q].0);
            }
        } else {
            let u = crate::store::rows_idx(prev, rs[p].0);
            assert(0 <= u < k - 1 && prev[u] == rs[p]);
            lemma_rec_cmp_flip(attr, x.1, rs[p].1);
            if u >= pos {
                assert(strictly_before(asc, attr, x.1, prev[u].1));
            } else {
                assert(!strictly_before(asc, attr, x.1, prev[u].1));
            }
        }
    }
}

/// One sorted pass over a mutually comparable snapshot, characterized
/// completely: a rearrangement of the snapshot, sorted, with the relative
/// order of any two rows fixed by [`pair_order`].
pub proof fn lemma_sort_characterized(asc: bool, attr: Seq<char>, rs: Seq<(int, RecordV)>, k: int)
    requires
        0 <= k <= rs.len(),
        forall|p: int, q: int|
            0 <= p < q < rs.len() ==> (#[trigger] rs[p]).0 != (#[trigger] rs[q]).0,
        all_rows_comparable(attr, rs),
    ensures
        sort_shape(asc, attr, rs, k, sort_rows_spec(asc, attr, rs.take(k))),
    decreases k,
{
    if k == 0 {
        assert(rs.take(0) =~= Seq::<(int, RecordV)>::empty());
        assert(sort_rows_spec(asc, attr, rs.take(0)) =~= Seq::<(int, RecordV)>::empty());
    } else {
        lemma_sort_characterized(asc, attr, rs, k - 1);
        let prev = sort_rows_spec(asc, attr, rs.take(k - 1));
        let x = rs[k - 1];
        assert(rs.take(k).drop_last() =~= rs.take(k - 1));
        assert(rs.take(k).last() == x);
        let out = sort_rows_spec(asc, attr, rs.take(k));
        assert(out == insert_row_spec(asc, attr, prev, x));
        assert forall|p: int| 0 <= p < prev.len() implies rec_cmp(
            attr,
            x.1,
            (#[trigger] prev[p]).1,
        ) != ValueOrder::Unordered by {
            let w = choose|w: int| 0 <= w < k - 1 && prev[p] == rs[w];
            assert(rec_cmp(attr, rs[k - 1].1, rs[w].1) != ValueOrder::Unordered);
        }
        assert forall|p: int, q: int|
            0 <= p < prev.len() && 0 <= q < prev.len() implies rec_cmp(
            attr,
            (#[trigger] prev[p]).1,
            (#[trigger] prev[q]).1,
        ) != ValueOrder::Unordered by {
            let w = choose|w: int| 0 <= w < k - 1 && prev[p] == rs[w];
            let w2 = choose|w2: int| 0 <= w2 < k - 1 && prev[q] == rs[w2];
            assert(rec_cmp(attr, rs[w].1, rs[w2].1) != ValueOrder::Unordered);
        }
        lemma_insert_props(asc, attr, prev, x);
        let pos = choose|pos: int| #[trigger] insert_decomp(asc, attr, prev, x, pos);
        lemma_sort_step(asc, attr, rs, k, pos);
    }
}

} // verus!

verus! {

/// Law: sorting the same snapshot ascending and then descending produces
/// exactly reversed orderings for every strictly ordered pair of rows, while
/// tied rows keep their relative input order in both passes (stability).
///
/// The law holds of snapshots whose rows are mutually comparable on the
/// attribute; rows that do not compare sort as ties wherever they stand, and
/// such a pair need not come out reversed.
pub proof fn lemma_sort_reversal_and_stability(attr: Seq<char>, rs: Seq<(int, RecordV)>)
    requires
        forall|p: int, q: int|
            0 <= p < q < rs.len() ==> (#[trigger] rs[p]).0 != (#[trigger] rs[q]).0,
        all_rows_comparable(attr, rs),
    ensures
        sort_rows_spec(true, attr, rs).len() == rs.len(),
        sort_rows_spec(false, attr, rs).len() == rs.len(),
        forall|p: int, q: int|
            0 <= p < q < rs.len() ==> {
                let ua = crate::store::rows_idx(sort_rows_spec(true, attr, rs), (
                #[trigger] rs[p]).0);
                let va = crate::store::rows_idx(sort_rows_spec(true, attr, rs), (
                #[trigger] rs[q]).0);
                let ud = crate::store::rows_idx(sort_rows_spec(false, attr, rs), rs[p].0);
                let vd = crate::store::rows_idx(sort_rows_spec(false, attr, rs), rs[q].0);
                &&& (rec_cmp(attr, rs[p].1, rs[q].1) == ValueOrder::Less ==> ua < va && vd < ud)
                &&& (rec_cmp(attr, rs[p].1, rs[q].1) == ValueOrder::Greater ==> va < ua && ud
                    < vd)
                &&& (rec_cmp(attr, rs[p].1, rs[q].1) == ValueOrder::Equal ==> ua < va && ud < vd)
            },
{
    let n = rs.len() as int;
    lemma_sort_characterized(true, attr, rs, n);
    lemma_sort_characterized(false, attr, rs, n);
    assert(rs.take(n) =~= rs);
    let up = sort_rows_spec(true, attr, rs);
    let down = sort_rows_spec(false, attr, rs);
    assert forall|p: int, q: int| 0 <= p < q < rs.len() implies {
        let ua = crate::store::rows_idx(up, (#[trigger] rs[p]).0);
        let va = crate::store::rows_idx(up, (#[trigger] rs[q]).0);
        let ud = crate::store::rows_idx(down, rs[p].0);
        let vd = crate::store::rows_idx(down, rs[q].0);
        &&& (rec_cmp(attr, rs[p].1, rs[q].1) == ValueOrder::Less ==> ua < va && vd < ud)
        &&& (rec_cmp(attr, rs[p].1, rs[q].1) == ValueOrder::Greater ==> va < ua && ud < vd)
        &&& (rec_cmp(attr, rs[p].1, rs[q].1) == ValueOrder::Equal ==> ua < va && ud < vd)
    } by {
        assert(pair_order(true, attr, rs, up, p, q));
        assert(pair_order(false, attr, rs, down, p, q));
        lemma_rec_cmp_flip(attr, rs[p].1, rs[q].1);
        assert(rec_cmp(attr, rs[p].1, rs[q].1) != ValueOrder::Unordered);
    }
}

} // verus!
