//! JSON persistence: rendering the stores of a database as one JSON object,
//! and reading such text back. The layout maps each store name to an object
//! `{"id":N,"name":"...","attributes":[...],"values":{"<id>":{...},...}}`,
//! record ids appearing as decimal string keys. The reader accepts what the
//! writer emits and rejects other shapes; reading what was written gives the
//! stores back exactly.

use vstd::prelude::*;
use crate::Error;
use crate::database::Database;
use crate::digits::{
    all_digits, dec_digits, dec_seq, digits_val, int_seq, push_dec, push_int, scan_digits_val,
};
use crate::record::{Record, RecordV, rec_wf};
use crate::store::{Store, StoreV, store_wf};
use crate::value::{value_v_wf, Value, ValueV};

verus! {

/// Text with `"` and `\` escaped by a backslash.
pub open spec fn json_escape(s: Seq<char>) -> Seq<char>
    decreases s.len(),
{
    if s.len() == 0 {
        s
    } else {
        (if s[0] == '"' {
            seq!['\\', '"']
        } else if s[0] == '\\' {
            seq!['\\', '\\']
        } else {
            seq![s[0]]
        }) + json_escape(s.skip(1))
    }
}

/// A JSON string literal.
pub open spec fn json_string(s: Seq<char>) -> Seq<char> {
    seq!['"'] + json_escape(s) + seq!['"']
}

/// The keyword of a boolean.
pub open spec fn bool_chars(b: bool) -> Seq<char> {
    if b {
        seq!['t', 'r', 'u', 'e']
    } else {
        seq!['f', 'a', 'l', 's', 'e']
    }
}

/// A scalar as JSON: numbers and booleans bare, text as a string literal.
pub open spec fn json_scalar(v: ValueV) -> Seq<char> {
    match v {
        ValueV::Int(i) => int_seq(i),
        ValueV::Dec { man, scale } => dec_seq(man, scale),
        ValueV::Bool(b) => bool_chars(b),
        ValueV::Text(t) => json_string(t),
    }
}

/// The fields of a record from `k` on, comma-separated.
pub open spec fn json_fields(r: RecordV, k: int) -> Seq<char>
    decreases r.len() - k,
{
    if k < 0 || k >= r.len() {
        Seq::empty()
    } else {
        let f = json_string(r[k].0) + seq![':'] + json_scalar(r[k].1);
        if k == r.len() - 1 {
            f
        } else {
            f + seq![','] + json_fields(r, k + 1)
        }
    }
}

/// A record as a JSON object, fields in record order.
pub open spec fn json_record(r: RecordV) -> Seq<char> {
    seq!['{'] + json_fields(r, 0) + seq!['}']
}

/// The attribute names from `k` on, comma-separated string literals.
pub open spec fn json_attrs(attrs: Seq<Seq<char>>, k: int) -> Seq<char>
    decreases attrs.len() - k,
{
    if k < 0 || k >= attrs.len() {
        Seq::empty()
    } else {
        let f = json_string(attrs[k]);
        if k == attrs.len() - 1 {
            f
        } else {
            f + seq![','] + json_attrs(attrs, k + 1)
        }
    }
}

/// The rows from `k` on: decimal string keys mapping to record objects.
pub open spec fn json_rows(rows: Seq<(int, RecordV)>, k: int) -> Seq<char>
    decreases rows.len() - k,
{
    if k < 0 || k >= rows.len() {
        Seq::empty()
    } else {
        let f = json_string(int_seq(rows[k].0)) + seq![':'] + json_record(rows[k].1);
        if k == rows.len() - 1 {
            f
        } else {
            f + seq![','] + json_rows(rows, k + 1)
        }
    }
}

/// A store as a JSON object: its id counter, name, attribute array, and
/// record map.
pub open spec fn json_store(s: StoreV) -> Seq<char> {
    seq!['{', '"', 'i', 'd', '"', ':'] + int_seq(s.next_id) + seq![',', '"', 'n', 'a', 'm', 'e', '"', ':']
        + json_string(s.name) + seq![',', '"', 'a', 't', 't', 'r', 'i', 'b', 'u', 't', 'e', 's', '"', ':', '[']
        + json_attrs(s.attributes, 0) + seq![']', ',', '"', 'v', 'a', 'l', 'u', 'e', 's', '"', ':', '{']
        + json_rows(s.records, 0) + seq!['}', '}']
}

/// The store entries from `k` on: names mapping to store objects.
pub open spec fn json_stores(es: Seq<(Seq<char>, StoreV)>, k: int) -> Seq<char>
    decreases es.len() - k,
{
    if k < 0 || k >= es.len() {
        Seq::empty()
    } else {
        let f = json_string(es[k].0) + seq![':'] + json_store(es[k].1);
        if k == es.len() - 1 {
            f
        } else {
            f + seq![','] + json_stores(es, k + 1)
        }
    }
}

/// The whole persisted object: store names mapping to store objects.
pub open spec fn json_db(es: Seq<(Seq<char>, StoreV)>) -> Seq<char> {
    seq!['{'] + json_stores(es, 0) + seq!['}']
}

/// Appends `s` with `"` and `\` escaped.
fn push_json_escaped(out: &mut String, s: &str)
    ensures
        final(out)@ == old(out)@ + json_escape(s@),
{
    proof {
        lemma_json_escape_take(s@, 0);
        assert(s@.take(0) =~= Seq::<char>::empty());
    }
    let n = s.unicode_len();
    let mut i: usize = 0;
    while i < n
        invariant
            i <= n,
            n == s@.len(),
            out@ == old(out)@ + json_escape(s@.take(i as int)),
        decreases n - i,
    {
        let c = s.get_char(i);
        proof {
            lemma_json_escape_take(s@, i as int);
            assert(('"' as u32) == 34);
            assert(('\\' as u32) == 92);
            vstd::utf8::char_u32_cast(c, c as u32);
        }
        if (c as u32) == 34 {
            out.append("\\\"");
            proof {
                reveal_strlit("\\\"");
                assert("\\\""@ =~= seq!['\\', '"']);
                assert(out@ =~= old(out)@ + json_escape(s@.take(i + 1)));
            }
        } else if (c as u32) == 92 {
            out.append("\\\\");
            proof {
                reveal_strlit("\\\\");
                assert("\\\\"@ =~= seq!['\\', '\\']);
                assert(out@ =~= old(out)@ + json_escape(s@.take(i + 1)));
            }
        } else {
            let piece = s.substring_char(i, i + 1);
            out.append(piece);
            proof {
                assert(piece@ =~= seq![s@[i as int]]);
                assert(out@ =~= old(out)@ + json_escape(s@.take(i + 1)));
            }
        }
        i = i + 1;
    }
    proof {
        assert(s@.take(n as int) =~= s@);
    }
}

/// Extending the text by one character extends its escape by that
/// character's escape.
proof fn lemma_json_escape_take(s: Seq<char>, i: int)
    requires
        0 <= i <= s.len(),
    ensures
        i < s.len() ==> json_escape(s.take(i + 1)) == json_escape(s.take(i)) + (if s[i] == '"' {
            seq!['\\', '"']
        } else if s[i] == '\\' {
            seq!['\\', '\\']
        } else {
            seq![s[i]]
        }),
    decreases i,
{
    if i < s.len() {
        lemma_json_escape_concat(s.take(i), seq![s[i]]);
        assert(s.take(i) + seq![s[i]] =~= s.take(i + 1));
        assert(seq![s[i]].skip(1) =~= Seq::<char>::empty());
        assert(seq![s[i]][0] == s[i]);
        assert(json_escape(Seq::<char>::empty()) =~= Seq::<char>::empty());
        assert(json_escape(seq![s[i]]) == (if seq![s[i]][0] == '"' {
            seq!['\\', '"']
        } else if seq![s[i]][0] == '\\' {
            seq!['\\', '\\']
        } else {
            seq![seq![s[i]][0]]
        }) + json_escape(seq![s[i]].skip(1)));
        assert(json_escape(seq![s[i]]) =~= (if s[i] == '"' {
            seq!['\\', '"']
        } else if s[i] == '\\' {
            seq!['\\', '\\']
        } else {
            seq![s[i]]
        }));
        assert(json_escape(s.take(i + 1)) =~= json_escape(s.take(i)) + (if s[i] == '"' {
            seq!['\\', '"']
        } else if s[i] == '\\' {
            seq!['\\', '\\']
        } else {
            seq![s[i]]
        }));
    }
}

/// Escaping distributes over concatenation.
pub proof fn lemma_json_escape_concat(a: Seq<char>, b: Seq<char>)
    ensures
        json_escape(a + b) == json_escape(a) + json_escape(b),
    decreases a.len(),
{
    if a.len() == 0 {
        assert(a + b =~= b);
        assert(json_escape(a) + json_escape(b) =~= json_escape(b));
    } else {
        assert((a + b).skip(1) =~= a.skip(1) + b);
        lemma_json_escape_concat(a.skip(1), b);
        assert((a + b)[0] == a[0]);
        assert(json_escape(a + b) =~= json_escape(a) + json_escape(b));
    }
}

/// Appends a JSON string literal.
fn push_json_string(out: &mut String, s: &str)
    ensures
        final(out)@ == old(out)@ + json_string(s@),
{
    out.append("\"");
    push_json_escaped(out, s);
    out.append("\"");
    proof {
        reveal_strlit("\"");
        assert("\""@ =~= seq!['"']);
        assert(final(out)@ =~= old(out)@ + json_string(s@));
    }
}

/// Appends a scalar as JSON.
fn push_json_scalar(out: &mut String, v: &Value)
    requires
        v.wf(),
    ensures
        final(out)@ == old(out)@ + json_scalar(v@),
{
    match v {
        Value::Int(i) => push_int(out, *i),
        Value::Dec(d) => push_dec(out, d.man, d.scale),
        Value::Bool(b) => {
            if *b {
                out.append("true");
                proof {
                    reveal_strlit("true");
                    assert(final(out)@ =~= old(out)@ + bool_chars(true));
                }
            } else {
                out.append("false");
                proof {
                    reveal_strlit("false");
                    assert(final(out)@ =~= old(out)@ + bool_chars(false));
                }
            }
        },
        Value::Text(s) => push_json_string(out, s.as_str()),
    }
}

} // verus!

verus! {

/// Text free of quotes and backslashes escapes to itself.
proof fn lemma_json_escape_id(s: Seq<char>)
    requires
        forall|i: int| 0 <= i < s.len() ==> s[i] != '"' && (#[trigger] s[i]) != '\\',
    ensures
        json_escape(s) == s,
    decreases s.len(),
{
    if s.len() > 0 {
        assert(forall|j: int| 0 <= j < s.skip(1).len() ==> s.skip(1)[j] == s[j + 1]);
        lemma_json_escape_id(s.skip(1));
        assert(json_escape(s) =~= s);
    }
}

/// The text of an integer holds only digits and a possible minus sign.
proof fn lemma_int_seq_plain(i: int)
    ensures
        forall|j: int| 0 <= j < int_seq(i).len() ==> int_seq(i)[j] != '"' && (#[trigger] int_seq(
            i,
        )[j]) != '\\',
        json_escape(int_seq(i)) == int_seq(i),
{
    assert(('"' as u32) == 34);
    assert(('\\' as u32) == 92);
    assert(('-' as u32) == 45);
    let a = if i < 0 {
        -i
    } else {
        i
    };
    crate::digits::lemma_dec_digits(a);
    assert forall|j: int| 0 <= j < int_seq(i).len() implies int_seq(i)[j] != '"' && (
    #[trigger] int_seq(i)[j]) != '\\' by {
        let c = int_seq(i)[j];
        if i < 0 {
            if j == 0 {
                assert(c == '-');
            } else {
                assert(c == dec_digits(a)[j - 1]);
                assert(crate::digits::is_digit(c));
            }
        } else {
            assert(crate::digits::is_digit(c));
        }
    }
    lemma_json_escape_id(int_seq(i));
}

/// Appends a record as a JSON object.
fn push_json_record(out: &mut String, rec: &Record)
    requires
        rec_wf(rec@),
    ensures
        final(out)@ == old(out)@ + json_record(rec@),
{
    let ghost r = rec@;
    out.append("{");
    let ghost base = out@;
    proof {
        reveal_strlit("{");
        assert(base =~= old(out)@ + seq!['{']);
    }
    let n = rec.len();
    let mut k: usize = 0;
    while k < n
        invariant
            k <= n,
            n == r.len(),
            rec@ == r,
            rec_wf(r),
            out@ + json_fields(r, k as int) == base + json_fields(r, 0),
        decreases n - k,
    {
        let ghost out0 = out@;
        push_json_string(out, rec.name_at(k).as_str());
        out.append(":");
        push_json_scalar(out, rec.value_at(k));
        if k + 1 < n {
            out.append(",");
        }
        proof {
            reveal_strlit(":");
            reveal_strlit(",");
            assert(":"@ =~= seq![':']);
            assert(","@ =~= seq![',']);
            assert(out@ + json_fields(r, k + 1) =~= out0 + json_fields(r, k as int));
        }
        k = k + 1;
    }
    out.append("}");
    proof {
        reveal_strlit("}");
        assert(json_fields(r, n as int) =~= Seq::<char>::empty());
        assert(base + json_fields(r, 0) =~= base + json_fields(r, 0) + json_fields(r, n as int));
        assert(final(out)@ =~= old(out)@ + json_record(r));
    }
}

/// Appends a store as a JSON object.
fn push_json_store(out: &mut String, store: &Store)
    requires
        store_wf(store@),
    ensures
        final(out)@ == old(out)@ + json_store(store@),
{
    let ghost sv = store@;
    out.append("{\"id\":");
    push_int(out, store.next_id());
    out.append(",\"name\":");
    push_json_string(out, store.name().as_str());
    out.append(",\"attributes\":[");
    proof {
        reveal_strlit("{\"id\":");
        reveal_strlit(",\"name\":");
        reveal_strlit(",\"attributes\":[");
    }
    let ghost base = out@;
    let n = store.attrs_len();
    let mut k: usize = 0;
    while k < n
        invariant
            k <= n,
            n == sv.attributes.len(),
            store@ == sv,
            store_wf(sv),
            out@ + json_attrs(sv.attributes, k as int) == base + json_attrs(sv.attributes, 0),
        decreases n - k,
    {
        let ghost out0 = out@;
        push_json_string(out, store.attr_at(k).as_str());
        if k + 1 < n {
            out.append(",");
        }
        proof {
            reveal_strlit(",");
            assert(","@ =~= seq![',']);
            assert(out@ + json_attrs(sv.attributes, k + 1) =~= out0 + json_attrs(
                sv.attributes,
                k as int,
            ));
        }
        k = k + 1;
    }
    out.append("],\"values\":{");
    proof {
        reveal_strlit("],\"values\":{");
        assert(json_attrs(sv.attributes, n as int) =~= Seq::<char>::empty());
    }
    let ghost base2 = out@;
    proof {
        assert(base2 =~= base + json_attrs(sv.attributes, 0) + seq![']', ',', '"', 'v', 'a', 'l', 'u', 'e', 's', '"', ':', '{']);
    }
    let m = store.rows_len();
    let mut k: usize = 0;
    while k < m
        invariant
            k <= m,
            m == sv.records.len(),
            store@ == sv,
            store_wf(sv),
            out@ + json_rows(sv.records, k as int) == base2 + json_rows(sv.records, 0),
        decreases m - k,
    {
        let ghost out0 = out@;
        let id = store.row_id_at(k);
        out.append("\"");
        push_int(out, id);
        out.append("\":");
        push_json_record(out, store.row_at(k));
        if k + 1 < m {
            out.append(",");
        }
        proof {
            reveal_strlit("\"");
            reveal_strlit("\":");
            reveal_strlit(",");
            assert("\""@ =~= seq!['"']);
            assert("\":"@ =~= seq!['"', ':']);
            assert(","@ =~= seq![',']);
            lemma_int_seq_plain(id as int);
            assert(json_string(int_seq(id as int)) =~= seq!['"'] + int_seq(id as int) + seq![
                '"',
            ]);
            assert(out@ + json_rows(sv.records, k + 1) =~= out0 + json_rows(
                sv.records,
                k as int,
            ));
        }
        k = k + 1;
    }
    out.append("}}");
    proof {
        reveal_strlit("}}");
        assert("}}"@ =~= seq!['}', '}']);
        assert(json_rows(sv.records, m as int) =~= Seq::<char>::empty());
        assert(final(out)@ =~= old(out)@ + json_store(sv));
    }
}

impl Database {
    /// Renders the stores map as one JSON object, in store order; this is
    /// exactly the text [`Database::from_json`] reads back.
    pub fn to_json(&self) -> (r: String)
        requires
            self.wf(),
        ensures
            r@ == json_db(self@.stores),
    {
        let ghost es = self@.stores;
        let mut out = String::new();
        out.append("{");
        let ghost base = out@;
        proof {
            reveal_strlit("{");
            assert(base =~= Seq::<char>::empty() + seq!['{']);
        }
        let n = self.stores_len();
        let mut k: usize = 0;
        while k < n
            invariant
                k <= n,
                n == es.len(),
                self@.stores == es,
                self.wf(),
                out@ + json_stores(es, k as int) == base + json_stores(es, 0),
            decreases n - k,
        {
            let ghost out0 = out@;
            push_json_string(&mut out, self.store_name_at(k).as_str());
            out.append(":");
            proof {
                assert(store_wf(es[k as int].1));
            }
            push_json_store(&mut out, self.store_at(k));
            if k + 1 < n {
                out.append(",");
            }
            proof {
                reveal_strlit(":");
                reveal_strlit(",");
                assert(":"@ =~= seq![':']);
                assert(","@ =~= seq![',']);
                assert(out@ + json_stores(es, k + 1) =~= out0 + json_stores(es, k as int));
            }
            k = k + 1;
        }
        out.append("}");
        proof {
            reveal_strlit("}");
            assert("}"@ =~= seq!['}']);
            assert(json_stores(es, n as int) =~= Seq::<char>::empty());
            assert(out@ =~= json_db(es));
        }
        out
    }
}

} // verus!

verus! {

/// End of the digit run starting at `i`.
pub open spec fn digits_end(s: Seq<char>, i: int) -> int
    decreases s.len() - i,
{
    if 0 <= i < s.len() && crate::digits::is_digit(s[i]) {
        digits_end(s, i + 1)
    } else {
        i
    }
}

/// Where the digit run ends, and what lies within.
pub proof fn lemma_digits_end(s: Seq<char>, i: int)
    requires
        0 <= i <= s.len(),
    ensures
        i <= digits_end(s, i) <= s.len(),
        all_digits(s.subrange(i, digits_end(s, i))),
        digits_end(s, i) < s.len() ==> !crate::digits::is_digit(s[digits_end(s, i)]),
        i < s.len() && crate::digits::is_digit(s[i]) ==> digits_end(s, i) > i,
    decreases s.len() - i,
{
    if 0 <= i < s.len() && crate::digits::is_digit(s[i]) {
        lemma_digits_end(s, i + 1);
        let e = digits_end(s, i);
        assert forall|j: int| 0 <= j < e - i implies crate::digits::is_digit(
            #[trigger] s.subrange(i, e)[j],
        ) by {
            if j > 0 {
                assert(s.subrange(i + 1, e)[j - 1] == s.subrange(i, e)[j]);
            }
        }
    }
}

/// A signed digit run at `i`, read as a 64-bit integer.
pub open spec fn p_int(s: Seq<char>, i: int) -> Option<(int, int)> {
    if 0 <= i <= s.len() {
        let neg = i < s.len() && s[i] == '-';
        let d0 = if neg {
            i + 1
        } else {
            i
        };
        let e = digits_end(s, d0);
        if e > d0 {
            let v0 = digits_val(s.subrange(d0, e));
            let v = if neg {
                -v0
            } else {
                v0
            };
            if i64::MIN <= v <= i64::MAX {
                Some((v, e))
            } else {
                None
            }
        } else {
            None
        }
    } else {
        None
    }
}

pub proof fn lemma_p_int_bounds(s: Seq<char>, i: int)
    ensures
        p_int(s, i) matches Some(r) ==> i < r.1 <= s.len(),
{
    if 0 <= i <= s.len() {
        let neg = i < s.len() && s[i] == '-';
        let d0 = if neg {
            i + 1
        } else {
            i
        };
        if d0 <= s.len() {
            lemma_digits_end(s, d0);
        }
    }
}

/// A number at `i`: a signed digit run, optionally followed by a point and
/// more digits; with the point it is a decimal, normalized, otherwise an
/// integer. Decimals carry at most eighteen digits.
pub open spec fn p_number(s: Seq<char>, i: int) -> Option<(ValueV, int)> {
    if 0 <= i <= s.len() {
        let neg = i < s.len() && s[i] == '-';
        let d0 = if neg {
            i + 1
        } else {
            i
        };
        let e = digits_end(s, d0);
        if e == d0 {
            None
        } else if e < s.len() && s[e] == '.' {
            let e2 = digits_end(s, e + 1);
            if e2 > e + 1 && e2 - d0 <= 19 {
                let m0 = digits_val(s.subrange(d0, e) + s.subrange(e + 1, e2));
                let man = if neg {
                    -m0
                } else {
                    m0
                };
                let nd = crate::infer::dec_norm(man, (e2 - e - 1) as nat);
                Some((ValueV::Dec { man: nd.0, scale: nd.1 }, e2))
            } else {
                None
            }
        } else {
            let v0 = digits_val(s.subrange(d0, e));
            let v = if neg {
                -v0
            } else {
                v0
            };
            if i64::MIN <= v <= i64::MAX {
                Some((ValueV::Int(v), e))
            } else {
                None
            }
        }
    } else {
        None
    }
}

pub proof fn lemma_p_number_bounds(s: Seq<char>, i: int)
    ensures
        p_number(s, i) matches Some(r) ==> i < r.1 <= s.len(),
{
    if 0 <= i <= s.len() {
        let neg = i < s.len() && s[i] == '-';
        let d0 = if neg {
            i + 1
        } else {
            i
        };
        if d0 <= s.len() {
            lemma_digits_end(s, d0);
            let e = digits_end(s, d0);
            if e < s.len() && s[e] == '.' {
                lemma_digits_end(s, e + 1);
            }
        }
    }
}

/// The body of a string literal from `i` to its closing quote: a backslash
/// escapes a quote or a backslash, any other character stands for itself.
pub open spec fn p_str_body(s: Seq<char>, i: int) -> Option<(Seq<char>, int)>
    decreases s.len() - i,
{
    if i < 0 || i >= s.len() {
        None
    } else if s[i] == '"' {
        Some((Seq::empty(), i + 1))
    } else if s[i] == '\\' {
        if i + 2 <= s.len() && (s[i + 1] == '"' || s[i + 1] == '\\') {
            match p_str_body(s, i + 2) {
                Some(r) => Some((seq![s[i + 1]] + r.0, r.1)),
                None => None,
            }
        } else {
            None
        }
    } else {
        match p_str_body(s, i + 1) {
            Some(r) => Some((seq![s[i]] + r.0, r.1)),
            None => None,
        }
    }
}

pub proof fn lemma_p_str_body_bounds(s: Seq<char>, i: int)
    ensures
        p_str_body(s, i) matches Some(r) ==> i < r.1 <= s.len(),
    decreases s.len() - i,
{
    if 0 <= i < s.len() {
        lemma_p_str_body_bounds(s, i + 1);
        if i + 2 <= s.len() {
            lemma_p_str_body_bounds(s, i + 2);
        }
    }
}

/// A string literal at `i`: a quote, a body, a closing quote.
pub open spec fn p_string(s: Seq<char>, i: int) -> Option<(Seq<char>, int)> {
    if 0 <= i < s.len() && s[i] == '"' {
        p_str_body(s, i + 1)
    } else {
        None
    }
}

pub proof fn lemma_p_string_bounds(s: Seq<char>, i: int)
    ensures
        p_string(s, i) matches Some(r) ==> i + 1 < r.1 <= s.len(),
{
    if 0 <= i < s.len() && s[i] == '"' {
        lemma_p_str_body_bounds(s, i + 1);
    }
}

/// A scalar at `i`: a string, a boolean keyword, or a number.
pub open spec fn p_scalar(s: Seq<char>, i: int) -> Option<(ValueV, int)> {
    if 0 <= i < s.len() {
        if s[i] == '"' {
            match p_string(s, i) {
                Some(r) => Some((ValueV::Text(r.0), r.1)),
                None => None,
            }
        } else if s[i] == 't' {
            if i + 4 <= s.len() && s.subrange(i, i + 4) == bool_chars(true) {
                Some((ValueV::Bool(true), i + 4))
            } else {
                None
            }
        } else if s[i] == 'f' {
            if i + 5 <= s.len() && s.subrange(i, i + 5) == bool_chars(false) {
                Some((ValueV::Bool(false), i + 5))
            } else {
                None
            }
        } else {
            p_number(s, i)
        }
    } else {
        None
    }
}

pub proof fn lemma_p_scalar_bounds(s: Seq<char>, i: int)
    ensures
        p_scalar(s, i) matches Some(r) ==> i < r.1 <= s.len(),
{
    lemma_p_string_bounds(s, i);
    lemma_p_number_bounds(s, i);
}

} // verus!

verus! {

/// A record-id key at `i`: a quoted signed digit run.
pub open spec fn p_key_int(s: Seq<char>, i: int) -> Option<(int, int)> {
    if 0 <= i < s.len() && s[i] == '"' {
        match p_int(s, i + 1) {
            Some(r) => if r.1 < s.len() && s[r.1] == '"' {
                Some((r.0, r.1 + 1))
            } else {
                None
            },
            None => None,
        }
    } else {
        None
    }
}

pub proof fn lemma_p_key_int_bounds(s: Seq<char>, i: int)
    ensures
        p_key_int(s, i) matches Some(r) ==> i < r.1 <= s.len(),
{
    if 0 <= i < s.len() && s[i] == '"' {
        lemma_p_int_bounds(s, i + 1);
    }
}

/// One or more record fields from `i` on, folded into `acc` by name, up to
/// and including the closing brace.
pub open spec fn p_fields(s: Seq<char>, i: int, acc: RecordV) -> Option<(RecordV, int)>
    decreases s.len() - i,
    when 0 <= i
    via p_fields_dec
{
    match p_string(s, i) {
        Some(k) => if k.1 < s.len() && s[k.1] == ':' {
            match p_scalar(s, k.1 + 1) {
                Some(v) => {
                    let acc2 = crate::record::rec_set(acc, k.0, v.0);
                    if v.1 < s.len() && s[v.1] == ',' {
                        p_fields(s, v.1 + 1, acc2)
                    } else if v.1 < s.len() && s[v.1] == '}' {
                        Some((acc2, v.1 + 1))
                    } else {
                        None
                    }
                },
                None => None,
            }
        } else {
            None
        },
        None => None,
    }
}

#[via_fn]
proof fn p_fields_dec(s: Seq<char>, i: int, acc: RecordV) {
    lemma_p_string_bounds(s, i);
    match p_string(s, i) {
        Some(k) => {
            lemma_p_scalar_bounds(s, k.1 + 1);
        },
        None => {},
    }
}

/// A record object at `i`.
pub open spec fn p_record(s: Seq<char>, i: int) -> Option<(RecordV, int)> {
    if 0 <= i < s.len() && s[i] == '{' {
        if i + 1 < s.len() && s[i + 1] == '}' {
            Some((Seq::empty(), i + 2))
        } else {
            p_fields(s, i + 1, Seq::empty())
        }
    } else {
        None
    }
}

pub proof fn lemma_p_fields_bounds(s: Seq<char>, i: int, acc: RecordV)
    requires
        0 <= i,
    ensures
        p_fields(s, i, acc) matches Some(r) ==> i < r.1 <= s.len(),
    decreases s.len() - i,
{
    lemma_p_string_bounds(s, i);
    match p_string(s, i) {
        Some(k) => {
            lemma_p_scalar_bounds(s, k.1 + 1);
            match p_scalar(s, k.1 + 1) {
                Some(v) => {
                    if v.1 < s.len() && s[v.1] == ',' {
                        lemma_p_fields_bounds(s, v.1 + 1, crate::record::rec_set(acc, k.0, v.0));
                    }
                },
                None => {},
            }
        },
        None => {},
    }
}

pub proof fn lemma_p_record_bounds(s: Seq<char>, i: int)
    ensures
        p_record(s, i) matches Some(r) ==> i < r.1 <= s.len(),
{
    if 0 <= i < s.len() && s[i] == '{' {
        lemma_p_fields_bounds(s, i + 1, Seq::empty());
    }
}

/// One or more attribute names from `i` on, deduplicated into `acc`, up to
/// and including the closing bracket.
pub open spec fn p_attrs(s: Seq<char>, i: int, acc: Seq<Seq<char>>) -> Option<
    (Seq<Seq<char>>, int),
>
    decreases s.len() - i,
    when 0 <= i
    via p_attrs_dec
{
    match p_string(s, i) {
        Some(a) => {
            let acc2 = if crate::store::attrs_has(acc, a.0) {
                acc
            } else {
                acc.push(a.0)
            };
            if a.1 < s.len() && s[a.1] == ',' {
                p_attrs(s, a.1 + 1, acc2)
            } else if a.1 < s.len() && s[a.1] == ']' {
                Some((acc2, a.1 + 1))
            } else {
                None
            }
        },
        None => None,
    }
}

#[via_fn]
proof fn p_attrs_dec(s: Seq<char>, i: int, acc: Seq<Seq<char>>) {
    lemma_p_string_bounds(s, i);
}

pub proof fn lemma_p_attrs_bounds(s: Seq<char>, i: int, acc: Seq<Seq<char>>)
    requires
        0 <= i,
    ensures
        p_attrs(s, i, acc) matches Some(r) ==> i < r.1 <= s.len(),
    decreases s.len() - i,
{
    lemma_p_string_bounds(s, i);
    match p_string(s, i) {
        Some(a) => {
            if a.1 < s.len() && s[a.1] == ',' {
                let acc2 = if crate::store::attrs_has(acc, a.0) {
                    acc
                } else {
                    acc.push(a.0)
                };
                lemma_p_attrs_bounds(s, a.1 + 1, acc2);
            }
        },
        None => {},
    }
}

/// One or more rows from `i` on, folded into `acc` by id, up to and
/// including the closing brace.
pub open spec fn p_rows(s: Seq<char>, i: int, acc: Seq<(int, RecordV)>) -> Option<
    (Seq<(int, RecordV)>, int),
>
    decreases s.len() - i,
    when 0 <= i
    via p_rows_dec
{
    match p_key_int(s, i) {
        Some(k) => if k.1 < s.len() && s[k.1] == ':' {
            match p_record(s, k.1 + 1) {
                Some(r) => {
                    let acc2 = crate::store::rows_set(acc, k.0, r.0);
                    if r.1 < s.len() && s[r.1] == ',' {
                        p_rows(s, r.1 + 1, acc2)
                    } else if r.1 < s.len() && s[r.1] == '}' {
                        Some((acc2, r.1 + 1))
                    } else {
                        None
                    }
                },
                None => None,
            }
        } else {
            None
        },
        None => None,
    }
}

#[via_fn]
proof fn p_rows_dec(s: Seq<char>, i: int, acc: Seq<(int, RecordV)>) {
    lemma_p_key_int_bounds(s, i);
    match p_key_int(s, i) {
        Some(k) => {
            lemma_p_record_bounds(s, k.1 + 1);
        },
        None => {},
    }
}

pub proof fn lemma_p_rows_bounds(s: Seq<char>, i: int, acc: Seq<(int, RecordV)>)
    requires
        0 <= i,
    ensures
        p_rows(s, i, acc) matches Some(r) ==> i < r.1 <= s.len(),
    decreases s.len() - i,
{
    lemma_p_key_int_bounds(s, i);
    match p_key_int(s, i) {
        Some(k) => {
            lemma_p_record_bounds(s, k.1 + 1);
            match p_record(s, k.1 + 1) {
                Some(r) => {
                    if r.1 < s.len() && s[r.1] == ',' {
                        lemma_p_rows_bounds(s, r.1 + 1, crate::store::rows_set(acc, k.0, r.0));
                    }
                },
                None => {},
            }
        },
        None => {},
    }
}

/// Every row id lies in `[0, bound)`.
pub open spec fn ids_below(rs: Seq<(int, RecordV)>, bound: int) -> bool {
    forall|q: int| 0 <= q < rs.len() ==> 0 <= (#[trigger] rs[q]).0 < bound
}

/// The fixed frame of a store object, around its four fields.
pub open spec fn p_store(s: Seq<char>, i: int) -> Option<(StoreV, int)> {
    if 0 <= i && i + 6 <= s.len() && s.subrange(i, i + 6) == seq!['{', '"', 'i', 'd', '"', ':'] {
        match p_int(s, i + 6) {
            Some(n) => if 0 <= n.0 && n.1 + 8 <= s.len() && s.subrange(n.1, n.1 + 8) == seq![
                ',', '"', 'n', 'a', 'm', 'e', '"', ':',
            ] {
                match p_string(s, n.1 + 8) {
                    Some(nm) => if nm.1 + 15 <= s.len() && s.subrange(nm.1, nm.1 + 15) == seq![
                        ',', '"', 'a', 't', 't', 'r', 'i', 'b', 'u', 't', 'e', 's', '"', ':', '[',
                    ] {
                        let j3 = nm.1 + 15;
                        let arr = if j3 < s.len() && s[j3] == ']' {
                            Some((Seq::<Seq<char>>::empty(), j3 + 1))
                        } else {
                            p_attrs(s, j3, Seq::empty())
                        };
                        match arr {
                            Some(ats) => if ats.1 + 11 <= s.len() && s.subrange(
                                ats.1,
                                ats.1 + 11,
                            ) == seq![',', '"', 'v', 'a', 'l', 'u', 'e', 's', '"', ':', '{'] {
                                let j5 = ats.1 + 11;
                                let rws = if j5 < s.len() && s[j5] == '}' {
                                    Some((Seq::<(int, RecordV)>::empty(), j5 + 1))
                                } else {
                                    p_rows(s, j5, Seq::empty())
                                };
                                match rws {
                                    Some(rs) => if rs.1 < s.len() && s[rs.1] == '}' && ids_below(
                                        rs.0,
                                        n.0,
                                    ) {
                                        Some(
                                            (
                                                StoreV {
                                                    next_id: n.0,
                                                    name: nm.0,
                                                    attributes: ats.0,
                                                    records: rs.0,
                                                },
                                                rs.1 + 1,
                                            ),
                                        )
                                    } else {
                                        None
                                    },
                                    None => None,
                                }
                            } else {
                                None
                            },
                            None => None,
                        }
                    } else {
                        None
                    },
                    None => None,
                }
            } else {
                None
            },
            None => None,
        }
    } else {
        None
    }
}

pub proof fn lemma_p_store_bounds(s: Seq<char>, i: int)
    ensures
        p_store(s, i) matches Some(r) ==> i < r.1 <= s.len(),
{
    if 0 <= i && i + 6 <= s.len() {
        lemma_p_int_bounds(s, i + 6);
        match p_int(s, i + 6) {
            Some(n) => {
                lemma_p_string_bounds(s, n.1 + 8);
                match p_string(s, n.1 + 8) {
                    Some(nm) => {
                        lemma_p_attrs_bounds(s, nm.1 + 15, Seq::empty());
                        let j3 = nm.1 + 15;
                        let arr = if j3 < s.len() && s[j3] == ']' {
                            Some((Seq::<Seq<char>>::empty(), j3 + 1))
                        } else {
                            p_attrs(s, j3, Seq::empty())
                        };
                        match arr {
                            Some(ats) => {
                                let j5 = ats.1 + 11;
                                if 0 <= j5 {
                                    lemma_p_rows_bounds(s, j5, Seq::empty());
                                }
                            },
                            None => {},
                        }
                    },
                    None => {},
                }
            },
            None => {},
        }
    }
}

/// One or more store entries from `i` on, folded into `acc` by name, up to
/// and including the closing brace.
pub open spec fn p_stores(s: Seq<char>, i: int, acc: Seq<(Seq<char>, StoreV)>) -> Option<
    (Seq<(Seq<char>, StoreV)>, int),
>
    decreases s.len() - i,
    when 0 <= i
    via p_stores_dec
{
    match p_string(s, i) {
        Some(nm) => if nm.1 < s.len() && s[nm.1] == ':' {
            match p_store(s, nm.1 + 1) {
                Some(st) => {
                    let acc2 = crate::database::stores_set(acc, nm.0, st.0);
                    if st.1 < s.len() && s[st.1] == ',' {
                        p_stores(s, st.1 + 1, acc2)
                    } else if st.1 < s.len() && s[st.1] == '}' {
                        Some((acc2, st.1 + 1))
                    } else {
                        None
                    }
                },
                None => None,
            }
        } else {
            None
        },
        None => None,
    }
}

#[via_fn]
proof fn p_stores_dec(s: Seq<char>, i: int, acc: Seq<(Seq<char>, StoreV)>) {
    lemma_p_string_bounds(s, i);
    match p_string(s, i) {
        Some(nm) => {
            lemma_p_store_bounds(s, nm.1 + 1);
        },
        None => {},
    }
}

/// The whole persisted object: `None` when the text is not exactly the
/// expected shape.
pub open spec fn p_db(s: Seq<char>) -> Option<Seq<(Seq<char>, StoreV)>> {
    if s.len() >= 1 && s[0] == '{' {
        if s.len() == 2 && s[1] == '}' {
            Some(Seq::empty())
        } else {
            match p_stores(s, 1, Seq::empty()) {
                Some(es) => if es.1 == s.len() {
                    Some(es.0)
                } else {
                    None
                },
                None => None,
            }
        }
    } else {
        None
    }
}

} // verus!

verus! {

/// A scan that stopped at a non-digit found the end of the digit run.
proof fn lemma_digits_end_at(s: Seq<char>, i: int, e: int)
    requires
        0 <= i <= e <= s.len(),
        forall|j: int| i <= j < e ==> crate::digits::is_digit(#[trigger] s[j]),
        e < s.len() ==> !crate::digits::is_digit(s[e]),
    ensures
        digits_end(s, i) == e,
    decreases e - i,
{
    if i < e {
        lemma_digits_end_at(s, i + 1, e);
    }
}

/// Finds the end of the digit run starting at `from`.
fn scan_digits_end(s: &str, from: usize) -> (e: usize)
    requires
        from as int <= s@.len(),
    ensures
        from <= e <= s@.len(),
        digits_end(s@, from as int) == e as int,
        all_digits(s@.subrange(from as int, e as int)),
{
    broadcast use vstd::utf8::char_u32_cast;

    let n = s.unicode_len();
    let mut e = from;
    loop
        invariant
            from <= e <= n,
            n == s@.len(),
            forall|j: int| from <= j < e ==> crate::digits::is_digit(#[trigger] s@[j]),
        ensures
            from <= e <= n,
            forall|j: int| from <= j < e ==> crate::digits::is_digit(#[trigger] s@[j]),
            e < n ==> !crate::digits::is_digit(s@[e as int]),
        decreases n - e,
    {
        if e >= n {
            break;
        }
        let c = s.get_char(e);
        let u = c as u32;
        if u < 48 || u > 57 {
            break;
        }
        e = e + 1;
    }
    proof {
        lemma_digits_end_at(s@, from as int, e as int);
        lemma_digits_end(s@, from as int);
    }
    e
}

/// Reads a signed 64-bit integer at `i`.
fn scan_int(s: &str, i: usize) -> (r: Option<(i64, usize)>)
    requires
        i as int <= s@.len(),
    ensures
        match r {
            Some(v) => p_int(s@, i as int) == Some((v.0 as int, v.1 as int)) && i < v.1
                <= s@.len(),
            None => p_int(s@, i as int) is None,
        },
{
    broadcast use vstd::utf8::char_u32_cast;

    let n = s.unicode_len();
    let mut neg = false;
    let mut d0 = i;
    if i < n {
        let c = s.get_char(i);
        if (c as u32) == 45 {
            proof {
                assert(('-' as u32) == 45);
            }
            neg = true;
            d0 = i + 1;
        } else {
            proof {
                assert(('-' as u32) == 45);
                assert(s@[i as int] != '-');
            }
        }
    }
    let e = scan_digits_end(s, d0);
    if e == d0 {
        return None;
    }
    proof {
        crate::digits::lemma_digits_val_nonneg(s@.subrange(d0 as int, e as int));
    }
    match scan_digits_val(s, d0, e) {
        Some(v) => {
            if neg && v <= 9223372036854775808u64 {
                if v == 9223372036854775808u64 {
                    Some((i64::MIN, e))
                } else {
                    Some((-(v as i64), e))
                }
            } else if !neg && v <= 9223372036854775807u64 {
                Some((v as i64, e))
            } else {
                None
            }
        },
        None => None,
    }
}

/// Reads a string body from `i` up to the closing quote.
fn scan_str_body(s: &str, i: usize) -> (r: Option<(String, usize)>)
    requires
        i as int <= s@.len(),
    ensures
        match r {
            Some(v) => p_str_body(s@, i as int) == Some((v.0@, v.1 as int)) && i < v.1
                <= s@.len(),
            None => p_str_body(s@, i as int) is None,
        },
{
    broadcast use vstd::utf8::char_u32_cast;

    let n = s.unicode_len();
    let mut out = String::new();
    let mut cur = i;
    proof {
        assert(('"' as u32) == 34);
        assert(('\\' as u32) == 92);
    }
    loop
        invariant
            i <= cur <= n,
            n == s@.len(),
            p_str_body(s@, i as int) == (match p_str_body(s@, cur as int) {
                Some(t) => Some::<(Seq<char>, int)>((out@ + t.0, t.1)),
                None => None::<(Seq<char>, int)>,
            }),
        decreases n - cur,
    {
        if cur >= n {
            proof {
                assert(p_str_body(s@, cur as int) is None);
            }
            return None;
        }
        let c = s.get_char(cur);
        let u = c as u32;
        if u == 34 {
            assert(s@[cur as int] == '"');
            proof {
                assert(p_str_body(s@, cur as int) == Some((Seq::<char>::empty(), cur + 1)));
                assert(out@ + Seq::<char>::empty() =~= out@);
            }
            return Some((out, cur + 1));
        } else if u == 92 {
            assert(s@[cur as int] == '\\');
            if cur + 1 >= n {
                proof {
                    assert(p_str_body(s@, cur as int) is None);
                }
                return None;
            }
            let c2 = s.get_char(cur + 1);
            let u2 = c2 as u32;
            if u2 == 34 {
                assert(s@[cur + 1] == '"');
                let ghost out0 = out@;
                out.append("\"");
                proof {
                    reveal_strlit("\"");
                    assert(out@ =~= out0 + seq![s@[cur + 1]]);
                    assert(forall|t: Seq<char>| out0 + (seq![s@[cur + 1]] + t) =~= out@ + t);
                }
                cur = cur + 2;
            } else if u2 == 92 {
                assert(s@[cur + 1] == '\\');
                let ghost out0 = out@;
                out.append("\\");
                proof {
                    reveal_strlit("\\");
                    assert(out@ =~= out0 + seq![s@[cur + 1]]);
                    assert(forall|t: Seq<char>| out0 + (seq![s@[cur + 1]] + t) =~= out@ + t);
                }
                cur = cur + 2;
            } else {
                proof {
                    assert(s@[cur + 1] != '"' && s@[cur + 1] != '\\');
                    assert(p_str_body(s@, cur as int) is None);
                }
                return None;
            }
        } else {
            assert(s@[cur as int] != '"' && s@[cur as int] != '\\');
            let ghost out0 = out@;
            let piece = s.substring_char(cur, cur + 1);
            out.append(piece);
            proof {
                assert(piece@ =~= seq![s@[cur as int]]);
                assert(out@ =~= out0 + seq![s@[cur as int]]);
                assert(forall|t: Seq<char>| out0 + (seq![s@[cur as int]] + t) =~= out@ + t);
            }
            cur = cur + 1;
        }
    }
}

/// Reads a string literal at `i`.
fn scan_string(s: &str, i: usize) -> (r: Option<(String, usize)>)
    requires
        i as int <= s@.len(),
    ensures
        match r {
            Some(v) => p_string(s@, i as int) == Some((v.0@, v.1 as int)) && i + 1 < v.1
                <= s@.len(),
            None => p_string(s@, i as int) is None,
        },
{
    broadcast use vstd::utf8::char_u32_cast;

    let n = s.unicode_len();
    if i < n {
        let c = s.get_char(i);
        if (c as u32) == 34 {
            proof {
                assert(('"' as u32) == 34);
                assert(s@[i as int] == '"');
            }
            return scan_str_body(s, i + 1);
        }
        proof {
            assert(('"' as u32) == 34);
            assert(s@[i as int] != '"');
        }
    }
    None
}

} // verus!

verus! {

/// Reads a scalar at `i`; the result is well formed.
fn scan_scalar(s: &str, i: usize) -> (r: Option<(Value, usize)>)
    requires
        i as int <= s@.len(),
    ensures
        match r {
            Some(v) => p_scalar(s@, i as int) == Some((v.0@, v.1 as int)) && v.0.wf() && i < v.1
                <= s@.len(),
            None => p_scalar(s@, i as int) is None,
        },
{
    broadcast use vstd::utf8::char_u32_cast;

    let n = s.unicode_len();
    if i >= n {
        return None;
    }
    let c = s.get_char(i);
    let u = c as u32;
    proof {
        assert(('"' as u32) == 34);
        assert(('t' as u32) == 116);
        assert(('f' as u32) == 102);
    }
    if u == 34 {
        assert(s@[i as int] == '"');
        match scan_string(s, i) {
            Some((t, j)) => Some((Value::Text(t), j)),
            None => None,
        }
    } else if u == 116 {
        assert(s@[i as int] == 't');
        if n - i >= 4 {
            let c1 = s.get_char(i + 1);
            let c2 = s.get_char(i + 2);
            let c3 = s.get_char(i + 3);
            if (c1 as u32) == 114 && (c2 as u32) == 117 && (c3 as u32) == 101 {
                proof {
                    assert(('r' as u32) == 114 && ('u' as u32) == 117 && ('e' as u32) == 101);
                    assert(s@.subrange(i as int, i + 4) =~= bool_chars(true));
                }
                return Some((Value::Bool(true), i + 4));
            }
            proof {
                assert(('r' as u32) == 114 && ('u' as u32) == 117 && ('e' as u32) == 101);
                assert(s@.subrange(i as int, i + 4)[1] == s@[i + 1]);
                assert(s@.subrange(i as int, i + 4)[2] == s@[i + 2]);
                assert(s@.subrange(i as int, i + 4)[3] == s@[i + 3]);
                assert(s@.subrange(i as int, i + 4) != bool_chars(true));
            }
        }
        None
    } else if u == 102 {
        assert(s@[i as int] == 'f');
        if n - i >= 5 {
            let c1 = s.get_char(i + 1);
            let c2 = s.get_char(i + 2);
            let c3 = s.get_char(i + 3);
            let c4 = s.get_char(i + 4);
            if (c1 as u32) == 97 && (c2 as u32) == 108 && (c3 as u32) == 115 && (c4 as u32)
                == 101 {
                proof {
                    assert(('a' as u32) == 97 && ('l' as u32) == 108 && ('s' as u32) == 115 && (
                    'e' as u32) == 101);
                    assert(s@.subrange(i as int, i + 5) =~= bool_chars(false));
                }
                return Some((Value::Bool(false), i + 5));
            }
            proof {
                assert(('a' as u32) == 97 && ('l' as u32) == 108 && ('s' as u32) == 115 && (
                'e' as u32) == 101);
                assert(s@.subrange(i as int, i + 5)[1] == s@[i + 1]);
                assert(s@.subrange(i as int, i + 5)[2] == s@[i + 2]);
                assert(s@.subrange(i as int, i + 5)[3] == s@[i + 3]);
                assert(s@.subrange(i as int, i + 5)[4] == s@[i + 4]);
                assert(s@.subrange(i as int, i + 5) != bool_chars(false));
            }
        }
        None
    } else {
        proof {
            assert(s@[i as int] != '"' && s@[i as int] != 't' && s@[i as int] != 'f');
        }
        scan_number(s, i)
    }
}

/// Reads a number at `i`: an integer, or a decimal which is normalized on
/// the way in.
fn scan_number(s: &str, i: usize) -> (r: Option<(Value, usize)>)
    requires
        i as int <= s@.len(),
    ensures
        match r {
            Some(v) => p_number(s@, i as int) == Some((v.0@, v.1 as int)) && v.0.wf() && i < v.1
                <= s@.len(),
            None => p_number(s@, i as int) is None,
        },
{
    broadcast use vstd::utf8::char_u32_cast;

    let n = s.unicode_len();
    let mut neg = false;
    let mut d0 = i;
    if i < n {
        let c = s.get_char(i);
        if (c as u32) == 45 {
            proof {
                assert(('-' as u32) == 45);
            }
            neg = true;
            d0 = i + 1;
        } else {
            proof {
                assert(('-' as u32) == 45);
                assert(s@[i as int] != '-');
            }
        }
    }
    let e = scan_digits_end(s, d0);
    if e == d0 {
        return None;
    }
    let ghost d1 = s@.subrange(d0 as int, e as int);
    proof {
        crate::digits::lemma_digits_val_nonneg(d1);
        crate::infer::lemma_digits_val_bound(d1);
    }
    let mut dot = false;
    if e < n {
        let c = s.get_char(e);
        if (c as u32) == 46 {
            proof {
                assert(('.' as u32) == 46);
            }
            dot = true;
        } else {
            proof {
                assert(('.' as u32) == 46);
                assert(s@[e as int] != '.');
            }
        }
    }
    if dot {
        let e2 = scan_digits_end(s, e + 1);
        if !(e2 > e + 1 && e2 - d0 <= 19) {
            return None;
        }
        let ghost d2 = s@.subrange(e + 1, e2 as int);
        proof {
            crate::infer::lemma_digits_val_bound(d2);
            crate::value::lemma_pow10_mono(d1.len(), 17);
            crate::value::lemma_pow10_mono(d2.len(), 17);
            crate::value::lemma_pow10_18();
            crate::value::lemma_pow10_mono(17, 18);
            crate::infer::lemma_digits_val_concat(d1, d2);
            assert(all_digits(d1 + d2)) by {
                assert(forall|j: int|
                    0 <= j < d1.len() ==> (d1 + d2)[j] == #[trigger] d1[j]);
                assert(forall|j: int|
                    d1.len() <= j < (d1 + d2).len() ==> (d1 + d2)[j] == d2[j - d1.len()]);
                assert(forall|j: int| 0 <= j < (d1 + d2).len() ==> crate::digits::is_digit(
                    #[trigger] (d1 + d2)[j],
                ));
            }
            crate::infer::lemma_digits_val_bound(d1 + d2);
            assert((d1 + d2).len() <= 18);
            crate::value::lemma_pow10_mono((d1 + d2).len(), 18);
        }
        let v1 = match scan_digits_val(s, d0, e) {
            Some(v) => v,
            None => vstd::pervasive::unreached(),
        };
        let v2 = match scan_digits_val(s, e + 1, e2) {
            Some(v) => v,
            None => vstd::pervasive::unreached(),
        };
        let scale0: u32 = (e2 - e - 1) as u32;
        let pw = crate::digits::pow10_u64(scale0);
        proof {
            assert(d2.len() == scale0 as nat);
            assert(v1 * pw + v2 == digits_val(d1 + d2)) by (nonlinear_arith)
                requires
                    v1 == digits_val(d1),
                    v2 == digits_val(d2),
                    pw == crate::value::pow10(d2.len()),
                    d2.len() == scale0 as nat,
                    digits_val(d1 + d2) == digits_val(d1) * crate::value::pow10(d2.len())
                        + digits_val(d2),
            ;
            assert(v1 * pw <= digits_val(d1 + d2)) by (nonlinear_arith)
                requires
                    v1 * pw + v2 == digits_val(d1 + d2),
                    v2 >= 0,
            ;
        }
        let m0: u64 = v1 * pw + v2;
        let mut man: i64 = if neg {
            -(m0 as i64)
        } else {
            m0 as i64
        };
        let mut scale: u32 = scale0;
        let ghost man0 = man as int;
        let ghost scale1 = scale as nat;
        proof {
            crate::infer::lemma_dec_norm(man0, scale1);
        }
        while scale > 1 && man % 10 == 0
            invariant
                1 <= scale <= 18,
                -crate::value::pow10(18) < (man as int) && (man as int) < crate::value::pow10(
                    18,
                ),
                crate::infer::dec_norm(man as int, scale as nat) == crate::infer::dec_norm(
                    man0,
                    scale1,
                ),
            decreases scale,
        {
            proof {
                vstd::arithmetic::div_mod::lemma_fundamental_div_mod(man as int, 10);
                crate::value::lemma_pow10_18();
            }
            man = man / 10;
            scale = scale - 1;
        }
        proof {
            crate::value::lemma_pow10_18();
            crate::infer::lemma_dec_norm(man0, scale1);
        }
        Some((Value::Dec(crate::value::Decimal { man, scale }), e2))
    } else {
        match scan_digits_val(s, d0, e) {
            Some(v) => {
                if neg && v <= 9223372036854775808u64 {
                    if v == 9223372036854775808u64 {
                        Some((Value::Int(i64::MIN), e))
                    } else {
                        Some((Value::Int(-(v as i64)), e))
                    }
                } else if !neg && v <= 9223372036854775807u64 {
                    Some((Value::Int(v as i64), e))
                } else {
                    None
                }
            },
            None => None,
        }
    }
}

} // verus!

verus! {

/// Whether the text at `i` continues with exactly `lit`.
fn match_lit(s: &str, i: usize, lit: &str) -> (r: bool)
    requires
        i as int <= s@.len(),
    ensures
        r == (i + lit@.len() <= s@.len() && s@.subrange(i as int, i + lit@.len()) == lit@),
{
    broadcast use vstd::utf8::char_u32_cast;

    let m = lit.unicode_len();
    let n = s.unicode_len();
    if n - i < m {
        return false;
    }
    let mut j: usize = 0;
    while j < m
        invariant
            j <= m,
            i + m <= n,
            n == s@.len(),
            m == lit@.len(),
            forall|q: int| 0 <= q < j ==> s@[i + q] == lit@[q],
        decreases m - j,
    {
        let a = s.get_char(i + j);
        let b = lit.get_char(j);
        if (a as u32) != (b as u32) {
            proof {
                assert(s@.subrange(i as int, i + lit@.len())[j as int] == s@[i + j]);
                assert(s@[i + j] != lit@[j as int]);
            }
            return false;
        }
        proof {
            assert(s@[i + j] == lit@[j as int]);
        }
        j = j + 1;
    }
    proof {
        assert(s@.subrange(i as int, i + lit@.len()) =~= lit@);
    }
    true
}

/// Reads record fields from `i` into `rec`, through the closing brace.
fn scan_fields(s: &str, i: usize, rec: &mut Record) -> (r: Option<usize>)
    requires
        i as int <= s@.len(),
        old(rec).wf(),
    ensures
        match r {
            Some(j) => p_fields(s@, i as int, old(rec)@) == Some((final(rec)@, j as int))
                && final(rec).wf() && i < j <= s@.len(),
            None => p_fields(s@, i as int, old(rec)@) is None,
        },
{
    broadcast use vstd::utf8::char_u32_cast;

    let n = s.unicode_len();
    let mut cur = i;
    proof {
        assert((':' as u32) == 58);
        assert((',' as u32) == 44);
        assert(('}' as u32) == 125);
    }
    loop
        invariant
            i <= cur <= n,
            n == s@.len(),
            rec.wf(),
            p_fields(s@, i as int, old(rec)@) == p_fields(s@, cur as int, rec@),
        decreases n - cur,
    {
        let ghost pre = rec@;
        let key = match scan_string(s, cur) {
            Some(k) => k,
            None => {
                return None;
            },
        };
        let j = key.1;
        if j >= n {
            return None;
        }
        let cj = s.get_char(j);
        if (cj as u32) != 58 {
            proof {
                assert(s@[j as int] != ':');
            }
            return None;
        }
        assert(s@[j as int] == ':');
        let v = match scan_scalar(s, j + 1) {
            Some(v) => v,
            None => {
                return None;
            },
        };
        let j2 = v.1;
        rec.insert(key.0, v.0);
        if j2 >= n {
            return None;
        }
        let c2 = s.get_char(j2);
        if (c2 as u32) == 44 {
            assert(s@[j2 as int] == ',');
            cur = j2 + 1;
        } else if (c2 as u32) == 125 {
            assert(s@[j2 as int] == '}');
            return Some(j2 + 1);
        } else {
            proof {
                assert(s@[j2 as int] != ',' && s@[j2 as int] != '}');
            }
            return None;
        }
    }
}

/// Reads a record object at `i`.
fn scan_record(s: &str, i: usize) -> (r: Option<(Record, usize)>)
    requires
        i as int <= s@.len(),
    ensures
        match r {
            Some(v) => p_record(s@, i as int) == Some((v.0@, v.1 as int)) && v.0.wf() && i < v.1
                <= s@.len(),
            None => p_record(s@, i as int) is None,
        },
{
    broadcast use vstd::utf8::char_u32_cast;

    let n = s.unicode_len();
    if i >= n {
        return None;
    }
    let c = s.get_char(i);
    proof {
        assert(('{' as u32) == 123);
        assert(('}' as u32) == 125);
    }
    if (c as u32) != 123 {
        proof {
            assert(s@[i as int] != '{');
        }
        return None;
    }
    assert(s@[i as int] == '{');
    if i + 1 < n {
        let c2 = s.get_char(i + 1);
        if (c2 as u32) == 125 {
            assert(s@[i + 1] == '}');
            let rec = Record::new();
            return Some((rec, i + 2));
        }
        proof {
            assert(s@[i + 1] != '}');
        }
    }
    let mut rec = Record::new();
    match scan_fields(s, i + 1, &mut rec) {
        Some(j) => Some((rec, j)),
        None => None,
    }
}

/// Reads attribute names from `i` into `attrs` (first occurrence kept),
/// through the closing bracket.
fn scan_attrs(s: &str, i: usize, attrs: &mut Vec<String>) -> (r: Option<usize>)
    requires
        i as int <= s@.len(),
        forall|p: int, q: int|
            0 <= p < q < old(attrs)@.len() ==> crate::store::names_view(old(attrs)@)[p]
                != crate::store::names_view(old(attrs)@)[q],
    ensures
        match r {
            Some(j) => p_attrs(s@, i as int, crate::store::names_view(old(attrs)@)) == Some(
                (crate::store::names_view(final(attrs)@), j as int),
            ) && i < j <= s@.len() && (forall|p: int, q: int|
                0 <= p < q < final(attrs)@.len() ==> crate::store::names_view(final(attrs)@)[p]
                    != crate::store::names_view(final(attrs)@)[q]),
            None => p_attrs(s@, i as int, crate::store::names_view(old(attrs)@)) is None,
        },
{
    broadcast use vstd::utf8::char_u32_cast;

    let n = s.unicode_len();
    let mut cur = i;
    proof {
        assert((',' as u32) == 44);
        assert((']' as u32) == 93);
    }
    loop
        invariant
            i <= cur <= n,
            n == s@.len(),
            forall|p: int, q: int|
                0 <= p < q < attrs@.len() ==> crate::store::names_view(attrs@)[p]
                    != crate::store::names_view(attrs@)[q],
            p_attrs(s@, i as int, crate::store::names_view(old(attrs)@)) == p_attrs(
                s@,
                cur as int,
                crate::store::names_view(attrs@),
            ),
        decreases n - cur,
    {
        let ghost pre = crate::store::names_view(attrs@);
        let a = match scan_string(s, cur) {
            Some(a) => a,
            None => {
                return None;
            },
        };
        let j = a.1;
        if !crate::store::names_contain(attrs, a.0.as_str()) {
            let ghost av = a.0@;
            attrs.push(a.0);
            proof {
                assert(crate::store::names_view(attrs@) =~= pre.push(av));
            }
        }
        if j >= n {
            return None;
        }
        let c2 = s.get_char(j);
        if (c2 as u32) == 44 {
            assert(s@[j as int] == ',');
            cur = j + 1;
        } else if (c2 as u32) == 93 {
            assert(s@[j as int] == ']');
            return Some(j + 1);
        } else {
            proof {
                assert(s@[j as int] != ',' && s@[j as int] != ']');
            }
            return None;
        }
    }
}

} // verus!

verus! {

/// Reads a quoted integer key at `i`.
fn scan_key(s: &str, i: usize) -> (r: Option<(i64, usize)>)
    requires
        i as int <= s@.len(),
    ensures
        match r {
            Some(v) => p_key_int(s@, i as int) == Some((v.0 as int, v.1 as int)) && i < v.1
                <= s@.len(),
            None => p_key_int(s@, i as int) is None,
        },
{
    broadcast use vstd::utf8::char_u32_cast;

    let n = s.unicode_len();
    if i >= n {
        return None;
    }
    let c = s.get_char(i);
    proof {
        assert(('"' as u32) == 34);
    }
    if (c as u32) != 34 {
        proof {
            assert(s@[i as int] != '"');
        }
        return None;
    }
    assert(s@[i as int] == '"');
    let v = match scan_int(s, i + 1) {
        Some(v) => v,
        None => {
            return None;
        },
    };
    let j = v.1;
    if j >= n {
        return None;
    }
    let c2 = s.get_char(j);
    if (c2 as u32) != 34 {
        proof {
            assert(s@[j as int] != '"');
        }
        return None;
    }
    assert(s@[j as int] == '"');
    Some((v.0, j + 1))
}

/// Writes a row under its id: in place when the id is present, appended
/// otherwise. Uniqueness of ids and well-formedness of records carry over.
fn put_row(rows: &mut Vec<(i64, Record)>, id: i64, rec: Record)
    requires
        rec.wf(),
        forall|p: int, q: int|
            0 <= p < q < old(rows)@.len() ==> (#[trigger] crate::store::rows_view(old(rows)@)[p]).0
                != (#[trigger] crate::store::rows_view(old(rows)@)[q]).0,
        forall|p: int|
            0 <= p < old(rows)@.len() ==> rec_wf(
                (#[trigger] crate::store::rows_view(old(rows)@)[p]).1,
            ),
    ensures
        crate::store::rows_view(final(rows)@) == crate::store::rows_set(
            crate::store::rows_view(old(rows)@),
            id as int,
            rec@,
        ),
        forall|p: int, q: int|
            0 <= p < q < final(rows)@.len() ==> (#[trigger] crate::store::rows_view(
                final(rows)@,
            )[p]).0 != (#[trigger] crate::store::rows_view(final(rows)@)[q]).0,
        forall|p: int|
            0 <= p < final(rows)@.len() ==> rec_wf(
                (#[trigger] crate::store::rows_view(final(rows)@)[p]).1,
            ),
{
    let ghost before = crate::store::rows_view(rows@);
    let n = rows.len();
    let mut w: usize = 0;
    while w < n
        invariant
            w <= n,
            n == rows@.len(),
            rec.wf(),
            before == crate::store::rows_view(rows@),
            before == crate::store::rows_view(old(rows)@),
            forall|p: int, q: int|
                0 <= p < q < before.len() ==> (#[trigger] before[p]).0 != (#[trigger] before[q]).0,
            forall|p: int| 0 <= p < before.len() ==> rec_wf((#[trigger] before[p]).1),
            forall|p: int| 0 <= p < w ==> (#[trigger] before[p]).0 != id as int,
        decreases n - w,
    {
        if rows[w].0 == id {
            proof {
                assert(before[w as int].0 == id as int);
                crate::store::lemma_rows_idx_at(before, id as int, w as int);
            }
            rows.set(w, (id, rec));
            proof {
                assert(crate::store::rows_view(rows@) =~= before.update(
                    w as int,
                    (id as int, rec@),
                ));
                assert forall|p: int, q: int|
                    0 <= p < q < rows@.len() implies (#[trigger] crate::store::rows_view(
                    rows@,
                )[p]).0 != (#[trigger] crate::store::rows_view(rows@)[q]).0 by {
                    assert(crate::store::rows_view(rows@)[p].0 == before[p].0);
                    assert(crate::store::rows_view(rows@)[q].0 == before[q].0);
                    assert(before[p].0 != before[q].0);
                }
            }
            return;
        }
        assert(before[w as int].0 != id as int);
        w = w + 1;
    }
    proof {
        assert(!crate::store::rows_has(before, id as int));
    }
    rows.push((id, rec));
    proof {
        assert(crate::store::rows_view(rows@) =~= before.push((id as int, rec@)));
        assert forall|p: int, q: int|
            0 <= p < q < rows@.len() implies (#[trigger] crate::store::rows_view(rows@)[p]).0 != (
        #[trigger] crate::store::rows_view(rows@)[q]).0 by {
            if q < rows@.len() - 1 {
                assert(before[p].0 != before[q].0);
            } else {
                assert(crate::store::rows_view(rows@)[q].0 == id as int);
                assert(crate::store::rows_view(rows@)[p].0 == before[p].0);
            }
        }
    }
}

/// Reads rows from `i` into `rows` (a later entry replaces an earlier one
/// with the same id), through the closing brace.
fn scan_rows(s: &str, i: usize, rows: &mut Vec<(i64, Record)>) -> (r: Option<usize>)
    requires
        i as int <= s@.len(),
        forall|p: int, q: int|
            0 <= p < q < old(rows)@.len() ==> (#[trigger] crate::store::rows_view(old(rows)@)[p]).0
                != (#[trigger] crate::store::rows_view(old(rows)@)[q]).0,
        forall|p: int|
            0 <= p < old(rows)@.len() ==> rec_wf(
                (#[trigger] crate::store::rows_view(old(rows)@)[p]).1,
            ),
    ensures
        match r {
            Some(j) => p_rows(s@, i as int, crate::store::rows_view(old(rows)@)) == Some(
                (crate::store::rows_view(final(rows)@), j as int),
            ) && i < j <= s@.len() && (forall|p: int, q: int|
                0 <= p < q < final(rows)@.len() ==> (#[trigger] crate::store::rows_view(
                    final(rows)@,
                )[p]).0 != (#[trigger] crate::store::rows_view(final(rows)@)[q]).0) && (forall|
                p: int,
            |
                0 <= p < final(rows)@.len() ==> rec_wf(
                    (#[trigger] crate::store::rows_view(final(rows)@)[p]).1,
                )),
            None => p_rows(s@, i as int, crate::store::rows_view(old(rows)@)) is None,
        },
{
    broadcast use vstd::utf8::char_u32_cast;

    let n = s.unicode_len();
    let mut cur = i;
    proof {
        assert((':' as u32) == 58);
        assert((',' as u32) == 44);
        assert(('}' as u32) == 125);
    }
    loop
        invariant
            i <= cur <= n,
            n == s@.len(),
            forall|p: int, q: int|
                0 <= p < q < rows@.len() ==> (#[trigger] crate::store::rows_view(rows@)[p]).0 != (
                #[trigger] crate::store::rows_view(rows@)[q]).0,
            forall|p: int|
                0 <= p < rows@.len() ==> rec_wf((#[trigger] crate::store::rows_view(rows@)[p]).1),
            p_rows(s@, i as int, crate::store::rows_view(old(rows)@)) == p_rows(
                s@,
                cur as int,
                crate::store::rows_view(rows@),
            ),
        decreases n - cur,
    {
        let k = match scan_key(s, cur) {
            Some(k) => k,
            None => {
                return None;
            },
        };
        let j = k.1;
        if j >= n {
            return None;
        }
        let cj = s.get_char(j);
        if (cj as u32) != 58 {
            proof {
                assert(s@[j as int] != ':');
            }
            return None;
        }
        assert(s@[j as int] == ':');
        let rcd = match scan_record(s, j + 1) {
            Some(v) => v,
            None => {
                return None;
            },
        };
        let j2 = rcd.1;
        put_row(rows, k.0, rcd.0);
        if j2 >= n {
            return None;
        }
        let c2 = s.get_char(j2);
        if (c2 as u32) == 44 {
            assert(s@[j2 as int] == ',');
            cur = j2 + 1;
        } else if (c2 as u32) == 125 {
            assert(s@[j2 as int] == '}');
            return Some(j2 + 1);
        } else {
            proof {
                assert(s@[j2 as int] != ',' && s@[j2 as int] != '}');
            }
            return None;
        }
    }
}

} // verus!

verus! {

/// Every row id lies in `[0, bound)`.
fn rows_ids_below(rows: &Vec<(i64, Record)>, bound: i64) -> (r: bool)
    ensures
        r == ids_below(crate::store::rows_view(rows@), bound as int),
{
    let m = rows.len();
    let mut w: usize = 0;
    while w < m
        invariant
            w <= m,
            m == rows@.len(),
            forall|p: int|
                0 <= p < w ==> 0 <= (#[trigger] crate::store::rows_view(rows@)[p]).0
                    < bound as int,
        decreases m - w,
    {
        let rid = rows[w].0;
        if rid < 0 || rid >= bound {
            proof {
                assert(crate::store::rows_view(rows@)[w as int].0 == rid as int);
                assert(!ids_below(crate::store::rows_view(rows@), bound as int));
            }
            return false;
        }
        proof {
            assert(crate::store::rows_view(rows@)[w as int].0 == rid as int);
        }
        w = w + 1;
    }
    true
}

/// Reads a store object at `i`, checking the shape a saved store has.
#[verifier::rlimit(80)]
fn scan_store(s: &str, i: usize) -> (r: Option<(Store, usize)>)
    requires
        i as int <= s@.len(),
    ensures
        match r {
            Some(v) => p_store(s@, i as int) == Some((v.0@, v.1 as int)) && v.0.wf() && i < v.1
                <= s@.len(),
            None => p_store(s@, i as int) is None,
        },
{
    broadcast use vstd::utf8::char_u32_cast;

    let n = s.unicode_len();
    proof {
        reveal_strlit("{\"id\":");
        assert("{\"id\":"@ =~= seq!['{', '"', 'i', 'd', '"', ':']);
        reveal_strlit(",\"name\":");
        assert(",\"name\":"@ =~= seq![',', '"', 'n', 'a', 'm', 'e', '"', ':']);
        reveal_strlit(",\"attributes\":[");
        assert(",\"attributes\":["@ =~= seq![',', '"', 'a', 't', 't', 'r', 'i', 'b', 'u', 't', 'e', 's', '"', ':', '[']);
        reveal_strlit(",\"values\":{");
        assert(",\"values\":{"@ =~= seq![',', '"', 'v', 'a', 'l', 'u', 'e', 's', '"', ':', '{']);
        assert((']' as u32) == 93);
        assert(('}' as u32) == 125);
    }
    if !match_lit(s, i, "{\"id\":") {
        return None;
    }
    let id = match scan_int(s, i + 6) {
        Some(v) => v,
        None => {
            return None;
        },
    };
    if id.0 < 0 {
        return None;
    }
    let j = id.1;
    if !match_lit(s, j, ",\"name\":") {
        return None;
    }
    let nm = match scan_string(s, j + 8) {
        Some(v) => v,
        None => {
            return None;
        },
    };
    let j2 = nm.1;
    if !match_lit(s, j2, ",\"attributes\":[") {
        return None;
    }
    let j3 = j2 + 15;
    let mut attrs: Vec<String> = Vec::new();
    proof {
        assert(crate::store::names_view(attrs@) =~= Seq::<Seq<char>>::empty());
    }
    let mut j4: usize = 0;
    let mut empty_arr = false;
    if j3 < n {
        let c = s.get_char(j3);
        if (c as u32) == 93 {
            assert(s@[j3 as int] == ']');
            empty_arr = true;
            j4 = j3 + 1;
        } else {
            assert(s@[j3 as int] != ']');
        }
    }
    if !empty_arr {
        j4 = match scan_attrs(s, j3, &mut attrs) {
            Some(j) => j,
            None => {
                return None;
            },
        };
    }
    if !match_lit(s, j4, ",\"values\":{") {
        return None;
    }
    let j5 = j4 + 11;
    let mut rows: Vec<(i64, Record)> = Vec::new();
    proof {
        assert(crate::store::rows_view(rows@) =~= Seq::<(int, RecordV)>::empty());
    }
    let mut j6: usize = 0;
    let mut empty_rows = false;
    if j5 < n {
        let c = s.get_char(j5);
        if (c as u32) == 125 {
            assert(s@[j5 as int] == '}');
            empty_rows = true;
            j6 = j5 + 1;
        } else {
            assert(s@[j5 as int] != '}');
        }
    }
    if !empty_rows {
        j6 = match scan_rows(s, j5, &mut rows) {
            Some(j) => j,
            None => {
                return None;
            },
        };
    }
    if j6 >= n {
        return None;
    }
    let c = s.get_char(j6);
    if (c as u32) != 125 {
        proof {
            assert(s@[j6 as int] != '}');
        }
        return None;
    }
    assert(s@[j6 as int] == '}');
    // every record id must lie below the id counter
    let ids_ok = rows_ids_below(&rows, id.0);
    proof {
        assert(s@.subrange(i as int, i + 6) == seq!['{', '"', 'i', 'd', '"', ':']);
        assert(p_int(s@, i + 6) == Some((id.0 as int, j as int)));
        assert(s@.subrange(j as int, j + 8) == seq![',', '"', 'n', 'a', 'm', 'e', '"', ':']);
        assert(p_string(s@, j + 8) == Some((nm.0@, j2 as int)));
        assert(s@.subrange(j2 as int, j2 + 15) == seq![
            ',', '"', 'a', 't', 't', 'r', 'i', 'b', 'u', 't', 'e', 's', '"', ':', '[',
        ]);
        assert((if (j3 as int) < s@.len() && s@[j3 as int] == ']' {
            Some((Seq::<Seq<char>>::empty(), j3 + 1 as int))
        } else {
            p_attrs(s@, j3 as int, Seq::empty())
        }) == Some((crate::store::names_view(attrs@), j4 as int)));
        assert(s@.subrange(j4 as int, j4 + 11) == seq![
            ',', '"', 'v', 'a', 'l', 'u', 'e', 's', '"', ':', '{',
        ]);
        assert((if (j5 as int) < s@.len() && s@[j5 as int] == '}' {
            Some((Seq::<(int, RecordV)>::empty(), j5 + 1 as int))
        } else {
            p_rows(s@, j5 as int, Seq::empty())
        }) == Some((crate::store::rows_view(rows@), j6 as int)));
        if ids_ok {
            assert(p_store(s@, i as int) == Some(
                (
                    StoreV {
                        next_id: id.0 as int,
                        name: nm.0@,
                        attributes: crate::store::names_view(attrs@),
                        records: crate::store::rows_view(rows@),
                    },
                    j6 + 1 as int,
                ),
            ));
        } else {
            assert(p_store(s@, i as int) is None);
        }
    }
    if !ids_ok {
        return None;
    }
    let st = Store::from_parts(id.0, nm.0, attrs, rows);
    Some((st, j6 + 1))
}

/// Writes a store under its name: in place when present, appended otherwise.
fn put_store(stores: &mut Vec<(String, Store)>, name: String, st: Store)
    requires
        st.wf(),
        forall|p: int, q: int|
            0 <= p < q < old(stores)@.len() ==> (#[trigger] old(stores)@[p]).0@ != (
            #[trigger] old(stores)@[q]).0@,
        forall|p: int| 0 <= p < old(stores)@.len() ==> store_wf((#[trigger] old(stores)@[p]).1@),
    ensures
        stores_seq_view(final(stores)@) == crate::database::stores_set(
            stores_seq_view(old(stores)@),
            name@,
            st@,
        ),
        forall|p: int, q: int|
            0 <= p < q < final(stores)@.len() ==> (#[trigger] final(stores)@[p]).0@ != (
            #[trigger] final(stores)@[q]).0@,
        forall|p: int| 0 <= p < final(stores)@.len() ==> store_wf((#[trigger] final(stores)@[p]).1@),
{
    let ghost before = stores_seq_view(stores@);
    let n = stores.len();
    let mut w: usize = 0;
    while w < n
        invariant
            w <= n,
            n == stores@.len(),
            st.wf(),
            before == stores_seq_view(stores@),
            before == stores_seq_view(old(stores)@),
            stores@ == old(stores)@,
            forall|p: int, q: int|
                0 <= p < q < before.len() ==> (#[trigger] before[p]).0 != (#[trigger] before[q]).0,
            forall|p: int| 0 <= p < before.len() ==> store_wf((#[trigger] before[p]).1),
            forall|p: int| 0 <= p < w ==> (#[trigger] before[p]).0 != name@,
        decreases n - w,
    {
        if crate::value::str_eq(stores[w].0.as_str(), name.as_str()) {
            proof {
                assert(before[w as int].0 == name@);
                crate::database::lemma_stores_idx_at(before, name@, w as int);
            }
            let ghost nv = name@;
            let ghost sv = st@;
            stores.set(w, (name, st));
            proof {
                assert(stores_seq_view(stores@) =~= before.update(w as int, (nv, sv)));
                assert forall|p: int, q: int|
                    0 <= p < q < stores@.len() implies (#[trigger] stores@[p]).0@ != (
                #[trigger] stores@[q]).0@ by {
                    assert(stores_seq_view(stores@)[p].0 == before[p].0);
                    assert(stores_seq_view(stores@)[q].0 == before[q].0);
                    assert(before[p].0 != before[q].0);
                }
                assert forall|p: int| 0 <= p < stores@.len() implies store_wf(
                    (#[trigger] stores@[p]).1@,
                ) by {
                    if p != w {
                        assert(stores_seq_view(stores@)[p] == before[p]);
                        assert(store_wf(before[p].1));
                    } else {
                        assert(stores_seq_view(stores@)[p] == (nv, sv));
                    }
                }
            }
            return;
        }
        assert(before[w as int].0 != name@);
        w = w + 1;
    }
    proof {
        assert(!crate::database::stores_has(before, name@));
    }
    let ghost nv = name@;
    let ghost sv = st@;
    stores.push((name, st));
    proof {
        assert(stores_seq_view(stores@) =~= before.push((nv, sv)));
        assert forall|p: int, q: int|
            0 <= p < q < stores@.len() implies (#[trigger] stores@[p]).0@ != (
        #[trigger] stores@[q]).0@ by {
            assert(stores_seq_view(stores@)[p].0 == stores@[p].0@);
            assert(stores_seq_view(stores@)[q].0 == stores@[q].0@);
            if q < stores@.len() - 1 {
                assert(before[p].0 != before[q].0);
            } else {
                assert(stores_seq_view(stores@)[q].0 == nv);
                assert(stores_seq_view(stores@)[p].0 == before[p].0);
            }
        }
        assert forall|p: int| 0 <= p < stores@.len() implies store_wf(
            (#[trigger] stores@[p]).1@,
        ) by {
            if p < stores@.len() - 1 {
                assert(stores_seq_view(stores@)[p] == before[p]);
                assert(store_wf(before[p].1));
            } else {
                assert(stores_seq_view(stores@)[p] == (nv, sv));
            }
        }
    }
}

/// View of a store-entry vector as (name, store) pairs.
pub open spec fn stores_seq_view(v: Seq<(String, Store)>) -> Seq<(Seq<char>, StoreV)> {
    Seq::new(v.len(), |i: int| (v[i].0@, v[i].1@))
}

/// Reads store entries from `i` into `stores` (a later entry replaces an
/// earlier one with the same name), through the closing brace.
fn scan_stores(s: &str, i: usize, stores: &mut Vec<(String, Store)>) -> (r: Option<usize>)
    requires
        i as int <= s@.len(),
        old(stores)@.len() == 0,
    ensures
        match r {
            Some(j) => p_stores(s@, i as int, Seq::empty()) == Some(
                (stores_seq_view(final(stores)@), j as int),
            ) && i < j <= s@.len() && (forall|p: int, q: int|
                0 <= p < q < final(stores)@.len() ==> (#[trigger] final(stores)@[p]).0@ != (
                #[trigger] final(stores)@[q]).0@) && (forall|p: int|
                0 <= p < final(stores)@.len() ==> store_wf((#[trigger] final(stores)@[p]).1@)),
            None => p_stores(s@, i as int, Seq::empty()) is None,
        },
{
    broadcast use vstd::utf8::char_u32_cast;

    let n = s.unicode_len();
    let mut cur = i;
    proof {
        assert((':' as u32) == 58);
        assert((',' as u32) == 44);
        assert(('}' as u32) == 125);
        assert(stores_seq_view(stores@) =~= Seq::<(Seq<char>, StoreV)>::empty());
    }
    loop
        invariant
            i <= cur <= n,
            n == s@.len(),
            forall|p: int, q: int|
                0 <= p < q < stores@.len() ==> (#[trigger] stores@[p]).0@ != (
                #[trigger] stores@[q]).0@,
            forall|p: int| 0 <= p < stores@.len() ==> store_wf((#[trigger] stores@[p]).1@),
            p_stores(s@, i as int, Seq::empty()) == p_stores(
                s@,
                cur as int,
                stores_seq_view(stores@),
            ),
        decreases n - cur,
    {
        let nm = match scan_string(s, cur) {
            Some(v) => v,
            None => {
                return None;
            },
        };
        let j = nm.1;
        if j >= n {
            return None;
        }
        let cj = s.get_char(j);
        if (cj as u32) != 58 {
            proof {
                assert(s@[j as int] != ':');
            }
            return None;
        }
        assert(s@[j as int] == ':');
        let st = match scan_store(s, j + 1) {
            Some(v) => v,
            None => {
                return None;
            },
        };
        let j2 = st.1;
        put_store(stores, nm.0, st.0);
        if j2 >= n {
            return None;
        }
        let c2 = s.get_char(j2);
        if (c2 as u32) == 44 {
            assert(s@[j2 as int] == ',');
            cur = j2 + 1;
        } else if (c2 as u32) == 125 {
            assert(s@[j2 as int] == '}');
            return Some(j2 + 1);
        } else {
            proof {
                assert(s@[j2 as int] != ',' && s@[j2 as int] != '}');
            }
            return None;
        }
    }
}

impl Database {
    /// Reads a database back from persisted JSON text: the stores map must
    /// have exactly the shape [`Database::to_json`] writes, else the result
    /// is [`Error::DeserializationError`].
    pub fn from_json(name: &str, text: &str) -> (r: Result<Database, Error>)
        ensures
            match p_db(text@) {
                Some(es) => r matches Ok(d) && d@.name == name@ && d@.stores == es && d.wf(),
                None => r == Err::<Database, Error>(Error::DeserializationError),
            },
    {
        broadcast use vstd::utf8::char_u32_cast;

        let n = text.unicode_len();
        proof {
            assert(('{' as u32) == 123);
            assert(('}' as u32) == 125);
        }
        if n < 1 {
            return Err(Error::DeserializationError);
        }
        let c0 = text.get_char(0);
        if (c0 as u32) != 123 {
            proof {
                assert(text@[0] != '{');
            }
            return Err(Error::DeserializationError);
        }
        assert(text@[0] == '{');
        if n == 2 {
            let c1 = text.get_char(1);
            if (c1 as u32) == 125 {
                assert(text@[1] == '}');
                let d = Database::from_parts(name.to_owned(), Vec::new());
                proof {
                    assert(d@.stores =~= Seq::<(Seq<char>, StoreV)>::empty());
                }
                return Ok(d);
            }
            assert(text@[1] != '}');
        }
        let mut stores: Vec<(String, Store)> = Vec::new();
        match scan_stores(text, 1, &mut stores) {
            Some(j) => {
                if j == n {
                    let ghost sv = stores_seq_view(stores@);
                    let d = Database::from_parts(name.to_owned(), stores);
                    proof {
                        assert(d@.stores =~= sv);
                    }
                    Ok(d)
                } else {
                    Err(Error::DeserializationError)
                }
            },
            None => Err(Error::DeserializationError),
        }
    }
}

} // verus!

verus! {

/// The reader accepts an escaped text followed by its closing quote, and
/// returns exactly that text.
proof fn lemma_parse_str_body_complete(s: Seq<char>, i: int, x: Seq<char>)
    requires
        0 <= i,
        i + json_escape(x).len() + 1 <= s.len(),
        s.subrange(i, i + json_escape(x).len() + 1) == json_escape(x) + seq!['"'],
    ensures
        p_str_body(s, i) == Some((x, i + json_escape(x).len() + 1)),
    decreases x.len(),
{
    let e = json_escape(x);
    let g = s.subrange(i, i + e.len() + 1);
    if x.len() == 0 {
        assert(g[0] == s[i]);
        assert(s[i] == '"');
        assert(p_str_body(s, i) == Some((Seq::<char>::empty(), i + 1)));
        assert(x =~= Seq::<char>::empty());
    } else {
        let hd: Seq<char> = if x[0] == '"' {
            seq!['\\', '"']
        } else if x[0] == '\\' {
            seq!['\\', '\\']
        } else {
            seq![x[0]]
        };
        let e2 = json_escape(x.skip(1));
        assert(e == hd + e2);
        assert(forall|j: int| 0 <= j < e.len() + 1 ==> g[j] == s[i + j]);
        assert(forall|j: int| 0 <= j < hd.len() ==> (hd + e2 + seq!['"'])[j] == hd[j]);
        let i2 = i + hd.len();
        assert(s.subrange(i2, i2 + e2.len() + 1) =~= e2 + seq!['"']) by {
            assert(forall|j: int|
                0 <= j < e2.len() + 1 ==> #[trigger] s.subrange(i2, i2 + e2.len() + 1)[j] == s[i2
                    + j]);
            assert(forall|j: int|
                0 <= j < e2.len() + 1 ==> #[trigger] (e2 + seq!['"'])[j] == (hd + e2
                    + seq!['"'])[hd.len() + j]);
            assert(g =~= hd + e2 + seq!['"']);
        }
        assert(g =~= hd + e2 + seq!['"']);
        assert(g[0] == s[i]);
        assert(g[0] == hd[0]);
        lemma_parse_str_body_complete(s, i2, x.skip(1));
        if x[0] == '"' || x[0] == '\\' {
            assert(g[1] == s[i + 1]);
            assert(g[1] == hd[1]);
            assert(s[i] == hd[0]);
            assert(s[i + 1] == hd[1]);
            assert(s[i] == '\\');
            assert(s[i + 1] == x[0]);
            assert(p_str_body(s, i) == Some((seq![s[i + 1]] + x.skip(1), i2 + e2.len() + 1)));
            assert(seq![s[i + 1]] + x.skip(1) =~= x);
        } else {
            assert(s[i] == x[0]);
            assert(s[i] != '"' && s[i] != '\\');
            assert(p_str_body(s, i) == Some((seq![s[i]] + x.skip(1), i2 + e2.len() + 1)));
            assert(seq![s[i]] + x.skip(1) =~= x);
        }
    }
}

/// The reader accepts a written string literal.
proof fn lemma_parse_string_complete(s: Seq<char>, i: int, x: Seq<char>)
    requires
        0 <= i,
        i + json_string(x).len() <= s.len(),
        s.subrange(i, i + json_string(x).len()) == json_string(x),
    ensures
        p_string(s, i) == Some((x, i + json_string(x).len())),
{
    let q = json_string(x);
    let g = s.subrange(i, i + q.len());
    assert(forall|j: int| 0 <= j < q.len() ==> #[trigger] g[j] == s[i + j]);
    assert(g[0] == q[0]);
    assert(s[i] == '"');
    assert(s.subrange(i + 1, i + 1 + json_escape(x).len() + 1) =~= json_escape(x) + seq!['"'])
        by {
        assert(forall|j: int|
            0 <= j < json_escape(x).len() + 1 ==> #[trigger] s.subrange(
                i + 1,
                i + 1 + json_escape(x).len() + 1,
            )[j] == s[i + 1 + j]);
        assert(forall|j: int|
            0 <= j < json_escape(x).len() + 1 ==> #[trigger] (json_escape(x) + seq!['"'])[j] == q[1
                + j]);
    }
    lemma_parse_str_body_complete(s, i + 1, x);
}

/// Powers of ten multiply along addition of exponents.
proof fn lemma_pow10_add(a: nat, b: nat)
    ensures
        crate::value::pow10(a + b) == crate::value::pow10(a) * crate::value::pow10(b),
    decreases a,
{
    if a == 0 {
        assert(crate::value::pow10(0 + b) == 1 * crate::value::pow10(b));
    } else {
        lemma_pow10_add((a - 1) as nat, b);
        assert(crate::value::pow10(a + b) == 10 * crate::value::pow10((a - 1) as nat + b));
        assert(10 * (crate::value::pow10((a - 1) as nat) * crate::value::pow10(b)) == (10
            * crate::value::pow10((a - 1) as nat)) * crate::value::pow10(b)) by (nonlinear_arith);
    }
}

/// A run of zeros reads as zero before any digit run.
proof fn lemma_zero_run_val(k: nat, t: Seq<char>)
    ensures
        digits_val(crate::digits::zero_run(k) + t) == digits_val(t),
        all_digits(crate::digits::zero_run(k)),
    decreases k,
{
    assert(('0' as u32) == 48);
    let z = crate::digits::zero_run(k);
    assert(all_digits(z));
    crate::infer::lemma_digits_val_concat(z, t);
    assert(digits_val(z) == 0) by {
        lemma_zero_run_zero(k);
    }
}

proof fn lemma_zero_run_zero(k: nat)
    ensures
        digits_val(crate::digits::zero_run(k)) == 0,
    decreases k,
{
    assert(('0' as u32) == 48);
    let z = crate::digits::zero_run(k);
    if k > 0 {
        lemma_zero_run_zero((k - 1) as nat);
        assert(z.drop_last() =~= crate::digits::zero_run((k - 1) as nat));
        assert(z.last() == '0');
    }
}

} // verus!

verus! {

/// The reader accepts a written integer when no digit follows it.
proof fn lemma_parse_int_complete(s: Seq<char>, i: int, v: int)
    requires
        i64::MIN <= v <= i64::MAX,
        0 <= i,
        i + int_seq(v).len() <= s.len(),
        s.subrange(i, i + int_seq(v).len()) == int_seq(v),
        i + int_seq(v).len() < s.len() ==> !crate::digits::is_digit(s[i + int_seq(v).len()]),
    ensures
        p_int(s, i) == Some((v, i + int_seq(v).len())),
{
    let t = int_seq(v);
    let g = s.subrange(i, i + t.len());
    assert(forall|j: int| 0 <= j < t.len() ==> #[trigger] g[j] == s[i + j]);
    let a = if v < 0 {
        -v
    } else {
        v
    };
    crate::digits::lemma_dec_digits(a);
    assert(('-' as u32) == 45);
    let d0 = if v < 0 {
        i + 1
    } else {
        i
    };
    let e = i + t.len();
    if v < 0 {
        assert(g[0] == '-');
        assert(s[i] == '-');
        assert(forall|j: int|
            0 <= j < dec_digits(a).len() ==> #[trigger] dec_digits(a)[j] == t[1 + j]);
    } else {
        assert(g[0] == dec_digits(a)[0]);
        assert(crate::digits::is_digit(s[i]));
        assert(s[i] != '-');
    }
    assert(forall|j: int| d0 <= j < e ==> crate::digits::is_digit(#[trigger] s[j])) by {
        assert(forall|j: int|
            d0 <= j < e ==> s[j] == dec_digits(a)[j - d0]);
    }
    lemma_digits_end_at(s, d0, e);
    assert(s.subrange(d0, e) =~= dec_digits(a));
    assert(digits_val(s.subrange(d0, e)) == a);
}

/// The reader accepts a written integer scalar when what follows is neither
/// a digit nor a point.
proof fn lemma_parse_number_int_complete(s: Seq<char>, i: int, v: int)
    requires
        i64::MIN <= v <= i64::MAX,
        0 <= i,
        i + int_seq(v).len() <= s.len(),
        s.subrange(i, i + int_seq(v).len()) == int_seq(v),
        i + int_seq(v).len() < s.len() ==> !crate::digits::is_digit(s[i + int_seq(v).len()])
            && s[i + int_seq(v).len()] != '.',
    ensures
        p_number(s, i) == Some((ValueV::Int(v), i + int_seq(v).len())),
{
    lemma_parse_int_complete(s, i, v);
}

/// The reader accepts a written decimal when no digit follows it, and reads
/// back exactly its mantissa and scale.
proof fn lemma_parse_number_dec_complete(s: Seq<char>, i: int, man: int, scale: nat)
    requires
        value_v_wf(ValueV::Dec { man, scale }),
        0 <= i,
        i + dec_seq(man, scale).len() <= s.len(),
        s.subrange(i, i + dec_seq(man, scale).len()) == dec_seq(man, scale),
        i + dec_seq(man, scale).len() < s.len() ==> !crate::digits::is_digit(
            s[i + dec_seq(man, scale).len()],
        ),
    ensures
        p_number(s, i) == Some((ValueV::Dec { man, scale }, i + dec_seq(man, scale).len())),
{
    let t = dec_seq(man, scale);
    let g = s.subrange(i, i + t.len());
    assert(forall|j: int| 0 <= j < t.len() ==> #[trigger] g[j] == s[i + j]);
    let a = if man < 0 {
        -man
    } else {
        man
    };
    crate::value::lemma_pow10_pos(scale);
    crate::value::lemma_pow10_18();
    vstd::arithmetic::div_mod::lemma_fundamental_div_mod(a, crate::value::pow10(scale));
    let p = crate::value::pow10(scale);
    let ip = a / p;
    let fp = a % p;
    assert(0 <= fp < p) by {
        vstd::arithmetic::div_mod::lemma_mod_bound(a, p);
    }
    assert(ip >= 0) by {
        vstd::arithmetic::div_mod::lemma_div_pos_is_pos(a, p);
    }
    crate::digits::lemma_dec_digits(ip);
    crate::digits::lemma_dec_digits(fp);
    crate::digits::lemma_dec_digits_len(fp, scale);
    let ipd = dec_digits(ip);
    let fpd = crate::digits::padded_digits(fp, scale);
    assert(fpd.len() == scale) by {
        if dec_digits(fp).len() < scale {
            assert(fpd == crate::digits::zero_run(
                (scale - dec_digits(fp).len()) as nat,
            ) + dec_digits(fp));
        }
    }
    assert(all_digits(fpd)) by {
        assert(('0' as u32) == 48);
        if dec_digits(fp).len() < scale {
            let z = crate::digits::zero_run((scale - dec_digits(fp).len()) as nat);
            assert(forall|j: int|
                0 <= j < fpd.len() ==> fpd[j] == (if j < z.len() {
                    z[j]
                } else {
                    dec_digits(fp)[j - z.len()]
                }));
            assert(forall|j: int|
                0 <= j < fpd.len() ==> crate::digits::is_digit(#[trigger] fpd[j]));
        }
    }
    assert(digits_val(fpd) == fp) by {
        if dec_digits(fp).len() < scale {
            lemma_zero_run_val((scale - dec_digits(fp).len()) as nat, dec_digits(fp));
        }
    }
    // layout: sign, integer digits, point, padded fraction
    let sign: Seq<char> = if man < 0 {
        seq!['-']
    } else {
        Seq::empty()
    };
    assert(t == sign + ipd + seq!['.'] + fpd);
    let d0 = if man < 0 {
        i + 1
    } else {
        i
    };
    let e = d0 + ipd.len();
    let e2 = e + 1 + fpd.len();
    assert(e2 == i + t.len());
    assert(('-' as u32) == 45);
    assert(('.' as u32) == 46);
    if man < 0 {
        assert(g[0] == '-');
        assert(s[i] == '-');
    } else {
        assert(g[0] == ipd[0]);
        assert(crate::digits::is_digit(s[i]));
        assert(s[i] != '-');
    }
    assert forall|j: int| d0 <= j < e implies s[j] == ipd[j - d0] by {
        assert(g[j - i] == s[j]);
        assert(t[j - i] == ((sign + ipd) + seq!['.'])[j - i]);
        assert(((sign + ipd) + seq!['.'])[j - i] == (sign + ipd)[j - i]);
        assert((sign + ipd)[j - i] == ipd[j - d0]);
    }
    assert(forall|j: int| d0 <= j < e ==> crate::digits::is_digit(#[trigger] s[j]));
    assert(s[e] == '.') by {
        assert(g[e - i] == s[e]);
        assert(t[e - i] == ((sign + ipd) + seq!['.'])[e - i]);
        assert(((sign + ipd) + seq!['.'])[e - i] == '.');
    }
    assert(!crate::digits::is_digit(s[e]));
    lemma_digits_end_at(s, d0, e);
    assert forall|j: int| e + 1 <= j < e2 implies s[j] == fpd[j - e - 1] by {
        assert(g[j - i] == s[j]);
        assert(t[j - i] == fpd[j - i - ((sign + ipd) + seq!['.']).len()]);
    }
    assert(forall|j: int| e + 1 <= j < e2 ==> crate::digits::is_digit(#[trigger] s[j]));
    lemma_digits_end_at(s, e + 1, e2);
    // at most nineteen characters of digits and point
    assert(e2 - d0 <= 19) by {
        if ip > 0 {
            lemma_pow10_add(scale, (18 - scale) as nat);
            assert(a < p * crate::value::pow10((18 - scale) as nat));
            assert(ip < crate::value::pow10((18 - scale) as nat)) by (nonlinear_arith)
                requires
                    a < p * crate::value::pow10((18 - scale) as nat),
                    ip == a / p,
                    p > 0,
                    a >= 0,
            ;
            crate::digits::lemma_dec_digits_len(ip, (18 - scale) as nat);
        }
    }
    // the digits read back as the mantissa
    assert(s.subrange(d0, e) =~= ipd);
    assert(s.subrange(e + 1, e2) =~= fpd);
    crate::infer::lemma_digits_val_concat(ipd, fpd);
    assert(digits_val(ipd + fpd) == ip * p + fp) by {
        assert(digits_val(ipd) == ip && digits_val(fpd) == fp && fpd.len() == scale);
    }
    assert(digits_val(s.subrange(d0, e) + s.subrange(e + 1, e2)) == a);
    // a well-formed decimal is already normal
    assert(crate::infer::dec_norm(man, scale) == (man, scale));
}

} // verus!

verus! {

/// Splitting a known window of text into its two parts.
proof fn lemma_sub_split(s: Seq<char>, i: int, a: Seq<char>, b: Seq<char>)
    requires
        0 <= i,
        i + a.len() + b.len() <= s.len(),
        s.subrange(i, i + a.len() + b.len()) == a + b,
    ensures
        s.subrange(i, i + a.len()) == a,
        s.subrange(i + a.len(), i + a.len() + b.len()) == b,
{
    let g = s.subrange(i, i + a.len() + b.len());
    assert(forall|j: int| 0 <= j < g.len() ==> #[trigger] g[j] == s[i + j]);
    assert(s.subrange(i, i + a.len()) =~= a) by {
        assert(forall|j: int|
            0 <= j < a.len() ==> #[trigger] s.subrange(i, i + a.len())[j] == s[i + j]);
        assert(forall|j: int| 0 <= j < a.len() ==> (a + b)[j] == a[j]);
    }
    assert forall|j: int| 0 <= j < b.len() implies s.subrange(
        i + a.len(),
        i + a.len() + b.len(),
    )[j] == b[j] by {
        assert(s.subrange(i + a.len(), i + a.len() + b.len())[j] == s[i + a.len() + j]);
        assert(g[a.len() + j] == s[i + a.len() + j]);
        assert(g[a.len() + j] == (a + b)[a.len() + j]);
        assert((a + b)[a.len() + j] == b[j]);
    }
    assert(s.subrange(i + a.len(), i + a.len() + b.len()) =~= b);
}

/// The reader accepts a written scalar followed by a comma or closing brace.
proof fn lemma_parse_scalar_complete(s: Seq<char>, i: int, v: ValueV)
    requires
        value_v_wf(v),
        0 <= i,
        i + json_scalar(v).len() < s.len(),
        s.subrange(i, i + json_scalar(v).len()) == json_scalar(v),
        s[i + json_scalar(v).len()] == ',' || s[i + json_scalar(v).len()] == '}' || s[i
            + json_scalar(v).len()] == ']',
    ensures
        p_scalar(s, i) == Some((v, i + json_scalar(v).len())),
{
    let t = json_scalar(v);
    let g = s.subrange(i, i + t.len());
    assert(forall|j: int| 0 <= j < t.len() ==> #[trigger] g[j] == s[i + j]);
    assert((',' as u32) == 44 && ('}' as u32) == 125 && (']' as u32) == 93);
    assert(('"' as u32) == 34 && ('t' as u32) == 116 && ('f' as u32) == 102);
    assert(('-' as u32) == 45 && ('.' as u32) == 46);
    let fol = s[i + t.len()];
    assert(!crate::digits::is_digit(fol) && fol != '.');
    match v {
        ValueV::Text(x) => {
            assert(g[0] == '"');
            assert(s[i] == '"');
            lemma_parse_string_complete(s, i, x);
        },
        ValueV::Int(n) => {
            let a = if n < 0 {
                -n
            } else {
                n
            };
            crate::digits::lemma_dec_digits(a);
            assert(g[0] == int_seq(n)[0]);
            if n < 0 {
                assert(s[i] == '-');
            } else {
                assert(crate::digits::is_digit(s[i]));
            }
            assert(s[i] != '"' && s[i] != 't' && s[i] != 'f');
            lemma_parse_number_int_complete(s, i, n);
        },
        ValueV::Dec { man, scale } => {
            let a = if man < 0 {
                -man
            } else {
                man
            };
            crate::value::lemma_pow10_pos(scale);
            vstd::arithmetic::div_mod::lemma_div_pos_is_pos(a, crate::value::pow10(scale));
            crate::digits::lemma_dec_digits(a / crate::value::pow10(scale));
            assert(g[0] == dec_seq(man, scale)[0]);
            if man < 0 {
                assert(s[i] == '-');
            } else {
                assert(dec_seq(man, scale)[0] == dec_digits(a / crate::value::pow10(scale))[0]);
                assert(crate::digits::is_digit(s[i]));
            }
            assert(s[i] != '"' && s[i] != 't' && s[i] != 'f');
            lemma_parse_number_dec_complete(s, i, man, scale);
        },
        ValueV::Bool(b) => {
            if b {
                assert(g[0] == 't');
                assert(s[i] == 't');
                assert(s.subrange(i, i + 4) =~= bool_chars(true));
            } else {
                assert(g[0] == 'f');
                assert(s[i] == 'f');
                assert(s.subrange(i, i + 5) =~= bool_chars(false));
            }
        },
    }
}

} // verus!

verus! {

/// The reader folds written fields back into exactly the record.
proof fn lemma_parse_fields_complete(s: Seq<char>, i: int, r: RecordV, k: int)
    requires
        rec_wf(r),
        0 <= k < r.len(),
        0 <= i,
        i + json_fields(r, k).len() + 1 <= s.len(),
        s.subrange(i, i + json_fields(r, k).len() + 1) == json_fields(r, k) + seq!['}'],
    ensures
        p_fields(s, i, r.take(k)) == Some((r, i + json_fields(r, k).len() + 1)),
    decreases r.len() - k,
{
    let key = r[k].0;
    let val = r[k].1;
    let f = json_string(key) + seq![':'] + json_scalar(val);
    let whole = json_fields(r, k);
    let tail: Seq<char> = if k == r.len() - 1 {
        seq!['}']
    } else {
        seq![','] + json_fields(r, k + 1) + seq!['}']
    };
    assert(whole + seq!['}'] =~= f + tail);
    assert((json_string(key) + seq![':']) + (json_scalar(val) + tail) =~= whole + seq!['}']);
    assert(json_string(key) + (seq![':'] + json_scalar(val) + tail) =~= whole + seq!['}']);
    lemma_sub_split(s, i, f, tail);
    lemma_sub_split(s, i, json_string(key) + seq![':'], json_scalar(val) + tail);
    lemma_sub_split(s, i, json_string(key), seq![':'] + json_scalar(val) + tail);
    let j = i + json_string(key).len();
    lemma_parse_string_complete(s, i, key);
    assert(s[j] == ':') by {
        let w = s.subrange(j, j + (seq![':'] + json_scalar(val) + tail).len());
        assert(w[0] == s[j]);
        assert(w[0] == ':');
    }
    let j1 = j + 1;
    assert(s.subrange(j1, j1 + (json_scalar(val) + tail).len()) == json_scalar(val) + tail) by {
        assert(seq![':'] + (json_scalar(val) + tail) =~= seq![':'] + json_scalar(val) + tail);
        lemma_sub_split(s, j, seq![':'], json_scalar(val) + tail);
    }
    lemma_sub_split(s, j1, json_scalar(val), tail);
    let j2 = j1 + json_scalar(val).len();
    assert(s[j2] == tail[0]) by {
        let w = s.subrange(j2, j2 + tail.len());
        assert(w[0] == s[j2]);
    }
    assert(value_v_wf(val));
    lemma_parse_scalar_complete(s, i + json_string(key).len() + 1, val);
    // the key is new, so the fold appends it
    assert(!crate::record::rec_has(r.take(k), key)) by {
        if crate::record::rec_has(r.take(k), key) {
            let q = choose|q: int|
                0 <= q < r.take(k).len() && (#[trigger] r.take(k)[q]).0 == key;
            assert(r[q].0 == r[k].0);
        }
    }
    crate::record::lemma_rec_first(r.take(k), key);
    assert(crate::record::rec_set(r.take(k), key, val) =~= r.take(k + 1));
    if k == r.len() - 1 {
        assert(s[j2] == '}');
        assert(s[j2] != ',');
        assert(r.take(k + 1) =~= r);
        assert(p_fields(s, i, r.take(k)) == Some((r, j2 + 1)));
    } else {
        assert(s[j2] == ',');
        assert(seq![','] + (json_fields(r, k + 1) + seq!['}']) =~= tail);
        lemma_sub_split(s, j2, seq![','], json_fields(r, k + 1) + seq!['}']);
        lemma_parse_fields_complete(s, j2 + 1, r, k + 1);
    }
}

/// The reader accepts a written record object.
proof fn lemma_parse_record_complete(s: Seq<char>, i: int, r: RecordV)
    requires
        rec_wf(r),
        0 <= i,
        i + json_record(r).len() <= s.len(),
        s.subrange(i, i + json_record(r).len()) == json_record(r),
    ensures
        p_record(s, i) == Some((r, i + json_record(r).len())),
{
    let t = json_record(r);
    let g = s.subrange(i, i + t.len());
    assert(forall|j: int| 0 <= j < t.len() ==> #[trigger] g[j] == s[i + j]);
    assert(g[0] == '{');
    assert(s[i] == '{');
    if r.len() == 0 {
        assert(json_fields(r, 0) =~= Seq::<char>::empty());
        assert(t =~= seq!['{', '}']);
        assert(g[1] == '}');
        assert(s[i + 1] == '}');
        assert(r =~= Seq::<(Seq<char>, crate::value::ValueV)>::empty());
    } else {
        assert(g[1] == json_fields(r, 0)[0]);
        assert(json_fields(r, 0)[0] == json_string(r[0].0)[0]) by {
            assert(json_fields(r, 0)[0] == (json_string(r[0].0) + seq![':'] + json_scalar(
                r[0].1,
            ))[0]);
        }
        assert(s[i + 1] == '"');
        assert(s[i + 1] != '}');
        assert(s.subrange(i + 1, i + 1 + json_fields(r, 0).len() + 1) == json_fields(r, 0)
            + seq!['}']) by {
            assert(seq!['{'] + (json_fields(r, 0) + seq!['}']) =~= t);
            lemma_sub_split(s, i, seq!['{'], json_fields(r, 0) + seq!['}']);
        }
        lemma_parse_fields_complete(s, i + 1, r, 0);
        assert(r.take(0) =~= Seq::<(Seq<char>, crate::value::ValueV)>::empty());
    }
}

} // verus!

verus! {

/// The reader folds written attribute names back into exactly the list.
proof fn lemma_parse_attrs_complete(s: Seq<char>, i: int, ats: Seq<Seq<char>>, k: int)
    requires
        forall|p: int, q: int| 0 <= p < q < ats.len() ==> ats[p] != ats[q],
        0 <= k < ats.len(),
        0 <= i,
        i + json_attrs(ats, k).len() + 1 <= s.len(),
        s.subrange(i, i + json_attrs(ats, k).len() + 1) == json_attrs(ats, k) + seq![']'],
    ensures
        p_attrs(s, i, ats.take(k)) == Some((ats, i + json_attrs(ats, k).len() + 1)),
    decreases ats.len() - k,
{
    let a = ats[k];
    let whole = json_attrs(ats, k);
    let tail: Seq<char> = if k == ats.len() - 1 {
        seq![']']
    } else {
        seq![','] + json_attrs(ats, k + 1) + seq![']']
    };
    assert(whole + seq![']'] =~= json_string(a) + tail);
    lemma_sub_split(s, i, json_string(a), tail);
    lemma_parse_string_complete(s, i, a);
    let j = i + json_string(a).len();
    assert(s[j] == tail[0]) by {
        let w = s.subrange(j, j + tail.len());
        assert(w[0] == s[j]);
    }
    assert(!crate::store::attrs_has(ats.take(k), a)) by {
        if crate::store::attrs_has(ats.take(k), a) {
            let q = choose|q: int| 0 <= q < ats.take(k).len() && ats.take(k)[q] == a;
            assert(ats[q] == ats[k]);
        }
    }
    assert(ats.take(k).push(a) =~= ats.take(k + 1));
    if k == ats.len() - 1 {
        assert(s[j] == ']');
        assert(s[j] != ',');
        assert(ats.take(k + 1) =~= ats);
    } else {
        assert(s[j] == ',');
        assert(seq![','] + (json_attrs(ats, k + 1) + seq![']']) =~= tail);
        lemma_sub_split(s, j, seq![','], json_attrs(ats, k + 1) + seq![']']);
        lemma_parse_attrs_complete(s, j + 1, ats, k + 1);
    }
}

/// The reader accepts a written record-id key.
proof fn lemma_parse_key_complete(s: Seq<char>, i: int, id: int)
    requires
        i64::MIN <= id <= i64::MAX,
        0 <= i,
        i + json_string(int_seq(id)).len() <= s.len(),
        s.subrange(i, i + json_string(int_seq(id)).len()) == json_string(int_seq(id)),
    ensures
        p_key_int(s, i) == Some((id, i + json_string(int_seq(id)).len())),
{
    lemma_int_seq_plain(id);
    let t = json_string(int_seq(id));
    assert(t =~= seq!['"'] + int_seq(id) + seq!['"']);
    let g = s.subrange(i, i + t.len());
    assert(forall|j: int| 0 <= j < t.len() ==> #[trigger] g[j] == s[i + j]);
    assert(g[0] == '"');
    assert(s[i] == '"');
    assert(seq!['"'] + (int_seq(id) + seq!['"']) =~= t);
    lemma_sub_split(s, i, seq!['"'], int_seq(id) + seq!['"']);
    lemma_sub_split(s, i + 1, int_seq(id), seq!['"']);
    let e = i + 1 + int_seq(id).len();
    assert(s[e] == '"') by {
        let w = s.subrange(e, e + 1);
        assert(w[0] == s[e]);
        assert(w[0] == '"');
    }
    assert(('"' as u32) == 34);
    assert(!crate::digits::is_digit(s[e]));
    lemma_parse_int_complete(s, i + 1, id);
}

/// The reader folds written rows back into exactly the row list.
proof fn lemma_parse_rows_complete(s: Seq<char>, i: int, rows: Seq<(int, RecordV)>, k: int)
    requires
        forall|p: int, q: int|
            0 <= p < q < rows.len() ==> (#[trigger] rows[p]).0 != (#[trigger] rows[q]).0,
        forall|p: int| 0 <= p < rows.len() ==> rec_wf((#[trigger] rows[p]).1),
        forall|p: int|
            0 <= p < rows.len() ==> i64::MIN <= (#[trigger] rows[p]).0 <= i64::MAX,
        0 <= k < rows.len(),
        0 <= i,
        i + json_rows(rows, k).len() + 1 <= s.len(),
        s.subrange(i, i + json_rows(rows, k).len() + 1) == json_rows(rows, k) + seq!['}'],
    ensures
        p_rows(s, i, rows.take(k)) == Some((rows, i + json_rows(rows, k).len() + 1)),
    decreases rows.len() - k,
{
    let id = rows[k].0;
    let rec = rows[k].1;
    let keytext = json_string(int_seq(id));
    let f = keytext + seq![':'] + json_record(rec);
    let whole = json_rows(rows, k);
    let tail: Seq<char> = if k == rows.len() - 1 {
        seq!['}']
    } else {
        seq![','] + json_rows(rows, k + 1) + seq!['}']
    };
    assert(whole + seq!['}'] =~= f + tail);
    assert((keytext + seq![':']) + (json_record(rec) + tail) =~= whole + seq!['}']);
    assert(keytext + (seq![':'] + json_record(rec) + tail) =~= whole + seq!['}']);
    lemma_sub_split(s, i, keytext + seq![':'], json_record(rec) + tail);
    lemma_sub_split(s, i, keytext, seq![':'] + json_record(rec) + tail);
    lemma_parse_key_complete(s, i, id);
    let j = i + keytext.len();
    assert(s[j] == ':') by {
        let w = s.subrange(j, j + (seq![':'] + json_record(rec) + tail).len());
        assert(w[0] == s[j]);
        assert(w[0] == ':');
    }
    let j1 = j + 1;
    assert(s.subrange(j1, j1 + (json_record(rec) + tail).len()) == json_record(rec) + tail) by {
        assert(seq![':'] + (json_record(rec) + tail) =~= seq![':'] + json_record(rec) + tail);
        lemma_sub_split(s, j, seq![':'], json_record(rec) + tail);
    }
    lemma_sub_split(s, j1, json_record(rec), tail);
    lemma_parse_record_complete(s, j1, rec);
    let j2 = j1 + json_record(rec).len();
    assert(s[j2] == tail[0]) by {
        let w = s.subrange(j2, j2 + tail.len());
        assert(w[0] == s[j2]);
    }
    assert(!crate::store::rows_has(rows.take(k), id)) by {
        if crate::store::rows_has(rows.take(k), id) {
            let q = choose|q: int|
                0 <= q < rows.take(k).len() && (#[trigger] rows.take(k)[q]).0 == id;
            assert(rows[q].0 == rows[k].0);
        }
    }
    crate::store::lemma_rows_first(rows.take(k), id);
    assert(crate::store::rows_set(rows.take(k), id, rec) =~= rows.take(k + 1));
    if k == rows.len() - 1 {
        assert(s[j2] == '}');
        assert(s[j2] != ',');
        assert(rows.take(k + 1) =~= rows);
    } else {
        assert(s[j2] == ',');
        assert(seq![','] + (json_rows(rows, k + 1) + seq!['}']) =~= tail);
        lemma_sub_split(s, j2, seq![','], json_rows(rows, k + 1) + seq!['}']);
        lemma_parse_rows_complete(s, j2 + 1, rows, k + 1);
    }
}

} // verus!

verus! {

/// The reader accepts a written store object and returns the store exactly.
#[verifier::rlimit(80)]
proof fn lemma_parse_store_complete(s: Seq<char>, i: int, sv: StoreV)
    requires
        store_wf(sv),
        0 <= i,
        i + json_store(sv).len() <= s.len(),
        s.subrange(i, i + json_store(sv).len()) == json_store(sv),
    ensures
        p_store(s, i) == Some((sv, i + json_store(sv).len())),
{
    let p1 = seq!['{', '"', 'i', 'd', '"', ':'];
    let p2 = int_seq(sv.next_id);
    let p3 = seq![',', '"', 'n', 'a', 'm', 'e', '"', ':'];
    let p4 = json_string(sv.name);
    let p5 = seq![',', '"', 'a', 't', 't', 'r', 'i', 'b', 'u', 't', 'e', 's', '"', ':', '['];
    let p6 = json_attrs(sv.attributes, 0);
    let p7 = seq![']', ',', '"', 'v', 'a', 'l', 'u', 'e', 's', '"', ':', '{'];
    let p7b = seq![',', '"', 'v', 'a', 'l', 'u', 'e', 's', '"', ':', '{'];
    let p8 = json_rows(sv.records, 0);
    let t = json_store(sv);
    assert(t == p1 + p2 + p3 + p4 + p5 + p6 + p7 + p8 + seq!['}', '}']);
    // peel the pieces off one by one
    assert(p1 + (p2 + p3 + p4 + p5 + p6 + p7 + p8 + seq!['}', '}']) =~= t);
    lemma_sub_split(s, i, p1, p2 + p3 + p4 + p5 + p6 + p7 + p8 + seq!['}', '}']);
    let i2 = i + 6;
    assert(p2 + (p3 + p4 + p5 + p6 + p7 + p8 + seq!['}', '}']) =~= p2 + p3 + p4 + p5 + p6 + p7
        + p8 + seq!['}', '}']);
    lemma_sub_split(s, i2, p2, p3 + p4 + p5 + p6 + p7 + p8 + seq!['}', '}']);
    let i3 = i2 + p2.len();
    assert(s[i3] == ',') by {
        let w = s.subrange(i3, i3 + (p3 + p4 + p5 + p6 + p7 + p8 + seq!['}', '}']).len());
        assert(w[0] == s[i3]);
        assert(w[0] == (p3 + p4 + p5 + p6 + p7 + p8 + seq!['}', '}'])[0]);
    }
    assert((',' as u32) == 44);
    assert(!crate::digits::is_digit(s[i3]));
    lemma_parse_int_complete(s, i2, sv.next_id);
    assert(p3 + (p4 + p5 + p6 + p7 + p8 + seq!['}', '}']) =~= p3 + p4 + p5 + p6 + p7 + p8
        + seq!['}', '}']);
    lemma_sub_split(s, i3, p3, p4 + p5 + p6 + p7 + p8 + seq!['}', '}']);
    let i4 = i3 + 8;
    assert(p4 + (p5 + p6 + p7 + p8 + seq!['}', '}']) =~= p4 + p5 + p6 + p7 + p8 + seq![
        '}', '}',
    ]);
    lemma_sub_split(s, i4, p4, p5 + p6 + p7 + p8 + seq!['}', '}']);
    lemma_parse_string_complete(s, i4, sv.name);
    let i5 = i4 + p4.len();
    assert(p5 + (p6 + p7 + p8 + seq!['}', '}']) =~= p5 + p6 + p7 + p8 + seq!['}', '}']);
    lemma_sub_split(s, i5, p5, p6 + p7 + p8 + seq!['}', '}']);
    let i6 = i5 + 15;
    // the attribute array, whose closing bracket is the head of `p7`
    assert((p6 + seq![']']) + (p7b + p8 + seq!['}', '}']) =~= p6 + p7 + p8 + seq!['}', '}']);
    lemma_sub_split(s, i6, p6 + seq![']'], p7b + p8 + seq!['}', '}']);
    let i7 = i6 + p6.len() + 1;
    if sv.attributes.len() == 0 {
        assert(p6 =~= Seq::<char>::empty());
        assert(s[i6] == ']') by {
            let w = s.subrange(i6, i6 + (p6 + seq![']']).len());
            assert(w[0] == s[i6]);
            assert(w[0] == (p6 + seq![']'])[0]);
        }
        assert(sv.attributes =~= Seq::<Seq<char>>::empty());
    } else {
        assert(s[i6] == '"') by {
            let w = s.subrange(i6, i6 + (p6 + seq![']']).len());
            assert(w[0] == s[i6]);
            assert(w[0] == p6[0]);
            assert(p6[0] == json_string(sv.attributes[0])[0]);
        }
        assert((']' as u32) == 93 && ('"' as u32) == 34);
        assert(s[i6] != ']');
        lemma_parse_attrs_complete(s, i6, sv.attributes, 0);
        assert(sv.attributes.take(0) =~= Seq::<Seq<char>>::empty());
    }
    assert(p7b + (p8 + seq!['}', '}']) =~= p7b + p8 + seq!['}', '}']);
    lemma_sub_split(s, i7, p7b, p8 + seq!['}', '}']);
    let i8 = i7 + 11;
    assert((p8 + seq!['}']) + seq!['}'] =~= p8 + seq!['}', '}']);
    lemma_sub_split(s, i8, p8 + seq!['}'], seq!['}']);
    let i9 = i8 + p8.len() + 1;
    if sv.records.len() == 0 {
        assert(p8 =~= Seq::<char>::empty());
        assert(s[i8] == '}') by {
            let w = s.subrange(i8, i8 + (p8 + seq!['}']).len());
            assert(w[0] == s[i8]);
            assert(w[0] == (p8 + seq!['}'])[0]);
        }
        assert(sv.records =~= Seq::<(int, RecordV)>::empty());
    } else {
        assert(s[i8] == '"') by {
            let w = s.subrange(i8, i8 + (p8 + seq!['}']).len());
            assert(w[0] == s[i8]);
            assert(w[0] == p8[0]);
            assert(p8[0] == json_string(int_seq(sv.records[0].0))[0]) by {
                assert(p8[0] == (json_string(int_seq(sv.records[0].0)) + seq![':'] + json_record(
                    sv.records[0].1,
                ))[0]);
            }
        }
        assert(('}' as u32) == 125 && ('"' as u32) == 34);
        assert(s[i8] != '}');
        lemma_parse_rows_complete(s, i8, sv.records, 0);
        assert(sv.records.take(0) =~= Seq::<(int, RecordV)>::empty());
    }
    assert(s[i9] == '}') by {
        let w = s.subrange(i9, i9 + 1);
        assert(w[0] == s[i9]);
        assert(w[0] == '}');
    }
    assert(ids_below(sv.records, sv.next_id));
    assert(i9 + 1 == i + t.len());
}

/// The reader folds written store entries back into exactly the entry list.
proof fn lemma_parse_stores_complete(s: Seq<char>, i: int, es: Seq<(Seq<char>, StoreV)>, k: int)
    requires
        forall|p: int, q: int|
            0 <= p < q < es.len() ==> (#[trigger] es[p]).0 != (#[trigger] es[q]).0,
        forall|p: int| 0 <= p < es.len() ==> store_wf((#[trigger] es[p]).1),
        0 <= k < es.len(),
        0 <= i,
        i + json_stores(es, k).len() + 1 <= s.len(),
        s.subrange(i, i + json_stores(es, k).len() + 1) == json_stores(es, k) + seq!['}'],
    ensures
        p_stores(s, i, es.take(k)) == Some((es, i + json_stores(es, k).len() + 1)),
    decreases es.len() - k,
{
    let nm = es[k].0;
    let sv = es[k].1;
    let f = json_string(nm) + seq![':'] + json_store(sv);
    let whole = json_stores(es, k);
    let tail: Seq<char> = if k == es.len() - 1 {
        seq!['}']
    } else {
        seq![','] + json_stores(es, k + 1) + seq!['}']
    };
    assert(whole + seq!['}'] =~= f + tail);
    assert((json_string(nm) + seq![':']) + (json_store(sv) + tail) =~= whole + seq!['}']);
    assert(json_string(nm) + (seq![':'] + json_store(sv) + tail) =~= whole + seq!['}']);
    lemma_sub_split(s, i, json_string(nm) + seq![':'], json_store(sv) + tail);
    lemma_sub_split(s, i, json_string(nm), seq![':'] + json_store(sv) + tail);
    lemma_parse_string_complete(s, i, nm);
    let j = i + json_string(nm).len();
    assert(s[j] == ':') by {
        let w = s.subrange(j, j + (seq![':'] + json_store(sv) + tail).len());
        assert(w[0] == s[j]);
        assert(w[0] == ':');
    }
    let j1 = j + 1;
    assert(s.subrange(j1, j1 + (json_store(sv) + tail).len()) == json_store(sv) + tail) by {
        assert(seq![':'] + (json_store(sv) + tail) =~= seq![':'] + json_store(sv) + tail);
        lemma_sub_split(s, j, seq![':'], json_store(sv) + tail);
    }
    lemma_sub_split(s, j1, json_store(sv), tail);
    lemma_parse_store_complete(s, j1, sv);
    let j2 = j1 + json_store(sv).len();
    assert(s[j2] == tail[0]) by {
        let w = s.subrange(j2, j2 + tail.len());
        assert(w[0] == s[j2]);
    }
    assert(!crate::database::stores_has(es.take(k), nm)) by {
        if crate::database::stores_has(es.take(k), nm) {
            let q = choose|q: int|
                0 <= q < es.take(k).len() && (#[trigger] es.take(k)[q]).0 == nm;
            assert(es[q].0 == es[k].0);
        }
    }
    crate::database::lemma_stores_first(es.take(k), nm);
    assert(crate::database::stores_set(es.take(k), nm, sv) =~= es.take(k + 1));
    if k == es.len() - 1 {
        assert(s[j2] == '}');
        assert(s[j2] != ',');
        assert(es.take(k + 1) =~= es);
    } else {
        assert(s[j2] == ',');
        assert(seq![','] + (json_stores(es, k + 1) + seq!['}']) =~= tail);
        lemma_sub_split(s, j2, seq![','], json_stores(es, k + 1) + seq!['}']);
        lemma_parse_stores_complete(s, j2 + 1, es, k + 1);
    }
}

/// Law: persistence round-trips. Reading back the written stores map of any
/// well-formed database yields exactly the same stores: the same names,
/// id counters, attribute sets, record ids and record contents.
pub proof fn lemma_json_round_trip(es: Seq<(Seq<char>, StoreV)>)
    requires
        forall|p: int, q: int|
            0 <= p < q < es.len() ==> (#[trigger] es[p]).0 != (#[trigger] es[q]).0,
        forall|p: int| 0 <= p < es.len() ==> store_wf((#[trigger] es[p]).1),
    ensures
        p_db(json_db(es)) == Some(es),
{
    let t = json_db(es);
    assert(t == seq!['{'] + json_stores(es, 0) + seq!['}']);
    assert(t[0] == '{');
    if es.len() == 0 {
        assert(json_stores(es, 0) =~= Seq::<char>::empty());
        assert(t =~= seq!['{', '}']);
        assert(es =~= Seq::<(Seq<char>, StoreV)>::empty());
    } else {
        assert(t.len() >= 2);
        assert(json_stores(es, 0).len() > 0) by {
            assert(json_stores(es, 0) == json_string(es[0].0) + seq![':'] + json_store(es[0].1)
                + (if es.len() == 1 {
                Seq::<char>::empty()
            } else {
                seq![','] + json_stores(es, 1)
            })) by {
                if es.len() == 1 {
                    assert(json_stores(es, 0) =~= json_string(es[0].0) + seq![':'] + json_store(
                        es[0].1,
                    ) + Seq::<char>::empty());
                }
            }
        }
        if t.len() == 2 {
            assert(false);
        }
        assert(seq!['{'] + (json_stores(es, 0) + seq!['}']) =~= t);
        assert(t.subrange(0, t.len() as int) =~= t);
        lemma_sub_split(t, 0, seq!['{'], json_stores(es, 0) + seq!['}']);
        assert(es.take(0) =~= Seq::<(Seq<char>, StoreV)>::empty());
        lemma_parse_stores_complete(t, 1, es, 0);
    }
}

} // verus!
