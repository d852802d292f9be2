//! SQL script generation: rendering a store as `CREATE TABLE` / `INSERT`
//! statements and a database as a full create/populate/drop script. Pure
//! string generation; writing the script to disk is the caller's business.

use vstd::prelude::*;
use crate::Error;
use crate::database::Database;
use crate::digits::{int_seq, push_int, dec_seq, push_dec};
use crate::record::{Record, RecordV, rec_get, rec_wf, lemma_rec_first};
use crate::store::{Store, StoreV, names_view, store_wf};
use crate::value::{lex_cmp_v, str_cmp, value_v_wf, Value, ValueOrder, ValueV};

verus! {

/// Text with every single quote doubled, as SQL string syntax asks.
pub open spec fn escape_sq(s: Seq<char>) -> Seq<char>
    decreases s.len(),
{
    if s.len() == 0 {
        s
    } else {
        escape_sq(s.drop_last()) + (if s.last() == '\'' {
            seq!['\'', '\'']
        } else {
            seq![s.last()]
        })
    }
}

/// The display text of a value: decimal digits for numbers, `true`/`false`
/// for booleans, the text itself for texts.
pub open spec fn val_text(v: ValueV) -> Seq<char> {
    match v {
        ValueV::Int(i) => int_seq(i),
        ValueV::Dec { man, scale } => dec_seq(man, scale),
        ValueV::Bool(b) => if b {
            "true"@
        } else {
            "false"@
        },
        ValueV::Text(t) => t,
    }
}

/// A value as a single-quoted SQL literal: text is escaped, every other
/// kind is rendered by its display text and quoted unescaped.
pub open spec fn quoted_val(v: ValueV) -> Seq<char> {
    match v {
        ValueV::Text(t) => seq!['\''] + escape_sq(t) + seq!['\''],
        _ => seq!['\''] + val_text(v) + seq!['\''],
    }
}

/// Pieces joined with a comma and a space.
pub open spec fn join_comma(parts: Seq<Seq<char>>) -> Seq<char>
    decreases parts.len(),
{
    if parts.len() == 0 {
        Seq::empty()
    } else if parts.len() == 1 {
        parts[0]
    } else {
        join_comma(parts.drop_last()) + ", "@ + parts.last()
    }
}

/// `a` sorts strictly before `b`, by code point.
pub open spec fn name_before(a: Seq<char>, b: Seq<char>) -> bool {
    lex_cmp_v(a, b) == ValueOrder::Less
}

/// Stable insertion of a name from the right.
pub open spec fn insert_name_spec(acc: Seq<Seq<char>>, x: Seq<char>) -> Seq<Seq<char>>
    decreases acc.len(),
{
    if acc.len() == 0 {
        seq![x]
    } else if name_before(x, acc.last()) {
        insert_name_spec(acc.drop_last(), x).push(acc.last())
    } else {
        acc.push(x)
    }
}

/// The names sorted lexicographically, by insertion sort.
pub open spec fn sort_names_spec(s: Seq<Seq<char>>) -> Seq<Seq<char>>
    decreases s.len(),
{
    if s.len() == 0 {
        s
    } else {
        insert_name_spec(sort_names_spec(s.drop_last()), s.last())
    }
}

proof fn lemma_insert_name_at(acc: Seq<Seq<char>>, x: Seq<char>, p: int)
    requires
        0 <= p <= acc.len(),
        forall|j: int| p <= j < acc.len() ==> name_before(x, #[trigger] acc[j]),
        p > 0 ==> !name_before(x, acc[p - 1]),
    ensures
        insert_name_spec(acc, x) == acc.take(p) + seq![x] + acc.skip(p),
    decreases acc.len(),
{
    if p == acc.len() {
        if acc.len() == 0 {
            assert(insert_name_spec(acc, x) =~= acc.take(p) + seq![x] + acc.skip(p));
        } else {
            assert(!name_before(x, acc[acc.len() - 1]));
            assert(acc.push(x) =~= acc.take(p) + seq![x] + acc.skip(p));
        }
    } else {
        assert(name_before(x, acc[acc.len() - 1]));
        let dl = acc.drop_last();
        assert(forall|j: int| p <= j < dl.len() ==> name_before(x, #[trigger] dl[j]));
        if p > 0 {
            assert(dl[p - 1] == acc[p - 1]);
        }
        lemma_insert_name_at(dl, x, p);
        assert((dl.take(p) + seq![x] + dl.skip(p)).push(acc.last()) =~= acc.take(p) + seq![x]
            + acc.skip(p));
    }
}

/// Sorting keeps exactly the original names.
pub proof fn lemma_sort_names_membership(s: Seq<Seq<char>>, x: Seq<char>)
    ensures
        sort_names_spec(s).contains(x) <==> s.contains(x),
        sort_names_spec(s).len() == s.len(),
    decreases s.len(),
{
    if s.len() > 0 {
        lemma_sort_names_membership(s.drop_last(), x);
        lemma_insert_membership(sort_names_spec(s.drop_last()), s.last(), x);
        if s.contains(x) {
            let i = choose|i: int| 0 <= i < s.len() && s[i] == x;
            if i < s.len() - 1 {
                assert(s.drop_last()[i] == x);
            }
        }
        if s.drop_last().contains(x) {
            let i = choose|i: int| 0 <= i < s.drop_last().len() && s.drop_last()[i] == x;
            assert(s[i] == x);
        }
        if s.last() == x {
            assert(s[s.len() - 1] == x);
        }
    }
}

proof fn lemma_insert_membership(acc: Seq<Seq<char>>, y: Seq<char>, x: Seq<char>)
    ensures
        insert_name_spec(acc, y).contains(x) <==> acc.contains(x) || x == y,
        insert_name_spec(acc, y).len() == acc.len() + 1,
    decreases acc.len(),
{
    if acc.len() == 0 {
        assert(insert_name_spec(acc, y)[0] == y);
    } else if name_before(y, acc.last()) {
        lemma_insert_membership(acc.drop_last(), y, x);
        let ins = insert_name_spec(acc.drop_last(), y);
        assert(insert_name_spec(acc, y) == ins.push(acc.last()));
        if insert_name_spec(acc, y).contains(x) {
            let i = choose|i: int|
                0 <= i < insert_name_spec(acc, y).len() && insert_name_spec(acc, y)[i] == x;
            if i < ins.len() {
                assert(ins[i] == x);
            } else {
                assert(x == acc.last());
                assert(acc[acc.len() - 1] == x);
            }
        }
        if acc.contains(x) {
            let i = choose|i: int| 0 <= i < acc.len() && acc[i] == x;
            if i < acc.len() - 1 {
                assert(acc.drop_last()[i] == x);
                assert(ins.contains(x));
                let j = choose|j: int| 0 <= j < ins.len() && ins[j] == x;
                assert(insert_name_spec(acc, y)[j] == x);
            } else {
                assert(insert_name_spec(acc, y)[ins.len() as int] == x);
            }
        }
        if x == y {
            assert(ins.contains(x));
            let j = choose|j: int| 0 <= j < ins.len() && ins[j] == x;
            assert(insert_name_spec(acc, y)[j] == x);
        }
    } else {
        assert(insert_name_spec(acc, y) == acc.push(y));
        if acc.contains(x) {
            let i = choose|i: int| 0 <= i < acc.len() && acc[i] == x;
            assert(acc.push(y)[i] == x);
        }
        if x == y {
            assert(acc.push(y)[acc.len() as int] == x);
        }
        if acc.push(y).contains(x) {
            let i = choose|i: int| 0 <= i < acc.push(y).len() && acc.push(y)[i] == x;
            if i < acc.len() {
                assert(acc[i] == x);
            }
        }
    }
}

/// Sorts names lexicographically with a stable insertion sort.
pub fn sort_names(v: &Vec<String>) -> (r: Vec<String>)
    ensures
        names_view(r@) == sort_names_spec(names_view(v@)),
{
    let ghost s = names_view(v@);
    let mut out: Vec<String> = Vec::new();
    proof {
        assert(s.take(0) =~= Seq::<Seq<char>>::empty());
        assert(names_view(out@) =~= sort_names_spec(s.take(0)));
    }
    let n = v.len();
    let mut i: usize = 0;
    while i < n
        invariant
            i <= n,
            n == s.len(),
            s == names_view(v@),
            names_view(out@) == sort_names_spec(s.take(i as int)),
        decreases n - i,
    {
        let ghost acc = names_view(out@);
        let x = v[i].clone();
        proof {
            assert(x@ == s[i as int]);
        }
        let mut p: usize = out.len();
        while p > 0 && matches!(str_cmp(x.as_str(), out[p - 1].as_str()), ValueOrder::Less)
            invariant
                p <= out@.len(),
                acc == names_view(out@),
                x@ == s[i as int],
                forall|j: int| p <= j < acc.len() ==> name_before(x@, #[trigger] acc[j]),
            decreases p,
        {
            proof {
                assert(acc[p - 1] == out@[p - 1]@);
            }
            p = p - 1;
        }
        proof {
            if p > 0 {
                assert(acc[p - 1] == out@[p - 1]@);
            }
            lemma_insert_name_at(acc, x@, p as int);
        }
        let ghost out0 = out@;
        out.insert(p, x);
        proof {
            out0.insert_ensures(p as int, out@[p as int]);
            assert(names_view(out@) =~= acc.take(p as int) + seq![s[i as int]] + acc.skip(
                p as int,
            ));
            assert(s.take(i + 1).drop_last() =~= s.take(i as int));
            assert(s.take(i + 1).last() == s[i as int]);
        }
        i = i + 1;
    }
    proof {
        assert(s.take(n as int) =~= s);
    }
    out
}

/// Appends `s` with single quotes doubled.
pub fn push_escaped_sq(out: &mut String, s: &str)
    ensures
        final(out)@ == old(out)@ + escape_sq(s@),
{
    let n = s.unicode_len();
    let mut i: usize = 0;
    while i < n
        invariant
            i <= n,
            n == s@.len(),
            out@ == old(out)@ + escape_sq(s@.take(i as int)),
        decreases n - i,
    {
        let ghost pre = out@;
        let c = s.get_char(i);
        if (c as u32) == 39 {
            out.append("''");
            proof {
                reveal_strlit("''");
                assert(('\'' as u32) == 39);
                vstd::utf8::char_u32_cast(c, c as u32);
                assert(c == '\'');
                assert(s@.take(i + 1).drop_last() =~= s@.take(i as int));
                assert(s@.take(i + 1).last() == s@[i as int]);
                assert(out@ =~= old(out)@ + escape_sq(s@.take(i + 1)));
            }
        } else {
            let piece = s.substring_char(i, i + 1);
            out.append(piece);
            proof {
                assert(('\'' as u32) == 39);
                assert(s@.take(i + 1).drop_last() =~= s@.take(i as int));
                assert(s@.take(i + 1).last() == s@[i as int]);
                assert(piece@ =~= seq![s@[i as int]]);
                assert(out@ =~= old(out)@ + escape_sq(s@.take(i + 1)));
            }
        }
        i = i + 1;
    }
    proof {
        assert(s@.take(n as int) =~= s@);
    }
}

/// Appends the display text of `v`.
pub fn push_val_text(out: &mut String, v: &Value)
    requires
        v.wf(),
    ensures
        final(out)@ == old(out)@ + val_text(v@),
{
    match v {
        Value::Int(i) => push_int(out, *i),
        Value::Dec(d) => push_dec(out, d.man, d.scale),
        Value::Bool(b) => {
            if *b {
                out.append("true");
            } else {
                out.append("false");
            }
        },
        Value::Text(s) => out.append(s.as_str()),
    }
}

/// Appends `v` as a single-quoted SQL literal.
pub fn push_quoted_val(out: &mut String, v: &Value)
    requires
        v.wf(),
    ensures
        final(out)@ == old(out)@ + quoted_val(v@),
{
    out.append("'");
    match v {
        Value::Text(s) => push_escaped_sq(out, s.as_str()),
        _ => push_val_text(out, v),
    }
    out.append("'");
    proof {
        reveal_strlit("'");
        assert("'"@ =~= seq!['\'']);
        assert(final(out)@ =~= old(out)@ + quoted_val(v@));
    }
}

} // verus!

verus! {

/// The column declarations: each attribute declared `TEXT`.
pub open spec fn cols_of(sorted: Seq<Seq<char>>) -> Seq<Seq<char>> {
    Seq::new(sorted.len(), |i: int| sorted[i] + " TEXT"@)
}

/// The `CREATE TABLE` statement for a store's attributes: an integer primary
/// key `id`, then every attribute as a `TEXT` column, sorted by name.
pub open spec fn create_table_sql(table: Seq<char>, attrs: Seq<Seq<char>>) -> Seq<char> {
    "CREATE TABLE "@ + table + " (id INTEGER PRIMARY KEY, "@ + join_comma(
        cols_of(sort_names_spec(attrs)),
    ) + ");"@
}

/// The field names of a record, in field order.
pub open spec fn rec_names(r: RecordV) -> Seq<Seq<char>> {
    Seq::new(r.len(), |i: int| r[i].0)
}

/// The record's values as quoted literals, in the order of `sorted`.
pub open spec fn vals_of(r: RecordV, sorted: Seq<Seq<char>>) -> Seq<Seq<char>> {
    Seq::new(
        sorted.len(),
        |i: int|
            match rec_get(r, sorted[i]) {
                Some(v) => quoted_val(v),
                None => Seq::empty(),
            },
    )
}

/// The `INSERT` statement for one record: its columns sorted by name, every
/// value single-quoted.
pub open spec fn insert_stmt(table: Seq<char>, id: int, r: RecordV) -> Seq<char> {
    let sorted = sort_names_spec(rec_names(r));
    "INSERT INTO "@ + table + " (id, "@ + join_comma(sorted) + ") VALUES ("@ + int_seq(id)
        + ", "@ + join_comma(vals_of(r, sorted)) + ");"@
}

/// The `INSERT` statements of all rows, in row order.
pub open spec fn insert_stmts(table: Seq<char>, rows: Seq<(int, RecordV)>) -> Seq<Seq<char>> {
    Seq::new(rows.len(), |i: int| insert_stmt(table, rows[i].0, rows[i].1))
}

/// The `SELECT` statement: all columns, or the caller's, in caller order.
pub open spec fn select_sql(table: Seq<char>, cols: Option<Seq<Seq<char>>>) -> Seq<char> {
    match cols {
        None => "SELECT * FROM "@ + table + ";"@,
        Some(cs) => "SELECT "@ + join_comma(cs) + " FROM "@ + table + ";"@,
    }
}

/// The `DELETE` statement with an opaque, unvalidated condition.
pub open spec fn delete_sql(table: Seq<char>, cond: Seq<char>) -> Seq<char> {
    "DELETE FROM "@ + table + " WHERE "@ + cond + ";"@
}

/// One `SET` clause: text values quoted and escaped, other kinds rendered
/// by their display text, unquoted.
pub open spec fn set_part(p: (Seq<char>, ValueV)) -> Seq<char> {
    p.0 + " = "@ + (match p.1 {
        ValueV::Text(t) => seq!['\''] + escape_sq(t) + seq!['\''],
        v => val_text(v),
    })
}

/// The `UPDATE` statement: clauses in the update record's field order.
pub open spec fn update_stmt(table: Seq<char>, id: int, r: RecordV) -> Seq<char> {
    "UPDATE "@ + table + " SET "@ + join_comma(Seq::new(r.len(), |i: int| set_part(r[i])))
        + " WHERE id = "@ + int_seq(id) + ";"@
}

/// View of a borrowed-string vector as character sequences.
pub open spec fn strs_view(v: Seq<&str>) -> Seq<Seq<char>> {
    Seq::new(v.len(), |i: int| v[i]@)
}

impl Store {
    /// The SQL `CREATE TABLE` statement for this store's attributes.
    pub fn to_sql_create_table(&self, table_name: &str) -> (r: Result<String, Error>)
        ensures
            r matches Ok(s) && s@ == create_table_sql(table_name@, self@.attributes),
    {
        let n = self.attrs_len();
        let mut names: Vec<String> = Vec::new();
        let mut i: usize = 0;
        while i < n
            invariant
                i <= n,
                n == self@.attributes.len(),
                names@.len() == i,
                forall|j: int| 0 <= j < i ==> names_view(names@)[j] == self@.attributes[j],
            decreases n - i,
        {
            let name = self.attr_at(i).clone();
            names.push(name);
            i = i + 1;
        }
        proof {
            assert(names_view(names@) =~= self@.attributes);
        }
        let sorted = sort_names(&names);
        let ghost sv = sort_names_spec(self@.attributes);
        let mut out = String::new();
        out.append("CREATE TABLE ");
        out.append(table_name);
        out.append(" (id INTEGER PRIMARY KEY, ");
        let ghost pre = out@;
        let m = sorted.len();
        let mut j: usize = 0;
        while j < m
            invariant
                j <= m,
                m == sv.len(),
                sv == names_view(sorted@),
                out@ == pre + join_comma(cols_of(sv).take(j as int)),
            decreases m - j,
        {
            let ghost parts = cols_of(sv);
            if j > 0 {
                out.append(", ");
            }
            out.append(sorted[j].as_str());
            out.append(" TEXT");
            proof {
                assert(parts.take(j + 1).drop_last() =~= parts.take(j as int));
                assert(parts.take(j + 1).last() == parts[j as int]);
                assert(parts[j as int] == sv[j as int] + " TEXT"@);
                if j == 0 {
                    assert(parts.take(1) =~= seq![parts[0]]);
                    assert(out@ =~= pre + join_comma(parts.take(1)));
                } else {
                    assert(out@ =~= pre + join_comma(parts.take(j + 1)));
                }
            }
            j = j + 1;
        }
        out.append(");");
        proof {
            assert(cols_of(sv).take(m as int) =~= cols_of(sv));
            assert(out@ =~= create_table_sql(table_name@, self@.attributes));
        }
        Ok(out)
    }

    /// The SQL `SELECT` statement: all columns, or the given ones in order.
    pub fn to_sql_select(&self, table_name: &str, columns: Option<Vec<&str>>) -> (r: String)
        ensures
            r@ == select_sql(
                table_name@,
                match columns {
                    None => None,
                    Some(cs) => Some(strs_view(cs@)),
                },
            ),
    {
        let mut out = String::new();
        match &columns {
            None => {
                out.append("SELECT * FROM ");
                out.append(table_name);
                out.append(";");
                proof {
                    assert(out@ =~= select_sql(table_name@, None));
                }
            },
            Some(cs) => {
                out.append("SELECT ");
                let ghost parts = strs_view(cs@);
                let ghost pre = out@;
                let m = cs.len();
                let mut j: usize = 0;
                while j < m
                    invariant
                        j <= m,
                        m == parts.len(),
                        parts == strs_view(cs@),
                        out@ == pre + join_comma(parts.take(j as int)),
                    decreases m - j,
                {
                    if j > 0 {
                        out.append(", ");
                    }
                    out.append(cs[j]);
                    proof {
                        assert(parts.take(j + 1).drop_last() =~= parts.take(j as int));
                        assert(parts.take(j + 1).last() == parts[j as int]);
                        if j == 0 {
                            assert(parts.take(1) =~= seq![parts[0]]);
                            assert(out@ =~= pre + join_comma(parts.take(1)));
                        } else {
                            assert(out@ =~= pre + join_comma(parts.take(j + 1)));
                        }
                    }
                    j = j + 1;
                }
                out.append(" FROM ");
                out.append(table_name);
                out.append(";");
                proof {
                    assert(parts.take(m as int) =~= parts);
                    assert(out@ =~= select_sql(table_name@, Some(parts)));
                }
            },
        }
        out
    }

    /// The SQL `DELETE` statement with an opaque condition.
    pub fn to_sql_delete(&self, table_name: &str, condition: &str) -> (r: String)
        ensures
            r@ == delete_sql(table_name@, condition@),
    {
        let mut out = String::new();
        out.append("DELETE FROM ");
        out.append(table_name);
        out.append(" WHERE ");
        out.append(condition);
        out.append(";");
        proof {
            assert(out@ =~= delete_sql(table_name@, condition@));
        }
        out
    }
}

} // verus!

verus! {

/// Builds the `INSERT` statement for one record.
fn insert_stmt_for(table_name: &str, id: i64, rec: &Record) -> (r: String)
    requires
        rec_wf(rec@),
    ensures
        r@ == insert_stmt(table_name@, id as int, rec@),
{
    let ghost rv = rec@;
    let nf = rec.len();
    let mut names: Vec<String> = Vec::new();
    let mut i: usize = 0;
    while i < nf
        invariant
            i <= nf,
            nf == rv.len(),
            rec@ == rv,
            names@.len() == i,
            forall|j: int| 0 <= j < i ==> names_view(names@)[j] == rec_names(rv)[j],
        decreases nf - i,
    {
        let name = rec.name_at(i).clone();
        names.push(name);
        i = i + 1;
    }
    proof {
        assert(names_view(names@) =~= rec_names(rv));
    }
    let sorted = sort_names(&names);
    let ghost sv = sort_names_spec(rec_names(rv));
    let mut out = String::new();
    out.append("INSERT INTO ");
    out.append(table_name);
    out.append(" (id, ");
    let ghost pre = out@;
    let m = sorted.len();
    proof {
        assert(sv.take(0) =~= Seq::<Seq<char>>::empty());
    }
    let mut j: usize = 0;
    while j < m
        invariant
            j <= m,
            m == sv.len(),
            sv == names_view(sorted@),
            out@ == pre + join_comma(sv.take(j as int)),
        decreases m - j,
    {
        if j > 0 {
            out.append(", ");
        }
        out.append(sorted[j].as_str());
        proof {
            assert(sv.take(j + 1).drop_last() =~= sv.take(j as int));
            assert(sv.take(j + 1).last() == sv[j as int]);
            if j == 0 {
                assert(sv.take(1) =~= seq![sv[0]]);
                assert(out@ =~= pre + join_comma(sv.take(1)));
            } else {
                assert(out@ =~= pre + join_comma(sv.take(j + 1)));
            }
        }
        j = j + 1;
    }
    proof {
        assert(sv.take(m as int) =~= sv);
    }
    out.append(") VALUES (");
    push_int(&mut out, id);
    out.append(", ");
    let ghost pre2 = out@;
    let ghost parts = vals_of(rv, sv);
    let mut j: usize = 0;
    while j < m
        invariant
            j <= m,
            m == sv.len(),
            sv == names_view(sorted@),
            sv == sort_names_spec(rec_names(rv)),
            rec@ == rv,
            rec_wf(rv),
            parts == vals_of(rv, sv),
            out@ == pre2 + join_comma(parts.take(j as int)),
        decreases m - j,
    {
        if j > 0 {
            out.append(", ");
        }
        proof {
            assert(sv.contains(sv[j as int]));
            lemma_sort_names_membership(rec_names(rv), sv[j as int]);
            let k = choose|k: int|
                0 <= k < rec_names(rv).len() && rec_names(rv)[k] == sv[j as int];
            assert(rv[k].0 == sv[j as int]);
            lemma_rec_first(rv, sv[j as int]);
        }
        let v = match rec.get(sorted[j].as_str()) {
            Some(v) => v,
            None => vstd::pervasive::unreached(),
        };
        proof {
            lemma_rec_first(rv, sv[j as int]);
            assert(value_v_wf(v@));
        }
        push_quoted_val(&mut out, v);
        proof {
            assert(parts.take(j + 1).drop_last() =~= parts.take(j as int));
            assert(parts.take(j + 1).last() == parts[j as int]);
            assert(parts[j as int] == quoted_val(v@));
            if j == 0 {
                assert(parts.take(1) =~= seq![parts[0]]);
                assert(out@ =~= pre2 + join_comma(parts.take(1)));
            } else {
                assert(out@ =~= pre2 + join_comma(parts.take(j + 1)));
            }
        }
        j = j + 1;
    }
    out.append(");");
    proof {
        assert(parts.take(m as int) =~= parts);
        assert(out@ =~= insert_stmt(table_name@, id as int, rv));
    }
    out
}

impl Store {
    /// The SQL `INSERT` statements for the store's records, one per record,
    /// in insertion order.
    pub fn to_sql_inserts(&self, table_name: &str) -> (r: Result<Vec<String>, Error>)
        requires
            self.wf(),
        ensures
            r matches Ok(v) && names_view(v@) == insert_stmts(table_name@, self@.records),
    {
        let ghost rs = self@.records;
        let mut out: Vec<String> = Vec::new();
        let n = self.rows_len();
        let mut i: usize = 0;
        while i < n
            invariant
                i <= n,
                n == rs.len(),
                rs == self@.records,
                self.wf(),
                out@.len() == i,
                forall|j: int|
                    0 <= j < i ==> names_view(out@)[j] == insert_stmts(table_name@, rs)[j],
            decreases n - i,
        {
            let ghost out0 = out@;
            let id = self.row_id_at(i);
            let rec = self.row_at(i);
            let stmt = insert_stmt_for(table_name, id, rec);
            out.push(stmt);
            proof {
                assert forall|j: int| 0 <= j < i + 1 implies names_view(out@)[j] == insert_stmts(
                    table_name@,
                    rs,
                )[j] by {
                    if j < i {
                        assert(out@[j] == out0[j]);
                        assert(names_view(out0)[j] == insert_stmts(table_name@, rs)[j]);
                    } else {
                        assert(out@[j] == stmt);
                    }
                }
            }
            i = i + 1;
        }
        proof {
            assert(names_view(out@) =~= insert_stmts(table_name@, rs));
        }
        Ok(out)
    }

    /// The SQL `UPDATE` statement: one `SET` clause per field of `updates`,
    /// in field order, targeting the row with the given id.
    pub fn to_sql_update(&self, table_name: &str, id: i64, updates: &Record) -> (r: String)
        requires
            rec_wf(updates@),
        ensures
            r@ == update_stmt(table_name@, id as int, updates@),
    {
        let ghost rv = updates@;
        let ghost parts = Seq::new(rv.len(), |i: int| set_part(rv[i]));
        let mut out = String::new();
        out.append("UPDATE ");
        out.append(table_name);
        out.append(" SET ");
        let ghost pre = out@;
        proof {
            assert(parts.take(0) =~= Seq::<Seq<char>>::empty());
        }
        let m = updates.len();
        let mut j: usize = 0;
        while j < m
            invariant
                j <= m,
                m == rv.len(),
                updates@ == rv,
                rec_wf(rv),
                parts == Seq::new(rv.len(), |i: int| set_part(rv[i])),
                out@ == pre + join_comma(parts.take(j as int)),
            decreases m - j,
        {
            if j > 0 {
                out.append(", ");
            }
            out.append(updates.name_at(j).as_str());
            out.append(" = ");
            let v = updates.value_at(j);
            proof {
                assert(value_v_wf(rv[j as int].1));
            }
            match v {
                Value::Text(s) => {
                    out.append("'");
                    push_escaped_sq(&mut out, s.as_str());
                    out.append("'");
                    proof {
                        reveal_strlit("'");
                        assert("'"@ =~= seq!['\'']);
                    }
                },
                _ => {
                    push_val_text(&mut out, v);
                },
            }
            proof {
                assert(parts.take(j + 1).drop_last() =~= parts.take(j as int));
                assert(parts.take(j + 1).last() == parts[j as int]);
                assert(parts[j as int] == set_part(rv[j as int]));
                if j == 0 {
                    assert(parts.take(1) =~= seq![parts[0]]);
                    assert(out@ =~= pre + join_comma(parts.take(1)));
                } else {
                    assert(out@ =~= pre + join_comma(parts.take(j + 1)));
                }
            }
            j = j + 1;
        }
        out.append(" WHERE id = ");
        push_int(&mut out, id);
        out.append(";");
        proof {
            assert(parts.take(m as int) =~= parts);
            assert(out@ =~= update_stmt(table_name@, id as int, rv));
        }
        out
    }
}

} // verus!

verus! {

/// The `CREATE DATABASE` statement.
pub open spec fn create_db_sql(name: Seq<char>) -> Seq<char> {
    "CREATE DATABASE "@ + name + ";"@
}

/// The `DROP DATABASE` statement.
pub open spec fn drop_db_sql(name: Seq<char>) -> Seq<char> {
    "DROP DATABASE "@ + name + ";"@
}

/// All `INSERT` statements of the rows, newline-terminated each.
pub open spec fn insert_block(table: Seq<char>, rows: Seq<(int, RecordV)>) -> Seq<char>
    decreases rows.len(),
{
    if rows.len() == 0 {
        Seq::empty()
    } else {
        insert_block(table, rows.drop_last()) + insert_stmt(
            table,
            rows.last().0,
            rows.last().1,
        ) + "\n"@
    }
}

/// The create-then-populate block of every store, in store order; each
/// store's name is its table name.
pub open spec fn stores_script(es: Seq<(Seq<char>, crate::store::StoreV)>) -> Seq<char>
    decreases es.len(),
{
    if es.len() == 0 {
        Seq::empty()
    } else {
        stores_script(es.drop_last()) + create_table_sql(es.last().0, es.last().1.attributes)
            + "\n"@ + insert_block(es.last().0, es.last().1.records)
    }
}

/// The whole script: create the database, create and populate every table,
/// and finally drop the database again.
pub open spec fn full_script(d: crate::database::DbV) -> Seq<char> {
    create_db_sql(d.name) + "\n"@ + stores_script(d.stores) + drop_db_sql(d.name) + "\n"@
}

impl Database {
    /// The SQL `CREATE DATABASE` statement for this database.
    pub fn to_sql_create(&self) -> (r: Result<String, Error>)
        ensures
            r matches Ok(s) && s@ == create_db_sql(self@.name),
    {
        let mut out = String::new();
        out.append("CREATE DATABASE ");
        out.append(self.name().as_str());
        out.append(";");
        proof {
            assert(out@ =~= create_db_sql(self@.name));
        }
        Ok(out)
    }

    /// The SQL `DROP DATABASE` statement for this database.
    pub fn to_sql_drop(&self) -> (r: Result<String, Error>)
        ensures
            r matches Ok(s) && s@ == drop_db_sql(self@.name),
    {
        let mut out = String::new();
        out.append("DROP DATABASE ");
        out.append(self.name().as_str());
        out.append(";");
        proof {
            assert(out@ =~= drop_db_sql(self@.name));
        }
        Ok(out)
    }

    /// The full SQL script: database creation, one create-and-populate block
    /// per store in store order, and the final drop statement, each
    /// statement on its own line.
    pub fn convert_to_sql(&self) -> (r: Result<String, Error>)
        requires
            self.wf(),
        ensures
            r matches Ok(s) && s@ == full_script(self@),
    {
        let ghost es = self@.stores;
        let mut script = String::new();
        script.append("CREATE DATABASE ");
        script.append(self.name().as_str());
        script.append(";\n");
        let ghost pre = script@;
        proof {
            reveal_strlit(";");
            reveal_strlit(";\n");
            reveal_strlit("\n");
            assert(";\n"@ =~= ";"@ + "\n"@);
            assert(pre =~= create_db_sql(self@.name) + "\n"@);
            assert(es.take(0) =~= Seq::<(Seq<char>, crate::store::StoreV)>::empty());
            assert(script@ =~= pre + stores_script(es.take(0)));
        }
        let n = self.stores_len();
        let mut i: usize = 0;
        while i < n
            invariant
                i <= n,
                n == es.len(),
                es == self@.stores,
                self.wf(),
                pre == create_db_sql(self@.name) + "\n"@,
                script@ == pre + stores_script(es.take(i as int)),
            decreases n - i,
        {
            let ghost block0 = script@;
            let name = self.store_name_at(i).clone();
            let store = self.store_at(i);
            proof {
                assert(store_wf(store@));
            }
            let create = match store.to_sql_create_table(name.as_str()) {
                Ok(s) => s,
                Err(_) => vstd::pervasive::unreached(),
            };
            script.append(create.as_str());
            script.append("\n");
            let inserts = match store.to_sql_inserts(name.as_str()) {
                Ok(v) => v,
                Err(_) => vstd::pervasive::unreached(),
            };
            let ghost rows = es[i as int].1.records;
            let ghost pre2 = script@;
            proof {
                assert(name@ == es[i as int].0);
                assert(store@ == es[i as int].1);
                assert(names_view(inserts@) == insert_stmts(es[i as int].0, rows));
                assert(inserts@.len() == names_view(inserts@).len());
                assert(insert_stmts(es[i as int].0, rows).len() == rows.len());
                assert(rows.take(0) =~= Seq::<(int, RecordV)>::empty());
                assert(script@ =~= pre2 + insert_block(es[i as int].0, rows.take(0)));
            }
            let m = inserts.len();
            let mut j: usize = 0;
            while j < m
                invariant
                    j <= m,
                    m == rows.len(),
                    m == inserts@.len(),
                    rows == es[i as int].1.records,
                    i < es.len(),
                    names_view(inserts@) == insert_stmts(es[i as int].0, rows),
                    script@ == pre2 + insert_block(es[i as int].0, rows.take(j as int)),
                decreases m - j,
            {
                script.append(inserts[j].as_str());
                script.append("\n");
                proof {
                    assert(rows.take(j + 1).drop_last() =~= rows.take(j as int));
                    assert(rows.take(j + 1).last() == rows[j as int]);
                    assert(names_view(inserts@)[j as int] == insert_stmts(
                        es[i as int].0,
                        rows,
                    )[j as int]);
                    assert(script@ =~= pre2 + insert_block(es[i as int].0, rows.take(j + 1)));
                }
                j = j + 1;
            }
            proof {
                assert(rows.take(m as int) =~= rows);
                assert(es.take(i + 1).drop_last() =~= es.take(i as int));
                assert(es.take(i + 1).last() == es[i as int]);
                assert(script@ =~= pre + stores_script(es.take(i + 1)));
            }
            i = i + 1;
        }
        proof {
            assert(es.take(n as int) =~= es);
        }
        script.append("DROP DATABASE ");
        script.append(self.name().as_str());
        script.append(";\n");
        proof {
            reveal_strlit(";");
            reveal_strlit(";\n");
            reveal_strlit("\n");
            assert(";\n"@ =~= ";"@ + "\n"@);
            assert(script@ =~= full_script(self@));
        }
        Ok(script)
    }
}

} // verus!
