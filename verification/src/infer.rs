//! Text-to-value inference: a literal is read as an integer if it parses as
//! one, else as a decimal number, else as a boolean (case-insensitive
//! `true`/`false`), else kept as text. The order is significant.

use vstd::prelude::*;
use crate::digits::{all_digits, digits_val, check_digits, scan_digits_val};
use crate::query::QueryOperator;
use crate::value::{pow10, Decimal, Value, ValueV};

verus! {

/// The literal without its sign, and whether a minus sign led it.
pub open spec fn sign_split(s: Seq<char>) -> (bool, Seq<char>) {
    if s.len() > 0 && s[0] == '-' {
        (true, s.skip(1))
    } else if s.len() > 0 && s[0] == '+' {
        (false, s.skip(1))
    } else {
        (false, s)
    }
}

/// The 64-bit integer a literal denotes, if it is one: an optional sign,
/// then only digits, and a value in range.
pub open spec fn int_lit(s: Seq<char>) -> Option<int> {
    let (neg, d) = sign_split(s);
    if d.len() >= 1 && all_digits(d) {
        let v = if neg {
            -digits_val(d)
        } else {
            digits_val(d)
        };
        if i64::MIN <= v <= i64::MAX {
            Some(v)
        } else {
            None
        }
    } else {
        None
    }
}

/// Index of the first occurrence of `c` (the length when absent).
pub open spec fn first_at(s: Seq<char>, c: char) -> int
    decreases s.len(),
{
    if s.len() == 0 {
        0
    } else if s[0] == c {
        0
    } else {
        1 + first_at(s.skip(1), c)
    }
}

/// The normal form of a decimal: trailing zeros dropped from the mantissa
/// down to a single fractional digit.
pub open spec fn dec_norm(man: int, scale: nat) -> (int, nat)
    decreases scale,
{
    if scale <= 1 {
        (man, scale)
    } else if man % 10 == 0 {
        dec_norm(man / 10, (scale - 1) as nat)
    } else {
        (man, scale)
    }
}

/// The decimal a literal denotes, if it is one: an optional sign, one or
/// more integer digits, a point, and one or more fractional digits, with at
/// most eighteen digits in all (longer literals stay text).
pub open spec fn dec_lit(s: Seq<char>) -> Option<(int, nat)> {
    let (neg, d) = sign_split(s);
    let p = first_at(d, '.');
    if 1 <= p && p + 1 < d.len() && d.len() <= 19 && all_digits(d.take(p)) && all_digits(
        d.skip(p + 1),
    ) {
        let m0 = digits_val(d.take(p) + d.skip(p + 1));
        let man = if neg {
            -m0
        } else {
            m0
        };
        Some(dec_norm(man, (d.len() - p - 1) as nat))
    } else {
        None
    }
}

/// ASCII lowering of one character.
pub open spec fn ascii_lower(c: char) -> char {
    if 65 <= c as u32 <= 90 {
        ((c as u32 + 32) as u32) as char
    } else {
        c
    }
}

/// `s`, ASCII-lowered, is exactly `t`.
pub open spec fn lower_is(s: Seq<char>, t: Seq<char>) -> bool {
    s.len() == t.len() && forall|i: int| 0 <= i < s.len() ==> ascii_lower(#[trigger] s[i]) == t[i]
}

/// The value a literal denotes: integer, else decimal, else boolean, else
/// the text itself.
pub open spec fn infer_spec(s: Seq<char>) -> ValueV {
    if int_lit(s) is Some {
        ValueV::Int(int_lit(s)->Some_0)
    } else if dec_lit(s) is Some {
        ValueV::Dec { man: dec_lit(s)->Some_0.0, scale: dec_lit(s)->Some_0.1 }
    } else if lower_is(s, "true"@) {
        ValueV::Bool(true)
    } else if lower_is(s, "false"@) {
        ValueV::Bool(false)
    } else {
        ValueV::Text(s)
    }
}

/// The operator a keyword names, ASCII-case-insensitively.
pub open spec fn operator_of(s: Seq<char>) -> Option<QueryOperator> {
    if lower_is(s, "eq"@) {
        Some(QueryOperator::Eq)
    } else if lower_is(s, "neq"@) {
        Some(QueryOperator::Neq)
    } else if lower_is(s, "gt"@) {
        Some(QueryOperator::Gt)
    } else if lower_is(s, "lt"@) {
        Some(QueryOperator::Lt)
    } else if lower_is(s, "ge"@) {
        Some(QueryOperator::Ge)
    } else if lower_is(s, "le"@) {
        Some(QueryOperator::Le)
    } else if lower_is(s, "contains"@) {
        Some(QueryOperator::Contains)
    } else {
        None
    }
}

/// Whether `s`, ASCII-lowered, equals `t`.
pub fn lower_eq(s: &str, t: &str) -> (r: bool)
    ensures
        r == lower_is(s@, t@),
{
    let n = s.unicode_len();
    let m = t.unicode_len();
    if n != m {
        return false;
    }
    let mut i: usize = 0;
    while i < n
        invariant
            i <= n,
            n == s@.len(),
            n == t@.len(),
            forall|j: int| 0 <= j < i ==> ascii_lower(#[trigger] s@[j]) == t@[j],
        decreases n - i,
    {
        let c = s.get_char(i);
        let u = c as u32;
        let lu: u32 = if 65 <= u && u <= 90 {
            u + 32
        } else {
            u
        };
        let d = t.get_char(i);
        if lu != (d as u32) {
            proof {
                vstd::utf8::char_u32_cast(c, c as u32);
                vstd::utf8::char_u32_cast(d, d as u32);
                assert(ascii_lower(s@[i as int]) != t@[i as int]);
            }
            return false;
        }
        proof {
            vstd::utf8::char_u32_cast(c, c as u32);
            vstd::utf8::char_u32_cast(d, d as u32);
            vstd::utf8::char_is_scalar(c);
            assert(ascii_lower(s@[i as int]) == t@[i as int]);
        }
        i = i + 1;
    }
    true
}

/// Reads a query operator keyword, ASCII-case-insensitively.
pub fn parse_operator(s: &str) -> (r: Option<QueryOperator>)
    ensures
        r == operator_of(s@),
{
    if lower_eq(s, "eq") {
        Some(QueryOperator::Eq)
    } else if lower_eq(s, "neq") {
        Some(QueryOperator::Neq)
    } else if lower_eq(s, "gt") {
        Some(QueryOperator::Gt)
    } else if lower_eq(s, "lt") {
        Some(QueryOperator::Lt)
    } else if lower_eq(s, "ge") {
        Some(QueryOperator::Ge)
    } else if lower_eq(s, "le") {
        Some(QueryOperator::Le)
    } else if lower_eq(s, "contains") {
        Some(QueryOperator::Contains)
    } else {
        None
    }
}

} // verus!

verus! {

/// A digit run is worth less than ten to the power of its length.
pub proof fn lemma_digits_val_bound(s: Seq<char>)
    requires
        all_digits(s),
    ensures
        0 <= digits_val(s) < pow10(s.len()),
    decreases s.len(),
{
    if s.len() > 0 {
        assert(all_digits(s.drop_last())) by {
            assert(forall|i: int| 0 <= i < s.len() - 1 ==> s.drop_last()[i] == s[i]);
        }
        lemma_digits_val_bound(s.drop_last());
        assert(crate::value::pow10(s.len()) == 10 * crate::value::pow10((s.len() - 1) as nat));
        assert(crate::digits::is_digit(s.last())) by {
            assert(s[s.len() - 1] == s.last());
        }
    }
}

/// The value of two digit runs in sequence.
pub proof fn lemma_digits_val_concat(a: Seq<char>, b: Seq<char>)
    ensures
        digits_val(a + b) == digits_val(a) * pow10(b.len()) + digits_val(b),
    decreases b.len(),
{
    if b.len() == 0 {
        assert(a + b =~= a);
    } else {
        lemma_digits_val_concat(a, b.drop_last());
        assert((a + b).drop_last() =~= a + b.drop_last());
        assert((a + b).last() == b.last());
        assert(b.drop_last().len() == b.len() - 1);
        assert(pow10(b.len()) == 10 * pow10((b.len() - 1) as nat));
        assert(digits_val(a) * (10 * pow10((b.len() - 1) as nat)) == (digits_val(a) * pow10(
            (b.len() - 1) as nat,
        )) * 10) by (nonlinear_arith);
    }
}

/// The first hit of a scan is where `first_at` points.
pub proof fn lemma_first_at_hit(s: Seq<char>, c: char, n: int)
    requires
        0 <= n < s.len(),
        s[n] == c,
        forall|j: int| 0 <= j < n ==> s[j] != c,
    ensures
        first_at(s, c) == n,
    decreases n,
{
    if n > 0 {
        assert(forall|j: int| 0 <= j < s.skip(1).len() ==> s.skip(1)[j] == s[j + 1]);
        lemma_first_at_hit(s.skip(1), c, n - 1);
    }
}

/// A scan with no hit leaves `first_at` at the length.
pub proof fn lemma_first_at_miss(s: Seq<char>, c: char)
    requires
        forall|j: int| 0 <= j < s.len() ==> s[j] != c,
    ensures
        first_at(s, c) == s.len(),
    decreases s.len(),
{
    if s.len() > 0 {
        assert(forall|j: int| 0 <= j < s.skip(1).len() ==> s.skip(1)[j] == s[j + 1]);
        lemma_first_at_miss(s.skip(1), c);
    }
}

/// What normalization guarantees: a scale of at least one, no growth in
/// magnitude, and no trailing zero unless the scale is already minimal.
pub proof fn lemma_dec_norm(man: int, scale: nat)
    requires
        1 <= scale,
        -pow10(18) < man < pow10(18),
    ensures
        1 <= dec_norm(man, scale).1 <= scale,
        -pow10(18) < dec_norm(man, scale).0 < pow10(18),
        dec_norm(man, scale).1 == 1 || dec_norm(man, scale).0 % 10 != 0,
    decreases scale,
{
    if scale > 1 && man % 10 == 0 {
        vstd::arithmetic::div_mod::lemma_fundamental_div_mod(man, 10);
        lemma_dec_norm(man / 10, (scale - 1) as nat);
    }
}

/// A signed digit run is not a boolean keyword.
proof fn lemma_number_shape_not_bool(s: Seq<char>)
    requires
        sign_split(s).1.len() >= 1,
        crate::digits::is_digit(sign_split(s).1[0]) || (sign_split(s).1.len() >= 2 && sign_split(
            s,
        ).1[0] == '.'),
    ensures
        !lower_is(s, "true"@),
        !lower_is(s, "false"@),
{
    reveal_strlit("true");
    reveal_strlit("false");
    assert(('t' as u32) == 116);
    assert(('f' as u32) == 102);
    assert(('-' as u32) == 45);
    assert(('+' as u32) == 43);
    assert(('.' as u32) == 46);
    let d = sign_split(s).1;
    assert(s.len() >= 1);
    if s[0] == '-' || s[0] == '+' {
        assert(ascii_lower(s[0]) == s[0]);
    } else {
        assert(d == s);
        assert(s[0] == d[0]);
        assert(ascii_lower(s[0]) == s[0]);
    }
    if lower_is(s, "true"@) {
        assert(ascii_lower(s[0]) == 't');
        assert(false);
    }
    if lower_is(s, "false"@) {
        assert(ascii_lower(s[0]) == 'f');
        assert(false);
    }
}

impl Value {
    /// Reads a literal: a 64-bit integer if it parses as one, else a
    /// decimal number, else a boolean, else the text itself.
    pub fn infer(text: &str) -> (r: Value)
        ensures
            r@ == infer_spec(text@),
            r.wf(),
    {
        broadcast use vstd::utf8::char_u32_cast;

        let n = text.unicode_len();
        let mut neg = false;
        let mut start: usize = 0;
        if n > 0 {
            let c0 = text.get_char(0);
            if (c0 as u32) == 45 {
                proof {
                    assert(('-' as u32) == 45);
                    assert(c0 == '-');
                }
                neg = true;
                start = 1;
            } else if (c0 as u32) == 43 {
                proof {
                    assert(('+' as u32) == 43);
                    assert(c0 == '+');
                }
                start = 1;
            } else {
                proof {
                    assert(('-' as u32) == 45 && ('+' as u32) == 43);
                    assert(c0 != '-' && c0 != '+');
                }
            }
        }
        let ghost d = sign_split(text@).1;
        proof {
            assert(d =~= text@.subrange(start as int, n as int));
            assert((neg, d) == sign_split(text@));
        }
        if start < n && check_digits(text, start, n) {
            // the literal is a signed digit run: an integer when in range
            proof {
                lemma_number_shape_not_bool(text@);
                lemma_digits_val_nonneg_pub(d);
                assert(forall|j: int| 0 <= j < d.len() ==> d[j] != '.') by {
                    assert(('.' as u32) == 46);
                    assert(forall|j: int|
                        0 <= j < d.len() ==> crate::digits::is_digit(#[trigger] d[j]));
                }
                lemma_first_at_miss(d, '.');
            }
            match scan_digits_val(text, start, n) {
                Some(v) => {
                    if neg && v <= 9223372036854775808u64 {
                        let r = if v == 9223372036854775808u64 {
                            Value::Int(i64::MIN)
                        } else {
                            Value::Int(-(v as i64))
                        };
                        return r;
                    } else if !neg && v <= 9223372036854775807u64 {
                        return Value::Int(v as i64);
                    }
                },
                None => {},
            }
            // a digit run out of 64-bit range stays text
            return Value::Text(text.to_owned());
        }
        // not a plain digit run: try `digits.digits`
        let mut p = start;
        while p < n && !matches!((text.get_char(p) as u32), 46)
            invariant
                start <= p <= n,
                n == text@.len(),
                d == sign_split(text@).1,
                d == text@.subrange(start as int, n as int),
                forall|j: int| start <= j < p ==> text@[j] != '.',
            decreases n - p,
        {
            proof {
                assert(('.' as u32) == 46);
                let c = text@[p as int];
                assert(c as u32 != 46 ==> c != '.');
            }
            p = p + 1;
        }
        proof {
            assert(('.' as u32) == 46);
            assert(forall|j: int| 0 <= j < p - start ==> d[j] != '.');
            if p < n {
                assert(d[p - start] == '.');
                lemma_first_at_hit(d, '.', p - start);
            } else {
                lemma_first_at_miss(d, '.');
            }
        }
        if start + 1 <= p && p < n && p + 1 < n && n - start <= 19 && check_digits(
            text,
            start,
            p,
        ) && check_digits(text, p + 1, n) {
            let ghost d1 = d.take(p - start);
            let ghost d2 = d.skip(p - start + 1);
            proof {
                assert(d1 =~= text@.subrange(start as int, p as int));
                assert(d2 =~= text@.subrange(p + 1, n as int));
                lemma_digits_val_bound(d1);
                lemma_digits_val_bound(d2);
                crate::value::lemma_pow10_mono(d1.len(), 17);
                crate::value::lemma_pow10_mono(d2.len(), 17);
                crate::value::lemma_pow10_18();
                crate::value::lemma_pow10_mono(17, 18);
                lemma_digits_val_concat(d1, d2);
                lemma_digits_val_bound(d1 + d2);
                assert((d1 + d2).len() <= 18);
                crate::value::lemma_pow10_mono((d1 + d2).len(), 18);
            }
            let v1 = match scan_digits_val(text, start, p) {
                Some(v) => v,
                None => vstd::pervasive::unreached(),
            };
            let v2 = match scan_digits_val(text, p + 1, n) {
                Some(v) => v,
                None => vstd::pervasive::unreached(),
            };
            let scale0: u32 = (n - p - 1) as u32;
            let pw = crate::digits::pow10_u64(scale0);
            proof {
                assert(d2.len() == scale0 as nat);
                assert(v1 * pw + v2 == digits_val(d1 + d2)) by (nonlinear_arith)
                    requires
                        v1 == digits_val(d1),
                        v2 == digits_val(d2),
                        pw == pow10(d2.len()),
                        d2.len() == scale0 as nat,
                        digits_val(d1 + d2) == digits_val(d1) * pow10(d2.len()) + digits_val(d2),
                ;
                assert(v1 * pw <= digits_val(d1 + d2)) by (nonlinear_arith)
                    requires
                        v1 * pw + v2 == digits_val(d1 + d2),
                        v2 >= 0,
                ;
            }
            let m0: u64 = v1 * pw + v2;
            let mut man: i64 = if neg {
                -(m0 as i64)
            } else {
                m0 as i64
            };
            let mut scale: u32 = scale0;
            let ghost man0 = man as int;
            let ghost scale1 = scale as nat;
            proof {
                lemma_number_shape_not_bool(text@);
                lemma_digits_val_nonneg_pub(d1);
                assert(dec_lit(text@) == Some(dec_norm(man0, scale1)));
                lemma_dec_norm(man0, scale1);
            }
            while scale > 1 && man % 10 == 0
                invariant
                    1 <= scale <= 18,
                    -pow10(18) < (man as int) && (man as int) < pow10(18),
                    dec_norm(man as int, scale as nat) == dec_norm(man0, scale1),
                decreases scale,
            {
                proof {
                    vstd::arithmetic::div_mod::lemma_fundamental_div_mod(man as int, 10);
                    crate::value::lemma_pow10_18();
                }
                man = man / 10;
                scale = scale - 1;
            }
            proof {
                crate::value::lemma_pow10_18();
            }
            return Value::Dec(Decimal { man, scale });
        }
        // not numeric: boolean keywords, else text
        proof {
            assert(int_lit(text@) is None);
            if start + 1 <= p && p < n && p + 1 < n && n - start <= 19 {
                assert(d.take(p - start) =~= text@.subrange(start as int, p as int));
                assert(d.skip(p - start + 1) =~= text@.subrange(p + 1, n as int));
            }
            assert(dec_lit(text@) is None);
        }
        if lower_eq(text, "true") {
            return Value::Bool(true);
        }
        if lower_eq(text, "false") {
            return Value::Bool(false);
        }
        Value::Text(text.to_owned())
    }
}

/// Restates non-negativity of digit runs for use here.
proof fn lemma_digits_val_nonneg_pub(s: Seq<char>)
    requires
        all_digits(s),
    ensures
        digits_val(s) >= 0,
{
    crate::digits::lemma_digits_val_nonneg(s);
}

} // verus!
