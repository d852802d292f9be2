//! The value model: a closed union of scalar kinds with defined equality,
//! ordering and rendering rules.
//!
//! Numbers come in two kinds: `Int` holds a signed 64-bit integer, and `Dec`
//! holds a number with fractional digits as an exact scaled decimal
//! (`man / 10^scale`), so that comparisons between numeric values are exact
//! rather than rounded.

use vstd::prelude::*;

verus! {

/// Mathematical image of a [`Value`].
pub enum ValueV {
    Int(int),
    Dec { man: int, scale: nat },
    Bool(bool),
    Text(Seq<char>),
}

/// An exact scaled decimal: the number `man / 10^scale`.
///
/// A well-formed decimal is normalized (see [`Decimal::wf`]), so two decimals
/// denote the same number exactly when their fields are equal.
#[derive(Clone, Copy, Debug)]
pub struct Decimal {
    pub man: i64,
    pub scale: u32,
}

/// Most fractional digits a decimal may carry: one integer digit and the
/// fraction must fit in eighteen digits together.
pub const MAX_SCALE: u32 = 17;

impl View for Decimal {
    type V = ValueV;

    open spec fn view(&self) -> ValueV {
        ValueV::Dec { man: self.man as int, scale: self.scale as nat }
    }
}

impl Decimal {
    /// Normalized: at least one fractional digit, at most [`MAX_SCALE`], the
    /// mantissa small enough for exact cross-multiplied comparison, and no
    /// trailing zero in the mantissa unless the scale is already minimal.
    pub open spec fn wf(self) -> bool {
        &&& 1 <= self.scale <= MAX_SCALE
        &&& -pow10(18) < self.man < pow10(18)
        &&& (self.scale == 1 || self.man % 10 != 0)
    }
}

/// 10 raised to `n`.
pub open spec fn pow10(n: nat) -> int
    decreases n,
{
    if n == 0 {
        1
    } else {
        10 * pow10((n - 1) as nat)
    }
}

/// A stored scalar: integer, decimal, boolean or text.
#[derive(Debug)]
pub enum Value {
    Int(i64),
    Dec(Decimal),
    Bool(bool),
    Text(String),
}

impl View for Value {
    type V = ValueV;

    open spec fn view(&self) -> ValueV {
        match self {
            Value::Int(i) => ValueV::Int(*i as int),
            Value::Dec(d) => d@,
            Value::Bool(b) => ValueV::Bool(*b),
            Value::Text(s) => ValueV::Text(s@),
        }
    }
}

/// Well-formedness of a spec-level value: the bounds every stored value obeys.
pub open spec fn value_v_wf(v: ValueV) -> bool {
    match v {
        ValueV::Int(i) => i64::MIN <= i <= i64::MAX,
        ValueV::Dec { man, scale } => {
            &&& 1 <= scale <= MAX_SCALE
            &&& -pow10(18) < man < pow10(18)
            &&& (scale == 1 || man % 10 != 0)
        },
        ValueV::Bool(_) => true,
        ValueV::Text(_) => true,
    }
}

impl Value {
    /// The bounds every stored value obeys.
    pub open spec fn wf(self) -> bool {
        value_v_wf(self@)
    }

    /// Copies the value; the copy has the same mathematical image.
    pub fn duplicate(&self) -> (r: Value)
        ensures
            r@ == self@,
    {
        match self {
            Value::Int(i) => Value::Int(*i),
            Value::Dec(d) => Value::Dec(*d),
            Value::Bool(b) => Value::Bool(*b),
            Value::Text(s) => Value::Text(s.clone()),
        }
    }
}

/// Structural equality: values of different kinds are never equal, even when
/// their numeric readings agree.
impl PartialEq for Value {
    fn eq(&self, other: &Value) -> (r: bool) {
        match (self, other) {
            (Value::Int(a), Value::Int(b)) => a == b,
            (Value::Dec(a), Value::Dec(b)) => a.man == b.man && a.scale == b.scale,
            (Value::Bool(a), Value::Bool(b)) => a == b,
            (Value::Text(a), Value::Text(b)) => a.eq(b),
            _ => false,
        }
    }
}

impl vstd::std_specs::cmp::PartialEqSpecImpl for Value {
    open spec fn obeys_eq_spec() -> bool {
        true
    }

    open spec fn eq_spec(&self, other: &Value) -> bool {
        self@ == other@
    }
}

} // verus!

verus! {

/// Outcome of comparing two values: ordered, tied, or not comparable at all.
///
/// Ordering is defined only between two numeric values (`Int` or `Dec`,
/// compared exactly on a common scale) and between two `Text` values
/// (lexicographic by code point). Every other pairing is `Unordered`.
#[derive(Clone, Copy, Debug, PartialEq, Eq, Structural)]
pub enum ValueOrder {
    Less,
    Equal,
    Greater,
    Unordered,
}

/// Order of two mathematical integers.
pub open spec fn order_of_int(a: int, b: int) -> ValueOrder {
    if a < b {
        ValueOrder::Less
    } else if a == b {
        ValueOrder::Equal
    } else {
        ValueOrder::Greater
    }
}

/// The numeric reading of a value: mantissa and scale, such that the value
/// denotes `man / 10^scale`. `None` for booleans and text.
pub open spec fn num_of(v: ValueV) -> Option<(int, nat)> {
    match v {
        ValueV::Int(i) => Some((i, 0nat)),
        ValueV::Dec { man, scale } => Some((man, scale)),
        _ => None,
    }
}

/// Lexicographic order of two character sequences by code point.
pub open spec fn lex_cmp_v(a: Seq<char>, b: Seq<char>) -> ValueOrder
    decreases a.len(),
{
    if a.len() == 0 && b.len() == 0 {
        ValueOrder::Equal
    } else if a.len() == 0 {
        ValueOrder::Less
    } else if b.len() == 0 {
        ValueOrder::Greater
    } else if (a[0] as u32) < (b[0] as u32) {
        ValueOrder::Less
    } else if (b[0] as u32) < (a[0] as u32) {
        ValueOrder::Greater
    } else {
        lex_cmp_v(a.skip(1), b.skip(1))
    }
}

/// How two values compare: numerics exactly on a common scale, text
/// lexicographically, anything else unordered.
pub open spec fn value_cmp_v(a: ValueV, b: ValueV) -> ValueOrder {
    match (num_of(a), num_of(b)) {
        (Some(x), Some(y)) => order_of_int(x.0 * pow10(y.1), y.0 * pow10(x.1)),
        _ => match (a, b) {
            (ValueV::Text(s), ValueV::Text(t)) => lex_cmp_v(s, t),
            _ => ValueOrder::Unordered,
        },
    }
}

pub proof fn lemma_pow10_pos(n: nat)
    ensures
        pow10(n) >= 1,
    decreases n,
{
    if n > 0 {
        lemma_pow10_pos((n - 1) as nat);
    }
}

pub proof fn lemma_pow10_mono(a: nat, b: nat)
    requires
        a <= b,
    ensures
        pow10(a) <= pow10(b),
    decreases b,
{
    if a < b {
        lemma_pow10_mono(a, (b - 1) as nat);
        lemma_pow10_pos((b - 1) as nat);
    }
}

pub proof fn lemma_pow10_18()
    ensures
        pow10(18) == 1000000000000000000,
{
    reveal_with_fuel(pow10, 19);
}

/// Raises 10 to `n` exactly.
pub fn pow10_i128(n: u32) -> (r: i128)
    requires
        n <= 18,
    ensures
        r == pow10(n as nat),
{
    let mut r: i128 = 1;
    let mut i: u32 = 0;
    while i < n
        invariant
            i <= n,
            n <= 18,
            r == pow10(i as nat),
        decreases n - i,
    {
        proof {
            lemma_pow10_mono((i + 1) as nat, 18);
            lemma_pow10_18();
            lemma_pow10_pos(i as nat);
        }
        r = r * 10;
        i = i + 1;
    }
    r
}

/// Compares `m1 / 10^s1` with `m2 / 10^s2` exactly, by cross-multiplying.
fn cmp_scaled(m1: i64, s1: u32, m2: i64, s2: u32) -> (r: ValueOrder)
    requires
        s1 <= 18,
        s2 <= 18,
    ensures
        r == order_of_int((m1 as int) * pow10(s2 as nat), (m2 as int) * pow10(s1 as nat)),
{
    proof {
        lemma_pow10_pos(s1 as nat);
        lemma_pow10_pos(s2 as nat);
        lemma_pow10_mono(s1 as nat, 18);
        lemma_pow10_mono(s2 as nat, 18);
        lemma_pow10_18();
        assert((m1 as int) * pow10(s2 as nat) <= 9223372036854775808 * 1000000000000000000
            && (m1 as int) * pow10(s2 as nat) >= -9223372036854775808 * 1000000000000000000)
            by (nonlinear_arith)
            requires
                -9223372036854775808 <= m1 as int <= 9223372036854775807,
                1 <= pow10(s2 as nat) <= 1000000000000000000,
        ;
        assert((m2 as int) * pow10(s1 as nat) <= 9223372036854775808 * 1000000000000000000
            && (m2 as int) * pow10(s1 as nat) >= -9223372036854775808 * 1000000000000000000)
            by (nonlinear_arith)
            requires
                -9223372036854775808 <= m2 as int <= 9223372036854775807,
                1 <= pow10(s1 as nat) <= 1000000000000000000,
        ;
    }
    let p1: i128 = (m1 as i128) * pow10_i128(s2);
    let p2: i128 = (m2 as i128) * pow10_i128(s1);
    if p1 < p2 {
        ValueOrder::Less
    } else if p1 == p2 {
        ValueOrder::Equal
    } else {
        ValueOrder::Greater
    }
}

/// Skipping an equal prefix does not change the lexicographic order.
pub proof fn lemma_lex_skip(a: Seq<char>, b: Seq<char>, i: int)
    requires
        0 <= i <= a.len(),
        i <= b.len(),
        forall|j: int| 0 <= j < i ==> a[j] == b[j],
    ensures
        lex_cmp_v(a, b) == lex_cmp_v(a.skip(i), b.skip(i)),
    decreases i,
{
    if i == 0 {
        assert(a.skip(0) =~= a);
        assert(b.skip(0) =~= b);
    } else {
        assert(a[0] == b[0]);
        assert(forall|j: int| 0 <= j < i - 1 ==> a.skip(1)[j] == b.skip(1)[j]);
        lemma_lex_skip(a.skip(1), b.skip(1), i - 1);
        assert(a.skip(1).skip(i - 1) =~= a.skip(i));
        assert(b.skip(1).skip(i - 1) =~= b.skip(i));
    }
}

/// Compares two strings lexicographically by code point.
pub fn str_cmp(a: &str, b: &str) -> (r: ValueOrder)
    ensures
        r == lex_cmp_v(a@, b@),
{
    broadcast use vstd::utf8::char_u32_cast;

    let la = a.unicode_len();
    let lb = b.unicode_len();
    let mut i: usize = 0;
    loop
        invariant
            i <= la,
            i <= lb,
            la == a@.len(),
            lb == b@.len(),
            forall|j: int| 0 <= j < i ==> a@[j] == b@[j],
        decreases la - i,
    {
        proof {
            lemma_lex_skip(a@, b@, i as int);
        }
        if i < la && i < lb {
            let ca = a.get_char(i);
            let cb = b.get_char(i);
            if (ca as u32) < (cb as u32) {
                return ValueOrder::Less;
            } else if (cb as u32) < (ca as u32) {
                return ValueOrder::Greater;
            }
            assert(a@[i as int] == b@[i as int]);
            i = i + 1;
        } else if i < la {
            return ValueOrder::Greater;
        } else if i < lb {
            return ValueOrder::Less;
        } else {
            return ValueOrder::Equal;
        }
    }
}

impl Value {
    /// Compares two values per the ordering rules; never panics, returning
    /// [`ValueOrder::Unordered`] for pairings that have no order.
    pub fn compare(&self, other: &Value) -> (r: ValueOrder)
        requires
            self.wf(),
            other.wf(),
        ensures
            r == value_cmp_v(self@, other@),
    {
        match (self, other) {
            (Value::Int(x), Value::Int(y)) => cmp_scaled(*x, 0, *y, 0),
            (Value::Int(x), Value::Dec(d)) => cmp_scaled(*x, 0, d.man, d.scale),
            (Value::Dec(d), Value::Int(y)) => cmp_scaled(d.man, d.scale, *y, 0),
            (Value::Dec(c), Value::Dec(d)) => cmp_scaled(c.man, c.scale, d.man, d.scale),
            (Value::Text(s), Value::Text(t)) => str_cmp(s.as_str(), t.as_str()),
            _ => ValueOrder::Unordered,
        }
    }
}

} // verus!

verus! {

/// Two texts compare as equal exactly when they are the same sequence.
pub proof fn lemma_lex_eq(a: Seq<char>, b: Seq<char>)
    ensures
        (lex_cmp_v(a, b) == ValueOrder::Equal) <==> (a == b),
    decreases a.len(),
{
    broadcast use vstd::utf8::char_u32_cast;

    if a.len() == 0 && b.len() == 0 {
        assert(a =~= b);
    } else if a.len() == 0 || b.len() == 0 {
        assert(a != b);
    } else if (a[0] as u32) == (b[0] as u32) {
        vstd::utf8::char_u32_cast(a[0], a[0] as u32);
        vstd::utf8::char_u32_cast(b[0], b[0] as u32);
        assert(a[0] == b[0]);
        lemma_lex_eq(a.skip(1), b.skip(1));
        if a.skip(1) == b.skip(1) {
            assert forall|i: int| 0 <= i < a.len() implies a[i] == b[i] by {
                if i > 0 {
                    assert(a[i] == a.skip(1)[i - 1]);
                    assert(b[i] == b.skip(1)[i - 1]);
                }
            }
            assert(a =~= b);
        }
        if a == b {
            assert(a.skip(1) =~= b.skip(1));
        }
    } else {
        assert(a[0] != b[0]);
        assert(a != b);
    }
}

/// String equality through the verified comparison.
pub fn str_eq(a: &str, b: &str) -> (r: bool)
    ensures
        r == (a@ == b@),
{
    proof {
        lemma_lex_eq(a@, b@);
    }
    match str_cmp(a, b) {
        ValueOrder::Equal => true,
        _ => false,
    }
}

} // verus!
