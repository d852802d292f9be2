//! Decimal digit runs: the mathematical reading of a run of ASCII digits, the
//! canonical digit run of a number, and executable rendering and scanning.

use vstd::prelude::*;

verus! {

/// `c` is an ASCII decimal digit.
pub open spec fn is_digit(c: char) -> bool {
    48 <= c as u32 <= 57
}

/// Numeric value of a digit character.
pub open spec fn digit_val(c: char) -> int {
    c as u32 - 48
}

/// Digit character of a value below ten.
pub open spec fn digit_char(d: int) -> char {
    ((48 + d) as u32) as char
}

/// Every character of `s` is an ASCII decimal digit.
pub open spec fn all_digits(s: Seq<char>) -> bool {
    forall|i: int| 0 <= i < s.len() ==> is_digit(#[trigger] s[i])
}

/// The number a digit run denotes, most significant digit first.
pub open spec fn digits_val(s: Seq<char>) -> int
    decreases s.len(),
{
    if s.len() == 0 {
        0
    } else {
        digits_val(s.drop_last()) * 10 + digit_val(s.last())
    }
}

/// The canonical digit run of `n >= 0`: no leading zero except for zero itself.
pub open spec fn dec_digits(n: int) -> Seq<char>
    decreases n,
{
    if n < 10 {
        seq![digit_char(n)]
    } else {
        dec_digits(n / 10).push(digit_char(n % 10))
    }
}

/// The canonical text of a signed integer.
pub open spec fn int_seq(i: int) -> Seq<char> {
    if i < 0 {
        seq!['-'] + dec_digits(-i)
    } else {
        dec_digits(i)
    }
}

proof fn lemma_digit_char_val(d: int)
    requires
        0 <= d <= 9,
    ensures
        is_digit(digit_char(d)),
        digit_val(digit_char(d)) == d,
{
}

pub proof fn lemma_digits_val_nonneg(s: Seq<char>)
    requires
        all_digits(s),
    ensures
        digits_val(s) >= 0,
    decreases s.len(),
{
    if s.len() > 0 {
        lemma_digits_val_nonneg(s.drop_last());
    }
}

/// Extending a digit run multiplies its value by ten and adds the new digit.
pub proof fn lemma_digits_val_take(s: Seq<char>, j: int)
    requires
        0 <= j < s.len(),
    ensures
        digits_val(s.take(j + 1)) == digits_val(s.take(j)) * 10 + digit_val(s[j]),
{
    assert(s.take(j + 1).drop_last() =~= s.take(j));
    assert(s.take(j + 1).last() == s[j]);
}

/// A digit run is worth at least any of its prefixes.
pub proof fn lemma_digits_val_prefix(s: Seq<char>, j: int)
    requires
        all_digits(s),
        0 <= j <= s.len(),
    ensures
        digits_val(s) >= digits_val(s.take(j)),
        digits_val(s.take(j)) >= 0,
    decreases s.len() - j,
{
    assert(forall|i: int| 0 <= i < j ==> is_digit(#[trigger] s.take(j)[i]));
    lemma_digits_val_nonneg(s.take(j));
    if j < s.len() {
        lemma_digits_val_take(s, j);
        lemma_digits_val_prefix(s, j + 1);
    } else {
        assert(s.take(j) =~= s);
    }
}

/// The canonical digit run of `n` reads back as `n`, consists of digits, and
/// has a leading zero only when it is the single digit of zero itself.
pub proof fn lemma_dec_digits(n: int)
    requires
        n >= 0,
    ensures
        all_digits(dec_digits(n)),
        digits_val(dec_digits(n)) == n,
        dec_digits(n).len() >= 1,
        n >= 10 ==> dec_digits(n).len() >= 2,
        dec_digits(n)[0] == '0' <==> n == 0,
    decreases n,
{
    assert(('0' as u32) == 48);
    if n < 10 {
        lemma_digit_char_val(n);
        assert(dec_digits(n).drop_last() =~= Seq::<char>::empty());
        assert(dec_digits(n).last() == digit_char(n));
        assert(digits_val(Seq::<char>::empty()) == 0);
        assert(digits_val(dec_digits(n)) == digits_val(dec_digits(n).drop_last()) * 10 + digit_val(dec_digits(n).last()));
        assert(digits_val(dec_digits(n)) == n);
    } else {
        lemma_dec_digits(n / 10);
        lemma_digit_char_val(n % 10);
        vstd::arithmetic::div_mod::lemma_fundamental_div_mod(n, 10);
        let s = dec_digits(n);
        assert(s.drop_last() =~= dec_digits(n / 10));
        assert(s[0] == dec_digits(n / 10)[0]);
    }
}

/// Digit runs of bounded length denote bounded values, and conversely.
pub proof fn lemma_dec_digits_len(n: int, k: nat)
    requires
        0 <= n < crate::value::pow10(k),
        k >= 1,
    ensures
        dec_digits(n).len() <= k,
    decreases k,
{
    if n >= 10 {
        assert(crate::value::pow10(k) == 10 * crate::value::pow10((k - 1) as nat));
        lemma_dec_digits_len(n / 10, (k - 1) as nat);
    }
}

} // verus!

verus! {

/// The digit characters of `v` read back to front.
pub open spec fn rev_chars(v: Seq<u8>) -> Seq<char> {
    Seq::new(v.len(), |i: int| ((v[v.len() - 1 - i] as u32) as char))
}

proof fn lemma_rev_push(v: Seq<u8>, x: u8)
    ensures
        rev_chars(v.push(x)) =~= seq![((x as u32) as char)] + rev_chars(v),
{
}

/// A run of zero characters.
pub open spec fn zero_run(k: nat) -> Seq<char> {
    Seq::new(k, |i: int| '0')
}

/// The digit run of `n` left-padded with zeros to at least `w` digits.
pub open spec fn padded_digits(n: int, w: nat) -> Seq<char> {
    if dec_digits(n).len() >= w {
        dec_digits(n)
    } else {
        zero_run((w - dec_digits(n).len()) as nat) + dec_digits(n)
    }
}

/// One digit as text.
fn digit_str(code: u8) -> (r: &'static str)
    requires
        48 <= code <= 57,
    ensures
        r@ =~= seq![((code as u32) as char)],
{
    broadcast use vstd::utf8::char_u32_cast;

    proof {
        reveal_strlit("0");
        reveal_strlit("1");
        reveal_strlit("2");
        reveal_strlit("3");
        reveal_strlit("4");
        reveal_strlit("5");
        reveal_strlit("6");
        reveal_strlit("7");
        reveal_strlit("8");
        reveal_strlit("9");
    }
    match code {
        48 => "0",
        49 => "1",
        50 => "2",
        51 => "3",
        52 => "4",
        53 => "5",
        54 => "6",
        55 => "7",
        56 => "8",
        _ => "9",
    }
}

/// The digit codes of `n`, least significant first.
fn digit_codes(n: u64) -> (v: Vec<u8>)
    ensures
        rev_chars(v@) == dec_digits(n as int),
        forall|i: int| 0 <= i < v@.len() ==> 48 <= #[trigger] v@[i] <= 57,
{
    let mut v: Vec<u8> = Vec::new();
    let mut m: u64 = n;
    loop
        invariant_except_break
            v@.len() == 0 ==> m == n,
            v@.len() > 0 ==> m > 0 && dec_digits(n as int) == dec_digits(m as int) + rev_chars(
                v@,
            ),
        invariant
            forall|i: int| 0 <= i < v@.len() ==> 48 <= #[trigger] v@[i] <= 57,
        ensures
            rev_chars(v@) == dec_digits(n as int),
        decreases m,
    {
        let ghost v0 = v@;
        let ghost m0 = m as int;
        let d: u8 = (m % 10) as u8 + 48;
        v.push(d);
        proof {
            vstd::arithmetic::div_mod::lemma_fundamental_div_mod(m0, 10);
            lemma_rev_push(v0, d);
            assert(((d as u32) as char) == digit_char(m0 % 10));
            if v0.len() == 0 {
                if m0 < 10 {
                    assert(dec_digits(n as int) =~= rev_chars(v@));
                } else {
                    assert(dec_digits(n as int) =~= dec_digits(m0 / 10) + rev_chars(v@));
                }
            } else if m0 < 10 {
                assert(dec_digits(m0 as int) =~= seq![digit_char(m0)]);
                assert(dec_digits(n as int) =~= rev_chars(v@));
            } else {
                assert(dec_digits(m0 as int) =~= dec_digits(m0 / 10) + seq![digit_char(m0 % 10)]);
                assert(dec_digits(n as int) =~= dec_digits(m0 / 10) + rev_chars(v@));
            }
        }
        m = m / 10;
        if m == 0 {
            break;
        }
    }
    v
}

/// Appends the digits of `v` back to front.
fn append_rev(out: &mut String, v: &Vec<u8>)
    requires
        forall|i: int| 0 <= i < v@.len() ==> 48 <= #[trigger] v@[i] <= 57,
    ensures
        final(out)@ == old(out)@ + rev_chars(v@),
{
    let len = v.len();
    let mut j = len;
    while j > 0
        invariant
            j <= len,
            len == v@.len(),
            forall|i: int| 0 <= i < v@.len() ==> 48 <= #[trigger] v@[i] <= 57,
            out@ == old(out)@ + rev_chars(v@).take(len - j),
        decreases j,
    {
        let ghost k = (len - j) as int;
        out.append(digit_str(v[j - 1]));
        proof {
            assert(rev_chars(v@)[k] == ((v@[j - 1] as u32) as char));
            assert(rev_chars(v@).take(k + 1) =~= rev_chars(v@).take(k).push(rev_chars(v@)[k]));
            assert(out@ =~= old(out)@ + rev_chars(v@).take(k + 1));
        }
        j = j - 1;
    }
    proof {
        assert(rev_chars(v@).take(len as int) =~= rev_chars(v@));
    }
}

/// Appends the canonical digit run of `n`.
pub fn push_uint(out: &mut String, n: u64)
    ensures
        final(out)@ == old(out)@ + dec_digits(n as int),
{
    let v = digit_codes(n);
    append_rev(out, &v);
}

/// Appends the digit run of `n` left-padded with zeros to `w` digits.
pub fn push_uint_padded(out: &mut String, n: u64, w: usize)
    ensures
        final(out)@ == old(out)@ + padded_digits(n as int, w as nat),
{
    let v = digit_codes(n);
    let mut pad: usize = 0;
    let padcount: usize = if v.len() >= w { 0 } else { w - v.len() };
    let ghost padlen: int = padcount as int;
    while pad < padcount
        invariant
            0 <= pad <= padcount,
            padlen == padcount as int,
            padlen == if v@.len() >= w { 0int } else { w - v@.len() },
            out@ == old(out)@ + zero_run(pad as nat),
            forall|i: int| 0 <= i < v@.len() ==> 48 <= #[trigger] v@[i] <= 57,
            rev_chars(v@) == dec_digits(n as int),
        decreases padlen - pad,
    {
        out.append("0");
        proof {
            reveal_strlit("0");
            assert(out@ =~= old(out)@ + zero_run((pad + 1) as nat));
        }
        pad = pad + 1;
    }
    append_rev(out, &v);
    proof {
        assert(rev_chars(v@).len() == dec_digits(n as int).len());
        if dec_digits(n as int).len() >= w {
            assert(final(out)@ =~= old(out)@ + padded_digits(n as int, w as nat));
        } else {
            assert(zero_run(padlen as nat) + dec_digits(n as int) =~= padded_digits(n as int, w as nat));
            assert(final(out)@ =~= old(out)@ + padded_digits(n as int, w as nat));
        }
    }
}

/// Appends the canonical text of `i`, minus sign included.
pub fn push_int(out: &mut String, i: i64)
    ensures
        final(out)@ == old(out)@ + int_seq(i as int),
{
    if i < 0 {
        out.append("-");
        let m: u64 = (-(i as i128)) as u64;
        push_uint(out, m);
        proof {
            reveal_strlit("-");
            assert(final(out)@ =~= old(out)@ + int_seq(i as int));
        }
    } else {
        push_uint(out, i as u64);
    }
}

} // verus!

verus! {

/// Checks that every character of `s` in `[from, to)` is a digit.
pub fn check_digits(s: &str, from: usize, to: usize) -> (r: bool)
    requires
        from <= to <= s@.len(),
    ensures
        r == all_digits(s@.subrange(from as int, to as int)),
{
    let ghost sub = s@.subrange(from as int, to as int);
    let mut i = from;
    while i < to
        invariant
            from <= i <= to <= s@.len(),
            sub == s@.subrange(from as int, to as int),
            forall|j: int| 0 <= j < i - from ==> is_digit(#[trigger] sub[j]),
        decreases to - i,
    {
        let c = s.get_char(i);
        let u = c as u32;
        if u < 48 || u > 57 {
            assert(sub[i - from] == s@[i as int]);
            return false;
        }
        assert(sub[i - from] == s@[i as int]);
        i = i + 1;
    }
    true
}

/// Reads the number a digit run denotes; `None` when it exceeds `u64::MAX`.
pub fn scan_digits_val(s: &str, from: usize, to: usize) -> (r: Option<u64>)
    requires
        from <= to <= s@.len(),
        all_digits(s@.subrange(from as int, to as int)),
    ensures
        match r {
            Some(v) => v == digits_val(s@.subrange(from as int, to as int)),
            None => digits_val(s@.subrange(from as int, to as int)) > u64::MAX,
        },
{
    let ghost sub = s@.subrange(from as int, to as int);
    proof {
        lemma_digits_val_prefix(sub, 0);
    }
    let mut acc: u64 = 0;
    let mut i = from;
    while i < to
        invariant
            from <= i <= to <= s@.len(),
            sub == s@.subrange(from as int, to as int),
            all_digits(sub),
            acc == digits_val(sub.take(i - from)),
        decreases to - i,
    {
        let ghost k = i - from;
        let c = s.get_char(i);
        assert(sub[k] == s@[i as int]);
        assert(is_digit(sub[k]));
        let d: u64 = (c as u32 - 48) as u64;
        proof {
            lemma_digits_val_take(sub, k);
        }
        let shifted = match acc.checked_mul(10) {
            Some(x) => x,
            None => {
                proof {
                    lemma_digits_val_prefix(sub, k + 1);
                }
                return None;
            },
        };
        acc = match shifted.checked_add(d) {
            Some(x) => x,
            None => {
                proof {
                    lemma_digits_val_prefix(sub, k + 1);
                }
                return None;
            },
        };
        i = i + 1;
    }
    proof {
        assert(sub.take(to - from) =~= sub);
    }
    Some(acc)
}

/// The canonical text of the decimal `man / 10^scale`: sign, integer part,
/// point, and exactly `scale` fractional digits.
pub open spec fn dec_seq(man: int, scale: nat) -> Seq<char> {
    let a = if man < 0 {
        -man
    } else {
        man
    };
    let sign: Seq<char> = if man < 0 {
        seq!['-']
    } else {
        Seq::empty()
    };
    sign + dec_digits(a / crate::value::pow10(scale)) + seq!['.'] + padded_digits(
        a % crate::value::pow10(scale),
        scale,
    )
}

/// Appends the canonical text of the decimal `man / 10^scale`.
pub fn push_dec(out: &mut String, man: i64, scale: u32)
    requires
        1 <= scale <= 18,
    ensures
        final(out)@ == old(out)@ + dec_seq(man as int, scale as nat),
{
    proof {
        crate::value::lemma_pow10_pos(scale as nat);
        crate::value::lemma_pow10_mono(scale as nat, 18);
        crate::value::lemma_pow10_18();
    }
    let a: u64 = if man < 0 {
        (-(man as i128)) as u64
    } else {
        man as u64
    };
    let p: u64 = pow10_u64(scale);
    let ip: u64 = a / p;
    let fp: u64 = a % p;
    if man < 0 {
        out.append("-");
    }
    push_uint(out, ip);
    out.append(".");
    push_uint_padded(out, fp, scale as usize);
    proof {
        reveal_strlit("-");
        reveal_strlit(".");
        assert(final(out)@ =~= old(out)@ + dec_seq(man as int, scale as nat));
    }
}

/// Raises 10 to `n` within `u64`.
pub fn pow10_u64(n: u32) -> (r: u64)
    requires
        n <= 18,
    ensures
        r == crate::value::pow10(n as nat),
{
    let mut r: u64 = 1;
    let mut i: u32 = 0;
    while i < n
        invariant
            i <= n,
            n <= 18,
            r == crate::value::pow10(i as nat),
        decreases n - i,
    {
        proof {
            crate::value::lemma_pow10_mono((i + 1) as nat, 18);
            crate::value::lemma_pow10_18();
            crate::value::lemma_pow10_pos(i as nat);
        }
        r = r * 10;
        i = i + 1;
    }
    r
}

} // verus!
