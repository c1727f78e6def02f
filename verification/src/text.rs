//! Decimal text for the values a directive can print.
//!
//! Integers are rendered in the usual decimal form.  A real (held as the
//! bit pattern of an IEEE-754 double) is rendered exactly: NaN as `NaN`,
//! infinities as `inf` / `-inf`, integral values as plain integers, and
//! other finite values as the exact decimal expansion of the value the
//! bits denote, with trailing fractional zeros dropped.  Every finite
//! binary fraction has a finite decimal expansion, so the rendering is
//! total and deterministic.  A value that is no binary fraction prints
//! every digit of its exact value — a tenth prints 55 fractional digits —
//! rather than a shortened approximation.

use vstd::prelude::*;

verus! {

/// Ten to the `k`.
pub open spec fn pow10(k: nat) -> nat
    decreases k,
{
    if k == 0 {
        1
    } else {
        10 * pow10((k - 1) as nat)
    }
}

/// The character of one decimal digit.
pub open spec fn dec_digit_char(d: int) -> char {
    if d == 0 {
        '0'
    } else if d == 1 {
        '1'
    } else if d == 2 {
        '2'
    } else if d == 3 {
        '3'
    } else if d == 4 {
        '4'
    } else if d == 5 {
        '5'
    } else if d == 6 {
        '6'
    } else if d == 7 {
        '7'
    } else if d == 8 {
        '8'
    } else {
        '9'
    }
}

/// Decimal text of a natural number, most significant digit first.
pub open spec fn dec_chars(n: nat) -> Seq<char>
    decreases n,
{
    if n < 10 {
        seq![dec_digit_char(n as int)]
    } else {
        dec_chars(n / 10).push(dec_digit_char((n % 10) as int))
    }
}

/// Decimal text of an integer: a leading `-` for negative values.
pub open spec fn int_chars(i: int) -> Seq<char> {
    if i < 0 {
        seq!['-'] + dec_chars((-i) as nat)
    } else {
        dec_chars(i as nat)
    }
}

/// One decimal digit as a string slice.
fn digit_str(d: u64) -> (r: &'static str)
    requires
        d < 10,
    ensures
        r@ == seq![dec_digit_char(d as int)],
{
    proof {
        reveal_strlit("0");
        reveal_strlit("1");
        reveal_strlit("2");
        reveal_strlit("3");
        reveal_strlit("4");
        reveal_strlit("5");
        reveal_strlit("6");
        reveal_strlit("7");
        reveal_strlit("8");
        reveal_strlit("9");
    }
    let r = match d {
        0 => "0",
        1 => "1",
        2 => "2",
        3 => "3",
        4 => "4",
        5 => "5",
        6 => "6",
        7 => "7",
        8 => "8",
        _ => "9",
    };
    proof {
        assert(r@ =~= seq![dec_digit_char(d as int)]);
    }
    r
}

/// Decimal text of a 64-bit natural number.
pub fn u64_text(n: u64) -> (s: String)
    ensures
        s@ == dec_chars(n as nat),
    decreases n,
{
    if n < 10 {
        digit_str(n).to_owned()
    } else {
        let mut s = u64_text(n / 10);
        s.append(digit_str(n % 10));
        proof {
            assert(s@ =~= dec_chars(n as nat));
        }
        s
    }
}

/// Decimal text of a signed 64-bit integer.
pub fn i64_text(v: i64) -> (s: String)
    ensures
        s@ == int_chars(v as int),
{
    if v < 0 {
        let magnitude: u64 = ((-(v + 1)) as u64) + 1;
        let mut s = String::from_str("-");
        proof {
            reveal_strlit("-");
        }
        s.append(u64_text(magnitude).as_str());
        proof {
            assert(s@ =~= int_chars(v as int));
        }
        s
    } else {
        u64_text(v as u64)
    }
}

/// Decimal text of an entity identifier.
pub fn usize_text(n: usize) -> (s: String)
    ensures
        s@ == dec_chars(n as nat),
{
    u64_text(n as u64)
}

} // verus!

use vstd::arithmetic::div_mod::lemma_fundamental_div_mod_converse;
use crate::property::{real_abs, real_is_nan, REAL_EXP, REAL_SIGN};

verus! {

/// `b` to the `k`.
pub open spec fn npow(b: nat, k: nat) -> nat
    decreases k,
{
    if k == 0 {
        1
    } else {
        b * npow(b, (k - 1) as nat)
    }
}

proof fn lemma_npow_pos(b: nat, k: nat)
    requires
        b >= 1,
    ensures
        npow(b, k) >= 1,
    decreases k,
{
    if k > 0 {
        lemma_npow_pos(b, (k - 1) as nat);
        assert(b * npow(b, (k - 1) as nat) >= 1 * npow(b, (k - 1) as nat)) by (nonlinear_arith)
            requires b >= 1, npow(b, (k - 1) as nat) >= 1;
    }
}

proof fn lemma_pow10_is_npow(k: nat)
    ensures
        pow10(k) == npow(10, k),
    decreases k,
{
    if k > 0 {
        lemma_pow10_is_npow((k - 1) as nat);
    }
}

/// A number held as a vector of decimal digits, least significant first.
pub open spec fn digits_ok(s: Seq<u8>) -> bool {
    forall|i: int| 0 <= i < s.len() ==> s[i] < 10
}

/// The value a digit vector denotes.
pub open spec fn digits_val(s: Seq<u8>) -> nat
    decreases s.len(),
{
    if s.len() == 0 {
        0
    } else {
        (s[0] + 10 * digits_val(s.skip(1))) as nat
    }
}

proof fn lemma_digits_val_split(s: Seq<u8>, k: int)
    requires
        0 <= k <= s.len(),
    ensures
        digits_val(s) == digits_val(s.take(k)) + pow10(k as nat) * digits_val(s.skip(k)),
    decreases k,
{
    if k == 0 {
        assert(s.take(0) =~= Seq::<u8>::empty());
        assert(s.skip(0) =~= s);
        assert(digits_val(s.take(0)) == 0);
        assert(pow10(0) == 1);
        assert(1 * digits_val(s) == digits_val(s)) by (nonlinear_arith);
        assert(digits_val(s) == digits_val(s.take(k)) + pow10(k as nat) * digits_val(s.skip(k)));
    } else {
        lemma_digits_val_split(s.skip(1), k - 1);
        assert(s.skip(1).take(k - 1) =~= s.take(k).skip(1));
        assert(s.skip(1).skip(k - 1) =~= s.skip(k));
        assert(s.take(k)[0] == s[0]);
        assert(s.take(k).len() == k);
        // digits_val(s) == s[0] + 10 * digits_val(s.skip(1))
        // digits_val(s.take(k)) == s[0] + 10 * digits_val(s.take(k).skip(1))
        let a = digits_val(s.take(k).skip(1));
        let b = digits_val(s.skip(k));
        let p = pow10((k - 1) as nat);
        assert(digits_val(s.skip(1)) == a + p * b);
        assert(digits_val(s) == s[0] + 10 * digits_val(s.skip(1)));
        assert(digits_val(s.take(k)) == s[0] + 10 * a);
        assert(pow10(k as nat) == 10 * p);
        assert(10 * (a + p * b) == 10 * a + (10 * p) * b) by (nonlinear_arith);
        assert(pow10(k as nat) * b == (10 * p) * b) by (nonlinear_arith)
            requires pow10(k as nat) == 10 * p;
        assert(digits_val(s) == digits_val(s.take(k)) + pow10(k as nat) * digits_val(s.skip(k)));
    }
}

proof fn lemma_digits_val_bound(s: Seq<u8>)
    requires
        digits_ok(s),
    ensures
        digits_val(s) < pow10(s.len()),
    decreases s.len(),
{
    if s.len() == 0 {
    } else {
        lemma_digits_val_bound(s.skip(1));
        let r = digits_val(s.skip(1));
        let p = pow10((s.len() - 1) as nat);
        assert(r <= p - 1);
        assert(10 * r <= 10 * (p - 1)) by (nonlinear_arith)
            requires r <= p - 1, p >= 0;
    }
}

proof fn lemma_digits_val_lower(s: Seq<u8>)
    requires
        digits_ok(s),
        s.len() >= 1,
        s.last() != 0,
    ensures
        digits_val(s) >= pow10((s.len() - 1) as nat),
    decreases s.len(),
{
    if s.len() == 1 {
        assert(digits_val(s) == s[0] + 10 * digits_val(s.skip(1)));
        assert(s.skip(1).len() == 0);
    } else {
        lemma_digits_val_lower(s.skip(1));
        let r = digits_val(s.skip(1));
        let p = pow10((s.len() - 2) as nat);
        assert(10 * r >= 10 * p) by (nonlinear_arith)
            requires r >= p;
    }
}

proof fn lemma_digits_val_zero(s: Seq<u8>)
    requires
        digits_val(s) == 0,
    ensures
        forall|i: int| 0 <= i < s.len() ==> s[i] == 0,
    decreases s.len(),
{
    if s.len() > 0 {
        assert(digits_val(s) == s[0] + 10 * digits_val(s.skip(1)));
        lemma_digits_val_zero(s.skip(1));
        assert forall|i: int| 0 <= i < s.len() implies s[i] == 0 by {
            if i > 0 {
                assert(s.skip(1)[i - 1] == 0);
            }
        }
    }
}

proof fn lemma_digits_val_all_zero(s: Seq<u8>)
    requires
        forall|i: int| 0 <= i < s.len() ==> s[i] == 0,
    ensures
        digits_val(s) == 0,
    decreases s.len(),
{
    if s.len() > 0 {
        assert(s.skip(1) =~= s.subrange(1, s.len() as int));
        lemma_digits_val_all_zero(s.skip(1));
    }
}

/// The digit characters of a digit vector, most significant first.
pub open spec fn rev_chars(s: Seq<u8>) -> Seq<char> {
    Seq::new(s.len(), |i: int| dec_digit_char(s[s.len() - 1 - i] as int))
}

proof fn lemma_rev_chars_step(s: Seq<u8>)
    requires
        s.len() >= 1,
    ensures
        rev_chars(s) == rev_chars(s.skip(1)).push(dec_digit_char(s[0] as int)),
{
    assert(rev_chars(s) =~= rev_chars(s.skip(1)).push(dec_digit_char(s[0] as int)));
}

proof fn lemma_digits_chars(s: Seq<u8>)
    requires
        digits_ok(s),
        s.len() >= 1,
        s.len() == 1 || s.last() != 0,
    ensures
        rev_chars(s) == dec_chars(digits_val(s)),
    decreases s.len(),
{
    let n = digits_val(s);
    let r = digits_val(s.skip(1));
    assert(n == s[0] + 10 * r);
    if s.len() == 1 {
        assert(s.skip(1).len() == 0);
        assert(n == s[0]);
        assert(rev_chars(s) =~= seq![dec_digit_char(s[0] as int)]);
    } else {
        lemma_digits_val_lower(s);
        assert(pow10((s.len() - 1) as nat) >= 10) by {
            lemma_pow10_is_npow((s.len() - 1) as nat);
            lemma_npow_pos(10, (s.len() - 2) as nat);
        }
        assert(n >= 10);
        lemma_fundamental_div_mod_converse(n as int, 10, r as int, s[0] as int);
        assert(n / 10 == r);
        assert(n % 10 == s[0]);
        lemma_digits_chars(s.skip(1));
        lemma_rev_chars_step(s);
    }
}

proof fn lemma_digits_val_push(s: Seq<u8>, d: u8)
    ensures
        digits_val(s.push(d)) == digits_val(s) + d * pow10(s.len()),
{
    lemma_digits_val_split(s.push(d), s.len() as int);
    assert(s.push(d).take(s.len() as int) =~= s);
    let tail = s.push(d).skip(s.len() as int);
    assert(tail.len() == 1);
    assert(tail[0] == d);
    assert(digits_val(tail) == d + 10 * digits_val(tail.skip(1)));
    assert(tail.skip(1).len() == 0);
    assert(pow10(s.len()) * (d as nat) == (d as nat) * pow10(s.len())) by (nonlinear_arith);
}

} // verus!

verus! {

/// The decimal digits of a 64-bit natural number, least significant first.
fn digits_from_u64(n: u64) -> (v: Vec<u8>)
    ensures
        digits_ok(v@),
        digits_val(v@) == n,
        v@.len() >= 1,
    decreases n,
{
    if n < 10 {
        let mut v: Vec<u8> = Vec::new();
        v.push(n as u8);
        proof {
            assert(v@.skip(1).len() == 0);
            assert(v@[0] == n as u8);
            assert(digits_val(v@.skip(1)) == 0);
            assert(digits_val(v@) == n);
        }
        v
    } else {
        let mut v = digits_from_u64(n / 10);
        let ghost w = v@;
        v.insert(0, (n % 10) as u8);
        proof {
            assert(v@.skip(1) =~= w);
            assert(digits_val(v@) == n % 10 + 10 * (n as nat / 10));
            assert(n == 10 * (n / 10) + n % 10);
            assert(digits_val(v@) == n);
        }
        v
    }
}

/// Multiply a digit vector in place by a small factor.
fn mul_small(v: &mut Vec<u8>, c: u8)
    requires
        digits_ok(old(v)@),
        2 <= c <= 5,
    ensures
        digits_ok(final(v)@),
        digits_val(final(v)@) == c * digits_val(old(v)@),
{
    let ghost orig = old(v)@;
    let mut carry: u8 = 0;
    let mut i: usize = 0;
    proof {
        assert(v@.skip(0) =~= orig);
        assert(v@.take(0) =~= Seq::<u8>::empty());
        assert(pow10(0) == 1);
        assert(1 * (0 + c * digits_val(orig)) == c * digits_val(orig)) by (nonlinear_arith);
    }
    while i < v.len()
        invariant
            i <= v@.len(),
            v@.len() == orig.len(),
            2 <= c <= 5,
            carry < c,
            digits_ok(orig),
            digits_ok(v@.take(i as int)),
            v@.skip(i as int) == orig.skip(i as int),
            digits_val(v@.take(i as int)) + pow10(i as nat) * (carry + c * digits_val(
                orig.skip(i as int),
            )) == c * digits_val(orig),
        decreases v@.len() - i,
    {
        let ghost pre = v@;
        let ghost rest = digits_val(orig.skip(i as int + 1));
        let d: u8 = v[i];
        proof {
            assert(orig.skip(i as int)[0] == orig[i as int]);
            assert(d == orig[i as int]);
            assert(d < 10);
            assert(d * c <= 45) by (nonlinear_arith)
                requires d < 10, c <= 5;
        }
        let x: u8 = d * c + carry;
        v.set(i, x % 10);
        proof {
            let p = pow10(i as nat);
            assert(orig.skip(i as int).skip(1) =~= orig.skip(i as int + 1));
            assert(digits_val(orig.skip(i as int)) == d + 10 * rest);
            assert(v@.take(i as int + 1) =~= pre.take(i as int).push((x % 10) as u8));
            lemma_digits_val_push(pre.take(i as int), (x % 10) as u8);
            assert(v@.skip(i as int + 1) =~= orig.skip(i as int + 1));
            // carry + c * (d + 10 * rest) == x + 10 * (c * rest)
            assert(p * (carry + c * (d + 10 * rest)) == p * (x % 10) + (10 * p) * (x / 10 + c
                * rest)) by (nonlinear_arith)
                requires x == c * d + carry, x < 100, x % 10 == x - 10 * (x / 10), p >= 0;
            assert(x % 10 == x - 10 * (x / 10));
            assert(pow10(i as nat + 1) == 10 * p);
            assert((x % 10) * p == p * (x % 10)) by (nonlinear_arith);
            assert(x / 10 < c) by (nonlinear_arith)
                requires x == c * d + carry, d < 10, carry < c, 2 <= c;
        }
        carry = x / 10;
        i = i + 1;
    }
    proof {
        assert(v@.take(i as int) =~= v@);
        assert(orig.skip(i as int).len() == 0);
        assert(c * 0 == 0) by (nonlinear_arith);
    }
    if carry > 0 {
        let ghost pre = v@;
        v.push(carry);
        proof {
            lemma_digits_val_push(pre, carry);
            assert(carry * pow10(pre.len()) == pow10(pre.len()) * carry) by (nonlinear_arith);
            assert(pow10(i as nat) * (carry + c * 0) == pow10(i as nat) * carry) by (nonlinear_arith);
        }
    } else {
        proof {
            assert(pow10(i as nat) * (0 + c * 0) == 0) by (nonlinear_arith);
        }
    }
}

/// Multiply a digit vector in place by `c` to the `k`.
fn mul_small_pow(v: &mut Vec<u8>, c: u8, k: u64)
    requires
        digits_ok(old(v)@),
        2 <= c <= 5,
    ensures
        digits_ok(final(v)@),
        digits_val(final(v)@) == digits_val(old(v)@) * npow(c as nat, k as nat),
{
    let ghost orig = digits_val(old(v)@);
    let mut j: u64 = 0;
    proof {
        assert(orig * 1 == orig) by (nonlinear_arith);
    }
    while j < k
        invariant
            j <= k,
            2 <= c <= 5,
            digits_ok(v@),
            digits_val(v@) == orig * npow(c as nat, j as nat),
        decreases k - j,
    {
        mul_small(v, c);
        proof {
            assert(npow(c as nat, j as nat + 1) == c * npow(c as nat, j as nat));
            assert(c * (orig * npow(c as nat, j as nat)) == orig * (c * npow(c as nat, j as nat)))
                by (nonlinear_arith);
        }
        j = j + 1;
    }
}

} // verus!

verus! {

/// Implicit-one bit of an IEEE-754 double; also its fraction-field modulus.
pub const REAL_MANT: u64 = 0x10_0000_0000_0000;

/// Biased exponent field of a real.
pub open spec fn real_biased_exp(bits: u64) -> nat {
    (real_abs(bits) / REAL_MANT) as nat
}

/// Fraction field of a real.
pub open spec fn real_frac(bits: u64) -> nat {
    (real_abs(bits) % REAL_MANT) as nat
}

/// Integral significand: the magnitude of the real is
/// `real_mantissa(bits) * 2^real_scale(bits)`.
pub open spec fn real_mantissa(bits: u64) -> nat {
    if real_biased_exp(bits) == 0 {
        real_frac(bits)
    } else {
        (real_frac(bits) + REAL_MANT) as nat
    }
}

/// Binary scale of the significand.
pub open spec fn real_scale(bits: u64) -> int {
    if real_biased_exp(bits) == 0 {
        -1074
    } else {
        real_biased_exp(bits) - 1075
    }
}

/// Exactly `k` decimal digits of `n`, most significant first, zero padded.
pub open spec fn pad_chars(n: nat, k: nat) -> Seq<char>
    decreases k,
{
    if k == 0 {
        Seq::empty()
    } else {
        pad_chars(n / 10, (k - 1) as nat).push(dec_digit_char((n % 10) as int))
    }
}

/// Drop trailing `0` characters.
pub open spec fn trim_tail_zeros(s: Seq<char>) -> Seq<char>
    decreases s.len(),
{
    if s.len() == 0 {
        s
    } else if s.last() == '0' {
        trim_tail_zeros(s.drop_last())
    } else {
        s
    }
}

/// Text of a value `m * 2^e`.
pub open spec fn real_whole_chars(m: nat, e: nat) -> Seq<char> {
    dec_chars(m * npow(2, e))
}

/// Text of a scaled value carrying the point `k` digits from its right
/// end; trailing fractional zeros are dropped.
pub open spec fn scaled_chars(scaled: nat, k: nat) -> Seq<char> {
    let ip = scaled / pow10(k);
    let fp = scaled % pow10(k);
    if fp == 0 {
        dec_chars(ip)
    } else {
        dec_chars(ip) + seq!['.'] + trim_tail_zeros(pad_chars(fp, k))
    }
}

/// Text of a value `m * 2^-k`: `m * 5^k` carries the point `k` digits from
/// its right end.
pub open spec fn real_frac_chars(m: nat, k: nat) -> Seq<char> {
    scaled_chars(m * npow(5, k), k)
}

/// The exact decimal text of the real a bit pattern denotes.
pub open spec fn real_chars(bits: u64) -> Seq<char> {
    if real_is_nan(bits) {
        "NaN"@
    } else {
        let sign: Seq<char> = if bits >= REAL_SIGN {
            seq!['-']
        } else {
            Seq::empty()
        };
        if real_abs(bits) == REAL_EXP {
            sign + "inf"@
        } else if real_mantissa(bits) == 0 {
            sign + seq!['0']
        } else if real_scale(bits) >= 0 {
            sign + real_whole_chars(real_mantissa(bits), real_scale(bits) as nat)
        } else {
            sign + real_frac_chars(real_mantissa(bits), (-real_scale(bits)) as nat)
        }
    }
}

proof fn lemma_pad_chars(s: Seq<u8>)
    requires
        digits_ok(s),
    ensures
        pad_chars(digits_val(s), s.len()) == rev_chars(s),
    decreases s.len(),
{
    if s.len() == 0 {
        assert(pad_chars(0, 0) =~= rev_chars(s));
    } else {
        lemma_pad_chars(s.skip(1));
        let n = digits_val(s);
        let r = digits_val(s.skip(1));
        assert(n == s[0] + 10 * r);
        lemma_fundamental_div_mod_converse(n as int, 10, r as int, s[0] as int);
        lemma_rev_chars_step(s);
    }
}

proof fn lemma_trim_rev(s: Seq<u8>, t: int)
    requires
        digits_ok(s),
        0 <= t <= s.len(),
        forall|i: int| 0 <= i < t ==> s[i] == 0,
        t == s.len() || s[t] != 0,
    ensures
        trim_tail_zeros(rev_chars(s)) == rev_chars(s.skip(t)),
    decreases t,
{
    if t == 0 {
        assert(s.skip(0) =~= s);
        if s.len() > 0 {
            assert(rev_chars(s).last() == dec_digit_char(s[0] as int));
            assert(s[0] != 0);
            assert(dec_digit_char(s[0] as int) != '0');
        }
    } else {
        assert(s[0] == 0);
        assert(rev_chars(s).last() == dec_digit_char(0));
        assert(rev_chars(s).drop_last() =~= rev_chars(s.skip(1)));
        lemma_trim_rev(s.skip(1), t - 1);
        assert(s.skip(1).skip(t - 1) =~= s.skip(t));
    }
}

/// Highest index in `from..` whose digit is not zero.
fn highest_nonzero_from(v: &Vec<u8>, from: usize) -> (r: Option<usize>)
    requires
        from <= v@.len(),
    ensures
        match r {
            Some(h) => from <= h < v@.len() && v@[h as int] != 0 && forall|i: int|
                h < i < v@.len() ==> v@[i] == 0,
            None => forall|i: int| from <= i < v@.len() ==> v@[i] == 0,
        },
{
    let mut i: usize = v.len();
    while i > from
        invariant
            from <= i <= v@.len(),
            forall|i2: int| i <= i2 < v@.len() ==> v@[i2] == 0,
        decreases i,
    {
        i = i - 1;
        if v[i] != 0 {
            return Some(i);
        }
    }
    None
}

/// Lowest index below `upto` whose digit is not zero.
fn lowest_nonzero_below(v: &Vec<u8>, upto: usize) -> (r: Option<usize>)
    requires
        upto <= v@.len(),
    ensures
        match r {
            Some(t) => t < upto && v@[t as int] != 0 && forall|i: int| 0 <= i < t ==> v@[i] == 0,
            None => forall|i: int| 0 <= i < upto ==> v@[i] == 0,
        },
{
    let mut i: usize = 0;
    while i < upto
        invariant
            i <= upto <= v@.len(),
            forall|i2: int| 0 <= i2 < i ==> v@[i2] == 0,
        decreases upto - i,
    {
        if v[i] != 0 {
            return Some(i);
        }
        i = i + 1;
    }
    None
}

/// Append the digits `v[from..to]`, most significant first.
fn push_digits(out: &mut String, v: &Vec<u8>, from: usize, to: usize)
    requires
        digits_ok(v@),
        from <= to,
        to <= v@.len(),
    ensures
        final(out)@ == old(out)@ + rev_chars(v@.subrange(from as int, to as int)),
{
    let mut i: usize = to;
    proof {
        assert(old(out)@ + rev_chars(v@.subrange(to as int, to as int)) =~= old(out)@);
    }
    while i > from
        invariant
            from <= i <= to <= v@.len(),
            digits_ok(v@),
            out@ == old(out)@ + rev_chars(v@.subrange(i as int, to as int)),
        decreases i,
    {
        i = i - 1;
        out.append(digit_str(v[i] as u64));
        proof {
            assert(out@ =~= old(out)@ + rev_chars(v@.subrange(i as int, to as int)));
        }
    }
}

} // verus!

verus! {

/// Append the decimal text of a nonzero digit vector.
fn push_whole(out: &mut String, v: &Vec<u8>)
    requires
        digits_ok(v@),
        digits_val(v@) >= 1,
    ensures
        final(out)@ == old(out)@ + dec_chars(digits_val(v@)),
{
    let vn = v.len();
    let h: usize;
    match highest_nonzero_from(v, 0) {
        Some(found) => {
            h = found;
        },
        None => {
            proof {
                lemma_digits_val_all_zero(v@);
            }
            h = 0;
        },
    }
    proof {
        assert(h < vn);
        lemma_digits_val_split(v@, h as int + 1);
        assert(forall|i: int|
            0 <= i < v@.skip(h as int + 1).len() ==> #[trigger] v@.skip(h as int + 1)[i] == 0);
        lemma_digits_val_all_zero(v@.skip(h as int + 1));
        assert(pow10((h + 1) as nat) * 0 == 0) by (nonlinear_arith);
        assert(v@.take(h as int + 1).last() == v@[h as int]);
        lemma_digits_chars(v@.take(h as int + 1));
        assert(v@.take(h as int + 1) =~= v@.subrange(0, h as int + 1));
    }
    push_digits(out, v, 0, h + 1);
}

/// Append the pointed decimal text of a digit vector whose low `k` digits
/// lie behind the decimal point.
fn push_pointed(out: &mut String, v: &Vec<u8>, k: usize)
    requires
        digits_ok(v@),
        k <= v@.len(),
    ensures
        final(out)@ == old(out)@ + scaled_chars(digits_val(v@), k as nat),
{
    let ghost scaled = digits_val(v@);
    let ghost pk = pow10(k as nat);
    let ghost ipg = scaled / pk;
    let ghost fpg = scaled % pk;
    proof {
        lemma_digits_val_split(v@, k as int);
        lemma_digits_val_bound(v@.take(k as int));
        lemma_pow10_is_npow(k as nat);
        lemma_npow_pos(10, k as nat);
        assert(pk * digits_val(v@.skip(k as int)) == digits_val(v@.skip(k as int)) * pk)
            by (nonlinear_arith);
        lemma_fundamental_div_mod_converse(
            scaled as int,
            pk as int,
            digits_val(v@.skip(k as int)) as int,
            digits_val(v@.take(k as int)) as int,
        );
        assert(ipg == digits_val(v@.skip(k as int)));
        assert(fpg == digits_val(v@.take(k as int)));
    }
    let vn = v.len();
    match highest_nonzero_from(v, k) {
        Some(h) => {
            proof {
                assert(h < vn);
                let w = v@.skip(k as int);
                lemma_digits_val_split(w, h - k + 1);
                assert(forall|i: int|
                    0 <= i < w.skip(h - k + 1).len() ==> #[trigger] w.skip(h - k + 1)[i] == v@[h
                        + 1 + i]);
                lemma_digits_val_all_zero(w.skip(h - k + 1));
                assert(pow10((h - k + 1) as nat) * 0 == 0) by (nonlinear_arith);
                assert(w.take(h - k + 1) =~= v@.subrange(k as int, h as int + 1));
                assert(v@.subrange(k as int, h as int + 1).last() == v@[h as int]);
                lemma_digits_chars(v@.subrange(k as int, h as int + 1));
                assert(ipg == digits_val(v@.subrange(k as int, h as int + 1)));
            }
            push_digits(out, v, k, h + 1);
        },
        None => {
            proof {
                let w = v@.skip(k as int);
                assert(forall|i: int| 0 <= i < w.len() ==> #[trigger] w[i] == v@[k + i]);
                lemma_digits_val_all_zero(w);
                assert(ipg == 0);
                reveal_strlit("0");
                assert("0"@ =~= dec_chars(0));
            }
            out.append("0");
        },
    }
    let ghost mid = out@;
    match lowest_nonzero_below(v, k) {
        Some(t) => {
            out.append(".");
            push_digits(out, v, t, k);
            proof {
                reveal_strlit(".");
                let f = v@.take(k as int);
                if fpg == 0 {
                    lemma_digits_val_zero(f);
                    assert(f[t as int] == 0);
                    assert(false);
                }
                lemma_pad_chars(f);
                lemma_trim_rev(f, t as int);
                assert(f.skip(t as int) =~= v@.subrange(t as int, k as int));
                assert(out@ =~= old(out)@ + scaled_chars(digits_val(v@), k as nat));
            }
        },
        None => {
            proof {
                lemma_digits_val_all_zero(v@.take(k as int));
                assert(fpg == 0);
            }
        },
    }
}

/// The exact decimal text of the real a bit pattern denotes.
pub fn real_text(bits: u64) -> (s: String)
    ensures
        s@ == real_chars(bits),
{
    if crate::property::real_nan_bits(bits) {
        return String::from_str("NaN");
    }
    let abs: u64 = if bits >= REAL_SIGN {
        bits - REAL_SIGN
    } else {
        bits
    };
    proof {
        assert(abs == real_abs(bits));
    }
    let mut s: String = if bits >= REAL_SIGN {
        String::from_str("-")
    } else {
        String::new()
    };
    let ghost sign: Seq<char> = if bits >= REAL_SIGN {
        seq!['-']
    } else {
        Seq::<char>::empty()
    };
    proof {
        reveal_strlit("-");
        assert(s@ =~= sign);
    }
    if abs == REAL_EXP {
        s.append("inf");
        return s;
    }
    let biased: u64 = abs / REAL_MANT;
    let frac: u64 = abs % REAL_MANT;
    let m: u64 = if biased == 0 {
        frac
    } else {
        frac + REAL_MANT
    };
    proof {
        assert(biased == real_biased_exp(bits));
        assert(frac == real_frac(bits));
        assert(m == real_mantissa(bits));
    }
    if m == 0 {
        s.append("0");
        proof {
            reveal_strlit("0");
            assert(s@ =~= sign + seq!['0']);
        }
        return s;
    }
    let mut v = digits_from_u64(m);
    if biased >= 1075 {
        let e: u64 = biased - 1075;
        mul_small_pow(&mut v, 2, e);
        proof {
            assert(real_scale(bits) >= 0);
            assert(e == real_scale(bits));
            lemma_npow_pos(2, e as nat);
            assert(m * npow(2, e as nat) >= 1) by (nonlinear_arith)
                requires m >= 1, npow(2, e as nat) >= 1;
        }
        push_whole(&mut s, &v);
        return s;
    }
    let k: u64 = if biased == 0 {
        1074
    } else {
        1075 - biased
    };
    mul_small_pow(&mut v, 5, k);
    proof {
        assert(real_scale(bits) < 0);
        assert(k == -real_scale(bits));
    }
    let ku: usize = k as usize;
    proof {
        assert(ku == k);
    }
    while v.len() < ku
        invariant
            digits_ok(v@),
            digits_val(v@) == m * npow(5, k as nat),
        decreases ku - v@.len(),
    {
        let ghost pre = v@;
        v.push(0);
        proof {
            lemma_digits_val_push(pre, 0);
            assert((0 as u8) * pow10(pre.len()) == 0) by (nonlinear_arith);
        }
    }
    push_pointed(&mut s, &v, ku);
    s
}

} // verus!

verus! {

/// The display form of a property value: strings verbatim, integers in
/// decimal, reals in their exact decimal form.
pub open spec fn prop_chars(p: crate::property::Property) -> Seq<char> {
    match p {
        crate::property::Property::Text(s) => s@,
        crate::property::Property::Int(i) => int_chars(i as int),
        crate::property::Property::Real(b) => real_chars(b),
    }
}

impl crate::property::Property {
    /// The display form of this value.
    pub fn display(&self) -> (s: String)
        ensures
            s@ == prop_chars(*self),
    {
        match self {
            crate::property::Property::Text(t) => t.clone(),
            crate::property::Property::Int(i) => i64_text(*i),
            crate::property::Property::Real(b) => real_text(*b),
        }
    }
}

} // verus!
