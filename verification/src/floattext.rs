//! Fixed-point text for IEEE-754 encoded values, in integer arithmetic.
//!
//! A finite encoded value is (-1)^sign * m * 2^e for a mantissa `m` and
//! an exponent `e` read from the bit pattern.  Its text with six digits
//! after the decimal point is obtained by scaling the value by one
//! million and rounding to the nearest integer, ties to even.  The spec
//! functions here state that; the exec functions compute it with plain
//! integers, keeping large integer parts as a vector of decimal digits.

use vstd::arithmetic::div_mod::lemma_fundamental_div_mod;
use vstd::arithmetic::div_mod::lemma_fundamental_div_mod_converse;
use vstd::arithmetic::div_mod::lemma_mod_multiples_vanish;
use vstd::arithmetic::power2::lemma2_to64;
use vstd::arithmetic::power2::lemma2_to64_rest;
use vstd::arithmetic::power2::lemma_pow2_adds;
use vstd::arithmetic::power2::lemma_pow2_pos;
use vstd::arithmetic::power2::lemma_pow2_strictly_increases;
use vstd::arithmetic::power2::pow2;
use vstd::prelude::*;
use vstd::string::StringExecFns;

use crate::numtext::dec_pad_str;
use crate::numtext::dec_str;
use crate::numtext::digit_char;
use crate::numtext::push_digit;
use crate::numtext::rev_digit_chars;
use crate::numtext::append_u64_dec;
use crate::numtext::append_u64_dec_padded;

verus! {

/// `n / d`, rounded to the nearest integer, ties to the even neighbour.
pub open spec fn rhe_div(n: nat, d: nat) -> nat
    recommends
        d > 0,
{
    let q = n / d;
    let r = n % d;
    if 2 * r > d {
        q + 1
    } else if 2 * r < d {
        q
    } else if q % 2 == 0 {
        q
    } else {
        q + 1
    }
}

/// The value (-1)^sign * m * 2^e, written with six digits after the
/// decimal point (rounded to nearest, ties to even).
pub open spec fn fixed6_text(sign: nat, m: nat, e: int) -> Seq<char> {
    let scaled = if e >= 0 {
        m * pow2(e as nat) * 1000000
    } else {
        rhe_div(m * 1000000, pow2((-e) as nat))
    };
    (if sign == 1 {
        seq!['-']
    } else {
        Seq::<char>::empty()
    }) + dec_str(scaled / 1000000) + seq!['.'] + dec_pad_str(scaled % 1000000, 6)
}

/// The text of an IEEE-754 binary value with `fracbits` mantissa bits,
/// `expbits` exponent bits and exponent bias `bias`: "NaN", "inf" and
/// "-inf" for the special encodings, otherwise the value with six digits
/// after the decimal point.
pub open spec fn ieee_text(bits: nat, fracbits: nat, expbits: nat, bias: nat) -> Seq<char> {
    let sign = bits / pow2((fracbits + expbits) as nat) % 2;
    let expf = bits / pow2(fracbits) % pow2(expbits);
    let frac = bits % pow2(fracbits);
    if expf == pow2(expbits) - 1 {
        if frac != 0 {
            "NaN"@
        } else if sign == 1 {
            "-inf"@
        } else {
            "inf"@
        }
    } else {
        let m = if expf == 0 {
            frac
        } else {
            (frac + pow2(fracbits)) as nat
        };
        let e: int = if expf == 0 {
            1 - bias - fracbits
        } else {
            expf - bias - fracbits
        };
        fixed6_text(sign, m, e)
    }
}

/// The text of a 32-bit IEEE-754 value given as its bit pattern.
pub open spec fn single_text(bits: u32) -> Seq<char> {
    ieee_text(bits as nat, 23, 8, 127)
}

/// The text of a 64-bit IEEE-754 value given as its bit pattern.
pub open spec fn double_text(bits: u64) -> Seq<char> {
    ieee_text(bits as nat, 52, 11, 1023)
}

/// 10^k.
pub open spec fn pow10(k: nat) -> nat
    decreases k,
{
    if k == 0 {
        1
    } else {
        10 * pow10((k - 1) as nat)
    }
}

/// The number held by a vector of decimal digits, least significant
/// digit first.
pub open spec fn digits_val(ds: Seq<u8>) -> nat
    decreases ds.len(),
{
    if ds.len() == 0 {
        0
    } else {
        (ds[0] + 10 * digits_val(ds.drop_first())) as nat
    }
}

/// A well-formed digit vector: nonempty, digits below ten, and no
/// leading zero unless the number is zero itself.
pub open spec fn digits_wf(ds: Seq<u8>) -> bool {
    &&& ds.len() >= 1
    &&& (forall|i: int| 0 <= i < ds.len() ==> ds[i] < 10)
    &&& (ds.len() == 1 || ds.last() != 0)
}

proof fn lemma_pow10_pos(k: nat)
    ensures
        pow10(k) >= 1,
    decreases k,
{
    if k > 0 {
        lemma_pow10_pos((k - 1) as nat);
    }
}

proof fn lemma_digits_val_push(p: Seq<u8>, x: u8)
    ensures
        digits_val(p.push(x)) == digits_val(p) + x * pow10(p.len()),
    decreases p.len(),
{
    if p.len() == 0 {
        assert(p.push(x) =~= seq![x]);
        assert(seq![x].drop_first() =~= Seq::<u8>::empty());
        assert(digits_val(Seq::<u8>::empty()) == 0);
        assert(seq![x].len() == 1);
        assert(seq![x][0] == x);
        assert(digits_val(seq![x]) == x);
    } else {
        lemma_digits_val_push(p.drop_first(), x);
        assert(p.push(x).drop_first() =~= p.drop_first().push(x));
        let rest = p.drop_first();
        assert(digits_val(p.push(x)) == p[0] + 10 * digits_val(rest.push(x)));
        assert(digits_val(rest.push(x)) == digits_val(rest) + x * pow10(rest.len()));
        assert(10 * (digits_val(rest) + x * pow10(rest.len())) == 10 * digits_val(rest) + 10 * (
        x * pow10(rest.len()))) by (nonlinear_arith);
        assert(10 * (x * pow10(rest.len())) == x * (10 * pow10(rest.len()))) by (nonlinear_arith);
        assert(pow10(p.len()) == 10 * pow10(rest.len()));
    }
}

proof fn lemma_digits_val_lower(ds: Seq<u8>)
    requires
        ds.len() >= 1,
        ds.last() != 0,
    ensures
        digits_val(ds) >= pow10((ds.len() - 1) as nat),
    decreases ds.len(),
{
    if ds.len() == 1 {
        assert(digits_val(ds) == ds[0] + 10 * digits_val(ds.drop_first()));
    } else {
        let rest = ds.drop_first();
        assert(rest.last() == ds.last());
        lemma_digits_val_lower(rest);
        lemma_pow10_pos((rest.len() - 1) as nat);
        assert(digits_val(ds) == ds[0] + 10 * digits_val(rest));
        assert(10 * digits_val(rest) >= 10 * pow10((rest.len() - 1) as nat)) by (nonlinear_arith)
            requires
                digits_val(rest) >= pow10((rest.len() - 1) as nat),
        ;
        assert(pow10((ds.len() - 1) as nat) == 10 * pow10((rest.len() - 1) as nat));
    }
}

proof fn lemma_digits_val_upper(ds: Seq<u8>)
    requires
        forall|i: int| 0 <= i < ds.len() ==> ds[i] < 10,
    ensures
        digits_val(ds) < pow10(ds.len()),
    decreases ds.len(),
{
    if ds.len() == 0 {
    } else {
        let rest = ds.drop_first();
        lemma_digits_val_upper(rest);
        assert(digits_val(ds) == ds[0] + 10 * digits_val(rest));
        assert(10 * digits_val(rest) <= 10 * (pow10(rest.len()) - 1)) by (nonlinear_arith)
            requires
                digits_val(rest) < pow10(rest.len()),
        ;
        assert(pow10(ds.len()) == 10 * pow10(rest.len()));
    }
}

/// The decimal writing of the number a well-formed digit vector holds is
/// exactly the digit vector read backwards.
proof fn lemma_dec_str_digits(ds: Seq<u8>)
    requires
        digits_wf(ds),
    ensures
        dec_str(digits_val(ds)) == rev_digit_chars(ds),
    decreases ds.len(),
{
    if ds.len() == 1 {
        assert(ds.drop_first() =~= Seq::<u8>::empty());
        assert(digits_val(Seq::<u8>::empty()) == 0);
        assert(digits_val(ds) == ds[0]);
        assert(dec_str(ds[0] as nat) == seq![digit_char(ds[0] as nat)]);
        assert(dec_str(digits_val(ds)) =~= rev_digit_chars(ds));
    } else {
        let rest = ds.drop_first();
        assert(rest.last() == ds.last());
        lemma_dec_str_digits(rest);
        lemma_digits_val_lower(rest);
        lemma_pow10_pos((rest.len() - 1) as nat);
        let v = digits_val(ds);
        assert(v == ds[0] + 10 * digits_val(rest));
        lemma_fundamental_div_mod_converse(v as int, 10, digits_val(rest) as int, ds[0] as int);
        assert(v / 10 == digits_val(rest));
        assert(v % 10 == ds[0]);
        assert(v >= 10);
        assert(dec_str(v) == dec_str(digits_val(rest)).push(digit_char(ds[0] as nat)));
        assert(dec_str(v) =~= rev_digit_chars(ds));
    }
}

/// The decimal digits of `m`, least significant first.
fn u64_digits(m: u64) -> (d: Vec<u8>)
    ensures
        digits_wf(d@),
        digits_val(d@) == m,
{
    let mut d: Vec<u8> = Vec::new();
    let mut v: u64 = m;
    proof {
        assert(digits_val(d@) == 0);
        assert(pow10(0) == 1);
    }
    while v > 0
        invariant
            forall|i: int| 0 <= i < d@.len() ==> d@[i] < 10,
            digits_val(d@) + v * pow10(d@.len()) == m,
            v == 0 && d@.len() > 0 ==> (d@.len() == 1 || d@.last() != 0),
        decreases v,
    {
        let ghost pre = d@;
        let ghost pre_v = v as nat;
        let dig: u8 = (v % 10) as u8;
        d.push(dig);
        v = v / 10;
        proof {
            lemma_digits_val_push(pre, dig);
            assert(pow10(d@.len()) == 10 * pow10(pre.len()));
            assert(digits_val(d@) + (v as nat) * pow10(d@.len()) == digits_val(pre) + pre_v
                * pow10(pre.len())) by (nonlinear_arith)
                requires
                    digits_val(d@) == digits_val(pre) + dig * pow10(pre.len()),
                    pow10(d@.len()) == 10 * pow10(pre.len()),
                    dig == pre_v % 10,
                    v == pre_v / 10,
                    pre_v > 0,
            ;
            if v == 0 {
                assert(dig == pre_v);
                assert(dig > 0);
                assert(d@.last() == dig);
            }
        }
    }
    if d.len() == 0 {
        d.push(0);
        proof {
            assert(digits_val(d@) == d@[0] + 10 * digits_val(d@.drop_first()));
            assert(d@.drop_first() =~= Seq::<u8>::empty());
        }
    }
    d
}

/// Doubles the number a digit vector holds, in place.
fn double_digits(d: &mut Vec<u8>)
    requires
        digits_wf(old(d)@),
    ensures
        digits_wf(final(d)@),
        digits_val(final(d)@) == 2 * digits_val(old(d)@),
{
    let n = d.len();
    let mut carry: u8 = 0;
    let mut j: usize = 0;
    proof {
        assert(d@.take(0int) =~= Seq::<u8>::empty());
        assert(old(d)@.take(0int) =~= Seq::<u8>::empty());
        assert(pow10(0) == 1);
    }
    while j < n
        invariant
            j <= n,
            d@.len() == n,
            n == old(d)@.len(),
            digits_wf(old(d)@),
            carry <= 1,
            forall|idx: int| 0 <= idx < j ==> d@[idx] < 10,
            forall|idx: int| j <= idx < n ==> d@[idx] == old(d)@[idx],
            digits_val(d@.take(j as int)) + carry * pow10(j as nat) == 2 * digits_val(
                old(d)@.take(j as int),
            ),
        decreases n - j,
    {
        let ghost pre = d@;
        let ghost pre_carry = carry as nat;
        let t: u8 = 2 * d[j] + carry;
        d.set(j, t % 10);
        carry = t / 10;
        proof {
            let od = old(d)@;
            assert(t == 2 * od[j as int] + pre_carry);
            assert(t <= 19);
            assert(d@.take(j as int) =~= pre.take(j as int));
            assert(d@.take(j + 1int) =~= d@.take(j as int).push(t % 10));
            assert(od.take(j + 1int) =~= od.take(j as int).push(od[j as int]));
            lemma_digits_val_push(d@.take(j as int), t % 10);
            lemma_digits_val_push(od.take(j as int), od[j as int]);
            let p = pow10(j as nat);
            assert(pow10((j + 1) as nat) == 10 * p);
            let va = digits_val(d@.take(j + 1int));
            let vb = digits_val(od.take(j + 1int));
            let vca = digits_val(d@.take(j as int));
            let vcb = digits_val(od.take(j as int));
            let dj = od[j as int];
            assert(va + (carry as nat) * pow10((j + 1) as nat) == 2 * vb) by (nonlinear_arith)
                requires
                    va == vca + (t % 10) * p,
                    vb == vcb + dj * p,
                    vca + pre_carry * p == 2 * vcb,
                    pow10((j + 1) as nat) == 10 * p,
                    t == 2 * dj + pre_carry,
                    carry == t / 10,
                    t % 10 + 10 * (t / 10) == t,
            ;
        }
        j = j + 1;
    }
    proof {
        assert(d@.take(n as int) =~= d@);
        assert(old(d)@.take(n as int) =~= old(d)@);
    }
    if carry == 1 {
        let ghost pre = d@;
        d.push(1);
        proof {
            lemma_digits_val_push(pre, 1);
            assert(d@.last() == 1);
        }
    } else {
        proof {
            if n > 1 && d@.last() == 0 {
                // A doubled nonzero number cannot have lost its top digit.
                lemma_digits_val_upper(d@.take(n - 1int));
                lemma_digits_val_push(d@.take(n - 1int), 0);
                assert(d@.take(n - 1int).push(0) =~= d@);
                assert(digits_val(d@) < pow10((n - 1) as nat));
                lemma_digits_val_lower(old(d)@);
                let ov = digits_val(old(d)@);
                assert(2 * ov >= 2 * pow10((n - 1) as nat)) by (nonlinear_arith)
                    requires
                        ov >= pow10((n - 1) as nat),
                ;
                assert(false);
            }
        }
    }
}

/// Appends the digits of a digit vector, most significant first, to `s`.
fn append_digits(s: &mut String, d: &Vec<u8>)
    requires
        forall|i: int| 0 <= i < d@.len() ==> d@[i] < 10,
    ensures
        final(s)@ == old(s)@ + rev_digit_chars(d@),
{
    let mut i: usize = d.len();
    proof {
        assert(s@ =~= old(s)@ + rev_digit_chars(d@).take(d@.len() - i));
    }
    while i > 0
        invariant
            i <= d@.len(),
            forall|j: int| 0 <= j < d@.len() ==> d@[j] < 10,
            s@ == old(s)@ + rev_digit_chars(d@).take(d@.len() - i),
        decreases i,
    {
        i = i - 1;
        let dig = d[i];
        push_digit(s, dig);
        proof {
            assert(s@ =~= old(s)@ + rev_digit_chars(d@).take(d@.len() - i));
        }
    }
    proof {
        assert(rev_digit_chars(d@).take(d@.len() as int) =~= rev_digit_chars(d@));
    }
}

/// 2^k as a 64-bit value.
fn pow2_u64(k: usize) -> (r: u64)
    requires
        k <= 63,
    ensures
        r as nat == pow2(k as nat),
{
    let mut r: u64 = 1;
    let mut i: usize = 0;
    proof {
        lemma2_to64();
    }
    while i < k
        invariant
            i <= k,
            k <= 63,
            r as nat == pow2(i as nat),
        decreases k - i,
    {
        proof {
            lemma_pow2_adds(i as nat, 1);
            lemma2_to64();
            let nx = (i + 1) as nat;
            assert(nx < 64);
            lemma_pow2_strictly_increases(nx, 64);
            assert(pow2(nx) == pow2(i as nat) * pow2(1));
            assert((r * 2) as nat == pow2(nx));
        }
        r = r * 2;
        i = i + 1;
    }
    r
}

/// 2^k as a 128-bit value.
fn pow2_u128(k: usize) -> (r: u128)
    requires
        k <= 127,
    ensures
        r as nat == pow2(k as nat),
{
    let mut r: u128 = 1;
    let mut i: usize = 0;
    proof {
        lemma2_to64();
    }
    while i < k
        invariant
            i <= k,
            k <= 127,
            r as nat == pow2(i as nat),
        decreases k - i,
    {
        proof {
            lemma_pow2_adds(i as nat, 1);
            lemma2_to64();
            lemma2_to64_rest();
            lemma_pow2_adds(64, 63);
            let nx = (i + 1) as nat;
            if nx < 127 {
                lemma_pow2_strictly_increases(nx, 127);
            }
            assert(pow2(127) == pow2(64) * pow2(63));
            assert(pow2(nx) == pow2(i as nat) * pow2(1));
            assert((r * 2) as nat == pow2(nx));
            assert(pow2(nx) <= pow2(127));
        }
        r = r * 2;
        i = i + 1;
    }
    r
}

/// Rounding distributes over the whole multiples of the divisor when the
/// multiplier is even.
proof fn lemma_rhe_div_linear(a: nat, b: nat, d: nat)
    requires
        d > 0,
        a % 2 == 0,
    ensures
        rhe_div(a * d + b, d) == a + rhe_div(b, d),
{
    let x = a * d + b;
    assert(x == (a + b / d) * d + (b % d)) by (nonlinear_arith)
        requires
            d > 0,
            x == a * d + b,
    ;
    lemma_fundamental_div_mod_converse(x as int, d as int, (a + b / d) as int, (b % d) as int);
    assert(x / d == a + b / d);
    assert(x % d == b % d);
    let qb = (b / d) as int;
    assert(a == 2 * (a as int / 2) + a as int % 2);
    lemma_mod_multiples_vanish(a as int / 2, qb, 2);
    assert((a + qb) % 2 == qb % 2);
}

/// The fixed-six-digit text of (-1)^sign * m * 2^e for a finite value.
fn fixed6_core(neg: bool, m: u64, e: i32) -> (r: String)
    requires
        m < 0x20000000000000,
        -1074 <= e <= 971,
    ensures
        r@ == fixed6_text(if neg {
            1nat
        } else {
            0nat
        }, m as nat, e as int),
{
    let mut s = String::new();
    if neg {
        proof {
            reveal_strlit("-");
        }
        s.append("-");
    }
    let ghost sign_seq: Seq<char> = if neg {
        seq!['-']
    } else {
        Seq::<char>::empty()
    };
    proof {
        assert(s@ =~= sign_seq);
    }
    let frac6: u64;
    if e >= 0 {
        let eu: usize = e as usize;
        let mut digits = u64_digits(m);
        let mut it: usize = 0;
        proof {
            assert(pow2(0) == 1) by {
                lemma2_to64();
            }
            assert(digits_val(digits@) == m * pow2(0)) by (nonlinear_arith)
                requires
                    digits_val(digits@) == m,
                    pow2(0) == 1,
            ;
        }
        while it < eu
            invariant
                it <= eu,
                digits_wf(digits@),
                digits_val(digits@) == m * pow2(it as nat),
            decreases eu - it,
        {
            double_digits(&mut digits);
            proof {
                lemma_pow2_adds(it as nat, 1);
                lemma2_to64();
                assert(2 * (m * pow2(it as nat)) == m * (pow2(it as nat) * 2))
                    by (nonlinear_arith);
            }
            it = it + 1;
        }
        proof {
            let scaled = (m as nat) * pow2(e as nat) * 1000000;
            lemma_fundamental_div_mod_converse(
                scaled as int,
                1000000,
                ((m as nat) * pow2(e as nat)) as int,
                0,
            );
            assert(scaled / 1000000 == (m as nat) * pow2(e as nat));
            assert(scaled % 1000000 == 0);
            lemma_dec_str_digits(digits@);
        }
        append_digits(&mut s, &digits);
        frac6 = 0;
    } else {
        let k: usize = (-(e as i64)) as usize;
        let i0: u64;
        let rem: u64;
        if k <= 52 {
            let p = pow2_u64(k);
            proof {
                lemma_pow2_pos(k as nat);
            }
            i0 = m / p;
            rem = m % p;
            proof {
                lemma_fundamental_div_mod(m as int, p as int);
                assert(m as int == p * i0 + rem);
                assert(m as nat == (i0 as nat) * pow2(k as nat) + rem) by (nonlinear_arith)
                    requires
                        m as int == p * i0 + rem,
                        p as nat == pow2(k as nat),
                ;
            }
        } else {
            i0 = 0;
            rem = m;
            proof {
                lemma2_to64();
                lemma2_to64_rest();
                if 53 < k as nat {
                    lemma_pow2_strictly_increases(53, k as nat);
                }
                assert(m < pow2(k as nat));
                lemma_pow2_pos(k as nat);
                lemma_fundamental_div_mod_converse(m as int, pow2(k as nat) as int, 0, m as int);
                assert(m as nat == (i0 as nat) * pow2(k as nat) + rem);
            }
        }
        proof {
            lemma_pow2_pos(k as nat);
            assert(m as nat == (i0 as nat) * pow2(k as nat) + rem);
            assert(rem < pow2(k as nat));
        }
        let q6: u64;
        if k <= 74 {
            let dd = pow2_u128(k);
            let nn: u128 = (rem as u128) * 1000000;
            let q = nn / dd;
            let rr = nn % dd;
            proof {
                // q is below one million, so the adjusted value fits.
                assert(nn < dd * 1000000) by (nonlinear_arith)
                    requires
                        rem < dd,
                        nn == rem * 1000000,
                ;
                assert(q < 1000000) by (nonlinear_arith)
                    requires
                        nn < dd * 1000000,
                        dd > 0,
                        q == nn / dd,
                ;
                assert(rr < dd);
                lemma_pow2_adds(64, 10);
                lemma2_to64();
                lemma2_to64_rest();
                if (k as nat) < 74 {
                    lemma_pow2_strictly_increases(k as nat, 74);
                }
                assert(dd <= pow2(74));
            }
            if 2 * rr > dd {
                q6 = (q + 1) as u64;
            } else if 2 * rr < dd {
                q6 = q as u64;
            } else if q % 2 == 0 {
                q6 = q as u64;
            } else {
                q6 = (q + 1) as u64;
            }
            proof {
                assert(q6 as nat == rhe_div((rem as nat) * 1000000, pow2(k as nat)));
            }
        } else {
            q6 = 0;
            proof {
                let nn = (rem as nat) * 1000000;
                lemma2_to64();
                lemma2_to64_rest();
                lemma_pow2_adds(53, 20);
                assert(nn < pow2(73)) by (nonlinear_arith)
                    requires
                        rem < pow2(53),
                        nn == (rem as nat) * 1000000,
                        1000000 < pow2(20),
                        pow2(53) * pow2(20) == pow2(73),
                ;
                lemma_pow2_strictly_increases(73, k as nat);
                lemma_pow2_pos(k as nat);
                assert(nn < pow2(k as nat));
                lemma_fundamental_div_mod_converse(
                    nn as int,
                    pow2(k as nat) as int,
                    0,
                    nn as int,
                );
                assert(nn / pow2(k as nat) == 0);
                assert(nn % pow2(k as nat) == nn);
                lemma_pow2_strictly_increases(74, k as nat);
                lemma_pow2_adds(73, 1);
                assert(pow2(73) * pow2(1) == pow2(74));
                assert(2 * nn < pow2(74));
                assert(2 * nn < pow2(k as nat));
                assert(rhe_div(nn, pow2(k as nat)) == 0);
            }
        }
        proof {
            // The scaled value splits along the integer part.
            let kk = pow2(k as nat);
            assert((m as nat) * 1000000 == ((i0 as nat) * 1000000) * kk + (rem as nat)
                * 1000000) by (nonlinear_arith)
                requires
                    m as nat == (i0 as nat) * kk + rem,
            ;
            assert(((i0 as nat) * 1000000) % 2 == 0) by (nonlinear_arith);
            lemma_rhe_div_linear((i0 as nat) * 1000000, (rem as nat) * 1000000, kk);
            assert(rhe_div((m as nat) * 1000000, kk) == (i0 as nat) * 1000000 + q6);
        }
        let int_low: u64;
        if q6 == 1000000 {
            int_low = i0 + 1;
            frac6 = 0;
            proof {
                let scaled = rhe_div((m as nat) * 1000000, pow2(k as nat));
                assert(scaled == ((i0 + 1) as nat) * 1000000 + 0) by (nonlinear_arith)
                    requires
                        scaled == (i0 as nat) * 1000000 + 1000000,
                ;
                lemma_fundamental_div_mod_converse(
                    scaled as int,
                    1000000,
                    (i0 + 1) as int,
                    0,
                );
            }
        } else {
            int_low = i0;
            frac6 = q6;
            proof {
                let scaled = rhe_div((m as nat) * 1000000, pow2(k as nat));
                lemma_fundamental_div_mod_converse(
                    scaled as int,
                    1000000,
                    i0 as int,
                    q6 as int,
                );
            }
        }
        append_u64_dec(&mut s, int_low);
    }
    proof {
        reveal_strlit(".");
        assert("."@ =~= seq!['.']);
    }
    s.append(".");
    append_u64_dec_padded(&mut s, frac6, 6);
    proof {
        let scaled: nat = if e >= 0 {
            (m as nat) * pow2(e as nat) * 1000000
        } else {
            rhe_div((m as nat) * 1000000, pow2((-e) as nat))
        };
        assert(s@ =~= sign_seq + dec_str(scaled / 1000000) + seq!['.'] + dec_pad_str(
            scaled % 1000000,
            6,
        ));
    }
    s
}

/// The fixed-six-digit text of the 32-bit IEEE-754 value with the given
/// bit pattern.
pub fn single_fixed6(bits: u32) -> (r: String)
    ensures
        r@ == single_text(bits),
{
    proof {
        lemma2_to64();
    }
    let sign = bits >= 0x80000000;
    let expf: u32 = (bits / 0x800000) % 256;
    let frac: u32 = bits % 0x800000;
    proof {
        assert(pow2(31) == 0x80000000);
        assert(pow2(23) == 0x800000);
        assert(pow2(8) == 256);
        assert((bits as nat) / pow2(31) % 2 == (if sign {
            1nat
        } else {
            0nat
        }));
    }
    if expf == 255 {
        if frac != 0 {
            return String::from_str("NaN");
        }
        if sign {
            return String::from_str("-inf");
        }
        return String::from_str("inf");
    }
    let m: u64 = if expf == 0 {
        frac as u64
    } else {
        (frac + 0x800000) as u64
    };
    let e: i32 = if expf == 0 {
        -149
    } else {
        (expf as i32) - 150
    };
    fixed6_core(sign, m, e)
}

/// The fixed-six-digit text of the 64-bit IEEE-754 value with the given
/// bit pattern.
pub fn double_fixed6(bits: u64) -> (r: String)
    ensures
        r@ == double_text(bits),
{
    proof {
        lemma2_to64();
        lemma2_to64_rest();
    }
    let sign = bits >= 0x8000000000000000;
    let expf: u64 = (bits / 0x10000000000000) % 2048;
    let frac: u64 = bits % 0x10000000000000;
    proof {
        assert(pow2(63) == 0x8000000000000000);
        assert(pow2(52) == 0x10000000000000);
        assert(pow2(11) == 2048);
        assert((bits as nat) / pow2(63) % 2 == (if sign {
            1nat
        } else {
            0nat
        }));
    }
    if expf == 2047 {
        if frac != 0 {
            return String::from_str("NaN");
        }
        if sign {
            return String::from_str("-inf");
        }
        return String::from_str("inf");
    }
    let m: u64 = if expf == 0 {
        frac
    } else {
        frac + 0x10000000000000
    };
    let e: i32 = if expf == 0 {
        -1074
    } else {
        (expf as i32) - 1075
    };
    fixed6_core(sign, m, e)
}

} // verus!
