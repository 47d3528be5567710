//! Decimal and hexadecimal text for machine integers.
//!
//! Everything the crate prints about a number goes through the spec
//! functions here: `dec_str` is the usual base-10 writing of a natural
//! number, `hex_str` the base-16 one, and the exec functions produce
//! exactly those character sequences.

use vstd::prelude::*;
use vstd::string::StringExecFns;

verus! {

/// The character for one decimal (or low hexadecimal) digit.
pub open spec fn digit_char(d: nat) -> char {
    if d == 0 {
        '0'
    } else if d == 1 {
        '1'
    } else if d == 2 {
        '2'
    } else if d == 3 {
        '3'
    } else if d == 4 {
        '4'
    } else if d == 5 {
        '5'
    } else if d == 6 {
        '6'
    } else if d == 7 {
        '7'
    } else if d == 8 {
        '8'
    } else {
        '9'
    }
}

/// The character for one hexadecimal digit, lower case.
pub open spec fn hex_digit_char(d: nat) -> char {
    if d < 10 {
        digit_char(d)
    } else if d == 10 {
        'a'
    } else if d == 11 {
        'b'
    } else if d == 12 {
        'c'
    } else if d == 13 {
        'd'
    } else if d == 14 {
        'e'
    } else {
        'f'
    }
}

/// Base-10 writing of `n`, most significant digit first, no leading zeros
/// (except for `n == 0`, written as "0").
pub open spec fn dec_str(n: nat) -> Seq<char>
    decreases n,
{
    if n < 10 {
        seq![digit_char(n)]
    } else {
        dec_str(n / 10).push(digit_char(n % 10))
    }
}

/// Base-16 writing of `n`, most significant digit first, lower case,
/// no leading zeros (except for `n == 0`).
pub open spec fn hex_str(n: nat) -> Seq<char>
    decreases n,
{
    if n < 16 {
        seq![hex_digit_char(n)]
    } else {
        hex_str(n / 16).push(hex_digit_char(n % 16))
    }
}

/// `k` repetitions of '0'.
pub open spec fn zero_pad(k: nat) -> Seq<char> {
    Seq::new(k, |i: int| '0')
}

/// `n` in hexadecimal, zero-padded on the left to at least eight digits:
/// the form of an address column entry.
pub open spec fn addr_str(n: nat) -> Seq<char> {
    if hex_str(n).len() >= 8 {
        hex_str(n)
    } else {
        zero_pad((8 - hex_str(n).len()) as nat) + hex_str(n)
    }
}

/// Two hexadecimal digits for one byte, zero-padded.
pub open spec fn byte_hex(b: u8) -> Seq<char> {
    seq![hex_digit_char((b / 16) as nat), hex_digit_char((b % 16) as nat)]
}

/// `n` in decimal, zero-padded on the left to at least `width` digits.
pub open spec fn dec_pad_str(n: nat, width: nat) -> Seq<char> {
    if dec_str(n).len() >= width {
        dec_str(n)
    } else {
        zero_pad((width - dec_str(n).len()) as nat) + dec_str(n)
    }
}

/// The digits of a number as collected low-to-high, read back
/// high-to-low as characters.
pub open spec fn rev_digit_chars(ds: Seq<u8>) -> Seq<char> {
    Seq::new(ds.len(), |i: int| digit_char(ds[ds.len() - 1 - i] as nat))
}

/// As `rev_digit_chars`, with hexadecimal digits.
pub open spec fn rev_hex_digit_chars(ds: Seq<u8>) -> Seq<char> {
    Seq::new(ds.len(), |i: int| hex_digit_char(ds[ds.len() - 1 - i] as nat))
}

proof fn lemma_rev_digit_chars_push(ds: Seq<u8>, d: u8)
    ensures
        rev_digit_chars(ds.push(d)) =~= seq![digit_char(d as nat)] + rev_digit_chars(ds),
{
}

proof fn lemma_rev_hex_digit_chars_push(ds: Seq<u8>, d: u8)
    ensures
        rev_hex_digit_chars(ds.push(d)) =~= seq![hex_digit_char(d as nat)] + rev_hex_digit_chars(
            ds,
        ),
{
}

/// Appends the character of one decimal digit to `s`.
pub(crate) fn push_digit(s: &mut String, d: u8)
    requires
        d < 10,
    ensures
        final(s)@ == old(s)@.push(digit_char(d as nat)),
{
    proof {
        reveal_strlit("0");
        reveal_strlit("1");
        reveal_strlit("2");
        reveal_strlit("3");
        reveal_strlit("4");
        reveal_strlit("5");
        reveal_strlit("6");
        reveal_strlit("7");
        reveal_strlit("8");
        reveal_strlit("9");
    }
    match d {
        0 => s.append("0"),
        1 => s.append("1"),
        2 => s.append("2"),
        3 => s.append("3"),
        4 => s.append("4"),
        5 => s.append("5"),
        6 => s.append("6"),
        7 => s.append("7"),
        8 => s.append("8"),
        _ => s.append("9"),
    }
    proof {
        assert(s@ =~= old(s)@.push(digit_char(d as nat)));
    }
}

/// Appends the character of one hexadecimal digit to `s`.
pub(crate) fn push_hex_digit(s: &mut String, d: u8)
    requires
        d < 16,
    ensures
        final(s)@ == old(s)@.push(hex_digit_char(d as nat)),
{
    if d < 10 {
        push_digit(s, d);
    } else {
        proof {
            reveal_strlit("a");
            reveal_strlit("b");
            reveal_strlit("c");
            reveal_strlit("d");
            reveal_strlit("e");
            reveal_strlit("f");
        }
        match d {
            10 => s.append("a"),
            11 => s.append("b"),
            12 => s.append("c"),
            13 => s.append("d"),
            14 => s.append("e"),
            _ => s.append("f"),
        }
        proof {
            assert(s@ =~= old(s)@.push(hex_digit_char(d as nat)));
        }
    }
}

/// Appends the decimal writing of `n` to `s`.
pub fn append_u64_dec(s: &mut String, n: u64)
    ensures
        final(s)@ == old(s)@ + dec_str(n as nat),
{
    let mut digits: Vec<u8> = Vec::new();
    let mut m: u64 = n;
    while m > 0
        invariant
            forall|i: int| 0 <= i < digits@.len() ==> digits@[i] < 10,
            digits@.len() == 0 ==> m == n,
            digits@.len() > 0 ==> dec_str(n as nat) == (if m == 0 {
                rev_digit_chars(digits@)
            } else {
                dec_str(m as nat) + rev_digit_chars(digits@)
            }),
        decreases m,
    {
        let ghost pre_digits = digits@;
        let ghost pre_m = m as nat;
        let d: u8 = (m % 10) as u8;
        digits.push(d);
        m = m / 10;
        proof {
            lemma_rev_digit_chars_push(pre_digits, d);
            assert(rev_digit_chars(digits@) =~= seq![digit_char(d as nat)] + rev_digit_chars(
                pre_digits,
            ));
            if pre_digits.len() == 0 {
                assert(rev_digit_chars(pre_digits) =~= Seq::<char>::empty());
            }
            assert(dec_str(n as nat) =~= dec_str(pre_m) + rev_digit_chars(pre_digits));
            if pre_m < 10 {
                assert(dec_str(pre_m) == seq![digit_char(pre_m)]);
                assert(dec_str(n as nat) =~= rev_digit_chars(digits@));
            } else {
                assert(dec_str(pre_m) == dec_str(pre_m / 10).push(digit_char(pre_m % 10)));
                assert(dec_str(pre_m / 10).push(digit_char(pre_m % 10)) + rev_digit_chars(
                    pre_digits,
                ) =~= dec_str(pre_m / 10) + (seq![digit_char(pre_m % 10)] + rev_digit_chars(
                    pre_digits,
                )));
                assert(dec_str(n as nat) =~= dec_str(m as nat) + rev_digit_chars(digits@));
            }
        }
    }
    if digits.len() == 0 {
        digits.push(0);
        proof {
            assert(n == 0);
            assert(dec_str(0) == seq![digit_char(0)]);
            assert(rev_digit_chars(digits@) =~= seq![digit_char(0)]);
        }
    }
    proof {
        assert(dec_str(n as nat) == rev_digit_chars(digits@));
    }
    let mut i: usize = digits.len();
    proof {
        assert(s@ =~= old(s)@ + rev_digit_chars(digits@).take(digits@.len() - i));
    }
    while i > 0
        invariant
            i <= digits@.len(),
            forall|j: int| 0 <= j < digits@.len() ==> digits@[j] < 10,
            s@ == old(s)@ + rev_digit_chars(digits@).take(digits@.len() - i),
        decreases i,
    {
        i = i - 1;
        let d = digits[i];
        push_digit(s, d);
        proof {
            assert(s@ =~= old(s)@ + rev_digit_chars(digits@).take(digits@.len() - i));
        }
    }
    proof {
        assert(rev_digit_chars(digits@).take(digits@.len() as int) =~= rev_digit_chars(digits@));
    }
}

/// Appends the decimal writing of `n`, zero-padded to at least `width`
/// digits, to `s`.
pub fn append_u64_dec_padded(s: &mut String, n: u64, width: usize)
    requires
        width <= 20,
    ensures
        final(s)@ == old(s)@ + dec_pad_str(n as nat, width as nat),
{
    let mut digits: Vec<u8> = Vec::new();
    let mut m: u64 = n;
    while m > 0
        invariant
            forall|i: int| 0 <= i < digits@.len() ==> digits@[i] < 10,
            digits@.len() == 0 ==> m == n,
            digits@.len() > 0 ==> dec_str(n as nat) == (if m == 0 {
                rev_digit_chars(digits@)
            } else {
                dec_str(m as nat) + rev_digit_chars(digits@)
            }),
        decreases m,
    {
        let ghost pre_digits = digits@;
        let ghost pre_m = m as nat;
        let d: u8 = (m % 10) as u8;
        digits.push(d);
        m = m / 10;
        proof {
            lemma_rev_digit_chars_push(pre_digits, d);
            assert(rev_digit_chars(digits@) =~= seq![digit_char(d as nat)] + rev_digit_chars(
                pre_digits,
            ));
            if pre_digits.len() == 0 {
                assert(rev_digit_chars(pre_digits) =~= Seq::<char>::empty());
            }
            assert(dec_str(n as nat) =~= dec_str(pre_m) + rev_digit_chars(pre_digits));
            if pre_m < 10 {
                assert(dec_str(pre_m) == seq![digit_char(pre_m)]);
                assert(dec_str(n as nat) =~= rev_digit_chars(digits@));
            } else {
                assert(dec_str(pre_m) == dec_str(pre_m / 10).push(digit_char(pre_m % 10)));
                assert(dec_str(pre_m / 10).push(digit_char(pre_m % 10)) + rev_digit_chars(
                    pre_digits,
                ) =~= dec_str(pre_m / 10) + (seq![digit_char(pre_m % 10)] + rev_digit_chars(
                    pre_digits,
                )));
                assert(dec_str(n as nat) =~= dec_str(m as nat) + rev_digit_chars(digits@));
            }
        }
    }
    if digits.len() == 0 {
        digits.push(0);
        proof {
            assert(n == 0);
            assert(dec_str(0) == seq![digit_char(0)]);
            assert(rev_digit_chars(digits@) =~= seq![digit_char(0)]);
        }
    }
    proof {
        assert(dec_str(n as nat) == rev_digit_chars(digits@));
        assert(zero_pad(0) =~= Seq::<char>::empty());
    }
    let ghost bare = digits@.len() as nat;
    proof {
        assert(bare == dec_str(n as nat).len());
        assert(rev_digit_chars(digits@) =~= zero_pad((digits@.len() - bare) as nat) + dec_str(
            n as nat,
        ));
    }
    while digits.len() < width
        invariant
            bare <= digits@.len(),
            bare >= width ==> digits@.len() == bare,
            bare < width ==> digits@.len() <= width,
            forall|i: int| 0 <= i < digits@.len() ==> digits@[i] < 10,
            rev_digit_chars(digits@) =~= zero_pad((digits@.len() - bare) as nat) + dec_str(
                n as nat,
            ),
        decreases width - digits@.len(),
    {
        let ghost pre_digits = digits@;
        digits.push(0);
        proof {
            lemma_rev_digit_chars_push(pre_digits, 0);
            assert(rev_digit_chars(digits@) =~= zero_pad((digits@.len() - bare) as nat) + dec_str(
                n as nat,
            ));
        }
    }
    let mut i: usize = digits.len();
    proof {
        assert(s@ =~= old(s)@ + rev_digit_chars(digits@).take(digits@.len() - i));
    }
    while i > 0
        invariant
            i <= digits@.len(),
            forall|j: int| 0 <= j < digits@.len() ==> digits@[j] < 10,
            s@ == old(s)@ + rev_digit_chars(digits@).take(digits@.len() - i),
        decreases i,
    {
        i = i - 1;
        let d = digits[i];
        push_digit(s, d);
        proof {
            assert(s@ =~= old(s)@ + rev_digit_chars(digits@).take(digits@.len() - i));
        }
    }
    proof {
        assert(rev_digit_chars(digits@).take(digits@.len() as int) =~= rev_digit_chars(digits@));
        if dec_str(n as nat).len() >= width {
            assert(digits@.len() == bare);
            assert(rev_digit_chars(digits@) =~= dec_str(n as nat));
        } else {
            assert(digits@.len() == width);
        }
    }
}

/// The decimal writing of `n` as a fresh string.
pub fn u64_dec_string(n: u64) -> (r: String)
    ensures
        r@ == dec_str(n as nat),
{
    let mut s = String::new();
    append_u64_dec(&mut s, n);
    proof {
        assert(s@ =~= dec_str(n as nat));
    }
    s
}

/// Appends the hexadecimal writing of `n`, zero-padded to at least
/// `width` digits, to `s`.
pub fn append_hex_padded(s: &mut String, n: u64, width: usize)
    requires
        width <= 16,
    ensures
        final(s)@ == old(s)@ + (if hex_str(n as nat).len() >= width {
            hex_str(n as nat)
        } else {
            zero_pad((width - hex_str(n as nat).len()) as nat) + hex_str(n as nat)
        }),
{
    let mut digits: Vec<u8> = Vec::new();
    let mut m: u64 = n;
    while m > 0
        invariant
            forall|i: int| 0 <= i < digits@.len() ==> digits@[i] < 16,
            digits@.len() == 0 ==> m == n,
            digits@.len() > 0 ==> hex_str(n as nat) == (if m == 0 {
                rev_hex_digit_chars(digits@)
            } else {
                hex_str(m as nat) + rev_hex_digit_chars(digits@)
            }),
        decreases m,
    {
        let ghost pre_digits = digits@;
        let ghost pre_m = m as nat;
        let d: u8 = (m % 16) as u8;
        digits.push(d);
        m = m / 16;
        proof {
            lemma_rev_hex_digit_chars_push(pre_digits, d);
            assert(rev_hex_digit_chars(digits@) =~= seq![hex_digit_char(d as nat)]
                + rev_hex_digit_chars(pre_digits));
            if pre_digits.len() == 0 {
                assert(rev_hex_digit_chars(pre_digits) =~= Seq::<char>::empty());
            }
            assert(hex_str(n as nat) =~= hex_str(pre_m) + rev_hex_digit_chars(pre_digits));
            if pre_m < 16 {
                assert(hex_str(pre_m) == seq![hex_digit_char(pre_m)]);
                assert(hex_str(n as nat) =~= rev_hex_digit_chars(digits@));
            } else {
                assert(hex_str(pre_m) == hex_str(pre_m / 16).push(hex_digit_char(pre_m % 16)));
                assert(hex_str(pre_m / 16).push(hex_digit_char(pre_m % 16))
                    + rev_hex_digit_chars(pre_digits) =~= hex_str(pre_m / 16) + (seq![
                    hex_digit_char(pre_m % 16),
                ] + rev_hex_digit_chars(pre_digits)));
                assert(hex_str(n as nat) =~= hex_str(m as nat) + rev_hex_digit_chars(digits@));
            }
        }
    }
    if digits.len() == 0 {
        digits.push(0);
        proof {
            assert(n == 0);
            assert(hex_str(0) == seq![hex_digit_char(0)]);
            assert(rev_hex_digit_chars(digits@) =~= seq![hex_digit_char(0)]);
        }
    }
    proof {
        assert(hex_str(n as nat) == rev_hex_digit_chars(digits@));
    }
    let ghost bare = digits@.len() as nat;
    proof {
        assert(bare == hex_str(n as nat).len());
        assert(zero_pad(0) =~= Seq::<char>::empty());
        assert(rev_hex_digit_chars(digits@) =~= zero_pad((digits@.len() - bare) as nat) + hex_str(
            n as nat,
        ));
    }
    while digits.len() < width
        invariant
            bare <= digits@.len(),
            bare >= width ==> digits@.len() == bare,
            bare < width ==> digits@.len() <= width,
            forall|i: int| 0 <= i < digits@.len() ==> digits@[i] < 16,
            rev_hex_digit_chars(digits@) =~= zero_pad((digits@.len() - bare) as nat) + hex_str(
                n as nat,
            ),
        decreases width - digits@.len(),
    {
        let ghost pre_digits = digits@;
        digits.push(0);
        proof {
            lemma_rev_hex_digit_chars_push(pre_digits, 0);
            assert(rev_hex_digit_chars(digits@) =~= zero_pad((digits@.len() - bare) as nat)
                + hex_str(n as nat));
        }
    }
    let mut i: usize = digits.len();
    proof {
        assert(s@ =~= old(s)@ + rev_hex_digit_chars(digits@).take(digits@.len() - i));
    }
    while i > 0
        invariant
            i <= digits@.len(),
            forall|j: int| 0 <= j < digits@.len() ==> digits@[j] < 16,
            s@ == old(s)@ + rev_hex_digit_chars(digits@).take(digits@.len() - i),
        decreases i,
    {
        i = i - 1;
        let d = digits[i];
        push_hex_digit(s, d);
        proof {
            assert(s@ =~= old(s)@ + rev_hex_digit_chars(digits@).take(digits@.len() - i));
        }
    }
    proof {
        assert(rev_hex_digit_chars(digits@).take(digits@.len() as int) =~= rev_hex_digit_chars(
            digits@,
        ));
        if hex_str(n as nat).len() >= width {
            assert(digits@.len() == bare);
            assert(rev_hex_digit_chars(digits@) =~= hex_str(n as nat));
        } else {
            assert(digits@.len() == width);
        }
    }
}

} // verus!
