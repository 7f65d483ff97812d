//! Decimal and hexadecimal rendering of integers into strings.

use vstd::prelude::*;
use vstd::string::StringExecFns;

verus! {

/// The character of hexadecimal digit `d` (lower case), or of decimal digit `d`.
pub open spec fn digit_char(d: nat) -> char {
    if d == 0 {
        '0'
    } else if d == 1 {
        '1'
    } else if d == 2 {
        '2'
    } else if d == 3 {
        '3'
    } else if d == 4 {
        '4'
    } else if d == 5 {
        '5'
    } else if d == 6 {
        '6'
    } else if d == 7 {
        '7'
    } else if d == 8 {
        '8'
    } else if d == 9 {
        '9'
    } else if d == 10 {
        'a'
    } else if d == 11 {
        'b'
    } else if d == 12 {
        'c'
    } else if d == 13 {
        'd'
    } else if d == 14 {
        'e'
    } else {
        'f'
    }
}

/// The `k` lowest digits of `v` in base `b`, most significant first.
pub open spec fn digits(v: nat, b: nat, k: nat) -> Seq<char>
    decreases k,
{
    if k == 0 || b < 2 {
        Seq::empty()
    } else {
        digits(v / b, b, (k - 1) as nat).push(digit_char(v % b))
    }
}

/// Number of decimal digits of `v` (at least one).
pub open spec fn decimal_width(v: nat) -> nat
    decreases v,
{
    if v < 10 {
        1
    } else {
        1 + decimal_width(v / 10)
    }
}

/// The decimal numeral of `v`, left-padded with zeros to at least `width` digits.
pub open spec fn decimal_text(v: nat, width: nat) -> Seq<char> {
    let w = decimal_width(v);
    digits(v, 10, if w < width { width } else { w })
}

/// The hexadecimal numeral of `v` in lower case, left-padded with zeros to `width` digits.
pub open spec fn hex_text(v: nat, width: nat) -> Seq<char> {
    digits(v, 16, width)
}

/// The one-character string of digit `d`.
fn digit_str(d: u64) -> (s: &'static str)
    requires
        d < 16,
    ensures
        s@ == seq![digit_char(d as nat)],
{
    proof {
        reveal_strlit("0");
        reveal_strlit("1");
        reveal_strlit("2");
        reveal_strlit("3");
        reveal_strlit("4");
        reveal_strlit("5");
        reveal_strlit("6");
        reveal_strlit("7");
        reveal_strlit("8");
        reveal_strlit("9");
        reveal_strlit("a");
        reveal_strlit("b");
        reveal_strlit("c");
        reveal_strlit("d");
        reveal_strlit("e");
        reveal_strlit("f");
    }
    if d == 0 {
        "0"
    } else if d == 1 {
        "1"
    } else if d == 2 {
        "2"
    } else if d == 3 {
        "3"
    } else if d == 4 {
        "4"
    } else if d == 5 {
        "5"
    } else if d == 6 {
        "6"
    } else if d == 7 {
        "7"
    } else if d == 8 {
        "8"
    } else if d == 9 {
        "9"
    } else if d == 10 {
        "a"
    } else if d == 11 {
        "b"
    } else if d == 12 {
        "c"
    } else if d == 13 {
        "d"
    } else if d == 14 {
        "e"
    } else {
        "f"
    }
}

/// Appends `text` to `out`.
pub fn push_text(out: &mut String, text: &str)
    ensures
        final(out)@ == old(out)@ + text@,
{
    out.append(text);
}

/// Appends the `k` lowest base-`base` digits of `v`.
pub fn push_digits(out: &mut String, v: u64, base: u64, k: u64)
    requires
        2 <= base <= 16,
    ensures
        final(out)@ == old(out)@ + digits(v as nat, base as nat, k as nat),
    decreases k,
{
    if k == 0 {
        proof {
            assert(old(out)@ + digits(v as nat, base as nat, 0) =~= old(out)@);
        }
        return;
    }
    push_digits(out, v / base, base, k - 1);
    out.append(digit_str(v % base));
    proof {
        assert(digits(v as nat, base as nat, k as nat) == digits(
            (v / base) as nat,
            base as nat,
            (k - 1) as nat,
        ).push(digit_char((v % base) as nat)));
        assert(final(out)@ =~= old(out)@ + digits(v as nat, base as nat, k as nat));
    }
}

/// Number of decimal digits of `v`.
pub fn decimal_digit_count(v: u64) -> (w: u64)
    ensures
        w == decimal_width(v as nat),
        1 <= w <= v as int + 1,
    decreases v,
{
    if v < 10 {
        1
    } else {
        1 + decimal_digit_count(v / 10)
    }
}

/// Appends the decimal numeral of `v`, zero-padded to at least `width` digits.
pub fn push_decimal(out: &mut String, v: u64, width: u64)
    ensures
        final(out)@ == old(out)@ + decimal_text(v as nat, width as nat),
{
    let w = decimal_digit_count(v);
    let k = if w < width {
        width
    } else {
        w
    };
    push_digits(out, v, 10, k);
}

/// Appends the lower-case hexadecimal numeral of `v`, zero-padded to `width` digits.
pub fn push_hex(out: &mut String, v: u64, width: u64)
    ensures
        final(out)@ == old(out)@ + hex_text(v as nat, width as nat),
{
    push_digits(out, v, 16, width);
}

} // verus!
