//! Human-readable byte counts.
//!
//! A value is divided by 1000 until it falls under 1000; the number of
//! divisions picks the unit (B, kB, MB, GB, TB, PB). The integer part is shown
//! with up to three significant digits, decimals drawn from the remainder of
//! the last division: no decimal at 100 and above, one decimal from 10 to 99
//! when it is nonzero, two decimals below 10 when they are nonzero. A value
//! past the PB range falls back to the raw byte count with unit B.
use vstd::prelude::*;

verus! {

/// How many times `v` must be divided by 1000 to fall under 1000; this picks
/// the unit.
pub open spec fn unit_index(v: nat) -> nat
    decreases v,
{
    if v < 1000 {
        0
    } else {
        1 + unit_index(v / 1000)
    }
}

/// The integer part shown: `v` after all its divisions by 1000.
pub open spec fn display_size(v: nat) -> nat
    decreases v,
{
    if v < 1000 {
        v
    } else {
        display_size(v / 1000)
    }
}

/// The remainder of the last division by 1000; 0 when none took place.
pub open spec fn display_rem(v: nat) -> nat
    decreases v,
{
    if v < 1000 {
        0
    } else if v / 1000 < 1000 {
        v % 1000
    } else {
        display_rem(v / 1000)
    }
}

/// The character of one decimal digit.
pub open spec fn digit_char(d: nat) -> char {
    if d == 0 {
        '0'
    } else if d == 1 {
        '1'
    } else if d == 2 {
        '2'
    } else if d == 3 {
        '3'
    } else if d == 4 {
        '4'
    } else if d == 5 {
        '5'
    } else if d == 6 {
        '6'
    } else if d == 7 {
        '7'
    } else if d == 8 {
        '8'
    } else {
        '9'
    }
}

/// The decimal digits of `n`, most significant first.
pub open spec fn dec_digits(n: nat) -> Seq<char>
    decreases n,
{
    if n < 10 {
        seq![digit_char(n)]
    } else {
        dec_digits(n / 10).push(digit_char(n % 10))
    }
}

/// The integer part `s` with its decimals drawn from the remainder `r` of the
/// last division: none at 100 and above, one from 10 to 99 when nonzero, two
/// below 10 when nonzero (a leading zero is kept).
pub open spec fn size_body(s: nat, r: nat) -> Seq<char> {
    if s >= 100 {
        dec_digits(s)
    } else if s >= 10 {
        if r / 100 == 0 {
            dec_digits(s)
        } else {
            dec_digits(s) + seq!['.'] + dec_digits(r / 100)
        }
    } else {
        if r / 10 == 0 {
            dec_digits(s)
        } else if r / 10 < 10 {
            dec_digits(s) + seq!['.', '0'] + dec_digits(r / 10)
        } else {
            dec_digits(s) + seq!['.'] + dec_digits(r / 10)
        }
    }
}

/// The label of unit `k`.
pub open spec fn unit_label(k: nat) -> Seq<char> {
    if k == 0 {
        "B"@
    } else if k == 1 {
        "kB"@
    } else if k == 2 {
        "MB"@
    } else if k == 3 {
        "GB"@
    } else if k == 4 {
        "TB"@
    } else {
        "PB"@
    }
}

/// The full human-readable rendering of a byte count.
pub open spec fn readable_view(v: nat) -> Seq<char> {
    if unit_index(v) <= 5 {
        size_body(display_size(v), display_rem(v)) + seq![' '] + unit_label(unit_index(v))
    } else {
        dec_digits(v) + seq![' '] + "B"@
    }
}

/// One decimal digit as a string slice.
fn digit_literal(d: u64) -> (r: &'static str)
    requires
        d < 10,
    ensures
        r@ == seq![digit_char(d as nat)],
{
    proof {
        reveal_strlit("0");
        reveal_strlit("1");
        reveal_strlit("2");
        reveal_strlit("3");
        reveal_strlit("4");
        reveal_strlit("5");
        reveal_strlit("6");
        reveal_strlit("7");
        reveal_strlit("8");
        reveal_strlit("9");
    }
    let r = match d {
        0 => "0",
        1 => "1",
        2 => "2",
        3 => "3",
        4 => "4",
        5 => "5",
        6 => "6",
        7 => "7",
        8 => "8",
        _ => "9",
    };
    proof {
        assert(r@ =~= seq![digit_char(d as nat)]);
    }
    r
}

/// The decimal digits of `n` as a string.
fn decimal_string(n: u64) -> (r: String)
    ensures
        r@ == dec_digits(n as nat),
    decreases n,
{
    if n < 10 {
        String::from_str(digit_literal(n))
    } else {
        let mut s = decimal_string(n / 10);
        s.append(digit_literal(n % 10));
        proof {
            assert(s@ =~= dec_digits((n / 10) as nat).push(digit_char((n % 10) as nat)));
        }
        s
    }
}

/// The label of unit `k` as a string slice.
fn unit_literal(k: usize) -> (r: &'static str)
    requires
        k <= 5,
    ensures
        r@ == unit_label(k as nat),
{
    match k {
        0 => "B",
        1 => "kB",
        2 => "MB",
        3 => "GB",
        4 => "TB",
        _ => "PB",
    }
}

/// The integer part with its decimals, as a string.
fn body_string(size: u64, rem: u64) -> (r: String)
    ensures
        r@ == size_body(size as nat, rem as nat),
{
    proof {
        reveal_strlit(".");
        reveal_strlit(".0");
    }
    if size >= 100 {
        decimal_string(size)
    } else if size >= 10 {
        if rem / 100 == 0 {
            decimal_string(size)
        } else {
            let mut s = decimal_string(size);
            s.append(".");
            let d = decimal_string(rem / 100);
            s.append(d.as_str());
            proof {
                assert(s@ =~= dec_digits(size as nat) + seq!['.'] + dec_digits(
                    (rem / 100) as nat,
                ));
            }
            s
        }
    } else {
        if rem / 10 == 0 {
            decimal_string(size)
        } else if rem / 10 < 10 {
            let mut s = decimal_string(size);
            s.append(".0");
            let d = decimal_string(rem / 10);
            s.append(d.as_str());
            proof {
                assert(s@ =~= dec_digits(size as nat) + seq!['.', '0'] + dec_digits(
                    (rem / 10) as nat,
                ));
            }
            s
        } else {
            let mut s = decimal_string(size);
            s.append(".");
            let d = decimal_string(rem / 10);
            s.append(d.as_str());
            proof {
                assert(s@ =~= dec_digits(size as nat) + seq!['.'] + dec_digits((rem / 10) as nat));
            }
            s
        }
    }
}

/// Renders a byte count as a human-readable size string.
pub fn readable_size(input_size: &u64) -> (r: String)
    ensures
        r@ == readable_view(*input_size as nat),
{
    proof {
        reveal_strlit(" ");
        reveal_strlit(" B");
        reveal_strlit("B");
    }
    let v: u64 = *input_size;
    let mut size: u64 = v;
    let mut size_remainder: u64 = 0;
    let mut k: usize = 0;
    #[verifier::loop_isolation(false)]
    while k < 6
        invariant
            k <= 6,
            display_size(v as nat) == display_size(size as nat),
            unit_index(v as nat) == k + unit_index(size as nat),
            size < 1000 ==> size_remainder as nat == display_rem(v as nat),
            size >= 1000 ==> display_rem(v as nat) == display_rem(size as nat),
        decreases 6 - k,
    {
        if size < 1000 {
            let mut out = body_string(size, size_remainder);
            out.append(" ");
            out.append(unit_literal(k));
            proof {
                assert(out@ =~= readable_view(v as nat));
            }
            return out;
        }
        size_remainder = size % 1000;
        size = size / 1000;
        k = k + 1;
    }
    let mut out = decimal_string(v);
    out.append(" B");
    proof {
        assert(unit_index(v as nat) > 5);
        assert(out@ =~= readable_view(v as nat));
    }
    out
}

} // verus!
