//! Rendering byte counts for people: a count below one KiB is shown as
//! a plain integer number of bytes; anything larger is scaled to the
//! greatest fitting binary (IEC) magnitude and shown with exactly two
//! decimal places, rounded to nearest — a tie on the exact binary
//! value rounds to the even hundredth, as formatting the exact value
//! would — and the matching suffix (KiB, MiB, GiB, TiB, PiB, EiB).

use vstd::prelude::*;
use vstd::string::StringExecFns;

verus! {

/// The decimal digit character for `d`.
pub open spec fn dec_digit(d: int) -> char {
    if d == 0 {
        '0'
    } else if d == 1 {
        '1'
    } else if d == 2 {
        '2'
    } else if d == 3 {
        '3'
    } else if d == 4 {
        '4'
    } else if d == 5 {
        '5'
    } else if d == 6 {
        '6'
    } else if d == 7 {
        '7'
    } else if d == 8 {
        '8'
    } else {
        '9'
    }
}

/// The decimal rendering of `n`, most significant digit first, no
/// leading zeroes (a lone zero for zero).
pub open spec fn dec_str(n: int) -> Seq<char>
    decreases n,
{
    if n < 10 {
        seq![dec_digit(n)]
    } else {
        dec_str(n / 10).push(dec_digit(n % 10))
    }
}

/// The greatest binary magnitude not above `bytes`: 0 for bytes, 1
/// for KiB, up to 6 for EiB.
pub open spec fn scale_of(bytes: u64) -> int {
    if bytes < 1024 {
        0
    } else if bytes < 1048576 {
        1
    } else if bytes < 1073741824 {
        2
    } else if bytes < 1099511627776 {
        3
    } else if bytes < 1125899906842624 {
        4
    } else if bytes < 1152921504606846976 {
        5
    } else {
        6
    }
}

/// How many bytes one unit of magnitude `p` holds.
pub open spec fn scale_unit(p: int) -> int {
    if p == 1 {
        1024
    } else if p == 2 {
        1048576
    } else if p == 3 {
        1073741824
    } else if p == 4 {
        1099511627776
    } else if p == 5 {
        1125899906842624
    } else {
        1152921504606846976
    }
}

/// The letter of magnitude `p`.
pub open spec fn scale_symbol(p: int) -> char {
    if p == 1 {
        'K'
    } else if p == 2 {
        'M'
    } else if p == 3 {
        'G'
    } else if p == 4 {
        'T'
    } else if p == 5 {
        'P'
    } else {
        'E'
    }
}

/// The fraction `rem / unit` in hundredths, rounded to nearest; a tie
/// (exactly half a hundredth) rounds to the even hundredth, as
/// formatting the exact binary value would.
pub open spec fn rounded_hundredths(rem: int, unit: int) -> int {
    let q = (rem * 100) / unit;
    let r2 = (rem * 100) % unit;
    if 2 * r2 > unit {
        q + 1
    } else if 2 * r2 < unit {
        q
    } else if q % 2 == 1 {
        q + 1
    } else {
        q
    }
}

/// What `human_readable` renders: below one KiB the integer count of
/// bytes and " B"; otherwise the scaled whole part, a point, exactly
/// two decimal places rounded to nearest (ties to even, carrying into
/// the whole part when the fraction reaches one hundred hundredths),
/// and the magnitude's "_iB" suffix.
pub open spec fn human_readable_spec(bytes: u64) -> Seq<char> {
    if bytes < 1024 {
        dec_str(bytes as int) + seq![' ', 'B']
    } else {
        let p = scale_of(bytes);
        let u = scale_unit(p);
        let f0 = rounded_hundredths(bytes as int % u, u);
        let whole = if f0 == 100 {
            bytes as int / u + 1
        } else {
            bytes as int / u
        };
        let frac = if f0 == 100 {
            0int
        } else {
            f0
        };
        dec_str(whole) + seq!['.'] + seq![
            dec_digit(frac / 10),
            dec_digit(frac % 10),
        ] + seq![' ', scale_symbol(p), 'i', 'B']
    }
}

/// Append the digit character of `d`.
fn push_digit(s: &mut String, d: u64)
    requires
        d < 10,
    ensures
        final(s)@ == old(s)@ + seq![dec_digit(d as int)],
{
    let t: &str = if d == 0 {
        "0"
    } else if d == 1 {
        "1"
    } else if d == 2 {
        "2"
    } else if d == 3 {
        "3"
    } else if d == 4 {
        "4"
    } else if d == 5 {
        "5"
    } else if d == 6 {
        "6"
    } else if d == 7 {
        "7"
    } else if d == 8 {
        "8"
    } else {
        "9"
    };
    proof {
        reveal_strlit("0");
        reveal_strlit("1");
        reveal_strlit("2");
        reveal_strlit("3");
        reveal_strlit("4");
        reveal_strlit("5");
        reveal_strlit("6");
        reveal_strlit("7");
        reveal_strlit("8");
        reveal_strlit("9");
        assert(t@ =~= seq![dec_digit(d as int)]);
    }
    s.append(t);
}

/// Append the decimal rendering of `n`.
fn push_decimal(s: &mut String, n: u64)
    ensures
        final(s)@ == old(s)@ + dec_str(n as int),
    decreases n,
{
    if n < 10 {
        push_digit(s, n);
    } else {
        push_decimal(s, n / 10);
        push_digit(s, n % 10);
        proof {
            assert(old(s)@ + dec_str(n as int / 10) + seq![dec_digit(n as int % 10)] =~= old(
                s,
            )@ + dec_str(n as int));
        }
    }
}

/// Render a byte count for people, as `human_readable_spec` says:
/// "512 B", "1.50 KiB", "2.00 MiB", and so on up to EiB, with the
/// fractional part rounded to the nearest two decimal places, ties to
/// even.
pub fn human_readable(bytes: u64) -> (r: String)
    ensures
        r@ == human_readable_spec(bytes),
{
    let mut s = String::new();
    if bytes < 1024 {
        push_decimal(&mut s, bytes);
        s.append(" B");
        proof {
            reveal_strlit(" B");
            assert(s@ =~= human_readable_spec(bytes));
        }
    } else {
        let unit: u64;
        let sym: &str;
        let ghost p: int;
        if bytes < 1048576 {
            unit = 1024;
            sym = "K";
            proof {
                p = 1;
                reveal_strlit("K");
                assert(sym@ =~= seq![scale_symbol(p)]);
            }
        } else if bytes < 1073741824 {
            unit = 1048576;
            sym = "M";
            proof {
                p = 2;
                reveal_strlit("M");
                assert(sym@ =~= seq![scale_symbol(p)]);
            }
        } else if bytes < 1099511627776 {
            unit = 1073741824;
            sym = "G";
            proof {
                p = 3;
                reveal_strlit("G");
                assert(sym@ =~= seq![scale_symbol(p)]);
            }
        } else if bytes < 1125899906842624 {
            unit = 1099511627776;
            sym = "T";
            proof {
                p = 4;
                reveal_strlit("T");
                assert(sym@ =~= seq![scale_symbol(p)]);
            }
        } else if bytes < 1152921504606846976 {
            unit = 1125899906842624;
            sym = "P";
            proof {
                p = 5;
                reveal_strlit("P");
                assert(sym@ =~= seq![scale_symbol(p)]);
            }
        } else {
            unit = 1152921504606846976;
            sym = "E";
            proof {
                p = 6;
                reveal_strlit("E");
                assert(sym@ =~= seq![scale_symbol(p)]);
            }
        }
        proof {
            assert(p == scale_of(bytes));
            assert(unit == scale_unit(p));
        }
        let whole0 = bytes / unit;
        let rem = bytes % unit;
        let num: u128 = (rem as u128) * 100;
        let q128: u128 = num / (unit as u128);
        let r2: u128 = num % (unit as u128);
        proof {
            assert((rem as int) * 100 < (unit as int) * 100) by (nonlinear_arith)
                requires
                    (rem as int) < (unit as int),
            ;
            assert(((rem as int) * 100) / (unit as int) < 100) by (nonlinear_arith)
                requires
                    (rem as int) * 100 < (unit as int) * 100,
                    (unit as int) > 0,
            ;
            vstd::arithmetic::div_mod::lemma_mod_division_less_than_divisor(
                (rem as int) * 100,
                unit as int,
            );
            assert(q128 == ((bytes as int % (unit as int)) * 100) / (unit as int));
            assert(r2 == ((bytes as int % (unit as int)) * 100) % (unit as int));
        }
        let q: u64 = q128 as u64;
        let f0: u64 = if 2 * r2 > unit as u128 {
            q + 1
        } else if 2 * r2 < unit as u128 {
            q
        } else if q % 2 == 1 {
            q + 1
        } else {
            q
        };
        proof {
            assert(f0 == rounded_hundredths(bytes as int % (unit as int), unit as int));
            assert(f0 <= 100);
            vstd::arithmetic::div_mod::lemma_fundamental_div_mod(bytes as int, unit as int);
            assert(1024 * (whole0 as int) <= u64::MAX) by (nonlinear_arith)
                requires
                    (unit as int) * (whole0 as int) + (rem as int) == bytes as int,
                    (rem as int) >= 0,
                    (unit as int) >= 1024,
                    (whole0 as int) >= 0,
                    (bytes as int) <= u64::MAX,
            ;
        }
        let whole: u64;
        let frac: u64;
        if f0 == 100 {
            whole = whole0 + 1;
            frac = 0;
        } else {
            whole = whole0;
            frac = f0;
        }
        push_decimal(&mut s, whole);
        s.append(".");
        push_digit(&mut s, frac / 10);
        push_digit(&mut s, frac % 10);
        s.append(" ");
        s.append(sym);
        s.append("iB");
        proof {
            reveal_strlit(".");
            reveal_strlit(" ");
            reveal_strlit("iB");
            assert(s@ =~= human_readable_spec(bytes));
        }
    }
    s
}

/// Rounding accuracy: the displayed whole-and-hundredths figure,
/// scaled back by its unit, differs from the exact byte count by at
/// most half of one displayed hundredth, so reading the output
/// recovers the byte count to the displayed precision.
pub proof fn lemma_rendering_accuracy(bytes: u64)
    requires
        bytes >= 1024,
    ensures
        ({
            let u = scale_unit(scale_of(bytes));
            let shown = (bytes as int / u) * 100 + rounded_hundredths(bytes as int % u, u);
            &&& 2 * (shown * u - (bytes as int) * 100) <= u
            &&& 2 * ((bytes as int) * 100 - shown * u) <= u
        }),
{
    let u = scale_unit(scale_of(bytes));
    let b = bytes as int;
    let whole = b / u;
    let rem = b % u;
    let num = rem * 100;
    let q = num / u;
    let r2 = num % u;
    let f = rounded_hundredths(rem, u);
    let shown = whole * 100 + f;
    vstd::arithmetic::div_mod::lemma_fundamental_div_mod(b, u);
    vstd::arithmetic::div_mod::lemma_fundamental_div_mod(num, u);
    vstd::arithmetic::div_mod::lemma_mod_division_less_than_divisor(num, u);
    assert(shown * u == whole * 100 * u + f * u) by (nonlinear_arith)
        requires
            shown == whole * 100 + f,
    ;
    assert(b * 100 == whole * u * 100 + num) by (nonlinear_arith)
        requires
            b == u * whole + rem,
            num == rem * 100,
    ;
    assert(whole * 100 * u == whole * u * 100) by (nonlinear_arith);
    if f == q + 1 {
        assert(2 * r2 >= u);
        assert(f * u == q * u + u) by (nonlinear_arith)
            requires
                f == q + 1,
        ;
        assert(num == u * q + r2);
        assert(q * u == u * q) by (nonlinear_arith);
    } else {
        assert(f == q);
        assert(2 * r2 <= u);
        assert(num == u * q + r2);
        assert(f * u == u * q) by (nonlinear_arith)
            requires
                f == q,
        ;
    }
}

} // verus!
