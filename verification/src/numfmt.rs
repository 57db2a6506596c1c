//! Decimal rendering of integers and fixed-point values as character
//! sequences, with exec builders proved against the spec forms.

use vstd::prelude::*;
use vstd::string::StrSliceExecFns;
use vstd::string::StringExecFns;

verus! {

/// The decimal digit character for `d` in 0..=9.
pub open spec fn digit_char(d: int) -> char {
    if d == 0 {
        '0'
    } else if d == 1 {
        '1'
    } else if d == 2 {
        '2'
    } else if d == 3 {
        '3'
    } else if d == 4 {
        '4'
    } else if d == 5 {
        '5'
    } else if d == 6 {
        '6'
    } else if d == 7 {
        '7'
    } else if d == 8 {
        '8'
    } else {
        '9'
    }
}

/// Decimal digits of `n`, most significant first, no leading zeros
/// (a single `0` for zero).
pub open spec fn dec_seq(n: nat) -> Seq<char>
    decreases n,
{
    if n < 10 {
        seq![digit_char(n as int)]
    } else {
        dec_seq(n / 10) + seq![digit_char((n % 10) as int)]
    }
}

/// The low `w` decimal digits of `n`, zero padded to exactly width `w`.
pub open spec fn padded_seq(n: nat, w: nat) -> Seq<char>
    decreases w,
{
    if w == 0 {
        Seq::empty()
    } else {
        padded_seq(n / 10, (w - 1) as nat) + seq![digit_char((n % 10) as int)]
    }
}

/// Fractional digits of `n` at width `w` with trailing zeros removed;
/// empty when the fraction is zero.
pub open spec fn frac_trim_seq(n: nat, w: nat) -> Seq<char>
    decreases w,
{
    if w == 0 {
        Seq::empty()
    } else if n % 10 == 0 {
        frac_trim_seq(n / 10, (w - 1) as nat)
    } else {
        padded_seq(n, w)
    }
}

/// Ten to the power `w`.
pub open spec fn pow10(w: nat) -> nat
    decreases w,
{
    if w == 0 {
        1
    } else {
        10 * pow10((w - 1) as nat)
    }
}

/// Rendering of the fixed-point value `v / 10^w`: optional sign, integer
/// part without leading zeros, then a point and the fractional digits with
/// trailing zeros trimmed — the point and fraction omitted when the
/// fraction is zero.
pub open spec fn fixed_trim_seq(v: int, w: nat) -> Seq<char> {
    let a = (if v >= 0 {
        v
    } else {
        -v
    }) as nat;
    let sign = if v < 0 {
        seq!['-']
    } else {
        Seq::<char>::empty()
    };
    let ft = frac_trim_seq(a % pow10(w), w);
    sign + dec_seq(a / pow10(w)) + (if ft.len() == 0 {
        Seq::<char>::empty()
    } else {
        seq!['.'] + ft
    })
}

/// A one-character string for the decimal digit `d`.
pub fn digit_str(d: u64) -> (r: &'static str)
    requires
        d < 10,
    ensures
        r@ == seq![digit_char(d as int)],
{
    proof {
        reveal_strlit("0");
        reveal_strlit("1");
        reveal_strlit("2");
        reveal_strlit("3");
        reveal_strlit("4");
        reveal_strlit("5");
        reveal_strlit("6");
        reveal_strlit("7");
        reveal_strlit("8");
        reveal_strlit("9");
    }
    let r = match d {
        0 => "0",
        1 => "1",
        2 => "2",
        3 => "3",
        4 => "4",
        5 => "5",
        6 => "6",
        7 => "7",
        8 => "8",
        _ => "9",
    };
    proof {
        assert(r@ =~= seq![digit_char(d as int)]);
    }
    r
}

/// Decimal rendering of `n` without leading zeros.
pub fn u64_dec(n: u64) -> (r: String)
    ensures
        r@ == dec_seq(n as nat),
    decreases n,
{
    if n < 10 {
        String::from_str(digit_str(n))
    } else {
        let r = u64_dec(n / 10).concat(digit_str(n % 10));
        proof {
            assert(r@ =~= dec_seq(n as nat));
        }
        r
    }
}

/// Zero-padded rendering of the low `w` digits of `n`.
pub fn u64_padded(n: u64, w: u64) -> (r: String)
    ensures
        r@ == padded_seq(n as nat, w as nat),
    decreases w,
{
    if w == 0 {
        let r = String::new();
        proof {
            assert(r@ =~= padded_seq(n as nat, 0));
        }
        r
    } else {
        let r = u64_padded(n / 10, w - 1).concat(digit_str(n % 10));
        proof {
            assert(r@ =~= padded_seq(n as nat, w as nat));
        }
        r
    }
}

fn u64_frac_trim(n: u64, w: u64) -> (r: String)
    ensures
        r@ == frac_trim_seq(n as nat, w as nat),
    decreases w,
{
    if w == 0 {
        String::new()
    } else if n % 10 == 0 {
        u64_frac_trim(n / 10, w - 1)
    } else {
        u64_padded(n, w)
    }
}

fn pow10_u64(w: u64) -> (r: u64)
    requires
        w == 3 || w == 7,
    ensures
        r == pow10(w as nat),
        r >= 1,
{
    proof {
        reveal_with_fuel(pow10, 9);
    }
    if w == 3 {
        1000
    } else {
        10_000_000
    }
}

/// Rendering of the fixed-point value `v / 10^w` with trailing zeros of the
/// fraction trimmed.
pub fn fixed_trim(v: i64, w: u64) -> (r: String)
    requires
        w == 3 || w == 7,
        v > i64::MIN,
    ensures
        r@ == fixed_trim_seq(v as int, w as nat),
{
    let a: u64 = if v >= 0 {
        v as u64
    } else {
        (-v) as u64
    };
    let p = pow10_u64(w);
    let int_part = u64_dec(a / p);
    let ft = u64_frac_trim(a % p, w);
    let mut out = String::new();
    if v < 0 {
        proof {
            reveal_strlit("-");
        }
        out.append("-");
    }
    out.append(int_part.as_str());
    if !ft.as_str().is_empty() {
        proof {
            reveal_strlit(".");
        }
        out.append(".");
        out.append(ft.as_str());
    }
    proof {
        assert(out@ =~= fixed_trim_seq(v as int, w as nat));
    }
    out
}

} // verus!
