//! Decimal text for the emitted notation.
//!
//! Every number in the output is written through these functions, whose
//! contracts give the produced characters exactly.

use vstd::prelude::*;

verus! {

/// The character for one decimal digit.
pub open spec fn digit_c(d: int) -> char {
    if d == 0 {
        '0'
    } else if d == 1 {
        '1'
    } else if d == 2 {
        '2'
    } else if d == 3 {
        '3'
    } else if d == 4 {
        '4'
    } else if d == 5 {
        '5'
    } else if d == 6 {
        '6'
    } else if d == 7 {
        '7'
    } else if d == 8 {
        '8'
    } else {
        '9'
    }
}

/// The decimal digits of a non-negative integer, most significant first.
pub open spec fn dec_digits(n: nat) -> Seq<char>
    decreases n,
{
    if n < 10 {
        seq![digit_c(n as int)]
    } else {
        dec_digits(n / 10).push(digit_c((n % 10) as int))
    }
}

/// `n` copies of one character.
pub open spec fn char_rep(c: char, n: nat) -> Seq<char>
    decreases n,
{
    if n == 0 {
        Seq::empty()
    } else {
        char_rep(c, (n - 1) as nat).push(c)
    }
}

/// The character for one decimal digit.
pub fn digit_char(d: u8) -> (c: char)
    requires
        d < 10,
    ensures
        c == digit_c(d as int),
{
    match d {
        0 => '0',
        1 => '1',
        2 => '2',
        3 => '3',
        4 => '4',
        5 => '5',
        6 => '6',
        7 => '7',
        8 => '8',
        _ => '9',
    }
}

/// Append the decimal digits of a non-negative number.
pub fn push_dec(out: &mut Vec<char>, n: i128)
    requires
        n >= 0,
    ensures
        final(out)@ == old(out)@ + dec_digits(n as nat),
    decreases n,
{
    if n < 10 {
        out.push(digit_char(n as u8));
    } else {
        push_dec(out, n / 10);
        out.push(digit_char((n % 10) as u8));
    }
}

/// Append `n` copies of `c`.
pub fn push_rep(out: &mut Vec<char>, c: char, n: i128)
    requires
        n >= 0,
    ensures
        final(out)@ == old(out)@ + char_rep(c, n as nat),
{
    let mut i: i128 = 0;
    while i < n
        invariant
            0 <= i <= n,
            out@ == old(out)@ + char_rep(c, i as nat),
        decreases n - i,
    {
        out.push(c);
        i = i + 1;
    }
}

/// A tempo value, given in rounded thousandths, written with exactly three
/// digits after the point.
pub open spec fn bpm3_str(mb: int) -> Seq<char> {
    dec_digits((mb / 1000) as nat) + seq!['.'] + seq![
        digit_c(mb / 100 % 10),
        digit_c(mb / 10 % 10),
        digit_c(mb % 10),
    ]
}

/// Append a tempo value given in rounded thousandths: whole part, a point,
/// then exactly three fractional digits.
pub fn push_bpm3(out: &mut Vec<char>, mb: i128)
    requires
        mb >= 0,
    ensures
        final(out)@ == old(out)@ + bpm3_str(mb as int),
{
    push_dec(out, mb / 1000);
    out.push('.');
    out.push(digit_char((mb / 100 % 10) as u8));
    out.push(digit_char((mb / 10 % 10) as u8));
    out.push(digit_char((mb % 10) as u8));
    proof {
        assert(out@ =~= old(out)@ + bpm3_str(mb as int));
    }
}

/// A millisecond timestamp written as plain decimal seconds: the integral
/// part, then up to three fractional digits with trailing zeros removed and
/// no point when the fraction is zero.
pub open spec fn secs_str(ms: int) -> Seq<char> {
    let a = if ms < 0 {
        -ms
    } else {
        ms
    };
    let sign: Seq<char> = if ms < 0 {
        seq!['-']
    } else {
        Seq::empty()
    };
    let f = a % 1000;
    let frac: Seq<char> = if f == 0 {
        Seq::empty()
    } else if f % 10 != 0 {
        seq!['.', digit_c(f / 100), digit_c(f / 10 % 10), digit_c(f % 10)]
    } else if f % 100 != 0 {
        seq!['.', digit_c(f / 100), digit_c(f / 10 % 10)]
    } else {
        seq!['.', digit_c(f / 100)]
    };
    sign + dec_digits((a / 1000) as nat) + frac
}

/// Append a millisecond timestamp as decimal seconds.
pub fn push_secs(out: &mut Vec<char>, ms: i32)
    ensures
        final(out)@ == old(out)@ + secs_str(ms as int),
{
    let a: i64 = if ms < 0 {
        out.push('-');
        -(ms as i64)
    } else {
        ms as i64
    };
    push_dec(out, (a / 1000) as i128);
    let f: i64 = a % 1000;
    if f != 0 {
        out.push('.');
        out.push(digit_char((f / 100) as u8));
        if f % 100 != 0 {
            out.push(digit_char((f / 10 % 10) as u8));
        }
        if f % 10 != 0 {
            out.push(digit_char((f % 10) as u8));
        }
    }
    proof {
        assert(out@ =~= old(out)@ + secs_str(ms as int));
    }
}

} // verus!
