//! Text scanning: characters, fields, and exact decimal parsing.
//!
//! The record formats are line oriented; these functions cut a line into
//! fields and read integers and plain decimal numbers exactly.  A decimal
//! field is kept as an integer mantissa and a count of fractional digits,
//! so no precision is ever lost.

use vstd::prelude::*;

verus! {

/// ASCII whitespace, as trimmed from the edges of a record.
pub open spec fn is_space_c(c: char) -> bool {
    c == ' ' || c == '\t' || c == '\r' || c == '\n' || c == '\u{b}' || c == '\u{c}'
}

/// An ASCII decimal digit.
pub open spec fn is_digit_c(c: char) -> bool {
    48 <= c as u32 && c as u32 <= 57
}

/// The numeric value of a digit character.
pub open spec fn digit_val(c: char) -> int {
    c as u32 - 48
}

/// Every character of `s` is a decimal digit.
pub open spec fn all_digits(s: Seq<char>) -> bool {
    forall|i: int| 0 <= i < s.len() ==> is_digit_c(#[trigger] s[i])
}

/// The value of a digit string, most significant digit first.
pub open spec fn digits_val(s: Seq<char>) -> int
    decreases s.len(),
{
    if s.len() == 0 {
        0
    } else {
        digits_val(s.drop_last()) * 10 + digit_val(s.last())
    }
}

/// Powers of ten.
pub open spec fn pow10(k: nat) -> int
    decreases k,
{
    if k == 0 {
        1
    } else {
        10 * pow10((k - 1) as nat)
    }
}

/// A digit string has a non-negative value.
pub proof fn lemma_digits_val_nonneg(s: Seq<char>)
    requires
        all_digits(s),
    ensures
        digits_val(s) >= 0,
    decreases s.len(),
{
    if s.len() > 0 {
        lemma_digits_val_nonneg(s.drop_last());
    }
}

/// Index of the first occurrence of `c` in `s`, or `-1`.
pub open spec fn find_c(s: Seq<char>, c: char) -> int
    decreases s.len(),
{
    if s.len() == 0 {
        -1
    } else if s[0] == c {
        0
    } else if find_c(s.drop_first(), c) < 0 {
        -1
    } else {
        find_c(s.drop_first(), c) + 1
    }
}

/// A string without `c` has no first occurrence of it.
pub proof fn lemma_find_none(s: Seq<char>, c: char)
    requires
        forall|i: int| 0 <= i < s.len() ==> s[i] != c,
    ensures
        find_c(s, c) == -1,
    decreases s.len(),
{
    if s.len() > 0 {
        lemma_find_none(s.drop_first(), c);
    }
}

/// The first occurrence of `c` is at `k` when `c` is at `k` and nowhere
/// before it.
pub proof fn lemma_find_at(s: Seq<char>, c: char, k: int)
    requires
        0 <= k < s.len(),
        s[k] == c,
        forall|i: int| 0 <= i < k ==> s[i] != c,
    ensures
        find_c(s, c) == k,
    decreases s.len(),
{
    if k > 0 {
        lemma_find_at(s.drop_first(), c, k - 1);
    }
}

/// `s` with leading whitespace removed.
pub open spec fn trim_front_s(s: Seq<char>) -> Seq<char>
    decreases s.len(),
{
    if s.len() > 0 && is_space_c(s[0]) {
        trim_front_s(s.drop_first())
    } else {
        s
    }
}

/// `s` with trailing whitespace removed.
pub open spec fn trim_back_s(s: Seq<char>) -> Seq<char>
    decreases s.len(),
{
    if s.len() > 0 && is_space_c(s.last()) {
        trim_back_s(s.drop_last())
    } else {
        s
    }
}

/// `s` with whitespace removed from both edges.
pub open spec fn trim_s(s: Seq<char>) -> Seq<char> {
    trim_back_s(trim_front_s(s))
}

/// The first occurrence index is always inside the string, or `-1`.
pub proof fn lemma_find_range(s: Seq<char>, c: char)
    ensures
        -1 <= find_c(s, c) < s.len(),
    decreases s.len(),
{
    if s.len() > 0 && s[0] != c {
        lemma_find_range(s.drop_first(), c);
    }
}

/// The fields of `s` separated by `c`; a string without the separator is
/// one field.
pub open spec fn split_s(s: Seq<char>, c: char) -> Seq<Seq<char>>
    decreases s.len(),
    via split_s_decreases
{
    let f = find_c(s, c);
    if f < 0 {
        seq![s]
    } else {
        seq![s.take(f)] + split_s(s.skip(f + 1), c)
    }
}

#[via_fn]
proof fn split_s_decreases(s: Seq<char>, c: char) {
    lemma_find_range(s, c);
}

/// `p` occurs as a contiguous run inside `s`.
pub open spec fn has_sub(s: Seq<char>, p: Seq<char>) -> bool {
    exists|i: int| 0 <= i && i + p.len() <= s.len() && #[trigger] s.subrange(i, i + p.len()) == p
}

/// Length of a leading sign, one character or none.
pub open spec fn sign_len(s: Seq<char>) -> int {
    if s.len() > 0 && (s[0] == '+' || s[0] == '-') {
        1
    } else {
        0
    }
}

/// The part of a number after its optional sign.
pub open spec fn num_body(s: Seq<char>) -> Seq<char> {
    s.skip(sign_len(s))
}

/// `s` is an optionally signed run of at least one digit.
pub open spec fn int_grammar(s: Seq<char>) -> bool {
    num_body(s).len() > 0 && all_digits(num_body(s))
}

/// The signed value of an integer string.
pub open spec fn int_val(s: Seq<char>) -> int {
    if s.len() > 0 && s[0] == '-' {
        -digits_val(num_body(s))
    } else {
        digits_val(num_body(s))
    }
}

/// Position of the decimal point in the unsigned part, or `-1`.
pub open spec fn dec_dot(s: Seq<char>) -> int {
    find_c(num_body(s), '.')
}

/// The digit characters of a decimal string: the unsigned part with the
/// first point, if any, removed.
pub open spec fn dec_digits_of(s: Seq<char>) -> Seq<char> {
    let b = num_body(s);
    let f = dec_dot(s);
    if f < 0 {
        b
    } else {
        b.take(f) + b.skip(f + 1)
    }
}

/// `s` is an optionally signed plain decimal: digits with at most one
/// point somewhere among them, and at least one digit.
pub open spec fn dec_grammar(s: Seq<char>) -> bool {
    dec_digits_of(s).len() > 0 && all_digits(dec_digits_of(s))
}

/// Number of digits after the point.
pub open spec fn dec_scale(s: Seq<char>) -> int {
    if dec_dot(s) < 0 {
        0
    } else {
        num_body(s).len() - dec_dot(s) - 1
    }
}

/// The signed mantissa: the value of the digits with the point ignored.
pub open spec fn dec_mantissa(s: Seq<char>) -> int {
    if s.len() > 0 && s[0] == '-' {
        -digits_val(dec_digits_of(s))
    } else {
        digits_val(dec_digits_of(s))
    }
}

/// Whitespace test for one character.
pub fn is_space(c: char) -> (r: bool)
    ensures
        r == is_space_c(c),
{
    c == ' ' || c == '\t' || c == '\r' || c == '\n' || c == '\u{b}' || c == '\u{c}'
}

/// The characters of a text slice.
pub fn str_to_chars(s: &str) -> (v: Vec<char>)
    ensures
        v@ == s@,
{
    let n = s.unicode_len();
    let mut v: Vec<char> = Vec::new();
    let mut i: usize = 0;
    while i < n
        invariant
            i <= n,
            n == s@.len(),
            v@ == s@.take(i as int),
        decreases n - i,
    {
        v.push(s.get_char(i));
        proof {
            assert(v@ =~= s@.take(i + 1));
        }
        i = i + 1;
    }
    proof {
        assert(s@.take(n as int) =~= s@);
    }
    v
}

/// Copy of `v` with whitespace removed from both edges.
pub fn trim_chars(v: &Vec<char>) -> (r: Vec<char>)
    ensures
        r@ == trim_s(v@),
{
    let n = v.len();
    let mut lo: usize = 0;
    proof {
        assert(v@.skip(0) =~= v@);
    }
    while lo < n && is_space(v[lo])
        invariant
            lo <= n,
            n == v@.len(),
            trim_front_s(v@) == trim_front_s(v@.skip(lo as int)),
        decreases n - lo,
    {
        proof {
            assert(v@.skip(lo as int).drop_first() =~= v@.skip(lo + 1));
        }
        lo = lo + 1;
    }
    proof {
        assert(trim_front_s(v@.skip(lo as int)) == v@.skip(lo as int));
    }
    let mut hi: usize = n;
    while hi > lo && is_space(v[hi - 1])
        invariant
            lo <= hi <= n,
            n == v@.len(),
            trim_front_s(v@) == v@.skip(lo as int),
            trim_back_s(v@.subrange(lo as int, n as int)) == trim_back_s(
                v@.subrange(lo as int, hi as int),
            ),
        decreases hi,
    {
        proof {
            assert(v@.subrange(lo as int, hi as int).drop_last() =~= v@.subrange(
                lo as int,
                hi - 1,
            ));
        }
        hi = hi - 1;
    }
    proof {
        if hi > lo {
            assert(trim_back_s(v@.subrange(lo as int, hi as int)) == v@.subrange(
                lo as int,
                hi as int,
            ));
        } else {
            assert(v@.subrange(lo as int, hi as int) =~= Seq::<char>::empty());
        }
        assert(v@.skip(lo as int) =~= v@.subrange(lo as int, n as int));
    }
    let mut r: Vec<char> = Vec::new();
    let mut i: usize = lo;
    while i < hi
        invariant
            lo <= i <= hi <= n,
            n == v@.len(),
            r@ == v@.subrange(lo as int, i as int),
        decreases hi - i,
    {
        r.push(v[i]);
        proof {
            assert(r@ =~= v@.subrange(lo as int, i + 1));
        }
        i = i + 1;
    }
    proof {
        assert(trim_s(v@) == v@.subrange(lo as int, hi as int));
    }
    r
}

/// Index of the first occurrence of `c`, if any.
pub fn find_char(v: &Vec<char>, c: char) -> (r: Option<usize>)
    ensures
        match r {
            Some(k) => find_c(v@, c) == k,
            None => find_c(v@, c) == -1,
        },
{
    let n = v.len();
    let mut i: usize = 0;
    while i < n
        invariant
            i <= n,
            n == v@.len(),
            forall|t: int| 0 <= t < i ==> v@[t] != c,
        decreases n - i,
    {
        if v[i] == c {
            proof {
                lemma_find_at(v@, c, i as int);
            }
            return Some(i);
        }
        i = i + 1;
    }
    proof {
        lemma_find_none(v@, c);
    }
    None
}

/// Copy of the characters from `lo` to `hi`.
pub fn sub_chars(v: &Vec<char>, lo: usize, hi: usize) -> (r: Vec<char>)
    requires
        lo <= hi <= v@.len(),
    ensures
        r@ == v@.subrange(lo as int, hi as int),
{
    let mut r: Vec<char> = Vec::new();
    let mut i: usize = lo;
    while i < hi
        invariant
            lo <= i <= hi <= v@.len(),
            r@ == v@.subrange(lo as int, i as int),
        decreases hi - i,
    {
        r.push(v[i]);
        proof {
            assert(r@ =~= v@.subrange(lo as int, i + 1));
        }
        i = i + 1;
    }
    r
}

/// The fields of `v` cut at every `sep`.
pub fn split_on(v: &Vec<char>, sep: char) -> (r: Vec<Vec<char>>)
    ensures
        r@.len() == split_s(v@, sep).len(),
        forall|i: int| 0 <= i < r@.len() ==> r@[i]@ == split_s(v@, sep)[i],
{
    let n = v.len();
    let ghost full = v@;
    let mut r: Vec<Vec<char>> = Vec::new();
    let mut piece: Vec<char> = Vec::new();
    let mut start: usize = 0;
    let mut i: usize = 0;
    proof {
        assert(full.skip(0) =~= full);
    }
    while i < n
        invariant
            start <= i <= n,
            n == full.len(),
            v@ == full,
            piece@ == full.subrange(start as int, i as int),
            forall|j: int| start <= j < i ==> full[j] != sep,
            split_s(full, sep).len() == r@.len() + split_s(full.skip(start as int), sep).len(),
            forall|j: int| 0 <= j < r@.len() ==> r@[j]@ == split_s(full, sep)[j],
            forall|j: int|
                0 <= j < split_s(full.skip(start as int), sep).len() ==> split_s(
                    full.skip(start as int),
                    sep,
                )[j] == split_s(full, sep)[r@.len() + j],
        decreases n - i,
    {
        let c = v[i];
        if c == sep {
            let ghost rem = full.skip(start as int);
            let ghost rlen0 = r@.len() as int;
            proof {
                assert forall|j: int| 0 <= j < i - start implies rem[j] != sep by {
                    assert(rem[j] == full[start + j]);
                }
                lemma_find_at(rem, sep, i - start);
                assert(rem.take(i - start) =~= full.subrange(start as int, i as int));
                assert(rem.skip(i - start + 1) =~= full.skip(i + 1));
                assert(split_s(rem, sep) == seq![piece@] + split_s(full.skip(i + 1), sep));
            }
            r.push(piece);
            piece = Vec::new();
            start = i + 1;
            proof {
                assert(r@[rlen0]@ == split_s(rem, sep)[0]);
                assert forall|j: int| 0 <= j < r@.len() implies r@[j]@ == split_s(full, sep)[j] by {
                    if j < rlen0 {
                        assert(r@[j]@ == split_s(full, sep)[j]);
                    } else {
                        assert(split_s(rem, sep)[0] == split_s(full, sep)[rlen0]);
                    }
                }
                assert forall|j: int|
                    0 <= j < split_s(full.skip(start as int), sep).len() implies split_s(
                    full.skip(start as int),
                    sep,
                )[j] == split_s(full, sep)[r@.len() + j] by {
                    assert(split_s(rem, sep)[1 + j] == split_s(full.skip(start as int), sep)[j]);
                    assert(split_s(rem, sep)[1 + j] == split_s(full, sep)[rlen0 + 1 + j]);
                }
            }
        } else {
            piece.push(c);
            proof {
                assert(piece@ =~= full.subrange(start as int, i + 1));
            }
        }
        i = i + 1;
    }
    let ghost rem = full.skip(start as int);
    let ghost rlen0 = r@.len() as int;
    proof {
        assert forall|j: int| 0 <= j < rem.len() implies rem[j] != sep by {
            assert(rem[j] == full[start + j]);
        }
        lemma_find_none(rem, sep);
        assert(piece@ =~= rem);
        assert(split_s(rem, sep) == seq![rem]);
    }
    r.push(piece);
    proof {
        assert(r@[rlen0]@ == rem);
        assert(split_s(rem, sep)[0] == split_s(full, sep)[rlen0]);
    }
    r
}

/// Does `v` contain `pat` as a contiguous run?
pub fn contains_sub(v: &Vec<char>, pat: &Vec<char>) -> (r: bool)
    ensures
        r == has_sub(v@, pat@),
{
    let n = v.len();
    let m = pat.len();
    if m > n {
        return false;
    }
    if m == 0 {
        proof {
            let w: int = 0;
            assert(v@.subrange(w, w + pat@.len()) =~= pat@);
        }
        return true;
    }
    let mut i: usize = 0;
    while i <= n - m
        invariant
            i <= n,
            1 <= m <= n,
            n == v@.len(),
            m == pat@.len(),
            forall|j: int| 0 <= j < i ==> #[trigger] v@.subrange(j, j + pat@.len()) != pat@,
        decreases n - i,
    {
        let mut k: usize = 0;
        let mut ok = true;
        while ok && k < m
            invariant
                k <= m,
                i + m <= n,
                n == v@.len(),
                m == pat@.len(),
                ok ==> v@.subrange(i as int, i + k) == pat@.take(k as int),
                !ok ==> v@.subrange(i as int, i + pat@.len()) != pat@,
            decreases m - k + (if ok {
                1int
            } else {
                0int
            }),
        {
            if v[i + k] != pat[k] {
                proof {
                    if v@.subrange(i as int, i + pat@.len()) == pat@ {
                        assert(v@.subrange(i as int, i + pat@.len())[k as int] == v@[i + k]);
                    }
                }
                ok = false;
            } else {
                proof {
                    assert(v@.subrange(i as int, i + k + 1) =~= v@.subrange(
                        i as int,
                        i + k,
                    ).push(v@[i + k]));
                    assert(pat@.take(k + 1) =~= pat@.take(k as int).push(pat@[k as int]));
                }
                k = k + 1;
            }
        }
        if ok {
            proof {
                let w = i as int;
                assert(pat@.take(m as int) =~= pat@);
                assert(v@.subrange(w, w + pat@.len()) == pat@);
            }
            return true;
        }
        i = i + 1;
    }
    proof {
        if has_sub(v@, pat@) {
            let j = choose|j: int|
                0 <= j && j + pat@.len() <= v@.len() && #[trigger] v@.subrange(
                    j,
                    j + pat@.len(),
                ) == pat@;
            assert(j < i);
            assert(v@.subrange(j, j + pat@.len()) != pat@);
        }
    }
    false
}

/// Powers of ten do not shrink as the exponent grows.
pub proof fn lemma_pow10_mono(a: nat, b: nat)
    requires
        a <= b,
    ensures
        1 <= pow10(a) <= pow10(b),
    decreases b,
{
    if b == 0 {
    } else if a == b {
        lemma_pow10_mono((a - 1) as nat, (b - 1) as nat);
    } else {
        lemma_pow10_mono(a, (b - 1) as nat);
    }
}

/// Concrete powers of ten used for bounds.
pub proof fn lemma_pow10_vals()
    ensures
        pow10(17) == 100_000_000_000_000_000,
        pow10(18) == 1_000_000_000_000_000_000,
{
    reveal_with_fuel(pow10, 20);
}

/// Parse an optionally signed run of digits as a 32-bit integer,
/// exactly when the text matches the grammar and the value fits.
pub fn parse_i32(v: &Vec<char>) -> (r: Option<i32>)
    ensures
        match r {
            Some(x) => int_grammar(v@) && -0x8000_0000 <= int_val(v@) <= 0x7FFF_FFFF && x
                == int_val(v@),
            None => !(int_grammar(v@) && -0x8000_0000 <= int_val(v@) <= 0x7FFF_FFFF),
        },
{
    let n = v.len();
    let mut i: usize = 0;
    let mut neg = false;
    if n > 0 && (v[0] == '+' || v[0] == '-') {
        neg = v[0] == '-';
        i = 1;
    }
    let ghost body = num_body(v@);
    proof {
        assert(body =~= v@.skip(i as int));
    }
    if i >= n {
        return None;
    }
    let mut m: i64 = 0;
    let mut j: usize = i;
    while j < n
        invariant
            i <= j <= n,
            i < n,
            n == v@.len(),
            i == sign_len(v@),
            neg == (v@.len() > 0 && v@[0] == '-'),
            body == num_body(v@),
            body == v@.skip(i as int),
            all_digits(body.take(j - i)),
            0 <= m <= 0xFFFF_FFFFi64 * 10 + 9,
            ({
                let dv = digits_val(body.take(j - i));
                &&& (dv <= 0xFFFF_FFFF ==> m == dv)
                &&& (dv > 0xFFFF_FFFF ==> m > 0xFFFF_FFFF)
            }),
        decreases n - j,
    {
        let c = v[j];
        let u = c as u32;
        if u < 48 || u > 57 {
            proof {
                assert(body[j - i] == v@[j as int]);
            }
            return None;
        }
        let d = (u - 48) as i64;
        proof {
            let k = j - i;
            assert(body[k] == v@[j as int]);
            assert(is_digit_c(body[k]));
            assert(body.take(k + 1).drop_last() =~= body.take(k));
            assert(body.take(k + 1).last() == body[k]);
            assert forall|t: int| 0 <= t < k + 1 implies is_digit_c(
                #[trigger] body.take(k + 1)[t],
            ) by {
                assert(body.take(k + 1)[t] == body[t]);
                if t < k {
                    assert(body.take(k)[t] == body[t]);
                }
            }
            assert(digits_val(body.take(k + 1)) == digits_val(body.take(k)) * 10 + digit_val(
                body[k],
            ));
            lemma_digits_val_nonneg(body.take(k));
        }
        if m <= 0xFFFF_FFFF {
            m = m * 10 + d;
        }
        j = j + 1;
    }
    proof {
        assert(body.take(n - i) =~= body);
    }
    if neg {
        if m <= 2147483648 {
            Some((-m) as i32)
        } else {
            None
        }
    } else {
        if m <= 2147483647 {
            Some(m as i32)
        } else {
            None
        }
    }
}

/// Parse an optionally signed plain decimal with at most 18 digits into an
/// exact mantissa and fractional-digit count: the text denotes
/// `mantissa / 10^scale`.
pub fn parse_decimal(v: &Vec<char>) -> (r: Option<(i64, u32)>)
    ensures
        match r {
            Some(p) => dec_grammar(v@) && dec_digits_of(v@).len() <= 18 && p.0 == dec_mantissa(
                v@,
            ) && p.1 == dec_scale(v@) && -1_000_000_000_000_000_000 < p.0
                < 1_000_000_000_000_000_000 && p.1 <= 18,
            None => !(dec_grammar(v@) && dec_digits_of(v@).len() <= 18),
        },
{
    let n = v.len();
    let mut i: usize = 0;
    let mut neg = false;
    if n > 0 && (v[0] == '+' || v[0] == '-') {
        neg = v[0] == '-';
        i = 1;
    }
    let ghost body = num_body(v@);
    proof {
        assert(body =~= v@.skip(i as int));
    }
    // locate the first point, if any
    let mut dot: usize = n;
    let mut j: usize = i;
    while dot == n && j < n
        invariant
            i <= j <= n,
            n == v@.len(),
            i == sign_len(v@),
            body == num_body(v@),
            body == v@.skip(i as int),
            dot == n || (i <= dot < n && dec_dot(v@) == dot - i && v@[dot as int] == '.'),
            dot == n ==> forall|t: int| 0 <= t < j - i ==> body[t] != '.',
        decreases n - j + (if dot == n {
            1int
        } else {
            0int
        }),
    {
        if v[j] == '.' {
            dot = j;
            proof {
                lemma_find_at(body, '.', j - i);
            }
        } else {
            proof {
                assert(body[j - i] == v@[j as int]);
            }
            j = j + 1;
        }
    }
    proof {
        if dot == n {
            lemma_find_none(body, '.');
        }
    }
    let ghost dd = dec_digits_of(v@);
    proof {
        if dot < n {
            assert(dd == body.take(dot - i) + body.skip(dot - i + 1));
        } else {
            assert(dd == body);
        }
        lemma_pow10_vals();
        lemma_pow10_mono(0, 18);
    }
    let mut m: i64 = 0;
    let mut p: usize = 0;
    let mut j2: usize = i;
    while j2 < n
        invariant
            i <= j2 <= n,
            n == v@.len(),
            i == sign_len(v@),
            body == num_body(v@),
            body == v@.skip(i as int),
            dd == dec_digits_of(v@),
            i <= dot <= n,
            dot < n ==> dot - i == dec_dot(v@) && v@[dot as int] == '.',
            dot == n ==> dec_dot(v@) == -1,
            dd.len() == (if dot < n {
                n - i - 1
            } else {
                n - i
            }),
            p == (if j2 <= dot {
                j2 - i
            } else {
                j2 - i - 1
            }),
            p <= 18,
            all_digits(dd.take(p as int)),
            m == digits_val(dd.take(p as int)),
            0 <= m < pow10(p as nat),
            pow10(17) == 100_000_000_000_000_000,
            pow10(18) == 1_000_000_000_000_000_000,
        decreases n - j2,
    {
        if j2 == dot {
            j2 = j2 + 1;
        } else {
            let c = v[j2];
            let ghost pi = p as int;
            proof {
                if dot < n && j2 < dot {
                    let f = dot - i;
                    assert(dd == body.take(f as int) + body.skip(f as int + 1));
                    assert(pi < f);
                    assert(dd[pi] == body.take(f as int)[pi]);
                    assert(body.take(f as int)[pi] == body[pi]);
                    assert(body[pi] == v@[i + pi]);
                } else if dot < n {
                    let f = dot - i;
                    assert(dd == body.take(f as int) + body.skip(f as int + 1));
                    assert(pi >= f);
                    assert(dd[pi] == body.skip(f as int + 1)[pi - f]);
                    assert(body.skip(f as int + 1)[pi - f] == body[pi + 1]);
                    assert(body[pi + 1] == v@[i + pi + 1]);
                } else {
                    assert(dot == n);
                    assert(dec_dot(v@) == -1);
                    assert(dd == body);
                    assert(dd[pi] == body[pi]);
                    assert(body[pi] == v@[i + pi]);
                }
                assert(dd[pi] == c);
            }
            let u = c as u32;
            if u < 48 || u > 57 {
                return None;
            }
            if p == 18 {
                return None;
            }
            let d = (u - 48) as i64;
            proof {
                assert(is_digit_c(dd[pi]));
                assert(dd.take(pi + 1).drop_last() =~= dd.take(pi));
                assert(dd.take(pi + 1).last() == dd[pi]);
                assert forall|t: int| 0 <= t < pi + 1 implies is_digit_c(
                    #[trigger] dd.take(pi + 1)[t],
                ) by {
                    assert(dd.take(pi + 1)[t] == dd[t]);
                    if t < pi {
                        assert(dd.take(pi)[t] == dd[t]);
                    }
                }
                assert(digits_val(dd.take(pi + 1)) == digits_val(dd.take(pi)) * 10 + digit_val(
                    dd[pi],
                ));
                lemma_pow10_mono((p + 1) as nat, 18);
                assert(m * 10 + d < pow10((p + 1) as nat) && m * 10 + d
                    < 1_000_000_000_000_000_000i64) by (nonlinear_arith)
                    requires
                        0 <= m < pow10(p as nat),
                        0 <= d <= 9,
                        pow10((p + 1) as nat) == 10 * pow10(p as nat),
                        pow10((p + 1) as nat) <= 1_000_000_000_000_000_000,
                ;
            }
            m = m * 10 + d;
            p = p + 1;
            j2 = j2 + 1;
        }
    }
    proof {
        assert(dd.take(p as int) =~= dd);
    }
    if p == 0 {
        return None;
    }
    proof {
        lemma_pow10_mono(p as nat, 18);
    }
    let k: u32 = if dot < n {
        proof {
            assert(dec_scale(v@) == n - dot - 1);
            assert(n - dot - 1 <= dd.len());
        }
        (n - dot - 1) as u32
    } else {
        0
    };
    if neg {
        Some((-m, k))
    } else {
        Some((m, k))
    }
}

/// Truncation of `m / 10^k` toward zero.
pub open spec fn trunc_scaled(m: int, k: nat) -> int {
    if m >= 0 {
        m / pow10(k)
    } else {
        -((-m) / pow10(k))
    }
}

/// `x` forced into the 32-bit signed range.
pub open spec fn clamp_i32(x: int) -> int {
    if x > 0x7FFF_FFFF {
        0x7FFF_FFFF
    } else if x < -0x8000_0000 {
        -0x8000_0000
    } else {
        x
    }
}

/// Ten to the `k` as a machine integer.
pub fn pow10_i64(k: u32) -> (r: i64)
    requires
        k <= 18,
    ensures
        r == pow10(k as nat),
{
    proof {
        lemma_pow10_vals();
    }
    let mut r: i64 = 1;
    let mut i: u32 = 0;
    while i < k
        invariant
            i <= k <= 18,
            r == pow10(i as nat),
            pow10(17) == 100_000_000_000_000_000,
            pow10(18) == 1_000_000_000_000_000_000,
        decreases k - i,
    {
        proof {
            lemma_pow10_mono(i as nat, 17);
        }
        r = r * 10;
        i = i + 1;
    }
    r
}

/// A decimal `mantissa / 10^scale` truncated toward zero to whole units and
/// clamped to the 32-bit range.
pub fn scaled_to_i32(m: i64, k: u32) -> (r: i32)
    requires
        -1_000_000_000_000_000_000 <= m <= 1_000_000_000_000_000_000,
        k <= 18,
    ensures
        r == clamp_i32(trunc_scaled(m as int, k as nat)),
{
    let p = pow10_i64(k);
    proof {
        lemma_pow10_mono(0, k as nat);
    }
    let q: i64 = if m >= 0 {
        m / p
    } else {
        -((-m) / p)
    };
    if q > 2147483647 {
        2147483647
    } else if q < -2147483648 {
        -2147483648
    } else {
        q as i32
    }
}

} // verus!
