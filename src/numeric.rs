//! Numeric literals of the token line: unsigned and signed decimal integers,
//! and decimal floats with an optional exponent.

use vstd::prelude::*;

verus! {

pub open spec fn is_digit(c: char) -> bool {
    '0' <= c && c <= '9'
}

pub open spec fn digit_value(c: char) -> nat {
    ((c as u32) - ('0' as u32)) as nat
}

pub open spec fn all_digits(s: Seq<char>) -> bool {
    forall|i: int| 0 <= i < s.len() ==> is_digit(#[trigger] s[i])
}

/// The number that a string of decimal digits denotes.
pub open spec fn digits_value(s: Seq<char>) -> nat
    decreases s.len(),
{
    if s.len() == 0 {
        0
    } else {
        digits_value(s.drop_last()) * 10 + digit_value(s.last())
    }
}

/// The unsigned integer that `s` denotes: one or more decimal digits whose
/// value fits in 64 bits.
pub open spec fn unsigned_of(s: Seq<char>) -> Option<u64> {
    if s.len() > 0 && all_digits(s) && digits_value(s) <= u64::MAX {
        Some(digits_value(s) as u64)
    } else {
        None
    }
}

/// The signed integer that `s` denotes: an optional `+` or `-`, then one or
/// more decimal digits, the value within the range of `i64`.
pub open spec fn signed_of(s: Seq<char>) -> Option<i64> {
    if s.len() > 0 && s[0] == '-' {
        let d = s.drop_first();
        if d.len() > 0 && all_digits(d) && digits_value(d) <= 0x8000_0000_0000_0000 {
            Some((0 - digits_value(d)) as i64)
        } else {
            None
        }
    } else {
        let d = if s.len() > 0 && s[0] == '+' {
            s.drop_first()
        } else {
            s
        };
        if d.len() > 0 && all_digits(d) && digits_value(d) <= i64::MAX {
            Some(digits_value(d) as i64)
        } else {
            None
        }
    }
}

/// Index past an optional sign at `i`.
pub open spec fn skip_sign(s: Seq<char>, i: int) -> int {
    if 0 <= i < s.len() && (s[i] == '+' || s[i] == '-') {
        i + 1
    } else {
        i
    }
}

/// Index past the run of digits that starts at `i`.
pub open spec fn skip_digits(s: Seq<char>, i: int) -> int
    decreases s.len() - i,
{
    if 0 <= i < s.len() && is_digit(s[i]) {
        skip_digits(s, i + 1)
    } else {
        i
    }
}

/// Decimal float notation: an optional sign, digits with an optional
/// fractional part (at least one digit in all), and an optional exponent
/// made of `e` or `E`, an optional sign and one or more digits.
pub open spec fn is_float_literal(s: Seq<char>) -> bool {
    let a = skip_sign(s, 0);
    let b = skip_digits(s, a);
    let has_dot = b < s.len() && s[b] == '.';
    let c = if has_dot {
        skip_digits(s, b + 1)
    } else {
        b
    };
    let mantissa = b > a || (has_dot && c > b + 1);
    if c == s.len() {
        mantissa
    } else {
        let d = skip_sign(s, c + 1);
        let e = skip_digits(s, d);
        mantissa && (s[c] == 'e' || s[c] == 'E') && e > d && e == s.len()
    }
}

proof fn lemma_prefix_value(t: Seq<char>, k: int)
    requires
        0 <= k <= t.len(),
        all_digits(t),
    ensures
        digits_value(t.subrange(0, k)) <= digits_value(t),
    decreases t.len(),
{
    if k < t.len() {
        let u = t.drop_last();
        assert(all_digits(u)) by {
            assert forall|i: int| 0 <= i < u.len() implies is_digit(#[trigger] u[i]) by {
                assert(u[i] == t[i]);
            }
        }
        lemma_prefix_value(u, k);
        assert(u.subrange(0, k) =~= t.subrange(0, k));
    } else {
        assert(t.subrange(0, k) =~= t);
    }
}

fn is_digit_char(c: char) -> (r: bool)
    ensures
        r == is_digit(c),
{
    '0' <= c && c <= '9'
}

/// The value of the digits of `s` from `start` on, if they are one or more
/// digits and fit in 64 bits.
fn digits_from(s: &str, start: usize) -> (r: Option<u64>)
    requires
        start <= s@.len(),
    ensures
        r == unsigned_of(s@.subrange(start as int, s@.len() as int)),
{
    let n = s.unicode_len();
    let ghost full = s@.subrange(start as int, n as int);
    let mut i: usize = start;
    let mut acc: u64 = 0;
    while i < n
        invariant
            n == s@.len(),
            start <= i <= n,
            full == s@.subrange(start as int, n as int),
            all_digits(s@.subrange(start as int, i as int)),
            acc == digits_value(s@.subrange(start as int, i as int)),
        decreases n - i,
    {
        let c = s.get_char(i);
        if !is_digit_char(c) {
            assert(!is_digit(full[i - start]));
            return None;
        }
        let d: u64 = (c as u32 - '0' as u32) as u64;
        let ghost next = s@.subrange(start as int, i + 1);
        assert(next.drop_last() =~= s@.subrange(start as int, i as int));
        assert(next.last() == c);
        if acc > (u64::MAX - d) / 10 {
            proof {
                assert(digits_value(next) > u64::MAX);
                if all_digits(full) {
                    lemma_prefix_value(full, i + 1 - start);
                    assert(full.subrange(0, i + 1 - start) =~= next);
                }
            }
            return None;
        }
        acc = acc * 10 + d;
        i += 1;
        assert(all_digits(s@.subrange(start as int, i as int))) by {
            let t = s@.subrange(start as int, i as int);
            assert forall|j: int| 0 <= j < t.len() implies is_digit(#[trigger] t[j]) by {
                if j < t.len() - 1 {
                    assert(t[j] == s@.subrange(start as int, i - 1)[j]);
                }
            }
        }
    }
    assert(s@.subrange(start as int, i as int) =~= full);
    if i == start {
        None
    } else {
        Some(acc)
    }
}

/// Reads an unsigned decimal integer. Fails with `InvalidNumber` on anything
/// but one or more digits whose value fits in 64 bits.
pub fn parse_unsigned_integer(s: &str) -> (r: Result<u64, crate::value::CmdError>)
    ensures
        match unsigned_of(s@) {
            Some(v) => r == Ok::<u64, crate::value::CmdError>(v),
            None => r matches Err(e) && e@ == crate::value::Fault::InvalidNumber(s@),
        },
{
    assert(s@.subrange(0, s@.len() as int) =~= s@);
    match digits_from(s, 0) {
        Some(v) => Ok(v),
        None => Err(crate::value::CmdError::InvalidNumber(s.to_owned())),
    }
}

/// Reads a signed decimal integer with an optional sign. Fails with
/// `InvalidNumber` on anything else, or on a value outside `i64`.
pub fn parse_integer(s: &str) -> (r: Result<i64, crate::value::CmdError>)
    ensures
        match signed_of(s@) {
            Some(v) => r == Ok::<i64, crate::value::CmdError>(v),
            None => r matches Err(e) && e@ == crate::value::Fault::InvalidNumber(s@),
        },
{
    let n = s.unicode_len();
    let first = if n > 0 {
        s.get_char(0)
    } else {
        ' '
    };
    let negative = n > 0 && first == '-';
    let start: usize = if n > 0 && (first == '-' || first == '+') {
        1
    } else {
        0
    };
    proof {
        if start == 1 {
            assert(s@.subrange(1, s@.len() as int) =~= s@.drop_first());
        } else {
            assert(s@.subrange(0, s@.len() as int) =~= s@);
        }
    }
    let parsed = digits_from(s, start);
    match parsed {
        Some(m) => {
            if negative {
                if m <= 0x8000_0000_0000_0000 {
                    let v: i64 = if m == 0x8000_0000_0000_0000 {
                        i64::MIN
                    } else {
                        -(m as i64)
                    };
                    return Ok(v);
                }
            } else if m <= 0x7fff_ffff_ffff_ffff {
                return Ok(m as i64);
            }
            Err(crate::value::CmdError::InvalidNumber(s.to_owned()))
        },
        None => Err(crate::value::CmdError::InvalidNumber(s.to_owned())),
    }
}

fn skip_digits_exec(s: &str, n: usize, i: usize) -> (r: usize)
    requires
        n == s@.len(),
        i <= n,
    ensures
        r == skip_digits(s@, i as int),
        i <= r <= n,
{
    let mut j: usize = i;
    while j < n && is_digit_char(s.get_char(j))
        invariant
            n == s@.len(),
            i <= j <= n,
            skip_digits(s@, i as int) == skip_digits(s@, j as int),
        decreases n - j,
    {
        j += 1;
    }
    j
}

fn skip_sign_exec(s: &str, n: usize, i: usize) -> (r: usize)
    requires
        n == s@.len(),
        i <= n,
    ensures
        r == skip_sign(s@, i as int),
{
    if i < n {
        let c = s.get_char(i);
        if c == '+' || c == '-' {
            return i + 1;
        }
    }
    i
}

/// Whether `s` is written in decimal float notation.
pub fn float_literal(s: &str) -> (r: bool)
    ensures
        r == is_float_literal(s@),
{
    let n = s.unicode_len();
    let a = skip_sign_exec(s, n, 0);
    let b = skip_digits_exec(s, n, a);
    let has_dot = b < n && s.get_char(b) == '.';
    let c = if has_dot {
        skip_digits_exec(s, n, b + 1)
    } else {
        b
    };
    let mantissa = b > a || (has_dot && c > b + 1);
    if c == n {
        mantissa
    } else {
        let ch = s.get_char(c);
        let d = skip_sign_exec(s, n, c + 1);
        let e = skip_digits_exec(s, n, d);
        mantissa && (ch == 'e' || ch == 'E') && e > d && e == n
    }
}

} // verus!
