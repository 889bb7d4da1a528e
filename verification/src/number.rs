//! Number literals. A bareword is a number when it matches the grammar that
//! `f64::from_str` documents:
//!
//! ```text
//! Float    ::= Sign? ( 'inf' | 'infinity' | 'nan' | Number )
//! Number   ::= ( Digit+ | Digit+ '.' Digit* | Digit* '.' Digit+ ) Exp?
//! Exp      ::= ('e' | 'E') Sign? Digit+
//! ```
//!
//! with the keywords matched case-insensitively. Every match is a value that
//! a 64-bit float parse accepts (out-of-range magnitudes round to infinity or
//! zero, never to an error), so matching this grammar and parsing as a 64-bit
//! float are the same test.

use vstd::prelude::*;

verus! {

/// A decimal digit.
pub open spec fn is_digit(c: char) -> bool {
    '0' <= c && c <= '9'
}

/// Every character of `d` is a decimal digit.
pub open spec fn all_digits(d: Seq<char>) -> bool {
    forall|i: int| 0 <= i < d.len() ==> is_digit(d[i])
}

/// `c` is the letter `l` in either case.
pub open spec fn ci(c: char, l: char, u: char) -> bool {
    c == l || c == u
}

/// The keyword `inf`, case-insensitive.
pub open spec fn is_inf_text(b: Seq<char>) -> bool {
    b.len() == 3 && ci(b[0], 'i', 'I') && ci(b[1], 'n', 'N') && ci(b[2], 'f', 'F')
}

/// The keyword `infinity`, case-insensitive.
pub open spec fn is_infinity_text(b: Seq<char>) -> bool {
    b.len() == 8 && ci(b[0], 'i', 'I') && ci(b[1], 'n', 'N') && ci(b[2], 'f', 'F')
        && ci(b[3], 'i', 'I') && ci(b[4], 'n', 'N') && ci(b[5], 'i', 'I')
        && ci(b[6], 't', 'T') && ci(b[7], 'y', 'Y')
}

/// The keyword `nan`, case-insensitive.
pub open spec fn is_nan_text(b: Seq<char>) -> bool {
    b.len() == 3 && ci(b[0], 'n', 'N') && ci(b[1], 'a', 'A') && ci(b[2], 'n', 'N')
}

/// A mantissa: digits with at most one decimal point and at least one digit.
/// This is exactly `Digit+ | Digit+ '.' Digit* | Digit* '.' Digit+`.
pub open spec fn is_mantissa(m: Seq<char>) -> bool {
    &&& forall|i: int| 0 <= i < m.len() ==> is_digit(m[i]) || m[i] == '.'
    &&& forall|i: int, j: int| 0 <= i < j < m.len() && m[i] == '.' ==> m[j] != '.'
    &&& exists|i: int| 0 <= i < m.len() && is_digit(m[i])
}

/// An exponent marker.
pub open spec fn is_exp_mark(c: char) -> bool {
    c == 'e' || c == 'E'
}

/// What follows an exponent marker: an optional sign, then one or more digits.
pub open spec fn is_exp_tail(x: Seq<char>) -> bool {
    if x.len() > 0 && (x[0] == '+' || x[0] == '-') {
        x.len() > 1 && all_digits(x.skip(1))
    } else {
        x.len() > 0 && all_digits(x)
    }
}

/// An unsigned number: a mantissa, optionally followed by an exponent. The
/// mantissa can hold no exponent marker, so at most one split point exists.
pub open spec fn is_number_text(b: Seq<char>) -> bool {
    ||| is_mantissa(b)
    ||| exists|i: int|
        0 <= i < b.len() && is_exp_mark(b[i]) && is_mantissa(b.subrange(0, i))
            && is_exp_tail(b.skip(i + 1))
}

/// An unsigned float: one of the keywords, or a number.
pub open spec fn is_unsigned_float(b: Seq<char>) -> bool {
    is_inf_text(b) || is_infinity_text(b) || is_nan_text(b) || is_number_text(b)
}

/// The texts that parse as a 64-bit float: an optional sign, then an
/// unsigned float.
pub open spec fn is_float_text(s: Seq<char>) -> bool {
    if s.len() > 0 && (s[0] == '+' || s[0] == '-') {
        is_unsigned_float(s.skip(1))
    } else {
        is_unsigned_float(s)
    }
}

/// Whether every character of `s` in `[from, to)` is a digit.
fn check_digits(s: &str, from: usize, to: usize) -> (r: bool)
    requires
        from <= to <= s@.len(),
    ensures
        r == all_digits(s@.subrange(from as int, to as int)),
{
    let ghost d = s@.subrange(from as int, to as int);
    let mut i: usize = from;
    while i < to
        invariant
            from <= i <= to <= s@.len(),
            d == s@.subrange(from as int, to as int),
            forall|k: int| from <= k < i ==> is_digit(s@[k]),
        decreases to - i,
    {
        let c = s.get_char(i);
        if !('0' <= c && c <= '9') {
            assert(!all_digits(d)) by {
                assert(d[i - from] == s@[i as int]);
            }
            return false;
        }
        i += 1;
    }
    assert(all_digits(d)) by {
        assert(forall|k: int| 0 <= k < d.len() ==> d[k] == s@[k + from]);
    }
    true
}

/// Whether the characters of `s` in `[from, to)` form a mantissa.
fn check_mantissa(s: &str, from: usize, to: usize) -> (r: bool)
    requires
        from <= to <= s@.len(),
    ensures
        r == is_mantissa(s@.subrange(from as int, to as int)),
{
    let ghost m = s@.subrange(from as int, to as int);
    assert(forall|k: int| 0 <= k < m.len() ==> m[k] == s@[k + from]);
    let mut i: usize = from;
    let mut seen_dot = false;
    let mut seen_digit = false;
    let ghost mut dot_at: int = from as int;
    while i < to
        invariant
            from <= i <= to <= s@.len(),
            m == s@.subrange(from as int, to as int),
            forall|k: int| 0 <= k < m.len() ==> m[k] == s@[k + from],
            forall|k: int| from <= k < i ==> is_digit(s@[k]) || s@[k] == '.',
            seen_dot ==> from <= dot_at < i && s@[dot_at] == '.',
            seen_dot ==> forall|k: int| from <= k < i && k != dot_at ==> s@[k] != '.',
            !seen_dot ==> forall|k: int| from <= k < i ==> s@[k] != '.',
            seen_digit <==> exists|k: int| from <= k < i && is_digit(s@[k]),
        decreases to - i,
    {
        let c = s.get_char(i);
        if '0' <= c && c <= '9' {
            seen_digit = true;
        } else if c == '.' {
            if seen_dot {
                assert(!is_mantissa(m)) by {
                    assert(m[dot_at - from] == '.' && m[i - from] == '.');
                    assert(0 <= dot_at - from < i - from < m.len());
                }
                return false;
            }
            seen_dot = true;
            proof {
                dot_at = i as int;
            }
        } else {
            assert(!is_mantissa(m)) by {
                assert(!(is_digit(m[i - from]) || m[i - from] == '.'));
            }
            return false;
        }
        i += 1;
    }
    if seen_digit {
        assert(is_mantissa(m)) by {
            let w = choose|k: int| from <= k < to && is_digit(s@[k]);
            assert(is_digit(m[w - from]));
            assert(forall|p: int, q: int|
                0 <= p < q < m.len() && m[p] == '.' ==> m[q] != '.') by {
                assert(forall|k: int| from <= k < to && s@[k] == '.' ==> seen_dot && k == dot_at);
            }
        }
        true
    } else {
        assert(!is_mantissa(m)) by {
            assert(forall|k: int| 0 <= k < m.len() ==> !is_digit(m[k]));
        }
        false
    }
}

/// Whether the characters of `s` in `[from, to)` form an exponent tail.
fn check_exp_tail(s: &str, from: usize, to: usize) -> (r: bool)
    requires
        from <= to <= s@.len(),
    ensures
        r == is_exp_tail(s@.subrange(from as int, to as int)),
{
    let ghost x = s@.subrange(from as int, to as int);
    assert(forall|k: int| 0 <= k < x.len() ==> x[k] == s@[k + from]);
    if from == to {
        return false;
    }
    let c = s.get_char(from);
    if c == '+' || c == '-' {
        if from + 1 == to {
            return false;
        }
        let r = check_digits(s, from + 1, to);
        assert(x.skip(1) =~= s@.subrange(from + 1, to as int));
        r
    } else {
        let r = check_digits(s, from, to);
        assert(x =~= s@.subrange(from as int, to as int));
        r
    }
}

/// Whether `s` parses as a 64-bit float: an optional sign, then one of the
/// keywords `inf`, `infinity`, `nan` (case-insensitive) or a number.
pub fn is_float_literal(s: &str) -> (r: bool)
    ensures
        r == is_float_text(s@),
{
    let n = s.unicode_len();
    if n == 0 {
        return false;
    }
    let c0 = s.get_char(0);
    let start: usize = if c0 == '+' || c0 == '-' {
        1
    } else {
        0
    };
    let ghost b = s@.skip(start as int);
    assert(b.len() == n - start);
    assert(forall|k: int| 0 <= k < b.len() ==> b[k] == s@[k + start]);
    proof {
        if start == 0 {
            assert(b =~= s@);
        }
    }
    assert(is_float_text(s@) == is_unsigned_float(b));
    let rem = n - start;
    if rem == 3 {
        let a0 = s.get_char(start);
        let a1 = s.get_char(start + 1);
        let a2 = s.get_char(start + 2);
        if ((a0 == 'i' || a0 == 'I') && (a1 == 'n' || a1 == 'N') && (a2 == 'f' || a2 == 'F'))
            || ((a0 == 'n' || a0 == 'N') && (a1 == 'a' || a1 == 'A') && (a2 == 'n' || a2 == 'N'))
        {
            return true;
        }
    }
    if rem == 8 {
        let a0 = s.get_char(start);
        let a1 = s.get_char(start + 1);
        let a2 = s.get_char(start + 2);
        let a3 = s.get_char(start + 3);
        let a4 = s.get_char(start + 4);
        let a5 = s.get_char(start + 5);
        let a6 = s.get_char(start + 6);
        let a7 = s.get_char(start + 7);
        if (a0 == 'i' || a0 == 'I') && (a1 == 'n' || a1 == 'N') && (a2 == 'f' || a2 == 'F')
            && (a3 == 'i' || a3 == 'I') && (a4 == 'n' || a4 == 'N') && (a5 == 'i' || a5 == 'I')
            && (a6 == 't' || a6 == 'T') && (a7 == 'y' || a7 == 'Y') {
            return true;
        }
    }
    let mut p: usize = start;
    let mut has_e = false;
    while p < n && !has_e
        invariant
            start <= p <= n,
            n == s@.len(),
            has_e ==> p < n && is_exp_mark(s@[p as int]),
            forall|k: int| start <= k < p ==> !is_exp_mark(s@[k]),
        decreases n - p, if has_e { 0int } else { 1int },
    {
        let c = s.get_char(p);
        if c == 'e' || c == 'E' {
            has_e = true;
        } else {
            p += 1;
        }
    }
    if has_e {
        let ghost i0 = p - start;
        let mok = check_mantissa(s, start, p);
        let eok = check_exp_tail(s, p + 1, n);
        assert(b.subrange(0, i0) =~= s@.subrange(start as int, p as int));
        assert(b.skip(i0 + 1) =~= s@.subrange(p + 1, n as int));
        if mok && eok {
            assert(is_number_text(b)) by {
                assert(0 <= i0 < b.len() && is_exp_mark(b[i0]) && is_mantissa(b.subrange(0, i0))
                    && is_exp_tail(b.skip(i0 + 1)));
            }
            true
        } else {
            assert(!is_number_text(b)) by {
                assert(!is_mantissa(b)) by {
                    assert(!(is_digit(b[i0]) || b[i0] == '.'));
                }
                assert forall|i: int|
                    0 <= i < b.len() && is_exp_mark(b[i]) implies !(is_mantissa(
                    b.subrange(0, i),
                ) && is_exp_tail(b.skip(i + 1))) by {
                    if i < i0 {
                        assert(!is_exp_mark(s@[i + start]));
                    } else if i > i0 {
                        assert(b.subrange(0, i)[i0] == b[i0]);
                        assert(!(is_digit(b[i0]) || b[i0] == '.'));
                        assert(!is_mantissa(b.subrange(0, i)));
                    }
                }
            }
            false
        }
    } else {
        let res = check_mantissa(s, start, n);
        assert(b =~= s@.subrange(start as int, n as int));
        assert(is_number_text(b) == is_mantissa(b)) by {
            assert(forall|i: int| 0 <= i < b.len() ==> !is_exp_mark(b[i]));
        }
        res
    }
}

} // verus!
