//! Recognition of floating-point number syntax: the grammar Rust's float
//! parsing accepts — an optional sign, then `inf`, `infinity` or `nan` in any
//! letter case, or a decimal number with optional fraction and exponent.

use vstd::prelude::*;

verus! {

/// An ASCII decimal digit.
pub open spec fn is_digit(c: char) -> bool {
    '0' <= c && c <= '9'
}

/// The number of digits at the start of `s`.
pub open spec fn digit_prefix_len(s: Seq<char>) -> int
    decreases s.len(),
{
    if s.len() == 0 {
        0
    } else if !is_digit(s[0]) {
        0
    } else {
        1 + digit_prefix_len(s.drop_first())
    }
}

/// `s` without one leading `+` or `-`.
pub open spec fn strip_sign(s: Seq<char>) -> Seq<char> {
    if s.len() > 0 && (s[0] == '+' || s[0] == '-') {
        s.drop_first()
    } else {
        s
    }
}

/// The uppercase twin of the lowercase letters that occur in the special
/// float words; any other character is left alone.
pub open spec fn upper_of(c: char) -> char {
    if c == 'i' {
        'I'
    } else if c == 'n' {
        'N'
    } else if c == 'f' {
        'F'
    } else if c == 't' {
        'T'
    } else if c == 'y' {
        'Y'
    } else if c == 'a' {
        'A'
    } else {
        c
    }
}

/// Letter-case-insensitive match of `t` against the lowercase pattern `p`.
pub open spec fn chars_eqi(t: Seq<char>, p: Seq<char>) -> bool {
    t.len() == p.len() && forall|i: int| 0 <= i < t.len() ==> (t[i] == p[i] || t[i] == upper_of(p[i]))
}

/// The special float words: `inf`, `infinity` and `nan`, in any letter case.
pub open spec fn is_special_float(t: Seq<char>) -> bool {
    ||| chars_eqi(t, seq!['i', 'n', 'f'])
    ||| chars_eqi(t, seq!['i', 'n', 'f', 'i', 'n', 'i', 't', 'y'])
    ||| chars_eqi(t, seq!['n', 'a', 'n'])
}

/// An optional exponent: nothing, or `e`/`E`, an optional sign, and at least
/// one digit making up all the rest.
pub open spec fn is_exp_part(r: Seq<char>) -> bool {
    r.len() == 0 || {
        &&& (r[0] == 'e' || r[0] == 'E')
        &&& {
            let u = strip_sign(r.drop_first());
            u.len() > 0 && digit_prefix_len(u) == u.len()
        }
    }
}

/// A decimal number: digits, an optional `.` with more digits — at least one
/// digit on one of the two sides — and an optional exponent.
pub open spec fn is_decimal_float(t: Seq<char>) -> bool {
    let d1 = digit_prefix_len(t);
    let r1 = t.skip(d1);
    if r1.len() > 0 && r1[0] == '.' {
        let d2 = digit_prefix_len(r1.drop_first());
        (d1 > 0 || d2 > 0) && is_exp_part(r1.drop_first().skip(d2))
    } else {
        d1 > 0 && is_exp_part(r1)
    }
}

/// Whether `s` reads as a floating-point number: an optional sign, then a
/// special word or a decimal number.
pub open spec fn is_float_literal(s: Seq<char>) -> bool {
    let t = strip_sign(s);
    is_special_float(t) || is_decimal_float(t)
}

proof fn lemma_digit_prefix_at(t: Seq<char>, k: int)
    requires
        0 <= k <= t.len(),
        forall|m: int| 0 <= m < k ==> is_digit(t[m]),
        k < t.len() ==> !is_digit(t[k]),
    ensures
        digit_prefix_len(t) == k,
    decreases k,
{
    if k > 0 {
        assert(forall|m: int| 0 <= m < k - 1 ==> is_digit(t.drop_first()[m]));
        lemma_digit_prefix_at(t.drop_first(), k - 1);
    }
}

fn is_digit_char(c: char) -> (r: bool)
    ensures
        r == is_digit(c),
{
    '0' <= c && c <= '9'
}

/// The end of the run of digits that starts at `from`.
fn scan_digits(s: &str, from: usize) -> (j: usize)
    requires
        from <= s@.len(),
    ensures
        from <= j <= s@.len(),
        j - from == digit_prefix_len(s@.skip(from as int)),
        forall|m: int| from <= m < j ==> is_digit(s@[m]),
{
    let n = s.unicode_len();
    let mut j = from;
    while j < n && is_digit_char(s.get_char(j))
        invariant
            from <= j <= n == s@.len(),
            forall|m: int| from <= m < j ==> is_digit(s@[m]),
        decreases n - j,
    {
        j += 1;
    }
    proof {
        let t = s@.skip(from as int);
        assert(forall|m: int| 0 <= m < j - from ==> is_digit(t[m]));
        lemma_digit_prefix_at(t, j - from);
    }
    j
}

fn upper_ascii(l: char) -> (r: char)
    ensures
        r == upper_of(l),
{
    if l == 'i' {
        'I'
    } else if l == 'n' {
        'N'
    } else if l == 'f' {
        'F'
    } else if l == 't' {
        'T'
    } else if l == 'y' {
        'Y'
    } else if l == 'a' {
        'A'
    } else {
        l
    }
}

fn char_eq_ci(c: char, l: char) -> (r: bool)
    ensures
        r == (c == l || c == upper_of(l)),
{
    c == l || c == upper_ascii(l)
}

/// Whether `s` from position `i` on is a special float word.
fn check_special(s: &str, i: usize) -> (r: bool)
    requires
        i <= s@.len(),
    ensures
        r == is_special_float(s@.skip(i as int)),
{
    let ghost t = s@.skip(i as int);
    let n = s.unicode_len();
    let m = n - i;
    if m == 3 {
        let inf = char_eq_ci(s.get_char(i), 'i') && char_eq_ci(s.get_char(i + 1), 'n')
            && char_eq_ci(s.get_char(i + 2), 'f');
        let nan = char_eq_ci(s.get_char(i), 'n') && char_eq_ci(s.get_char(i + 1), 'a')
            && char_eq_ci(s.get_char(i + 2), 'n');
        proof {
            assert(t.len() == 3);
            assert(t[0] == s@[i as int] && t[1] == s@[i as int + 1] && t[2] == s@[i as int + 2]);
            assert(inf == chars_eqi(t, seq!['i', 'n', 'f']));
            assert(nan == chars_eqi(t, seq!['n', 'a', 'n']));
            assert(!chars_eqi(t, seq!['i', 'n', 'f', 'i', 'n', 'i', 't', 'y']));
        }
        inf || nan
    } else if m == 8 {
        let infy = char_eq_ci(s.get_char(i), 'i') && char_eq_ci(s.get_char(i + 1), 'n')
            && char_eq_ci(s.get_char(i + 2), 'f') && char_eq_ci(s.get_char(i + 3), 'i')
            && char_eq_ci(s.get_char(i + 4), 'n') && char_eq_ci(s.get_char(i + 5), 'i')
            && char_eq_ci(s.get_char(i + 6), 't') && char_eq_ci(s.get_char(i + 7), 'y');
        proof {
            assert(t.len() == 8);
            assert(forall|k: int| 0 <= k < 8 ==> t[k] == s@[i as int + k]);
            assert(infy == chars_eqi(t, seq!['i', 'n', 'f', 'i', 'n', 'i', 't', 'y']));
            assert(!chars_eqi(t, seq!['i', 'n', 'f']));
            assert(!chars_eqi(t, seq!['n', 'a', 'n']));
        }
        infy
    } else {
        proof {
            assert(t.len() != 3 && t.len() != 8);
        }
        false
    }
}

/// Whether `s` from position `from` on is an optional exponent.
fn check_exp(s: &str, from: usize) -> (r: bool)
    requires
        from <= s@.len(),
    ensures
        r == is_exp_part(s@.skip(from as int)),
{
    let ghost rr = s@.skip(from as int);
    let n = s.unicode_len();
    if from == n {
        proof {
            assert(rr.len() == 0);
        }
        return true;
    }
    let c = s.get_char(from);
    proof {
        assert(rr[0] == s@[from as int]);
    }
    if c != 'e' && c != 'E' {
        return false;
    }
    let mut k = from + 1;
    if k < n {
        let ck = s.get_char(k);
        if ck == '+' || ck == '-' {
            k = k + 1;
        }
    }
    let ghost u = strip_sign(rr.drop_first());
    proof {
        assert(rr.drop_first() =~= s@.skip(from as int + 1));
        assert(u =~= s@.skip(k as int));
    }
    if k == n {
        proof {
            assert(u.len() == 0);
        }
        return false;
    }
    let de = scan_digits(s, k);
    proof {
        assert(u =~= s@.skip(k as int));
        assert(digit_prefix_len(u) == de - k);
        assert(u.len() == n - k);
    }
    de == n
}

/// Whether `s` is a floating-point number literal, in the syntax Rust's
/// float parsing accepts.
pub fn is_float_str(s: &str) -> (r: bool)
    ensures
        r == is_float_literal(s@),
{
    let n = s.unicode_len();
    let mut i: usize = 0;
    if n > 0 {
        let c0 = s.get_char(0);
        if c0 == '+' || c0 == '-' {
            i = 1;
        }
    }
    let ghost t = strip_sign(s@);
    proof {
        assert(t =~= s@.skip(i as int));
    }
    if check_special(s, i) {
        return true;
    }
    let d1e = scan_digits(s, i);
    let ghost d1 = digit_prefix_len(t);
    let ghost r1 = t.skip(d1);
    proof {
        assert(t =~= s@.skip(i as int));
        assert(d1 == d1e - i);
        assert(r1 =~= s@.skip(d1e as int));
    }
    if d1e < n && s.get_char(d1e) == '.' {
        proof {
            assert(r1[0] == s@[d1e as int]);
        }
        let d2e = scan_digits(s, d1e + 1);
        let ghost d2 = digit_prefix_len(r1.drop_first());
        proof {
            assert(r1.drop_first() =~= s@.skip(d1e as int + 1));
            assert(d2 == d2e - (d1e + 1));
            assert(r1.drop_first().skip(d2) =~= s@.skip(d2e as int));
        }
        if d1e == i && d2e == d1e + 1 {
            return false;
        }
        check_exp(s, d2e)
    } else {
        proof {
            if d1e < n {
                assert(r1[0] == s@[d1e as int]);
            } else {
                assert(r1.len() == 0);
            }
        }
        if d1e == i {
            return false;
        }
        check_exp(s, d1e)
    }
}

} // verus!
