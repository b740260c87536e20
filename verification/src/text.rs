//! Character-level text utilities: splitting on a separator, line splitting
//! with the usual newline conventions, whitespace trimming, and counting.

use vstd::prelude::*;
use crate::table::views_of;

verus! {

/// Unicode whitespace, as `char::is_whitespace` decides it: a property of the
/// character alone.
pub uninterp spec fn is_ws(c: char) -> bool;

/// Unicode alphabetic, as `char::is_alphabetic` decides it: a property of the
/// character alone.
pub uninterp spec fn is_alpha(c: char) -> bool;

/// Unicode uppercase, as `char::is_uppercase` decides it: a property of the
/// character alone.
pub uninterp spec fn is_upper(c: char) -> bool;

/// Relies on char::is_whitespace: the Unicode White_Space property of the
/// character alone.
pub assume_specification[ char::is_whitespace ](c: char) -> (r: bool)
    ensures
        r == is_ws(c),
;

/// Relies on char::is_alphabetic: the Unicode Alphabetic property of the
/// character alone.
pub assume_specification[ char::is_alphabetic ](c: char) -> (r: bool)
    ensures
        r == is_alpha(c),
;

/// Relies on char::is_uppercase: the Unicode Uppercase property of the
/// character alone.
pub assume_specification[ char::is_uppercase ](c: char) -> (r: bool)
    ensures
        r == is_upper(c),
;

/// How many characters of `c` stand before the first `c` in `s`; `s.len()`
/// when `s` has no `c`.
pub open spec fn find_char(s: Seq<char>, c: char) -> int
    decreases s.len(),
{
    if s.len() == 0 {
        0
    } else if s[0] == c {
        0
    } else {
        1 + find_char(s.drop_first(), c)
    }
}

/// The pieces of `s` between occurrences of the separator `c`, in order.
/// Always at least one piece; a separator at the start, the end, or next to
/// another yields an empty piece.
pub open spec fn split_char(s: Seq<char>, c: char) -> Seq<Seq<char>>
    decreases s.len(),
{
    let j = find_char(s, c);
    if 0 <= j < s.len() {
        seq![s.take(j)] + split_char(s.skip(j + 1), c)
    } else {
        seq![s]
    }
}

/// How often the character `c` occurs in `s`.
pub open spec fn count_char(s: Seq<char>, c: char) -> nat
    decreases s.len(),
{
    if s.len() == 0 {
        0
    } else {
        (if s[0] == c {
            1nat
        } else {
            0nat
        }) + count_char(s.drop_first(), c)
    }
}

/// Whether `c` occurs in `s`.
pub open spec fn has_char(s: Seq<char>, c: char) -> bool {
    exists|i: int| 0 <= i < s.len() && s[i] == c
}

/// A line with one trailing carriage return removed, as `str::lines` treats
/// a `\r\n` ending.
pub open spec fn strip_cr(l: Seq<char>) -> Seq<char> {
    if l.len() > 0 && l.last() == '\r' {
        l.drop_last()
    } else {
        l
    }
}

/// The lines of `s`, as `str::lines` yields them: pieces between newlines,
/// without a final empty piece after a trailing newline, each with one
/// trailing carriage return removed.
pub open spec fn spec_lines(s: Seq<char>) -> Seq<Seq<char>> {
    let p = split_char(s, '\n');
    let q = if p.last().len() == 0 {
        p.drop_last()
    } else {
        p
    };
    q.map_values(|l: Seq<char>| strip_cr(l))
}

/// The number of whitespace characters at the start of `s`.
pub open spec fn ws_prefix_len(s: Seq<char>) -> int
    decreases s.len(),
{
    if s.len() == 0 {
        0
    } else if !is_ws(s[0]) {
        0
    } else {
        1 + ws_prefix_len(s.drop_first())
    }
}

/// The number of whitespace characters at the end of `s`.
pub open spec fn ws_suffix_len(s: Seq<char>) -> int
    decreases s.len(),
{
    if s.len() == 0 {
        0
    } else if !is_ws(s.last()) {
        0
    } else {
        1 + ws_suffix_len(s.drop_last())
    }
}

/// `s` without leading and trailing whitespace, as `str::trim` leaves it.
pub open spec fn spec_trim(s: Seq<char>) -> Seq<char> {
    if ws_prefix_len(s) == s.len() {
        Seq::empty()
    } else {
        s.subrange(ws_prefix_len(s), s.len() - ws_suffix_len(s))
    }
}

/// Each piece trimmed of leading and trailing whitespace.
pub open spec fn trim_all(parts: Seq<Seq<char>>) -> Seq<Seq<char>> {
    parts.map_values(|p: Seq<char>| spec_trim(p))
}

proof fn lemma_find_char_found(t: Seq<char>, c: char, k: int)
    requires
        0 <= k < t.len(),
        t[k] == c,
        forall|m: int| 0 <= m < k ==> t[m] != c,
    ensures
        find_char(t, c) == k,
    decreases k,
{
    if k > 0 {
        assert(forall|m: int| 0 <= m < k - 1 ==> t.drop_first()[m] != c);
        lemma_find_char_found(t.drop_first(), c, k - 1);
    }
}

proof fn lemma_find_char_none(t: Seq<char>, c: char)
    requires
        forall|m: int| 0 <= m < t.len() ==> t[m] != c,
    ensures
        find_char(t, c) == t.len(),
    decreases t.len(),
{
    if t.len() > 0 {
        lemma_find_char_none(t.drop_first(), c);
    }
}

/// One splitting step: with no separator in `s` between `start` and `i` and a
/// separator at `i`, the split of the tail at `start` begins with the piece
/// up to `i`.
pub proof fn lemma_split_step(s: Seq<char>, c: char, start: int, i: int)
    requires
        0 <= start <= i < s.len(),
        s[i] == c,
        forall|t: int| start <= t < i ==> s[t] != c,
    ensures
        split_char(s.skip(start), c) == seq![s.subrange(start, i)] + split_char(s.skip(i + 1), c),
{
    let t = s.skip(start);
    assert(forall|m: int| 0 <= m < i - start ==> t[m] != c);
    assert(t[i - start] == c);
    lemma_find_char_found(t, c, i - start);
    assert(t.take(i - start) =~= s.subrange(start, i));
    assert(t.skip(i - start + 1) =~= s.skip(i + 1));
}

/// The last splitting step: with no separator from `start` on, the split of
/// the tail is that single piece.
pub proof fn lemma_split_end(s: Seq<char>, c: char, start: int)
    requires
        0 <= start <= s.len(),
        forall|t: int| start <= t < s.len() ==> s[t] != c,
    ensures
        split_char(s.skip(start), c) == seq![s.subrange(start, s.len() as int)],
{
    let t = s.skip(start);
    assert(forall|m: int| 0 <= m < t.len() ==> t[m] != c);
    lemma_find_char_none(t, c);
    assert(t =~= s.subrange(start, s.len() as int));
}

/// A split has at least one piece.
pub proof fn lemma_split_len(s: Seq<char>, c: char)
    ensures
        split_char(s, c).len() >= 1,
{
    let j = find_char(s, c);
    if 0 <= j < s.len() {
        assert(split_char(s, c) == seq![s.take(j)] + split_char(s.skip(j + 1), c));
    } else {
        assert(split_char(s, c) == seq![s]);
    }
}

/// Splits `s` into the pieces between occurrences of `sep`.
pub fn split_string(s: &str, sep: char) -> (r: Vec<String>)
    ensures
        views_of(r@) == split_char(s@, sep),
{
    let n = s.unicode_len();
    let mut parts: Vec<String> = Vec::new();
    let mut start: usize = 0;
    let mut i: usize = 0;
    proof {
        assert(views_of(parts@) =~= Seq::<Seq<char>>::empty());
        assert(s@.skip(0) =~= s@);
        assert(Seq::<Seq<char>>::empty() + split_char(s@, sep) =~= split_char(s@, sep));
    }
    while i < n
        invariant
            n == s@.len(),
            start <= i <= n,
            forall|t: int| start <= t < i ==> s@[t] != sep,
            split_char(s@, sep) == views_of(parts@) + split_char(s@.skip(start as int), sep),
        decreases n - i,
    {
        if s.get_char(i) == sep {
            let piece = s.substring_char(start, i).to_owned();
            proof {
                lemma_split_step(s@, sep, start as int, i as int);
                assert(views_of(parts@.push(piece)) =~= views_of(parts@).push(piece@));
                assert(views_of(parts@).push(piece@) =~= views_of(parts@) + seq![piece@]);
            }
            parts.push(piece);
            start = i + 1;
        }
        i += 1;
    }
    let piece = s.substring_char(start, n).to_owned();
    proof {
        lemma_split_end(s@, sep, start as int);
        assert(views_of(parts@.push(piece)) =~= views_of(parts@).push(piece@));
        assert(views_of(parts@).push(piece@) =~= views_of(parts@) + seq![piece@]);
    }
    parts.push(piece);
    proof {
        assert(s@.skip(0) =~= s@);
    }
    parts
}

/// Splits `s` into its lines, as `str::lines` does: pieces between newlines,
/// without a final empty piece, each stripped of one trailing `\r`.
pub fn split_lines(s: &str) -> (r: Vec<String>)
    ensures
        views_of(r@) == spec_lines(s@),
{
    let mut parts = split_string(s, '\n');
    let ghost p = split_char(s@, '\n');
    proof {
        lemma_split_len(s@, '\n');
    }
    let plen = parts.len();
    if parts[plen - 1].as_str().is_empty() {
        let ghost before = parts@;
        parts.pop();
        proof {
            assert(views_of(parts@) =~= views_of(before).drop_last());
        }
    }
    let ghost q = if p.last().len() == 0 {
        p.drop_last()
    } else {
        p
    };
    proof {
        assert(views_of(parts@) =~= q);
    }
    let mut out: Vec<String> = Vec::new();
    let m = parts.len();
    let mut i: usize = 0;
    while i < m
        invariant
            m == parts@.len(),
            i <= m,
            views_of(parts@) == q,
            out@.len() == i,
            forall|t: int| 0 <= t < i ==> views_of(out@)[t] == strip_cr(q[t]),
        decreases m - i,
    {
        let ghost old_out = out@;
        let ns = parts[i].as_str().unicode_len();
        if ns > 0 && parts[i].as_str().get_char(ns - 1) == '\r' {
            let stripped = parts[i].as_str().substring_char(0, ns - 1).to_owned();
            proof {
                assert(q[i as int].len() > 0 && q[i as int].last() == '\r');
                assert(stripped@ =~= q[i as int].drop_last());
            }
            out.push(stripped);
        } else {
            proof {
                assert(strip_cr(q[i as int]) == q[i as int]);
            }
            out.push(parts[i].clone());
        }
        proof {
            assert(views_of(out@) =~= views_of(old_out).push(out@.last()@));
            assert(views_of(out@)[i as int] == strip_cr(q[i as int]));
        }
        i += 1;
    }
    proof {
        assert(views_of(out@) =~= q.map_values(|l: Seq<char>| strip_cr(l)));
    }
    out
}

/// Counts how often `c` occurs in `s`.
pub fn count_char_occurrences(s: &str, c: char) -> (r: usize)
    ensures
        r == count_char(s@, c),
{
    let n = s.unicode_len();
    let mut cnt: usize = 0;
    let mut i: usize = 0;
    proof {
        assert(s@.skip(0) =~= s@);
    }
    while i < n
        invariant
            n == s@.len(),
            i <= n,
            cnt <= i,
            cnt + count_char(s@.skip(i as int), c) == count_char(s@, c),
        decreases n - i,
    {
        proof {
            assert(s@.skip(i as int)[0] == s@[i as int]);
            assert(s@.skip(i as int).drop_first() =~= s@.skip(i as int + 1));
        }
        if s.get_char(i) == c {
            cnt += 1;
        }
        i += 1;
    }
    proof {
        assert(s@.skip(n as int) =~= Seq::<char>::empty());
    }
    cnt
}

/// Whether `c` occurs in `s`.
pub fn contains_char(s: &str, c: char) -> (r: bool)
    ensures
        r == has_char(s@, c),
{
    let n = s.unicode_len();
    let mut i: usize = 0;
    while i < n
        invariant
            n == s@.len(),
            i <= n,
            forall|t: int| 0 <= t < i ==> s@[t] != c,
        decreases n - i,
    {
        if s.get_char(i) == c {
            return true;
        }
        i += 1;
    }
    false
}

proof fn lemma_ws_prefix_at(t: Seq<char>, k: int)
    requires
        0 <= k <= t.len(),
        forall|m: int| 0 <= m < k ==> is_ws(t[m]),
        k < t.len() ==> !is_ws(t[k]),
    ensures
        ws_prefix_len(t) == k,
    decreases k,
{
    if k > 0 {
        assert(is_ws(t[0]));
        assert(forall|m: int| 0 <= m < k - 1 ==> is_ws(t.drop_first()[m]));
        lemma_ws_prefix_at(t.drop_first(), k - 1);
    }
}

proof fn lemma_ws_suffix_at(t: Seq<char>, k: int)
    requires
        0 <= k <= t.len(),
        forall|m: int| t.len() - k <= m < t.len() ==> is_ws(t[m]),
        k < t.len() ==> !is_ws(t[t.len() - k - 1]),
    ensures
        ws_suffix_len(t) == k,
    decreases k,
{
    if k > 0 {
        assert(is_ws(t.last()));
        let d = t.drop_last();
        assert(forall|m: int| d.len() - (k - 1) <= m < d.len() ==> is_ws(d[m]));
        lemma_ws_suffix_at(d, k - 1);
    }
}

/// Removes leading and trailing whitespace, as `str::trim` does.
pub fn trim_str(s: &str) -> (r: String)
    ensures
        r@ == spec_trim(s@),
{
    let n = s.unicode_len();
    let mut a: usize = 0;
    while a < n && s.get_char(a).is_whitespace()
        invariant
            n == s@.len(),
            a <= n,
            forall|m: int| 0 <= m < a ==> is_ws(s@[m]),
        decreases n - a,
    {
        a += 1;
    }
    if a == n {
        proof {
            lemma_ws_prefix_at(s@, n as int);
        }
        return String::new();
    }
    proof {
        lemma_ws_prefix_at(s@, a as int);
    }
    let mut b: usize = n;
    while b > a && s.get_char(b - 1).is_whitespace()
        invariant
            a < n == s@.len(),
            a < b <= n,
            !is_ws(s@[a as int]),
            forall|m: int| b <= m < n ==> is_ws(s@[m]),
        decreases b,
    {
        b -= 1;
    }
    proof {
        lemma_ws_suffix_at(s@, n - b);
        assert(s@.subrange(a as int, b as int) == spec_trim(s@));
    }
    s.substring_char(a, b).to_owned()
}

} // verus!
