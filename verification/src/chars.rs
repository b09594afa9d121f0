//! Character classes and verified helpers over `&str`, specified against
//! `Seq<char>` views.

use vstd::prelude::*;
use vstd::string::StrSliceExecFns;

verus! {

/// The characters `char::is_whitespace` recognises (Unicode `White_Space`).
pub open spec fn is_space(c: char) -> bool {
    let u = c as u32;
    u == 0x20 || (0x09 <= u && u <= 0x0d) || u == 0x85 || u == 0xa0 || u == 0x1680 || (0x2000
        <= u && u <= 0x200a) || u == 0x2028 || u == 0x2029 || u == 0x202f || u == 0x205f || u
        == 0x3000
}

/// The characters `char::is_ascii_whitespace` recognises.
pub open spec fn is_ascii_space(c: char) -> bool {
    let u = c as u32;
    u == 0x20 || u == 0x09 || u == 0x0a || u == 0x0c || u == 0x0d
}

/// A character kept when control characters are stripped from replies:
/// everything that is not an ASCII control, plus ASCII whitespace.
pub open spec fn is_kept_in_reply(c: char) -> bool {
    !((c as u32) < 0x20 || c as u32 == 0x7f) || is_ascii_space(c)
}

pub open spec fn is_digit(c: char) -> bool {
    0x30 <= (c as u32) && (c as u32) <= 0x39
}

pub open spec fn digit_val(c: char) -> int {
    c as u32 - 0x30
}

pub fn is_space_char(c: char) -> (r: bool)
    ensures
        r == is_space(c),
{
    let u = c as u32;
    u == 0x20 || (0x09 <= u && u <= 0x0d) || u == 0x85 || u == 0xa0 || u == 0x1680 || (0x2000 <= u
        && u <= 0x200a) || u == 0x2028 || u == 0x2029 || u == 0x202f || u == 0x205f || u == 0x3000
}

pub fn is_ascii_space_char(c: char) -> (r: bool)
    ensures
        r == is_ascii_space(c),
{
    let u = c as u32;
    u == 0x20 || u == 0x09 || u == 0x0a || u == 0x0c || u == 0x0d
}

pub fn is_kept_in_reply_char(c: char) -> (r: bool)
    ensures
        r == is_kept_in_reply(c),
{
    let u = c as u32;
    !(u < 0x20 || u == 0x7f) || is_ascii_space_char(c)
}

pub fn is_digit_char(c: char) -> (r: bool)
    ensures
        r == is_digit(c),
{
    let u = c as u32;
    0x30 <= u && u <= 0x39
}

/// `p` stands at the front of `s`.
pub open spec fn has_prefix(s: Seq<char>, p: Seq<char>) -> bool {
    p.len() <= s.len() && (forall|k: int| 0 <= k < p.len() ==> s[k] == p[k])
}

/// What is left of `s` once leading whitespace is removed.
pub open spec fn trim_start_seq(s: Seq<char>) -> Seq<char>
    decreases s.len(),
{
    if s.len() > 0 && is_space(s[0]) {
        trim_start_seq(s.drop_first())
    } else {
        s
    }
}

/// What is left of `s` once trailing whitespace is removed.
pub open spec fn trim_end_seq(s: Seq<char>) -> Seq<char>
    decreases s.len(),
{
    if s.len() > 0 && is_space(s.last()) {
        trim_end_seq(s.drop_last())
    } else {
        s
    }
}

/// What `str::trim` leaves of `s`.
pub open spec fn trim_seq(s: Seq<char>) -> Seq<char> {
    trim_end_seq(trim_start_seq(s))
}

pub proof fn lemma_trim_start_is_suffix(s: Seq<char>, i: int)
    requires
        0 <= i <= s.len(),
        forall|k: int| 0 <= k < i ==> is_space(s[k]),
        i == s.len() || !is_space(s[i]),
    ensures
        trim_start_seq(s) =~= s.subrange(i, s.len() as int),
    decreases i,
{
    if i == 0 {
        if s.len() > 0 && is_space(s[0]) {
            assert(false);
        }
        assert(s.subrange(0, s.len() as int) =~= s);
    } else {
        let t = s.drop_first();
        assert(forall|k: int| 0 <= k < i - 1 ==> is_space(t[k]));
        lemma_trim_start_is_suffix(t, i - 1);
        assert(t.subrange(i - 1, t.len() as int) =~= s.subrange(i, s.len() as int));
    }
}

proof fn lemma_trim_end_is_prefix(s: Seq<char>, j: int)
    requires
        0 <= j <= s.len(),
        forall|k: int| j <= k < s.len() ==> is_space(s[k]),
        j == 0 || !is_space(s[j - 1]),
    ensures
        trim_end_seq(s) =~= s.subrange(0, j),
    decreases s.len() - j,
{
    if j == s.len() {
        if s.len() > 0 && is_space(s.last()) {
            assert(false);
        }
        assert(s.subrange(0, s.len() as int) =~= s);
    } else {
        let t = s.drop_last();
        assert(is_space(s.last()));
        assert(forall|k: int| j <= k < t.len() ==> is_space(t[k]));
        lemma_trim_end_is_prefix(t, j);
        assert(t.subrange(0, j) =~= s.subrange(0, j));
    }
}

/// The trimmed string is the subrange between the outermost non-space
/// characters.
pub proof fn lemma_trim_subrange(s: Seq<char>, i: int, j: int)
    requires
        0 <= i <= j <= s.len(),
        forall|k: int| 0 <= k < i ==> is_space(s[k]),
        forall|k: int| j <= k < s.len() ==> is_space(s[k]),
        i < j ==> !is_space(s[i]) && !is_space(s[j - 1]),
        i == j ==> j == s.len() || i == 0,
    ensures
        trim_seq(s) =~= s.subrange(i, j),
{
    if i == j {
        // every character of s is whitespace
        assert(forall|k: int| 0 <= k < s.len() ==> is_space(s[k]));
        lemma_trim_start_is_suffix(s, s.len() as int);
        let m = s.subrange(s.len() as int, s.len() as int);
        assert(m.len() == 0);
        assert(trim_end_seq(m) =~= m);
        assert(s.subrange(i, j).len() == 0);
    } else {
        lemma_trim_start_is_suffix(s, i);
        let m = s.subrange(i, s.len() as int);
        assert(forall|k: int| j - i <= k < m.len() ==> is_space(m[k]));
        assert(!is_space(m[j - i - 1]));
        lemma_trim_end_is_prefix(m, j - i);
        assert(m.subrange(0, j - i) =~= s.subrange(i, j));
    }
}

/// `str::trim`, verified against `trim_seq`.
pub fn trim_str(s: &str) -> (r: &str)
    ensures
        r@ == trim_seq(s@),
{
    let n = s.unicode_len();
    let mut i: usize = 0;
    while i < n && is_space_char(s.get_char(i))
        invariant
            0 <= i <= n,
            n == s@.len(),
            forall|k: int| 0 <= k < i ==> is_space(s@[k]),
        decreases n - i,
    {
        i += 1;
    }
    let mut j: usize = n;
    while j > i && is_space_char(s.get_char(j - 1))
        invariant
            i <= j <= n,
            n == s@.len(),
            forall|k: int| j <= k < n ==> is_space(s@[k]),
        decreases j,
    {
        j -= 1;
    }
    proof {
        if i == j && i != 0 && j != s@.len() {
            // i stopped on a non-space and j could not pass it
            assert(!is_space(s@[i as int]));
            assert(false);
        }
        lemma_trim_subrange(s@, i as int, j as int);
    }
    s.substring_char(i, j)
}

/// Character-wise string equality.
pub fn eq_str(a: &str, b: &str) -> (r: bool)
    ensures
        r == (a@ == b@),
{
    let na = a.unicode_len();
    let nb = b.unicode_len();
    if na != nb {
        proof {
            if a@ == b@ {
                assert(a@.len() == b@.len());
            }
        }
        return false;
    }
    let mut i: usize = 0;
    while i < na
        invariant
            0 <= i <= na,
            na == a@.len() && na == b@.len(),
            forall|k: int| 0 <= k < i ==> a@[k] == b@[k],
        decreases na - i,
    {
        if a.get_char(i) != b.get_char(i) {
            proof {
                if a@ == b@ {
                    assert(a@[i as int] == b@[i as int]);
                }
            }
            return false;
        }
        i += 1;
    }
    proof {
        assert(a@ =~= b@);
    }
    true
}

/// Whether `p` stands at the front of `s`.
pub fn str_has_prefix(s: &str, p: &str) -> (r: bool)
    ensures
        r == has_prefix(s@, p@),
{
    let ns = s.unicode_len();
    let np = p.unicode_len();
    if np > ns {
        return false;
    }
    let mut i: usize = 0;
    while i < np
        invariant
            0 <= i <= np,
            np == p@.len() && ns == s@.len() && np <= ns,
            forall|k: int| 0 <= k < i ==> s@[k] == p@[k],
        decreases np - i,
    {
        if s.get_char(i) != p.get_char(i) {
            return false;
        }
        i += 1;
    }
    true
}


/// `sub` occurs contiguously somewhere in `s`.
pub open spec fn has_substring(s: Seq<char>, sub: Seq<char>) -> bool {
    exists|i: int|
        0 <= i && i + sub.len() <= s.len() && #[trigger] s.subrange(i, i + sub.len()) == sub
}

/// Whether `sub` occurs contiguously in `s`.
pub fn contains_str(s: &str, sub: &str) -> (r: bool)
    ensures
        r == has_substring(s@, sub@),
{
    let n = s.unicode_len();
    let m = sub.unicode_len();
    if m > n {
        proof {
            if has_substring(s@, sub@) {
                let i = choose|i: int|
                    0 <= i && i + sub@.len() <= s@.len() && #[trigger] s@.subrange(
                        i,
                        i + sub@.len(),
                    ) == sub@;
                assert(false);
            }
        }
        return false;
    }
    let mut i: usize = 0;
    while i <= n - m
        invariant
            0 <= i <= n - m + 1,
            m <= n,
            n == s@.len(),
            m == sub@.len(),
            forall|q: int| 0 <= q < i ==> #[trigger] s@.subrange(q, q + sub@.len()) != sub@,
        decreases n - i,
    {
        let mut j: usize = 0;
        let mut ok = true;
        while j < m
            invariant
                0 <= j <= m,
                i + m <= n,
                n == s@.len(),
                m == sub@.len(),
                ok ==> forall|q: int| 0 <= q < j ==> s@[i + q] == sub@[q],
                !ok ==> s@.subrange(i as int, i + sub@.len()) != sub@,
                !ok ==> m > 0,
            decreases m - j,
        {
            if s.get_char(i + j) != sub.get_char(j) {
                proof {
                    let w = s@.subrange(i as int, i + sub@.len());
                    assert(w[j as int] == s@[i + j]);
                    if w == sub@ {
                        assert(w[j as int] == sub@[j as int]);
                    }
                }
                ok = false;
                j = m;
            } else {
                j += 1;
            }
        }
        if ok {
            proof {
                let w = s@.subrange(i as int, i + sub@.len());
                assert(w =~= sub@);
            }
            return true;
        }
        i += 1;
    }
    proof {
        if has_substring(s@, sub@) {
            let q = choose|q: int|
                0 <= q && q + sub@.len() <= s@.len() && #[trigger] s@.subrange(
                    q,
                    q + sub@.len(),
                ) == sub@;
            assert(q < i);
        }
    }
    false
}

/// Index of the first occurrence of `c`, or the length when absent.
pub open spec fn first_char(s: Seq<char>, c: char) -> int
    decreases s.len(),
{
    if s.len() == 0 {
        0
    } else if s[0] == c {
        0
    } else {
        1 + first_char(s.drop_first(), c)
    }
}

/// `first_char` is exactly the position a forward search scans to.
pub proof fn lemma_first_char(s: Seq<char>, c: char, i: int)
    requires
        0 <= i <= s.len(),
        forall|k: int| 0 <= k < i ==> s[k] != c,
        i == s.len() || s[i] == c,
    ensures
        first_char(s, c) == i,
    decreases i,
{
    if i == 0 {
    } else {
        let t = s.drop_first();
        assert(forall|k: int| 0 <= k < i - 1 ==> t[k] != c);
        lemma_first_char(t, c, i - 1);
    }
}

pub proof fn lemma_first_char_bounds(s: Seq<char>, c: char)
    ensures
        0 <= first_char(s, c) <= s.len(),
        forall|k: int| 0 <= k < first_char(s, c) ==> s[k] != c,
        first_char(s, c) < s.len() ==> s[first_char(s, c)] == c,
    decreases s.len(),
{
    if s.len() == 0 {
    } else if s[0] == c {
    } else {
        let t = s.drop_first();
        lemma_first_char_bounds(t, c);
        assert forall|k: int| 0 <= k < first_char(s, c) implies s[k] != c by {
            if k > 0 {
                assert(s[k] == t[k - 1]);
            }
        }
        if first_char(s, c) < s.len() {
            assert(s[first_char(s, c)] == t[first_char(t, c)]);
        }
    }
}

/// Index of the first ASCII whitespace character, or the length when absent.
pub open spec fn first_ascii_ws(s: Seq<char>) -> int
    decreases s.len(),
{
    if s.len() == 0 {
        0
    } else if is_ascii_space(s[0]) {
        0
    } else {
        1 + first_ascii_ws(s.drop_first())
    }
}

pub proof fn lemma_first_ascii_ws(s: Seq<char>, i: int)
    requires
        0 <= i <= s.len(),
        forall|k: int| 0 <= k < i ==> !is_ascii_space(s[k]),
        i == s.len() || is_ascii_space(s[i]),
    ensures
        first_ascii_ws(s) == i,
    decreases i,
{
    if i == 0 {
    } else {
        let t = s.drop_first();
        assert(forall|k: int| 0 <= k < i - 1 ==> !is_ascii_space(t[k]));
        lemma_first_ascii_ws(t, i - 1);
    }
}

pub proof fn lemma_first_ascii_ws_bounds(s: Seq<char>)
    ensures
        0 <= first_ascii_ws(s) <= s.len(),
        forall|k: int| 0 <= k < first_ascii_ws(s) ==> !is_ascii_space(s[k]),
        first_ascii_ws(s) < s.len() ==> is_ascii_space(s[first_ascii_ws(s)]),
    decreases s.len(),
{
    if s.len() == 0 {
    } else if is_ascii_space(s[0]) {
    } else {
        let t = s.drop_first();
        lemma_first_ascii_ws_bounds(t);
        assert forall|k: int| 0 <= k < first_ascii_ws(s) implies !is_ascii_space(s[k]) by {
            if k > 0 {
                assert(s[k] == t[k - 1]);
            }
        }
        if first_ascii_ws(s) < s.len() {
            assert(s[first_ascii_ws(s)] == t[first_ascii_ws(t)]);
        }
    }
}

} // verus!
