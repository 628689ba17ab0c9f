//! Character-level text helpers: ASCII lower-casing, whitespace trimming,
//! scanning for a character, line splitting, and prefix tests, each exec
//! function proved against a spec function over `Seq<char>`.
//!
//! Trimming and lower-casing are ASCII-only: characters outside ASCII are
//! kept as they are and are never treated as whitespace.

use vstd::prelude::*;

verus! {

/// A character counts as whitespace for trimming.
pub open spec fn is_space(c: char) -> bool {
    c == ' ' || c == '\t' || c == '\r' || c == '\n' || c == '\x0b' || c == '\x0c'
}

/// Lower-cases one ASCII letter; every other character is kept as it is.
pub open spec fn lower_char(c: char) -> char {
    match c {
        'A' => 'a',
        'B' => 'b',
        'C' => 'c',
        'D' => 'd',
        'E' => 'e',
        'F' => 'f',
        'G' => 'g',
        'H' => 'h',
        'I' => 'i',
        'J' => 'j',
        'K' => 'k',
        'L' => 'l',
        'M' => 'm',
        'N' => 'n',
        'O' => 'o',
        'P' => 'p',
        'Q' => 'q',
        'R' => 'r',
        'S' => 's',
        'T' => 't',
        'U' => 'u',
        'V' => 'v',
        'W' => 'w',
        'X' => 'x',
        'Y' => 'y',
        'Z' => 'z',
        _ => c,
    }
}

/// The ASCII lower-casing of a whole character sequence.
pub open spec fn lower(s: Seq<char>) -> Seq<char> {
    s.map_values(|c: char| lower_char(c))
}

/// Index of the first occurrence of `c` in `s` at or after `from`,
/// or `s.len()` if there is none at or after `from`.
pub open spec fn scan_to(s: Seq<char>, c: char, from: int) -> int
    decreases s.len() - from,
{
    if from < 0 || from >= s.len() {
        s.len() as int
    } else if s[from] == c {
        from
    } else {
        scan_to(s, c, from + 1)
    }
}

/// What `scan_to` returns: the first hit, or the length when there is none.
pub proof fn lemma_scan_to(s: Seq<char>, c: char, from: int)
    requires
        0 <= from <= s.len(),
    ensures
        from <= scan_to(s, c, from) <= s.len(),
        scan_to(s, c, from) < s.len() ==> s[scan_to(s, c, from)] == c,
        forall|j: int| from <= j < scan_to(s, c, from) ==> s[j] != c,
    decreases s.len() - from,
{
    if from < s.len() && s[from] != c {
        lemma_scan_to(s, c, from + 1);
    }
}

/// `scan_to` is pinned down by its characterization: if no occurrence lies
/// in `[from, k)` and `k` is a hit or the end, then `scan_to` returns `k`.
pub proof fn lemma_scan_to_is(s: Seq<char>, c: char, from: int, k: int)
    requires
        0 <= from <= k <= s.len(),
        forall|j: int| from <= j < k ==> s[j] != c,
        k < s.len() ==> s[k] == c,
    ensures
        scan_to(s, c, from) == k,
    decreases k - from,
{
    if from < k {
        lemma_scan_to_is(s, c, from + 1, k);
    }
}

/// Scanning a suffix matches scanning in place.
pub proof fn lemma_scan_to_shift(s: Seq<char>, c: char, from: int)
    requires
        0 <= from <= s.len(),
    ensures
        scan_to(s, c, from) == from + scan_to(s.subrange(from, s.len() as int), c, 0),
{
    let suf = s.subrange(from, s.len() as int);
    let e = scan_to(suf, c, 0);
    lemma_scan_to(suf, c, 0);
    lemma_scan_to(s, c, from);
    assert(forall|j: int| from <= j < from + e ==> s[j] == suf[j - from] && s[j] != c);
    lemma_scan_to_is(s, c, from, from + e);
}

/// Index of the first character at or after `from` that is not whitespace,
/// or `s.len()` if all the rest is whitespace.
pub open spec fn first_ns(s: Seq<char>, from: int) -> int
    decreases s.len() - from,
{
    if from < 0 || from >= s.len() {
        s.len() as int
    } else if !is_space(s[from]) {
        from
    } else {
        first_ns(s, from + 1)
    }
}

/// Index of the last character strictly before `upto` that is not
/// whitespace, or `-1` if there is none.
pub open spec fn last_ns(s: Seq<char>, upto: int) -> int
    decreases upto,
{
    if upto <= 0 || upto > s.len() {
        -1
    } else if !is_space(s[upto - 1]) {
        upto - 1
    } else {
        last_ns(s, upto - 1)
    }
}

/// `s` with leading and trailing whitespace removed.
pub open spec fn trim_spec(s: Seq<char>) -> Seq<char> {
    let a = first_ns(s, 0);
    let b = last_ns(s, s.len() as int);
    if a <= b {
        s.subrange(a, b + 1)
    } else {
        Seq::empty()
    }
}

/// A sequence that neither starts nor ends with whitespace trims to itself.
pub proof fn lemma_trim_clean(s: Seq<char>)
    requires
        s.len() > 0 ==> !is_space(s[0]) && !is_space(s[s.len() - 1]),
    ensures
        trim_spec(s) == s,
{
    if s.len() == 0 {
        assert(trim_spec(s) =~= s);
    } else {
        assert(first_ns(s, 0) == 0);
        assert(last_ns(s, s.len() as int) == s.len() - 1);
        assert(trim_spec(s) =~= s);
    }
}

/// Whether `c` counts as whitespace for trimming.
pub fn is_space_c(c: char) -> (r: bool)
    ensures
        r == is_space(c),
{
    c == ' ' || c == '\t' || c == '\r' || c == '\x0b' || c == '\x0c' || c == '\n'
}

/// Lower-cases one ASCII letter; every other character is kept as it is.
pub fn to_lower_char(c: char) -> (r: char)
    ensures
        r == lower_char(c),
{
    match c {
        'A' => 'a',
        'B' => 'b',
        'C' => 'c',
        'D' => 'd',
        'E' => 'e',
        'F' => 'f',
        'G' => 'g',
        'H' => 'h',
        'I' => 'i',
        'J' => 'j',
        'K' => 'k',
        'L' => 'l',
        'M' => 'm',
        'N' => 'n',
        'O' => 'o',
        'P' => 'p',
        'Q' => 'q',
        'R' => 'r',
        'S' => 's',
        'T' => 't',
        'U' => 'u',
        'V' => 'v',
        'W' => 'w',
        'X' => 'x',
        'Y' => 'y',
        'Z' => 'z',
        _ => c,
    }
}

/// Relies on `String`'s `FromIterator` implementation over characters:
/// collecting characters yields a string holding exactly them, in order.
#[verifier::external_body]
pub(crate) fn string_from_chars(v: &Vec<char>) -> (r: String)
    ensures
        r@ == v@,
{
    v.iter().collect()
}

/// First index of `c` in `s` at or after `from`, or the length of `s`.
pub fn scan_char(s: &str, c: char, from: usize) -> (r: usize)
    requires
        from <= s@.len(),
    ensures
        r == scan_to(s@, c, from as int),
        from <= r <= s@.len(),
{
    let n = s.unicode_len();
    let mut i = from;
    while i < n && s.get_char(i) != c
        invariant
            from <= i <= n,
            n == s@.len(),
            scan_to(s@, c, from as int) == scan_to(s@, c, i as int),
        decreases n - i,
    {
        i = i + 1;
    }
    i
}

/// `s` with leading and trailing whitespace removed.
pub fn trim_str<'a>(s: &'a str) -> (r: &'a str)
    ensures
        r@ == trim_spec(s@),
{
    let n = s.unicode_len();
    let mut a: usize = 0;
    while a < n && is_space_c(s.get_char(a))
        invariant
            0 <= a <= n,
            n == s@.len(),
            first_ns(s@, 0) == first_ns(s@, a as int),
        decreases n - a,
    {
        a = a + 1;
    }
    assert(first_ns(s@, 0) == a);
    let mut b: usize = n;
    while b > 0 && is_space_c(s.get_char(b - 1))
        invariant
            0 <= b <= n,
            n == s@.len(),
            last_ns(s@, n as int) == last_ns(s@, b as int),
        decreases b,
    {
        b = b - 1;
    }
    assert(last_ns(s@, n as int) == b - 1);
    if a < b {
        s.substring_char(a, b)
    } else {
        let r = s.substring_char(0, 0);
        assert(r@ =~= trim_spec(s@));
        r
    }
}

/// The ASCII lower-casing of a whole string.
pub fn lower_str(s: &str) -> (r: String)
    ensures
        r@ == lower(s@),
{
    let n = s.unicode_len();
    let mut v: Vec<char> = Vec::new();
    let mut i: usize = 0;
    while i < n
        invariant
            0 <= i <= n,
            n == s@.len(),
            v@ == lower(s@.subrange(0, i as int)),
        decreases n - i,
    {
        v.push(to_lower_char(s.get_char(i)));
        assert(s@.subrange(0, i + 1 as int) =~= s@.subrange(0, i as int).push(s@[i as int]));
        assert(lower(s@.subrange(0, i + 1 as int)) =~= lower(s@.subrange(0, i as int)).push(
            lower_char(s@[i as int]),
        ));
        i = i + 1;
    }
    assert(s@.subrange(0, n as int) =~= s@);
    string_from_chars(&v)
}

/// Character-wise string equality.
pub fn str_eq(a: &str, b: &str) -> (r: bool)
    ensures
        r == (a@ == b@),
{
    let na = a.unicode_len();
    let nb = b.unicode_len();
    if na != nb {
        return false;
    }
    let mut i: usize = 0;
    while i < na
        invariant
            0 <= i <= na,
            na == a@.len(),
            na == b@.len(),
            forall|j: int| 0 <= j < i ==> a@[j] == b@[j],
        decreases na - i,
    {
        if a.get_char(i) != b.get_char(i) {
            return false;
        }
        i = i + 1;
    }
    assert(a@ =~= b@);
    true
}

/// Whether `p` is a literal prefix of `s`.
pub fn str_starts_with(s: &str, p: &str) -> (r: bool)
    ensures
        r == p@.is_prefix_of(s@),
{
    let np = p.unicode_len();
    let ns = s.unicode_len();
    if np > ns {
        return false;
    }
    let mut i: usize = 0;
    while i < np
        invariant
            0 <= i <= np,
            np == p@.len(),
            ns == s@.len(),
            np <= ns,
            forall|j: int| 0 <= j < i ==> p@[j] == s@[j],
        decreases np - i,
    {
        if p.get_char(i) != s.get_char(i) {
            assert(p@[i as int] != s@.subrange(0, np as int)[i as int]);
            return false;
        }
        i = i + 1;
    }
    assert(p@ =~= s@.subrange(0, np as int));
    true
}

} // verus!
