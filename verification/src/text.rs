//! Character-level utilities over `&str`, each with an exact specification
//! over the string's view (a `Seq<char>`). The template language is scanned
//! one character at a time, so everything here is phrased in characters.

use vstd::prelude::*;
use vstd::string::*;

verus! {

/// Whitespace, for the purposes of tag-payload trimming and of the
/// whitespace-stripping markers: the characters with the Unicode White_Space
/// property, the set `str::trim` strips.
pub open spec fn is_space_char(c: char) -> bool {
    c == ' ' || c == '\t' || c == '\n' || c == '\r' || c == '\x0B' || c == '\x0C'
        || c == '\u{0085}' || c == '\u{00A0}' || c == '\u{1680}' || c == '\u{2000}'
        || c == '\u{2001}' || c == '\u{2002}' || c == '\u{2003}' || c == '\u{2004}'
        || c == '\u{2005}' || c == '\u{2006}' || c == '\u{2007}' || c == '\u{2008}'
        || c == '\u{2009}' || c == '\u{200A}' || c == '\u{2028}' || c == '\u{2029}'
        || c == '\u{202F}' || c == '\u{205F}' || c == '\u{3000}'
}

pub fn is_space(c: char) -> (r: bool)
    ensures
        r == is_space_char(c),
{
    c == ' ' || c == '\t' || c == '\n' || c == '\r' || c == '\x0B' || c == '\x0C'
        || c == '\u{0085}' || c == '\u{00A0}' || c == '\u{1680}' || c == '\u{2000}'
        || c == '\u{2001}' || c == '\u{2002}' || c == '\u{2003}' || c == '\u{2004}'
        || c == '\u{2005}' || c == '\u{2006}' || c == '\u{2007}' || c == '\u{2008}'
        || c == '\u{2009}' || c == '\u{200A}' || c == '\u{2028}' || c == '\u{2029}'
        || c == '\u{202F}' || c == '\u{205F}' || c == '\u{3000}'
}

/// The string with its leading whitespace removed.
pub open spec fn trim_start_spec(s: Seq<char>) -> Seq<char>
    decreases s.len(),
{
    if s.len() > 0 && is_space_char(s[0]) {
        trim_start_spec(s.drop_first())
    } else {
        s
    }
}

/// The string with its trailing whitespace removed.
pub open spec fn trim_end_spec(s: Seq<char>) -> Seq<char>
    decreases s.len(),
{
    if s.len() > 0 && is_space_char(s[s.len() - 1]) {
        trim_end_spec(s.drop_last())
    } else {
        s
    }
}

/// The string with whitespace removed from both ends.
pub open spec fn trim_spec(s: Seq<char>) -> Seq<char> {
    trim_end_spec(trim_start_spec(s))
}

pub proof fn lemma_trim_start_skip(s: Seq<char>, i: int)
    requires
        0 <= i <= s.len(),
        forall|j: int| 0 <= j < i ==> is_space_char(s[j]),
        i < s.len() ==> !is_space_char(s[i]),
    ensures
        trim_start_spec(s) == s.skip(i),
    decreases i,
{
    if i == 0 {
        assert(s.skip(0) =~= s);
    } else {
        lemma_trim_start_skip(s.drop_first(), i - 1);
        assert(s.drop_first().skip(i - 1) =~= s.skip(i));
    }
}

pub proof fn lemma_trim_end_take(s: Seq<char>, i: int)
    requires
        0 <= i <= s.len(),
        forall|j: int| i <= j < s.len() ==> is_space_char(s[j]),
        i > 0 ==> !is_space_char(s[i - 1]),
    ensures
        trim_end_spec(s) == s.take(i),
    decreases s.len(),
{
    if i == s.len() {
        assert(s.take(i) =~= s);
    } else {
        lemma_trim_end_take(s.drop_last(), i);
        assert(s.drop_last().take(i) =~= s.take(i));
    }
}

pub fn trim_start_str<'a>(s: &'a str) -> (r: &'a str)
    ensures
        r@ == trim_start_spec(s@),
{
    let n = s.unicode_len();
    let mut i: usize = 0;
    while i < n && is_space(s.get_char(i))
        invariant
            n == s@.len(),
            0 <= i <= n,
            forall|j: int| 0 <= j < i ==> is_space_char(s@[j]),
        decreases n - i,
    {
        i = i + 1;
    }
    proof {
        lemma_trim_start_skip(s@, i as int);
    }
    let r = s.substring_char(i, n);
    proof {
        assert(r@ =~= s@.skip(i as int));
    }
    r
}

pub fn trim_end_str<'a>(s: &'a str) -> (r: &'a str)
    ensures
        r@ == trim_end_spec(s@),
{
    let n = s.unicode_len();
    let mut i: usize = n;
    while i > 0 && is_space(s.get_char(i - 1))
        invariant
            n == s@.len(),
            0 <= i <= n,
            forall|j: int| i <= j < n ==> is_space_char(s@[j]),
        decreases i,
    {
        i = i - 1;
    }
    proof {
        lemma_trim_end_take(s@, i as int);
    }
    let r = s.substring_char(0, i);
    proof {
        assert(r@ =~= s@.take(i as int));
    }
    r
}

pub fn trim_str<'a>(s: &'a str) -> (r: &'a str)
    ensures
        r@ == trim_spec(s@),
{
    let t = trim_start_str(s);
    trim_end_str(t)
}

/// Relates an executable `Option<usize>` to a mathematical `Option<int>`.
pub open spec fn opt_usize_is(r: Option<usize>, m: Option<int>) -> bool {
    match r {
        Some(i) => m == Some(i as int),
        None => m is None,
    }
}

/// Index of the first occurrence of `c` in `s`, if any.
pub closed spec fn find_char_spec(s: Seq<char>, c: char) -> Option<int>
    decreases s.len(),
{
    if s.len() == 0 {
        None
    } else if s[0] == c {
        Some(0)
    } else {
        match find_char_spec(s.drop_first(), c) {
            Some(i) => Some(i + 1),
            None => None,
        }
    }
}

pub proof fn lemma_find_char(s: Seq<char>, c: char)
    ensures
        match find_char_spec(s, c) {
            Some(i) => 0 <= i < s.len() && s[i] == c && forall|j: int| 0 <= j < i ==> s[j] != c,
            None => forall|j: int| 0 <= j < s.len() ==> s[j] != c,
        },
    decreases s.len(),
{
    if s.len() == 0 {
    } else if s[0] == c {
    } else {
        lemma_find_char(s.drop_first(), c);
        assert(forall|j: int| 1 <= j < s.len() ==> s[j] == s.drop_first()[j - 1]);
    }
}

pub fn find_char(s: &str, c: char) -> (r: Option<usize>)
    ensures
        opt_usize_is(r, find_char_spec(s@, c)),
{
    proof {
        lemma_find_char(s@, c);
    }
    let n = s.unicode_len();
    let mut i: usize = 0;
    while i < n
        invariant
            n == s@.len(),
            0 <= i <= n,
            forall|j: int| 0 <= j < i ==> s@[j] != c,
        decreases n - i,
    {
        if s.get_char(i) == c {
            proof {
                lemma_find_char(s@, c);
            }
            return Some(i);
        }
        i = i + 1;
    }
    None
}

/// Index of the first occurrence of the two-character sequence `c0 c1`.
pub closed spec fn find2_spec(s: Seq<char>, c0: char, c1: char) -> Option<int>
    decreases s.len(),
{
    if s.len() < 2 {
        None
    } else if s[0] == c0 && s[1] == c1 {
        Some(0)
    } else {
        match find2_spec(s.drop_first(), c0, c1) {
            Some(i) => Some(i + 1),
            None => None,
        }
    }
}

pub proof fn lemma_find2(s: Seq<char>, c0: char, c1: char)
    ensures
        match find2_spec(s, c0, c1) {
            Some(i) => 0 <= i && i + 2 <= s.len() && s[i] == c0 && s[i + 1] == c1
                && forall|j: int| 0 <= j < i ==> !((#[trigger] s[j]) == c0 && s[j + 1] == c1),
            None => forall|j: int| 0 <= j && j + 2 <= s.len() ==> !((#[trigger] s[j]) == c0 && s[j + 1] == c1),
        },
    decreases s.len(),
{
    if s.len() < 2 {
    } else if s[0] == c0 && s[1] == c1 {
    } else {
        lemma_find2(s.drop_first(), c0, c1);
        assert(forall|j: int| 1 <= j < s.len() ==> s[j] == s.drop_first()[j - 1]);
    }
}

pub fn find2(s: &str, c0: char, c1: char) -> (r: Option<usize>)
    ensures
        opt_usize_is(r, find2_spec(s@, c0, c1)),
{
    proof {
        lemma_find2(s@, c0, c1);
    }
    let n = s.unicode_len();
    if n < 2 {
        return None;
    }
    let mut i: usize = 0;
    while i <= n - 2
        invariant
            n == s@.len(),
            n >= 2,
            0 <= i <= n,
            forall|j: int| 0 <= j < i ==> !((#[trigger] s@[j]) == c0 && s@[j + 1] == c1),
        decreases n - i,
    {
        if s.get_char(i) == c0 && s.get_char(i + 1) == c1 {
            proof {
                lemma_find2(s@, c0, c1);
            }
            return Some(i);
        }
        i = i + 1;
    }
    None
}

/// Index of the first occurrence of `pat` as a contiguous substring of `s`.
pub closed spec fn find_sub_spec(s: Seq<char>, pat: Seq<char>) -> Option<int>
    decreases s.len(),
{
    if pat.len() <= 0 || s.len() < pat.len() {
        None
    } else if s.subrange(0, pat.len() as int) == pat {
        Some(0)
    } else {
        match find_sub_spec(s.drop_first(), pat) {
            Some(i) => Some(i + 1),
            None => None,
        }
    }
}

pub proof fn lemma_find_sub(s: Seq<char>, pat: Seq<char>)
    requires
        pat.len() > 0,
    ensures
        match find_sub_spec(s, pat) {
            Some(i) => 0 <= i && i + pat.len() <= s.len() && s.subrange(i, i + pat.len()) == pat
                && forall|j: int|
                    0 <= j < i ==> #[trigger] s.subrange(j, j + pat.len()) != pat,
            None => forall|j: int|
                0 <= j && j + pat.len() <= s.len() ==> #[trigger] s.subrange(j, j + pat.len())
                    != pat,
        },
    decreases s.len(),
{
    if pat.len() <= 0 || s.len() < pat.len() {
    } else if s.subrange(0, pat.len() as int) == pat {
    } else {
        lemma_find_sub(s.drop_first(), pat);
        assert forall|j: int| 1 <= j && j + pat.len() <= s.len() implies #[trigger] s.subrange(
            j,
            j + pat.len(),
        ) == s.drop_first().subrange(j - 1, j - 1 + pat.len()) by {
            assert(s.subrange(j, j + pat.len()) =~= s.drop_first().subrange(
                j - 1,
                j - 1 + pat.len(),
            ));
        }
    }
}

pub fn find_sub(s: &str, pat: &str) -> (r: Option<usize>)
    requires
        pat@.len() > 0,
    ensures
        opt_usize_is(r, find_sub_spec(s@, pat@)),
{
    proof {
        lemma_find_sub(s@, pat@);
    }
    let n = s.unicode_len();
    let m = pat.unicode_len();
    if n < m {
        return None;
    }
    let mut i: usize = 0;
    while i <= n - m
        invariant
            n == s@.len(),
            m == pat@.len(),
            m <= n,
            m > 0,
            0 <= i <= n - m + 1,
            forall|j: int| 0 <= j < i ==> #[trigger] s@.subrange(j, j + pat@.len()) != pat@,
        decreases n - i,
    {
        let piece = s.substring_char(i, i + m);
        if str_eq(piece, pat) {
            proof {
                lemma_find_sub(s@, pat@);
                assert(s@.subrange(i as int, i as int + pat@.len()) == pat@);
            }
            return Some(i);
        }
        i = i + 1;
    }
    None
}

pub fn str_eq(a: &str, b: &str) -> (r: bool)
    ensures
        r == (a@ == b@),
{
    let na = a.unicode_len();
    let nb = b.unicode_len();
    if na != nb {
        return false;
    }
    let mut i: usize = 0;
    while i < na
        invariant
            na == a@.len(),
            na == b@.len(),
            0 <= i <= na,
            forall|j: int| 0 <= j < i ==> a@[j] == b@[j],
        decreases na - i,
    {
        if a.get_char(i) != b.get_char(i) {
            return false;
        }
        i = i + 1;
    }
    proof {
        assert(a@ =~= b@);
    }
    true
}

pub fn starts_with_char(s: &str, c: char) -> (r: bool)
    ensures
        r == (s@.len() > 0 && s@[0] == c),
{
    s.unicode_len() > 0 && s.get_char(0) == c
}

pub fn ends_with_char(s: &str, c: char) -> (r: bool)
    ensures
        r == (s@.len() > 0 && s@[s@.len() - 1] == c),
{
    let n = s.unicode_len();
    n > 0 && s.get_char(n - 1) == c
}

pub open spec fn starts2(s: Seq<char>, c0: char, c1: char) -> bool {
    s.len() >= 2 && s[0] == c0 && s[1] == c1
}


} // verus!
