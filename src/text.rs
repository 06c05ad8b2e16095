//! Moving between strings and sequences of characters.
use vstd::prelude::*;

verus! {

/// Relies on `str::chars` collected into a `Vec`: the characters of `s`, in order.
#[verifier::external_body]
pub fn chars_of(s: &str) -> (r: Vec<char>)
    ensures
        r@ == s@,
{
    s.chars().collect()
}

/// Relies on `String: FromIterator<&char>`: the string of the characters, in order.
#[verifier::external_body]
pub fn string_of(c: &Vec<char>) -> (r: String)
    ensures
        r@ == c@,
{
    c.iter().collect()
}

/// A copy of `s[lo..hi]`.
pub fn copy_range(s: &Vec<char>, lo: usize, hi: usize) -> (r: Vec<char>)
    requires
        lo <= hi <= s@.len(),
    ensures
        r@ == s@.subrange(lo as int, hi as int),
{
    let mut r: Vec<char> = Vec::new();
    let mut i: usize = lo;
    while i < hi
        invariant
            lo <= i <= hi <= s@.len(),
            r@ == s@.subrange(lo as int, i as int),
        decreases hi - i,
    {
        r.push(s[i]);
        assert(r@ =~= s@.subrange(lo as int, i + 1));
        i = i + 1;
    }
    r
}

/// Whitespace that trimming removes: the characters of Unicode's
/// White_Space property.
pub open spec fn is_space(c: char) -> bool {
    ||| ('\t' <= c && c <= '\r')
    ||| c == ' '
    ||| c == '\u{85}'
    ||| c == '\u{A0}'
    ||| c == '\u{1680}'
    ||| ('\u{2000}' <= c && c <= '\u{200A}')
    ||| c == '\u{2028}'
    ||| c == '\u{2029}'
    ||| c == '\u{202F}'
    ||| c == '\u{205F}'
    ||| c == '\u{3000}'
}

pub open spec fn trim_start(s: Seq<char>, i: int) -> int
    decreases s.len() - i,
{
    if i < 0 || i >= s.len() || !is_space(s[i]) {
        i
    } else {
        trim_start(s, i + 1)
    }
}

pub open spec fn trim_end(s: Seq<char>, lo: int, j: int) -> int
    decreases j - lo,
{
    if j <= lo || j > s.len() || !is_space(s[j - 1]) {
        j
    } else {
        trim_end(s, lo, j - 1)
    }
}

/// `s` without the whitespace at either end.
pub open spec fn trimmed(s: Seq<char>) -> Seq<char> {
    let lo = trim_start(s, 0);
    s.subrange(lo, trim_end(s, lo, s.len() as int))
}

proof fn lemma_trim_start(s: Seq<char>, i: int)
    requires
        0 <= i <= s.len(),
    ensures
        i <= trim_start(s, i) <= s.len(),
    decreases s.len() - i,
{
    if i < s.len() && is_space(s[i]) {
        lemma_trim_start(s, i + 1);
    }
}

proof fn lemma_trim_end(s: Seq<char>, lo: int, j: int)
    requires
        0 <= lo <= j <= s.len(),
    ensures
        lo <= trim_end(s, lo, j) <= j,
    decreases j - lo,
{
    if j > lo && is_space(s[j - 1]) {
        lemma_trim_end(s, lo, j - 1);
    }
}

fn is_space_char(c: char) -> (r: bool)
    ensures
        r == is_space(c),
{
    ('\t' <= c && c <= '\r') || c == ' ' || c == '\u{85}' || c == '\u{A0}' || c == '\u{1680}' || (
    '\u{2000}' <= c && c <= '\u{200A}') || c == '\u{2028}' || c == '\u{2029}' || c == '\u{202F}'
        || c == '\u{205F}' || c == '\u{3000}'
}

/// A copy of `s[lo..hi]` without the whitespace at either end.
pub fn trimmed_range(s: &Vec<char>, lo: usize, hi: usize) -> (r: Vec<char>)
    requires
        lo <= hi <= s@.len(),
    ensures
        r@ == trimmed(s@.subrange(lo as int, hi as int)),
{
    let t = copy_range(s, lo, hi);
    proof {
        lemma_trim_start(t@, 0);
    }
    let mut a: usize = 0;
    while a < t.len() && is_space_char(t[a])
        invariant
            0 <= a <= t@.len(),
            trim_start(t@, a as int) == trim_start(t@, 0),
        decreases t@.len() - a,
    {
        a = a + 1;
    }
    proof {
        lemma_trim_end(t@, a as int, t@.len() as int);
    }
    let mut b: usize = t.len();
    while b > a && is_space_char(t[b - 1])
        invariant
            a <= b <= t@.len(),
            trim_end(t@, a as int, b as int) == trim_end(t@, a as int, t@.len() as int),
        decreases b - a,
    {
        b = b - 1;
    }
    copy_range(&t, a, b)
}

/// The first index at or after `i` where `a` is followed by `b`.
pub open spec fn find_pair(s: Seq<char>, i: int, a: char, b: char) -> Option<int>
    decreases s.len() - i,
{
    if i < 0 || i + 1 >= s.len() {
        None
    } else if s[i] == a && s[i + 1] == b {
        Some(i)
    } else {
        find_pair(s, i + 1, a, b)
    }
}

proof fn lemma_find_pair(s: Seq<char>, i: int, a: char, b: char)
    requires
        0 <= i,
    ensures
        find_pair(s, i, a, b) matches Some(j) ==> i <= j && j + 1 < s.len(),
    decreases s.len() - i,
{
    if i + 1 < s.len() && !(s[i] == a && s[i + 1] == b) {
        lemma_find_pair(s, i + 1, a, b);
    }
}

pub fn find_pair_from(s: &Vec<char>, i: usize, a: char, b: char) -> (r: Option<usize>)
    requires
        i <= s@.len(),
    ensures
        match r {
            Some(j) => find_pair(s@, i as int, a, b) == Some(j as int) && i <= j && j + 1 < s@.len(),
            None => find_pair(s@, i as int, a, b) is None,
        },
{
    proof {
        lemma_find_pair(s@, i as int, a, b);
    }
    let mut j: usize = i;
    while j < s.len() && j + 1 < s.len()
        invariant
            i <= j <= s@.len(),
            find_pair(s@, j as int, a, b) == find_pair(s@, i as int, a, b),
        decreases s@.len() - j,
    {
        if s[j] == a && s[j + 1] == b {
            return Some(j);
        }
        j = j + 1;
    }
    None
}

} // verus!
