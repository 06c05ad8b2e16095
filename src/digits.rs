//! Decimal digit strings: their values, their canonical text, and scanners
//! over a line of characters.
use vstd::prelude::*;

verus! {

pub open spec fn is_digit(c: char) -> bool {
    '0' <= c && c <= '9'
}

pub open spec fn digit_value(c: char) -> int {
    c as int - '0' as int
}

pub open spec fn digit_char(d: int) -> char {
    ((d + 48) as u8) as char
}

pub open spec fn all_digits(s: Seq<char>) -> bool {
    forall|i: int| 0 <= i < s.len() ==> is_digit(#[trigger] s[i])
}

/// The number that a string of decimal digits denotes (leading zeros allowed).
pub open spec fn digits_value(s: Seq<char>) -> nat
    decreases s.len(),
{
    if s.len() == 0 {
        0
    } else {
        (digits_value(s.drop_last()) * 10 + digit_value(s.last())) as nat
    }
}

/// The shortest decimal text of `n`, as `Display` writes an unsigned integer.
pub open spec fn decimal(n: nat) -> Seq<char>
    decreases n,
{
    if n < 10 {
        seq![digit_char(n as int)]
    } else {
        decimal(n / 10) + seq![digit_char((n % 10) as int)]
    }
}

/// A non-empty digit string without a superfluous leading zero.
pub open spec fn canonical_digits(s: Seq<char>) -> bool {
    &&& s.len() >= 1
    &&& all_digits(s)
    &&& (s.len() > 1 ==> s[0] != '0')
}

/// Index of the first non-digit at or after `i` (or the length).
pub open spec fn digit_run_end(s: Seq<char>, i: int) -> int
    decreases s.len() - i,
{
    if i < 0 || i >= s.len() || !is_digit(s[i]) {
        i
    } else {
        digit_run_end(s, i + 1)
    }
}

pub proof fn lemma_digit_char(d: int)
    requires
        0 <= d < 10,
    ensures
        is_digit(digit_char(d)),
        digit_value(digit_char(d)) == d,
        d != 0 ==> digit_char(d) != '0',
{
}

pub proof fn lemma_decimal(n: nat)
    ensures
        canonical_digits(decimal(n)),
        digits_value(decimal(n)) == n,
        n < 10 ==> decimal(n).len() == 1,
        n < 100 ==> decimal(n).len() <= 2,
        n < 1000 ==> decimal(n).len() <= 3,
    decreases n,
{
    if n < 10 {
        lemma_digit_char(n as int);
        assert(decimal(n).drop_last() =~= Seq::<char>::empty());
        assert(digits_value(decimal(n).drop_last()) == 0);
    } else {
        let q = n / 10;
        let r = (n % 10) as int;
        lemma_decimal(q);
        lemma_digit_char(r);
        let d = decimal(n);
        assert(d.drop_last() =~= decimal(q));
        assert(d.last() == digit_char(r));
        assert(digits_value(d) == q * 10 + r);
        assert(q * 10 + r == n) by (nonlinear_arith)
            requires
                q == n / 10,
                r == n % 10,
        ;
        assert(d[0] == decimal(q)[0]);
        assert(all_digits(d)) by {
            assert forall|i: int| 0 <= i < d.len() implies is_digit(#[trigger] d[i]) by {
                if i < decimal(q).len() {
                    assert(d[i] == decimal(q)[i]);
                }
            }
        }
        assert(q >= 1);
        assert(decimal(q).len() > 1 ==> decimal(q)[0] != '0');
        assert(decimal(q).len() == 1 ==> decimal(q)[0] != '0') by {
            if decimal(q).len() == 1 {
                assert(q < 10) by {
                    if q >= 10 {
                        lemma_decimal(q / 10);
                        assert(decimal(q).len() == decimal(q / 10).len() + 1);
                    }
                }
            }
        }
    }
}

/// Every canonical digit string is the decimal text of its value.
pub proof fn lemma_canonical(s: Seq<char>)
    requires
        canonical_digits(s),
    ensures
        decimal(digits_value(s)) == s,
        s.len() >= 2 ==> digits_value(s) >= 10,
    decreases s.len(),
{
    let c = s.last();
    let d = digit_value(c);
    assert(is_digit(s[s.len() - 1]));
    if s.len() == 1 {
        assert(s.drop_last() =~= Seq::<char>::empty());
        assert(digits_value(s.drop_last()) == 0);
        assert(digits_value(s) == d);
        assert(decimal(d as nat) =~= s);
    } else {
        let t = s.drop_last();
        assert(t[0] == s[0]);
        assert(forall|i: int| 0 <= i < t.len() ==> t[i] == s[i]);
        assert(canonical_digits(t));
        lemma_canonical(t);
        let v = digits_value(t);
        assert(v >= 1) by {
            if t.len() == 1 {
                assert(t.drop_last() =~= Seq::<char>::empty());
            }
        }
        let n = digits_value(s);
        assert(n == v * 10 + d);
        assert(n / 10 == v && n % 10 == d) by (nonlinear_arith)
            requires
                n == v * 10 + d,
                0 <= d < 10,
        ;
        assert(digit_char(d) == c);
        assert(decimal(n) =~= decimal(v) + seq![c]);
        assert(s =~= t + seq![c]);
    }
}

pub open spec fn pow10(k: nat) -> nat
    decreases k,
{
    if k == 0 {
        1
    } else {
        10 * pow10((k - 1) as nat)
    }
}

pub proof fn lemma_pow10_monotone(a: nat, b: nat)
    requires
        a <= b,
    ensures
        pow10(a) <= pow10(b),
    decreases b,
{
    if a < b {
        lemma_pow10_monotone(a, (b - 1) as nat);
    }
}

/// A string of `n` digits is worth less than `10^n`.
pub proof fn lemma_digits_value_bound(s: Seq<char>)
    requires
        all_digits(s),
    ensures
        digits_value(s) < pow10(s.len()),
    decreases s.len(),
{
    if s.len() > 0 {
        let t = s.drop_last();
        assert(all_digits(t)) by {
            assert forall|i: int| 0 <= i < t.len() implies is_digit(#[trigger] t[i]) by {
                assert(t[i] == s[i]);
            }
        }
        lemma_digits_value_bound(t);
        assert(is_digit(s[s.len() - 1]));
        let v = digits_value(t);
        let d = digit_value(s.last());
        assert(v * 10 + d < pow10(t.len()) * 10) by (nonlinear_arith)
            requires
                v < pow10(t.len()),
                0 <= d < 10,
        ;
    }
}

/// Appending digits never lowers the value.
pub proof fn lemma_digits_value_prefix(s: Seq<char>, i: int)
    requires
        0 <= i <= s.len(),
        all_digits(s),
    ensures
        digits_value(s.subrange(0, i)) <= digits_value(s),
    decreases s.len() - i,
{
    if i < s.len() {
        lemma_digits_value_prefix(s, i + 1);
        let p = s.subrange(0, i + 1);
        assert(p.drop_last() =~= s.subrange(0, i));
        assert(is_digit(s[i]));
        assert(p.last() == s[i]);
        assert(digits_value(p) == digits_value(s.subrange(0, i)) * 10 + digit_value(s[i]));
    } else {
        assert(s.subrange(0, i) =~= s);
    }
}

pub proof fn lemma_digit_run_end(s: Seq<char>, i: int)
    requires
        0 <= i <= s.len(),
    ensures
        i <= digit_run_end(s, i) <= s.len(),
        all_digits(s.subrange(i, digit_run_end(s, i))),
        digit_run_end(s, i) < s.len() ==> !is_digit(s[digit_run_end(s, i)]),
    decreases s.len() - i,
{
    if i < s.len() && is_digit(s[i]) {
        lemma_digit_run_end(s, i + 1);
        let j = digit_run_end(s, i);
        assert forall|k: int| 0 <= k < j - i implies is_digit(#[trigger] s.subrange(i, j)[k]) by {
            if k > 0 {
                assert(s.subrange(i, j)[k] == s.subrange(i + 1, j)[k - 1]);
            }
        }
    }
}

/// A run of digits that a non-digit (or the end) follows ends there.
pub proof fn lemma_run_end_exact(s: Seq<char>, i: int, j: int)
    requires
        0 <= i <= j <= s.len(),
        all_digits(s.subrange(i, j)),
        j == s.len() || !is_digit(s[j]),
    ensures
        digit_run_end(s, i) == j,
    decreases j - i,
{
    if i < j {
        assert(s.subrange(i, j)[0] == s[i]);
        assert forall|k: int| 0 <= k < j - (i + 1) implies is_digit(
            #[trigger] s.subrange(i + 1, j)[k],
        ) by {
            assert(s.subrange(i + 1, j)[k] == s.subrange(i, j)[k + 1]);
        }
        lemma_run_end_exact(s, i + 1, j);
    }
}

/// The end of the run of digits that starts at `i`.
pub fn scan_digits(s: &Vec<char>, i: usize) -> (r: usize)
    requires
        i <= s@.len(),
    ensures
        r == digit_run_end(s@, i as int),
        i <= r <= s@.len(),
        all_digits(s@.subrange(i as int, r as int)),
        r < s@.len() ==> !is_digit(s@[r as int]),
{
    proof {
        lemma_digit_run_end(s@, i as int);
    }
    let mut j: usize = i;
    while j < s.len() && '0' <= s[j] && s[j] <= '9'
        invariant
            i <= j <= s@.len(),
            digit_run_end(s@, j as int) == digit_run_end(s@, i as int),
        decreases s@.len() - j,
    {
        j = j + 1;
    }
    j
}

/// The value of the digits `s[lo..hi]`, or `None` where it exceeds `u64::MAX`.
pub fn digits_to_u64(s: &Vec<char>, lo: usize, hi: usize) -> (r: Option<u64>)
    requires
        lo <= hi <= s@.len(),
        all_digits(s@.subrange(lo as int, hi as int)),
    ensures
        match r {
            Some(v) => v == digits_value(s@.subrange(lo as int, hi as int)),
            None => digits_value(s@.subrange(lo as int, hi as int)) > u64::MAX,
        },
{
    let ghost t = s@.subrange(lo as int, hi as int);
    let mut acc: u64 = 0;
    let mut i: usize = lo;
    while i < hi
        invariant
            lo <= i <= hi <= s@.len(),
            t == s@.subrange(lo as int, hi as int),
            all_digits(t),
            acc == digits_value(t.subrange(0, i - lo)),
        decreases hi - i,
    {
        assert(is_digit(t[i - lo]));
        let d: u64 = (s[i] as u32 - '0' as u32) as u64;
        let ghost p = t.subrange(0, i - lo + 1);
        assert(p.drop_last() =~= t.subrange(0, i - lo));
        assert(digits_value(p) == acc * 10 + d);
        if acc > (u64::MAX - d) / 10 {
            assert(acc * 10 + d > u64::MAX) by (nonlinear_arith)
                requires
                    acc > (u64::MAX - d) / 10,
                    d < 10,
            ;
            proof {
                lemma_digits_value_prefix(t, i - lo + 1);
            }
            return None;
        }
        assert(acc * 10 + d <= u64::MAX) by (nonlinear_arith)
            requires
                acc <= (u64::MAX - d) / 10,
                d < 10,
        ;
        acc = acc * 10 + d;
        i = i + 1;
    }
    assert(t.subrange(0, hi - lo) =~= t);
    Some(acc)
}

/// The decimal text of `n`.
pub fn decimal_chars(n: u64) -> (r: Vec<char>)
    ensures
        r@ == decimal(n as nat),
    decreases n,
{
    let d: u8 = (n % 10) as u8;
    let c: char = (d + 48u8) as char;
    if n < 10 {
        let mut v: Vec<char> = Vec::new();
        v.push(c);
        assert(v@ =~= decimal(n as nat));
        v
    } else {
        let mut v = decimal_chars(n / 10);
        v.push(c);
        assert(v@ =~= decimal(n as nat));
        v
    }
}

} // verus!
