//! IPv6 addresses in text: eight hexadecimal groups, a run of which may be
//! written as `::`.
use vstd::prelude::*;
use crate::address::{
    address_text, ipv4_chars, ipv4_text, ipv4_of_text, lemma_ipv4_round_trip, lemma_ipv4_text_chars,
    lemma_not_ipv4, parse_ipv4, Address,
};
use crate::digits::{digit_char, is_digit};
use crate::text::{copy_range, find_pair, find_pair_from};

verus! {

pub open spec fn is_hex(c: char) -> bool {
    is_digit(c) || ('a' <= c && c <= 'f') || ('A' <= c && c <= 'F')
}

pub open spec fn hex_value(c: char) -> int {
    if is_digit(c) {
        c as int - '0' as int
    } else if 'a' <= c && c <= 'f' {
        c as int - 'a' as int + 10
    } else {
        c as int - 'A' as int + 10
    }
}

/// The number that a string of hexadecimal digits denotes.
pub open spec fn hex_digits_value(s: Seq<char>) -> nat
    decreases s.len(),
{
    if s.len() == 0 {
        0
    } else {
        (hex_digits_value(s.drop_last()) * 16 + hex_value(s.last())) as nat
    }
}

/// Index of the first non-hexadecimal character at or after `i` (or the length).
pub open spec fn hex_run_end(s: Seq<char>, i: int) -> int
    decreases s.len() - i,
{
    if i < 0 || i >= s.len() || !is_hex(s[i]) {
        i
    } else {
        hex_run_end(s, i + 1)
    }
}

/// The two groups that a dotted IPv4 address stands for, where `s` is one.
pub open spec fn ipv4_groups(s: Seq<char>) -> Option<Seq<u16>> {
    match ipv4_of_text(s) {
        Some(Address::V4(a, b, c, d)) => Some(
            seq![(a as int * 256 + b as int) as u16, (c as int * 256 + d as int) as u16],
        ),
        _ => None,
    }
}

/// The groups written from `i` on: one to four hexadecimal digits each,
/// separated by single colons, up to the end of `s`; where `v4` holds, the
/// last two may be written as a dotted IPv4 address.
pub open spec fn groups_from(s: Seq<char>, i: int, v4: bool) -> Option<Seq<u16>>
    decreases s.len() - i,
{
    let j = hex_run_end(s, i);
    if v4 && 0 <= i <= s.len() && ipv4_groups(s.subrange(i, s.len() as int)) is Some {
        ipv4_groups(s.subrange(i, s.len() as int))
    } else if i < 0 || j <= i || j - i > 4 || j > s.len() {
        None
    } else {
        let v = hex_digits_value(s.subrange(i, j)) as u16;
        if j == s.len() {
            Some(seq![v])
        } else if s[j] == ':' {
            match groups_from(s, j + 1, v4) {
                Some(g) => Some(seq![v] + g),
                None => None,
            }
        } else {
            None
        }
    }
}

/// The groups of a text that may be empty.
pub open spec fn groups_of(s: Seq<char>, v4: bool) -> Option<Seq<u16>> {
    if s.len() == 0 {
        Some(Seq::empty())
    } else {
        groups_from(s, 0, v4)
    }
}

pub open spec fn zero_groups(n: nat) -> Seq<u16> {
    Seq::new(n, |i: int| 0u16)
}

/// The eight groups of an IPv6 address text: all eight written out, or the
/// groups before and after a single `::`, which stands for at least one zero
/// group. The last two groups may be written as a dotted IPv4 address, but
/// not before a `::`.
pub open spec fn ipv6_groups(s: Seq<char>) -> Option<Seq<u16>> {
    match find_pair(s, 0, ':', ':') {
        None => match groups_of(s, true) {
            Some(g) => if g.len() == 8 {
                Some(g)
            } else {
                None
            },
            None => None,
        },
        Some(k) => match (groups_of(s.subrange(0, k), false), groups_of(s.subrange(k + 2, s.len() as int), true)) {
            (Some(h), Some(t)) => if h.len() <= 7 && t.len() <= 7 - h.len() {
                Some(h + zero_groups((8 - h.len() - t.len()) as nat) + t)
            } else {
                None
            },
            _ => None,
        },
    }
}

pub open spec fn pow16(k: nat) -> nat
    decreases k,
{
    if k == 0 {
        1
    } else {
        16 * pow16((k - 1) as nat)
    }
}

proof fn lemma_hex_run_end(s: Seq<char>, i: int)
    requires
        0 <= i <= s.len(),
    ensures
        i <= hex_run_end(s, i) <= s.len(),
        forall|k: int| i <= k < hex_run_end(s, i) ==> is_hex(#[trigger] s[k]),
    decreases s.len() - i,
{
    if i < s.len() && is_hex(s[i]) {
        lemma_hex_run_end(s, i + 1);
    }
}

fn hex_digit(c: char) -> (r: u32)
    requires
        is_hex(c),
    ensures
        r == hex_value(c),
        r < 16,
{
    if '0' <= c && c <= '9' {
        (c as u32) - ('0' as u32)
    } else if 'a' <= c && c <= 'f' {
        (c as u32) - ('a' as u32) + 10
    } else {
        (c as u32) - ('A' as u32) + 10
    }
}

fn is_hex_char(c: char) -> (r: bool)
    ensures
        r == is_hex(c),
{
    ('0' <= c && c <= '9') || ('a' <= c && c <= 'f') || ('A' <= c && c <= 'F')
}

/// The value of one group `s[lo..hi]`, of one to four hexadecimal digits.
fn group_value(s: &Vec<char>, lo: usize, hi: usize) -> (r: u16)
    requires
        lo < hi <= s@.len(),
        hi - lo <= 4,
        forall|k: int| lo <= k < hi ==> is_hex(#[trigger] s@[k]),
    ensures
        r == hex_digits_value(s@.subrange(lo as int, hi as int)),
{
    let ghost t = s@.subrange(lo as int, hi as int);
    let mut acc: u32 = 0;
    let mut i: usize = lo;
    assert(pow16(0) == 1);
    while i < hi
        invariant
            lo <= i <= hi <= s@.len(),
            hi - lo <= 4,
            t == s@.subrange(lo as int, hi as int),
            forall|k: int| lo <= k < hi ==> is_hex(#[trigger] s@[k]),
            acc == hex_digits_value(t.subrange(0, i - lo)),
            acc < pow16((i - lo) as nat),
        decreases hi - i,
    {
        let d = hex_digit(s[i]);
        let ghost p = t.subrange(0, i - lo + 1);
        assert(p.drop_last() =~= t.subrange(0, i - lo));
        assert(p.last() == s@[i as int]);
        assert(pow16((i - lo + 1) as nat) == 16 * pow16((i - lo) as nat));
        assert(pow16((i - lo) as nat) <= pow16(3)) by {
            reveal_with_fuel(pow16, 5);
        }
        assert(pow16(3) == 4096) by {
            reveal_with_fuel(pow16, 4);
        }
        assert(acc * 16 + d < 16 * pow16((i - lo) as nat)) by (nonlinear_arith)
            requires
                acc < pow16((i - lo) as nat),
                d < 16,
        ;
        acc = acc * 16 + d;
        i = i + 1;
    }
    assert(t.subrange(0, hi - lo) =~= t);
    assert(pow16(4) == 65536) by {
        reveal_with_fuel(pow16, 5);
    }
    assert(pow16((hi - lo) as nat) <= 65536) by {
        reveal_with_fuel(pow16, 5);
    }
    acc as u16
}

/// The groups of a whole text, as `groups_of` reads them.
fn groups_in(t: &Vec<char>, v4: bool) -> (r: Option<Vec<u16>>)
    ensures
        match r {
            Some(g) => groups_of(t@, v4) == Some(g@),
            None => groups_of(t@, v4) is None,
        },
{
    let mut acc: Vec<u16> = Vec::new();
    if t.len() == 0 {
        assert(acc@ =~= Seq::<u16>::empty());
        return Some(acc);
    }
    let mut i: usize = 0;
    loop
        invariant
            0 <= i <= t@.len(),
            t@.len() > 0,
            groups_of(t@, v4) == match groups_from(t@, i as int, v4) {
                Some(g) => Some(acc@ + g),
                None => None::<Seq<u16>>,
            },
        decreases t@.len() - i,
    {
        if v4 {
            let rest = copy_range(t, i, t.len());
            match parse_ipv4(&rest) {
                Some(Address::V4(a, b, c, d)) => {
                    let ghost before = acc@;
                    acc.push((a as u16) * 256 + (b as u16));
                    acc.push((c as u16) * 256 + (d as u16));
                    assert(acc@ =~= before + ipv4_groups(rest@)->Some_0);
                    return Some(acc);
                },
                _ => {},
            }
        }
        proof {
            lemma_hex_run_end(t@, i as int);
        }
        let mut j: usize = i;
        while j < t.len() && is_hex_char(t[j])
            invariant
                i <= j <= t@.len(),
                hex_run_end(t@, j as int) == hex_run_end(t@, i as int),
            decreases t@.len() - j,
        {
            j = j + 1;
        }
        if j == i || j - i > 4 {
            return None;
        }
        let v = group_value(t, i, j);

        if j == t.len() {
            acc.push(v);
            assert(groups_of(t@, v4) == Some(acc@)) by {
                assert(acc@ =~= acc@.drop_last() + seq![v]);
            }
            return Some(acc);
        }
        if t[j] != ':' {
            return None;
        }
        let ghost before = acc@;
        acc.push(v);
        proof {
            match groups_from(t@, j + 1, v4) {
                Some(g) => {
                    assert(before + (seq![v] + g) =~= acc@ + g);
                },
                None => {},
            }
        }
        i = j + 1;
    }
}

/// The eight groups of an IPv6 address text.
pub fn parse_ipv6(s: &Vec<char>) -> (r: Option<Vec<u16>>)
    ensures
        match r {
            Some(g) => ipv6_groups(s@) == Some(g@) && g@.len() == 8,
            None => ipv6_groups(s@) is None,
        },
{
    // The length of a `Vec` fits in a `usize`: this bounds the indices below.
    let _len: usize = s.len();
    match find_pair_from(s, 0, ':', ':') {
        None => match groups_in(s, true) {
            Some(g) => if g.len() == 8 {
                Some(g)
            } else {
                None
            },
            None => None,
        },
        Some(k) => {
            let head = copy_range(s, 0, k);
            let tail = copy_range(s, k + 2, s.len());
            match (groups_in(&head, false), groups_in(&tail, true)) {
                (Some(h), Some(t)) => {
                    if h.len() <= 7 && t.len() <= 7 - h.len() {
                        let mut g = h;
                        let zeros = 8 - g.len() - t.len();
                        let mut z: usize = 0;
                        let ghost hv = g@;
                        while z < zeros
                            invariant
                                z <= zeros,
                                g@ == hv + zero_groups(z as nat),
                            decreases zeros - z,
                        {
                            g.push(0u16);
                            assert(g@ =~= hv + zero_groups((z + 1) as nat));
                            z = z + 1;
                        }
                        let mut t = t;
                        g.append(&mut t);
                        Some(g)
                    } else {
                        None
                    }
                },
                _ => None,
            }
        },
    }
}

pub open spec fn hex_char(d: int) -> char {
    if d < 10 {
        digit_char(d)
    } else {
        ((d - 10 + 97) as u8) as char
    }
}

/// The shortest lower-case hexadecimal text of `n`.
pub open spec fn hex_text(n: nat) -> Seq<char>
    decreases n,
{
    if n < 16 {
        seq![hex_char(n as int)]
    } else {
        hex_text(n / 16) + seq![hex_char((n % 16) as int)]
    }
}

/// Groups in hexadecimal, separated by colons.
pub open spec fn joined(g: Seq<u16>) -> Seq<char>
    decreases g.len(),
{
    if g.len() == 0 {
        Seq::empty()
    } else if g.len() == 1 {
        hex_text(g[0] as nat)
    } else {
        joined(g.drop_last()) + seq![':'] + hex_text(g.last() as nat)
    }
}

/// The number of zero groups from `i` on.
pub open spec fn zero_run(g: Seq<u16>, i: int) -> nat
    decreases g.len() - i,
{
    if 0 <= i < g.len() && g[i] == 0 {
        1 + zero_run(g, i + 1)
    } else {
        0
    }
}

/// The start and length of the first longest run of zero groups at or after `i`.
pub open spec fn longest_zero_run(g: Seq<u16>, i: int) -> (int, nat)
    decreases g.len() - i,
{
    if i < 0 || i >= g.len() {
        (g.len() as int, 0)
    } else {
        let (bs, bl) = longest_zero_run(g, i + 1);
        let l = zero_run(g, i);
        if l >= bl {
            (i, l)
        } else {
            (bs, bl)
        }
    }
}

/// An IPv4 address mapped into IPv6: five zero groups, then `ffff`.
pub open spec fn is_ipv4_mapped(g: Seq<u16>) -> bool {
    g.len() == 8 && g[0] == 0 && g[1] == 0 && g[2] == 0 && g[3] == 0 && g[4] == 0 && g[5] == 0xffff
}

/// The IPv4 address in the last two groups.
pub open spec fn mapped_ipv4(g: Seq<u16>) -> Address {
    Address::V4((g[6] / 256) as u8, (g[6] % 256) as u8, (g[7] / 256) as u8, (g[7] % 256) as u8)
}

pub open spec fn mapped_prefix() -> Seq<char> {
    seq![':', ':', 'f', 'f', 'f', 'f', ':']
}

/// The text of an IPv6 address: an IPv4-mapped one as `::ffff:` and the
/// dotted IPv4 address; any other as its groups in lower-case hexadecimal,
/// with the first longest run of two or more zero groups written as `::`.
pub open spec fn ipv6_text(g: Seq<u16>) -> Seq<char> {
    let (start, len) = longest_zero_run(g, 0);
    if is_ipv4_mapped(g) {
        mapped_prefix() + ipv4_text(
            (g[6] / 256) as u8,
            (g[6] % 256) as u8,
            (g[7] / 256) as u8,
            (g[7] % 256) as u8,
        )
    } else if len < 2 {
        joined(g)
    } else {
        joined(g.subrange(0, start)) + seq![':', ':'] + joined(g.subrange(start + len, g.len() as int))
    }
}

fn hex_chars(n: u16) -> (r: Vec<char>)
    ensures
        r@ == hex_text(n as nat),
    decreases n,
{
    let d: u8 = (n % 16) as u8;
    let c: char = if d < 10 {
        (d + 48u8) as char
    } else {
        (d - 10 + 97u8) as char
    };
    if n < 16 {
        let mut v: Vec<char> = Vec::new();
        v.push(c);
        assert(v@ =~= hex_text(n as nat));
        v
    } else {
        let mut v = hex_chars(n / 16);
        v.push(c);
        assert(v@ =~= hex_text(n as nat));
        v
    }
}

fn joined_chars(g: &Vec<u16>, lo: usize, hi: usize) -> (r: Vec<char>)
    requires
        lo <= hi <= g@.len(),
    ensures
        r@ == joined(g@.subrange(lo as int, hi as int)),
{
    let mut out: Vec<char> = Vec::new();
    let mut i: usize = lo;
    assert(g@.subrange(lo as int, lo as int) =~= Seq::<u16>::empty());
    while i < hi
        invariant
            lo <= i <= hi <= g@.len(),
            out@ == joined(g@.subrange(lo as int, i as int)),
        decreases hi - i,
    {
        let ghost p = g@.subrange(lo as int, i + 1);
        assert(p.drop_last() =~= g@.subrange(lo as int, i as int));
        if i > lo {
            out.push(':');
        }
        let mut h = hex_chars(g[i]);
        out.append(&mut h);
        proof {
            if i == lo {
                assert(out@ =~= joined(p));
            } else {
                assert(out@ =~= joined(p));
            }
        }
        i = i + 1;
    }
    out
}

/// The text of an IPv6 address given by its groups.
pub fn ipv6_chars(g: &Vec<u16>) -> (r: Vec<char>)
    ensures
        r@ == ipv6_text(g@),
{
    let n = g.len();
    if n == 8 && g[0] == 0 && g[1] == 0 && g[2] == 0 && g[3] == 0 && g[4] == 0 && g[5] == 0xffff {
        let mut out: Vec<char> = Vec::new();
        out.push(':');
        out.push(':');
        out.push('f');
        out.push('f');
        out.push('f');
        out.push('f');
        out.push(':');
        assert(out@ =~= mapped_prefix());
        let mut v = ipv4_chars((g[6] / 256) as u8, (g[6] % 256) as u8, (g[7] / 256) as u8, (g[7] % 256) as u8);
        out.append(&mut v);
        return out;
    }
    let mut best_start: usize = n;
    let mut best_len: usize = 0;
    let mut i: usize = n;
    let mut run: usize = 0;
    while i > 0
        invariant
            i <= n == g@.len(),
            run == zero_run(g@, i as int),
            longest_zero_run(g@, i as int) == (best_start as int, best_len as nat),
            run <= n - i,
            best_start + best_len <= n,
        decreases i,
    {
        i = i - 1;
        if g[i] == 0 {
            run = run + 1;
        } else {
            run = 0;
        }
        if run >= best_len {
            best_start = i;
            best_len = run;
        }
    }
    if best_len < 2 {
        assert(g@.subrange(0, n as int) =~= g@);
        joined_chars(g, 0, n)
    } else {
        let mut out = joined_chars(g, 0, best_start);
        out.push(':');
        out.push(':');
        let mut rest = joined_chars(g, best_start + best_len, n);
        out.append(&mut rest);
        out
    }
}

proof fn lemma_hex_char(d: int)
    requires
        0 <= d < 16,
    ensures
        is_hex(hex_char(d)),
        hex_value(hex_char(d)) == d,
{
}

proof fn lemma_hex_text(n: nat)
    ensures
        hex_text(n).len() >= 1,
        forall|k: int| 0 <= k < hex_text(n).len() ==> is_hex(#[trigger] hex_text(n)[k]),
        hex_digits_value(hex_text(n)) == n,
        n < 16 ==> hex_text(n).len() == 1,
        n < 256 ==> hex_text(n).len() <= 2,
        n < 4096 ==> hex_text(n).len() <= 3,
        n < 65536 ==> hex_text(n).len() <= 4,
    decreases n,
{
    let t = hex_text(n);
    if n < 16 {
        lemma_hex_char(n as int);
        assert(t.drop_last() =~= Seq::<char>::empty());
        assert(hex_digits_value(t.drop_last()) == 0);
    } else {
        let q = n / 16;
        let r = (n % 16) as int;
        lemma_hex_text(q);
        lemma_hex_char(r);
        assert(t.drop_last() =~= hex_text(q));
        assert(t.last() == hex_char(r));
        assert(q * 16 + r == n) by (nonlinear_arith)
            requires
                q == n / 16,
                r == n % 16,
        ;
        assert forall|k: int| 0 <= k < t.len() implies is_hex(#[trigger] t[k]) by {
            if k < hex_text(q).len() {
                assert(t[k] == hex_text(q)[k]);
            }
        }
    }
}

proof fn lemma_hex_run_end_exact(s: Seq<char>, i: int, j: int)
    requires
        0 <= i <= j <= s.len(),
        forall|k: int| i <= k < j ==> is_hex(#[trigger] s[k]),
        j == s.len() || !is_hex(s[j]),
    ensures
        hex_run_end(s, i) == j,
    decreases j - i,
{
    if i < j {
        lemma_hex_run_end_exact(s, i + 1, j);
    }
}

proof fn lemma_joined_front(x: Seq<u16>)
    requires
        x.len() >= 2,
    ensures
        joined(x) == hex_text(x[0] as nat) + seq![':'] + joined(x.drop_first()),
    decreases x.len(),
{
    let y = x.drop_last();
    let z = x.drop_first();
    assert(y[0] == x[0]);
    assert(z.last() == x.last());
    if x.len() == 2 {
        assert(joined(y) == hex_text(x[0] as nat));
        assert(z[0] == x[1]);
        assert(joined(z) == hex_text(x[1] as nat));
    } else {
        lemma_joined_front(y);
        assert(y.drop_first() =~= z.drop_last());
        assert(joined(z) == joined(z.drop_last()) + seq![':'] + hex_text(z.last() as nat));
        assert(joined(x) =~= hex_text(x[0] as nat) + seq![':'] + joined(z));
    }
}

/// Joined groups start and end with a digit, and hold no two colons in a row.
proof fn lemma_joined_shape(x: Seq<u16>)
    ensures
        ({
            let j = joined(x);
            &&& x.len() > 0 ==> j.len() > 0 && is_hex(j[0]) && is_hex(j.last())
            &&& forall|k: int| 0 <= k < j.len() ==> #[trigger] j[k] == ':' || is_hex(j[k])
            &&& forall|k: int| 0 <= k < j.len() - 1 ==> !(#[trigger] j[k] == ':' && j[k + 1] == ':')
        }),
    decreases x.len(),
{
    let j = joined(x);
    if x.len() == 1 {
        lemma_hex_text(x[0] as nat);
        assert forall|k: int| 0 <= k < j.len() - 1 implies !(#[trigger] j[k] == ':' && j[k + 1] == ':') by {
            assert(is_hex(j[k]));
        }
        assert forall|k: int| 0 <= k < j.len() implies #[trigger] j[k] == ':' || is_hex(j[k]) by {
            assert(is_hex(j[k]));
        }
    } else if x.len() > 1 {
        let y = x.drop_last();
        let jy = joined(y);
        let h = hex_text(x.last() as nat);
        lemma_joined_shape(y);
        lemma_hex_text(x.last() as nat);
        assert(j == jy + seq![':'] + h);
        assert(j[0] == jy[0]);
        assert(j.last() == h.last());
        assert(is_hex(h[h.len() - 1]));
        assert forall|k: int| 0 <= k < j.len() - 1 implies !(#[trigger] j[k] == ':' && j[k + 1] == ':') by {
            if k < jy.len() - 1 {
                assert(j[k] == jy[k] && j[k + 1] == jy[k + 1]);
            } else if k == jy.len() - 1 {
                assert(j[k] == jy.last());
            } else {
                assert(j[k + 1] == h[k + 1 - jy.len() - 1]);
                assert(is_hex(h[k + 1 - jy.len() - 1]));
            }
        }
        assert forall|k: int| 0 <= k < j.len() implies #[trigger] j[k] == ':' || is_hex(j[k]) by {
            if k < jy.len() {
                assert(j[k] == jy[k]);
            } else if k > jy.len() {
                assert(j[k] == h[k - jy.len() - 1]);
            }
        }
    }
}

proof fn lemma_groups_from_joined(s: Seq<char>, i: int, x: Seq<u16>, v4: bool)
    requires
        0 <= i <= s.len(),
        x.len() >= 1,
        s.subrange(i, s.len() as int) == joined(x),
    ensures
        groups_from(s, i, v4) == Some(x),
    decreases x.len(),
{
    lemma_joined_shape(x);
    assert forall|k: int| 0 <= k < joined(x).len() implies #[trigger] joined(x)[k] != '.' by {
        assert(joined(x)[k] == ':' || is_hex(joined(x)[k]));
    }
    lemma_not_ipv4(joined(x));
    let h = hex_text(x[0] as nat);
    lemma_hex_text(x[0] as nat);
    let e = i + h.len();
    if x.len() == 1 {
        assert forall|k: int| i <= k < e implies is_hex(#[trigger] s[k]) by {
            assert(s[k] == s.subrange(i, s.len() as int)[k - i]);
        }
        lemma_hex_run_end_exact(s, i, e);
        assert(s.subrange(i, e) =~= h);
        assert(seq![x[0]] =~= x);
    } else {
        lemma_joined_front(x);
        let rest = x.drop_first();
        let j = joined(x);
        assert(j.len() == h.len() + 1 + joined(rest).len());
        assert(j[h.len() as int] == ':');
        assert(s.subrange(i, s.len() as int).len() == s.len() - i);
        assert(e < s.len());
        assert(s[e] == s.subrange(i, s.len() as int)[e - i]);
        assert(s[e] == ':');
        assert forall|k: int| i <= k < e implies is_hex(#[trigger] s[k]) by {
            assert(s[k] == s.subrange(i, s.len() as int)[k - i]);
        }
        lemma_hex_run_end_exact(s, i, e);
        assert(s.subrange(i, e) =~= h);
        let jr = joined(rest);
        assert(j == h + seq![':'] + jr);
        assert forall|k: int| 0 <= k < jr.len() implies #[trigger] s.subrange(
            e + 1,
            s.len() as int,
        )[k] == jr[k] by {
            assert(s.subrange(e + 1, s.len() as int)[k] == s[e + 1 + k]);
            assert(s[e + 1 + k] == s.subrange(i, s.len() as int)[e + 1 + k - i]);
            assert(j[h.len() + 1 + k] == jr[k]);
        }
        assert(s.subrange(e + 1, s.len() as int) =~= jr);
        lemma_groups_from_joined(s, e + 1, rest, v4);
        assert(seq![x[0]] + rest =~= x);
    }
}

proof fn lemma_groups_of_joined(x: Seq<u16>, v4: bool)
    ensures
        groups_of(joined(x), v4) == Some(x),
{
    if x.len() == 0 {
        assert(x =~= Seq::<u16>::empty());
    } else {
        lemma_joined_shape(x);
        let j = joined(x);
        assert(j.subrange(0, j.len() as int) =~= j);
        lemma_groups_from_joined(j, 0, x, v4);
    }
}

proof fn lemma_find_pair_at(s: Seq<char>, i: int, m: int)
    requires
        0 <= i <= m,
        m + 1 < s.len(),
        s[m] == ':' && s[m + 1] == ':',
        forall|k: int| i <= k < m ==> !(#[trigger] s[k] == ':' && s[k + 1] == ':'),
    ensures
        find_pair(s, i, ':', ':') == Some(m),
    decreases m - i,
{
    if i < m {
        lemma_find_pair_at(s, i + 1, m);
    }
}

proof fn lemma_find_pair_none(s: Seq<char>, i: int)
    requires
        0 <= i,
        forall|k: int| i <= k < s.len() - 1 ==> !(#[trigger] s[k] == ':' && s[k + 1] == ':'),
    ensures
        find_pair(s, i, ':', ':') is None,
    decreases s.len() - i,
{
    if i + 1 < s.len() {
        lemma_find_pair_none(s, i + 1);
    }
}

proof fn lemma_zero_run(g: Seq<u16>, i: int)
    requires
        0 <= i <= g.len(),
    ensures
        i + zero_run(g, i) <= g.len(),
        forall|k: int| i <= k < i + zero_run(g, i) ==> g[k] == 0,
    decreases g.len() - i,
{
    if i < g.len() && g[i] == 0 {
        lemma_zero_run(g, i + 1);
    }
}

proof fn lemma_longest_zero_run(g: Seq<u16>, i: int)
    requires
        0 <= i <= g.len(),
    ensures
        ({
            let (bs, bl) = longest_zero_run(g, i);
            bl > 0 ==> 0 <= bs < g.len() && bl == zero_run(g, bs)
        }),
    decreases g.len() - i,
{
    if i < g.len() {
        lemma_longest_zero_run(g, i + 1);
    }
}

proof fn lemma_ipv4_round_trip_mapped(g: Seq<u16>)
    requires
        is_ipv4_mapped(g),
    ensures
        ipv6_groups(ipv6_text(g)) == Some(g),
        ipv6_text(g)[0] == ':',
{
    let s = ipv6_text(g);
    let v = address_text(mapped_ipv4(g));
    let o0 = (g[6] / 256) as u8;
    let o1 = (g[6] % 256) as u8;
    let o2 = (g[7] / 256) as u8;
    let o3 = (g[7] % 256) as u8;
    assert(mapped_ipv4(g) == Address::V4(o0, o1, o2, o3));
    lemma_ipv4_round_trip(mapped_ipv4(g));
    lemma_ipv4_text_chars(o0, o1, o2, o3);
    assert(s == mapped_prefix() + v);
    assert(s[0] == ':' && s[1] == ':');
    lemma_find_pair_at(s, 0, 0);
    assert(s.subrange(0, 0) =~= Seq::<char>::empty());
    let tail = s.subrange(2, s.len() as int);
    assert(tail =~= seq!['f', 'f', 'f', 'f', ':'] + v);
    assert(tail[0] == 'f');
    lemma_not_ipv4(tail);
    lemma_hex_run_end_exact(tail, 0, 4);
    assert(tail.subrange(0, 4) =~= seq!['f', 'f', 'f', 'f']);
    assert(hex_digits_value(seq!['f', 'f', 'f', 'f']) == 0xffff) by {
        reveal_with_fuel(hex_digits_value, 5);
        assert(seq!['f', 'f', 'f', 'f'].drop_last() =~= seq!['f', 'f', 'f']);
        assert(seq!['f', 'f', 'f'].drop_last() =~= seq!['f', 'f']);
        assert(seq!['f', 'f'].drop_last() =~= seq!['f']);
        assert(seq!['f'].drop_last() =~= Seq::<char>::empty());
    }
    assert(tail.subrange(5, tail.len() as int) =~= v);
    assert(ipv4_of_text(v) == Some(mapped_ipv4(g)));
    assert((o0 as int * 256 + o1 as int) as u16 == g[6] && (o2 as int * 256 + o3 as int) as u16 == g[7]) by {
        assert(g[6] / 256 * 256 + g[6] % 256 == g[6]);
        assert(g[7] / 256 * 256 + g[7] % 256 == g[7]);
    }
    assert(groups_from(tail, 5, true) == Some(seq![g[6], g[7]]));
    assert(tail.subrange(0, tail.len() as int) =~= tail);
    assert(tail[4] == ':');
    assert(groups_from(tail, 0, true) == Some(seq![0xffffu16] + seq![g[6], g[7]]));
    assert(seq![0xffffu16] + seq![g[6], g[7]] =~= seq![0xffffu16, g[6], g[7]]);
    assert(zero_groups(5) + seq![0xffffu16, g[6], g[7]] =~= g);
}

proof fn lemma_round_trip_plain(g: Seq<u16>)
    requires
        g.len() == 8,
        !is_ipv4_mapped(g),
        longest_zero_run(g, 0).1 < 2,
    ensures
        ipv6_groups(ipv6_text(g)) == Some(g),
        exists|k: int| 0 <= k < ipv6_text(g).len() && ipv6_text(g)[k] == ':',
{
    let s = ipv6_text(g);
    assert(s == joined(g));
    lemma_joined_shape(g);
    lemma_find_pair_none(s, 0);
    lemma_groups_of_joined(g, true);
    lemma_joined_front(g);
    lemma_hex_text(g[0] as nat);
    let k = hex_text(g[0] as nat).len() as int;
    assert(s[k] == ':');
}

proof fn lemma_round_trip_compressed(g: Seq<u16>)
    requires
        g.len() == 8,
        !is_ipv4_mapped(g),
        longest_zero_run(g, 0).1 >= 2,
    ensures
        ipv6_groups(ipv6_text(g)) == Some(g),
        exists|k: int| 0 <= k < ipv6_text(g).len() && ipv6_text(g)[k] == ':',
{
    let (start, len) = longest_zero_run(g, 0);
    lemma_longest_zero_run(g, 0);
    let s = ipv6_text(g);
    lemma_zero_run(g, start);
    let h = g.subrange(0, start);
    let t = g.subrange(start + len, 8);
    let jh = joined(h);
    let jt = joined(t);
    assert(s == jh + seq![':', ':'] + jt);
    lemma_joined_shape(h);
    assert forall|k: int| 0 <= k < jh.len() implies !(#[trigger] s[k] == ':' && s[k + 1] == ':') by {
        assert(s[k] == jh[k]);
        if k < jh.len() - 1 {
            assert(s[k + 1] == jh[k + 1]);
        } else {
            assert(jh[k] == jh.last());
        }
    }
    lemma_find_pair_at(s, 0, jh.len() as int);
    assert(s.subrange(0, jh.len() as int) =~= jh);
    assert(s.subrange(jh.len() + 2int, s.len() as int) =~= jt);
    lemma_groups_of_joined(h, false);
    lemma_groups_of_joined(t, true);
    assert(h + zero_groups((8 - h.len() - t.len()) as nat) + t =~= g);
    assert(s[jh.len() as int] == ':');
}

/// The text of an IPv6 address is made of hexadecimal digits, colons and
/// dots, and is not empty.
pub proof fn lemma_ipv6_text_chars(g: Seq<u16>)
    requires
        g.len() == 8,
    ensures
        ipv6_text(g).len() > 0,
        forall|k: int|
            0 <= k < ipv6_text(g).len() ==> is_hex(#[trigger] ipv6_text(g)[k]) || ipv6_text(g)[k]
                == ':' || ipv6_text(g)[k] == '.',
{
    let t = ipv6_text(g);
    let (start, len) = longest_zero_run(g, 0);
    if is_ipv4_mapped(g) {
        let o0 = (g[6] / 256) as u8;
        let o1 = (g[6] % 256) as u8;
        let o2 = (g[7] / 256) as u8;
        let o3 = (g[7] % 256) as u8;
        lemma_ipv4_text_chars(o0, o1, o2, o3);
        let v = address_text(Address::V4(o0, o1, o2, o3));
        assert(t == mapped_prefix() + v);
        assert forall|k: int| 0 <= k < t.len() implies is_hex(#[trigger] t[k]) || t[k] == ':' || t[k] == '.' by {
            if k >= 7 {
                assert(t[k] == v[k - 7]);
            }
        }
    } else if len < 2 {
        lemma_joined_shape(g);
    } else {
        lemma_longest_zero_run(g, 0);
        lemma_zero_run(g, start);
        let h = g.subrange(0, start);
        let tl = g.subrange(start + len, 8);
        lemma_joined_shape(h);
        lemma_joined_shape(tl);
        let jh = joined(h);
        let jt = joined(tl);
        assert(t == jh + seq![':', ':'] + jt);
        assert forall|k: int| 0 <= k < t.len() implies is_hex(#[trigger] t[k]) || t[k] == ':' || t[k] == '.' by {
            if k < jh.len() {
                assert(t[k] == jh[k]);
            } else if k >= jh.len() + 2 {
                assert(t[k] == jt[k - jh.len() - 2]);
            }
        }
    }
}

/// The text of an IPv6 address reads back as its groups.
pub proof fn lemma_ipv6_round_trip(g: Seq<u16>)
    requires
        g.len() == 8,
    ensures
        ipv6_groups(ipv6_text(g)) == Some(g),
        exists|k: int| 0 <= k < ipv6_text(g).len() && ipv6_text(g)[k] == ':',
{
    if is_ipv4_mapped(g) {
        lemma_ipv4_round_trip_mapped(g);
    } else if longest_zero_run(g, 0).1 < 2 {
        lemma_round_trip_plain(g);
    } else {
        lemma_round_trip_compressed(g);
    }
}

} // verus!
