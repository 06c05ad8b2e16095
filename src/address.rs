//! Network addresses as they appear in a sweep report.
use vstd::prelude::*;
use crate::ipv6::{
    is_hex, ipv6_chars, ipv6_groups, ipv6_text, lemma_ipv6_round_trip, lemma_ipv6_text_chars,
    parse_ipv6,
};
use crate::digits::{
    canonical_digits, decimal, decimal_chars, digit_run_end, digits_to_u64,
    digits_value, is_digit, lemma_canonical, lemma_decimal, lemma_run_end_exact, scan_digits,
};

verus! {

/// An IP address: IPv4 by its four octets, IPv6 by its eight groups.
#[derive(Debug, Clone, Copy, PartialEq, Eq, Hash)]
pub enum Address {
    V4(u8, u8, u8, u8),
    V6([u16; 8]),
}

/// The dotted-decimal text of an IPv4 address.
pub open spec fn ipv4_text(a0: u8, a1: u8, a2: u8, a3: u8) -> Seq<char> {
    decimal(a0 as nat) + seq!['.'] + decimal(a1 as nat) + seq!['.'] + decimal(a2 as nat) + seq![
        '.',
    ] + decimal(a3 as nat)
}

/// The text of an address: dotted decimal for IPv4, compressed hexadecimal
/// groups for IPv6.
pub open spec fn address_text(a: Address) -> Seq<char> {
    match a {
        Address::V4(a0, a1, a2, a3) => ipv4_text(a0, a1, a2, a3),
        Address::V6(g) => ipv6_text(g@),
    }
}

/// The array of eight groups whose view is `g`.
pub open spec fn groups_array(g: Seq<u16>) -> [u16; 8] {
    choose|a: [u16; 8]| a@ == g
}

/// The IPv4 address whose dotted-decimal text is `s`, if there is one.
pub open spec fn ipv4_of_text(s: Seq<char>) -> Option<Address> {
    if exists|a: Address| a is V4 && address_text(a) == s {
        Some(choose|a: Address| a is V4 && address_text(a) == s)
    } else {
        None
    }
}

/// The address that `s` spells: an IPv4 address in dotted decimal, else an
/// IPv6 address.
pub open spec fn address_of_text(s: Seq<char>) -> Option<Address> {
    match ipv4_of_text(s) {
        Some(a) => Some(a),
        None => match ipv6_groups(s) {
            Some(g) => Some(Address::V6(groups_array(g))),
            None => None,
        },
    }
}

/// The octet written at `i`: a canonical run of at most three digits worth at
/// most 255, with the index just past it.
pub open spec fn octet_at(s: Seq<char>, i: int) -> Option<(nat, int)> {
    let j = digit_run_end(s, i);
    let t = s.subrange(i, j);
    if 0 <= i <= s.len() && canonical_digits(t) && digits_value(t) <= 255 {
        Some((digits_value(t), j))
    } else {
        None
    }
}

/// An octet at `i`, then a dot (or, for the last one, the end of the text).
pub open spec fn field_at(s: Seq<char>, i: int, last: bool) -> Option<(nat, int)> {
    match octet_at(s, i) {
        Some((v, j)) => if last {
            if j == s.len() {
                Some((v, j))
            } else {
                None
            }
        } else if j < s.len() && s[j] == '.' {
            Some((v, j + 1))
        } else {
            None
        },
        None => None,
    }
}

proof fn lemma_octet_of_text(s: Seq<char>, i: int, n: nat)
    requires
        n <= 255,
        0 <= i,
        i + decimal(n).len() <= s.len(),
        s.subrange(i, i + decimal(n).len()) == decimal(n),
        i + decimal(n).len() == s.len() || s[i + decimal(n).len()] == '.',
    ensures
        octet_at(s, i) == Some((n, i + decimal(n).len())),
{
    lemma_decimal(n);
    lemma_run_end_exact(s, i, i + decimal(n).len());
}

/// The text of an address reads back, field by field, as that address.
proof fn lemma_text_fields(a0: u8, a1: u8, a2: u8, a3: u8)
    ensures
        ({
            let s = address_text(Address::V4(a0, a1, a2, a3));
            let at1 = decimal(a0 as nat).len() + 1int;
            let at2 = at1 + decimal(a1 as nat).len() + 1int;
            let at3 = at2 + decimal(a2 as nat).len() + 1int;
            &&& field_at(s, 0, false) == Some((a0 as nat, at1))
            &&& field_at(s, at1, false) == Some((a1 as nat, at2))
            &&& field_at(s, at2, false) == Some((a2 as nat, at3))
            &&& field_at(s, at3, true) == Some((a3 as nat, s.len() as int))
        }),
{
    let s = address_text(Address::V4(a0, a1, a2, a3));
    let d0 = decimal(a0 as nat);
    let d1 = decimal(a1 as nat);
    let d2 = decimal(a2 as nat);
    let d3 = decimal(a3 as nat);
    let at1 = d0.len() + 1int;
    let at2 = at1 + d1.len() + 1int;
    let at3 = at2 + d2.len() + 1int;
    assert(s.subrange(0, d0.len() as int) =~= d0);
    assert(s.subrange(at1, at1 + d1.len()) =~= d1);
    assert(s.subrange(at2, at2 + d2.len()) =~= d2);
    assert(s.subrange(at3, at3 + d3.len()) =~= d3);
    assert(s[at1 - 1] == '.');
    assert(s[at2 - 1] == '.');
    assert(s[at3 - 1] == '.');
    lemma_octet_of_text(s, 0, a0 as nat);
    lemma_octet_of_text(s, at1, a1 as nat);
    lemma_octet_of_text(s, at2, a2 as nat);
    lemma_octet_of_text(s, at3, a3 as nat);
}

/// Two IPv4 addresses with the same text are the same address.
pub proof fn lemma_ipv4_text_injective(a: Address, b: Address)
    requires
        a is V4,
        b is V4,
        address_text(a) == address_text(b),
    ensures
        a == b,
{
    if let (Address::V4(a0, a1, a2, a3), Address::V4(b0, b1, b2, b3)) = (a, b) {
        lemma_text_fields(a0, a1, a2, a3);
        lemma_text_fields(b0, b1, b2, b3);
    }
}

/// Reading the text of an IPv4 address gives that address back.
pub proof fn lemma_ipv4_round_trip(a: Address)
    requires
        a is V4,
    ensures
        address_of_text(address_text(a)) == Some(a),
{
    let c = choose|b: Address| b is V4 && address_text(b) == address_text(a);
    lemma_ipv4_text_injective(a, c);
}

fn octet(s: &Vec<char>, i: usize) -> (r: Option<(u8, usize)>)
    requires
        i <= s@.len(),
    ensures
        match r {
            Some((v, j)) => octet_at(s@, i as int) == Some((v as nat, j as int)) && s@.subrange(
                i as int,
                j as int,
            ) == decimal(v as nat) && i < j <= s@.len(),
            None => octet_at(s@, i as int) is None,
        },
{
    let j = scan_digits(s, i);
    let ghost t = s@.subrange(i as int, j as int);
    proof {
        if canonical_digits(t) {
            lemma_canonical(t);
            lemma_decimal(digits_value(t));
        }
        if j > i {
            assert(t[0] == s@[i as int]);
        }
    }
    if j == i || j - i > 3 || (j - i > 1 && s[i] == '0') {
        return None;
    }
    match digits_to_u64(s, i, j) {
        Some(v) => {
            if v > 255 {
                None
            } else {
                proof {
                    lemma_canonical(t);
                }
                Some((v as u8, j))
            }
        },
        None => None,
    }
}

fn field(s: &Vec<char>, i: usize, last: bool) -> (r: Option<(u8, usize)>)
    requires
        i <= s@.len(),
    ensures
        match r {
            Some((v, j)) => field_at(s@, i as int, last) == Some((v as nat, j as int)) && i < j
                <= s@.len() && s@.subrange(i as int, (if last { j } else { (j - 1) as usize }) as int)
                == decimal(v as nat) && (!last ==> s@[j - 1] == '.'),
            None => field_at(s@, i as int, last) is None,
        },
{
    match octet(s, i) {
        Some((v, j)) => {
            proof {
                lemma_decimal(v as nat);
            }
            if last {
                if j == s.len() {
                    Some((v, j))
                } else {
                    None
                }
            } else if j < s.len() && s[j] == '.' {
                Some((v, j + 1))
            } else {
                None
            }
        },
        None => None,
    }
}

proof fn lemma_fields_text(s: Seq<char>, a0: u8, a1: u8, a2: u8, a3: u8, at1: int, at2: int, at3: int)
    requires
        ({
            &&& 0 < at1 < at2 < at3 <= s.len()
            &&& s.subrange(0, at1 - 1) == decimal(a0 as nat)
            &&& s.subrange(at1, at2 - 1) == decimal(a1 as nat)
            &&& s.subrange(at2, at3 - 1) == decimal(a2 as nat)
            &&& s.subrange(at3, s.len() as int) == decimal(a3 as nat)
            &&& s[at1 - 1] == '.' && s[at2 - 1] == '.' && s[at3 - 1] == '.'
        }),
    ensures
        s == address_text(Address::V4(a0, a1, a2, a3)),
{
    assert(s =~= s.subrange(0, at1 - 1) + seq!['.'] + s.subrange(at1, at2 - 1) + seq!['.']
        + s.subrange(at2, at3 - 1) + seq!['.'] + s.subrange(at3, s.len() as int));
}

/// Reads a whole text as an address.
pub fn parse_address(t: &Vec<char>) -> (r: Option<Address>)
    ensures
        r == address_of_text(t@),
{
    match parse_ipv4(t) {
        Some(a) => Some(a),
        None => match parse_ipv6(t) {
            Some(g) => {
                let a: [u16; 8] = [g[0], g[1], g[2], g[3], g[4], g[5], g[6], g[7]];
                assert(a@ =~= g@);
                proof {
                    broadcast use vstd::array::group_array_axioms;

                    assert(exists|c: [u16; 8]| c@ == g@) by {
                        assert(a@ == g@);
                    }
                    let c = groups_array(g@);
                    assert(forall|i: int| 0 <= i < 8 ==> c[i] == c@[i] && a[i] == a@[i]);
                    assert(c =~= a);
                }
                Some(Address::V6(a))
            },
            None => None,
        },
    }
}

/// Reads a whole text as a dotted-decimal address.
pub(crate) fn parse_ipv4(t: &Vec<char>) -> (r: Option<Address>)
    ensures
        r == ipv4_of_text(t@),
{
    let ghost s = t@;
    let ghost none = forall|a: Address| a is V4 ==> address_text(a) != s;
    if let Some((a0, at1)) = field(t, 0, false) {
        if let Some((a1, at2)) = field(t, at1, false) {
            if let Some((a2, at3)) = field(t, at2, false) {
                if let Some((a3, e)) = field(t, at3, true) {
                    let a = Address::V4(a0, a1, a2, a3);
                    proof {
                        lemma_fields_text(s, a0, a1, a2, a3, at1 as int, at2 as int, at3 as int);
                        lemma_ipv4_round_trip(a);
                    }
                    return Some(a);
                }
            }
        }
    }
    assert(none) by {
        assert forall|a: Address| a is V4 implies address_text(a) != s by {
            if let Address::V4(a0, a1, a2, a3) = a {
                lemma_text_fields(a0, a1, a2, a3);
            }
        }
    }
    None
}

/// The dotted-decimal text of an IPv4 address.
pub(crate) fn ipv4_chars(a0: u8, a1: u8, a2: u8, a3: u8) -> (r: Vec<char>)
    ensures
        r@ == address_text(Address::V4(a0, a1, a2, a3)),
{
    let mut v = decimal_chars(a0 as u64);
    v.push('.');
    let mut w = decimal_chars(a1 as u64);
    v.append(&mut w);
    v.push('.');
    let mut w = decimal_chars(a2 as u64);
    v.append(&mut w);
    v.push('.');
    let mut w = decimal_chars(a3 as u64);
    v.append(&mut w);
    assert(v@ =~= address_text(Address::V4(a0, a1, a2, a3)));
    v
}

/// The text of an address.
pub fn address_chars(a: &Address) -> (r: Vec<char>)
    ensures
        r@ == address_text(*a),
{
    match a {
        Address::V4(a0, a1, a2, a3) => ipv4_chars(*a0, *a1, *a2, *a3),
        Address::V6(g) => {
            let mut groups: Vec<u16> = Vec::new();
            let mut i: usize = 0;
            while i < 8
                invariant
                    i <= 8,
                    groups@ == g@.subrange(0, i as int),
                decreases 8 - i,
            {
                groups.push(g[i]);
                assert(groups@ =~= g@.subrange(0, i + 1));
                i = i + 1;
            }
            assert(g@.subrange(0, 8) =~= g@);
            ipv6_chars(&groups)
        },
    }
}

/// The text of an IPv4 address is made of digits and dots; it starts with
/// a digit and has a dot after the first octet.
pub proof fn lemma_ipv4_text_chars(a0: u8, a1: u8, a2: u8, a3: u8)
    ensures
        ({
            let t = address_text(Address::V4(a0, a1, a2, a3));
            &&& forall|k: int| 0 <= k < t.len() ==> is_digit(#[trigger] t[k]) || t[k] == '.'
            &&& is_digit(t[0])
            &&& t[decimal(a0 as nat).len() as int] == '.'
        }),
{
    lemma_decimal(a0 as nat);
    lemma_decimal(a1 as nat);
    lemma_decimal(a2 as nat);
    lemma_decimal(a3 as nat);
    let d0 = decimal(a0 as nat);
    let d1 = decimal(a1 as nat);
    let d2 = decimal(a2 as nat);
    let d3 = decimal(a3 as nat);
    let t = address_text(Address::V4(a0, a1, a2, a3));
    assert(t[0] == d0[0]);
    assert forall|k: int| 0 <= k < t.len() implies is_digit(#[trigger] t[k]) || t[k] == '.' by {
        let b1 = d0.len() + 1;
        let b2 = b1 + d1.len() + 1;
        let b3 = b2 + d2.len() + 1;
        if k < d0.len() {
            assert(t[k] == d0[k] && is_digit(d0[k]));
        } else if b1 <= k < b2 - 1 {
            assert(t[k] == d1[k - b1] && is_digit(d1[k - b1]));
        } else if b2 <= k < b3 - 1 {
            assert(t[k] == d2[k - b2] && is_digit(d2[k - b2]));
        } else if b3 <= k {
            assert(t[k] == d3[k - b3] && is_digit(d3[k - b3]));
        }
    }
}

/// A text without a dot, or one that starts with neither a digit nor a dot,
/// spells no IPv4 address.
pub proof fn lemma_not_ipv4(s: Seq<char>)
    requires
        (forall|k: int| 0 <= k < s.len() ==> #[trigger] s[k] != '.') || (s.len() > 0 && !is_digit(
            s[0],
        ) && s[0] != '.'),
    ensures
        ipv4_of_text(s) is None,
{
    if exists|b: Address| b is V4 && address_text(b) == s {
        let b = choose|b: Address| b is V4 && address_text(b) == s;
        if let Address::V4(b0, b1, b2, b3) = b {
            lemma_ipv4_text_chars(b0, b1, b2, b3);
            lemma_decimal(b0 as nat);
            assert(s[decimal(b0 as nat).len() as int] == '.');
        }
    }
}

/// Reading the text of an address gives that address back.
pub proof fn lemma_address_round_trip(a: Address)
    ensures
        address_of_text(address_text(a)) == Some(a),
{
    match a {
        Address::V4(..) => lemma_ipv4_round_trip(a),
        Address::V6(g) => {
            broadcast use vstd::array::group_array_axioms;

            let t = address_text(a);
            lemma_ipv6_round_trip(g@);
            assert(ipv4_of_text(t) is None) by {
                if exists|b: Address| b is V4 && address_text(b) == t {
                    let b = choose|b: Address| b is V4 && address_text(b) == t;
                    if let Address::V4(b0, b1, b2, b3) = b {
                        lemma_ipv4_text_chars(b0, b1, b2, b3);
                        let k = choose|k: int| 0 <= k < t.len() && t[k] == ':';
                        assert(is_digit(t[k]) || t[k] == '.');
                    }
                }
            }
            assert(exists|c: [u16; 8]| c@ == g@);
            let c = groups_array(g@);
            assert(forall|i: int| 0 <= i < 8 ==> c[i] == c@[i] && g[i] == g@[i]);
            assert(c =~= g);
        },
    }
}

/// The text of an address is not empty and is made of hexadecimal digits,
/// colons and dots.
pub proof fn lemma_address_text_chars(a: Address)
    ensures
        address_text(a).len() > 0,
        forall|k: int|
            0 <= k < address_text(a).len() ==> is_hex(#[trigger] address_text(a)[k])
                || address_text(a)[k] == ':' || address_text(a)[k] == '.',
{
    match a {
        Address::V4(a0, a1, a2, a3) => {
            lemma_ipv4_text_chars(a0, a1, a2, a3);
            lemma_decimal(a0 as nat);
        },
        Address::V6(g) => lemma_ipv6_text_chars(g@),
    }
}
} // verus!
