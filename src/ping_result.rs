//! One line of a sweep report, read into a measurement record.
use vstd::prelude::*;
use crate::address::{
    address_of_text, address_text, lemma_address_round_trip, lemma_address_text_chars,
    parse_address, Address,
};
use crate::digits::{decimal, lemma_decimal};
use crate::digits::{
    all_digits, digit_run_end, digits_to_u64, digits_value, is_digit, lemma_digit_run_end,
    lemma_digits_value_bound, lemma_pow10_monotone, lemma_run_end_exact, pow10,
    scan_digits,
};
use crate::ipv6::is_hex;
use crate::text::{chars_of, copy_range, string_of, trimmed, trimmed_range};

verus! {

/// A duration of `mantissa × 10^shift × 10^-exponent` seconds. `shift`
/// counts the low-order digits left out of a mantissa that would not fit.
#[derive(Debug, Clone, Copy, PartialEq, Eq)]
pub struct Seconds {
    pub mantissa: u64,
    pub shift: usize,
    pub exponent: usize,
}

/// The most significant digits that a mantissa keeps.
pub const MANTISSA_DIGITS: usize = 19;

/// The packet counters of a report line.
#[derive(Debug, Clone, Copy, PartialEq, Eq)]
pub enum CountField {
    Sent,
    Received,
    Lost,
}

/// The round trip times of a report line.
#[derive(Debug, Clone, Copy, PartialEq, Eq)]
pub enum LatencyField {
    Minimum,
    Average,
    Maximum,
}

/// Why a report line could not be read.
#[derive(Debug, Clone, PartialEq, Eq)]
pub enum FpingParseError {
    /// The line does not have the shape of a report line.
    MalformedLine,
    /// The address field is not an address.
    InvalidAddress { raw: String },
    /// A counter does not fit in a byte.
    InvalidCount { field: CountField, raw: String },
    /// A round trip time is not a decimal number. The shape of a report line
    /// admits only decimal numbers there, so reading a line never gives this.
    InvalidLatency { field: LatencyField, raw: String },
}

/// What a parse error says, with its texts as character sequences.
pub enum ParseFault {
    MalformedLine,
    InvalidAddress(Seq<char>),
    InvalidCount(CountField, Seq<char>),
    InvalidLatency(LatencyField, Seq<char>),
}

impl View for FpingParseError {
    type V = ParseFault;

    open spec fn view(&self) -> ParseFault {
        match self {
            FpingParseError::MalformedLine => ParseFault::MalformedLine,
            FpingParseError::InvalidAddress { raw } => ParseFault::InvalidAddress(raw@),
            FpingParseError::InvalidCount { field, raw } => ParseFault::InvalidCount(*field, raw@),
            FpingParseError::InvalidLatency { field, raw } => ParseFault::InvalidLatency(
                *field,
                raw@,
            ),
        }
    }
}

/// The measurements of one address in one sweep.
#[derive(Debug, Clone, Copy, PartialEq, Eq)]
pub struct PingResult {
    pub ip_address: Address,
    pub sent: u8,
    pub received: u8,
    pub lost: u8,
    pub minimum: Option<Seconds>,
    pub average: Option<Seconds>,
    pub maxiumum: Option<Seconds>,
}

/// The raw fields of a line of the shape
/// `<address> :<...>= <sent>/<received>/<lost>%[,<...>= <min>/<avg>/<max>]`.
pub struct LineFields {
    pub address: Seq<char>,
    pub sent: Seq<char>,
    pub received: Seq<char>,
    pub lost: Seq<char>,
    pub latency: Option<(Seq<char>, Seq<char>, Seq<char>)>,
}

/// The end of a non-empty run of digits at `i` that `term` follows.
pub open spec fn count_end(s: Seq<char>, i: int, term: char) -> Option<int> {
    let j = digit_run_end(s, i);
    if 0 <= i < j < s.len() && s[j] == term {
        Some(j)
    } else {
        None
    }
}

/// The end of a number `digits[.digits]` that starts at `i`.
pub open spec fn number_end(s: Seq<char>, i: int) -> int {
    let j = digit_run_end(s, i);
    if j < s.len() && s[j] == '.' {
        digit_run_end(s, j + 1)
    } else {
        j
    }
}

/// The end of a non-empty number at `i`, then `/` or (for the last) the end of the line.
pub open spec fn latency_end(s: Seq<char>, i: int, last: bool) -> Option<int> {
    let j = number_end(s, i);
    if 0 <= i && i < digit_run_end(s, i) && (if last {
        j == s.len()
    } else {
        j < s.len() && s[j] == '/'
    }) {
        Some(j)
    } else {
        None
    }
}

/// Whether `a` stands at `i` and `b` right after it.
pub open spec fn pair_at(s: Seq<char>, i: int, a: char, b: char) -> bool {
    0 <= i && i + 1 < s.len() && s[i] == a && s[i + 1] == b
}

/// The ends of the three round trip times that follow a `= ` at `e` and run
/// to the end of the line.
pub open spec fn latency_at(s: Seq<char>, e: int) -> Option<(int, int, int)> {
    if pair_at(s, e, '=', ' ') {
        match latency_end(s, e + 2, false) {
            Some(n1) => match latency_end(s, n1 + 1, false) {
                Some(n2) => match latency_end(s, n2 + 1, true) {
                    Some(n3) => Some((n1, n2, n3)),
                    None => None,
                },
                None => None,
            },
            None => None,
        }
    } else {
        None
    }
}

/// The last index in `[lo, e]` where round trip times follow a `= `.
pub open spec fn last_latency(s: Seq<char>, lo: int, e: int) -> Option<int>
    decreases e - lo + 1,
{
    if e < lo {
        None
    } else if latency_at(s, e) is Some {
        Some(e)
    } else {
        last_latency(s, lo, e - 1)
    }
}

/// Where the three round trip times lie in a latency part that starts with
/// the `,` at `r`: `,<...>= <min>/<avg>/<max>` up to the end of the line, the
/// times after the last `= ` that lets them match.
pub open spec fn latency_spans(s: Seq<char>, r: int) -> Option<(int, int, int, int)> {
    if 0 <= r < s.len() && s[r] == ',' {
        match last_latency(s, r + 1, s.len() - 1) {
            Some(e) => match latency_at(s, e) {
                Some((n1, n2, n3)) => Some((e + 2, n1, n2, n3)),
                None => None,
            },
            None => None,
        }
    } else {
        None
    }
}

/// The ends of the counters that follow a `= ` at `e`, and where the round
/// trip times lie, where the rest of the line matches:
/// `<sent>/<received>/<lost>%`, then the end or a latency part.
pub open spec fn counts_at(s: Seq<char>, e: int) -> Option<
    (int, int, int, Option<(int, int, int, int)>),
> {
    if pair_at(s, e, '=', ' ') {
        match count_end(s, e + 2, '/') {
            Some(q1) => match count_end(s, q1 + 1, '/') {
                Some(q2) => match count_end(s, q2 + 1, '%') {
                    Some(q3) => if q3 + 1 == s.len() {
                        Some((q1, q2, q3, None))
                    } else {
                        match latency_spans(s, q3 + 1) {
                            Some(l) => Some((q1, q2, q3, Some(l))),
                            None => None,
                        }
                    },
                    None => None,
                },
                None => None,
            },
            None => None,
        }
    } else {
        None
    }
}

/// The last index at or below `e` where the counters follow a `= `.
pub open spec fn last_counts(s: Seq<char>, e: int) -> Option<int>
    decreases e + 1,
{
    if e < 0 {
        None
    } else if counts_at(s, e) is Some {
        Some(e)
    } else {
        last_counts(s, e - 1)
    }
}

/// The last index at or below `e` where ` :` stands.
pub open spec fn last_colon(s: Seq<char>, e: int) -> Option<int>
    decreases e + 1,
{
    if e < 0 {
        None
    } else if pair_at(s, e, ' ', ':') {
        Some(e)
    } else {
        last_colon(s, e - 1)
    }
}

/// Where the fields of a report line lie.
pub struct Spans {
    pub colon: int,
    pub counts: int,
    pub q1: int,
    pub q2: int,
    pub q3: int,
    pub latency: Option<(int, int, int, int)>,
}

/// Where the fields of a line lie, read as the whole line matching
/// `<address> :<...>= <sent>/<received>/<lost>%[,<...>= <min>/<avg>/<max>]`,
/// where no part holds a line break. Where several readings match, the
/// address is the longest and each `<...>` the longest that leaves a match.
pub open spec fn line_spans(s: Seq<char>) -> Option<Spans> {
    if exists|i: int| 0 <= i < s.len() && s[i] == '\n' {
        None
    } else {
        match last_counts(s, s.len() - 1) {
            Some(e) => match (last_colon(s, e - 2), counts_at(s, e)) {
                (Some(c), Some((q1, q2, q3, l))) => Some(
                    Spans { colon: c, counts: e + 2, q1, q2, q3, latency: l },
                ),
                _ => None,
            },
            None => None,
        }
    }
}

pub open spec fn fields_of(s: Seq<char>, sp: Spans) -> LineFields {
    LineFields {
        address: s.subrange(0, sp.colon),
        sent: s.subrange(sp.counts, sp.q1),
        received: s.subrange(sp.q1 + 1, sp.q2),
        lost: s.subrange(sp.q2 + 1, sp.q3),
        latency: match sp.latency {
            Some((m0, n1, n2, n3)) => Some(
                (s.subrange(m0, n1), s.subrange(n1 + 1, n2), s.subrange(n2 + 1, n3)),
            ),
            None => None,
        },
    }
}

/// The fields of a report line, or `None` where the line has another shape.
pub open spec fn line_fields(s: Seq<char>) -> Option<LineFields> {
    match line_spans(s) {
        Some(sp) => Some(fields_of(s, sp)),
        None => None,
    }
}

/// A counter's value, where it fits in a byte.
pub open spec fn count_value(t: Seq<char>) -> Option<u8> {
    if digits_value(t) <= 255 {
        Some(digits_value(t) as u8)
    } else {
        None
    }
}

/// The fraction digits of a number `digits[.digits]`.
pub open spec fn fraction_digits(t: Seq<char>) -> Seq<char> {
    let w = digit_run_end(t, 0);
    if w < t.len() {
        t.subrange(w + 1, t.len() as int)
    } else {
        Seq::empty()
    }
}

/// Index of the first character other than `0` at or after `i` (or the length).
pub open spec fn zeros_end(s: Seq<char>, i: int) -> int
    decreases s.len() - i,
{
    if i < 0 || i >= s.len() || s[i] != '0' {
        i
    } else {
        zeros_end(s, i + 1)
    }
}

/// A time written in milliseconds, as seconds: its digits without leading
/// zeros, of which the first `MANTISSA_DIGITS` are kept.
pub open spec fn seconds_of(t: Seq<char>) -> Seconds {
    let f = fraction_digits(t);
    let d = t.subrange(0, digit_run_end(t, 0)) + f;
    let sig = d.subrange(zeros_end(d, 0), d.len() as int);
    let k = if sig.len() <= MANTISSA_DIGITS {
        sig.len()
    } else {
        MANTISSA_DIGITS as nat
    };
    Seconds {
        mantissa: digits_value(sig.subrange(0, k as int)) as u64,
        shift: (sig.len() - k) as usize,
        exponent: (f.len() + 3) as usize,
    }
}

/// What reading the line `s` gives.
#[verifier::opaque]
pub open spec fn parse_outcome(s: Seq<char>) -> Result<PingResult, ParseFault> {
    match line_fields(s) {
        None => Err(ParseFault::MalformedLine),
        Some(f) => {
            let a = trimmed(f.address);
            match address_of_text(a) {
                None => Err(ParseFault::InvalidAddress(a)),
                Some(ip) => match (count_value(f.sent), count_value(f.received), count_value(f.lost)) {
                    (None, _, _) => Err(ParseFault::InvalidCount(CountField::Sent, f.sent)),
                    (Some(_), None, _) => Err(ParseFault::InvalidCount(CountField::Received, f.received)),
                    (Some(_), Some(_), None) => Err(ParseFault::InvalidCount(CountField::Lost, f.lost)),
                    (Some(sent), Some(received), Some(lost)) => match f.latency {
                        None => Ok(
                            PingResult {
                                ip_address: ip,
                                sent,
                                received,
                                lost,
                                minimum: None,
                                average: None,
                                maxiumum: None,
                            },
                        ),
                        Some((t0, t1, t2)) => Ok(
                            PingResult {
                                ip_address: ip,
                                sent,
                                received,
                                lost,
                                minimum: Some(seconds_of(t0)),
                                average: Some(seconds_of(t1)),
                                maxiumum: Some(seconds_of(t2)),
                            },
                        ),
                    },
                },
            }
        },
    }
}

/// Where the fields of a report line lie.
pub struct LinePositions {
    pub colon: usize,
    pub counts: usize,
    pub q1: usize,
    pub q2: usize,
    pub q3: usize,
    pub latency: Option<(usize, usize, usize, usize)>,
}

pub open spec fn spans_of(lp: LinePositions) -> Spans {
    Spans {
        colon: lp.colon as int,
        counts: lp.counts as int,
        q1: lp.q1 as int,
        q2: lp.q2 as int,
        q3: lp.q3 as int,
        latency: match lp.latency {
            Some((m0, n1, n2, n3)) => Some((m0 as int, n1 as int, n2 as int, n3 as int)),
            None => None,
        },
    }
}

pub open spec fn fields_at(s: Seq<char>, lp: LinePositions) -> LineFields {
    fields_of(s, spans_of(lp))
}

fn count_end_at(s: &Vec<char>, i: usize, term: char) -> (r: Option<usize>)
    requires
        i <= s@.len(),
    ensures
        match r {
            Some(j) => count_end(s@, i as int, term) == Some(j as int) && i < j < s@.len()
                && all_digits(s@.subrange(i as int, j as int)),
            None => count_end(s@, i as int, term) is None,
        },
{
    let j = scan_digits(s, i);
    if i < j && j < s.len() && s[j] == term {
        Some(j)
    } else {
        None
    }
}

fn latency_end_at(s: &Vec<char>, i: usize, last: bool) -> (r: Option<usize>)
    requires
        i <= s@.len(),
    ensures
        match r {
            Some(j) => latency_end(s@, i as int, last) == Some(j as int) && i < j <= s@.len()
                && number_end(s@.subrange(i as int, j as int), 0) == j - i
                && (!last ==> j < s@.len()),
            None => latency_end(s@, i as int, last) is None,
        },
{
    let w = scan_digits(s, i);
    let mut j = w;
    if w < s.len() && s[w] == '.' {
        j = scan_digits(s, w + 1);
    }
    let ok = if last {
        j == s.len()
    } else {
        j < s.len() && s[j] == '/'
    };
    if i < w && ok {
        proof {
            let t = s@.subrange(i as int, j as int);
            lemma_digit_run_end(s@, i as int);
            lemma_digit_run_end(t, 0);
            assert forall|k: int| 0 <= k < w - i implies #[trigger] t[k] == s@[i + k] by {}
            assert(t.subrange(0, w - i) =~= s@.subrange(i as int, w as int));
            lemma_run_end_exact(t, 0, w - i);
            if w < j {
                lemma_digit_run_end(s@, w + 1);
                lemma_digit_run_end(t, w - i + 1);
                assert(t.subrange(w - i + 1, j - i) =~= s@.subrange(w + 1, j as int));
                lemma_run_end_exact(t, w - i + 1, j - i);
            }
        }
        Some(j)
    } else {
        None
    }
}

fn latency_at_index(s: &Vec<char>, e: usize) -> (res: Option<(usize, usize, usize)>)
    requires
        e <= s@.len(),
    ensures
        match res {
            Some((n1, n2, n3)) => latency_at(s@, e as int) == Some((n1 as int, n2 as int, n3 as int))
                && e + 2 < n1 < n2 < n3 <= s@.len() && number_end(
                s@.subrange(e + 2, n1 as int),
                0,
            ) == n1 - e - 2 && number_end(s@.subrange(n1 + 1, n2 as int), 0) == n2 - n1 - 1
                && number_end(s@.subrange(n2 + 1, n3 as int), 0) == n3 - n2 - 1,
            None => latency_at(s@, e as int) is None,
        },
{
    if !(e < s.len() && e + 1 < s.len() && s[e] == '=' && s[e + 1] == ' ') {
        return None;
    }
    let n1 = match latency_end_at(s, e + 2, false) {
        Some(n) => n,
        None => return None,
    };
    let n2 = match latency_end_at(s, n1 + 1, false) {
        Some(n) => n,
        None => return None,
    };
    let n3 = match latency_end_at(s, n2 + 1, true) {
        Some(n) => n,
        None => return None,
    };
    Some((n1, n2, n3))
}

fn latency_positions(s: &Vec<char>, r: usize) -> (res: Option<(usize, usize, usize, usize)>)
    requires
        r <= s@.len(),
    ensures
        match res {
            Some((m0, n1, n2, n3)) => latency_spans(s@, r as int) == Some(
                (m0 as int, n1 as int, n2 as int, n3 as int),
            ) && m0 < n1 < n2 < n3 <= s@.len() && r + 2 < m0
                && number_end(s@.subrange(m0 as int, n1 as int), 0) == n1 - m0
                && number_end(s@.subrange(n1 + 1, n2 as int), 0) == n2 - n1 - 1 && number_end(
                s@.subrange(n2 + 1, n3 as int),
                0,
            ) == n3 - n2 - 1,
            None => latency_spans(s@, r as int) is None,
        },
{
    if r < s.len() && s[r] == ',' {
        let mut e: usize = s.len();
        while e > r + 1
            invariant
                r + 1 <= e <= s@.len(),
                r < s@.len(),
                s@[r as int] == ',',
                last_latency(s@, r + 1, s@.len() - 1) == last_latency(s@, r + 1, e - 1),
            decreases e,
        {
            e = e - 1;
            if let Some((n1, n2, n3)) = latency_at_index(s, e) {
                assert(last_latency(s@, r + 1, e as int) == Some(e as int));
                assert(latency_spans(s@, r as int) == Some(
                    ((e + 2) as int, n1 as int, n2 as int, n3 as int),
                ));
                return Some((e + 2, n1, n2, n3));
            }
        }
        None
    } else {
        None
    }
}

fn counts_at_index(s: &Vec<char>, e: usize) -> (res: Option<
    (usize, usize, usize, Option<(usize, usize, usize, usize)>),
>)
    requires
        e <= s@.len(),
    ensures
        match res {
            Some((q1, q2, q3, l)) => counts_at(s@, e as int) == Some(
                (
                    q1 as int,
                    q2 as int,
                    q3 as int,
                    match l {
                        Some((m0, n1, n2, n3)) => Some(
                            (m0 as int, n1 as int, n2 as int, n3 as int),
                        ),
                        None => None,
                    },
                ),
            ) && e + 2 < q1 < q2 < q3 < s@.len() && all_digits(s@.subrange(e + 2, q1 as int))
                && all_digits(s@.subrange(q1 + 1, q2 as int)) && all_digits(
                s@.subrange(q2 + 1, q3 as int),
            ) && (l matches Some((m0, n1, n2, n3)) ==> q3 + 2 < m0 < n1 < n2 < n3 <= s@.len()
                && number_end(s@.subrange(m0 as int, n1 as int), 0) == n1 - m0 && number_end(
                s@.subrange(n1 + 1, n2 as int),
                0,
            ) == n2 - n1 - 1 && number_end(s@.subrange(n2 + 1, n3 as int), 0) == n3 - n2 - 1),
            None => counts_at(s@, e as int) is None,
        },
{
    if !(e < s.len() && e + 1 < s.len() && s[e] == '=' && s[e + 1] == ' ') {
        return None;
    }
    let q1 = match count_end_at(s, e + 2, '/') {
        Some(q) => q,
        None => return None,
    };
    let q2 = match count_end_at(s, q1 + 1, '/') {
        Some(q) => q,
        None => return None,
    };
    let q3 = match count_end_at(s, q2 + 1, '%') {
        Some(q) => q,
        None => return None,
    };
    if q3 + 1 == s.len() {
        return Some((q1, q2, q3, None));
    }
    match latency_positions(s, q3 + 1) {
        Some(l) => Some((q1, q2, q3, Some(l))),
        None => None,
    }
}

/// Finds the fields of a report line.
pub fn scan_line(s: &Vec<char>) -> (r: Option<LinePositions>)
    ensures
        match r {
            Some(lp) => line_fields(s@) == Some(fields_at(s@, lp)) && lp.colon <= s@.len()
                && lp.counts < lp.q1 < lp.q2 < lp.q3 < s@.len() && all_digits(
                s@.subrange(lp.counts as int, lp.q1 as int),
            ) && all_digits(s@.subrange(lp.q1 + 1, lp.q2 as int)) && all_digits(
                s@.subrange(lp.q2 + 1, lp.q3 as int),
            ) && (lp.latency matches Some((m0, n1, n2, n3)) ==> 4 <= m0 < n1 < n2 < n3
                <= s@.len() && number_end(s@.subrange(m0 as int, n1 as int), 0) == n1 - m0
                && number_end(s@.subrange(n1 + 1, n2 as int), 0) == n2 - n1 - 1 && number_end(
                s@.subrange(n2 + 1, n3 as int),
                0,
            ) == n3 - n2 - 1),
            None => line_fields(s@) is None,
        },
{
    let n: usize = s.len();
    let mut i: usize = 0;
    while i < n
        invariant
            i <= n == s@.len(),
            forall|k: int| 0 <= k < i ==> s@[k] != '\n',
        decreases n - i,
    {
        if s[i] == '\n' {
            return None;
        }
        i = i + 1;
    }
    assert(!exists|k: int| 0 <= k < s@.len() && s@[k] == '\n');
    let mut e: usize = n;
    while e > 0
        invariant
            e <= n == s@.len(),
            forall|k: int| 0 <= k < n ==> s@[k] != '\n',
            last_counts(s@, n - 1) == last_counts(s@, e - 1),
        decreases e,
    {
        e = e - 1;
        if let Some((q1, q2, q3, l)) = counts_at_index(s, e) {
            assert(last_counts(s@, e as int) == Some(e as int));
            assert(last_counts(s@, s@.len() - 1) == Some(e as int));
            return match colon_before(s, e) {
                Some(c) => {
                    let lp = LinePositions { colon: c, counts: e + 2, q1, q2, q3, latency: l };
                    assert(line_spans(s@) == Some(spans_of(lp)));
                    Some(lp)
                },
                None => None,
            };
        }
    }
    None
}

/// The last ` :` that ends at least two characters before `e`.
fn colon_before(s: &Vec<char>, e: usize) -> (r: Option<usize>)
    requires
        e <= s@.len(),
    ensures
        match r {
            Some(c) => last_colon(s@, e - 2) == Some(c as int) && c + 2 <= e,
            None => last_colon(s@, e - 2) is None,
        },
{
    let mut c: usize = if e >= 1 {
        e - 1
    } else {
        0
    };
    assert(last_colon(s@, e - 2) == last_colon(s@, c - 1));
    while c > 0
        invariant
            c <= e <= s@.len(),
            c < e || c == 0,
            last_colon(s@, e - 2) == last_colon(s@, c - 1),
        decreases c,
    {
        c = c - 1;
        if s[c] == ' ' && c + 1 < s.len() && s[c + 1] == ':' {
            return Some(c);
        }
    }
    None
}

fn count_in(s: &Vec<char>, lo: usize, hi: usize) -> (r: Option<u8>)
    requires
        lo <= hi <= s@.len(),
        all_digits(s@.subrange(lo as int, hi as int)),
    ensures
        r == count_value(s@.subrange(lo as int, hi as int)),
{
    match digits_to_u64(s, lo, hi) {
        Some(v) => if v <= 255 {
            Some(v as u8)
        } else {
            None
        },
        None => None,
    }
}

fn seconds_in(t: &Vec<char>) -> (r: Seconds)
    requires
        number_end(t@, 0) == t@.len(),
        t@.len() + 3 <= usize::MAX,
    ensures
        r == seconds_of(t@),
{
    let w = scan_digits(t, 0);
    proof {
        lemma_digit_run_end(t@, 0);
        if w < t@.len() {
            lemma_digit_run_end(t@, w + 1);
        }
    }
    let mut frac: Vec<char> = if w < t.len() {
        copy_range(t, w + 1, t.len())
    } else {
        Vec::new()
    };
    assert(frac@ == fraction_digits(t@));
    let frac_len = frac.len();
    let mut mant = copy_range(t, 0, w);
    mant.append(&mut frac);
    assert(all_digits(mant@)) by {
        assert forall|k: int| 0 <= k < mant@.len() implies is_digit(#[trigger] mant@[k]) by {
            if k < w {
                assert(mant@[k] == t@.subrange(0, w as int)[k]);
            } else {
                assert(mant@[k] == fraction_digits(t@)[k - w]);
            }
        }
    }
    let mut z: usize = 0;
    while z < mant.len() && mant[z] == '0'
        invariant
            z <= mant@.len(),
            zeros_end(mant@, z as int) == zeros_end(mant@, 0),
        decreases mant@.len() - z,
    {
        z = z + 1;
    }
    let ghost sig = mant@.subrange(z as int, mant@.len() as int);
    let k: usize = if mant.len() - z <= MANTISSA_DIGITS {
        mant.len() - z
    } else {
        MANTISSA_DIGITS
    };
    assert(sig.subrange(0, k as int) =~= mant@.subrange(z as int, z + k));
    assert(all_digits(mant@.subrange(z as int, z + k)));
    proof {
        lemma_digits_value_bound(mant@.subrange(z as int, z + k));
        assert(pow10(19) == 10000000000000000000) by {
            reveal_with_fuel(pow10, 20);
        }
        lemma_pow10_monotone(k as nat, 19);
    }
    let m = match digits_to_u64(&mant, z, z + k) {
        Some(m) => m,
        None => 0,
    };
    Seconds { mantissa: m, shift: mant.len() - z - k, exponent: frac_len + 3 }
}

impl PingResult {
    /// Reads one line of a sweep report.
    pub fn parse_line(line: &str) -> (r: Result<PingResult, FpingParseError>)
        ensures
            match r {
                Ok(p) => parse_outcome(line@) == Ok::<PingResult, ParseFault>(p),
                Err(e) => parse_outcome(line@) == Err::<PingResult, ParseFault>(e@),
            },
    {
        PingResult::parse_chars(&chars_of(line))
    }

    /// Reads one line of a sweep report, given as its characters.
    pub fn parse_chars(s: &Vec<char>) -> (r: Result<PingResult, FpingParseError>)
        ensures
            match r {
                Ok(p) => parse_outcome(s@) == Ok::<PingResult, ParseFault>(p),
                Err(e) => parse_outcome(s@) == Err::<PingResult, ParseFault>(e@),
            },
    {
        proof {
            reveal(parse_outcome);
        }
        // The length of a `Vec` fits in a `usize`: this bounds the indices below.
        let _len: usize = s.len();
        let lp = match scan_line(s) {
            Some(lp) => lp,
            None => return Err(FpingParseError::MalformedLine),
        };
        let ghost f = fields_at(s@, lp);
        let a = trimmed_range(s, 0, lp.colon);
        let ip = match parse_address(&a) {
            Some(ip) => ip,
            None => return Err(FpingParseError::InvalidAddress { raw: string_of(&a) }),
        };
        let sent = match count_in(s, lp.counts, lp.q1) {
            Some(v) => v,
            None => {
                let raw = string_of(&copy_range(s, lp.counts, lp.q1));
                return Err(FpingParseError::InvalidCount { field: CountField::Sent, raw });
            },
        };
        let received = match count_in(s, lp.q1 + 1, lp.q2) {
            Some(v) => v,
            None => {
                let raw = string_of(&copy_range(s, lp.q1 + 1, lp.q2));
                return Err(FpingParseError::InvalidCount { field: CountField::Received, raw });
            },
        };
        let lost = match count_in(s, lp.q2 + 1, lp.q3) {
            Some(v) => v,
            None => {
                let raw = string_of(&copy_range(s, lp.q2 + 1, lp.q3));
                return Err(FpingParseError::InvalidCount { field: CountField::Lost, raw });
            },
        };
        match lp.latency {
            None => Ok(
                PingResult {
                    ip_address: ip,
                    sent,
                    received,
                    lost,
                    minimum: None,
                    average: None,
                    maxiumum: None,
                },
            ),
            Some((m0, n1, n2, n3)) => {
                let t0 = copy_range(s, m0, n1);
                let t1 = copy_range(s, n1 + 1, n2);
                let t2 = copy_range(s, n2 + 1, n3);
                let minimum = seconds_in(&t0);
                let average = seconds_in(&t1);
                let maxiumum = seconds_in(&t2);
                Ok(
                    PingResult {
                        ip_address: ip,
                        sent,
                        received,
                        lost,
                        minimum: Some(minimum),
                        average: Some(average),
                        maxiumum: Some(maxiumum),
                    },
                )
            },
        }
    }
}

impl std::str::FromStr for PingResult {
    type Err = FpingParseError;

    fn from_str(line: &str) -> (r: Result<PingResult, FpingParseError>)
        ensures
            match r {
                Ok(p) => parse_outcome(line@) == Ok::<PingResult, ParseFault>(p),
                Err(e) => parse_outcome(line@) == Err::<PingResult, ParseFault>(e@),
            },
    {
        PingResult::parse_line(line)
    }
}

/// The three round trip times of a read line are present together, and
/// exactly when the line carries them; each is read from its own text alone.
pub proof fn lemma_latency_together(s: Seq<char>)
    requires
        parse_outcome(s) is Ok,
    ensures
        ({
            let p = parse_outcome(s)->Ok_0;
            let f = line_fields(s)->Some_0;
            &&& line_fields(s) is Some
            &&& p.minimum is Some <==> f.latency is Some
            &&& p.average is Some <==> f.latency is Some
            &&& p.maxiumum is Some <==> f.latency is Some
            &&& f.latency matches Some((t0, t1, t2)) ==> p.minimum == Some(seconds_of(t0))
                && p.average == Some(seconds_of(t1)) && p.maxiumum == Some(seconds_of(t2))
        }),
{
    reveal(parse_outcome);
}

/// A line that carries no round trip times, as a line of total loss does,
/// reads with no times, and with the counts that it states.
pub proof fn lemma_line_without_times(s: Seq<char>)
    requires
        parse_outcome(s) is Ok,
        line_fields(s) matches Some(f) && f.latency is None,
    ensures
        ({
            let p = parse_outcome(s)->Ok_0;
            let f = line_fields(s)->Some_0;
            &&& p.minimum is None && p.average is None && p.maxiumum is None
            &&& p.sent == digits_value(f.sent) && p.received == digits_value(f.received)
                && p.lost == digits_value(f.lost)
        }),
{
    reveal(parse_outcome);
}

/// A line without a `%` is malformed.
pub proof fn lemma_no_percent(s: Seq<char>)
    requires
        forall|i: int| 0 <= i < s.len() ==> s[i] != '%',
    ensures
        parse_outcome(s) == Err::<PingResult, ParseFault>(ParseFault::MalformedLine),
{
    reveal(parse_outcome);
}

proof fn lemma_no_counts_here(s: Seq<char>, e: int)
    requires
        0 <= e < s.len() ==> s[e] != '=',
    ensures
        counts_at(s, e) is None,
{
}

proof fn lemma_last_counts_from(s: Seq<char>, lo: int, hi: int)
    requires
        -1 <= lo <= hi < s.len(),
        forall|e: int| lo < e <= hi ==> #[trigger] counts_at(s, e) is None,
    ensures
        last_counts(s, hi) == last_counts(s, lo),
    decreases hi - lo,
{
    if lo < hi {
        lemma_last_counts_from(s, lo, hi - 1);
    }
}

proof fn lemma_last_colon_from(s: Seq<char>, lo: int, hi: int)
    requires
        -1 <= lo <= hi,
        hi + 1 < s.len(),
        forall|c: int| lo < c <= hi ==> !(#[trigger] s[c] == ' ' && s[c + 1] == ':'),
    ensures
        last_colon(s, hi) == last_colon(s, lo),
    decreases hi - lo,
{
    if lo < hi {
        lemma_last_colon_from(s, lo, hi - 1);
    }
}

/// Where ` : ` ends the address and no other space comes before `l + 16`,
/// the last ` :` at or below `l + 15` is the one at `l`.
proof fn lemma_colon_after_address(s: Seq<char>, l: int)
    requires
        0 <= l,
        l + 17 < s.len(),
        s[l] == ' ' && s[l + 1] == ':' && s[l + 2] == ' ' && s[l + 3] == 'x',
        forall|k: int| l + 3 <= k < l + 16 ==> #[trigger] s[k] != ' ',
    ensures
        last_colon(s, l + 15) == Some(l),
{
    assert forall|c: int| l < c <= l + 15 implies !(#[trigger] s[c] == ' ' && s[c + 1] == ':') by {
        if c > l + 2 {
            assert(s[c] != ' ');
        }
    }
    lemma_last_colon_from(s, l, l + 15);
}

/// A text with no whitespace at either end is its own trimmed text.
proof fn lemma_trimmed_plain(t: Seq<char>)
    requires
        t.len() > 0,
        !crate::text::is_space(t[0]),
        !crate::text::is_space(t[t.len() - 1]),
    ensures
        trimmed(t) == t,
{
    assert(t.subrange(0, t.len() as int) =~= t);
}

/// The line that the sweep tool writes for an address of which no probe came back.
pub open spec fn total_loss_line(a: Address, sent: u8) -> Seq<char> {
    address_text(a) + " : xmt/rcv/%loss = "@ + decimal(sent as nat) + "/0/100%"@
}

/// Where the pieces of a line of total loss lie.
proof fn lemma_total_loss_chars(a: Address, sent: u8)
    ensures
        ({
            let s = total_loss_line(a, sent);
            let aa = address_text(a);
            let l = aa.len() as int;
            let d = decimal(sent as nat);
            let q1 = l + 19 + d.len();
            &&& l > 0 && d.len() > 0
            &&& s.len() == q1 + 7
            &&& s.subrange(0, l) == aa
            &&& s.subrange(l + 19, q1) == d
            &&& forall|k: int| 0 <= k < l ==> #[trigger] s[k] == aa[k]
            &&& forall|k: int| l + 19 <= k < q1 ==> is_digit(#[trigger] s[k])
            &&& s[l] == ' ' && s[l + 1] == ':' && s[l + 2] == ' ' && s[l + 3] == 'x'
            &&& forall|k: int| l + 3 <= k < l + 16 ==> #[trigger] s[k] != ' ' && s[k] != '\n' && s[k] != '='
            &&& s[l + 16] == ' ' && s[l + 17] == '=' && s[l + 18] == ' '
            &&& s[q1] == '/' && s[q1 + 1] == '0' && s[q1 + 2] == '/' && s[q1 + 3] == '1'
            &&& s[q1 + 4] == '0' && s[q1 + 5] == '0' && s[q1 + 6] == '%'
        }),
{
    reveal_strlit(" : xmt/rcv/%loss = ");
    reveal_strlit("/0/100%");
    let aa = address_text(a);
    let m = " : xmt/rcv/%loss = "@;
    let d = decimal(sent as nat);
    let t = "/0/100%"@;
    let s = total_loss_line(a, sent);
    let l = aa.len() as int;
    lemma_address_text_chars(a);
    lemma_decimal(sent as nat);
    let q1 = l + 19 + d.len();
    assert(s.subrange(0, l) =~= aa);
    assert(s.subrange(l + 19, q1) =~= d);
    assert forall|k: int| l + 19 <= k < q1 implies is_digit(#[trigger] s[k]) by {
        assert(s[k] == d[k - l - 19]);
    }
    assert forall|k: int| l + 3 <= k < l + 16 implies #[trigger] s[k] != ' ' && s[k] != '\n' && s[k] != '=' by {
        assert(s[k] == m[k - l]);
    }
}

#[verifier::rlimit(60)]
proof fn lemma_total_loss_spans(a: Address, sent: u8)
    ensures
        ({
            let s = total_loss_line(a, sent);
            let l = address_text(a).len() as int;
            let q1 = l + 19 + decimal(sent as nat).len();
            line_spans(s) == Some(
                Spans { colon: l, counts: l + 19, q1, q2: q1 + 2, q3: q1 + 6, latency: None },
            )
        }),
{
    lemma_total_loss_chars(a, sent);
    lemma_address_text_chars(a);
    let s = total_loss_line(a, sent);
    let aa = address_text(a);
    let l = aa.len() as int;
    let p = l + 19;
    let q1 = p + decimal(sent as nat).len();
    let e = l + 17;
    assert forall|k: int| 0 <= k < s.len() implies s[k] != '\n' by {
        if k < l {
            assert(is_hex(aa[k]) || aa[k] == ':' || aa[k] == '.');
        } else if p <= k < q1 {
            assert(is_digit(s[k]));
        }
    }
    assert forall|k: int| e < k <= s.len() - 1 implies #[trigger] counts_at(s, k) is None by {
        if p <= k < q1 {
            assert(is_digit(s[k]));
        }
        lemma_no_counts_here(s, k);
    }
    lemma_last_counts_from(s, e, s.len() - 1);
    assert(all_digits(s.subrange(p, q1)));
    lemma_run_end_exact(s, p, q1);
    assert(all_digits(s.subrange(q1 + 1, q1 + 2)));
    lemma_run_end_exact(s, q1 + 1, q1 + 2);
    assert(all_digits(s.subrange(q1 + 3, q1 + 6)));
    lemma_run_end_exact(s, q1 + 3, q1 + 6);
    assert(counts_at(s, e) == Some((q1, q1 + 2, q1 + 6, None::<(int, int, int, int)>)));
    assert(last_counts(s, s.len() - 1) == Some(e));
    lemma_colon_after_address(s, l);
}

/// Every line of total loss reads: with the address, the probes sent as
/// written, none received, all lost, and no round trip times.
pub proof fn lemma_total_loss_line(a: Address, sent: u8)
    ensures
        parse_outcome(total_loss_line(a, sent)) == Ok::<PingResult, ParseFault>(
            PingResult {
                ip_address: a,
                sent,
                received: 0,
                lost: 100,
                minimum: None,
                average: None,
                maxiumum: None,
            },
        ),
{
    reveal(parse_outcome);
    lemma_total_loss_chars(a, sent);
    lemma_total_loss_spans(a, sent);
    lemma_address_text_chars(a);
    lemma_decimal(sent as nat);
    lemma_address_round_trip(a);
    let s = total_loss_line(a, sent);
    let aa = address_text(a);
    let l = aa.len() as int;
    let q1 = l + 19 + decimal(sent as nat).len();
    assert(is_hex(aa[0]) || aa[0] == ':' || aa[0] == '.');
    assert(is_hex(aa[l - 1]) || aa[l - 1] == ':' || aa[l - 1] == '.');
    lemma_trimmed_plain(aa);
    assert(s.subrange(q1 + 1, q1 + 2) =~= seq!['0']);
    assert(s.subrange(q1 + 3, q1 + 6) =~= seq!['1', '0', '0']);
    assert(digits_value(seq!['0']) == 0) by {
        reveal_with_fuel(digits_value, 2);
        assert(seq!['0'].drop_last() =~= Seq::<char>::empty());
    }
    assert(digits_value(seq!['1', '0', '0']) == 100) by {
        reveal_with_fuel(digits_value, 4);
        assert(seq!['1', '0', '0'].drop_last() =~= seq!['1', '0']);
        assert(seq!['1', '0'].drop_last() =~= seq!['1']);
        assert(seq!['1'].drop_last() =~= Seq::<char>::empty());
    }
}

proof fn lemma_last_latency_from(s: Seq<char>, lo: int, mid: int, hi: int)
    requires
        lo <= mid + 1,
        mid <= hi,
        forall|e: int| mid < e <= hi ==> #[trigger] latency_at(s, e) is None,
    ensures
        last_latency(s, lo, hi) == last_latency(s, lo, mid),
    decreases hi - mid,
{
    if mid < hi {
        lemma_last_latency_from(s, lo, mid, hi - 1);
    }
}

/// A round trip time as the sweep tool writes it: digits, then perhaps a
/// dot and more digits.
pub open spec fn latency_text(t: Seq<char>) -> bool {
    t.len() > 0 && is_digit(t[0]) && number_end(t, 0) == t.len()
}

/// A round trip time written at `i` and followed by `/` or the end reads
/// there as a number; a run of digits from `i` stops at its dot or its end.
proof fn lemma_number_in(s: Seq<char>, i: int, t: Seq<char>)
    requires
        0 <= i,
        i + t.len() <= s.len(),
        s.subrange(i, i + t.len()) == t,
        latency_text(t),
        i + t.len() == s.len() || s[i + t.len()] == '/',
    ensures
        number_end(s, i) == i + t.len(),
        i < digit_run_end(s, i) <= i + t.len(),
        digit_run_end(s, i) < i + t.len() ==> s[digit_run_end(s, i)] == '.',
        forall|k: int| i <= k < i + t.len() ==> is_digit(#[trigger] s[k]) || s[k] == '.',
{
    let n = t.len() as int;
    let w = digit_run_end(t, 0);
    lemma_digit_run_end(t, 0);
    assert forall|k: int| 0 <= k < n implies #[trigger] s[i + k] == t[k] by {
        assert(s.subrange(i, i + n)[k] == s[i + k]);
    }
    assert(t.subrange(0, w) =~= s.subrange(i, i + w));
    if w < n {
        assert(t[w] == '.');
        lemma_digit_run_end(t, w + 1);
        lemma_run_end_exact(s, i, i + w);
        assert(t.subrange(w + 1, n) =~= s.subrange(i + w + 1, i + n));
        lemma_run_end_exact(s, i + w + 1, i + n);
        assert forall|k: int| i <= k < i + n implies is_digit(#[trigger] s[k]) || s[k] == '.' by {
            assert(s[k] == t[k - i]);
            if k - i < w {
                assert(is_digit(t.subrange(0, w)[k - i]));
            } else if k - i > w {
                assert(is_digit(t.subrange(w + 1, n)[k - i - w - 1]));
            }
        }
    } else {
        lemma_run_end_exact(s, i, i + w);
        assert forall|k: int| i <= k < i + n implies is_digit(#[trigger] s[k]) || s[k] == '.' by {
            assert(s[k] == t[k - i]);
            assert(is_digit(t.subrange(0, w)[k - i]));
        }
    }
    assert(t[0] == s[i]);
}

/// The line that the sweep tool writes for an address that answered: its
/// counters, then its minimum, average and maximum round trip times.
#[verifier::opaque]
pub open spec fn reachable_line(
    a: Address,
    sent: u8,
    received: u8,
    lost: u8,
    x: Seq<char>,
    y: Seq<char>,
    z: Seq<char>,
) -> Seq<char> {
    address_text(a) + " : xmt/rcv/%loss = "@ + decimal(sent as nat) + seq!['/'] + decimal(
        received as nat,
    ) + seq!['/'] + decimal(lost as nat) + "%, min/avg/max = "@ + x + seq!['/'] + y + seq!['/']
        + z
}

/// Where the pieces of a line of an address that answered lie.
proof fn lemma_reachable_chars(
    a: Address,
    sent: u8,
    received: u8,
    lost: u8,
    x: Seq<char>,
    y: Seq<char>,
    z: Seq<char>,
)
    ensures
        ({
            let s = reachable_line(a, sent, received, lost, x, y, z);
            let aa = address_text(a);
            let l = aa.len() as int;
            let p = l + 19;
            let q1 = p + decimal(sent as nat).len();
            let q2 = q1 + 1 + decimal(received as nat).len();
            let q3 = q2 + 1 + decimal(lost as nat).len();
            let m0 = q3 + 17;
            let n1 = m0 + x.len();
            let n2 = n1 + 1 + y.len();
            &&& s.len() == n2 + 1 + z.len()
            &&& s.subrange(0, l) == aa
            &&& s.subrange(p, q1) == decimal(sent as nat)
            &&& s.subrange(q1 + 1, q2) == decimal(received as nat)
            &&& s.subrange(q2 + 1, q3) == decimal(lost as nat)
            &&& s.subrange(m0, n1) == x
            &&& s.subrange(n1 + 1, n2) == y
            &&& s.subrange(n2 + 1, s.len() as int) == z
            &&& forall|k: int| 0 <= k < l ==> #[trigger] s[k] == aa[k]
            &&& s[l] == ' ' && s[l + 1] == ':' && s[l + 2] == ' ' && s[l + 3] == 'x'
            &&& forall|k: int| l + 3 <= k < l + 16 ==> #[trigger] s[k] != ' ' && s[k] != '\n' && s[k] != '='
            &&& s[l + 16] == ' ' && s[l + 17] == '=' && s[l + 18] == ' '
            &&& s[q1] == '/' && s[q2] == '/' && s[q3] == '%' && s[q3 + 1] == ','
            &&& forall|k: int| q3 + 2 <= k < q3 + 15 ==> #[trigger] s[k] != '\n' && s[k] != '='
            &&& s[q3 + 15] == '=' && s[q3 + 16] == ' '
            &&& s[n1] == '/' && s[n2] == '/'
        }),
{
    reveal(reachable_line);
    reveal_strlit(" : xmt/rcv/%loss = ");
    reveal_strlit("%, min/avg/max = ");
    let s = reachable_line(a, sent, received, lost, x, y, z);
    let aa = address_text(a);
    let ms = " : xmt/rcv/%loss = "@;
    let mn = "%, min/avg/max = "@;
    let ds = decimal(sent as nat);
    let dr = decimal(received as nat);
    let dl = decimal(lost as nat);
    let l = aa.len() as int;
    let p = l + 19;
    let q1 = p + ds.len();
    let q2 = q1 + 1 + dr.len();
    let q3 = q2 + 1 + dl.len();
    let m0 = q3 + 17;
    let n1 = m0 + x.len();
    let n2 = n1 + 1 + y.len();
    assert(ms.len() == 19 && mn.len() == 17);
    assert(s =~= aa + ms + ds + seq!['/'] + dr + seq!['/'] + dl + mn + x + seq!['/'] + y
        + seq!['/'] + z);
    assert(s.subrange(0, l) =~= aa);
    assert(s.subrange(p, q1) =~= ds);
    assert(s.subrange(q1 + 1, q2) =~= dr);
    assert(s.subrange(q2 + 1, q3) =~= dl);
    assert(s.subrange(m0, n1) =~= x);
    assert(s.subrange(n1 + 1, n2) =~= y);
    assert(s.subrange(n2 + 1, s.len() as int) =~= z);
    assert forall|k: int| l + 3 <= k < l + 16 implies #[trigger] s[k] != ' ' && s[k] != '\n' && s[k] != '=' by {
        assert(s[k] == ms[k - l]);
    }
    assert forall|k: int| q3 + 2 <= k < q3 + 15 implies #[trigger] s[k] != '\n' && s[k] != '=' by {
        assert(s[k] == mn[k - q3]);
    }
    assert(s[q3] == mn[0] && s[q3 + 1] == mn[1] && s[q3 + 15] == mn[15] && s[q3 + 16] == mn[16]);
}

proof fn lemma_no_latency_here(s: Seq<char>, e: int)
    requires
        0 <= e < s.len() ==> s[e] != '=',
    ensures
        latency_at(s, e) is None,
{
}

/// Counters that follow the `= ` at `e`, then a latency part.
proof fn lemma_counts_part(
    s: Seq<char>,
    e: int,
    q1: int,
    q2: int,
    q3: int,
    lat: (int, int, int, int),
)
    requires
        0 <= e,
        e + 2 < q1 < q2 - 1,
        q2 + 1 < q3,
        q3 + 1 < s.len(),
        s[e] == '=' && s[e + 1] == ' ',
        all_digits(s.subrange(e + 2, q1)),
        all_digits(s.subrange(q1 + 1, q2)),
        all_digits(s.subrange(q2 + 1, q3)),
        s[q1] == '/' && s[q2] == '/' && s[q3] == '%',
        latency_spans(s, q3 + 1) == Some(lat),
    ensures
        counts_at(s, e) == Some((q1, q2, q3, Some(lat))),
{
    lemma_run_end_exact(s, e + 2, q1);
    lemma_run_end_exact(s, q1 + 1, q2);
    lemma_run_end_exact(s, q2 + 1, q3);
}

/// A latency part whose `= ` stands at `q3 + 15`, as the sweep tool writes it.
proof fn lemma_latency_part(s: Seq<char>, q3: int, x: Seq<char>, y: Seq<char>, z: Seq<char>)
    requires
        0 <= q3,
        latency_text(x),
        latency_text(y),
        latency_text(z),
        s[q3 + 15] == '=' && s[q3 + 16] == ' ',
        s.len() == q3 + 17 + x.len() + 1 + y.len() + 1 + z.len(),
        s.subrange(q3 + 17, q3 + 17 + x.len()) == x,
        s.subrange(q3 + 18 + x.len(), q3 + 18 + x.len() + y.len()) == y,
        s.subrange(q3 + 19 + x.len() + y.len(), s.len() as int) == z,
        s[q3 + 17 + x.len()] == '/',
        s[q3 + 18 + x.len() + y.len()] == '/',
    ensures
        latency_at(s, q3 + 15) == Some(
            (q3 + 17 + x.len(), q3 + 18 + x.len() + y.len(), s.len() as int),
        ),
        counts_at(s, q3 + 15) is None,
        forall|k: int| q3 + 16 <= k < s.len() ==> #[trigger] s[k] != '=' && s[k] != '\n',
        last_latency(s, q3 + 2, s.len() - 1) == Some(q3 + 15),
{
    let m0 = q3 + 17;
    let n1 = m0 + x.len();
    let n2 = n1 + 1 + y.len();
    lemma_number_in(s, m0, x);
    lemma_number_in(s, n1 + 1, y);
    lemma_number_in(s, n2 + 1, z);
    let e2 = q3 + 15;
    assert forall|k: int| q3 + 16 <= k < s.len() implies #[trigger] s[k] != '=' && s[k] != '\n' by {
        if m0 <= k < n1 {
            assert(is_digit(s[k]) || s[k] == '.');
        } else if n1 < k < n2 {
            assert(is_digit(s[k]) || s[k] == '.');
        } else if n2 < k {
            assert(is_digit(s[k]) || s[k] == '.');
        }
    }
    assert forall|k: int| e2 < k <= s.len() - 1 implies #[trigger] latency_at(s, k) is None by {
        lemma_no_latency_here(s, k);
    }
    lemma_last_latency_from(s, q3 + 2, e2, s.len() - 1);
    assert(last_latency(s, q3 + 2, e2) == Some(e2));
}

#[verifier::rlimit(60)]
proof fn lemma_reachable_spans(
    a: Address,
    sent: u8,
    received: u8,
    lost: u8,
    x: Seq<char>,
    y: Seq<char>,
    z: Seq<char>,
)
    requires
        latency_text(x),
        latency_text(y),
        latency_text(z),
    ensures
        ({
            let s = reachable_line(a, sent, received, lost, x, y, z);
            let l = address_text(a).len() as int;
            let p = l + 19;
            let q1 = p + decimal(sent as nat).len();
            let q2 = q1 + 1 + decimal(received as nat).len();
            let q3 = q2 + 1 + decimal(lost as nat).len();
            let m0 = q3 + 17;
            let n1 = m0 + x.len();
            let n2 = n1 + 1 + y.len();
            line_spans(s) == Some(
                Spans {
                    colon: l,
                    counts: p,
                    q1,
                    q2,
                    q3,
                    latency: Some((m0, n1, n2, s.len() as int)),
                },
            )
        }),
{
    lemma_reachable_chars(a, sent, received, lost, x, y, z);
    lemma_address_text_chars(a);
    lemma_decimal(sent as nat);
    lemma_decimal(received as nat);
    lemma_decimal(lost as nat);
    let s = reachable_line(a, sent, received, lost, x, y, z);
    let aa = address_text(a);
    let l = aa.len() as int;
    let p = l + 19;
    let q1 = p + decimal(sent as nat).len();
    let q2 = q1 + 1 + decimal(received as nat).len();
    let q3 = q2 + 1 + decimal(lost as nat).len();
    let m0 = q3 + 17;
    let n1 = m0 + x.len();
    let n2 = n1 + 1 + y.len();
    let e = l + 17;
    lemma_latency_part(s, q3, x, y, z);
    assert(latency_spans(s, q3 + 1) == Some((m0, n1, n2, s.len() as int)));
    assert forall|k: int| p <= k < q3 implies #[trigger] s[k] != '=' && s[k] != '\n' by {
        if p <= k < q1 {
            assert(s[k] == s.subrange(p, q1)[k - p]);
        } else if q1 < k < q2 {
            assert(s[k] == s.subrange(q1 + 1, q2)[k - q1 - 1]);
        } else if q2 < k < q3 {
            assert(s[k] == s.subrange(q2 + 1, q3)[k - q2 - 1]);
        }
    }
    assert forall|k: int| 0 <= k < s.len() implies s[k] != '\n' by {
        if k < l {
            assert(is_hex(aa[k]) || aa[k] == ':' || aa[k] == '.');
        }
    }
    lemma_counts_part(s, e, q1, q2, q3, (m0, n1, n2, s.len() as int));
    assert forall|k: int| e < k <= s.len() - 1 implies #[trigger] counts_at(s, k) is None by {
        if k != q3 + 15 {
            lemma_no_counts_here(s, k);
        }
    }
    lemma_last_counts_from(s, e, s.len() - 1);
    assert(last_counts(s, s.len() - 1) == Some(e));
    lemma_colon_after_address(s, l);
}

/// Every line of an address that answered reads: with the address, the
/// counters as written, and all three round trip times, each read from its
/// own text.
pub proof fn lemma_reachable_line(
    a: Address,
    sent: u8,
    received: u8,
    lost: u8,
    x: Seq<char>,
    y: Seq<char>,
    z: Seq<char>,
)
    requires
        latency_text(x),
        latency_text(y),
        latency_text(z),
    ensures
        parse_outcome(reachable_line(a, sent, received, lost, x, y, z)) == Ok::<
            PingResult,
            ParseFault,
        >(
            PingResult {
                ip_address: a,
                sent,
                received,
                lost,
                minimum: Some(seconds_of(x)),
                average: Some(seconds_of(y)),
                maxiumum: Some(seconds_of(z)),
            },
        ),
{
    reveal(parse_outcome);
    lemma_reachable_chars(a, sent, received, lost, x, y, z);
    lemma_reachable_spans(a, sent, received, lost, x, y, z);
    lemma_address_text_chars(a);
    lemma_decimal(sent as nat);
    lemma_decimal(received as nat);
    lemma_decimal(lost as nat);
    lemma_address_round_trip(a);
    let aa = address_text(a);
    let l = aa.len() as int;
    assert(is_hex(aa[0]) || aa[0] == ':' || aa[0] == '.');
    assert(is_hex(aa[l - 1]) || aa[l - 1] == ':' || aa[l - 1] == '.');
    lemma_trimmed_plain(aa);
}

} // verus!
