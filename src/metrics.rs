//! The exposition text of the latest results: four gauge families.
use vstd::prelude::*;
use crate::address::{address_chars, address_text};
use crate::digits::{decimal, decimal_chars};
use crate::ping_result::{CountField, PingResult, Seconds};
use crate::text::{copy_range, string_of};
use prometheus_exporter_base::RenderToPrometheus;

verus! {

/// The header that precedes a gauge family's samples.
pub open spec fn header_text(name: Seq<char>, help: Seq<char>) -> Seq<char> {
    "# HELP "@ + name + " "@ + help + "\n# TYPE "@ + name + " gauge\n"@
}

/// One label, as `key="value"`.
pub open spec fn label_text(key: Seq<char>, value: Seq<char>) -> Seq<char> {
    key + "=\""@ + value + "\""@
}

/// A sample's labels and value, after the family name.
pub open spec fn instance_text(key: Seq<char>, label: Seq<char>, value: Seq<char>) -> Seq<char> {
    "{"@ + label_text(key, label) + "} "@ + value
}

/// Relies on `PrometheusMetric::render` with no samples: it writes the HELP
/// and TYPE lines of a gauge family.
#[verifier::external_body]
fn gauge_header(name: &str, help: &str) -> (r: String)
    ensures
        r@ == header_text(name@, help@),
{
    prometheus_exporter_base::PrometheusMetric::build().with_name(name).with_metric_type(
        prometheus_exporter_base::MetricType::Gauge,
    ).with_help(help).build().render()
}

/// Relies on `PrometheusInstance::render` for one label and an integer value,
/// which `Display` writes in decimal.
#[verifier::external_body]
fn labelled_value(key: &str, label: &str, value: u64) -> (r: String)
    ensures
        r@ == instance_text(key@, label@, decimal(value as nat)),
{
    prometheus_exporter_base::PrometheusInstance::new().with_label(key, label).with_value(
        value,
    ).render()
}

pub open spec fn zeros(n: nat) -> Seq<char> {
    Seq::new(n, |i: int| '0')
}

/// The digits of a duration: its mantissa, then the zeros it left out.
pub open spec fn seconds_digits(s: Seconds) -> Seq<char> {
    if s.mantissa == 0 {
        decimal(0)
    } else {
        decimal(s.mantissa as nat) + zeros(s.shift as nat)
    }
}

/// The decimal text of a duration in seconds, with exactly its digits.
pub open spec fn seconds_text(s: Seconds) -> Seq<char> {
    let d = seconds_digits(s);
    let e = s.exponent as int;
    if e == 0 {
        d
    } else if d.len() > e {
        d.subrange(0, d.len() - e) + seq!['.'] + d.subrange(d.len() - e, d.len() as int)
    } else {
        seq!['0', '.'] + zeros((e - d.len()) as nat) + d
    }
}

pub fn seconds_chars(s: Seconds) -> (r: Vec<char>)
    ensures
        r@ == seconds_text(s),
{
    let mut d = decimal_chars(s.mantissa);
    if s.mantissa != 0 {
        let ghost m = d@;
        let mut k: usize = 0;
        while k < s.shift
            invariant
                k <= s.shift,
                d@ == m + zeros(k as nat),
            decreases s.shift - k,
        {
            d.push('0');
            assert(d@ =~= m + zeros((k + 1) as nat));
            k = k + 1;
        }
    }
    assert(d@ == seconds_digits(s));
    let e = s.exponent;
    if e == 0 {
        d
    } else if d.len() > e {
        let mut r = copy_range(&d, 0, d.len() - e);
        r.push('.');
        let mut f = copy_range(&d, d.len() - e, d.len());
        r.append(&mut f);
        assert(r@ =~= seconds_text(s));
        r
    } else {
        let mut r: Vec<char> = Vec::new();
        r.push('0');
        r.push('.');
        let mut k: usize = 0;
        while k < e - d.len()
            invariant
                d.len() <= e,
                k <= e - d.len(),
                r@ == seq!['0', '.'] + zeros(k as nat),
            decreases e - d.len() - k,
        {
            r.push('0');
            assert(r@ =~= seq!['0', '.'] + zeros((k + 1) as nat));
            k = k + 1;
        }
        let mut d = d;
        r.append(&mut d);
        assert(r@ =~= seconds_text(s));
        r
    }
}

pub open spec fn rtt_name() -> Seq<char> {
    "ping_rtt_seconds"@
}

pub open spec fn count_name(field: CountField) -> Seq<char> {
    match field {
        CountField::Sent => "ping_packets_sent"@,
        CountField::Received => "ping_packets_received"@,
        CountField::Lost => "ping_packet_loss_percent"@,
    }
}

pub open spec fn count_help(field: CountField) -> Seq<char> {
    match field {
        CountField::Sent => "Number of ping packets sent"@,
        CountField::Received => "Number of ping packets received"@,
        CountField::Lost => "Percent of ping packets lost"@,
    }
}

pub open spec fn rtt_help() -> Seq<char> {
    "Ping round trip time in seconds"@
}

pub open spec fn count_of(p: PingResult, field: CountField) -> u8 {
    match field {
        CountField::Sent => p.sent,
        CountField::Received => p.received,
        CountField::Lost => p.lost,
    }
}

/// The sample of one round trip time of an address.
pub open spec fn rtt_line(address: Seq<char>, sample: Seq<char>, s: Seconds) -> Seq<char> {
    rtt_name() + "{"@ + label_text("address"@, address) + ","@ + label_text("sample"@, sample)
        + "} "@ + seconds_text(s) + "\n"@
}

/// The round trip samples of one result: none where it has no times, else
/// minimum, average and maximum, in that order.
pub open spec fn rtt_lines_of(p: PingResult) -> Seq<char> {
    let a = address_text(p.ip_address);
    match (p.minimum, p.average, p.maxiumum) {
        (Some(lo), Some(mid), Some(hi)) => rtt_line(a, "minimum"@, lo) + rtt_line(
            a,
            "average"@,
            mid,
        ) + rtt_line(a, "maximum"@, hi),
        _ => Seq::empty(),
    }
}

/// The sample of one counter of one result.
pub open spec fn count_line(p: PingResult, field: CountField) -> Seq<char> {
    count_name(field) + instance_text(
        "address"@,
        address_text(p.ip_address),
        decimal(count_of(p, field) as nat),
    ) + "\n"@
}

pub open spec fn rtt_family(rs: Seq<PingResult>) -> Seq<char>
    decreases rs.len(),
{
    if rs.len() == 0 {
        header_text(rtt_name(), rtt_help())
    } else {
        rtt_family(rs.drop_last()) + rtt_lines_of(rs.last())
    }
}

pub open spec fn count_family(rs: Seq<PingResult>, field: CountField) -> Seq<char>
    decreases rs.len(),
{
    if rs.len() == 0 {
        header_text(count_name(field), count_help(field))
    } else {
        count_family(rs.drop_last(), field) + count_line(rs.last(), field)
    }
}

/// The exposition text of a list of results: the four families, in order,
/// each after the one before and a blank line.
pub open spec fn metrics_text(rs: Seq<PingResult>) -> Seq<char> {
    rtt_family(rs) + "\n"@ + count_family(rs, CountField::Sent) + "\n"@ + count_family(
        rs,
        CountField::Received,
    ) + "\n"@ + count_family(rs, CountField::Lost)
}

/// The results of all entries of a snapshot, entry after entry.
pub open spec fn all_results(snap: Seq<(String, Vec<PingResult>)>) -> Seq<PingResult>
    decreases snap.len(),
{
    if snap.len() == 0 {
        Seq::empty()
    } else {
        all_results(snap.drop_last()) + snap.last().1@
    }
}

fn rtt_sample(out: &mut String, address: &String, sample: &str, s: Seconds)
    ensures
        final(out)@ == old(out)@ + rtt_line(address@, sample@, s),
{
    out.append("ping_rtt_seconds");
    out.append("{");
    out.append("address");
    out.append("=\"");
    out.append(address.as_str());
    out.append("\"");
    out.append(",");
    out.append("sample");
    out.append("=\"");
    out.append(sample);
    out.append("\"");
    out.append("} ");
    let v = string_of(&seconds_chars(s));
    out.append(v.as_str());
    out.append("\n");
    assert(final(out)@ =~= old(out)@ + rtt_line(address@, sample@, s));
}

fn render_rtt(out: &mut String, rs: &Vec<PingResult>)
    ensures
        final(out)@ == old(out)@ + rtt_family(rs@),
{
    let h = gauge_header("ping_rtt_seconds", "Ping round trip time in seconds");
    out.append(h.as_str());
    let mut i: usize = 0;
    while i < rs.len()
        invariant
            i <= rs@.len(),
            out@ == old(out)@ + rtt_family(rs@.subrange(0, i as int)),
        decreases rs@.len() - i,
    {
        let p = rs[i];
        let ghost before = out@;
        let a = string_of(&address_chars(&p.ip_address));
        match (p.minimum, p.average, p.maxiumum) {
            (Some(lo), Some(mid), Some(hi)) => {
                rtt_sample(out, &a, "minimum", lo);
                rtt_sample(out, &a, "average", mid);
                rtt_sample(out, &a, "maximum", hi);
            },
            _ => {},
        }
        assert(rs@.subrange(0, i + 1).drop_last() =~= rs@.subrange(0, i as int));
        assert(out@ =~= before + rtt_lines_of(p));
        i = i + 1;
    }
    assert(rs@.subrange(0, i as int) =~= rs@);
}

fn render_count(out: &mut String, rs: &Vec<PingResult>, field: CountField)
    ensures
        final(out)@ == old(out)@ + count_family(rs@, field),
{
    let (name, help) = match field {
        CountField::Sent => ("ping_packets_sent", "Number of ping packets sent"),
        CountField::Received => ("ping_packets_received", "Number of ping packets received"),
        CountField::Lost => ("ping_packet_loss_percent", "Percent of ping packets lost"),
    };
    assert(name@ == count_name(field) && help@ == count_help(field));
    let h = gauge_header(name, help);
    out.append(h.as_str());
    let mut i: usize = 0;
    while i < rs.len()
        invariant
            i <= rs@.len(),
            name@ == count_name(field),
            out@ == old(out)@ + count_family(rs@.subrange(0, i as int), field),
        decreases rs@.len() - i,
    {
        let p = rs[i];
        let ghost before = out@;
        let a = string_of(&address_chars(&p.ip_address));
        let v: u8 = match field {
            CountField::Sent => p.sent,
            CountField::Received => p.received,
            CountField::Lost => p.lost,
        };
        let sample = labelled_value("address", a.as_str(), v as u64);
        out.append(name);
        out.append(sample.as_str());
        out.append("\n");
        assert(rs@.subrange(0, i + 1).drop_last() =~= rs@.subrange(0, i as int));
        assert(out@ =~= before + count_line(p, field));
        i = i + 1;
    }
    assert(rs@.subrange(0, i as int) =~= rs@);
}

/// The exposition text of one result set.
pub fn render_results(rs: &Vec<PingResult>) -> (r: String)
    ensures
        r@ == metrics_text(rs@),
{
    let mut out = String::new();
    render_rtt(&mut out, rs);
    out.append("\n");
    render_count(&mut out, rs, CountField::Sent);
    out.append("\n");
    render_count(&mut out, rs, CountField::Received);
    out.append("\n");
    render_count(&mut out, rs, CountField::Lost);
    assert(out@ =~= metrics_text(rs@));
    out
}

/// The results of every entry of a snapshot, entry after entry.
pub fn snapshot_results(snap: &Vec<(String, Vec<PingResult>)>) -> (r: Vec<PingResult>)
    ensures
        r@ == all_results(snap@),
{
    let mut acc: Vec<PingResult> = Vec::new();
    let mut i: usize = 0;
    while i < snap.len()
        invariant
            i <= snap@.len(),
            acc@ == all_results(snap@.subrange(0, i as int)),
        decreases snap@.len() - i,
    {
        let ghost start = acc@;
        let rs = &snap[i].1;
        let mut j: usize = 0;
        while j < rs.len()
            invariant
                j <= rs@.len(),
                rs@ == snap@[i as int].1@,
                acc@ == start + rs@.subrange(0, j as int),
            decreases rs@.len() - j,
        {
            acc.push(rs[j]);
            assert(acc@ =~= start + rs@.subrange(0, j + 1));
            j = j + 1;
        }
        assert(snap@.subrange(0, i + 1).drop_last() =~= snap@.subrange(0, i as int));
        assert(rs@.subrange(0, j as int) =~= rs@);
        i = i + 1;
    }
    assert(snap@.subrange(0, i as int) =~= snap@);
    acc
}

/// The exposition text of a snapshot of the store.
pub fn render_metrics(snap: &Vec<(String, Vec<PingResult>)>) -> (r: String)
    ensures
        r@ == metrics_text(all_results(snap@)),
{
    let rs = snapshot_results(snap);
    render_results(&rs)
}

/// An empty snapshot renders as the four family headers, with no sample.
pub proof fn lemma_empty_snapshot()
    ensures
        metrics_text(all_results(Seq::empty())) == header_text(rtt_name(), rtt_help()) + "\n"@
            + header_text(count_name(CountField::Sent), count_help(CountField::Sent)) + "\n"@
            + header_text(count_name(CountField::Received), count_help(CountField::Received))
            + "\n"@ + header_text(count_name(CountField::Lost), count_help(CountField::Lost)),
{
    assert(all_results(Seq::empty()) =~= Seq::<PingResult>::empty());
}

} // verus!
