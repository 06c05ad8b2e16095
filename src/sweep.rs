//! One sweep of a target: the command line, and the reading of what it reported.
use vstd::prelude::*;
use crate::ping_result::{parse_outcome, FpingParseError, ParseFault, PingResult};
use crate::text::{chars_of, copy_range};

verus! {

/// The exit status by which the sweep tool reports that it could not run.
pub const SWEEP_FAILURE_STATUS: i32 = 4;

/// The number of probes sent to each address of a sweep.
pub const PROBE_COUNT: u8 = 5;

/// Why a sweep produced no results.
#[derive(Debug, Clone, PartialEq, Eq)]
pub enum SweepError {
    /// The tool failed to run; its diagnostic output.
    CommandFailed { diagnostic_text: String },
}

/// The arguments of the sweep tool for a target: quiet, no retry, a fixed
/// number of probes, and the whole network.
pub open spec fn sweep_argument_texts(target: Seq<char>) -> Seq<Seq<char>> {
    seq!["-q"@, "-r"@, "0"@, "-c"@, "5"@, "-g"@, target]
}

pub fn sweep_arguments(target: &str) -> (r: Vec<String>)
    ensures
        r@.map_values(|a: String| a@) == sweep_argument_texts(target@),
{
    let mut r: Vec<String> = Vec::new();
    r.push(String::from_str("-q"));
    r.push(String::from_str("-r"));
    r.push(String::from_str("0"));
    r.push(String::from_str("-c"));
    r.push(String::from_str("5"));
    r.push(String::from_str("-g"));
    r.push(String::from_str(target));
    assert(r@.map_values(|a: String| a@) =~= sweep_argument_texts(target@));
    r
}

/// The index of the first line break at or after `i` (or the length).
pub open spec fn line_end(s: Seq<char>, i: int) -> int
    decreases s.len() - i,
{
    if i < 0 || i >= s.len() || s[i] == '\n' {
        i
    } else {
        line_end(s, i + 1)
    }
}

/// A line without the carriage return that may end it.
pub open spec fn without_cr(l: Seq<char>) -> Seq<char> {
    if l.len() > 0 && l.last() == '\r' {
        l.drop_last()
    } else {
        l
    }
}

/// The line that starts at `i`, without its line break.
pub open spec fn line_at(s: Seq<char>, i: int) -> Seq<char> {
    without_cr(s.subrange(i, line_end(s, i)))
}

/// The records of the lines from `i` on that read as report lines, in order;
/// the other lines are skipped.
pub open spec fn report_records(s: Seq<char>, i: int) -> Seq<PingResult>
    decreases s.len() - i,
{
    let e = line_end(s, i);
    if i < 0 || i >= s.len() || e < i {
        Seq::empty()
    } else {
        let rest = if e < s.len() {
            report_records(s, e + 1)
        } else {
            Seq::empty()
        };
        match parse_outcome(line_at(s, i)) {
            Ok(p) => seq![p] + rest,
            Err(_) => rest,
        }
    }
}

/// Why each line from `i` on that does not read as a report line was skipped, in order.
pub open spec fn report_faults(s: Seq<char>, i: int) -> Seq<ParseFault>
    decreases s.len() - i,
{
    let e = line_end(s, i);
    if i < 0 || i >= s.len() || e < i {
        Seq::empty()
    } else {
        let rest = if e < s.len() {
            report_faults(s, e + 1)
        } else {
            Seq::empty()
        };
        match parse_outcome(line_at(s, i)) {
            Ok(_) => rest,
            Err(f) => seq![f] + rest,
        }
    }
}

pub open spec fn faults_of(errors: Seq<FpingParseError>) -> Seq<ParseFault> {
    errors.map_values(|e: FpingParseError| e@)
}

/// What a sweep gives, from the tool's exit status and its diagnostic text.
pub open spec fn sweep_outcome(status: Option<i32>, diagnostics: Seq<char>) -> Result<
    Seq<PingResult>,
    Seq<char>,
> {
    if status == Some(SWEEP_FAILURE_STATUS) {
        Err(diagnostics)
    } else {
        Ok(report_records(diagnostics, 0))
    }
}

proof fn lemma_line_end(s: Seq<char>, i: int)
    requires
        0 <= i <= s.len(),
    ensures
        i <= line_end(s, i) <= s.len(),
    decreases s.len() - i,
{
    if i < s.len() && s[i] != '\n' {
        lemma_line_end(s, i + 1);
    }
}

/// The records of the lines of a report that read as report lines, and the
/// errors of the others, each in order.
pub fn read_report(diagnostics: &str) -> (r: (Vec<PingResult>, Vec<FpingParseError>))
    ensures
        r.0@ == report_records(diagnostics@, 0),
        faults_of(r.1@) == report_faults(diagnostics@, 0),
{
    let s = chars_of(diagnostics);
    let mut records: Vec<PingResult> = Vec::new();
    let mut errors: Vec<FpingParseError> = Vec::new();
    let mut i: usize = 0;
    while i < s.len()
        invariant
            i <= s@.len(),
            s@ == diagnostics@,
            report_records(s@, 0) == records@ + report_records(s@, i as int),
            report_faults(s@, 0) == faults_of(errors@) + report_faults(s@, i as int),
        decreases s@.len() - i,
    {
        proof {
            lemma_line_end(s@, i as int);
        }
        let mut e: usize = i;
        while e < s.len() && s[e] != '\n'
            invariant
                i <= e <= s@.len(),
                line_end(s@, e as int) == line_end(s@, i as int),
            decreases s@.len() - e,
        {
            e = e + 1;
        }
        let mut hi: usize = e;
        if e > i && s[e - 1] == '\r' {
            hi = e - 1;
        }
        let line = copy_range(&s, i, hi);
        assert(line@ =~= line_at(s@, i as int));
        let ghost rest = if e < s@.len() {
            report_records(s@, e + 1)
        } else {
            Seq::empty()
        };
        let ghost rest_faults = if e < s@.len() {
            report_faults(s@, e + 1)
        } else {
            Seq::empty()
        };
        let ghost before = errors@;
        match PingResult::parse_chars(&line) {
            Ok(p) => {
                records.push(p);
            },
            Err(err) => {
                errors.push(err);
                assert(faults_of(errors@) =~= faults_of(before) + seq![err@]);
            },
        }
        assert(report_records(s@, 0) =~= records@ + rest);
        assert(report_faults(s@, 0) =~= faults_of(errors@) + rest_faults);
        if e < s.len() {
            i = e + 1;
        } else {
            i = e;
            assert(report_records(s@, i as int) =~= Seq::<PingResult>::empty());
            assert(report_faults(s@, i as int) =~= Seq::<ParseFault>::empty());
        }
    }
    assert(report_records(s@, i as int) =~= Seq::<PingResult>::empty());
    assert(report_faults(s@, i as int) =~= Seq::<ParseFault>::empty());
    (records, errors)
}

/// The results of a sweep, with the errors of the report lines that were
/// skipped, from the tool's exit status and diagnostic text.
pub fn sweep_report(status: Option<i32>, diagnostics: &str) -> (r: Result<
    (Vec<PingResult>, Vec<FpingParseError>),
    SweepError,
>)
    ensures
        match r {
            Ok((v, errors)) => sweep_outcome(status, diagnostics@) == Ok::<
                Seq<PingResult>,
                Seq<char>,
            >(v@) && faults_of(errors@) == report_faults(diagnostics@, 0),
            Err(SweepError::CommandFailed { diagnostic_text }) => sweep_outcome(
                status,
                diagnostics@,
            ) == Err::<Seq<PingResult>, Seq<char>>(diagnostic_text@),
        },
{
    if let Some(code) = status {
        if code == SWEEP_FAILURE_STATUS {
            return Err(SweepError::CommandFailed { diagnostic_text: String::from_str(diagnostics) });
        }
    }
    Ok(read_report(diagnostics))
}

/// The results of a sweep, from the tool's exit status and diagnostic text.
pub fn sweep_results(status: Option<i32>, diagnostics: &str) -> (r: Result<Vec<PingResult>, SweepError>)
    ensures
        match r {
            Ok(v) => sweep_outcome(status, diagnostics@) == Ok::<Seq<PingResult>, Seq<char>>(v@),
            Err(SweepError::CommandFailed { diagnostic_text }) => sweep_outcome(
                status,
                diagnostics@,
            ) == Err::<Seq<PingResult>, Seq<char>>(diagnostic_text@),
        },
{
    match sweep_report(status, diagnostics) {
        Ok((v, _)) => Ok(v),
        Err(e) => Err(e),
    }
}

} // verus!
