//! Parsing of temperature sample lines.
//!
//! A line holds zero or more readings: each maximal run of ASCII digits is one
//! decimal number, and every other byte separates runs. Line `i` is sampled at
//! `i * TIME_STEP_SIZE` seconds.
use vstd::prelude::*;
use vstd::utf8::encode_utf8;

verus! {

/// Seconds between two consecutive sample lines.
pub const TIME_STEP_SIZE: u64 = 30;

/// One parsed input line: when it was sampled, and the readings it holds.
#[derive(Debug)]
pub struct TemperatureLine {
    pub time_step: u64,
    pub readings: Vec<u32>,
}

/// Errors that may occur while reading temperature data.
#[derive(Debug)]
pub enum ParseError {
    IOError(std::io::Error),
}

#[verifier::external_type_specification]
#[verifier::external_body]
pub struct ExIoError(std::io::Error);

/// The ASCII codes of `0` and `9`.
pub const DIGIT_ZERO: u8 = 48;
pub const DIGIT_NINE: u8 = 57;

pub open spec fn is_digit(b: u8) -> bool {
    DIGIT_ZERO <= b && b <= DIGIT_NINE
}

/// The maximal runs of digits in `s`, left to right. A digit extends the run
/// of the digit just before it, or else starts a new run.
pub open spec fn digit_runs(s: Seq<u8>) -> Seq<Seq<u8>>
    decreases s.len(),
{
    if s.len() == 0 {
        Seq::empty()
    } else {
        let runs = digit_runs(s.drop_last());
        let b = s.last();
        if !is_digit(b) {
            runs
        } else if s.len() >= 2 && is_digit(s[s.len() - 2]) {
            runs.update(runs.len() - 1, runs.last().push(b))
        } else {
            runs.push(seq![b])
        }
    }
}

/// The decimal value of a run of digits.
pub open spec fn digits_value(d: Seq<u8>) -> nat
    decreases d.len(),
{
    if d.len() == 0 {
        0
    } else {
        digits_value(d.drop_last()) * 10 + (d.last() - DIGIT_ZERO) as nat
    }
}

/// The values of the runs that fit in a `u32`, in order; a run too large to be
/// a reading is dropped like any other token that is not a number.
pub open spec fn run_values(runs: Seq<Seq<u8>>) -> Seq<u32>
    decreases runs.len(),
{
    if runs.len() == 0 {
        Seq::empty()
    } else {
        let vals = run_values(runs.drop_last());
        let v = digits_value(runs.last());
        if v <= u32::MAX {
            vals.push(v as u32)
        } else {
            vals
        }
    }
}

/// The readings held by a line, given as its UTF-8 bytes.
pub open spec fn line_readings(s: Seq<u8>) -> Seq<u32> {
    run_values(digit_runs(s))
}

/// The readings held by a line of text.
pub open spec fn text_readings(s: Seq<char>) -> Seq<u32> {
    line_readings(encode_utf8(s))
}

/// The value of a run, or `u32::MAX + 1` for any larger value.
pub open spec fn capped(v: nat) -> nat {
    if v <= u32::MAX {
        v
    } else {
        u32::MAX as nat + 1
    }
}

/// Parses line number `index` (from 0) of the input. Every line gives a
/// `TemperatureLine`, possibly with no readings.
pub fn parse_line(index: usize, line: &str) -> (r: TemperatureLine)
    requires
        index * TIME_STEP_SIZE <= u64::MAX,
    ensures
        r.time_step == index * TIME_STEP_SIZE,
        r.readings@ == text_readings(line@),
{
    let bytes = line.as_bytes();
    let n = bytes.len();
    let mut readings: Vec<u32> = Vec::new();
    let mut in_run = false;
    // value of the run being read, capped
    let mut cur: u64 = 0;
    let mut i: usize = 0;
    while i < n
        invariant
            i <= n,
            n == bytes@.len(),
            in_run == (i > 0 && is_digit(bytes@[i - 1])),
            in_run ==> digit_runs(bytes@.take(i as int)).len() > 0,
            in_run ==> readings@ == run_values(digit_runs(bytes@.take(i as int)).drop_last()),
            in_run ==> cur == capped(digits_value(digit_runs(bytes@.take(i as int)).last())),
            !in_run ==> readings@ == run_values(digit_runs(bytes@.take(i as int))),
        decreases n - i,
    {
        let b = bytes[i];
        let ghost before = bytes@.take(i as int);
        let ghost runs = digit_runs(before);
        proof {
            assert(bytes@.take(i + 1).drop_last() =~= before);
            assert(bytes@.take(i + 1).last() == b);
        }
        if DIGIT_ZERO <= b && b <= DIGIT_NINE {
            let d = (b - DIGIT_ZERO) as u64;
            if in_run {
                proof {
                    let run = runs.last();
                    assert(run.push(b).drop_last() =~= run);
                    assert(digits_value(run.push(b)) == digits_value(run) * 10 + d);
                    assert(runs.update(runs.len() - 1, run.push(b)).drop_last() =~= runs.drop_last());
                }
                if cur <= u32::MAX as u64 {
                    cur = cur * 10 + d;
                    if cur > u32::MAX as u64 {
                        cur = u32::MAX as u64 + 1;
                    }
                }
            } else {
                proof {
                    assert(seq![b].drop_last() =~= Seq::<u8>::empty());
                    assert(seq![b].last() == b);
                    assert(digits_value(Seq::<u8>::empty()) == 0);
                    assert(digits_value(seq![b]) == d);
                    assert(runs.push(seq![b]).drop_last() =~= runs);
                }
                in_run = true;
                cur = d;
            }
        } else if in_run {
            if cur <= u32::MAX as u64 {
                readings.push(cur as u32);
            }
            in_run = false;
        }
        i += 1;
    }
    if in_run {
        if cur <= u32::MAX as u64 {
            readings.push(cur as u32);
        }
    }
    assert(bytes@.take(n as int) =~= bytes@);
    TemperatureLine { time_step: index as u64 * TIME_STEP_SIZE, readings }
}

/// Parses each line of the input in order, line `i` being sampled at
/// `i * TIME_STEP_SIZE` seconds. No line is dropped.
pub fn parse_lines(lines: &Vec<String>) -> (r: Vec<TemperatureLine>)
    requires
        lines.len() * TIME_STEP_SIZE <= u64::MAX,
    ensures
        r.len() == lines.len(),
        forall|i: int|
            0 <= i < r.len() ==> #[trigger] r[i].time_step == i * TIME_STEP_SIZE
                && r[i].readings@ == text_readings(lines[i]@),
{
    let mut r: Vec<TemperatureLine> = Vec::new();
    let mut i: usize = 0;
    while i < lines.len()
        invariant
            i <= lines.len(),
            lines.len() * TIME_STEP_SIZE <= u64::MAX,
            r.len() == i,
            forall|j: int|
                0 <= j < i ==> #[trigger] r[j].time_step == j * TIME_STEP_SIZE
                    && r[j].readings@ == text_readings(lines[j]@),
        decreases lines.len() - i,
    {
        let line = parse_line(i, lines[i].as_str());
        r.push(line);
        i += 1;
    }
    r
}

} // verus!
