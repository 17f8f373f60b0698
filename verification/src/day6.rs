//! Boat races: holding the button for `i` of `time` milliseconds gives speed
//! `i` for the remaining `time - i`, so the boat travels `(time - i) * i`.
//! Each race counts the hold times that beat the record distance.

use vstd::prelude::*;
use vstd::string::*;

use crate::day::{Day, DayResult};
use crate::text::{is_digit, u64_to_string};

verus! {

pub struct Instance;

/// One race: its duration and the record distance.
#[derive(Debug, Clone, Copy, PartialEq, Eq, Structural)]
pub struct Race {
    pub time: u64,
    pub distance: u64,
}

/// How many hold times among `1..k` beat the record: holding `i` travels
/// `(time - i) * i`.
pub open spec fn wins_upto(time: u64, distance: u64, k: int) -> nat
    decreases k,
{
    if k <= 1 {
        0
    } else {
        wins_upto(time, distance, k - 1) + (if (time - (k - 1)) * (k - 1) > distance {
            1nat
        } else {
            0nat
        })
    }
}

impl Race {
    /// The number of hold times that beat the record.
    #[verifier::loop_isolation(false)]
    pub fn wins(&self) -> (r: u64)
        ensures
            r == wins_upto(self.time, self.distance, self.time as int),
    {
        let mut r: u64 = 0;
        let mut i: u64 = 1;
        if self.time == 0 {
            return 0;
        }
        while i < self.time
            invariant
                1 <= i <= self.time,
                r < i,
                r == wins_upto(self.time, self.distance, i as int),
            decreases self.time - i,
        {
            let beats = match (self.time - i).checked_mul(i) {
                Some(p) => p > self.distance,
                None => {
                    // The distance always fits the machine word, so an
                    // overflowing product certainly beats it.
                    proof {
                        assert((self.time - i) * i > u64::MAX);
                    }
                    true
                },
            };
            if beats {
                r += 1;
            }
            i += 1;
        }
        r
    }
}

/// The decimal value of every digit of `s` read in order, other characters
/// skipped — the digit runs of the line concatenated.
pub open spec fn digits_value(s: Seq<char>, k: int) -> nat
    decreases k,
{
    if k <= 0 || k > s.len() {
        0
    } else {
        if is_digit(s[k - 1]) {
            digits_value(s, k - 1) * 10 + (((s[k - 1] as u32) - 48) as nat)
        } else {
            digits_value(s, k - 1)
        }
    }
}

/// Reads every digit of the line in order as one number, ignoring everything
/// else. `None` when the number overflows the machine word.
fn concat_digits(s: &str) -> (r: Option<u64>)
    ensures
        r matches Some(v) ==> v == digits_value(s@, s@.len() as int),
{
    let len = s.unicode_len();
    let mut v: u64 = 0;
    let mut i: usize = 0;
    while i < len
        invariant
            0 <= i <= len,
            len == s@.len(),
            v == digits_value(s@, i as int),
        decreases len - i,
    {
        let c = s.get_char(i);
        if '0' <= c && c <= '9' {
            let d = (c as u32 - 48) as u64;
            let v10 = match v.checked_mul(10) {
                Some(x) => x,
                None => {
                    return None;
                },
            };
            v = match v10.checked_add(d) {
                Some(x) => x,
                None => {
                    return None;
                },
            };
        }
        i += 1;
    }
    Some(v)
}

/// The numbers the digit runs of the line denote, in order.
fn digit_runs(s: &str) -> (r: Option<Vec<u64>>) {
    let len = s.unicode_len();
    let mut out: Vec<u64> = Vec::new();
    let mut i: usize = 0;
    let mut current: u64 = 0;
    let mut in_run = false;
    while i < len
        invariant
            0 <= i <= len,
            len == s@.len(),
        decreases len - i,
    {
        let c = s.get_char(i);
        if '0' <= c && c <= '9' {
            let d = (c as u32 - 48) as u64;
            let v10 = match current.checked_mul(10) {
                Some(x) => x,
                None => {
                    return None;
                },
            };
            current = match v10.checked_add(d) {
                Some(x) => x,
                None => {
                    return None;
                },
            };
            in_run = true;
        } else {
            if in_run {
                out.push(current);
            }
            current = 0;
            in_run = false;
        }
        i += 1;
    }
    if in_run {
        out.push(current);
    }
    Some(out)
}

impl Instance {
    /// Whole-day driver: the first line holds the times, the second the
    /// record distances. Part one multiplies each race's win count; part two
    /// reads each line's digits as one long race.
    pub fn solve(&self, lines: &Vec<String>) -> (r: Result<DayResult, String>) {
        if lines.len() < 2 {
            return Err("missing race lines".to_owned());
        }
        let times = match digit_runs(lines[0].as_str()) {
            Some(v) => v,
            None => {
                return Err("time overflows".to_owned());
            },
        };
        let distances = match digit_runs(lines[1].as_str()) {
            Some(v) => v,
            None => {
                return Err("distance overflows".to_owned());
            },
        };
        if times.len() != distances.len() {
            return Err("times and distances differ in number".to_owned());
        }
        let mut part1: u64 = 1;
        let mut i: usize = 0;
        while i < times.len()
            invariant
                times@.len() == distances@.len(),
            decreases times@.len() - i,
        {
            let race = Race { time: times[i], distance: distances[i] };
            part1 = match part1.checked_mul(race.wins()) {
                Some(v) => v,
                None => {
                    return Err("win product overflows".to_owned());
                },
            };
            i += 1;
        }
        let real_time = match concat_digits(lines[0].as_str()) {
            Some(v) => v,
            None => {
                return Err("time overflows".to_owned());
            },
        };
        let real_distance = match concat_digits(lines[1].as_str()) {
            Some(v) => v,
            None => {
                return Err("distance overflows".to_owned());
            },
        };
        let real_race = Race { time: real_time, distance: real_distance };
        let part2 = real_race.wins();
        Ok(DayResult { part1: u64_to_string(part1), part2: Some(u64_to_string(part2)) })
    }
}

impl Day for Instance {
    fn run(&self, lines: Vec<String>) -> Result<DayResult, String> {
        self.solve(&lines)
    }
}

} // verus!
