//! Calibration values: each line contributes ten times its first score match
//! plus its last, where a match is any scoring token (a digit, or later also
//! a spelled-out digit) starting at some position.

use vstd::prelude::*;
use vstd::string::*;

use crate::day::{Day, DayResult};
use crate::text::{is_match_at, match_at, u64_to_string};

verus! {

pub struct Instance;

/// The score of the earliest match: positions are scanned left to right, and
/// at each position the scoring tokens in their given order.
pub open spec fn scan_first(l: Seq<char>, sc: Seq<(String, u32)>, i: int, k: int) -> Option<u32>
    decreases l.len() - i, sc.len() - k,
{
    if i < 0 || k < 0 || i >= l.len() {
        None
    } else if k >= sc.len() {
        scan_first(l, sc, i + 1, 0)
    } else if match_at(l, sc[k].0@, i) {
        Some(sc[k].1)
    } else {
        scan_first(l, sc, i, k + 1)
    }
}

/// The score of the latest match: positions are scanned right to left, and at
/// each position the scoring tokens in reverse order — the last match a
/// left-to-right overwrite scan would keep.
pub open spec fn scan_last(l: Seq<char>, sc: Seq<(String, u32)>, i: int, k: int) -> Option<u32>
    decreases i + 1, k + 1,
{
    if i < 0 {
        None
    } else if k < 0 {
        scan_last(l, sc, i - 1, sc.len() - 1)
    } else if k >= sc.len() || i >= l.len() {
        None
    } else if match_at(l, sc[k].0@, i) {
        Some(sc[k].1)
    } else {
        scan_last(l, sc, i, k - 1)
    }
}

/// A line's calibration value: ten times its first score plus its last score,
/// zero where no token matches.
pub open spec fn line_value(l: Seq<char>, sc: Seq<(String, u32)>) -> int {
    let first = match scan_first(l, sc, 0, 0) {
        Some(v) => v as int,
        None => 0,
    };
    let last = match scan_last(l, sc, l.len() - 1, sc.len() - 1) {
        Some(v) => v as int,
        None => 0,
    };
    first * 10 + last
}

/// The calibration values of the first `k` lines, summed.
pub open spec fn sum_values(lines: Seq<String>, sc: Seq<(String, u32)>, k: int) -> int
    decreases k,
{
    if k <= 0 || k > lines.len() {
        0
    } else {
        sum_values(lines, sc, k - 1) + line_value(lines[k - 1]@, sc)
    }
}

/// The earliest score match of one line.
#[verifier::loop_isolation(false)]
fn first_score(l: &str, scores: &Vec<(String, u32)>) -> (r: Option<u32>)
    ensures
        r == scan_first(l@, scores@, 0, 0),
{
    let llen = l.unicode_len();
    let slen = scores.len();
    let mut i: usize = 0;
    while i < llen
        invariant
            0 <= i <= llen,
            scan_first(l@, scores@, 0, 0) == scan_first(l@, scores@, i as int, 0),
        decreases llen - i,
    {
        let mut k: usize = 0;
        while k < slen
            invariant
                0 <= k <= slen,
                i < llen,
                scan_first(l@, scores@, 0, 0) == scan_first(l@, scores@, i as int, k as int),
            decreases slen - k,
        {
            let m = &scores[k].0;
            let mlen = m.unicode_len();
            if mlen <= llen - i {
                if is_match_at(l, m.as_str(), i) {
                    return Some(scores[k].1);
                }
            } else {
                assert(!match_at(l@, scores@[k as int].0@, i as int));
            }
            k += 1;
        }
        i += 1;
    }
    None
}

/// The latest score match of one line.
#[verifier::loop_isolation(false)]
fn last_score(l: &str, scores: &Vec<(String, u32)>) -> (r: Option<u32>)
    ensures
        r == scan_last(l@, scores@, l@.len() - 1, scores@.len() - 1),
{
    let llen = l.unicode_len();
    let slen = scores.len();
    let mut i1: usize = llen;
    while i1 > 0
        invariant
            0 <= i1 <= llen,
            scan_last(l@, scores@, llen - 1, slen - 1) == scan_last(
                l@,
                scores@,
                i1 - 1,
                slen - 1,
            ),
        decreases i1,
    {
        let i = i1 - 1;
        let mut k1: usize = slen;
        while k1 > 0
            invariant
                0 <= k1 <= slen,
                i == i1 - 1 < llen,
                scan_last(l@, scores@, llen - 1, slen - 1) == scan_last(
                    l@,
                    scores@,
                    i as int,
                    k1 - 1,
                ),
            decreases k1,
        {
            let k = k1 - 1;
            let m = &scores[k].0;
            let mlen = m.unicode_len();
            if mlen <= llen - i {
                if is_match_at(l, m.as_str(), i) {
                    return Some(scores[k].1);
                }
            } else {
                assert(!match_at(l@, scores@[k as int].0@, i as int));
            }
            k1 -= 1;
        }
        i1 -= 1;
    }
    None
}

/// Earlier prefixes sum to no more than later ones.
proof fn lemma_sum_values_prefix(lines: Seq<String>, sc: Seq<(String, u32)>, j: int, k: int)
    requires
        0 <= j <= k <= lines.len(),
        forall|a: int| 0 <= a < sc.len() ==> (#[trigger] sc[a]).1 <= 9,
    ensures
        sum_values(lines, sc, j) <= sum_values(lines, sc, k),
    decreases k - j,
{
    if j < k {
        lemma_sum_values_prefix(lines, sc, j, k - 1);
        lemma_line_value_bounds(lines[k - 1]@, sc);
    }
}

/// With single-digit scores, every line value lies between zero and 99.
proof fn lemma_line_value_bounds(l: Seq<char>, sc: Seq<(String, u32)>)
    requires
        forall|a: int| 0 <= a < sc.len() ==> (#[trigger] sc[a]).1 <= 9,
    ensures
        0 <= line_value(l, sc) <= 99,
{
    lemma_scan_first_bound(l, sc, 0, 0);
    lemma_scan_last_bound(l, sc, l.len() - 1, sc.len() - 1);
}

/// A first-scan result is one of the scores.
proof fn lemma_scan_first_bound(l: Seq<char>, sc: Seq<(String, u32)>, i: int, k: int)
    requires
        forall|a: int| 0 <= a < sc.len() ==> (#[trigger] sc[a]).1 <= 9,
    ensures
        scan_first(l, sc, i, k) matches Some(v) ==> v <= 9,
    decreases l.len() - i, sc.len() - k,
{
    if i < 0 || k < 0 || i >= l.len() {
    } else if k >= sc.len() {
        lemma_scan_first_bound(l, sc, i + 1, 0);
    } else if match_at(l, sc[k].0@, i) {
    } else {
        lemma_scan_first_bound(l, sc, i, k + 1);
    }
}

/// A last-scan result is one of the scores.
proof fn lemma_scan_last_bound(l: Seq<char>, sc: Seq<(String, u32)>, i: int, k: int)
    requires
        forall|a: int| 0 <= a < sc.len() ==> (#[trigger] sc[a]).1 <= 9,
    ensures
        scan_last(l, sc, i, k) matches Some(v) ==> v <= 9,
    decreases i + 1, k + 1,
{
    if i < 0 {
    } else if k < 0 {
        lemma_scan_last_bound(l, sc, i - 1, sc.len() - 1);
    } else if k >= sc.len() || i >= l.len() {
    } else if match_at(l, sc[k].0@, i) {
    } else {
        lemma_scan_last_bound(l, sc, i, k - 1);
    }
}

/// Sums every line's calibration value against the scoring tokens. `None`
/// exactly when the sum leaves `u32`.
#[verifier::loop_isolation(false)]
pub fn calibration_value(lines: &Vec<String>, scores: &Vec<(String, u32)>) -> (r: Option<u32>)
    requires
        forall|a: int| 0 <= a < scores@.len() ==> (#[trigger] scores@[a]).1 <= 9,
    ensures
        match r {
            Some(v) => v == sum_values(lines@, scores@, lines@.len() as int),
            None => sum_values(lines@, scores@, lines@.len() as int) > u32::MAX,
        },
{
    let mut total: u32 = 0;
    let mut i: usize = 0;
    while i < lines.len()
        invariant
            0 <= i <= lines@.len(),
            total == sum_values(lines@, scores@, i as int),
        decreases lines@.len() - i,
    {
        let l = &lines[i];
        let first = match first_score(l.as_str(), scores) {
            Some(v) => v,
            None => 0,
        };
        let last = match last_score(l.as_str(), scores) {
            Some(v) => v,
            None => 0,
        };
        proof {
            lemma_line_value_bounds(l@, scores@);
            lemma_scan_first_bound(l@, scores@, 0, 0);
            lemma_scan_last_bound(l@, scores@, l@.len() - 1, scores@.len() - 1);
        }
        let value = first * 10 + last;
        total = match total.checked_add(value) {
            Some(t) => t,
            None => {
                proof {
                    lemma_sum_values_prefix(lines@, scores@, i + 1, lines@.len() as int);
                }
                return None;
            },
        };
        i += 1;
    }
    Some(total)
}

impl Instance {
    /// Whole-day driver: part one scores only the digits, part two also the
    /// spelled-out digits.
    pub fn solve(&self, lines: &Vec<String>) -> (r: Result<DayResult, String>) {
        let mut scores: Vec<(String, u32)> = Vec::new();
        let mut d: u32 = 1;
        while d <= 9
            invariant
                1 <= d <= 10,
                forall|a: int| 0 <= a < scores@.len() ==> (#[trigger] scores@[a]).1 <= 9,
            decreases 10 - d,
        {
            scores.push((u64_to_string(d as u64), d));
            d += 1;
        }
        let part1 = match calibration_value(lines, &scores) {
            Some(v) => v,
            None => {
                return Err("calibration sum overflows".to_owned());
            },
        };
        scores.push(("one".to_owned(), 1));
        scores.push(("two".to_owned(), 2));
        scores.push(("three".to_owned(), 3));
        scores.push(("four".to_owned(), 4));
        scores.push(("five".to_owned(), 5));
        scores.push(("six".to_owned(), 6));
        scores.push(("seven".to_owned(), 7));
        scores.push(("eight".to_owned(), 8));
        scores.push(("nine".to_owned(), 9));
        assert(forall|a: int| 0 <= a < scores@.len() ==> (#[trigger] scores@[a]).1 <= 9);
        let part2 = match calibration_value(lines, &scores) {
            Some(v) => v,
            None => {
                return Err("calibration sum overflows".to_owned());
            },
        };
        Ok(
            DayResult {
                part1: u64_to_string(part1 as u64),
                part2: Some(u64_to_string(part2 as u64)),
            },
        )
    }
}

impl Day for Instance {
    fn run(&self, lines: Vec<String>) -> Result<DayResult, String> {
        self.solve(&lines)
    }
}

} // verus!
