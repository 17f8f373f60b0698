//! Sequence extrapolation: each history line is differenced repeatedly until
//! the differences vanish; the next (or previous) value folds those
//! difference levels back together.

use vstd::prelude::*;
use vstd::string::*;

use crate::day::{Day, DayResult};
use crate::text::{i64_to_string, split_str};

verus! {

pub struct Instance;

/// One measured history.
#[derive(Debug)]
pub struct History(pub Vec<i64>);

/// The adjacent differences of a sequence.
pub open spec fn diffs(s: Seq<int>) -> Seq<int> {
    if s.len() == 0 {
        Seq::empty()
    } else {
        Seq::new((s.len() - 1) as nat, |i: int| s[i + 1] - s[i])
    }
}

/// Every entry is zero.
pub open spec fn all_zero(s: Seq<int>) -> bool {
    forall|i: int| 0 <= i < s.len() ==> s[i] == 0
}

/// The forward prediction of a nonempty history: its last value, plus the
/// prediction of its differences until they vanish.
pub open spec fn predict_fwd(s: Seq<int>) -> int
    decreases s.len(),
{
    if s.len() == 0 {
        0
    } else if all_zero(diffs(s)) {
        s.last()
    } else {
        s.last() + predict_fwd(diffs(s))
    }
}

/// The backward prediction of a nonempty history: its first value, minus the
/// backward prediction of its differences until they vanish.
pub open spec fn predict_bwd(s: Seq<int>) -> int
    decreases s.len(),
{
    if s.len() == 0 {
        0
    } else if all_zero(diffs(s)) {
        s.first()
    } else {
        s.first() - predict_bwd(diffs(s))
    }
}

/// Every adjacent difference stays in the machine range.
pub open spec fn diffs_fit(s: Seq<int>) -> bool {
    forall|i: int| 0 <= i < s.len() - 1 ==> i64::MIN <= #[trigger] (s[i + 1] - s[i]) <= i64::MAX
}

/// Forward extrapolation stays in the machine range all the way down the
/// difference table.
pub open spec fn fwd_fits(s: Seq<int>) -> bool
    decreases s.len(),
{
    if s.len() == 0 {
        true
    } else {
        &&& diffs_fit(s)
        &&& (all_zero(diffs(s)) || (fwd_fits(diffs(s)) && i64::MIN <= s.last() + predict_fwd(
            diffs(s),
        ) <= i64::MAX))
    }
}

/// Backward extrapolation stays in the machine range all the way down the
/// difference table.
pub open spec fn bwd_fits(s: Seq<int>) -> bool
    decreases s.len(),
{
    if s.len() == 0 {
        true
    } else {
        &&& diffs_fit(s)
        &&& (all_zero(diffs(s)) || (bwd_fits(diffs(s)) && i64::MIN <= s.first() - predict_bwd(
            diffs(s),
        ) <= i64::MAX))
    }
}

/// The history as mathematical integers.
pub open spec fn hist_view(v: Seq<i64>) -> Seq<int> {
    v.map(|_i: int, x: i64| x as int)
}

/// The adjacent differences, when every one fits the machine word.
fn diffs_checked(v: &Vec<i64>) -> (r: Option<Vec<i64>>)
    requires
        v@.len() >= 1,
    ensures
        r matches Some(d) ==> hist_view(d@) == diffs(hist_view(v@)),
        r is Some <==> diffs_fit(hist_view(v@)),
{
    let mut d: Vec<i64> = Vec::new();
    let mut i: usize = 0;
    while i < v.len() - 1
        invariant
            0 <= i <= v@.len() - 1,
            d@.len() == i,
            forall|k: int| 0 <= k < i ==> (#[trigger] d@[k]) as int == v@[k + 1] - v@[k],
        decreases v@.len() - i,
    {
        let x = match v[i + 1].checked_sub(v[i]) {
            Some(x) => x,
            None => {
                proof {
                    let hv = hist_view(v@);
                    assert(!(i64::MIN <= hv[i + 1] - hv[i as int] <= i64::MAX));
                }
                return None;
            },
        };
        d.push(x);
        i += 1;
    }
    assert(hist_view(d@) =~= diffs(hist_view(v@)));
    proof {
        let hv = hist_view(v@);
        assert forall|k: int| 0 <= k < hv.len() - 1 implies i64::MIN <= #[trigger] (hv[k + 1]
            - hv[k]) <= i64::MAX by {
            assert(hv[k + 1] - hv[k] == hist_view(d@)[k]);
        }
    }
    Some(d)
}

/// Every entry is zero.
fn all_zero_exec(v: &Vec<i64>) -> (r: bool)
    ensures
        r == all_zero(hist_view(v@)),
{
    let mut i: usize = 0;
    while i < v.len()
        invariant
            0 <= i <= v@.len(),
            forall|k: int| 0 <= k < i ==> hist_view(v@)[k] == 0,
        decreases v@.len() - i,
    {
        if v[i] != 0 {
            assert(hist_view(v@)[i as int] != 0);
            return false;
        }
        i += 1;
    }
    true
}

/// Forward extrapolation; `None` when a difference or sum leaves the machine
/// word.
fn predict_fwd_exec(v: &Vec<i64>) -> (r: Option<i64>)
    requires
        v@.len() >= 1,
    ensures
        r matches Some(x) ==> x as int == predict_fwd(hist_view(v@)),
        r is Some <==> fwd_fits(hist_view(v@)),
    decreases v@.len(),
{
    let d = match diffs_checked(v) {
        Some(d) => d,
        None => {
            return None;
        },
    };
    let last = v[v.len() - 1];
    assert(hist_view(v@).last() == last as int);
    if all_zero_exec(&d) {
        Some(last)
    } else {
        assert(d@.len() >= 1) by {
            if d@.len() == 0 {
                assert(all_zero(hist_view(d@)));
            }
        }
        assert(d@.len() < v@.len());
        match predict_fwd_exec(&d) {
            Some(rest) => last.checked_add(rest),
            None => None,
        }
    }
}

/// Backward extrapolation; `None` when a difference leaves the machine word.
fn predict_bwd_exec(v: &Vec<i64>) -> (r: Option<i64>)
    requires
        v@.len() >= 1,
    ensures
        r matches Some(x) ==> x as int == predict_bwd(hist_view(v@)),
        r is Some <==> bwd_fits(hist_view(v@)),
    decreases v@.len(),
{
    let d = match diffs_checked(v) {
        Some(d) => d,
        None => {
            return None;
        },
    };
    let first = v[0];
    assert(hist_view(v@).first() == first as int);
    if all_zero_exec(&d) {
        Some(first)
    } else {
        assert(d@.len() >= 1) by {
            if d@.len() == 0 {
                assert(all_zero(hist_view(d@)));
            }
        }
        assert(d@.len() < v@.len());
        match predict_bwd_exec(&d) {
            Some(rest) => first.checked_sub(rest),
            None => None,
        }
    }
}

impl History {
    /// The next value of the history.
    pub fn predict_forward(&self) -> (r: Option<i64>)
        requires
            self.0@.len() >= 1,
        ensures
            r matches Some(x) ==> x as int == predict_fwd(hist_view(self.0@)),
            r is Some <==> fwd_fits(hist_view(self.0@)),
    {
        self.predict(true)
    }

    /// The value before the history.
    pub fn predict_backward(&self) -> (r: Option<i64>)
        requires
            self.0@.len() >= 1,
        ensures
            r matches Some(x) ==> x as int == predict_bwd(hist_view(self.0@)),
            r is Some <==> bwd_fits(hist_view(self.0@)),
    {
        self.predict(false)
    }

    /// Extrapolates the history in the chosen direction; `None` when a value
    /// along the way leaves the machine word.
    pub fn predict(&self, forward: bool) -> (r: Option<i64>)
        requires
            self.0@.len() >= 1,
        ensures
            forward ==> (r matches Some(x) ==> x as int == predict_fwd(hist_view(self.0@))),
            !forward ==> (r matches Some(x) ==> x as int == predict_bwd(hist_view(self.0@))),
            forward ==> (r is Some <==> fwd_fits(hist_view(self.0@))),
            !forward ==> (r is Some <==> bwd_fits(hist_view(self.0@))),
    {
        if forward {
            predict_fwd_exec(&self.0)
        } else {
            predict_bwd_exec(&self.0)
        }
    }
}

/// Parses one space-separated list of signed numbers.
fn parse_history(s: &str) -> (r: Result<History, String>) {
    proof {
        reveal_strlit(" ");
        reveal_strlit("-");
    }
    let pieces = split_str(s, " ");
    let mut out: Vec<i64> = Vec::new();
    let mut i: usize = 0;
    while i < pieces.len()
        decreases pieces@.len() - i,
    {
        let p = &pieces[i];
        let plen = p.unicode_len();
        if plen == 0 {
            i += 1;
            continue ;
        }
        let neg = p.as_str().get_char(0) == '-';
        let digits = if neg {
            p.as_str().substring_char(1, plen)
        } else {
            p.as_str()
        };
        let mag = match crate::text::parse_u64(digits) {
            Some(v) => v,
            None => {
                return Err("not a number".to_owned());
            },
        };
        let val: i64 = if neg {
            if mag > 0x8000_0000_0000_0000 {
                return Err("number too small".to_owned());
            }
            if mag == 0x8000_0000_0000_0000 {
                i64::MIN
            } else {
                -(mag as i64)
            }
        } else {
            if mag > 0x7fff_ffff_ffff_ffff {
                return Err("number too large".to_owned());
            }
            mag as i64
        };
        out.push(val);
        i += 1;
    }
    Ok(History(out))
}

impl Instance {
    /// Whole-day driver: sum the forward extrapolations (part one) and the
    /// backward ones (part two).
    pub fn solve(&self, lines: &Vec<String>) -> (r: Result<DayResult, String>) {
        let mut part1: i64 = 0;
        let mut part2: i64 = 0;
        let mut i: usize = 0;
        while i < lines.len()
            decreases lines@.len() - i,
        {
            let h = match parse_history(lines[i].as_str()) {
                Ok(h) => h,
                Err(e) => {
                    return Err(e);
                },
            };
            if h.0.len() == 0 {
                return Err("empty history".to_owned());
            }
            let f = match h.predict_forward() {
                Some(v) => v,
                None => {
                    return Err("prediction overflows".to_owned());
                },
            };
            let b = match h.predict_backward() {
                Some(v) => v,
                None => {
                    return Err("prediction overflows".to_owned());
                },
            };
            part1 = match part1.checked_add(f) {
                Some(v) => v,
                None => {
                    return Err("sum overflows".to_owned());
                },
            };
            part2 = match part2.checked_add(b) {
                Some(v) => v,
                None => {
                    return Err("sum overflows".to_owned());
                },
            };
            i += 1;
        }
        Ok(DayResult { part1: i64_to_string(part1), part2: Some(i64_to_string(part2)) })
    }
}

impl Day for Instance {
    fn run(&self, lines: Vec<String>) -> Result<DayResult, String> {
        self.solve(&lines)
    }
}

} // verus!
