//! Expanding universe: galaxies sit on a grid whose empty rows and columns
//! expand. The answer sums, over all galaxy pairs, the taxicab distance with
//! every crossed empty row or column widened by the expansion factor.

use vstd::prelude::*;
use vstd::string::*;

use crate::day::{Day, DayResult};
use crate::text::u64_to_string;

verus! {

pub struct Instance;

/// The galaxies, one coordinate pair per `#`, in scan order.
#[derive(Debug)]
pub struct Galaxy(pub Vec<(u64, u64)>);

/// No galaxy sits in column `x`.
pub open spec fn col_empty(g: Seq<(u64, u64)>, x: int) -> bool {
    forall|k: int| 0 <= k < g.len() ==> (#[trigger] g[k]).0 != x
}

/// No galaxy sits in row `y`.
pub open spec fn row_empty(g: Seq<(u64, u64)>, y: int) -> bool {
    forall|k: int| 0 <= k < g.len() ==> (#[trigger] g[k]).1 != y
}

/// The empty columns below `m`, ascending.
pub open spec fn empty_cols_upto(g: Seq<(u64, u64)>, m: int) -> Seq<u64>
    decreases m,
{
    if m <= 0 {
        Seq::empty()
    } else {
        empty_cols_upto(g, m - 1) + (if col_empty(g, m - 1) {
            seq![(m - 1) as u64]
        } else {
            Seq::empty()
        })
    }
}

/// The empty rows below `m`, ascending.
pub open spec fn empty_rows_upto(g: Seq<(u64, u64)>, m: int) -> Seq<u64>
    decreases m,
{
    if m <= 0 {
        Seq::empty()
    } else {
        empty_rows_upto(g, m - 1) + (if row_empty(g, m - 1) {
            seq![(m - 1) as u64]
        } else {
            Seq::empty()
        })
    }
}

/// How many listed values lie in `[lo, hi)`.
pub open spec fn cnt_between(es: Seq<u64>, lo: int, hi: int) -> nat
    decreases es.len(),
{
    if es.len() == 0 {
        0
    } else {
        cnt_between(es.drop_last(), lo, hi) + (if lo <= es.last() < hi {
            1nat
        } else {
            0nat
        })
    }
}

/// The expanded distance between two galaxies: the taxicab distance plus the
/// crossed empty columns and rows, each counted `expand - 1` extra times.
pub open spec fn pair_dist(
    a: (u64, u64),
    b: (u64, u64),
    ex: Seq<u64>,
    ey: Seq<u64>,
    expand: u64,
) -> int {
    let lox = if a.0 <= b.0 {
        a.0 as int
    } else {
        b.0 as int
    };
    let hix = if a.0 <= b.0 {
        b.0 as int
    } else {
        a.0 as int
    };
    let loy = if a.1 <= b.1 {
        a.1 as int
    } else {
        b.1 as int
    };
    let hiy = if a.1 <= b.1 {
        b.1 as int
    } else {
        a.1 as int
    };
    (hix - lox) + (hiy - loy) + (cnt_between(ex, lox, hix) + cnt_between(ey, loy, hiy)) * (expand
        - 1)
}

/// The expanded distances of all galaxy pairs from `(i, j)` on, `i < j`.
pub open spec fn sum_pairs(
    g: Seq<(u64, u64)>,
    ex: Seq<u64>,
    ey: Seq<u64>,
    expand: u64,
    i: int,
    j: int,
) -> int
    decreases g.len() - i, g.len() - j,
{
    if i < 0 || j <= i || i >= g.len() {
        0
    } else if j >= g.len() {
        sum_pairs(g, ex, ey, expand, i + 1, i + 2)
    } else {
        pair_dist(g[i], g[j], ex, ey, expand) + sum_pairs(g, ex, ey, expand, i, j + 1)
    }
}

/// With any expansion factor of at least one, no pair distance is negative.
proof fn lemma_pair_dist_nonneg(a: (u64, u64), b: (u64, u64), ex: Seq<u64>, ey: Seq<u64>, expand: u64)
    requires
        expand >= 1,
    ensures
        pair_dist(a, b, ex, ey, expand) >= 0,
{
    let crossed = cnt_between(
        ex,
        if a.0 <= b.0 {
            a.0 as int
        } else {
            b.0 as int
        },
        if a.0 <= b.0 {
            b.0 as int
        } else {
            a.0 as int
        },
    ) + cnt_between(
        ey,
        if a.1 <= b.1 {
            a.1 as int
        } else {
            b.1 as int
        },
        if a.1 <= b.1 {
            b.1 as int
        } else {
            a.1 as int
        },
    );
    assert(crossed * (expand - 1) >= 0) by (nonlinear_arith)
        requires
            crossed >= 0,
            expand >= 1,
    ;
}

/// With any expansion factor of at least one, no pair sum is negative.
proof fn lemma_sum_pairs_nonneg(
    g: Seq<(u64, u64)>,
    ex: Seq<u64>,
    ey: Seq<u64>,
    expand: u64,
    i: int,
    j: int,
)
    requires
        expand >= 1,
    ensures
        sum_pairs(g, ex, ey, expand, i, j) >= 0,
    decreases g.len() - i, g.len() - j,
{
    if i < 0 || j <= i || i >= g.len() {
    } else if j >= g.len() {
        lemma_sum_pairs_nonneg(g, ex, ey, expand, i + 1, i + 2);
    } else {
        lemma_pair_dist_nonneg(g[i], g[j], ex, ey, expand);
        lemma_sum_pairs_nonneg(g, ex, ey, expand, i, j + 1);
    }
}

/// Counts the listed values inside `[lo, hi)`.
fn cnt_between_exec(es: &Vec<u64>, lo: u64, hi: u64) -> (r: u64)
    ensures
        r == cnt_between(es@, lo as int, hi as int),
{
    let mut r: u64 = 0;
    let mut k: usize = 0;
    while k < es.len()
        invariant
            0 <= k <= es@.len(),
            r <= k,
            r == cnt_between(es@.take(k as int), lo as int, hi as int),
        decreases es@.len() - k,
    {
        proof {
            assert(es@.take(k + 1).drop_last() =~= es@.take(k as int));
        }
        if lo <= es[k] && es[k] < hi {
            r += 1;
        }
        k += 1;
    }
    assert(es@.take(es@.len() as int) =~= es@);
    r
}

impl Galaxy {
    /// Reads the grid: one galaxy per `#` character, in scan order, as
    /// (column, row).
    #[verifier::loop_isolation(false)]
    pub fn new(lines: &Vec<String>) -> (r: Galaxy)
        ensures
            forall|k: int|
                0 <= k < r.0@.len() ==> ((#[trigger] r.0@[k]).1 as int) < lines@.len() && (
                r.0@[k].0 as int) < lines@[r.0@[k].1 as int]@.len() && lines@[r.0@[k].1 as int]@[r.0@[k].0 as int]
                    == '#',
    {
        let mut out: Vec<(u64, u64)> = Vec::new();
        let mut y: usize = 0;
        while y < lines.len()
            invariant
                0 <= y <= lines@.len(),
                forall|k: int|
                    0 <= k < out@.len() ==> ((#[trigger] out@[k]).1 as int) < lines@.len() && (
                    out@[k].0 as int) < lines@[out@[k].1 as int]@.len() && lines@[out@[k].1 as int]@[out@[k].0 as int]
                        == '#',
            decreases lines@.len() - y,
        {
            let l = &lines[y];
            let llen = l.unicode_len();
            let mut x: usize = 0;
            while x < llen
                invariant
                    0 <= x <= llen,
                    llen == l@.len(),
                    y < lines@.len(),
                    l == &lines@[y as int],
                    forall|k: int|
                        0 <= k < out@.len() ==> ((#[trigger] out@[k]).1 as int) < lines@.len() && (
                        out@[k].0 as int) < lines@[out@[k].1 as int]@.len() && lines@[out@[k].1 as int]@[out@[k].0 as int]
                            == '#',
                decreases llen - x,
            {
                if l.as_str().get_char(x) == '#' {
                    out.push((x as u64, y as u64));
                }
                x += 1;
            }
            y += 1;
        }
        Galaxy(out)
    }

    /// Sums the expanded pairwise distances, every crossed empty row or
    /// column counted `expand` wide. `None` when the sum leaves the machine
    /// word.
    #[verifier::loop_isolation(false)]
    pub fn distances(&self, expand: u64) -> (r: Option<u64>)
        requires
            expand >= 1,
            self.0@.len() > 0,
        ensures
            ({
                let g = self.0@;
                let mx = max_x(g, g.len() as int);
                let my = max_y(g, g.len() as int);
                let ex = empty_cols_upto(g, mx as int);
                let ey = empty_rows_upto(g, my as int);
                &&& (r matches Some(v) ==> v == sum_pairs(g, ex, ey, expand, 0, 1))
                &&& (r is None ==> sum_pairs(g, ex, ey, expand, 0, 1) > u64::MAX)
            }),
    {
        let ghost g = self.0@;
        let n = self.0.len();
        // The grid bounds: the largest occupied column and row.
        let mut mx: u64 = 0;
        let mut k: usize = 0;
        while k < n
            invariant
                0 <= k <= n,
                n == g.len(),
                mx == max_x(g, k as int),
            decreases n - k,
        {
            if self.0[k].0 > mx {
                mx = self.0[k].0;
            }
            k += 1;
        }
        let mut my: u64 = 0;
        k = 0;
        while k < n
            invariant
                0 <= k <= n,
                n == g.len(),
                my == max_y(g, k as int),
            decreases n - k,
        {
            if self.0[k].1 > my {
                my = self.0[k].1;
            }
            k += 1;
        }
        // The empty columns and rows, ascending.
        let mut ex: Vec<u64> = Vec::new();
        let mut x: u64 = 0;
        while x < mx
            invariant
                0 <= x <= mx,
                n == g.len(),
                ex@ == empty_cols_upto(g, x as int),
            decreases mx - x,
        {
            let mut empty = true;
            let mut a: usize = 0;
            while a < n
                invariant
                    0 <= a <= n,
                    n == g.len(),
                    empty == forall|b: int| 0 <= b < a ==> (#[trigger] g[b]).0 != x,
                decreases n - a,
            {
                if self.0[a].0 == x {
                    empty = false;
                }
                a += 1;
            }
            let ghost pre = ex@;
            if empty {
                ex.push(x);
                proof {
                    assert(ex@ =~= pre + seq![x]);
                }
            } else {
                proof {
                    assert(!col_empty(g, x as int));
                    assert(ex@ =~= pre + Seq::<u64>::empty());
                }
            }
            x += 1;
        }
        let mut ey: Vec<u64> = Vec::new();
        let mut yy: u64 = 0;
        while yy < my
            invariant
                0 <= yy <= my,
                n == g.len(),
                ey@ == empty_rows_upto(g, yy as int),
            decreases my - yy,
        {
            let mut empty = true;
            let mut a: usize = 0;
            while a < n
                invariant
                    0 <= a <= n,
                    n == g.len(),
                    empty == forall|b: int| 0 <= b < a ==> (#[trigger] g[b]).1 != yy,
                decreases n - a,
            {
                if self.0[a].1 == yy {
                    empty = false;
                }
                a += 1;
            }
            let ghost pre = ey@;
            if empty {
                ey.push(yy);
                proof {
                    assert(ey@ =~= pre + seq![yy]);
                }
            } else {
                proof {
                    assert(!row_empty(g, yy as int));
                    assert(ey@ =~= pre + Seq::<u64>::empty());
                }
            }
            yy += 1;
        }
        proof {
            assert(ex@ == empty_cols_upto(g, max_x(g, g.len() as int) as int));
            assert(ey@ == empty_rows_upto(g, max_y(g, g.len() as int) as int));
        }
        // The pair sum.
        let mut total: u64 = 0;
        let mut i: usize = 0;
        let mut j: usize = 1;
        while i < n
            invariant
                0 <= i <= n,
                i < n ==> i < j <= n,
                i == n ==> j == n,
                n == g.len(),
                ex@ == empty_cols_upto(g, max_x(g, g.len() as int) as int),
                ey@ == empty_rows_upto(g, max_y(g, g.len() as int) as int),
                sum_pairs(g, ex@, ey@, expand, 0, 1) == total + sum_pairs(
                    g,
                    ex@,
                    ey@,
                    expand,
                    i as int,
                    j as int,
                ),
            decreases n - i, n + 1 - j,
        {
            if j >= n {
                i += 1;
                if i < n {
                    j = i + 1;
                } else {
                    j = n;
                    proof {
                        assert(sum_pairs(g, ex@, ey@, expand, i as int, i + 1) == 0);
                        assert(sum_pairs(g, ex@, ey@, expand, i as int, j as int) == 0);
                    }
                }
                continue ;
            }
            let a = self.0[i];
            let b = self.0[j];
            let dx = if a.0 <= b.0 {
                b.0 - a.0
            } else {
                a.0 - b.0
            };
            let dy = if a.1 <= b.1 {
                b.1 - a.1
            } else {
                a.1 - b.1
            };
            let lox = if a.0 <= b.0 {
                a.0
            } else {
                b.0
            };
            let hix = if a.0 <= b.0 {
                b.0
            } else {
                a.0
            };
            let loy = if a.1 <= b.1 {
                a.1
            } else {
                b.1
            };
            let hiy = if a.1 <= b.1 {
                b.1
            } else {
                a.1
            };
            let ghost term = pair_dist(a, b, ex@, ey@, expand);
            proof {
                lemma_sum_pairs_nonneg(g, ex@, ey@, expand, i as int, j + 1);
                assert(sum_pairs(g, ex@, ey@, expand, i as int, j as int) == term + sum_pairs(
                    g,
                    ex@,
                    ey@,
                    expand,
                    i as int,
                    j + 1,
                ));
            }
            let c1 = cnt_between_exec(&ex, lox, hix);
            let c2 = cnt_between_exec(&ey, loy, hiy);
            let extra: u64 = if expand == 1 {
                proof {
                    assert(((c1 + c2) as int) * ((expand - 1) as int) == 0) by (nonlinear_arith)
                        requires
                            expand == 1,
                    ;
                }
                0
            } else {
                let crossed = match c1.checked_add(c2) {
                    Some(c) => c,
                    None => {
                        proof {
                            assert((c1 + c2) * (expand - 1) >= (c1 + c2) * 1) by (nonlinear_arith)
                                requires
                                    expand >= 2,
                                    c1 + c2 >= 0,
                            ;
                            assert(term > u64::MAX);
                        }
                        return None;
                    },
                };
                match crossed.checked_mul(expand - 1) {
                    Some(e) => e,
                    None => {
                        proof {
                            assert(term > u64::MAX);
                        }
                        return None;
                    },
                }
            };
            let d1 = match dx.checked_add(dy) {
                Some(d) => d,
                None => {
                    proof {
                        assert((c1 + c2) * (expand - 1) >= 0) by (nonlinear_arith)
                            requires
                                expand >= 1,
                                c1 + c2 >= 0,
                        ;
                        assert(term > u64::MAX);
                    }
                    return None;
                },
            };
            let d = match d1.checked_add(extra) {
                Some(d) => d,
                None => {
                    proof {
                        assert(term > u64::MAX);
                    }
                    return None;
                },
            };
            proof {
                assert(d == term);
            }
            total = match total.checked_add(d) {
                Some(t) => t,
                None => {
                    proof {
                        assert(sum_pairs(g, ex@, ey@, expand, 0, 1) > u64::MAX);
                    }
                    return None;
                },
            };
            j += 1;
        }
        proof {
            assert(sum_pairs(g, ex@, ey@, expand, n as int, n as int) == 0);
        }
        Some(total)
    }
}

/// The largest occupied column among the first `k` galaxies.
pub open spec fn max_x(g: Seq<(u64, u64)>, k: int) -> u64
    decreases k,
{
    if k <= 0 || k > g.len() {
        0
    } else {
        let rest = max_x(g, k - 1);
        if g[k - 1].0 > rest {
            g[k - 1].0
        } else {
            rest
        }
    }
}

/// The largest occupied row among the first `k` galaxies.
pub open spec fn max_y(g: Seq<(u64, u64)>, k: int) -> u64
    decreases k,
{
    if k <= 0 || k > g.len() {
        0
    } else {
        let rest = max_y(g, k - 1);
        if g[k - 1].1 > rest {
            g[k - 1].1
        } else {
            rest
        }
    }
}

impl Instance {
    /// Whole-day driver: distances with expansion two (part one) and one
    /// million (part two).
    pub fn solve(&self, lines: &Vec<String>) -> (r: Result<DayResult, String>) {
        let galaxy = Galaxy::new(lines);
        if galaxy.0.len() == 0 {
            return Err("no galaxies".to_owned());
        }
        let part1 = match galaxy.distances(2) {
            Some(v) => v,
            None => {
                return Err("distance sum overflows".to_owned());
            },
        };
        let part2 = match galaxy.distances(1000000) {
            Some(v) => v,
            None => {
                return Err("distance sum overflows".to_owned());
            },
        };
        Ok(DayResult { part1: u64_to_string(part1), part2: Some(u64_to_string(part2)) })
    }
}

impl Day for Instance {
    fn run(&self, lines: Vec<String>) -> Result<DayResult, String> {
        self.solve(&lines)
    }
}

} // verus!
