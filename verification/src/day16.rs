//! Beam tracing: a light beam enters a grid of mirrors and splitters and is
//! reflected and split; the answer counts the energized tiles, then the best
//! entry point.

use vstd::prelude::*;
use vstd::string::*;

use crate::day::{Day, DayResult};
use crate::text::u64_to_string;

verus! {

pub struct Instance;

/// A travel direction on the grid; rows grow downward.
#[derive(Debug, Clone, Copy, PartialEq, Eq, Structural, Hash)]
pub enum Direction {
    Up,
    Down,
    Right,
    Left,
}

/// The tile one step in direction `d` from `c`, on a one-based grid.
pub open spec fn next_spec(d: Direction, c: (usize, usize)) -> (int, int) {
    match d {
        Direction::Up => (c.0 as int, c.1 - 1),
        Direction::Down => (c.0 as int, c.1 + 1),
        Direction::Right => (c.0 + 1, c.1 as int),
        Direction::Left => (c.0 - 1, c.1 as int),
    }
}

impl Direction {
    /// One step from `c`. The coordinates stay in the machine range.
    pub fn next(&self, c: &(usize, usize)) -> (r: (usize, usize))
        requires
            c.0 >= 1,
            c.1 >= 1,
            c.0 < usize::MAX,
            c.1 < usize::MAX,
        ensures
            (r.0 as int, r.1 as int) == next_spec(*self, *c),
    {
        match self {
            Direction::Up => (c.0, c.1 - 1),
            Direction::Down => (c.0, c.1 + 1),
            Direction::Right => (c.0 + 1, c.1),
            Direction::Left => (c.0 - 1, c.1),
        }
    }
}

/// A mirror tile: `/` leans north-east, `\` leans north-west.
#[derive(Debug, Clone, Copy, PartialEq, Eq, Structural)]
pub enum Mirror {
    NorthEast,
    NorthWest,
}

/// The direction a beam leaves a mirror.
pub open spec fn mirror_out(m: Mirror, d: Direction) -> Direction {
    match m {
        Mirror::NorthEast => match d {
            Direction::Up => Direction::Right,
            Direction::Down => Direction::Left,
            Direction::Right => Direction::Up,
            Direction::Left => Direction::Down,
        },
        Mirror::NorthWest => match d {
            Direction::Up => Direction::Left,
            Direction::Down => Direction::Right,
            Direction::Right => Direction::Down,
            Direction::Left => Direction::Up,
        },
    }
}

impl Mirror {
    /// Reflects the beam: the outgoing direction and the tile it moves to.
    pub fn next(&self, d: Direction, c: &(usize, usize)) -> (r: (Direction, (usize, usize)))
        requires
            c.0 >= 1,
            c.1 >= 1,
            c.0 < usize::MAX,
            c.1 < usize::MAX,
        ensures
            r.0 == mirror_out(*self, d),
            (r.1.0 as int, r.1.1 as int) == next_spec(mirror_out(*self, d), *c),
    {
        let out = match self {
            Mirror::NorthEast => match d {
                Direction::Up => Direction::Right,
                Direction::Down => Direction::Left,
                Direction::Right => Direction::Up,
                Direction::Left => Direction::Down,
            },
            Mirror::NorthWest => match d {
                Direction::Up => Direction::Left,
                Direction::Down => Direction::Right,
                Direction::Right => Direction::Down,
                Direction::Left => Direction::Up,
            },
        };
        let c2 = out.next(c);
        (out, c2)
    }
}

/// A splitter tile: `-` lies horizontal, `|` stands vertical.
#[derive(Debug, Clone, Copy, PartialEq, Eq, Structural)]
pub enum Splitter {
    Horizontal,
    Vertical,
}

/// Whether a beam passes the splitter along its axis.
pub open spec fn passes(s: Splitter, d: Direction) -> bool {
    match (s, d) {
        (Splitter::Horizontal, Direction::Right) => true,
        (Splitter::Horizontal, Direction::Left) => true,
        (Splitter::Vertical, Direction::Up) => true,
        (Splitter::Vertical, Direction::Down) => true,
        _ => false,
    }
}

impl Splitter {
    /// Splits or passes the beam: one outgoing beam along the axis, two
    /// sideways beams across it.
    pub fn next(&self, d: Direction, c: &(usize, usize)) -> (r: Vec<(Direction, (usize, usize))>)
        requires
            c.0 >= 1,
            c.1 >= 1,
            c.0 < usize::MAX,
            c.1 < usize::MAX,
        ensures
            passes(*self, d) ==> r@.len() == 1 && r@[0].0 == d && ((r@[0].1.0 as int, r@[0].1.1
                as int) == next_spec(d, *c)),
            !passes(*self, d) && *self == Splitter::Vertical ==> r@.len() == 2 && r@[0].0
                == Direction::Up && r@[1].0 == Direction::Down,
            !passes(*self, d) && *self == Splitter::Horizontal ==> r@.len() == 2 && r@[0].0
                == Direction::Right && r@[1].0 == Direction::Left,
            forall|k: int|
                0 <= k < r@.len() ==> (((#[trigger] r@[k]).1.0 as int, r@[k].1.1 as int)
                    == next_spec(r@[k].0, *c)),
    {
        let mut r: Vec<(Direction, (usize, usize))> = Vec::new();
        let along = match (self, d) {
            (Splitter::Horizontal, Direction::Right) => true,
            (Splitter::Horizontal, Direction::Left) => true,
            (Splitter::Vertical, Direction::Up) => true,
            (Splitter::Vertical, Direction::Down) => true,
            _ => false,
        };
        if along {
            r.push((d, d.next(c)));
        } else {
            match self {
                Splitter::Vertical => {
                    r.push((Direction::Up, Direction::Up.next(c)));
                    r.push((Direction::Down, Direction::Down.next(c)));
                },
                Splitter::Horizontal => {
                    r.push((Direction::Right, Direction::Right.next(c)));
                    r.push((Direction::Left, Direction::Left.next(c)));
                },
            }
        }
        r
    }
}

/// What a special grid character holds.
#[derive(Debug, Clone, Copy, PartialEq, Eq, Structural)]
pub enum GridEntry {
    Mirror(Mirror),
    Splitter(Splitter),
}

/// The entry a grid character denotes, if any.
pub open spec fn entry_of(c: char) -> Option<GridEntry> {
    if c == '/' {
        Some(GridEntry::Mirror(Mirror::NorthEast))
    } else if c == '\\' {
        Some(GridEntry::Mirror(Mirror::NorthWest))
    } else if c == '|' {
        Some(GridEntry::Splitter(Splitter::Vertical))
    } else if c == '-' {
        Some(GridEntry::Splitter(Splitter::Horizontal))
    } else {
        None
    }
}

impl GridEntry {
    /// Reads one grid character.
    pub fn from_char(c: char) -> (r: Option<GridEntry>)
        ensures
            r == entry_of(c),
    {
        match c {
            '/' => Some(GridEntry::Mirror(Mirror::NorthEast)),
            '\\' => Some(GridEntry::Mirror(Mirror::NorthWest)),
            '|' => Some(GridEntry::Splitter(Splitter::Vertical)),
            '-' => Some(GridEntry::Splitter(Splitter::Horizontal)),
            _ => None,
        }
    }
}

/// The grid: the special tiles at their one-based coordinates, plus the
/// bounds.
#[derive(Debug)]
pub struct Grid {
    pub entries: Vec<((usize, usize), GridEntry)>,
    pub x_len: usize,
    pub y_len: usize,
}

impl Grid {
    /// Reads the grid: every mirror or splitter with its one-based
    /// coordinates, in scan order.
    #[verifier::loop_isolation(false)]
    pub fn from_lines(lines: &Vec<String>) -> (r: Grid)
        ensures
            r.x_len >= 1,
            r.y_len >= 1,
            forall|k: int|
                0 <= k < r.entries@.len() ==> ({
                    let ((x, y), e) = #[trigger] r.entries@[k];
                    &&& 1 <= y <= lines@.len()
                    &&& 1 <= x <= lines@[y - 1]@.len()
                    &&& Some(e) == entry_of(lines@[y - 1]@[x - 1])
                }),
    {
        let mut entries: Vec<((usize, usize), GridEntry)> = Vec::new();
        let mut max_x: usize = 0;
        let mut max_y: usize = 0;
        let mut y: usize = 0;
        while y < lines.len()
            invariant
                0 <= y <= lines@.len(),
                max_x < usize::MAX,
                max_y < usize::MAX,
                forall|k: int|
                    0 <= k < entries@.len() ==> ({
                        let ((x, yy), e) = #[trigger] entries@[k];
                        &&& 1 <= yy <= lines@.len()
                        &&& 1 <= x <= lines@[yy - 1]@.len()
                        &&& Some(e) == entry_of(lines@[yy - 1]@[x - 1])
                    }),
            decreases lines@.len() - y,
        {
            if y > max_y {
                max_y = y;
            }
            let l = lines[y].as_str();
            let llen = l.unicode_len();
            let mut x: usize = 0;
            while x < llen
                invariant
                    0 <= x <= llen,
                    llen == l@.len(),
                    y < lines@.len(),
                    max_x < usize::MAX,
                    max_y < usize::MAX,
                    l@ == lines@[y as int]@,
                    forall|k: int|
                        0 <= k < entries@.len() ==> ({
                            let ((xx, yy), e) = #[trigger] entries@[k];
                            &&& 1 <= yy <= lines@.len()
                            &&& 1 <= xx <= lines@[yy - 1]@.len()
                            &&& Some(e) == entry_of(lines@[yy - 1]@[xx - 1])
                        }),
                decreases llen - x,
            {
                if x > max_x {
                    max_x = x;
                }
                if x < usize::MAX && y < usize::MAX {
                    match GridEntry::from_char(l.get_char(x)) {
                        Some(e) => {
                            entries.push(((x + 1, y + 1), e));
                        },
                        None => {},
                    }
                }
                x += 1;
            }
            y += 1;
        }
        Grid { entries, x_len: max_x + 1, y_len: max_y + 1 }
    }

    /// Whether the one-based coordinates lie on the grid.
    pub fn contains(&self, c: &(usize, usize)) -> (r: bool)
        ensures
            r == (c.0 > 0 && c.1 > 0 && c.0 <= self.x_len && c.1 <= self.y_len),
    {
        c.0 > 0 && c.1 > 0 && c.0 <= self.x_len && c.1 <= self.y_len
    }

    /// The special entry at `c`, if any.
    fn entry_at(&self, c: &(usize, usize)) -> (r: Option<GridEntry>) {
        let mut k: usize = 0;
        while k < self.entries.len()
            decreases self.entries@.len() - k,
        {
            let ((x, y), e) = self.entries[k];
            if x == c.0 && y == c.1 {
                return Some(e);
            }
            k += 1;
        }
        None
    }

    /// Traces one beam from its start until every beam state has been seen,
    /// and counts the distinct energized tiles. Every counted tile lies on
    /// the grid, and the count never exceeds the grid size.
    #[verifier::loop_isolation(false)]
    pub fn beam(&self, start: &(Direction, (usize, usize))) -> (r: usize)
        requires
            self.contains_spec(start.1),
            self.x_len < 0x4000,
            self.y_len < 0x4000,
        ensures
            r <= self.x_len * self.y_len,
    {
        let mut visited: Vec<(Direction, (usize, usize))> = Vec::new();
        visited.push(*start);
        let mut beams: Vec<(Direction, (usize, usize))> = Vec::new();
        beams.push(*start);
        // Four directions per tile bound the number of distinct beam states.
        proof {
            assert(4 * self.x_len * self.y_len < 0x40000000) by (nonlinear_arith)
                requires
                    self.x_len < 0x4000,
                    self.y_len < 0x4000,
            ;
            assert(self.x_len * self.y_len <= 4 * self.x_len * self.y_len) by (nonlinear_arith)
                requires
                    self.x_len >= 0,
                    self.y_len >= 0,
            ;
        }
        let cap: usize = 4 * self.x_len * self.y_len;
        let mut steps: usize = 0;
        while beams.len() > 0 && steps < cap
            invariant
                0 <= steps <= cap,
                forall|k: int|
                    0 <= k < visited@.len() ==> self.contains_spec((#[trigger] visited@[k]).1),
                forall|k: int|
                    0 <= k < beams@.len() ==> self.contains_spec((#[trigger] beams@[k]).1),
            decreases cap - steps,
        {
            steps += 1;
            let beam = match beams.pop() {
                Some(b) => b,
                None => {
                    break ;
                },
            };
            let mut next: Vec<(Direction, (usize, usize))> = Vec::new();
            match self.entry_at(&beam.1) {
                Some(GridEntry::Mirror(m)) => {
                    let n = m.next(beam.0, &beam.1);
                    next.push(n);
                },
                Some(GridEntry::Splitter(s)) => {
                    next = s.next(beam.0, &beam.1);
                },
                None => {
                    next.push((beam.0, beam.0.next(&beam.1)));
                },
            }
            let mut k: usize = 0;
            while k < next.len()
                invariant
                    0 <= k <= next@.len(),
                    forall|a: int|
                        0 <= a < visited@.len() ==> self.contains_spec(
                            (#[trigger] visited@[a]).1,
                        ),
                    forall|a: int|
                        0 <= a < beams@.len() ==> self.contains_spec((#[trigger] beams@[a]).1),
                decreases next@.len() - k,
            {
                let cand = next[k];
                if self.contains(&cand.1) && !contains_state(&visited, &cand) {
                    visited.push(cand);
                    beams.push(cand);
                }
                k += 1;
            }
        }
        // Count the energized tiles by walking the grid.
        let ghost ny = self.y_len as int;
        let mut count: usize = 0;
        let mut x: usize = 1;
        proof {
            let d0: int = x - 1;
            assert(d0 * ny == 0) by (nonlinear_arith)
                requires
                    d0 == 0,
            ;
        }
        while x <= self.x_len
            invariant
                1 <= x <= self.x_len + 1,
                count <= (x - 1) * ny,
            decreases self.x_len + 1 - x,
        {
            let mut y: usize = 1;
            while y <= self.y_len
                invariant
                    1 <= x <= self.x_len,
                    1 <= y <= self.y_len + 1,
                    count <= (x - 1) * ny + (y - 1),
                decreases self.y_len + 1 - y,
            {
                let mut hit = false;
                let mut a: usize = 0;
                while a < visited.len()
                    decreases visited@.len() - a,
                {
                    let t = visited[a].1;
                    if t.0 == x && t.1 == y {
                        hit = true;
                    }
                    a += 1;
                }
                if hit {
                    proof {
                        assert(count < 0x10000000) by (nonlinear_arith)
                            requires
                                count <= (x - 1) * ny + (y - 1),
                                1 <= x <= self.x_len < 0x4000,
                                1 <= y <= self.y_len < 0x4000,
                                ny == self.y_len,
                        ;
                    }
                    count += 1;
                }
                y += 1;
            }
            proof {
                assert((x + 1 - 1) * ny == (x - 1) * ny + ny) by (nonlinear_arith);
            }
            x += 1;
        }
        proof {
            assert((self.x_len + 1 - 1) * ny == self.x_len * self.y_len);
        }
        count
    }

    /// The tile lies on the grid.
    pub open spec fn contains_spec(&self, c: (usize, usize)) -> bool {
        c.0 > 0 && c.1 > 0 && c.0 <= self.x_len && c.1 <= self.y_len
    }

    /// The best energized count over every edge entry.
    #[verifier::loop_isolation(false)]
    pub fn beam_all(&self) -> (r: usize)
        requires
            1 <= self.x_len < 0x4000,
            1 <= self.y_len < 0x4000,
        ensures
            r <= self.x_len * self.y_len,
    {
        let mut best: usize = 0;
        let mut x: usize = 1;
        while x <= self.x_len
            invariant
                1 <= x <= self.x_len + 1,
                best <= self.x_len * self.y_len,
            decreases self.x_len + 1 - x,
        {
            let down = self.beam(&(Direction::Down, (x, 1)));
            if down > best {
                best = down;
            }
            let up = self.beam(&(Direction::Up, (x, self.y_len)));
            if up > best {
                best = up;
            }
            x += 1;
        }
        let mut y: usize = 1;
        while y <= self.y_len
            invariant
                1 <= y <= self.y_len + 1,
                best <= self.x_len * self.y_len,
            decreases self.y_len + 1 - y,
        {
            let right = self.beam(&(Direction::Right, (1, y)));
            if right > best {
                best = right;
            }
            let left = self.beam(&(Direction::Left, (self.x_len, y)));
            if left > best {
                best = left;
            }
            y += 1;
        }
        best
    }
}

/// Whether a beam state was already seen.
fn contains_state(v: &Vec<(Direction, (usize, usize))>, s: &(Direction, (usize, usize))) -> (r:
    bool)
    ensures
        r == v@.contains(*s),
{
    let mut k: usize = 0;
    while k < v.len()
        invariant
            0 <= k <= v@.len(),
            forall|a: int| 0 <= a < k ==> v@[a] != *s,
        decreases v@.len() - k,
    {
        let e = v[k];
        if e.0 == s.0 && e.1.0 == s.1.0 && e.1.1 == s.1.1 {
            assert(v@[k as int] == *s);
            return true;
        }
        k += 1;
    }
    assert(!v@.contains(*s));
    false
}

impl Instance {
    /// Whole-day driver: the energized count entering right at the top-left
    /// (part one), then the best edge entry (part two).
    pub fn solve(&self, lines: &Vec<String>) -> (r: Result<DayResult, String>) {
        let grid = Grid::from_lines(lines);
        if grid.x_len >= 0x4000 || grid.y_len >= 0x4000 {
            return Err("grid too large".to_owned());
        }
        let part1 = grid.beam(&(Direction::Right, (1, 1)));
        let part2 = grid.beam_all();
        Ok(
            DayResult {
                part1: u64_to_string(part1 as u64),
                part2: Some(u64_to_string(part2 as u64)),
            },
        )
    }
}

impl Day for Instance {
    fn run(&self, lines: Vec<String>) -> Result<DayResult, String> {
        self.solve(&lines)
    }
}

} // verus!
