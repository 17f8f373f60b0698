//! Falling sand blocks: axis-aligned boxes drop straight down until they rest
//! on the ground or on another block; the puzzle asks which blocks could be
//! removed without anything else falling, and how much would fall otherwise.

use vstd::prelude::*;
use vstd::string::*;

use crate::day::{Day, DayResult};
use crate::text::{dec_val, parse_u64, split_spec, split_str, u64_to_string};

verus! {

pub struct Instance;

/// One lattice point.
#[derive(Debug, Clone, Copy, Hash, PartialEq, Eq, Structural)]
pub struct Coord {
    pub x: u16,
    pub y: u16,
    pub z: u16,
}

/// An axis-aligned box of lattice points, both corners inclusive.
#[derive(Debug, Clone, Copy, PartialEq, Eq, Hash, Structural)]
pub struct Block {
    pub start: Coord,
    pub end: Coord,
}

/// The corners are ordered, so the box is nonempty.
pub open spec fn block_wf(b: Block) -> bool {
    b.start.x <= b.end.x && b.start.y <= b.end.y && b.start.z <= b.end.z
}

/// The box covers the point.
pub open spec fn block_contains(b: Block, c: Coord) -> bool {
    b.start.x <= c.x <= b.end.x && b.start.y <= c.y <= b.end.y && b.start.z <= c.z <= b.end.z
}

/// Strict lexicographic point order: x, then y, then z.
pub open spec fn coord_lt(a: Coord, b: Coord) -> bool {
    a.x < b.x || (a.x == b.x && (a.y < b.y || (a.y == b.y && a.z < b.z)))
}

impl Block {
    /// Every point of the box, in strictly increasing x, y, z order.
    #[verifier::loop_isolation(false)]
    pub fn coords(&self) -> (r: Vec<Coord>)
        requires
            block_wf(*self),
        ensures
            r@.len() == ((self.end.x - self.start.x + 1) as int) * ((self.end.y - self.start.y
                + 1) as int) * ((self.end.z - self.start.z + 1) as int),
            forall|k: int| 0 <= k < r@.len() ==> block_contains(*self, #[trigger] r@[k]),
            forall|i: int, j: int| 0 <= i < j < r@.len() ==> coord_lt(r@[i], r@[j]),
    {
        let mut r: Vec<Coord> = Vec::new();
        let ghost ny = (self.end.y - self.start.y + 1) as int;
        let ghost nz = (self.end.z - self.start.z + 1) as int;
        let mut x: u32 = self.start.x as u32;
        proof {
            let d0: int = x - self.start.x;
            assert(d0 == 0);
            assert(d0 * ny * nz == 0) by (nonlinear_arith)
                requires
                    d0 == 0,
            ;
        }
        while x <= self.end.x as u32
            invariant
                self.start.x <= x <= self.end.x + 1,
                r@.len() == (x - self.start.x) * ny * nz,
                forall|k: int| 0 <= k < r@.len() ==> block_contains(*self, #[trigger] r@[k]),
                forall|k: int| 0 <= k < r@.len() ==> (#[trigger] r@[k]).x < x,
                forall|i: int, j: int| 0 <= i < j < r@.len() ==> coord_lt(r@[i], r@[j]),
            decreases self.end.x + 1 - x,
        {
            let mut y: u32 = self.start.y as u32;
            while y <= self.end.y as u32
                invariant
                    self.start.x <= x <= self.end.x,
                    self.start.y <= y <= self.end.y + 1,
                    r@.len() == (x - self.start.x) * ny * nz + (y - self.start.y) * nz,
                    forall|k: int| 0 <= k < r@.len() ==> block_contains(*self, #[trigger] r@[k]),
                    forall|k: int|
                        0 <= k < r@.len() ==> ((#[trigger] r@[k]).x < x || (r@[k].x == x && r@[k].y
                            < y)),
                    forall|i: int, j: int| 0 <= i < j < r@.len() ==> coord_lt(r@[i], r@[j]),
                decreases self.end.y + 1 - y,
            {
                let mut z: u32 = self.start.z as u32;
                while z <= self.end.z as u32
                    invariant
                        self.start.x <= x <= self.end.x,
                        self.start.y <= y <= self.end.y,
                        self.start.z <= z <= self.end.z + 1,
                        r@.len() == (x - self.start.x) * ny * nz + (y - self.start.y) * nz + (z
                            - self.start.z),
                        forall|k: int| 0 <= k < r@.len() ==> block_contains(*self, #[trigger] r@[k]),
                        forall|k: int|
                            0 <= k < r@.len() ==> ((#[trigger] r@[k]).x < x || (r@[k].x == x && (
                            r@[k].y < y || (r@[k].y == y && r@[k].z < z)))),
                        forall|i: int, j: int| 0 <= i < j < r@.len() ==> coord_lt(r@[i], r@[j]),
                    decreases self.end.z + 1 - z,
                {
                    r.push(Coord { x: x as u16, y: y as u16, z: z as u16 });
                    z += 1;
                }
                proof {
                    assert((y + 1 - self.start.y) * nz == (y - self.start.y) * nz + nz)
                        by (nonlinear_arith);
                }
                y += 1;
            }
            proof {
                assert((x + 1 - self.start.x) * ny * nz == (x - self.start.x) * ny * nz + ny * nz)
                    by (nonlinear_arith);
            }
            x += 1;
        }
        r
    }

    /// The points that must be free below for the block to drop: the whole
    /// footprint of a flat block, only the lower corner of an upright one.
    pub fn bottom_coords(&self) -> (r: Vec<Coord>)
        requires
            block_wf(*self),
        ensures
            forall|k: int| 0 <= k < r@.len() ==> block_contains(*self, #[trigger] r@[k]),
            r@.len() > 0,
            self.start.z != self.end.z ==> r@ == seq![self.start],
            forall|k: int| 0 <= k < r@.len() ==> (#[trigger] r@[k]).z == self.start.z,
    {
        if self.start.z == self.end.z {
            let r = self.coords();
            proof {
                assert(r@.len() > 0) by {
                    assert(((self.end.x - self.start.x + 1) as int) * ((self.end.y - self.start.y
                        + 1) as int) * ((self.end.z - self.start.z + 1) as int) > 0)
                        by (nonlinear_arith)
                        requires
                            self.end.x + 1 - self.start.x >= 1,
                            self.end.y + 1 - self.start.y >= 1,
                            self.end.z + 1 - self.start.z >= 1,
                    ;
                }
            }
            r
        } else {
            let mut r: Vec<Coord> = Vec::new();
            r.push(self.start);
            assert(r@ =~= seq![self.start]);
            r
        }
    }

    /// The same block one step further down.
    pub fn below(&self) -> (r: Block)
        requires
            self.start.z >= 1,
            self.end.z >= 1,
        ensures
            r.start.x == self.start.x && r.start.y == self.start.y && r.end.x == self.end.x
                && r.end.y == self.end.y,
            r.start.z == self.start.z - 1,
            r.end.z == self.end.z - 1,
    {
        let mut b = self.clone();
        b.start.z = b.start.z - 1;
        b.end.z = b.end.z - 1;
        b
    }

    /// The block rests on the ground.
    pub fn at_bottom(&self) -> (r: bool)
        ensures
            r == (self.start.z <= 1),
    {
        self.start.z <= 1
    }
}

impl Block {
    /// Parses a `x,y,z~x,y,z` line into a block: six decimal coordinates, the
    /// lower corner first. Rejected when the corners are unordered, a
    /// coordinate misses or overflows, or the block would lie below height
    /// one, so a parsed block is always a well-formed resting box.
    pub fn from_str(s: &str) -> (r: Result<Block, String>)
        ensures
            r matches Ok(b) ==> ({
                let halves = split_spec(s@, "~"@);
                let a = split_spec(halves[0], ","@);
                let e = split_spec(halves[1], ","@);
                &&& halves.len() == 2
                &&& a.len() == 3
                &&& e.len() == 3
                &&& b.start.x == dec_val(a[0]) && b.start.y == dec_val(a[1]) && b.start.z
                    == dec_val(a[2])
                &&& b.end.x == dec_val(e[0]) && b.end.y == dec_val(e[1]) && b.end.z == dec_val(
                    e[2],
                )
                &&& block_wf(b)
                &&& b.start.z >= 1
            }),
    {
        proof {
            reveal_strlit("~");
            reveal_strlit(",");
        }
        let halves = split_str(s, "~");
        if halves.len() != 2 {
            return Err("bad block format".to_owned());
        }
        let start = match parse_coord(halves[0].as_str()) {
            Some(c) => c,
            None => {
                return Err("bad block format".to_owned());
            },
        };
        let end = match parse_coord(halves[1].as_str()) {
            Some(c) => c,
            None => {
                return Err("bad block format".to_owned());
            },
        };
        proof {
            assert(halves.deep_view()[0] == split_spec(s@, "~"@)[0]);
            assert(halves.deep_view()[1] == split_spec(s@, "~"@)[1]);
        }
        let b = Block { start, end };
        if !(start.x <= end.x && start.y <= end.y && start.z <= end.z) {
            return Err("block corners are unordered".to_owned());
        }
        if start.z == 0 {
            return Err("block lies below the floor".to_owned());
        }
        Ok(b)
    }
}

/// Parses `x,y,z` into a point; each coordinate must fit a `u16`.
fn parse_coord(t: &str) -> (r: Option<Coord>)
    ensures
        r matches Some(c) ==> ({
            let p = split_spec(t@, ","@);
            &&& p.len() == 3
            &&& c.x == dec_val(p[0]) && c.y == dec_val(p[1]) && c.z == dec_val(p[2])
        }),
{
    proof {
        reveal_strlit(",");
    }
    let parts = split_str(t, ",");
    if parts.len() != 3 {
        return None;
    }
    let x = match parse_u16(parts[0].as_str()) {
        Some(v) => v,
        None => {
            return None;
        },
    };
    let y = match parse_u16(parts[1].as_str()) {
        Some(v) => v,
        None => {
            return None;
        },
    };
    let z = match parse_u16(parts[2].as_str()) {
        Some(v) => v,
        None => {
            return None;
        },
    };
    proof {
        assert(parts.deep_view()[0] == split_spec(t@, ","@)[0]);
        assert(parts.deep_view()[1] == split_spec(t@, ","@)[1]);
        assert(parts.deep_view()[2] == split_spec(t@, ","@)[2]);
    }
    Some(Coord { x, y, z })
}

/// Parses an unsigned decimal number that must fit a `u16`.
fn parse_u16(t: &str) -> (r: Option<u16>)
    ensures
        r matches Some(v) ==> v == dec_val(t@) && dec_val(t@) <= u16::MAX,
{
    match parse_u64(t) {
        Some(v) => {
            if v <= 0xffff {
                Some(v as u16)
            } else {
                None
            }
        },
        None => None,
    }
}

impl Instance {
    /// Whole-day driver: parse the blocks, settle the pile, and count the
    /// safely removable blocks (part one) and the total fall-out otherwise
    /// (part two).
    pub fn solve(&self, lines: &Vec<String>) -> (r: Result<DayResult, String>) {
        let mut blocks: Vec<Block> = Vec::new();
        let mut i: usize = 0;
        while i < lines.len()
            invariant
                0 <= i <= lines@.len(),
                forall|k: int|
                    0 <= k < blocks@.len() ==> block_wf(#[trigger] blocks@[k])
                        && blocks@[k].start.z >= 1,
            decreases lines@.len() - i,
        {
            match Block::from_str(lines[i].as_str()) {
                Ok(b) => {
                    blocks.push(b);
                },
                Err(e) => {
                    return Err(e);
                },
            }
            i += 1;
        }
        if blocks.len() == 0 {
            return Err("no blocks".to_owned());
        }
        let mut pile = Blocks::new(blocks);
        let (part1, part2) = pile.try_disintegrate();
        Ok(
            DayResult {
                part1: u64_to_string(part1 as u64),
                part2: Some(u64_to_string(part2 as u64)),
            },
        )
    }
}

impl Day for Instance {
    fn run(&self, lines: Vec<String>) -> Result<DayResult, String> {
        self.solve(&lines)
    }
}

/// Occupancy of space, one boolean column of heights per taken (x, y) square.
#[derive(Debug, Clone)]
pub struct Posititions(pub Vec<((u16, u16), Vec<bool>)>);

/// Every (x, y) square has at most one column.
pub open spec fn pos_wf_seq(p: Seq<((u16, u16), Vec<bool>)>) -> bool {
    forall|i: int, j: int| 0 <= i < j < p.len() ==> (#[trigger] p[i]).0 != (#[trigger] p[j]).0
}

/// The point is marked taken in the column table: its square has a column,
/// the column is tall enough, and the height is set.
pub open spec fn occupied_seq(p: Seq<((u16, u16), Vec<bool>)>, c: Coord) -> bool {
    exists|i: int|
        0 <= i < p.len() && (#[trigger] p[i]).0 == (c.x, c.y) && c.z < p[i].1@.len()
            && p[i].1@[c.z as int]
}

/// The square of `c` has a column of height above its `z` in the table.
pub open spec fn covers_seq(p: Seq<((u16, u16), Vec<bool>)>, c: Coord) -> bool {
    exists|i: int| 0 <= i < p.len() && (#[trigger] p[i]).0 == (c.x, c.y) && c.z < p[i].1@.len()
}

/// Every (x, y) square has at most one column.
pub open spec fn pos_wf(p: Posititions) -> bool {
    pos_wf_seq(p.0@)
}

/// The point is marked taken.
pub open spec fn occupied(p: Posititions, c: Coord) -> bool {
    occupied_seq(p.0@, c)
}

/// The square of `c` has a column of height above its `z`.
pub open spec fn column_covers(p: Posititions, c: Coord) -> bool {
    covers_seq(p.0@, c)
}

/// In a well-formed table, only one index can hold the column of a square.
proof fn lemma_unique_col(p: Seq<((u16, u16), Vec<bool>)>, i: int, w: int)
    requires
        pos_wf_seq(p),
        0 <= i < p.len(),
        0 <= w < p.len(),
        p[i].0 == p[w].0,
    ensures
        i == w,
{
    if i < w {
        assert((p[i]).0 != (p[w]).0);
    } else if w < i {
        assert((p[w]).0 != (p[i]).0);
    }
}

/// Setting one height in the column of `c` flips exactly the point `c` and
/// leaves every other point as it was.
proof fn lemma_mark_occupied(
    pre: Seq<((u16, u16), Vec<bool>)>,
    post: Seq<((u16, u16), Vec<bool>)>,
    i: int,
    c: Coord,
    taken: bool,
    d: Coord,
)
    requires
        0 <= i < pre.len(),
        post.len() == pre.len(),
        pos_wf_seq(pre),
        pre[i].0 == (c.x, c.y),
        (c.z as int) < pre[i].1@.len(),
        post[i].0 == pre[i].0,
        post[i].1@ == pre[i].1@.update(c.z as int, taken),
        forall|k: int| 0 <= k < pre.len() && k != i ==> post[k] == pre[k],
    ensures
        occupied_seq(post, d) == (if d == c {
            taken
        } else {
            occupied_seq(pre, d)
        }),
{
    if (d.x, d.y) == (c.x, c.y) {
        assert(post[i].1@.len() == pre[i].1@.len());
        if d == c {
            if taken {
                assert(post[i].1@[d.z as int]);
                assert(occupied_seq(post, d));
            } else if occupied_seq(post, d) {
                let w = choose|w: int|
                    0 <= w < post.len() && (#[trigger] post[w]).0 == (d.x, d.y) && d.z
                        < post[w].1@.len() && post[w].1@[d.z as int];
                if w != i {
                    assert(post[w] == pre[w]);
                    lemma_unique_col(pre, i, w);
                }
                assert(post[i].1@[d.z as int] == taken);
                assert(false);
            }
        } else {
            assert(d.z != c.z);
            if occupied_seq(post, d) {
                let w = choose|w: int|
                    0 <= w < post.len() && (#[trigger] post[w]).0 == (d.x, d.y) && d.z
                        < post[w].1@.len() && post[w].1@[d.z as int];
                if w != i {
                    assert(post[w] == pre[w]);
                    lemma_unique_col(pre, i, w);
                }
                assert(w == i);
                assert(d.z < pre[i].1@.len());
                assert(pre[i].1@[d.z as int] == post[i].1@[d.z as int]);
                assert(occupied_seq(pre, d));
            }
            if occupied_seq(pre, d) {
                let w = choose|w: int|
                    0 <= w < pre.len() && (#[trigger] pre[w]).0 == (d.x, d.y) && d.z
                        < pre[w].1@.len() && pre[w].1@[d.z as int];
                lemma_unique_col(pre, i, w);
                assert(w == i);
                assert(d.z < pre[i].1@.len());
                assert(post[i].1@[d.z as int] == pre[i].1@[d.z as int]);
                assert(occupied_seq(post, d));
            }
        }
    } else {
        if occupied_seq(post, d) {
            let w = choose|w: int|
                0 <= w < post.len() && (#[trigger] post[w]).0 == (d.x, d.y) && d.z
                    < post[w].1@.len() && post[w].1@[d.z as int];
            assert(w != i);
            assert(post[w] == pre[w]);
            assert(occupied_seq(pre, d));
        }
        if occupied_seq(pre, d) {
            let w = choose|w: int|
                0 <= w < pre.len() && (#[trigger] pre[w]).0 == (d.x, d.y) && d.z < pre[w].1@.len()
                    && pre[w].1@[d.z as int];
            assert(w != i);
            assert(post[w] == pre[w]);
            assert(occupied_seq(post, d));
        }
    }
}

/// Setting one height changes no column's square or height.
proof fn lemma_mark_covers(
    pre: Seq<((u16, u16), Vec<bool>)>,
    post: Seq<((u16, u16), Vec<bool>)>,
    i: int,
    c: Coord,
    d: Coord,
)
    requires
        0 <= i < pre.len(),
        post.len() == pre.len(),
        pre[i].0 == (c.x, c.y),
        (c.z as int) < pre[i].1@.len(),
        post[i].0 == pre[i].0,
        post[i].1@.len() == pre[i].1@.len(),
        forall|k: int| 0 <= k < pre.len() && k != i ==> post[k] == pre[k],
    ensures
        covers_seq(post, d) == covers_seq(pre, d),
{
    if covers_seq(post, d) {
        let w = choose|w: int|
            0 <= w < post.len() && (#[trigger] post[w]).0 == (d.x, d.y) && d.z < post[w].1@.len();
        assert(0 <= w < pre.len() && pre[w].0 == (d.x, d.y) && d.z < pre[w].1@.len());
        assert(covers_seq(pre, d));
    }
    if covers_seq(pre, d) {
        let w = choose|w: int|
            0 <= w < pre.len() && (#[trigger] pre[w]).0 == (d.x, d.y) && d.z < pre[w].1@.len();
        assert(0 <= w < post.len() && post[w].0 == (d.x, d.y) && d.z < post[w].1@.len());
        assert(covers_seq(post, d));
    }
}

impl Posititions {
    /// The index of the column for square `(x, y)`, if there is one.
    fn find_col(&self, x: u16, y: u16) -> (r: Option<usize>)
        ensures
            match r {
                Some(i) => (i as int) < self.0@.len() && self.0@[i as int].0 == (x, y),
                None => forall|i: int| 0 <= i < self.0@.len() ==> (#[trigger] self.0@[i]).0 != (x, y),
            },
    {
        let mut i: usize = 0;
        while i < self.0.len()
            invariant
                0 <= i <= self.0@.len(),
                forall|k: int| 0 <= k < i ==> (#[trigger] self.0@[k]).0 != (x, y),
            decreases self.0@.len() - i,
        {
            let (kx, ky) = self.0[i].0;
            if kx == x && ky == y {
                return Some(i);
            }
            i += 1;
        }
        None
    }

    /// Whether the point is taken. Its square must have a tall-enough column.
    pub fn contains(&self, coord: &Coord) -> (r: bool)
        requires
            column_covers(*self, *coord),
            pos_wf(*self),
        ensures
            r == occupied(*self, *coord),
    {
        match self.find_col(coord.x, coord.y) {
            Some(i) => {
                let col = &self.0[i].1;
                if (coord.z as usize) < col.len() {
                    let r = col[coord.z as usize];
                    proof {
                        let w = choose|w: int|
                            0 <= w < self.0@.len() && (#[trigger] self.0@[w]).0 == (
                            coord.x,
                            coord.y,
                            ) && coord.z < self.0@[w].1@.len();
                        assert(w == i);
                    }
                    r
                } else {
                    proof {
                        let w = choose|w: int|
                            0 <= w < self.0@.len() && (#[trigger] self.0@[w]).0 == (
                            coord.x,
                            coord.y,
                            ) && coord.z < self.0@[w].1@.len();
                        assert(w == i);
                        assert(false);
                    }
                    false
                }
            },
            None => {
                proof {
                    assert(false);
                }
                false
            },
        }
    }

    /// Marks one point. Its square must have a tall-enough column.
    #[verifier::loop_isolation(false)]
    fn mark(&mut self, c: Coord, taken: bool)
        requires
            column_covers(*old(self), c),
            pos_wf(*old(self)),
        ensures
            pos_wf(*final(self)),
            final(self).0@.len() == old(self).0@.len(),
            forall|d: Coord|
                #[trigger] occupied(*final(self), d) == (if d == c {
                    taken
                } else {
                    occupied(*old(self), d)
                }),
            forall|d: Coord|
                #[trigger] column_covers(*final(self), d) == column_covers(*old(self), d),
    {
        let i = match self.find_col(c.x, c.y) {
            Some(i) => i,
            None => {
                proof {
                    let w = choose|w: int|
                        0 <= w < self.0@.len() && (#[trigger] self.0@[w]).0 == (c.x, c.y) && c.z
                            < self.0@[w].1@.len();
                    assert(false);
                }
                return ;
            },
        };
        proof {
            let w = choose|w: int|
                0 <= w < self.0@.len() && (#[trigger] self.0@[w]).0 == (c.x, c.y) && c.z
                    < self.0@[w].1@.len();
            assert(w == i);
        }
        let ghost pre = self.0@;
        let key = self.0[i].0;
        let mut col = clone_bool_vec(&self.0[i].1);
        col.set(c.z as usize, taken);
        self.0.set(i, (key, col));
        proof {
            assert forall|d: Coord| #[trigger] occupied_seq(self.0@, d) == (if d == c {
                taken
            } else {
                occupied_seq(pre, d)
            }) by {
                lemma_mark_occupied(pre, self.0@, i as int, c, taken, d);
            }
            assert forall|d: Coord| #[trigger] covers_seq(self.0@, d) == covers_seq(pre, d) by {
                lemma_mark_covers(pre, self.0@, i as int, c, d);
            }
        }
    }

    /// Unmarks every listed point, then marks every listed point of the new
    /// list. All touched squares must have tall-enough columns.
    #[verifier::loop_isolation(false)]
    pub fn replace(&mut self, old_coords: &Vec<Coord>, new_coords: &Vec<Coord>)
        requires
            pos_wf(*old(self)),
            forall|k: int|
                0 <= k < old_coords@.len() ==> column_covers(*old(self), #[trigger] old_coords@[k]),
            forall|k: int|
                0 <= k < new_coords@.len() ==> column_covers(*old(self), #[trigger] new_coords@[k]),
        ensures
            pos_wf(*final(self)),
            forall|d: Coord|
                #[trigger] occupied(*final(self), d) == (if new_coords@.contains(d) {
                    true
                } else if old_coords@.contains(d) {
                    false
                } else {
                    occupied(*old(self), d)
                }),
            forall|d: Coord|
                #[trigger] column_covers(*final(self), d) == column_covers(*old(self), d),
    {
        self.remove(old_coords);
        let mut k: usize = 0;
        while k < new_coords.len()
            invariant
                0 <= k <= new_coords@.len(),
                pos_wf(*self),
                forall|d: Coord|
                    #[trigger] column_covers(*self, d) == column_covers(*old(self), d),
                forall|d: Coord|
                    #[trigger] occupied(*self, d) == (if new_coords@.take(k as int).contains(d) {
                        true
                    } else if old_coords@.contains(d) {
                        false
                    } else {
                        occupied(*old(self), d)
                    }),
            decreases new_coords@.len() - k,
        {
            let c = new_coords[k];
            self.mark(c, true);
            proof {
                assert forall|d: Coord| #[trigger] occupied(*self, d) == (if new_coords@.take(
                    k + 1,
                ).contains(d) {
                    true
                } else if old_coords@.contains(d) {
                    false
                } else {
                    occupied(*old(self), d)
                }) by {
                    lemma_take_contains(new_coords@, k as int, d);
                }
            }
            k += 1;
        }
        proof {
            assert(new_coords@.take(new_coords@.len() as int) =~= new_coords@);
        }
    }

    /// Unmarks every listed point. All touched squares must have tall-enough
    /// columns.
    #[verifier::loop_isolation(false)]
    pub fn remove(&mut self, old_coords: &Vec<Coord>)
        requires
            pos_wf(*old(self)),
            forall|k: int|
                0 <= k < old_coords@.len() ==> column_covers(*old(self), #[trigger] old_coords@[k]),
        ensures
            pos_wf(*final(self)),
            forall|d: Coord|
                #[trigger] occupied(*final(self), d) == (if old_coords@.contains(d) {
                    false
                } else {
                    occupied(*old(self), d)
                }),
            forall|d: Coord|
                #[trigger] column_covers(*final(self), d) == column_covers(*old(self), d),
    {
        let mut k: usize = 0;
        while k < old_coords.len()
            invariant
                0 <= k <= old_coords@.len(),
                pos_wf(*self),
                forall|d: Coord|
                    #[trigger] column_covers(*self, d) == column_covers(*old(self), d),
                forall|d: Coord|
                    #[trigger] occupied(*self, d) == (if old_coords@.take(k as int).contains(d) {
                        false
                    } else {
                        occupied(*old(self), d)
                    }),
            decreases old_coords@.len() - k,
        {
            let c = old_coords[k];
            self.mark(c, false);
            proof {
                assert forall|d: Coord| #[trigger] occupied(*self, d) == (if old_coords@.take(
                    k + 1,
                ).contains(d) {
                    false
                } else {
                    occupied(*old(self), d)
                }) by {
                    lemma_take_contains(old_coords@, k as int, d);
                }
            }
            k += 1;
        }
        proof {
            assert(old_coords@.take(old_coords@.len() as int) =~= old_coords@);
        }
    }
}

/// The (x, y) square of `c` lies in the footprint of block `b`.
pub open spec fn in_footprint(b: Block, c: Coord) -> bool {
    b.start.x <= c.x <= b.end.x && b.start.y <= c.y <= b.end.y
}

/// Some occupied point sits directly under the block's bottom cells: under
/// the whole footprint of a flat block, under the lower corner's column of an
/// upright one.
pub open spec fn rests_probe(b: Block, p: Posititions) -> bool {
    if b.start.z == b.end.z {
        exists|c: Coord|
            in_footprint(b, c) && c.z == b.start.z - 1 && #[trigger] occupied(p, c)
    } else {
        occupied(p, Coord { x: b.start.x, y: b.start.y, z: (b.start.z - 1) as u16 })
    }
}

/// The block cannot fall further: it stands on the ground or on an occupied
/// point of the table.
pub open spec fn rests(b: Block, p: Posititions) -> bool {
    b.start.z <= 1 || rests_probe(b, p)
}

/// A block that rests keeps resting while the occupancy only grows.
proof fn lemma_rests_monotone(b: Block, p1: Posititions, p2: Posititions)
    requires
        rests(b, p1),
        forall|d: Coord| #[trigger] occupied(p1, d) ==> occupied(p2, d),
    ensures
        rests(b, p2),
{
    if b.start.z > 1 {
        if b.start.z == b.end.z {
            let c = choose|c: Coord|
                in_footprint(b, c) && c.z == b.start.z - 1 && #[trigger] occupied(p1, c);
            assert(occupied(p2, c));
            assert(rests_probe(b, p2));
        } else {
            assert(occupied(p2, Coord { x: b.start.x, y: b.start.y, z: (b.start.z - 1) as u16 }));
        }
    }
}

impl Posititions {
    /// Builds the occupancy table of a block list: one column per footprint
    /// square, tall enough for every block, with exactly the blocks' points
    /// marked taken.
    #[verifier::loop_isolation(false)]
    pub fn new(blocks: &Vec<Block>) -> (r: Posititions)
        requires
            blocks@.len() > 0,
            forall|k: int| 0 <= k < blocks@.len() ==> block_wf(#[trigger] blocks@[k]),
        ensures
            pos_wf(r),
            forall|k: int, c: Coord|
                0 <= k < blocks@.len() && in_footprint(#[trigger] blocks@[k], c) && c.z
                    <= blocks@[k].end.z ==> #[trigger] column_covers(r, c),
            forall|k: int, c: Coord|
                0 <= k < blocks@.len() && block_contains(#[trigger] blocks@[k], c)
                    ==> #[trigger] occupied(r, c),
    {
        // One more than the tallest block top, so a column can hold any height.
        let mut max_z: u16 = blocks[0].end.z;
        let mut i: usize = 0;
        while i < blocks.len()
            invariant
                0 <= i <= blocks@.len(),
                forall|k: int| 0 <= k < i ==> (#[trigger] blocks@[k]).end.z <= max_z,
            decreases blocks@.len() - i,
        {
            if blocks[i].end.z > max_z {
                max_z = blocks[i].end.z;
            }
            i += 1;
        }
        let height: usize = max_z as usize + 1;
        let mut p = Posititions(Vec::new());
        // First every needed column, empty.
        i = 0;
        while i < blocks.len()
            invariant
                0 <= i <= blocks@.len(),
                pos_wf(p),
                forall|k: int, c: Coord|
                    0 <= k < i && in_footprint(#[trigger] blocks@[k], c) && c.z <= max_z
                        ==> #[trigger] column_covers(p, c),
                forall|d: Coord| #[trigger] column_covers(p, d) ==> d.z <= max_z,
                forall|d: Coord| !occupied(p, d),
            decreases blocks@.len() - i,
        {
            let b = blocks[i];
            let mut x: u32 = b.start.x as u32;
            while x <= b.end.x as u32
                invariant
                    b == blocks@[i as int],
                    b.start.x <= x <= b.end.x + 1,
                    pos_wf(p),
                    forall|k: int, c: Coord|
                        0 <= k < i && in_footprint(#[trigger] blocks@[k], c) && c.z <= max_z
                            ==> #[trigger] column_covers(p, c),
                    forall|c: Coord|
                        in_footprint(b, c) && c.x < x && c.z <= max_z ==> #[trigger] column_covers(
                            p,
                            c,
                        ),
                    forall|d: Coord| #[trigger] column_covers(p, d) ==> d.z <= max_z,
                    forall|d: Coord| !occupied(p, d),
                decreases b.end.x + 1 - x,
            {
                let mut y: u32 = b.start.y as u32;
                while y <= b.end.y as u32
                    invariant
                        b == blocks@[i as int],
                        b.start.x <= x <= b.end.x,
                        b.start.y <= y <= b.end.y + 1,
                        pos_wf(p),
                        forall|k: int, c: Coord|
                            0 <= k < i && in_footprint(#[trigger] blocks@[k], c) && c.z <= max_z
                                ==> #[trigger] column_covers(p, c),
                        forall|c: Coord|
                            in_footprint(b, c) && c.x < x && c.z <= max_z
                                ==> #[trigger] column_covers(p, c),
                        forall|c: Coord|
                            in_footprint(b, c) && c.x == x && c.y < y && c.z <= max_z
                                ==> #[trigger] column_covers(p, c),
                        forall|d: Coord| #[trigger] column_covers(p, d) ==> d.z <= max_z,
                        forall|d: Coord| !occupied(p, d),
                    decreases b.end.y + 1 - y,
                {
                    p.ensure_column(x as u16, y as u16, height);
                    y += 1;
                }
                x += 1;
            }
            i += 1;
        }
        // Then mark every block's points.
        i = 0;
        while i < blocks.len()
            invariant
                0 <= i <= blocks@.len(),
                pos_wf(p),
                forall|k: int, c: Coord|
                    0 <= k < blocks@.len() && in_footprint(#[trigger] blocks@[k], c) && c.z
                        <= max_z ==> #[trigger] column_covers(p, c),
                forall|k: int, c: Coord|
                    0 <= k < i && block_contains(#[trigger] blocks@[k], c) ==> #[trigger] occupied(
                        p,
                        c,
                    ),
            decreases blocks@.len() - i,
        {
            let b = blocks[i];
            let cs = b.coords();
            let ghost p_pre = p;
            let mut j: usize = 0;
            while j < cs.len()
                invariant
                    b == blocks@[i as int],
                    block_wf(b),
                    0 <= j <= cs@.len(),
                    pos_wf(p),
                    forall|k: int| 0 <= k < cs@.len() ==> block_contains(b, #[trigger] cs@[k]),
                    forall|k: int, c: Coord|
                        0 <= k < blocks@.len() && in_footprint(#[trigger] blocks@[k], c) && c.z
                            <= max_z ==> #[trigger] column_covers(p, c),
                    forall|k: int, c: Coord|
                        0 <= k < i && block_contains(#[trigger] blocks@[k], c)
                            ==> #[trigger] occupied(p, c),
                    forall|k: int| 0 <= k < j ==> occupied(p, #[trigger] cs@[k]),
                decreases cs@.len() - j,
            {
                let c = cs[j];
                proof {
                    assert(in_footprint(b, c) && c.z <= b.end.z <= max_z);
                }
                p.mark(c, true);
                j += 1;
            }
            proof {
                assert forall|k: int, c: Coord|
                    0 <= k < i + 1 && block_contains(#[trigger] blocks@[k], c)
                    implies #[trigger] occupied(p, c) by {
                    if k == i {
                        lemma_coords_complete(b, cs@, c);
                    }
                }
            }
            i += 1;
        }
        p
    }

    /// Adds an empty column of the given height for the square, if it has
    /// none yet.
    #[verifier::loop_isolation(false)]
    fn ensure_column(&mut self, x: u16, y: u16, height: usize)
        requires
            pos_wf(*old(self)),
            height >= 1,
        ensures
            pos_wf(*final(self)),
            forall|d: Coord|
                #[trigger] column_covers(*final(self), d) == (column_covers(*old(self), d) || (
                d.x == x && d.y == y && d.z < height)),
            forall|d: Coord| #[trigger] occupied(*final(self), d) == occupied(*old(self), d),
    {
        match self.find_col(x, y) {
            Some(i) => {
                // The column exists; it is already tall enough by use: the
                // contract only adds squares, never heights, so nothing to do
                // unless the column is shorter than asked.
                let col_len = self.0[i].1.len();
                if col_len >= height {
                    proof {
                        assert forall|d: Coord| #[trigger] column_covers(*self, d) == (
                        column_covers(*old(self), d) || (d.x == x && d.y == y && d.z < height)) by {
                            if d.x == x && d.y == y && d.z < height {
                                assert(self.0@[i as int].0 == (d.x, d.y) && d.z
                                    < self.0@[i as int].1@.len());
                            }
                        }
                    }
                    return ;
                }
                let key = self.0[i].0;
                let old_col = &self.0[i].1;
                let mut col: Vec<bool> = clone_bool_vec(old_col);
                while col.len() < height
                    invariant
                        old(self).0@[i as int].1@.len() <= col@.len() <= height,
                        col@.len() >= old(self).0@[i as int].1@.len(),
                        forall|z: int|
                            0 <= z < old(self).0@[i as int].1@.len() ==> col@[z]
                                == old(self).0@[i as int].1@[z],
                        forall|z: int|
                            old(self).0@[i as int].1@.len() <= z < col@.len() ==> !(
                            #[trigger] col@[z]),
                        *self == *old(self),
                    decreases height - col@.len(),
                {
                    col.push(false);
                }
                let ghost pre = self.0@;
                self.0.set(i, (key, col));
                proof {
                    lemma_grow_column(pre, self.0@, i as int, x, y, height as int);
                }
            },
            None => {
                let mut col: Vec<bool> = Vec::new();
                while col.len() < height
                    invariant
                        col@.len() <= height,
                        forall|z: int| 0 <= z < col@.len() ==> !(#[trigger] col@[z]),
                        *self == *old(self),
                    decreases height - col@.len(),
                {
                    col.push(false);
                }
                let ghost pre = self.0@;
                self.0.push(((x, y), col));
                proof {
                    lemma_new_column(pre, self.0@, x, y, height as int);
                }
            },
        }
    }
}

/// Every point of a well-formed block is among its enumerated coordinates.
proof fn lemma_coords_complete(b: Block, cs: Seq<Coord>, c: Coord)
    requires
        block_wf(b),
        block_contains(b, c),
        cs.len() == ((b.end.x - b.start.x + 1) as int) * ((b.end.y - b.start.y + 1) as int) * ((
        b.end.z - b.start.z + 1) as int),
        forall|k: int| 0 <= k < cs.len() ==> block_contains(b, #[trigger] cs[k]),
        forall|i: int, j: int| 0 <= i < j < cs.len() ==> coord_lt(cs[i], cs[j]),
    ensures
        cs.contains(c),
{
    // The box holds exactly `cs.len()` points; `cs` lists that many distinct
    // points of the box, so it lists them all. Rather than counting, observe
    // directly: were `c` missing, mapping each point of the box to its
    // strictly increasing position would leave too few slots. The check is
    // done by injecting box points into positions; formally we reuse a
    // cardinality argument over the coordinate order.
    lemma_box_listing(b, cs, c);
}

/// Cardinality of the listed box: a strictly increasing full listing of a box
/// contains every point of the box.
proof fn lemma_box_listing(b: Block, cs: Seq<Coord>, c: Coord)
    requires
        block_wf(b),
        block_contains(b, c),
        cs.len() == ((b.end.x - b.start.x + 1) as int) * ((b.end.y - b.start.y + 1) as int) * ((
        b.end.z - b.start.z + 1) as int),
        forall|k: int| 0 <= k < cs.len() ==> block_contains(b, #[trigger] cs[k]),
        forall|i: int, j: int| 0 <= i < j < cs.len() ==> coord_lt(cs[i], cs[j]),
    ensures
        cs.contains(c),
{
    // Each listed point, being inside the box and strictly increasing, sits
    // exactly at its rank: the number of box points lexicographically below
    // it. The same holds for `c`, whose rank is a valid index.
    let nx = (b.end.x - b.start.x + 1) as int;
    let ny = (b.end.y - b.start.y + 1) as int;
    let nz = (b.end.z - b.start.z + 1) as int;
    let rank = |d: Coord|
        ((d.x - b.start.x) * ny * nz + (d.y - b.start.y) * nz + (d.z - b.start.z)) as int;
    assert forall|k: int| 0 <= k < cs.len() implies rank(cs[k]) >= k by {
        lemma_rank_lower(b, cs, k);
    }
    assert forall|k: int| 0 <= k < cs.len() implies rank(cs[k]) <= k by {
        lemma_rank_upper(b, cs, k, cs.len() as int);
    }
    let rc = rank(c);
    assert(0 <= rc < nx * ny * nz) by (nonlinear_arith)
        requires
            nx >= 1 && ny >= 1 && nz >= 1,
            0 <= (c.x - b.start.x) < nx,
            0 <= (c.y - b.start.y) < ny,
            0 <= (c.z - b.start.z) < nz,
            rc == (c.x - b.start.x) * ny * nz + (c.y - b.start.y) * nz + (c.z - b.start.z),
    ;
    assert(rank(cs[rc]) == rc);
    assert(cs[rc] == c) by {
        lemma_rank_injective(b, cs[rc], c);
    }
}

/// In a strictly increasing listing of box points, ranks grow at least as
/// fast as positions.
proof fn lemma_rank_lower(b: Block, cs: Seq<Coord>, k: int)
    requires
        block_wf(b),
        0 <= k < cs.len(),
        forall|a: int| 0 <= a < cs.len() ==> block_contains(b, #[trigger] cs[a]),
        forall|i: int, j: int| 0 <= i < j < cs.len() ==> coord_lt(cs[i], cs[j]),
    ensures
        ((cs[k].x - b.start.x) * ((b.end.y - b.start.y + 1) as int) * ((b.end.z - b.start.z
            + 1) as int) + (cs[k].y - b.start.y) * ((b.end.z - b.start.z + 1) as int) + (cs[k].z
            - b.start.z)) >= k,
    decreases k,
{
    if k > 0 {
        lemma_rank_lower(b, cs, k - 1);
        lemma_rank_monotone(b, cs[k - 1], cs[k]);
    }
}

/// Ranks grow no faster than positions, counted from the back.
proof fn lemma_rank_upper(b: Block, cs: Seq<Coord>, k: int, n: int)
    requires
        block_wf(b),
        n == cs.len(),
        n == ((b.end.x - b.start.x + 1) as int) * ((b.end.y - b.start.y + 1) as int) * ((b.end.z
            - b.start.z + 1) as int),
        0 <= k < n,
        forall|a: int| 0 <= a < cs.len() ==> block_contains(b, #[trigger] cs[a]),
        forall|i: int, j: int| 0 <= i < j < cs.len() ==> coord_lt(cs[i], cs[j]),
    ensures
        ((cs[k].x - b.start.x) * ((b.end.y - b.start.y + 1) as int) * ((b.end.z - b.start.z
            + 1) as int) + (cs[k].y - b.start.y) * ((b.end.z - b.start.z + 1) as int) + (cs[k].z
            - b.start.z)) <= k,
    decreases n - k,
{
    let ny = (b.end.y - b.start.y + 1) as int;
    let nz = (b.end.z - b.start.z + 1) as int;
    let nx = (b.end.x - b.start.x + 1) as int;
    if k < n - 1 {
        lemma_rank_upper(b, cs, k + 1, n);
        lemma_rank_monotone(b, cs[k], cs[k + 1]);
    } else {
        // The last point's rank is at most the last index.
        assert(((cs[k].x - b.start.x) * ny * nz + (cs[k].y - b.start.y) * nz + (cs[k].z
            - b.start.z)) <= nx * ny * nz - 1) by (nonlinear_arith)
            requires
                ny >= 1 && nz >= 1 && nx >= 1,
                0 <= (cs[k].x - b.start.x) <= nx - 1,
                0 <= (cs[k].y - b.start.y) <= ny - 1,
                0 <= (cs[k].z - b.start.z) <= nz - 1,
        ;
    }
}

/// The rank respects the strict coordinate order inside one box.
proof fn lemma_rank_monotone(b: Block, p: Coord, q: Coord)
    requires
        block_wf(b),
        block_contains(b, p),
        block_contains(b, q),
        coord_lt(p, q),
    ensures
        ((p.x - b.start.x) * ((b.end.y - b.start.y + 1) as int) * ((b.end.z - b.start.z
            + 1) as int) + (p.y - b.start.y) * ((b.end.z - b.start.z + 1) as int) + (p.z
            - b.start.z)) < ((q.x - b.start.x) * ((b.end.y - b.start.y + 1) as int) * ((b.end.z
            - b.start.z + 1) as int) + (q.y - b.start.y) * ((b.end.z - b.start.z + 1) as int) + (
        q.z - b.start.z)),
{
    let ny = (b.end.y - b.start.y + 1) as int;
    let nz = (b.end.z - b.start.z + 1) as int;
    assert(((p.x - b.start.x) * ny * nz + (p.y - b.start.y) * nz + (p.z - b.start.z)) < ((q.x
        - b.start.x) * ny * nz + (q.y - b.start.y) * nz + (q.z - b.start.z))) by (nonlinear_arith)
        requires
            ny >= 1 && nz >= 1,
            0 <= (p.y - b.start.y) <= ny - 1,
            0 <= (q.y - b.start.y) <= ny - 1,
            0 <= (p.z - b.start.z) <= nz - 1,
            0 <= (q.z - b.start.z) <= nz - 1,
            p.x >= b.start.x && q.x >= b.start.x,
            (p.x < q.x) || (p.x == q.x && (p.y < q.y || (p.y == q.y && p.z < q.z))),
    ;
}

/// Two box points with the same rank are the same point.
proof fn lemma_rank_injective(b: Block, p: Coord, q: Coord)
    requires
        block_wf(b),
        block_contains(b, p),
        block_contains(b, q),
        ((p.x - b.start.x) * ((b.end.y - b.start.y + 1) as int) * ((b.end.z - b.start.z
            + 1) as int) + (p.y - b.start.y) * ((b.end.z - b.start.z + 1) as int) + (p.z
            - b.start.z)) == ((q.x - b.start.x) * ((b.end.y - b.start.y + 1) as int) * ((b.end.z
            - b.start.z + 1) as int) + (q.y - b.start.y) * ((b.end.z - b.start.z + 1) as int) + (
        q.z - b.start.z)),
    ensures
        p == q,
{
    if coord_lt(p, q) {
        lemma_rank_monotone(b, p, q);
    } else if coord_lt(q, p) {
        lemma_rank_monotone(b, q, p);
    } else {
        assert(p.x == q.x && p.y == q.y && p.z == q.z);
    }
}

/// Growing one column in place keeps every occupancy and extends exactly that
/// square's coverage.
proof fn lemma_grow_column(
    pre: Seq<((u16, u16), Vec<bool>)>,
    post: Seq<((u16, u16), Vec<bool>)>,
    i: int,
    x: u16,
    y: u16,
    height: int,
)
    requires
        0 <= i < pre.len(),
        post.len() == pre.len(),
        pos_wf_seq(pre),
        pre[i].0 == (x, y),
        post[i].0 == pre[i].0,
        pre[i].1@.len() <= post[i].1@.len() == height,
        forall|z: int| 0 <= z < pre[i].1@.len() ==> post[i].1@[z] == pre[i].1@[z],
        forall|z: int| pre[i].1@.len() <= z < post[i].1@.len() ==> !(#[trigger] post[i].1@[z]),
        forall|k: int| 0 <= k < pre.len() && k != i ==> post[k] == pre[k],
    ensures
        pos_wf_seq(post),
        forall|d: Coord|
            #[trigger] covers_seq(post, d) == (covers_seq(pre, d) || (d.x == x && d.y == y && d.z
                < height)),
        forall|d: Coord| #[trigger] occupied_seq(post, d) == occupied_seq(pre, d),
{
    assert forall|a: int, b: int| 0 <= a < b < post.len() implies (#[trigger] post[a]).0 != (
    #[trigger] post[b]).0 by {
        assert(post[a].0 == pre[a].0 && post[b].0 == pre[b].0);
    }
    assert forall|d: Coord| #[trigger] covers_seq(post, d) == (covers_seq(pre, d) || (d.x == x
        && d.y == y && d.z < height)) by {
        if covers_seq(post, d) {
            let w = choose|w: int|
                0 <= w < post.len() && (#[trigger] post[w]).0 == (d.x, d.y) && d.z
                    < post[w].1@.len();
            if w != i {
                assert(post[w] == pre[w]);
                assert(covers_seq(pre, d));
            }
        }
        if covers_seq(pre, d) {
            let w = choose|w: int|
                0 <= w < pre.len() && (#[trigger] pre[w]).0 == (d.x, d.y) && d.z < pre[w].1@.len();
            if w != i {
                assert(post[w] == pre[w]);
                assert(covers_seq(post, d));
            } else {
                assert(post[i].0 == (d.x, d.y) && d.z < post[i].1@.len());
                assert(covers_seq(post, d));
            }
        }
        if d.x == x && d.y == y && d.z < height {
            assert(post[i].0 == (d.x, d.y) && d.z < post[i].1@.len());
            assert(covers_seq(post, d));
        }
    }
    assert forall|d: Coord| #[trigger] occupied_seq(post, d) == occupied_seq(pre, d) by {
        if occupied_seq(post, d) {
            let w = choose|w: int|
                0 <= w < post.len() && (#[trigger] post[w]).0 == (d.x, d.y) && d.z
                    < post[w].1@.len() && post[w].1@[d.z as int];
            if w != i {
                assert(post[w] == pre[w]);
                assert(occupied_seq(pre, d));
            } else {
                assert(post[i].1@[d.z as int]);
                assert(d.z < pre[i].1@.len());
                assert(pre[i].1@[d.z as int]);
                assert(occupied_seq(pre, d));
            }
        }
        if occupied_seq(pre, d) {
            let w = choose|w: int|
                0 <= w < pre.len() && (#[trigger] pre[w]).0 == (d.x, d.y) && d.z < pre[w].1@.len()
                    && pre[w].1@[d.z as int];
            if w != i {
                assert(post[w] == pre[w]);
                assert(occupied_seq(post, d));
            } else {
                assert(post[i].1@[d.z as int]);
                assert(occupied_seq(post, d));
            }
        }
    }
}

/// Appending a fresh all-free column keeps every occupancy and extends
/// exactly that square's coverage.
proof fn lemma_new_column(
    pre: Seq<((u16, u16), Vec<bool>)>,
    post: Seq<((u16, u16), Vec<bool>)>,
    x: u16,
    y: u16,
    height: int,
)
    requires
        pos_wf_seq(pre),
        post.len() == pre.len() + 1,
        forall|k: int| 0 <= k < pre.len() ==> post[k] == pre[k],
        post[pre.len() as int].0 == (x, y),
        post[pre.len() as int].1@.len() == height,
        forall|z: int| 0 <= z < height ==> !(#[trigger] post[pre.len() as int].1@[z]),
        forall|k: int| 0 <= k < pre.len() ==> (#[trigger] pre[k]).0 != (x, y),
    ensures
        pos_wf_seq(post),
        forall|d: Coord|
            #[trigger] covers_seq(post, d) == (covers_seq(pre, d) || (d.x == x && d.y == y && d.z
                < height)),
        forall|d: Coord| #[trigger] occupied_seq(post, d) == occupied_seq(pre, d),
{
    let n = pre.len() as int;
    assert forall|a: int, b: int| 0 <= a < b < post.len() implies (#[trigger] post[a]).0 != (
    #[trigger] post[b]).0 by {
        if b < n {
            assert(post[a].0 == pre[a].0 && post[b].0 == pre[b].0);
        } else {
            assert(post[a].0 == pre[a].0 && post[b].0 == (x, y));
        }
    }
    assert forall|d: Coord| #[trigger] covers_seq(post, d) == (covers_seq(pre, d) || (d.x == x
        && d.y == y && d.z < height)) by {
        if covers_seq(post, d) {
            let w = choose|w: int|
                0 <= w < post.len() && (#[trigger] post[w]).0 == (d.x, d.y) && d.z
                    < post[w].1@.len();
            if w < n {
                assert(post[w] == pre[w]);
                assert(covers_seq(pre, d));
            }
        }
        if covers_seq(pre, d) {
            let w = choose|w: int|
                0 <= w < pre.len() && (#[trigger] pre[w]).0 == (d.x, d.y) && d.z < pre[w].1@.len();
            assert(post[w] == pre[w]);
            assert(covers_seq(post, d));
        }
        if d.x == x && d.y == y && d.z < height {
            assert(post[n].0 == (d.x, d.y) && d.z < post[n].1@.len());
            assert(covers_seq(post, d));
        }
    }
    assert forall|d: Coord| #[trigger] occupied_seq(post, d) == occupied_seq(pre, d) by {
        if occupied_seq(post, d) {
            let w = choose|w: int|
                0 <= w < post.len() && (#[trigger] post[w]).0 == (d.x, d.y) && d.z
                    < post[w].1@.len() && post[w].1@[d.z as int];
            if w < n {
                assert(post[w] == pre[w]);
                assert(occupied_seq(pre, d));
            } else {
                assert(!post[n].1@[d.z as int]);
                assert(false);
            }
        }
        if occupied_seq(pre, d) {
            let w = choose|w: int|
                0 <= w < pre.len() && (#[trigger] pre[w]).0 == (d.x, d.y) && d.z < pre[w].1@.len()
                    && pre[w].1@[d.z as int];
            assert(post[w] == pre[w]);
            assert(occupied_seq(post, d));
        }
    }
}

/// Taking one more element extends what the prefix contains by exactly that
/// element.
proof fn lemma_take_contains(s: Seq<Coord>, k: int, d: Coord)
    requires
        0 <= k < s.len(),
    ensures
        s.take(k + 1).contains(d) == (s.take(k).contains(d) || d == s[k]),
{
    if s.take(k + 1).contains(d) {
        let b = choose|b: int| 0 <= b < k + 1 && #[trigger] s.take(k + 1)[b] == d;
        if b < k {
            assert(s.take(k)[b] == d);
        }
    }
    if s.take(k).contains(d) {
        let b = choose|b: int| 0 <= b < k && #[trigger] s.take(k)[b] == d;
        assert(s.take(k + 1)[b] == d);
    }
    if d == s[k] {
        assert(s.take(k + 1)[k] == d);
    }
}

/// Copies a column.
fn clone_bool_vec(v: &Vec<bool>) -> (r: Vec<bool>)
    ensures
        r@ == v@,
{
    let r = v.clone();
    assert(r@ =~= v@);
    r
}

} // verus!

// ---------------------------------------------------------------------------
// The block pile.
use vstd::prelude::*;

verus! {

/// `b` is `a` dropped some way straight down: same footprint, same height,
/// start no higher.
pub open spec fn drops_to(a: Block, b: Block) -> bool {
    &&& b.start.x == a.start.x
    &&& b.start.y == a.start.y
    &&& b.end.x == a.end.x
    &&& b.end.y == a.end.y
    &&& b.start.z <= a.start.z
    &&& a.end.z - a.start.z == b.end.z - b.start.z
}

/// The combined height measure of a block list, for termination of the drop
/// loop.
pub open spec fn sum_z(s: Seq<Block>) -> int
    decreases s.len(),
{
    if s.len() == 0 {
        0
    } else {
        sum_z(s.drop_last()) + s.last().start.z + s.last().end.z
    }
}

/// The height measure is never negative.
proof fn lemma_sum_z_nonneg(s: Seq<Block>)
    ensures
        sum_z(s) >= 0,
    decreases s.len(),
{
    if s.len() > 0 {
        lemma_sum_z_nonneg(s.drop_last());
    }
}

/// Replacing one block changes the height measure by that block's change.
proof fn lemma_sum_z_update(s: Seq<Block>, i: int, b: Block)
    requires
        0 <= i < s.len(),
    ensures
        sum_z(s.update(i, b)) == sum_z(s) - s[i].start.z - s[i].end.z + b.start.z + b.end.z,
    decreases s.len(),
{
    if i == s.len() - 1 {
        assert(s.update(i, b).drop_last() =~= s.drop_last());
    } else {
        assert(s.update(i, b).drop_last() =~= s.drop_last().update(i, b));
        lemma_sum_z_update(s.drop_last(), i, b);
    }
}

/// The block pile: the blocks and the occupancy table of their points.
#[derive(Debug)]
pub struct Blocks(pub Vec<Block>, pub Posititions);

/// Every block is a well-formed box resting at height one or above, and the
/// occupancy table has a tall-enough column under every block.
pub open spec fn blocks_wf(bs: Blocks) -> bool {
    &&& forall|k: int|
        0 <= k < bs.0@.len() ==> block_wf(#[trigger] bs.0@[k]) && bs.0@[k].start.z >= 1
    &&& pos_wf(bs.1)
    &&& forall|k: int, c: Coord|
        0 <= k < bs.0@.len() && in_footprint(#[trigger] bs.0@[k], c) && c.z <= bs.0@[k].end.z
            ==> #[trigger] column_covers(bs.1, c)
}

/// Every listed point is free.
fn all_free(p: &Posititions, probe: &Vec<Coord>) -> (r: bool)
    requires
        pos_wf(*p),
        forall|k: int| 0 <= k < probe@.len() ==> column_covers(*p, #[trigger] probe@[k]),
    ensures
        r == forall|k: int| 0 <= k < probe@.len() ==> !occupied(*p, #[trigger] probe@[k]),
{
    let mut k: usize = 0;
    while k < probe.len()
        invariant
            0 <= k <= probe@.len(),
            pos_wf(*p),
            forall|a: int| 0 <= a < probe@.len() ==> column_covers(*p, #[trigger] probe@[a]),
            forall|a: int| 0 <= a < k ==> !occupied(*p, #[trigger] probe@[a]),
        decreases probe@.len() - k,
    {
        if p.contains(&probe[k]) {
            return false;
        }
        k += 1;
    }
    true
}

impl Blocks {
    /// Builds the pile: the blocks sorted by their top height, plus their
    /// occupancy table.
    #[verifier::loop_isolation(false)]
    pub fn new(blocks: Vec<Block>) -> (r: Blocks)
        requires
            blocks@.len() > 0,
            forall|k: int|
                0 <= k < blocks@.len() ==> block_wf(#[trigger] blocks@[k]) && blocks@[k].start.z
                    >= 1,
        ensures
            blocks_wf(r),
            r.0@.to_multiset() == blocks@.to_multiset(),
            forall|i: int, j: int| 0 <= i < j < r.0@.len() ==> r.0@[i].end.z <= r.0@[j].end.z,
    {
        broadcast use vstd::seq_lib::group_to_multiset_ensures;

        let mut rem = blocks;
        let mut sorted: Vec<Block> = Vec::new();
        while rem.len() > 0
            invariant
                sorted@.to_multiset().add(rem@.to_multiset()) =~= blocks@.to_multiset(),
                forall|i: int, j: int|
                    0 <= i < j < sorted@.len() ==> (#[trigger] sorted@[i]).end.z <= (
                    #[trigger] sorted@[j]).end.z,
                forall|i: int, j: int|
                    0 <= i < sorted@.len() && 0 <= j < rem@.len() ==> (#[trigger] sorted@[i]).end.z
                        <= (#[trigger] rem@[j]).end.z,
                forall|k: int|
                    0 <= k < sorted@.len() ==> block_wf(#[trigger] sorted@[k])
                        && sorted@[k].start.z >= 1,
                forall|k: int|
                    0 <= k < rem@.len() ==> block_wf(#[trigger] rem@[k]) && rem@[k].start.z >= 1,
            decreases rem@.len(),
        {
            let mut best: usize = 0;
            let mut k: usize = 1;
            while k < rem.len()
                invariant
                    0 <= best < k <= rem@.len(),
                    forall|a: int|
                        0 <= a < k ==> rem@[best as int].end.z <= (#[trigger] rem@[a]).end.z,
                decreases rem@.len() - k,
            {
                if rem[k].end.z < rem[best].end.z {
                    best = k;
                }
                k += 1;
            }
            let picked = rem.remove(best);
            sorted.push(picked);
            proof {
                assert(sorted@.to_multiset().add(rem@.to_multiset()) =~= blocks@.to_multiset());
            }
        }
        proof {
            assert(rem@.to_multiset().len() == 0);
            assert(sorted@.to_multiset() =~= blocks@.to_multiset());
            assert(sorted@.to_multiset().len() == sorted@.len());
            assert(blocks@.to_multiset().len() == blocks@.len());
        }
        let positions = Posititions::new(&sorted);
        Blocks(sorted, positions)
    }

    /// One pass over the pile: each block in turn falls as far as the
    /// occupancy table allows, the table following along. Footprints and
    /// heights never change and nothing rises; the pass reports whether any
    /// block moved, and a moving pass strictly lowers the pile.
    #[verifier::loop_isolation(false)]
    pub fn try_drop_one(&mut self) -> (moved: bool)
        requires
            blocks_wf(*old(self)),
        ensures
            blocks_wf(*final(self)),
            final(self).0@.len() == old(self).0@.len(),
            forall|k: int|
                0 <= k < old(self).0@.len() ==> drops_to(
                    #[trigger] old(self).0@[k],
                    final(self).0@[k],
                ),
            moved == exists|k: int|
                0 <= k < old(self).0@.len() && (#[trigger] final(self).0@[k]).start.z < old(
                    self,
                ).0@[k].start.z,
            !moved ==> final(self).0@ == old(self).0@,
            moved ==> sum_z(final(self).0@) < sum_z(old(self).0@),
            !moved ==> forall|k: int|
                0 <= k < final(self).0@.len() ==> rests(#[trigger] final(self).0@[k], final(self).1),
    {
        let n = self.0.len();
        let mut moved = false;
        let mut i: usize = 0;
        while i < n
            invariant
                0 <= i <= n,
                n == old(self).0@.len(),
                self.0@.len() == n,
                blocks_wf(*self),
                forall|k: int| 0 <= k < n ==> drops_to(#[trigger] old(self).0@[k], self.0@[k]),
                forall|k: int| i <= k < n ==> #[trigger] self.0@[k] == old(self).0@[k],
                sum_z(self.0@) <= sum_z(old(self).0@),
                moved == exists|k: int|
                    0 <= k < i && (#[trigger] self.0@[k]).start.z < old(self).0@[k].start.z,
                moved ==> sum_z(self.0@) < sum_z(old(self).0@),
                !moved ==> self.0@ == old(self).0@,
                !moved ==> forall|d: Coord|
                    #[trigger] occupied(old(self).1, d) ==> occupied(self.1, d),
                !moved ==> forall|k: int|
                    0 <= k < i ==> rests(#[trigger] self.0@[k], self.1),
                forall|d: Coord|
                    #[trigger] column_covers(self.1, d) == column_covers(old(self).1, d),
            decreases n - i,
        {
            let current = self.0[i];
            let current_coords = current.coords();
            proof {
                assert(forall|k: int|
                    0 <= k < current_coords@.len() ==> column_covers(
                        self.1,
                        #[trigger] current_coords@[k],
                    ));
            }
            // Take the block out of the table while it looks for a resting
            // place, so it does not rest on itself.
            let ghost table_iter = self.1;
            self.1.remove(&current_coords);
            let ghost table_mid = self.1;
            let mut next = current;
            let mut settled = false;
            while !settled
                invariant
                    drops_to(current, next),
                    block_wf(next),
                    next.start.z >= 1,
                    next.end.z <= current.end.z,
                    pos_wf(self.1),
                    self.1 == table_mid,
                    settled ==> next.start.z <= 1 || rests_probe(next, table_mid),
                    forall|d: Coord|
                        #[trigger] column_covers(self.1, d) == column_covers(
                            old(self).1,
                            d,
                        ),
                decreases next.start.z, (if settled {
                    0int
                } else {
                    1int
                }),
            {
                if next.at_bottom() {
                    settled = true;
                } else {
                    let lower = next.below();
                    let probe = lower.bottom_coords();
                    proof {
                        assert forall|k: int|
                            0 <= k < probe@.len() implies column_covers(
                            self.1,
                            #[trigger] probe@[k],
                        ) by {
                            assert(in_footprint(current, probe@[k]));
                            assert(probe@[k].z <= current.end.z);
                            assert(column_covers(old(self).1, probe@[k]));
                        }
                    }
                    if !all_free(&self.1, &probe) {
                        proof {
                            let k0 = choose|k: int|
                                0 <= k < probe@.len() && occupied(self.1, #[trigger] probe@[k]);
                            if next.start.z == next.end.z {
                                assert(in_footprint(next, probe@[k0]));
                                assert(probe@[k0].z == next.start.z - 1);
                            } else {
                                assert(probe@ == seq![lower.start]);
                                assert(probe@[k0] == Coord {
                                    x: next.start.x,
                                    y: next.start.y,
                                    z: (next.start.z - 1) as u16,
                                });
                            }
                            assert(rests_probe(next, table_mid));
                        }
                        settled = true;
                    } else {
                        next = lower;
                    }
                }
            }
            let ghost before = self.0@;
            let ghost pre_moved = moved;
            let empty: Vec<Coord> = Vec::new();
            if next.start_z_lt(&current) {
                let next_coords = next.coords();
                proof {
                    assert forall|k: int|
                        0 <= k < next_coords@.len() implies column_covers(
                        self.1,
                        #[trigger] next_coords@[k],
                    ) by {
                        assert(in_footprint(current, next_coords@[k]));
                        assert(next_coords@[k].z <= current.end.z);
                        assert(column_covers(old(self).1, next_coords@[k]));
                    }
                }
                self.1.replace(&empty, &next_coords);
                self.0.set(i, next);
                moved = true;
                assert(self.0@[i as int].start.z < old(self).0@[i as int].start.z);
            } else {
                // The block stays where it was: put its own points back.
                proof {
                    assert(next == current);
                    assert(forall|k: int|
                        0 <= k < current_coords@.len() ==> column_covers(
                            self.1,
                            #[trigger] current_coords@[k],
                        ));
                }
                self.1.replace(&empty, &current_coords);
                self.0.set(i, next);
                assert(next.start.z == current.start.z);
                assert(self.0@[i as int].start.z == old(self).0@[i as int].start.z);
                proof {
                    if !pre_moved {
                        // The table only gained points this turn, so earlier
                        // resting blocks keep resting, and this one rests on
                        // what stopped its probe.
                        let ghost table_end = self.1;
                        assert forall|d: Coord|
                            #[trigger] occupied(table_iter, d) implies occupied(
                            table_end,
                            d,
                        ) by {
                            if !current_coords@.contains(d) {
                                assert(occupied(table_mid, d) == occupied(table_iter, d));
                            }
                        }
                        assert forall|d: Coord|
                            #[trigger] occupied(table_mid, d) implies occupied(table_end, d) by {}
                        assert forall|k: int| 0 <= k < i implies rests(
                            #[trigger] self.0@[k],
                            table_end,
                        ) by {
                            assert(rests(before[k], table_iter));
                            assert(self.0@[k] == before[k]);
                            lemma_rests_monotone(before[k], table_iter, table_end);
                        }
                        if next.start.z > 1 {
                            assert(rests_probe(next, table_mid));
                            lemma_rests_monotone(next, table_mid, table_end);
                        }
                        assert(rests(self.0@[i as int], self.1));
                    }
                }
            }
            proof {
                lemma_sum_z_update(before, i as int, next);
                assert(forall|k: int| 0 <= k < i ==> #[trigger] self.0@[k] == before[k]);
                if pre_moved {
                    let k0 = choose|k: int|
                        0 <= k < i && (#[trigger] before[k]).start.z < old(self).0@[k].start.z;
                    assert(self.0@[k0].start.z < old(self).0@[k0].start.z);
                }
                if !moved {
                    assert(next == current);
                    assert(self.0@ =~= before);
                }
                assert forall|k: int, c: Coord|
                    0 <= k < n && in_footprint(#[trigger] self.0@[k], c) && c.z
                        <= self.0@[k].end.z implies #[trigger] column_covers(self.1, c) by {
                    assert(drops_to(old(self).0@[k], self.0@[k]));
                    assert(in_footprint(old(self).0@[k], c));
                    assert(c.z <= old(self).0@[k].end.z);
                    assert(column_covers(old(self).1, c));
                }
            }
            i += 1;
        }
        moved
    }
}

impl Block {
    /// The block starts strictly lower than the other.
    pub fn start_z_lt(&self, other: &Block) -> (r: bool)
        ensures
            r == (self.start.z < other.start.z),
    {
        self.start.z < other.start.z
    }
}

/// Rebuilds a column table with the same squares, heights and markings.
fn clone_positions(p: &Posititions) -> (r: Posititions)
    ensures
        r.0@.len() == p.0@.len(),
        forall|k: int|
            0 <= k < p.0@.len() ==> (#[trigger] r.0@[k]).0 == p.0@[k].0 && r.0@[k].1@
                == p.0@[k].1@,
        pos_wf(*p) ==> pos_wf(r),
        forall|d: Coord| #[trigger] occupied(r, d) == occupied(*p, d),
        forall|d: Coord| #[trigger] column_covers(r, d) == column_covers(*p, d),
{
    let mut out: Vec<((u16, u16), Vec<bool>)> = Vec::new();
    let mut k: usize = 0;
    while k < p.0.len()
        invariant
            0 <= k <= p.0@.len(),
            out@.len() == k,
            forall|a: int|
                0 <= a < k ==> (#[trigger] out@[a]).0 == p.0@[a].0 && out@[a].1@ == p.0@[a].1@,
        decreases p.0@.len() - k,
    {
        let key = p.0[k].0;
        let col = clone_bool_vec(&p.0[k].1);
        out.push((key, col));
        k += 1;
    }
    let r = Posititions(out);
    proof {
        assert forall|d: Coord| #[trigger] occupied(r, d) == occupied(*p, d) by {
            if occupied(r, d) {
                let w = choose|w: int|
                    0 <= w < r.0@.len() && (#[trigger] r.0@[w]).0 == (d.x, d.y) && d.z
                        < r.0@[w].1@.len() && r.0@[w].1@[d.z as int];
                assert(p.0@[w].0 == (d.x, d.y) && d.z < p.0@[w].1@.len() && p.0@[w].1@[d.z as int]);
            }
            if occupied(*p, d) {
                let w = choose|w: int|
                    0 <= w < p.0@.len() && (#[trigger] p.0@[w]).0 == (d.x, d.y) && d.z
                        < p.0@[w].1@.len() && p.0@[w].1@[d.z as int];
                assert(r.0@[w].0 == (d.x, d.y) && d.z < r.0@[w].1@.len() && r.0@[w].1@[d.z as int]);
            }
        }
        assert forall|d: Coord| #[trigger] column_covers(r, d) == column_covers(*p, d) by {
            if column_covers(r, d) {
                let w = choose|w: int|
                    0 <= w < r.0@.len() && (#[trigger] r.0@[w]).0 == (d.x, d.y) && d.z
                        < r.0@[w].1@.len();
                assert(p.0@[w].0 == (d.x, d.y) && d.z < p.0@[w].1@.len());
            }
            if column_covers(*p, d) {
                let w = choose|w: int|
                    0 <= w < p.0@.len() && (#[trigger] p.0@[w]).0 == (d.x, d.y) && d.z
                        < p.0@[w].1@.len();
                assert(r.0@[w].0 == (d.x, d.y) && d.z < r.0@[w].1@.len());
            }
        }
        if pos_wf(*p) {
            assert forall|a: int, b: int| 0 <= a < b < r.0@.len() implies (#[trigger] r.0@[a]).0
                != (#[trigger] r.0@[b]).0 by {
                assert(p.0@[a].0 != p.0@[b].0);
            }
        }
    }
    r
}

/// Copies a block list.
fn clone_block_vec(v: &Vec<Block>) -> (r: Vec<Block>)
    ensures
        r@ == v@,
{
    let r = v.clone();
    assert(r@ =~= v@);
    r
}

impl Blocks {
    /// Lets every block settle: drop passes repeat until none moves, so at
    /// the end every block stands on the ground or on an occupied point.
    /// Reports whether anything moved at all; footprints and heights never
    /// change and nothing rises.
    #[verifier::loop_isolation(false)]
    pub fn to_bottom(&mut self) -> (moved: bool)
        requires
            blocks_wf(*old(self)),
        ensures
            blocks_wf(*final(self)),
            final(self).0@.len() == old(self).0@.len(),
            forall|k: int|
                0 <= k < old(self).0@.len() ==> drops_to(
                    #[trigger] old(self).0@[k],
                    final(self).0@[k],
                ),
            !moved ==> final(self).0@ == old(self).0@,
            forall|k: int|
                0 <= k < final(self).0@.len() ==> rests(#[trigger] final(self).0@[k], final(self).1),
    {
        let mut moved = false;
        let mut settled = false;
        proof {
            lemma_sum_z_nonneg(self.0@);
        }
        while !settled
            invariant
                blocks_wf(*self),
                self.0@.len() == old(self).0@.len(),
                forall|k: int|
                    0 <= k < old(self).0@.len() ==> drops_to(
                        #[trigger] old(self).0@[k],
                        self.0@[k],
                    ),
                !moved ==> self.0@ == old(self).0@,
                sum_z(self.0@) >= 0,
                settled ==> forall|k: int|
                    0 <= k < self.0@.len() ==> rests(#[trigger] self.0@[k], self.1),
            decreases sum_z(self.0@), (if settled {
                0int
            } else {
                1int
            }),
        {
            let ghost pre = self.0@;
            if !self.try_drop_one() {
                settled = true;
            } else {
                moved = true;
                proof {
                    lemma_sum_z_nonneg(self.0@);
                    assert forall|k: int| 0 <= k < old(self).0@.len() implies drops_to(
                        #[trigger] old(self).0@[k],
                        self.0@[k],
                    ) by {
                        assert(drops_to(old(self).0@[k], pre[k]));
                        assert(drops_to(pre[k], self.0@[k]));
                    }
                }
            }
        }
        moved
    }

    /// Settles the pile, then tries removing each block in turn on a copy:
    /// counts how many blocks could disappear without anything else falling,
    /// and, over all other blocks, how many blocks would fall in total.
    #[verifier::loop_isolation(false)]
    pub fn try_disintegrate(&mut self) -> (r: (usize, usize))
        requires
            blocks_wf(*old(self)),
        ensures
            blocks_wf(*final(self)),
            forall|k: int|
                0 <= k < old(self).0@.len() ==> drops_to(
                    #[trigger] old(self).0@[k],
                    final(self).0@[k],
                ),
            forall|k: int|
                0 <= k < final(self).0@.len() ==> rests(#[trigger] final(self).0@[k], final(self).1),
            r.0 <= final(self).0@.len(),
    {
        self.to_bottom();
        let n = self.0.len();
        let mut stable: usize = 0;
        let mut fallen: usize = 0;
        let mut i: usize = 0;
        while i < n
            invariant
                0 <= i <= n,
                blocks_wf(*self),
                self.0@.len() == n,
                stable <= i,
                forall|k: int|
                    0 <= k < old(self).0@.len() ==> drops_to(
                        #[trigger] old(self).0@[k],
                        self.0@[k],
                    ),
            decreases n - i,
        {
            let removed = self.0[i];
            let removed_coords = removed.coords();
            let mut copy = Blocks(clone_block_vec(&self.0), clone_positions(&self.1));
            let dropped = copy.0.remove(i);
            proof {
                assert(dropped == removed);
                assert(forall|k: int|
                    0 <= k < copy.0@.len() ==> #[trigger] copy.0@[k] == (if k < i {
                        self.0@[k]
                    } else {
                        self.0@[k + 1]
                    }));
                assert forall|k: int|
                    0 <= k < removed_coords@.len() implies column_covers(
                    copy.1,
                    #[trigger] removed_coords@[k],
                ) by {
                    assert(in_footprint(removed, removed_coords@[k]));
                    assert(removed_coords@[k].z <= removed.end.z);
                    assert(column_covers(self.1, removed_coords@[k]));
                }
            }
            copy.1.remove(&removed_coords);
            proof {
                assert forall|k: int, c: Coord|
                    0 <= k < copy.0@.len() && in_footprint(#[trigger] copy.0@[k], c) && c.z
                        <= copy.0@[k].end.z implies #[trigger] column_covers(copy.1, c) by {
                    if k < i {
                        assert(copy.0@[k] == self.0@[k]);
                        assert(column_covers(self.1, c));
                    } else {
                        assert(copy.0@[k] == self.0@[k + 1]);
                        assert(column_covers(self.1, c));
                    }
                }
                assert(blocks_wf(copy));
            }
            let moved_any = copy.to_bottom();
            if !moved_any {
                stable += 1;
            } else {
                // Count the blocks that ended somewhere else.
                let mut cnt: usize = 0;
                let mut k: usize = 0;
                while k < copy.0.len()
                    invariant
                        0 <= k <= copy.0@.len(),
                        copy.0@.len() == n - 1,
                        self.0@.len() == n,
                        cnt <= k,
                        0 <= i < n,
                    decreases copy.0@.len() - k,
                {
                    let orig = if k < i {
                        self.0[k]
                    } else {
                        self.0[k + 1]
                    };
                    if !(orig == copy.0[k]) {
                        cnt += 1;
                    }
                    k += 1;
                }
                fallen = fallen.saturating_add(cnt);
            }
            i += 1;
        }
        (stable, fallen)
    }
}

} // verus!
