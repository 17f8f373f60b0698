//! Cube game: each line is a game of semicolon-separated handfuls of red,
//! green and blue cubes. Part one sums the ids of the games possible with a
//! fixed bag; part two sums each game's power, the product of the fewest
//! cubes per colour that make it possible.

use vstd::prelude::*;
use vstd::string::*;

use crate::day::{Day, DayResult};
use crate::day20::str_eq;
use crate::text::{parse_u64, split_str, u64_to_string};

verus! {

pub struct Instance;

/// One handful of cubes shown during a game.
#[derive(Debug, Clone, Copy, PartialEq, Eq, Structural)]
pub struct Handful {
    pub red: u8,
    pub green: u8,
    pub blue: u8,
}

impl Handful {
    /// The handful could be drawn from a bag with the given totals.
    pub fn is_possible(&self, total_red: u8, total_green: u8, total_blue: u8) -> (r: bool)
        ensures
            r == (total_red >= self.red && total_green >= self.green && total_blue >= self.blue),
    {
        total_red >= self.red && total_green >= self.green && total_blue >= self.blue
    }
}

/// The fewest red cubes a bag needs for all the handfuls.
pub open spec fn max_red(hs: Seq<Handful>) -> int
    decreases hs.len(),
{
    if hs.len() == 0 {
        0
    } else {
        let rest = max_red(hs.drop_last());
        if hs.last().red > rest {
            hs.last().red as int
        } else {
            rest
        }
    }
}

/// The fewest green cubes a bag needs for all the handfuls.
pub open spec fn max_green(hs: Seq<Handful>) -> int
    decreases hs.len(),
{
    if hs.len() == 0 {
        0
    } else {
        let rest = max_green(hs.drop_last());
        if hs.last().green > rest {
            hs.last().green as int
        } else {
            rest
        }
    }
}

/// The fewest blue cubes a bag needs for all the handfuls.
pub open spec fn max_blue(hs: Seq<Handful>) -> int
    decreases hs.len(),
{
    if hs.len() == 0 {
        0
    } else {
        let rest = max_blue(hs.drop_last());
        if hs.last().blue > rest {
            hs.last().blue as int
        } else {
            rest
        }
    }
}

/// One game: its id and the handfuls shown.
#[derive(Debug)]
pub struct Game {
    pub id: u8,
    pub handfuls: Vec<Handful>,
}

impl Game {
    /// The power of the game: the product of the fewest cubes per colour that
    /// make every handful possible.
    #[verifier::loop_isolation(false)]
    pub fn power(&self) -> (r: u32)
        ensures
            r == max_red(self.handfuls@) * max_green(self.handfuls@) * max_blue(self.handfuls@),
    {
        let mut red: u8 = 0;
        let mut green: u8 = 0;
        let mut blue: u8 = 0;
        let mut i: usize = 0;
        while i < self.handfuls.len()
            invariant
                0 <= i <= self.handfuls@.len(),
                red == max_red(self.handfuls@.take(i as int)),
                green == max_green(self.handfuls@.take(i as int)),
                blue == max_blue(self.handfuls@.take(i as int)),
            decreases self.handfuls@.len() - i,
        {
            proof {
                assert(self.handfuls@.take(i + 1).drop_last() =~= self.handfuls@.take(i as int));
            }
            let h = self.handfuls[i];
            if h.red > red {
                red = h.red;
            }
            if h.green > green {
                green = h.green;
            }
            if h.blue > blue {
                blue = h.blue;
            }
            i += 1;
        }
        assert(self.handfuls@.take(self.handfuls@.len() as int) =~= self.handfuls@);
        proof {
            assert((red as int) * (green as int) <= 255 * 255) by (nonlinear_arith)
                requires
                    0 <= red <= 255 && 0 <= green <= 255,
            ;
            assert((red as int) * (green as int) * (blue as int) <= 255 * 255 * 255)
                by (nonlinear_arith)
                requires
                    0 <= red <= 255 && 0 <= green <= 255 && 0 <= blue <= 255,
            ;
        }
        (red as u32) * (green as u32) * (blue as u32)
    }
}

/// Parses one `<amount> <colour>` piece into a handful update.
fn parse_piece(s: &str, h: &mut Handful) -> (r: Result<(), String>)
{
    proof {
        reveal_strlit(" ");
    }
    let parts = split_str(s, " ");
    if parts.len() < 2 {
        return Err("missing colour".to_owned());
    }
    let amount64 = match parse_u64(parts[0].as_str()) {
        Some(v) => v,
        None => {
            return Err("missing amount".to_owned());
        },
    };
    if amount64 > 255 {
        return Err("amount too large".to_owned());
    }
    let amount = amount64 as u8;
    let colour = &parts[1];
    if str_eq(colour.as_str(), "red") {
        h.red = amount;
    } else if str_eq(colour.as_str(), "green") {
        h.green = amount;
    } else if str_eq(colour.as_str(), "blue") {
        h.blue = amount;
    } else {
        return Err("unknown colour".to_owned());
    }
    Ok(())
}

/// Parses one handful: comma-separated colour amounts; for a repeated colour
/// the last amount wins.
fn parse_handful(s: &str) -> (r: Result<Handful, String>) {
    proof {
        reveal_strlit(", ");
    }
    let pieces = split_str(s, ", ");
    let mut h = Handful { red: 0, green: 0, blue: 0 };
    let mut i: usize = 0;
    while i < pieces.len()
        decreases pieces@.len() - i,
    {
        match parse_piece(pieces[i].as_str(), &mut h) {
            Ok(_) => {},
            Err(e) => {
                return Err(e);
            },
        }
        i += 1;
    }
    Ok(h)
}

/// Parses one `Game <id>: <handful>; <handful>; ...` line.
fn parse_game(s: &str) -> (r: Result<Game, String>) {
    proof {
        reveal_strlit(": ");
        reveal_strlit("; ");
    }
    let halves = split_str(s, ": ");
    if halves.len() < 2 {
        return Err("missing handfuls".to_owned());
    }
    let header = &halves[0];
    let hlen = header.unicode_len();
    if hlen < 6 {
        return Err("missing game id".to_owned());
    }
    let id64 = match parse_u64(header.as_str().substring_char(5, hlen)) {
        Some(v) => v,
        None => {
            return Err("bad game id".to_owned());
        },
    };
    if id64 > 255 {
        return Err("bad game id".to_owned());
    }
    let body = &halves[1];
    let parts = split_str(body.as_str(), "; ");
    let mut handfuls: Vec<Handful> = Vec::new();
    let mut i: usize = 0;
    while i < parts.len()
        decreases parts@.len() - i,
    {
        match parse_handful(parts[i].as_str()) {
            Ok(h) => {
                handfuls.push(h);
            },
            Err(e) => {
                return Err(e);
            },
        }
        i += 1;
    }
    Ok(Game { id: id64 as u8, handfuls })
}

impl Instance {
    /// Whole-day driver: parse the games, sum the ids of those possible with
    /// a 12-red, 13-green, 14-blue bag (part one), then sum the powers (part
    /// two).
    pub fn solve(&self, lines: &Vec<String>) -> (r: Result<DayResult, String>) {
        let mut games: Vec<Game> = Vec::new();
        let mut i: usize = 0;
        while i < lines.len()
            decreases lines@.len() - i,
        {
            match parse_game(lines[i].as_str()) {
                Ok(g) => {
                    games.push(g);
                },
                Err(e) => {
                    return Err(e);
                },
            }
            i += 1;
        }
        let mut part1: u64 = 0;
        let mut part2: u64 = 0;
        i = 0;
        while i < games.len()
            decreases games@.len() - i,
        {
            let g = &games[i];
            let mut ok = true;
            let mut j: usize = 0;
            while j < g.handfuls.len()
                decreases g.handfuls@.len() - j,
            {
                if !g.handfuls[j].is_possible(12, 13, 14) {
                    ok = false;
                }
                j += 1;
            }
            if ok {
                part1 = match part1.checked_add(g.id as u64) {
                    Some(v) => v,
                    None => {
                        return Err("id sum overflows".to_owned());
                    },
                };
            }
            part2 = match part2.checked_add(g.power() as u64) {
                Some(v) => v,
                None => {
                    return Err("power sum overflows".to_owned());
                },
            };
            i += 1;
        }
        Ok(DayResult { part1: u64_to_string(part1), part2: Some(u64_to_string(part2)) })
    }
}

impl Day for Instance {
    fn run(&self, lines: Vec<String>) -> Result<DayResult, String> {
        self.solve(&lines)
    }
}

} // verus!
