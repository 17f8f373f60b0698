//! Scratchcards: each card lists winning numbers and drawn numbers. A card's
//! wins are the distinct winning numbers it drew; part one scores each card
//! as two to the power of one less than its wins, part two counts the
//! cascade of copied cards.

use vstd::prelude::*;
use vstd::string::*;

use crate::day::{Day, DayResult};
use crate::text::{parse_u64, split_str, u64_to_string};

verus! {

pub struct Instance;

/// One scratchcard: its id, the winning numbers, and the drawn numbers.
#[derive(Debug)]
pub struct Card {
    pub id: u8,
    pub winners: Vec<u8>,
    pub numbers: Vec<u8>,
}

/// How many of the first `k` winners are distinct and were drawn: each
/// winning number counts once, at its first occurrence, if the drawn numbers
/// contain it.
pub open spec fn wins_upto(w: Seq<u8>, ns: Seq<u8>, k: int) -> nat
    decreases k,
{
    if k <= 0 || k > w.len() {
        0
    } else {
        wins_upto(w, ns, k - 1) + (if !w.take(k - 1).contains(w[k - 1]) && ns.contains(w[k - 1]) {
            1nat
        } else {
            0nat
        })
    }
}

/// The distinct winning numbers the card drew.
pub open spec fn spec_wins(c: Card) -> nat {
    wins_upto(c.winners@, c.numbers@, c.winners@.len() as int)
}

/// Whether the list holds `x`.
fn contains_u8(v: &Vec<u8>, x: u8) -> (r: bool)
    ensures
        r == v@.contains(x),
{
    let mut k: usize = 0;
    while k < v.len()
        invariant
            0 <= k <= v@.len(),
            forall|a: int| 0 <= a < k ==> v@[a] != x,
        decreases v@.len() - k,
    {
        if v[k] == x {
            return true;
        }
        k += 1;
    }
    assert(!v@.contains(x));
    false
}

impl Card {
    /// The number of distinct winning numbers the card drew.
    #[verifier::loop_isolation(false)]
    pub fn wins(&self) -> (r: u64)
        ensures
            r == spec_wins(*self),
    {
        let mut r: u64 = 0;
        let mut k: usize = 0;
        while k < self.winners.len()
            invariant
                0 <= k <= self.winners@.len(),
                r <= k,
                r == wins_upto(self.winners@, self.numbers@, k as int),
            decreases self.winners@.len() - k,
        {
            let x = self.winners[k];
            let mut seen = false;
            let mut a: usize = 0;
            while a < k
                invariant
                    0 <= a <= k < self.winners@.len(),
                    seen == self.winners@.take(k as int).take(a as int).contains(
                        self.winners@[k as int],
                    ),
                decreases k - a,
            {
                if self.winners[a] == x {
                    seen = true;
                    proof {
                        assert(self.winners@.take(k as int).take(a + 1)[a as int]
                            == self.winners@[k as int]);
                    }
                }
                proof {
                    if !seen {
                        assert(!self.winners@.take(k as int).take(a + 1).contains(
                            self.winners@[k as int],
                        )) by {
                            assert(forall|b: int|
                                0 <= b < a + 1 ==> self.winners@.take(k as int).take(a + 1)[b]
                                    == #[trigger] self.winners@.take(k as int).take(a as int)[b]
                                    || b == a);
                        }
                    }
                }
                a += 1;
            }
            proof {
                assert(self.winners@.take(k as int).take(k as int) =~= self.winners@.take(
                    k as int,
                ));
            }
            if !seen && contains_u8(&self.numbers, x) {
                r += 1;
            }
            k += 1;
        }
        r
    }

    /// The card's score: nothing without a win, else two to the power of one
    /// less than the wins. Limited to sixteen wins so the score fits.
    pub fn score(&self) -> (r: u16)
        requires
            spec_wins(*self) <= 16,
        ensures
            spec_wins(*self) == 0 ==> r == 0,
            spec_wins(*self) > 0 ==> r == (1u16 << (((spec_wins(*self) - 1) as u16) as u16)),
    {
        let w = self.wins();
        if w == 0 {
            0
        } else {
            1u16 << ((w - 1) as u16)
        }
    }
}

/// Parses the numbers of one side of a card, skipping blank pieces.
fn parse_numbers(s: &str) -> (r: Result<Vec<u8>, String>) {
    proof {
        reveal_strlit(" ");
    }
    let pieces = split_str(s, " ");
    let mut out: Vec<u8> = Vec::new();
    let mut i: usize = 0;
    while i < pieces.len()
        decreases pieces@.len() - i,
    {
        let p = &pieces[i];
        if p.unicode_len() > 0 {
            let v = match parse_u64(p.as_str()) {
                Some(v) => v,
                None => {
                    return Err("not a number".to_owned());
                },
            };
            if v > 255 {
                return Err("number too large".to_owned());
            }
            out.push(v as u8);
        }
        i += 1;
    }
    Ok(out)
}

/// Parses one `Card <id>: <winners> | <numbers>` line.
fn parse_card(s: &str) -> (r: Result<Card, String>) {
    proof {
        reveal_strlit(": ");
        reveal_strlit(" | ");
        reveal_strlit(" ");
    }
    let halves = split_str(s, ": ");
    if halves.len() < 2 {
        return Err("missing numbers".to_owned());
    }
    let header = &halves[0];
    let hlen = header.unicode_len();
    if hlen < 5 {
        return Err("missing card id".to_owned());
    }
    // The id sits after "Card", possibly padded with blanks.
    let id_part = header.as_str().substring_char(4, hlen);
    let id_pieces = split_str(id_part, " ");
    let mut id64: u64 = 0;
    let mut found = false;
    let mut k: usize = 0;
    while k < id_pieces.len()
        decreases id_pieces@.len() - k,
    {
        if id_pieces[k].unicode_len() > 0 {
            match parse_u64(id_pieces[k].as_str()) {
                Some(v) => {
                    id64 = v;
                    found = true;
                },
                None => {
                    return Err("bad card id".to_owned());
                },
            }
        }
        k += 1;
    }
    if !found || id64 > 255 {
        return Err("bad card id".to_owned());
    }
    let sides = split_str(halves[1].as_str(), " | ");
    if sides.len() < 2 {
        return Err("missing draw".to_owned());
    }
    let winners = match parse_numbers(sides[0].as_str()) {
        Ok(v) => v,
        Err(e) => {
            return Err(e);
        },
    };
    let numbers = match parse_numbers(sides[1].as_str()) {
        Ok(v) => v,
        Err(e) => {
            return Err(e);
        },
    };
    Ok(Card { id: id64 as u8, winners, numbers })
}

impl Instance {
    /// Whole-day driver: parse the cards, sum the scores (part one), then
    /// count the cascade of copies each card's wins produce (part two).
    pub fn solve(&self, lines: &Vec<String>) -> (r: Result<DayResult, String>) {
        let mut cards: Vec<Card> = Vec::new();
        let mut i: usize = 0;
        while i < lines.len()
            decreases lines@.len() - i,
        {
            match parse_card(lines[i].as_str()) {
                Ok(c) => {
                    cards.push(c);
                },
                Err(e) => {
                    return Err(e);
                },
            }
            i += 1;
        }
        let mut part1: u64 = 0;
        i = 0;
        while i < cards.len()
            decreases cards@.len() - i,
        {
            let w = cards[i].wins();
            if w > 16 {
                return Err("too many wins to score".to_owned());
            }
            part1 = match part1.checked_add(cards[i].score() as u64) {
                Some(v) => v,
                None => {
                    return Err("score sum overflows".to_owned());
                },
            };
            i += 1;
        }
        // Copy counting, rear to front: a card is worth one plus its copies.
        let n = cards.len();
        if n > 0xffff_ffff {
            return Err("too many cards".to_owned());
        }
        let mut counts: Vec<u64> = Vec::new();
        let mut z: usize = 0;
        while z < n
            invariant
                counts@.len() == z <= n,
            decreases n - z,
        {
            counts.push(0);
            z += 1;
        }
        let mut back: usize = n;
        while back > 0
            invariant
                0 <= back <= n,
                counts@.len() == n == cards@.len(),
                n <= 0xffff_ffff,
            decreases back,
        {
            back -= 1;
            let w0 = cards[back].wins();
            // Copies past the last card do not exist.
            let w = if w0 > n as u64 {
                n as u64
            } else {
                w0
            };
            let mut total: u64 = 1;
            let mut j: u64 = 1;
            while j <= w
                invariant
                    counts@.len() == n <= 0xffff_ffff,
                    back < n,
                    w <= n,
                    1 <= j <= w + 1,
                decreases w + 1 - j,
            {
                let idx64 = back as u64 + j;
                if idx64 < n as u64 {
                    total = match total.checked_add(counts[idx64 as usize]) {
                        Some(v) => v,
                        None => {
                            return Err("card count overflows".to_owned());
                        },
                    };
                }
                j += 1;
            }
            counts.set(back, total);
        }
        let mut part2: u64 = 0;
        i = 0;
        while i < counts.len()
            decreases counts@.len() - i,
        {
            part2 = match part2.checked_add(counts[i]) {
                Some(v) => v,
                None => {
                    return Err("card count overflows".to_owned());
                },
            };
            i += 1;
        }
        Ok(DayResult { part1: u64_to_string(part1), part2: Some(u64_to_string(part2)) })
    }
}

impl Day for Instance {
    fn run(&self, lines: Vec<String>) -> Result<DayResult, String> {
        self.solve(&lines)
    }
}

} // verus!
