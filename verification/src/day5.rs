//! Seed-range remapping: an almanac of layered range maps is applied to seed
//! numbers (or whole seed ranges), and the lowest reachable location is
//! reported.

use vstd::prelude::*;
use vstd::string::*;

use crate::day::{Day, DayResult};
use crate::text::{parse_u64, split_str, u64_to_string};

verus! {

pub struct Instance;

/// A half-open interval of numbers, `[from, from + length)`.
#[derive(Debug, Clone, Copy, PartialEq, Eq, Structural)]
pub struct Range {
    pub from: u64,
    pub length: u64,
}

/// The interval end stays representable.
pub open spec fn range_wf(r: Range) -> bool {
    r.from + r.length <= u64::MAX
}

impl Range {
    /// The interval of `length` numbers starting at `from`.
    pub fn from_length(from: u64, length: u64) -> (r: Range)
        ensures
            r == (Range { from, length }),
    {
        Range { from, length }
    }

    /// The interval from `from` up to but excluding `to_excl`.
    pub fn from_bounds(from: u64, to_excl: u64) -> (r: Range)
        requires
            from <= to_excl,
        ensures
            r == (Range { from, length: (to_excl - from) as u64 }),
    {
        Range { from, length: to_excl - from }
    }

    /// The first number past the interval.
    pub fn to_excl(&self) -> (r: u64)
        requires
            range_wf(*self),
        ensures
            r == self.from + self.length,
    {
        self.from + self.length
    }
}

/// One remapping rule: the `range` numbers starting at `source` move to start
/// at `destination` instead.
#[derive(Debug, Clone, Copy, PartialEq, Eq, Structural)]
pub struct MapRange {
    pub source: u64,
    pub destination: u64,
    pub range: u64,
}

/// Both interval ends stay representable.
pub open spec fn map_range_wf(m: MapRange) -> bool {
    m.source + m.range <= u64::MAX && m.destination + m.range <= u64::MAX
}

/// The part of `r` that the rule remaps: the intersection of `r` with the
/// rule's source interval, shifted to the destination — `None` when the
/// intersection is empty and its lower end lies outside the source interval.
pub open spec fn mapped_spec(m: MapRange, r: Range) -> Option<Range> {
    let lo = if r.from >= m.source {
        r.from as int
    } else {
        m.source as int
    };
    let hi = if r.from + r.length <= m.source + m.range {
        r.from + r.length
    } else {
        m.source + m.range
    };
    if m.source <= lo < m.source + m.range && lo <= hi {
        Some(Range { from: (m.destination + lo - m.source) as u64, length: (hi - lo) as u64 })
    } else {
        None
    }
}

/// The parts of `r` that the rule leaves alone: what lies left of the source
/// interval, then what lies right of it, in that order.
pub open spec fn unmapped_spec(m: MapRange, r: Range) -> Seq<Range> {
    let left = if r.from < m.source {
        let cut = if r.from + r.length <= m.source {
            r.from + r.length
        } else {
            m.source as int
        };
        seq![Range { from: r.from, length: (cut - r.from) as u64 }]
    } else {
        Seq::empty()
    };
    let right = if r.from + r.length > m.source + m.range {
        let cut = if r.from >= m.source + m.range {
            r.from as int
        } else {
            m.source + m.range
        };
        left + seq![
            Range { from: cut as u64, length: (r.from + r.length - cut) as u64 },
        ]
    } else {
        left
    };
    right
}

impl MapRange {
    /// The first number past the rule's source interval.
    pub fn source_end_excl(&self) -> (r: u64)
        requires
            self.source + self.range <= u64::MAX,
        ensures
            r == self.source + self.range,
    {
        self.source + self.range
    }

    /// Remaps one number, if it lies in the rule's source interval.
    pub fn try_map(&self, v: u64) -> (r: Option<u64>)
        requires
            map_range_wf(*self),
        ensures
            self.source <= v < self.source + self.range ==> r == Some(
                (self.destination + v - self.source) as u64,
            ),
            !(self.source <= v < self.source + self.range) ==> r is None,
    {
        if self.source <= v && v < self.source_end_excl() {
            Some(self.destination + (v - self.source))
        } else {
            None
        }
    }

    /// Splits `r` against the rule: the pieces left untouched and, if the
    /// intersection with the source interval is caught, the remapped piece.
    pub fn map_range(&self, r: &Range) -> (res: (Vec<Range>, Option<Range>))
        requires
            map_range_wf(*self),
            range_wf(*r),
        ensures
            res.0@ == unmapped_spec(*self, *r),
            res.1 == mapped_spec(*self, *r),
            forall|k: int| 0 <= k < res.0@.len() ==> range_wf(#[trigger] res.0@[k]),
            res.1 matches Some(m) ==> range_wf(m),
    {
        let mut unmapped: Vec<Range> = Vec::new();
        let mut mapped: Option<Range> = None;
        let r_end = r.to_excl();
        let s_end = self.source_end_excl();
        if r.from < self.source {
            let to_excl = if r_end <= self.source {
                r_end
            } else {
                self.source
            };
            unmapped.push(Range::from_bounds(r.from, to_excl));
        }
        if r_end > s_end {
            let from = if r.from >= s_end {
                r.from
            } else {
                s_end
            };
            unmapped.push(Range::from_bounds(from, r_end));
        }
        let from = if r.from >= self.source {
            r.from
        } else {
            self.source
        };
        let to_excl = if r_end <= s_end {
            r_end
        } else {
            s_end
        };
        if from <= to_excl {
            match self.try_map(from) {
                Some(mapped_from) => {
                    mapped = Some(Range::from_length(mapped_from, to_excl - from));
                },
                None => {},
            }
        }
        assert(unmapped@ =~= unmapped_spec(*self, *r));
        (unmapped, mapped)
    }
}

/// One layer of the almanac: its target category name and its rules.
#[derive(Debug)]
pub struct CategoryMap {
    pub to: String,
    pub ranges: Vec<MapRange>,
}

/// Every rule of the layer keeps both interval ends representable.
pub open spec fn map_wf(m: CategoryMap) -> bool {
    forall|k: int| 0 <= k < m.ranges@.len() ==> map_range_wf(#[trigger] m.ranges@[k])
}

/// The numbers an interval list covers, counted with multiplicity.
pub open spec fn total_length(rs: Seq<Range>) -> int
    decreases rs.len(),
{
    if rs.len() == 0 {
        0
    } else {
        total_length(rs.drop_last()) + rs.last().length
    }
}

impl CategoryMap {
    /// Applies the layer to one interval: every rule in order splits the
    /// still-unmapped pieces, remapped pieces are set aside, and what no rule
    /// caught passes through unchanged. No number is lost or duplicated: the
    /// result covers exactly as many numbers as the input interval.
    #[verifier::loop_isolation(false)]
    pub fn map_range(&self, range: Range) -> (res: Vec<Range>)
        requires
            map_wf(*self),
            range_wf(range),
        ensures
            total_length(res@) == range.length,
            forall|k: int| 0 <= k < res@.len() ==> range_wf(#[trigger] res@[k]),
    {
        let mut current_ranges: Vec<Range> = Vec::new();
        current_ranges.push(range);
        let mut all_mapped: Vec<Range> = Vec::new();
        proof {
            assert(current_ranges@ =~= seq![range]);
            lemma_total_length_single(range);
        }
        let mut i: usize = 0;
        while i < self.ranges.len()
            invariant
                0 <= i <= self.ranges@.len(),
                map_wf(*self),
                total_length(current_ranges@) + total_length(all_mapped@) == range.length,
                forall|k: int|
                    0 <= k < current_ranges@.len() ==> range_wf(#[trigger] current_ranges@[k]),
                forall|k: int| 0 <= k < all_mapped@.len() ==> range_wf(#[trigger] all_mapped@[k]),
            decreases self.ranges@.len() - i,
        {
            let mr = &self.ranges[i];
            let mut new_ranges: Vec<Range> = Vec::new();
            assert(current_ranges@.skip(0) =~= current_ranges@);
            let mut c: usize = 0;
            while c < current_ranges.len()
                invariant
                    0 <= c <= current_ranges@.len(),
                    map_range_wf(self.ranges@[i as int]),
                    mr == &self.ranges@[i as int],
                    forall|k: int|
                        0 <= k < current_ranges@.len() ==> range_wf(#[trigger] current_ranges@[k]),
                    forall|k: int| 0 <= k < new_ranges@.len() ==> range_wf(#[trigger] new_ranges@[k]),
                    forall|k: int| 0 <= k < all_mapped@.len() ==> range_wf(#[trigger] all_mapped@[k]),
                    total_length(new_ranges@) + total_length(all_mapped@) + total_length(
                        current_ranges@.skip(c as int),
                    ) == range.length,
                decreases current_ranges@.len() - c,
            {
                let piece = current_ranges[c];
                let (unmapped, mapped) = mr.map_range(&piece);
                proof {
                    lemma_split_preserves_length(*mr, piece);
                }
                let ghost pre_new = new_ranges@;
                let mut um = unmapped;
                new_ranges.append(&mut um);
                proof {
                    lemma_total_length_concat(pre_new, unmapped_spec(*mr, piece));
                    assert(new_ranges@ =~= pre_new + unmapped_spec(*mr, piece));
                }
                match mapped {
                    Some(mp) => {
                        let ghost pre_map = all_mapped@;
                        all_mapped.push(mp);
                        assert(all_mapped@.drop_last() =~= pre_map);
                    },
                    None => {},
                }
                proof {
                    assert(current_ranges@.skip(c as int).drop_first() =~= current_ranges@.skip(
                        c + 1,
                    ));
                    lemma_total_length_first(current_ranges@.skip(c as int));
                }
                c += 1;
            }
            assert(current_ranges@.skip(current_ranges@.len() as int) =~= Seq::<Range>::empty());
            current_ranges = new_ranges;
            i += 1;
        }
        let ghost pre = all_mapped@;
        let mut cur = current_ranges;
        let ghost cur0 = cur@;
        all_mapped.append(&mut cur);
        proof {
            lemma_total_length_concat(pre, cur0);
            assert(all_mapped@ =~= pre + cur0);
        }
        all_mapped
    }
}

/// The almanac: the seed numbers and the remapping layers, each stored with
/// the source category name it applies to.
#[derive(Debug)]
pub struct Almanac {
    pub seeds: Vec<u64>,
    pub maps: Vec<(String, CategoryMap)>,
}

/// Every layer of the almanac is well formed.
pub open spec fn almanac_wf(a: Almanac) -> bool {
    forall|k: int| 0 <= k < a.maps@.len() ==> map_wf((#[trigger] a.maps@[k]).1)
}

/// A list with a positive covered length is nonempty.
proof fn lemma_positive_length_nonempty(rs: Seq<Range>)
    requires
        total_length(rs) > 0,
    ensures
        rs.len() > 0,
{
}

impl Almanac {
    /// Parses the almanac text: a seed line, then remapping layers, each
    /// introduced by a `<from>-to-<to> map:` header followed by
    /// `<destination> <source> <range>` rule lines. Rules whose intervals
    /// would run past the machine range are rejected, so every layer of a
    /// parsed almanac is well formed.
    #[verifier::loop_isolation(false)]
    pub fn from_lines(lines: &Vec<String>) -> (r: Result<Almanac, String>)
        ensures
            r matches Ok(a) ==> almanac_wf(a) && lines@.len() > 0,
    {
        if lines.len() == 0 {
            return Err("missing seeds".to_owned());
        }
        proof {
            reveal_strlit(" ");
        }
        let seed_pieces = split_str(lines[0].as_str(), " ");
        let mut seeds: Vec<u64> = Vec::new();
        let mut i: usize = 1;
        while i < seed_pieces.len()
            invariant
                1 <= i <= seed_pieces@.len(),
            decreases seed_pieces@.len() - i,
        {
            match parse_u64(seed_pieces[i].as_str()) {
                Some(v) => {
                    seeds.push(v);
                },
                None => {
                    return Err("seed is not a number".to_owned());
                },
            }
            i += 1;
        }
        let mut maps: Vec<(String, CategoryMap)> = Vec::new();
        let mut li: usize = 2;
        while li < lines.len()
            invariant
                2 <= li,
                forall|k: int| 0 <= k < maps@.len() ==> map_wf((#[trigger] maps@[k]).1),
            decreases lines@.len() - li,
        {
            let line = &lines[li];
            if line.unicode_len() == 0 {
                li += 1;
                continue ;
            }
            let c0 = line.as_str().get_char(0);
            if c0 < '0' || c0 > '9' {
                // A layer header: `<from>-to-<to> map:`.
                proof {
                    reveal_strlit("-");
                }
                let pieces = split_str(line.as_str(), "-");
                if pieces.len() < 3 {
                    return Err("missing mapping to".to_owned());
                }
                let from = pieces[0].clone();
                let third = &pieces[2];
                let third_len = third.unicode_len();
                if third_len < 5 {
                    return Err("missing mapping to".to_owned());
                }
                let to = third.as_str().substring_char(0, third_len - 5).to_owned();
                maps.push((from, CategoryMap { to, ranges: Vec::new() }));
            } else {
                // A rule line: `<destination> <source> <range>`.
                let pieces = split_str(line.as_str(), " ");
                if pieces.len() < 3 {
                    return Err("missing range".to_owned());
                }
                let destination = match parse_u64(pieces[0].as_str()) {
                    Some(v) => v,
                    None => {
                        return Err("destination is not a number".to_owned());
                    },
                };
                let source = match parse_u64(pieces[1].as_str()) {
                    Some(v) => v,
                    None => {
                        return Err("source is not a number".to_owned());
                    },
                };
                let range = match parse_u64(pieces[2].as_str()) {
                    Some(v) => v,
                    None => {
                        return Err("range is not a number".to_owned());
                    },
                };
                if source.checked_add(range).is_none() || destination.checked_add(range).is_none()
                {
                    return Err("rule runs past the machine range".to_owned());
                }
                if maps.len() == 0 {
                    return Err("rule before any map header".to_owned());
                }
                let last = maps.len() - 1;
                let ghost pre = maps@;
                let mut entry = maps.remove(last);
                entry.1.ranges.push(MapRange { source, destination, range });
                maps.push(entry);
                proof {
                    assert(forall|k: int|
                        0 <= k < maps@.len() - 1 ==> maps@[k] == pre[k] && map_wf(
                            (#[trigger] maps@[k]).1,
                        ));
                }
            }
            li += 1;
        }
        Ok(Almanac { seeds, maps })
    }

    /// The index of the layer whose source category is `name`, if any.
    fn find_map(&self, name: &str) -> (r: Option<usize>)
        ensures
            r matches Some(i) ==> (i as int) < self.maps@.len(),
    {
        let mut k: usize = 0;
        while k < self.maps.len()
            invariant
                0 <= k <= self.maps@.len(),
            decreases self.maps@.len() - k,
        {
            if crate::day20::str_eq(self.maps[k].0.as_str(), name) {
                return Some(k);
            }
            k += 1;
        }
        None
    }

    /// Follows the category chain from "seed", remapping the interval list
    /// through one layer per step, and returns the lowest interval start that
    /// remains. A chain that would revisit layers (which could never end) is
    /// cut off after one step per layer. Intervals are neither lost nor
    /// duplicated along the way, so a list that covers at least one number
    /// always yields an answer; `None` only for an empty surviving list.
    #[verifier::loop_isolation(false)]
    pub fn lowest_seeds(&self, seeds: Vec<Range>) -> (r: Option<u64>)
        requires
            almanac_wf(*self),
            forall|k: int| 0 <= k < seeds@.len() ==> range_wf(#[trigger] seeds@[k]),
        ensures
            total_length(seeds@) > 0 ==> r is Some,
    {
        let mut current: Vec<Range> = seeds;
        let mut name: String = "seed".to_owned();
        let mut steps: usize = 0;
        let bound = self.maps.len();
        loop
            invariant
                0 <= steps <= bound,
                bound == self.maps@.len(),
                total_length(current@) == total_length(seeds@),
                forall|k: int| 0 <= k < current@.len() ==> range_wf(#[trigger] current@[k]),
            decreases bound - steps,
        {
            let found = self.find_map(name.as_str());
            let mi = match found {
                Some(mi) => mi,
                None => {
                    break ;
                },
            };
            let mut next: Vec<Range> = Vec::new();
            assert(current@.skip(0) =~= current@);
            let mut c: usize = 0;
            while c < current.len()
                invariant
                    0 <= c <= current@.len(),
                    (mi as int) < self.maps@.len(),
                    map_wf(self.maps@[mi as int].1),
                    forall|k: int| 0 <= k < current@.len() ==> range_wf(#[trigger] current@[k]),
                    forall|k: int| 0 <= k < next@.len() ==> range_wf(#[trigger] next@[k]),
                    total_length(next@) + total_length(current@.skip(c as int)) == total_length(
                        current@,
                    ),
                decreases current@.len() - c,
            {
                let ghost pre = next@;
                let mut pieces = self.maps[mi].1.map_range(current[c]);
                let ghost pieces0 = pieces@;
                next.append(&mut pieces);
                proof {
                    lemma_total_length_concat(pre, pieces0);
                    assert(next@ =~= pre + pieces0);
                    assert(current@.skip(c as int).drop_first() =~= current@.skip(c + 1));
                    lemma_total_length_first(current@.skip(c as int));
                }
                c += 1;
            }
            proof {
                assert(current@.skip(current@.len() as int) =~= Seq::<Range>::empty());
            }
            let next_name = self.maps[mi].1.to.clone();
            current = next;
            name = next_name;
            if steps == bound {
                // The chain would revisit a layer and could never end: stop.
                break ;
            }
            steps += 1;
        }
        proof {
            if total_length(current@) > 0 {
                lemma_positive_length_nonempty(current@);
            }
        }
        min_from(&current)
    }

    /// Part one: each seed number is an interval of length one.
    pub fn lowest(&self) -> (r: Option<u64>)
        requires
            almanac_wf(*self),
        ensures
            (self.seeds@.len() > 0 && (forall|k: int|
                0 <= k < self.seeds@.len() ==> (#[trigger] self.seeds@[k]) < u64::MAX)) ==> r is Some,
    {
        let mut seeds: Vec<Range> = Vec::new();
        let mut i: usize = 0;
        while i < self.seeds.len()
            invariant
                0 <= i <= self.seeds@.len(),
                forall|k: int| 0 <= k < seeds@.len() ==> range_wf(#[trigger] seeds@[k]),
                total_length(seeds@) == i,
            decreases self.seeds@.len() - i,
        {
            let from = self.seeds[i];
            if from == u64::MAX {
                return None;
            }
            let ghost pre = seeds@;
            seeds.push(Range::from_length(from, 1));
            proof {
                assert(seeds@.drop_last() =~= pre);
            }
            i += 1;
        }
        self.lowest_seeds(seeds)
    }

    /// Part two: consecutive seed pairs give interval start and length.
    /// Pairs whose interval would run past the machine range are dropped.
    pub fn lowest_range(&self) -> (r: Option<u64>)
        requires
            almanac_wf(*self),
    {
        let mut seeds: Vec<Range> = Vec::new();
        let mut i: usize = 0;
        while i < self.seeds.len()
            invariant
                0 <= i,
                forall|k: int| 0 <= k < seeds@.len() ==> range_wf(#[trigger] seeds@[k]),
            decreases self.seeds@.len() - i,
        {
            if i + 1 >= self.seeds.len() {
                break ;
            }
            let from = self.seeds[i];
            let length = self.seeds[i + 1];
            if from.checked_add(length).is_some() {
                seeds.push(Range::from_length(from, length));
            }
            i += 2;
        }
        self.lowest_seeds(seeds)
    }
}

/// The least interval start of the list, if the list is nonempty.
fn min_from(rs: &Vec<Range>) -> (r: Option<u64>)
    ensures
        match r {
            Some(v) => rs@.len() > 0 && (exists|k: int|
                0 <= k < rs@.len() && (#[trigger] rs@[k]).from == v) && (forall|k: int|
                0 <= k < rs@.len() ==> v <= (#[trigger] rs@[k]).from),
            None => rs@.len() == 0,
        },
{
    if rs.len() == 0 {
        return None;
    }
    let mut best: u64 = rs[0].from;
    let mut k: usize = 1;
    while k < rs.len()
        invariant
            1 <= k <= rs@.len(),
            exists|a: int| 0 <= a < k && (#[trigger] rs@[a]).from == best,
            forall|a: int| 0 <= a < k ==> best <= (#[trigger] rs@[a]).from,
        decreases rs@.len() - k,
    {
        if rs[k].from < best {
            best = rs[k].from;
        }
        k += 1;
    }
    Some(best)
}

impl Instance {
    /// Whole-day driver: parse the almanac, then report the lowest location
    /// reachable from single seeds (part one) and from seed ranges (part
    /// two).
    pub fn solve(&self, lines: &Vec<String>) -> (r: Result<DayResult, String>)
    {
        let almanac = match Almanac::from_lines(lines) {
            Ok(a) => a,
            Err(e) => {
                return Err(e);
            },
        };
        let part1 = match almanac.lowest() {
            Some(v) => v,
            None => {
                return Err("no seeds".to_owned());
            },
        };
        let part2 = match almanac.lowest_range() {
            Some(v) => v,
            None => {
                return Err("no seed ranges".to_owned());
            },
        };
        Ok(DayResult { part1: u64_to_string(part1), part2: Some(u64_to_string(part2)) })
    }
}

impl Day for Instance {
    fn run(&self, lines: Vec<String>) -> Result<DayResult, String> {
        self.solve(&lines)
    }
}

/// Concatenation adds covered lengths.
proof fn lemma_total_length_concat(a: Seq<Range>, b: Seq<Range>)
    ensures
        total_length(a + b) == total_length(a) + total_length(b),
    decreases b.len(),
{
    if b.len() == 0 {
        assert(a + b =~= a);
    } else {
        assert((a + b).drop_last() =~= a + b.drop_last());
        lemma_total_length_concat(a, b.drop_last());
    }
}

/// A single interval covers its own length.
proof fn lemma_total_length_single(r: Range)
    ensures
        total_length(seq![r]) == r.length,
{
    assert(seq![r].drop_last() =~= Seq::<Range>::empty());
    assert(total_length(Seq::<Range>::empty()) == 0);
}

/// A nonempty list covers its first interval plus the rest.
proof fn lemma_total_length_first(s: Seq<Range>)
    requires
        s.len() > 0,
    ensures
        total_length(s) == s[0].length + total_length(s.drop_first()),
{
    assert(s =~= seq![s[0]] + s.drop_first());
    lemma_total_length_single(s[0]);
    lemma_total_length_concat(seq![s[0]], s.drop_first());
}

/// Splitting an interval against one rule loses and duplicates nothing.
proof fn lemma_split_preserves_length(m: MapRange, r: Range)
    requires
        map_range_wf(m),
        range_wf(r),
    ensures
        total_length(unmapped_spec(m, r)) + (match mapped_spec(m, r) {
            Some(mp) => mp.length as int,
            None => 0,
        }) == r.length,
{
    let u = unmapped_spec(m, r);
    if u.len() == 2 {
        assert(u.drop_last() =~= seq![u[0]]);
        lemma_total_length_single(u[0]);
        assert(total_length(u) == u[0].length + u[1].length);
    } else if u.len() == 1 {
        assert(u =~= seq![u[0]]);
        lemma_total_length_single(u[0]);
        assert(total_length(u) == u[0].length);
    } else {
        assert(total_length(u) == 0);
    }
}

} // verus!
