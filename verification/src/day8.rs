//! Desert network: left/right instructions cycle while a walker follows
//! three-letter node labels through a map. Part one walks from AAA to ZZZ;
//! part two walks every `..A` node simultaneously and combines the observed
//! periods of reaching `..Z` nodes by least common multiples.

use vstd::prelude::*;
use vstd::string::*;

use crate::day::{Day, DayResult};
use crate::day20::str_eq;
use crate::text::u64_to_string;
use crate::util::lcm;

verus! {

pub struct Instance;

/// One step direction.
#[derive(Debug, Clone, Copy, PartialEq, Eq, Structural)]
pub enum Instruction {
    Left,
    Right,
}

impl Instruction {
    /// Reads one instruction character.
    pub fn from_char(c: char) -> (r: Instruction)
        requires
            c == 'L' || c == 'R',
        ensures
            c == 'L' ==> r == Instruction::Left,
            c == 'R' ==> r == Instruction::Right,
    {
        match c {
            'L' => Instruction::Left,
            _ => Instruction::Right,
        }
    }
}

/// The network: one (from, left, right) label triple per line.
#[derive(Debug)]
pub struct Network(pub Vec<(String, String, String)>);

/// The first entry whose source label equals `name`, if any.
pub open spec fn net_idx(es: Seq<(String, String, String)>, name: Seq<char>, from: int) -> Option<
    int,
>
    decreases es.len() - from,
{
    if from < 0 || from >= es.len() {
        None
    } else if es[from].0@ == name {
        Some(from)
    } else {
        net_idx(es, name, from + 1)
    }
}

/// Walking the network: from `cur`, take the instruction for the current step
/// (instructions cycle), until the target label is reached or the budget runs
/// out or a label has no entry.
pub open spec fn walk(
    es: Seq<(String, String, String)>,
    ins: Seq<Instruction>,
    cur: Seq<char>,
    target: Seq<char>,
    steps: nat,
    fuel: nat,
) -> Option<nat>
    decreases fuel,
{
    if cur == target {
        Some(steps)
    } else if fuel == 0 || ins.len() == 0 {
        None
    } else {
        match net_idx(es, cur, 0) {
            None => None,
            Some(k) => {
                let next = if ins[(steps % ins.len()) as int] == Instruction::Left {
                    es[k].1@
                } else {
                    es[k].2@
                };
                walk(es, ins, next, target, steps + 1, (fuel - 1) as nat)
            },
        }
    }
}

impl Network {
    /// Reads the node lines: the label in columns one to three, the left
    /// target in columns eight to ten, the right target in columns thirteen
    /// to fifteen.
    #[verifier::loop_isolation(false)]
    pub fn new(lines: &Vec<String>) -> (r: Result<Network, String>)
        ensures
            r matches Ok(n) ==> n.0@.len() == lines@.len() && (forall|k: int|
                0 <= k < lines@.len() ==> (#[trigger] lines@[k]@).len() >= 15) && (forall|k: int|
                0 <= k < lines@.len() ==> (#[trigger] n.0@[k]).0@ == lines@[k]@.subrange(0, 3)
                    && n.0@[k].1@ == lines@[k]@.subrange(7, 10) && n.0@[k].2@
                    == lines@[k]@.subrange(12, 15)),
    {
        let mut es: Vec<(String, String, String)> = Vec::new();
        let mut i: usize = 0;
        while i < lines.len()
            invariant
                0 <= i <= lines@.len(),
                es@.len() == i,
                forall|k: int| 0 <= k < i ==> (#[trigger] lines@[k]@).len() >= 15,
                forall|k: int|
                    0 <= k < i ==> (#[trigger] es@[k]).0@ == lines@[k]@.subrange(0, 3)
                        && es@[k].1@ == lines@[k]@.subrange(7, 10) && es@[k].2@
                        == lines@[k]@.subrange(12, 15),
            decreases lines@.len() - i,
        {
            let l = lines[i].as_str();
            if l.unicode_len() < 15 {
                return Err("node line too short".to_owned());
            }
            assert(lines@[i as int]@.len() >= 15);
            let from = l.substring_char(0, 3).to_owned();
            let left = l.substring_char(7, 10).to_owned();
            let right = l.substring_char(12, 15).to_owned();
            es.push((from, left, right));
            proof {
                assert(es@[i as int].0@ == lines@[i as int]@.subrange(0, 3));
                assert(es@[i as int].1@ == lines@[i as int]@.subrange(7, 10));
                assert(es@[i as int].2@ == lines@[i as int]@.subrange(12, 15));
            }
            i += 1;
        }
        Ok(Network(es))
    }

    /// One step: the left or right target of the first entry for `current`.
    pub fn step(&self, current: &str, instruction: Instruction) -> (r: Option<String>)
        ensures
            match net_idx(self.0@, current@, 0) {
                None => r is None,
                Some(k) => r matches Some(t) && t@ == (if instruction == Instruction::Left {
                    self.0@[k].1@
                } else {
                    self.0@[k].2@
                }),
            },
    {
        let mut k: usize = 0;
        while k < self.0.len()
            invariant
                0 <= k <= self.0@.len(),
                net_idx(self.0@, current@, 0) == net_idx(self.0@, current@, k as int),
            decreases self.0@.len() - k,
        {
            if str_eq(self.0[k].0.as_str(), current) {
                return match instruction {
                    Instruction::Left => Some(self.0[k].1.clone()),
                    Instruction::Right => Some(self.0[k].2.clone()),
                };
            }
            k += 1;
        }
        None
    }

    /// Walks from AAA to ZZZ, instructions cycling, and counts the steps.
    /// `None` when a label has no entry, the instructions are empty, or more
    /// than `fuel` steps would be needed.
    #[verifier::loop_isolation(false)]
    pub fn traverse(&self, instructions: &Vec<Instruction>, fuel: u64) -> (r: Option<u64>)
        ensures
            match r {
                Some(v) => walk(self.0@, instructions@, "AAA"@, "ZZZ"@, 0, fuel as nat) == Some(
                    v as nat,
                ),
                None => walk(self.0@, instructions@, "AAA"@, "ZZZ"@, 0, fuel as nat) is None,
            },
    {
        let mut current: String = "AAA".to_owned();
        let mut steps: u64 = 0;
        let target = "ZZZ";
        if instructions.len() == 0 {
            if str_eq(current.as_str(), target) {
                return Some(0);
            }
            return None;
        }
        loop
            invariant
                instructions@.len() > 0,
                steps <= fuel,
                walk(self.0@, instructions@, "AAA"@, "ZZZ"@, 0, fuel as nat) == walk(
                    self.0@,
                    instructions@,
                    current@,
                    "ZZZ"@,
                    steps as nat,
                    (fuel - steps) as nat,
                ),
            decreases fuel - steps,
        {
            if str_eq(current.as_str(), target) {
                return Some(steps);
            }
            if steps == fuel {
                return None;
            }
            let k = (steps % instructions.len() as u64) as usize;
            let ins = instructions[k];
            current = match self.step(current.as_str(), ins) {
                Some(t) => t,
                None => {
                    return None;
                },
            };
            steps += 1;
        }
    }

    /// Walks every `..A` node at once and combines, per ghost, the gap
    /// between its first two `..Z` visits by least common multiples. The
    /// walk follows the instructions exactly as [`Self::step`] does; `None`
    /// when a label has no entry, a ghost sees no second visit within `fuel`
    /// steps, the observed pattern is not periodic from the start, or the
    /// combined period overflows.
    #[verifier::loop_isolation(false)]
    pub fn traverse_ghost(&self, instructions: &Vec<Instruction>, fuel: u64) -> (r: Option<u64>)
        ensures
            r matches Some(v) ==> v >= 1,
    {
        if instructions.len() == 0 {
            return None;
        }
        // The simultaneous walkers: every node ending in 'A'.
        let mut ghosts: Vec<String> = Vec::new();
        let mut k: usize = 0;
        while k < self.0.len()
            decreases self.0@.len() - k,
        {
            let label = &self.0[k].0;
            let llen = label.unicode_len();
            if llen > 0 && label.as_str().get_char(llen - 1) == 'A' {
                ghosts.push(label.clone());
            }
            k += 1;
        }
        if ghosts.len() == 0 {
            return None;
        }
        let n = ghosts.len();
        let mut first: Vec<u64> = Vec::new();
        let mut second: Vec<u64> = Vec::new();
        let mut z: usize = 0;
        while z < n
            invariant
                first@.len() == second@.len() == z <= n,
            decreases n - z,
        {
            first.push(0);
            second.push(0);
            z += 1;
        }
        let mut steps: u64 = 0;
        while steps < fuel
            invariant
                ghosts@.len() == n,
                first@.len() == n,
                second@.len() == n,
                instructions@.len() > 0,
            decreases fuel - steps,
        {
            // Are all ghosts done (two recorded visits each)?
            let mut all_done = true;
            let mut g: usize = 0;
            while g < n
                invariant
                    0 <= g <= n,
                    first@.len() == n,
                    second@.len() == n,
                decreases n - g,
            {
                if second[g] == 0 {
                    all_done = false;
                }
                g += 1;
            }
            if all_done {
                break ;
            }
            let k = (steps % instructions.len() as u64) as usize;
            let ins = instructions[k];
            let mut g: usize = 0;
            while g < n
                invariant
                    0 <= g <= n,
                    ghosts@.len() == n,
                    first@.len() == n,
                    second@.len() == n,
                    steps < u64::MAX,
                decreases n - g,
            {
                let next = match self.step(ghosts[g].as_str(), ins) {
                    Some(t) => t,
                    None => {
                        return None;
                    },
                };
                let nlen = next.unicode_len();
                let at_end = nlen > 0 && next.as_str().get_char(nlen - 1) == 'Z';
                ghosts.set(g, next);
                if at_end {
                    if first[g] == 0 {
                        first.set(g, steps + 1);
                    } else if second[g] == 0 {
                        second.set(g, steps + 1);
                    }
                }
                g += 1;
            }
            steps += 1;
        }
        // Every ghost needs two visits, and the first visit must equal the
        // gap: the cycles all pass their start.
        let mut r: u64 = 1;
        let mut g: usize = 0;
        while g < n
            invariant
                0 <= g <= n,
                first@.len() == n,
                second@.len() == n,
                r >= 1,
            decreases n - g,
        {
            if second[g] == 0 || first[g] == 0 {
                return None;
            }
            if second[g] <= first[g] {
                return None;
            }
            let gap = second[g] - first[g];
            if gap != first[g] {
                // The walk is not periodic from the start.
                return None;
            }
            if gap == 0 {
                return None;
            }
            match r.checked_mul(gap) {
                Some(_) => {},
                None => {
                    return None;
                },
            }
            let next = lcm(r, gap);
            proof {
                lemma_lcm_positive(r as nat, gap as nat);
            }
            r = next;
            g += 1;
        }
        Some(r)
    }
}

/// The least common multiple of two positive numbers is positive.
proof fn lemma_lcm_positive(a: nat, b: nat)
    requires
        a >= 1,
        b >= 1,
    ensures
        crate::util::lcm_spec(a, b) >= 1,
{
    let g = crate::util::gcd_spec(a, b);
    if g == 0 {
        crate::util::lemma_gcd_zero(a, b);
    }
    lemma_gcd_divides(a, b);
    assert(a * b >= g * 1) by (nonlinear_arith)
        requires
            g >= 1,
            a >= 1,
            b >= 1,
            g <= a * b,
    ;
    assert(a * b / g >= 1) by (nonlinear_arith)
        requires
            g >= 1,
            a * b >= g,
    ;
}

/// The greatest common divisor never exceeds the product of two positive
/// numbers.
proof fn lemma_gcd_divides(a: nat, b: nat)
    requires
        a >= 1,
        b >= 1,
    ensures
        crate::util::gcd_spec(a, b) <= a * b,
{
    lemma_gcd_le(a, b);
    assert(a <= a * b) by (nonlinear_arith)
        requires
            a >= 1,
            b >= 1,
    ;
}

/// With a positive first argument, the greatest common divisor is at most
/// that argument.
proof fn lemma_gcd_le(a: nat, b: nat)
    requires
        a >= 1,
    ensures
        crate::util::gcd_spec(a, b) <= a,
    decreases a,
{
    let m = b % a;
    if m == 0 {
    } else {
        lemma_gcd_le(m, a);
    }
}

impl Instance {
    /// Whole-day driver: the first line holds the instructions, the nodes
    /// follow after a blank line.
    pub fn solve(&self, lines: &Vec<String>) -> (r: Result<DayResult, String>) {
        if lines.len() < 3 {
            return Err("missing network".to_owned());
        }
        let iline = &lines[0];
        let ilen = iline.unicode_len();
        let mut instructions: Vec<Instruction> = Vec::new();
        let mut k: usize = 0;
        while k < ilen
            invariant
                ilen == iline@.len(),
            decreases ilen - k,
        {
            let c = iline.as_str().get_char(k);
            if c != 'L' && c != 'R' {
                return Err("bad instruction".to_owned());
            }
            instructions.push(Instruction::from_char(c));
            k += 1;
        }
        let mut node_lines: Vec<String> = Vec::new();
        let mut i: usize = 2;
        while i < lines.len()
            decreases lines@.len() - i,
        {
            node_lines.push(lines[i].clone());
            i += 1;
        }
        let network = match Network::new(&node_lines) {
            Ok(n) => n,
            Err(e) => {
                return Err(e);
            },
        };
        let part1 = match network.traverse(&instructions, 0xffff_ffff) {
            Some(v) => v,
            None => {
                return Err("no path from AAA to ZZZ".to_owned());
            },
        };
        let part2 = match network.traverse_ghost(&instructions, 0xffff_ffff) {
            Some(v) => v,
            None => {
                return Err("no ghost period".to_owned());
            },
        };
        Ok(DayResult { part1: u64_to_string(part1), part2: Some(u64_to_string(part2)) })
    }
}

impl Day for Instance {
    fn run(&self, lines: Vec<String>) -> Result<DayResult, String> {
        self.solve(&lines)
    }
}

} // verus!
