//! Lens boxes: a running hash places labelled lenses into 256 boxes; `=`
//! instructions insert or replace a lens, `-` instructions remove one. The
//! focusing power weighs each lens by its box and slot.

use vstd::prelude::*;
use vstd::string::*;

use crate::day::{Day, DayResult};
use crate::day20::str_eq;
use crate::text::{parse_u64, split_str, u64_to_string};
use vstd::utf8::encode_utf8;

verus! {

pub struct Instance;

/// The running hash of a byte string: add each byte, multiply by 17, keep the
/// remainder by 256.
pub open spec fn hash_spec(bs: Seq<u8>) -> nat
    decreases bs.len(),
{
    if bs.len() == 0 {
        0
    } else {
        ((((hash_spec(bs.drop_last()) + bs.last()) * 17) as int) % 256) as nat
    }
}

/// The running hash of a label.
pub fn hash(s: &str) -> (r: u8)
    ensures
        r == hash_spec(s.spec_bytes()),
{
    let bs = s.as_bytes_vec();
    let mut r: u16 = 0;
    let mut i: usize = 0;
    while i < bs.len()
        invariant
            0 <= i <= bs@.len(),
            bs@ == s.spec_bytes(),
            r < 256,
            r == hash_spec(bs@.take(i as int)),
        decreases bs@.len() - i,
    {
        proof {
            assert(bs@.take(i + 1).drop_last() =~= bs@.take(i as int));
        }
        r = ((r + bs[i] as u16) * 17) % 256;
        i += 1;
    }
    assert(bs@.take(bs@.len() as int) =~= bs@);
    r as u8
}

/// One step of the initialization sequence.
#[derive(Debug)]
pub enum Instruction {
    Add { label: String, focal_length: u8 },
    Remove { label: String },
}

impl Instruction {
    /// Parses one step: `<label>=<focal length>` adds or replaces a lens,
    /// `<label>-` removes one.
    pub fn from_str(s: &str) -> (r: Result<Instruction, String>)
        ensures
            r matches Ok(i) ==> match i {
                Instruction::Add { label, focal_length } => ({
                    let eq = crate::text::find_from(s@, "="@, 0);
                    &&& eq is Some
                    &&& label@ == s@.subrange(0, eq.unwrap())
                    &&& focal_length == crate::text::dec_val(
                        s@.subrange(eq.unwrap() + 1, s@.len() as int),
                    )
                }),
                Instruction::Remove { label } => crate::text::find_from(s@, "="@, 0) is None
                    && s@.len() > 0 && label@ == s@.subrange(0, s@.len() - 1),
            },
    {
        proof {
            reveal_strlit("=");
        }
        let len = s.unicode_len();
        match crate::text::find_sub(s, "=", 0) {
            Some(eq) => {
                proof {
                    crate::text::lemma_find_from_some(s@, "="@, 0, eq as int);
                }
                let label = s.substring_char(0, eq).to_owned();
                let fl64 = match parse_u64(s.substring_char(eq + 1, len)) {
                    Some(v) => v,
                    None => {
                        return Err("bad focal length".to_owned());
                    },
                };
                if fl64 > 255 {
                    return Err("bad focal length".to_owned());
                }
                Ok(Instruction::Add { label, focal_length: fl64 as u8 })
            },
            None => {
                if len == 0 {
                    return Err("empty instruction".to_owned());
                }
                let label = s.substring_char(0, len - 1).to_owned();
                Ok(Instruction::Remove { label })
            },
        }
    }
}

/// The 256 lens boxes, each an ordered list of labelled focal lengths.
#[derive(Debug)]
pub struct HashMap(pub Vec<Vec<(String, u8)>>);

/// The first slot of a box holding `label`, if any.
pub open spec fn slot_of(bk: Seq<(String, u8)>, label: Seq<char>, from: int) -> Option<int>
    decreases bk.len() - from,
{
    if from < 0 || from >= bk.len() {
        None
    } else if bk[from].0@ == label {
        Some(from)
    } else {
        slot_of(bk, label, from + 1)
    }
}

/// The box without every lens of the given label, order kept.
pub open spec fn without_label(bk: Seq<(String, u8)>, label: Seq<char>) -> Seq<(String, u8)>
    decreases bk.len(),
{
    if bk.len() == 0 {
        Seq::empty()
    } else {
        let rest = without_label(bk.drop_last(), label);
        if bk.last().0@ == label {
            rest
        } else {
            rest.push(bk.last())
        }
    }
}

/// The focusing power of the boxes: each lens weighs its focal length times
/// its one-based box number times its one-based slot number.
pub open spec fn power_spec(boxes: Seq<Seq<(String, u8)>>, i: int) -> int
    decreases i,
{
    if i <= 0 || i > boxes.len() {
        0
    } else {
        power_spec(boxes, i - 1) + box_power(boxes[i - 1], i, boxes[i - 1].len() as int)
    }
}

/// The focusing power of one box's first `j` slots.
pub open spec fn box_power(bk: Seq<(String, u8)>, box_no: int, j: int) -> int
    decreases j,
{
    if j <= 0 || j > bk.len() {
        0
    } else {
        box_power(bk, box_no, j - 1) + box_no * j * bk[j - 1].1
    }
}

impl HashMap {
    /// 256 empty boxes.
    pub fn new() -> (r: HashMap)
        ensures
            r.0@.len() == 256,
            forall|b: int| 0 <= b < 256 ==> (#[trigger] r.0@[b]@).len() == 0,
    {
        let mut boxes: Vec<Vec<(String, u8)>> = Vec::new();
        while boxes.len() < 256
            invariant
                boxes@.len() <= 256,
                forall|b: int| 0 <= b < boxes@.len() ==> (#[trigger] boxes@[b]@).len() == 0,
            decreases 256 - boxes@.len(),
        {
            boxes.push(Vec::new());
        }
        HashMap(boxes)
    }

    /// Puts the lens into the box its label hashes to: an existing lens of
    /// the same label has its focal length replaced in place, otherwise the
    /// lens joins at the back. Other boxes stay as they are.
    #[verifier::loop_isolation(false)]
    pub fn insert(&mut self, label: String, value: u8)
        requires
            old(self).0@.len() == 256,
        ensures
            final(self).0@.len() == 256,
            ({
                let h = hash_spec(encode_utf8(label@)) as int;
                let bk = old(self).0@[h]@;
                &&& forall|b: int|
                    0 <= b < 256 && b != h ==> (#[trigger] final(self).0@[b]) == old(self).0@[b]
                &&& match slot_of(bk, label@, 0) {
                    Some(k) => final(self).0@[h]@ =~= bk.update(k, (bk[k].0, value)),
                    None => final(self).0@[h]@ =~= bk.push((label, value)),
                }
            }),
    {
        let h = hash(label.as_str()) as usize;
        let mut bk = clone_box(&self.0[h]);
        let ghost bk0 = bk@;
        let mut k: usize = 0;
        let mut found = false;
        while k < bk.len()
            invariant
                0 <= k <= bk@.len(),
                bk@.len() == bk0.len(),
                !found ==> bk@ == bk0 && slot_of(bk0, label@, 0) == slot_of(bk0, label@, k as int),
                found ==> exists|k0: int|
                    slot_of(bk0, label@, 0) == Some(k0) && bk@ =~= bk0.update(
                        k0,
                        (bk0[k0].0, value),
                    ),
            decreases bk@.len() - k,
        {
            if !found && str_eq(bk[k].0.as_str(), label.as_str()) {
                let lbl = bk[k].0.clone();
                bk.set(k, (lbl, value));
                proof {
                    assert(slot_of(bk0, label@, k as int) == Some(k as int));
                    assert(bk@ =~= bk0.update(k as int, (bk0[k as int].0, value)));
                }
                found = true;
            }
            k += 1;
        }
        if !found {
            bk.push((label, value));
        }
        self.0.set(h, bk);
    }

    /// Takes every lens of the label out of the box it hashes to, keeping the
    /// order of the rest. Other boxes stay as they are.
    #[verifier::loop_isolation(false)]
    pub fn remove(&mut self, label: &str)
        requires
            old(self).0@.len() == 256,
        ensures
            final(self).0@.len() == 256,
            ({
                let h = hash_spec(encode_utf8(label@)) as int;
                &&& forall|b: int|
                    0 <= b < 256 && b != h ==> (#[trigger] final(self).0@[b]) == old(self).0@[b]
                &&& final(self).0@[h]@ =~= without_label(old(self).0@[h]@, label@)
            }),
    {
        let h = hash(label) as usize;
        let bk = clone_box(&self.0[h]);
        let ghost bk0 = bk@;
        let mut out: Vec<(String, u8)> = Vec::new();
        let mut k: usize = 0;
        while k < bk.len()
            invariant
                0 <= k <= bk@.len(),
                bk@ == bk0,
                out@ =~= without_label(bk0.take(k as int), label@),
            decreases bk@.len() - k,
        {
            proof {
                assert(bk0.take(k + 1).drop_last() =~= bk0.take(k as int));
            }
            let keep = !str_eq(bk[k].0.as_str(), label);
            if keep {
                let ghost pre = out@;
                let key = clone_entry(&bk, k);
                out.push(key);
                proof {
                    assert(out@ =~= pre.push(bk0[k as int]));
                }
            }
            k += 1;
        }
        assert(bk0.take(bk0.len() as int) =~= bk0);
        self.0.set(h, out);
    }

    /// The focusing power of all boxes.
    #[verifier::loop_isolation(false)]
    pub fn power(&self) -> (r: Option<u64>)
        ensures
            r matches Some(v) ==> v == power_spec(
                self.0@.map(|_b: int, bx: Vec<(String, u8)>| bx@),
                self.0@.len() as int,
            ),
    {
        let ghost boxes = self.0@.map(|_b: int, bx: Vec<(String, u8)>| bx@);
        let mut total: u64 = 0;
        let mut i: usize = 0;
        while i < self.0.len()
            invariant
                0 <= i <= self.0@.len(),
                boxes == self.0@.map(|_b: int, bx: Vec<(String, u8)>| bx@),
                boxes.len() == self.0@.len(),
                total == power_spec(boxes, i as int),
            decreases self.0@.len() - i,
        {
            let bx = &self.0[i];
            let mut sub: u64 = 0;
            let mut j: usize = 0;
            while j < bx.len()
                invariant
                    0 <= j <= bx@.len(),
                    i < self.0@.len(),
                    bx == &self.0@[i as int],
                    bx@ == boxes[i as int],
                    sub == box_power(boxes[i as int], i + 1, j as int),
                    sub <= u64::MAX,
                decreases bx@.len() - j,
            {
                let weight = match ((i as u64) + 1).checked_mul((j as u64) + 1) {
                    Some(w) => w,
                    None => {
                        return None;
                    },
                };
                let prize = match weight.checked_mul(bx[j].1 as u64) {
                    Some(p) => p,
                    None => {
                        return None;
                    },
                };
                sub = match sub.checked_add(prize) {
                    Some(t) => t,
                    None => {
                        return None;
                    },
                };
                j += 1;
            }
            total = match total.checked_add(sub) {
                Some(t) => t,
                None => {
                    return None;
                },
            };
            i += 1;
        }
        Some(total)
    }
}

/// Copies a whole box, label by label.
fn clone_box(bx: &Vec<(String, u8)>) -> (r: Vec<(String, u8)>)
    ensures
        r@ == bx@,
{
    let mut out: Vec<(String, u8)> = Vec::new();
    let mut k: usize = 0;
    while k < bx.len()
        invariant
            0 <= k <= bx@.len(),
            out@ =~= bx@.take(k as int),
        decreases bx@.len() - k,
    {
        out.push(clone_entry(bx, k));
        assert(out@ =~= bx@.take(k + 1));
        k += 1;
    }
    assert(bx@.take(bx@.len() as int) =~= bx@);
    out
}

/// Copies one box entry.
fn clone_entry(bk: &Vec<(String, u8)>, k: usize) -> (r: (String, u8))
    requires
        (k as int) < bk@.len(),
    ensures
        r == bk@[k as int],
{
    let label = bk[k].0.clone();
    let value = bk[k].1;
    (label, value)
}

impl Instance {
    /// Whole-day driver: part one sums the hashes of the comma-separated
    /// steps, part two runs them through the boxes and sums the focusing
    /// power.
    pub fn solve(&self, lines: &Vec<String>) -> (r: Result<DayResult, String>) {
        if lines.len() == 0 {
            return Err("missing instruction line".to_owned());
        }
        proof {
            reveal_strlit(",");
        }
        let pieces = split_str(lines[0].as_str(), ",");
        let mut part1: u64 = 0;
        let mut boxes = HashMap::new();
        let mut i: usize = 0;
        while i < pieces.len()
            invariant
                boxes.0@.len() == 256,
            decreases pieces@.len() - i,
        {
            let p = &pieces[i];
            part1 = match part1.checked_add(hash(p.as_str()) as u64) {
                Some(v) => v,
                None => {
                    return Err("hash sum overflows".to_owned());
                },
            };
            match Instruction::from_str(p.as_str()) {
                Ok(Instruction::Add { label, focal_length }) => {
                    boxes.insert(label, focal_length);
                },
                Ok(Instruction::Remove { label }) => {
                    boxes.remove(label.as_str());
                },
                Err(e) => {
                    return Err(e);
                },
            }
            i += 1;
        }
        let part2 = match boxes.power() {
            Some(v) => v,
            None => {
                return Err("power overflows".to_owned());
            },
        };
        Ok(DayResult { part1: u64_to_string(part1), part2: Some(u64_to_string(part2)) })
    }
}

impl Day for Instance {
    fn run(&self, lines: Vec<String>) -> Result<DayResult, String> {
        self.solve(&lines)
    }
}

} // verus!
