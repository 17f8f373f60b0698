//! Pulse-propagation circuit simulator.
//!
//! A textual module list is parsed into typed nodes (broadcaster, flip-flop,
//! conjunction) with wiring. The circuit holds the mutable per-node state and
//! runs discrete pulse-propagation waves: each button press seeds one low
//! pulse into the broadcaster, whose fan-out is then processed strictly
//! first-in-first-out until the wave is quiescent. A cycle analyzer replays
//! presses, watches when the inputs of the conjunction feeding the final sink
//! go high, and combines their periods by least common multiples.

use vstd::prelude::*;
use vstd::string::*;

use crate::day::{Day, DayResult};
use crate::text::{find_from, find_sub, split_spec, split_str};

verus! {

pub struct Instance;

/// Binary signal level carried by a pulse.
#[derive(Clone, Copy, PartialEq, Eq, Structural, Debug)]
pub enum Pulse {
    High,
    Low,
}

/// Kind of a parsed module, determined by the leading sigil of its line.
#[derive(Clone, Copy, PartialEq, Eq, Structural, Debug)]
pub enum ModuleType {
    FlipFlop,
    Conjunction,
    Broadcast,
}

/// A named node with its ordered destination list. Immutable after parse.
pub struct Module {
    pub module_type: ModuleType,
    pub source: String,
    pub destinations: Vec<String>,
}

/// What one line of module text denotes: kind, name (sigil stripped), and the
/// ordered destination names. `None` when the line is malformed: no " -> "
/// separator, or no sigil on a name other than the literal broadcaster name.
pub open spec fn module_spec(s: Seq<char>) -> Option<(ModuleType, Seq<char>, Seq<Seq<char>>)> {
    match find_from(s, " -> "@, 0) {
        None => None,
        Some(i) => {
            if 0 <= i && i + 4 <= s.len() {
                let head = s.subrange(0, i);
                let dests = split_spec(s.subrange(i + 4, s.len() as int), ", "@);
                if head.len() > 0 && head[0] == '%' {
                    Some((ModuleType::FlipFlop, head.subrange(1, head.len() as int), dests))
                } else if head.len() > 0 && head[0] == '&' {
                    Some((ModuleType::Conjunction, head.subrange(1, head.len() as int), dests))
                } else if head == "broadcaster"@ {
                    Some((ModuleType::Broadcast, head, dests))
                } else {
                    None
                }
            } else {
                None
            }
        },
    }
}

impl Module {
    /// Parses one line of module text.
    pub fn from_str(s: &str) -> (r: Result<Module, String>)
        ensures
            match r {
                Ok(m) => module_spec(s@) == Some(
                    (m.module_type, m.source@, m.destinations.deep_view()),
                ),
                Err(_) => module_spec(s@) is None,
            },
    {
        let sep = " -> ";
        proof {
            reveal_strlit(" -> ");
        }
        let i = match find_sub(s, sep, 0) {
            Some(i) => i,
            None => {
                return Err("missing \" -> \" separator".to_owned());
            },
        };
        proof {
            crate::text::lemma_find_from_some(s@, sep@, 0, i as int);
        }
        let len = s.unicode_len();
        let rest = s.substring_char(i + 4, len);
        proof {
            reveal_strlit(", ");
            reveal_strlit("broadcaster");
        }
        if i == 0 {
            return Err("module without sigil is not the broadcaster".to_owned());
        }
        let (module_type, source) = if s.get_char(0) == '%' {
            (ModuleType::FlipFlop, s.substring_char(1, i).to_owned())
        } else if s.get_char(0) == '&' {
            (ModuleType::Conjunction, s.substring_char(1, i).to_owned())
        } else {
            let head = s.substring_char(0, i).to_owned();
            let bc = "broadcaster";
            if !str_eq(head.as_str(), bc) {
                return Err("module without sigil is not the broadcaster".to_owned());
            }
            (ModuleType::Broadcast, head)
        };
        proof {
            reveal_strlit(", ");
        }
        let destinations = split_str(rest, ", ");
        proof {
            let head = s@.subrange(0, i as int);
            if s@[0] == '%' || s@[0] == '&' {
                assert(head[0] == s@[0]);
                assert(source@ =~= head.subrange(1, head.len() as int));
            }
        }
        Ok(Module { module_type, source, destinations })
    }
}

/// Kind of a node in the built circuit. Destination names that no module
/// defines become explicit inert sinks.
#[derive(Clone, Copy, PartialEq, Eq, Structural, Debug)]
pub enum NodeKind {
    FlipFlop,
    Conjunction,
    Broadcast,
    Sink,
}

/// One pulse event: `source` sent a pulse of `level` to `target`. Nodes are
/// referred to by their dense index in the circuit's name table.
#[derive(Clone, Copy, PartialEq, Eq, Structural, Debug)]
pub struct Event {
    pub target: usize,
    pub source: usize,
    pub level: Pulse,
}

/// The built circuit: a static wiring (name table, node kinds, destination
/// lists, conjunction input lists) plus the mutable per-node state and the
/// cumulative pulse counters.
pub struct Circuit {
    pub names: Vec<String>,
    pub kinds: Vec<NodeKind>,
    pub dests: Vec<Vec<usize>>,
    pub broadcaster: usize,
    pub ff_on: Vec<bool>,
    pub conj_inputs: Vec<Vec<usize>>,
    pub conj_high: Vec<Vec<bool>>,
    pub low_signals: u64,
    pub high_signals: u64,
    pub button_pushes: u64,
}

impl Circuit {
    /// All per-node tables cover the same index space, every wiring index is
    /// in range, and every conjunction's level table matches its input list.
    pub open spec fn wf(self) -> bool {
        let n = self.names@.len();
        &&& self.kinds@.len() == n
        &&& self.dests@.len() == n
        &&& self.ff_on@.len() == n
        &&& self.conj_inputs@.len() == n
        &&& self.conj_high@.len() == n
        &&& (self.broadcaster as int) < n
        &&& self.kinds@[self.broadcaster as int] is Broadcast
        &&& forall|i: int, j: int|
            0 <= i < n && 0 <= j < self.dests@[i]@.len() ==> (#[trigger] self.dests@[i]@[j]
                as int) < n
        &&& forall|i: int|
            0 <= i < n ==> (#[trigger] self.conj_high@[i]@.len()) == self.conj_inputs@[i]@.len()
        &&& forall|i: int, j: int|
            0 <= i < n && 0 <= j < self.conj_inputs@[i]@.len() ==> (
            #[trigger] self.conj_inputs@[i]@[j] as int) < n
    }

    /// The static wiring of the two circuits is identical.
    pub open spec fn same_wiring(self, other: Circuit) -> bool {
        &&& self.names.deep_view() == other.names.deep_view()
        &&& self.kinds@ == other.kinds@
        &&& self.dests.deep_view() == other.dests.deep_view()
        &&& self.conj_inputs.deep_view() == other.conj_inputs.deep_view()
        &&& self.broadcaster == other.broadcaster
    }
}

/// The pulse a conjunction emits: low exactly when every recorded input level
/// is high.
pub open spec fn conj_out(levels: Seq<bool>) -> Pulse {
    if forall|k: int| 0 <= k < levels.len() ==> levels[k] {
        Pulse::Low
    } else {
        Pulse::High
    }
}

/// Records that input `src` last sent `high` into a conjunction's level
/// table: every slot of the (fixed) input list that names `src` is set.
pub open spec fn record_input(ins: Seq<usize>, hi: Seq<bool>, src: usize, high: bool) -> Seq<
    bool,
> {
    Seq::new(hi.len(), |k: int| if 0 <= k < ins.len() && ins[k] == src { high } else { hi[k] })
}

/// One pulse of `lvl` from `source` to each destination, in order.
pub open spec fn events_to(dests: Seq<usize>, source: usize, lvl: Pulse) -> Seq<Event> {
    Seq::new(dests.len(), |k: int| Event { target: dests[k], source: source, level: lvl })
}

/// Processing one event against the mutable state: the new flip-flop states,
/// the new conjunction level tables, and the emitted pulses.
///
///  - a flip-flop ignores a high pulse entirely; a low pulse toggles it and
///    fans its new state out (high when now on, low when now off);
///  - a conjunction records the incoming level under its source, then fans
///    out low exactly when all recorded inputs are high;
///  - a broadcaster target or an inert sink changes nothing and emits nothing.
pub open spec fn step_state(
    kinds: Seq<NodeKind>,
    dests: Seq<Seq<usize>>,
    conj_ins: Seq<Seq<usize>>,
    ff: Seq<bool>,
    hi: Seq<Seq<bool>>,
    e: Event,
) -> (Seq<bool>, Seq<Seq<bool>>, Seq<Event>) {
    let t = e.target as int;
    if !(0 <= t < kinds.len()) {
        (ff, hi, Seq::empty())
    } else {
        match kinds[t] {
            NodeKind::FlipFlop => {
                if e.level is High {
                    (ff, hi, Seq::empty())
                } else {
                    let ff2 = ff.update(t, !ff[t]);
                    let lvl = if ff2[t] {
                        Pulse::High
                    } else {
                        Pulse::Low
                    };
                    (ff2, hi, events_to(dests[t], e.target, lvl))
                }
            },
            NodeKind::Conjunction => {
                let hi_t = record_input(conj_ins[t], hi[t], e.source, e.level is High);
                (ff, hi.update(t, hi_t), events_to(dests[t], e.target, conj_out(hi_t)))
            },
            NodeKind::Broadcast => (ff, hi, Seq::empty()),
            NodeKind::Sink => (ff, hi, Seq::empty()),
        }
    }
}

/// Processes the queued events strictly first-in-first-out, appending every
/// emission at the back, until the wave is quiescent or `fuel` events have
/// been processed. Returns the final mutable state, the whole queue (the
/// processed events are its prefix), the number of processed events, and
/// whether the wave ran to quiescence.
pub open spec fn wave_run(
    kinds: Seq<NodeKind>,
    dests: Seq<Seq<usize>>,
    conj_ins: Seq<Seq<usize>>,
    ff: Seq<bool>,
    hi: Seq<Seq<bool>>,
    q: Seq<Event>,
    i: int,
    fuel: nat,
) -> (Seq<bool>, Seq<Seq<bool>>, Seq<Event>, int, bool)
    decreases fuel,
{
    if !(0 <= i < q.len()) {
        (ff, hi, q, q.len() as int, true)
    } else if fuel == 0 {
        (ff, hi, q, i, false)
    } else {
        let (ff2, hi2, em) = step_state(kinds, dests, conj_ins, ff, hi, q[i]);
        wave_run(kinds, dests, conj_ins, ff2, hi2, q + em, i + 1, (fuel - 1) as nat)
    }
}

/// The events a button press seeds: the broadcaster's fan-out of the one
/// external low pulse, attributed to the broadcaster.
pub open spec fn init_wave(c: Circuit) -> Seq<Event> {
    events_to(c.dests@[c.broadcaster as int]@, c.broadcaster, Pulse::Low)
}

/// How many events of `t` carry level `lvl`.
pub open spec fn count_level(t: Seq<Event>, lvl: Pulse) -> nat
    decreases t.len(),
{
    if t.len() == 0 {
        0
    } else {
        count_level(t.drop_last(), lvl) + (if t.last().level == lvl {
            1nat
        } else {
            0nat
        })
    }
}

/// `x` clamped into the `u64` range.
pub open spec fn sat64(x: int) -> u64 {
    if x > u64::MAX {
        u64::MAX as u64
    } else if x < 0 {
        0u64
    } else {
        x as u64
    }
}

/// Builds one pulse of `lvl` from `source` to each destination.
fn events_for(dests: &Vec<usize>, source: usize, lvl: Pulse) -> (r: Vec<Event>)
    ensures
        r@ == events_to(dests@, source, lvl),
{
    let mut r: Vec<Event> = Vec::new();
    let mut k: usize = 0;
    while k < dests.len()
        invariant
            0 <= k <= dests@.len(),
            r@ =~= events_to(dests@, source, lvl).take(k as int),
        decreases dests@.len() - k,
    {
        r.push(Event { target: dests[k], source, level: lvl });
        k += 1;
    }
    assert(events_to(dests@, source, lvl).take(dests@.len() as int) =~= events_to(
        dests@,
        source,
        lvl,
    ));
    r
}

impl Circuit {
    /// Processes one dequeued event against the circuit state and returns the
    /// pulses it emits, exactly as [`step_state`] describes. Counters are the
    /// caller's business.
    #[verifier::loop_isolation(false)]
    fn apply_event(&mut self, e: Event) -> (emitted: Vec<Event>)
        requires
            old(self).wf(),
            (e.target as int) < old(self).names@.len(),
        ensures
            final(self).wf(),
            final(self).same_wiring(*old(self)),
            final(self).names@.len() == old(self).names@.len(),
            final(self).low_signals == old(self).low_signals,
            final(self).high_signals == old(self).high_signals,
            final(self).button_pushes == old(self).button_pushes,
            (final(self).ff_on@, final(self).conj_high.deep_view(), emitted@) == step_state(
                old(self).kinds@,
                old(self).dests.deep_view(),
                old(self).conj_inputs.deep_view(),
                old(self).ff_on@,
                old(self).conj_high.deep_view(),
                e,
            ),
            forall|k: int|
                0 <= k < emitted@.len() ==> (#[trigger] emitted@[k].target as int) < final(self).names@.len(),
    {
        let t = e.target;
        let emitted: Vec<Event> = match self.kinds[t] {
            NodeKind::FlipFlop => {
                if e.level == Pulse::High {
                    Vec::new()
                } else {
                    let now_on = !self.ff_on[t];
                    self.ff_on.set(t, now_on);
                    let lvl = if now_on {
                        Pulse::High
                    } else {
                        Pulse::Low
                    };
                    events_for(&self.dests[t], t, lvl)
                }
            },
            NodeKind::Conjunction => {
                let high = e.level == Pulse::High;
                proof {
                    lemma_deep_at_bools(&old(self).conj_high, t as int);
                    lemma_deep_at_usizes(&old(self).conj_inputs, t as int);
                }
                let mut row = clone_bools(&self.conj_high[t]);
                let mut j: usize = 0;
                while j < self.conj_inputs[t].len()
                    invariant
                        0 <= j <= self.conj_inputs@[t as int]@.len(),
                        (t as int) < self.conj_inputs@.len(),
                        row@.len() == old(self).conj_high@[t as int]@.len(),
                        *self == *old(self),
                        row@ =~= Seq::new(
                            old(self).conj_high@[t as int]@.len(),
                            |k: int|
                                if 0 <= k < j && old(self).conj_inputs@[t as int]@[k] == e.source {
                                    high
                                } else {
                                    old(self).conj_high@[t as int]@[k]
                                },
                        ),
                    decreases self.conj_inputs@[t as int]@.len() - j,
                {
                    if self.conj_inputs[t][j] == e.source {
                        row.set(j, high);
                    }
                    j += 1;
                }
                assert(row@ =~= record_input(
                    old(self).conj_inputs.deep_view()[t as int],
                    old(self).conj_high.deep_view()[t as int],
                    e.source,
                    high,
                ));
                let mut all_high = true;
                let mut k: usize = 0;
                while k < row.len()
                    invariant
                        0 <= k <= row@.len(),
                        all_high == (forall|m: int| 0 <= m < k ==> row@[m]),
                    decreases row@.len() - k,
                {
                    if !row[k] {
                        all_high = false;
                    }
                    k += 1;
                }
                let lvl = if all_high {
                    Pulse::Low
                } else {
                    Pulse::High
                };
                assert(lvl == conj_out(row@));
                self.conj_high.set(t, row);
                assert(self.conj_high.deep_view() =~~= old(self).conj_high.deep_view().update(
                    t as int,
                    record_input(
                        old(self).conj_inputs.deep_view()[t as int],
                        old(self).conj_high.deep_view()[t as int],
                        e.source,
                        high,
                    ),
                ));
                events_for(&self.dests[t], t, lvl)
            },
            NodeKind::Broadcast => Vec::new(),
            NodeKind::Sink => Vec::new(),
        };
        proof {
            let expect = step_state(
                old(self).kinds@,
                old(self).dests.deep_view(),
                old(self).conj_inputs.deep_view(),
                old(self).ff_on@,
                old(self).conj_high.deep_view(),
                e,
            );
            assert(self.ff_on@ =~= expect.0);
            assert(self.conj_high.deep_view() =~~= expect.1);
            assert(emitted@ =~= expect.2);
        }
        emitted
    }

    /// One button press: counts the external low pulse into the broadcaster,
    /// seeds the broadcaster's fan-out, and processes the wave first-in-
    /// first-out until it is quiescent or `fuel` events have been processed.
    /// Returns the whole event queue (processed events are its prefix) and
    /// whether the wave ran to quiescence; the counters take the processed
    /// events, clamped at the `u64` range.
    #[verifier::loop_isolation(false)]
    pub fn push_the_button(&mut self, fuel: usize) -> (r: (Vec<Event>, bool))
        requires
            old(self).wf(),
        ensures
            ({
                let (ff2, hi2, q2, p, done) = wave_run(
                    old(self).kinds@,
                    old(self).dests.deep_view(),
                    old(self).conj_inputs.deep_view(),
                    old(self).ff_on@,
                    old(self).conj_high.deep_view(),
                    init_wave(*old(self)),
                    0,
                    fuel as nat,
                );
                &&& final(self).wf()
                &&& final(self).same_wiring(*old(self))
                &&& final(self).ff_on@ == ff2
                &&& final(self).conj_high.deep_view() == hi2
                &&& r.0@ == q2
                &&& r.1 == done
                &&& 0 <= p <= q2.len()
                &&& (done ==> p == q2.len())
                &&& final(self).button_pushes == sat64(old(self).button_pushes + 1)
                &&& final(self).low_signals == sat64(
                    old(self).low_signals + 1 + count_level(q2.take(p), Pulse::Low),
                )
                &&& final(self).high_signals == sat64(
                    old(self).high_signals + count_level(q2.take(p), Pulse::High),
                )
            }),
    {
        let ghost kinds0 = old(self).kinds@;
        let ghost dests0 = old(self).dests.deep_view();
        let ghost ins0 = old(self).conj_inputs.deep_view();
        let ghost ff0 = old(self).ff_on@;
        let ghost hi0 = old(self).conj_high.deep_view();
        self.low_signals = self.low_signals.saturating_add(1);
        self.button_pushes = self.button_pushes.saturating_add(1);
        let mut q = events_for(&self.dests[self.broadcaster], self.broadcaster, Pulse::Low);
        assert(q@ == init_wave(*old(self)));
        let ghost q0 = q@;
        let mut i: usize = 0;
        loop
            invariant
                self.wf(),
                self.same_wiring(*old(self)),
                self.kinds@ == kinds0,
                self.dests.deep_view() == dests0,
                self.conj_inputs.deep_view() == ins0,
                0 <= i <= q@.len(),
                i <= fuel,
                forall|k: int|
                    0 <= k < q@.len() ==> (#[trigger] q@[k].target as int) < self.names@.len(),
                wave_run(kinds0, dests0, ins0, ff0, hi0, q0, 0, fuel as nat) == wave_run(
                    kinds0,
                    dests0,
                    ins0,
                    self.ff_on@,
                    self.conj_high.deep_view(),
                    q@,
                    i as int,
                    (fuel - i) as nat,
                ),
                self.button_pushes == sat64(old(self).button_pushes + 1),
                self.low_signals == sat64(
                    old(self).low_signals + 1 + count_level(q@.take(i as int), Pulse::Low),
                ),
                self.high_signals == sat64(
                    old(self).high_signals + count_level(q@.take(i as int), Pulse::High),
                ),
            decreases fuel - i,
        {
            if i >= q.len() {
                break ;
            }
            if i >= fuel {
                assert(q@.take(i as int) =~= q@.take(i as int));
                return (q, false);
            }
            let e = q[i];
            let ghost ff_pre = self.ff_on@;
            let ghost hi_pre = self.conj_high.deep_view();
            match e.level {
                Pulse::Low => {
                    self.low_signals = self.low_signals.saturating_add(1);
                },
                Pulse::High => {
                    self.high_signals = self.high_signals.saturating_add(1);
                },
            }
            let mut emitted = self.apply_event(e);
            proof {
                assert(q@.take(i + 1).drop_last() =~= q@.take(i as int));
                assert(q@.take(i + 1).last() == q@[i as int]);
            }
            let ghost q_pre = q@;
            q.append(&mut emitted);
            proof {
                let (ff2, hi2, em) = step_state(kinds0, dests0, ins0, ff_pre, hi_pre, e);
                assert(q@ =~= q_pre + em);
                assert(q@.take(i + 1) =~= q_pre.take(i + 1));
                assert(wave_run(kinds0, dests0, ins0, ff_pre, hi_pre, q_pre, i as int, (fuel
                    - i) as nat) == wave_run(
                    kinds0,
                    dests0,
                    ins0,
                    ff2,
                    hi2,
                    q_pre + em,
                    i + 1,
                    (fuel - i - 1) as nat,
                ));
            }
            i += 1;
        }
        assert(q@.take(q@.len() as int) =~= q@);
        (q, true)
    }
}

/// The name table after walking the destination lists from position (i, j),
/// appending every name not yet present, in first-appearance order.
pub open spec fn intern_from(
    dests: Seq<Seq<Seq<char>>>,
    acc: Seq<Seq<char>>,
    i: int,
    j: int,
) -> Seq<Seq<char>>
    decreases dests.len() - i, dests[i].len() - j,
{
    if i < 0 || i >= dests.len() {
        acc
    } else if j < 0 || j >= dests[i].len() {
        intern_from(dests, acc, i + 1, 0)
    } else {
        let d = dests[i][j];
        intern_from(
            dests,
            if has_name(acc, d) {
                acc
            } else {
                acc.push(d)
            },
            i,
            j + 1,
        )
    }
}

/// The modules' own names, in order.
pub open spec fn mod_names(ms: Seq<Module>) -> Seq<Seq<char>> {
    Seq::new(ms.len(), |i: int| ms[i].source@)
}

/// The modules' destination name lists, in order.
pub open spec fn mod_dests(ms: Seq<Module>) -> Seq<Seq<Seq<char>>> {
    Seq::new(ms.len(), |i: int| ms[i].destinations.deep_view())
}

/// The node kind a parsed module becomes.
pub open spec fn kind_of(mt: ModuleType) -> NodeKind {
    match mt {
        ModuleType::FlipFlop => NodeKind::FlipFlop,
        ModuleType::Conjunction => NodeKind::Conjunction,
        ModuleType::Broadcast => NodeKind::Broadcast,
    }
}

/// Some name of the table equals `s`.
pub open spec fn has_name(names: Seq<Seq<char>>, s: Seq<char>) -> bool {
    exists|k: int| 0 <= k < names.len() && names[k] == s
}

/// The indices of the first `m` nodes whose destination list contains `t`,
/// in ascending order: a conjunction's fixed input list.
pub open spec fn inputs_upto(dests: Seq<Seq<usize>>, m: int, t: usize) -> Seq<usize>
    decreases m,
{
    if m <= 0 {
        Seq::empty()
    } else {
        inputs_upto(dests, m - 1, t) + (if dests[m - 1].contains(t) {
            seq![(m - 1) as usize]
        } else {
            Seq::empty()
        })
    }
}

/// A name present in the table stays present when another name is appended.
proof fn lemma_has_name_push(names: Seq<Seq<char>>, x: Seq<char>, y: Seq<char>)
    requires
        has_name(names, x),
    ensures
        has_name(names.push(y), x),
{
    let k = choose|k: int| 0 <= k < names.len() && names[k] == x;
    assert(names.push(y)[k] == x);
}

/// Finds the first name of the table equal to `name`.
fn index_of_name(names: &Vec<String>, name: &str) -> (r: Option<usize>)
    ensures
        match r {
            Some(i) => i < names@.len() && names.deep_view()[i as int] == name@
                && idx_of_name(names.deep_view(), name@, 0) == Some(i as int),
            None => !has_name(names.deep_view(), name@) && idx_of_name(
                names.deep_view(),
                name@,
                0,
            ) is None,
        },
{
    let mut k: usize = 0;
    while k < names.len()
        invariant
            0 <= k <= names@.len(),
            forall|a: int| 0 <= a < k ==> names.deep_view()[a] != name@,
            idx_of_name(names.deep_view(), name@, 0) == idx_of_name(
                names.deep_view(),
                name@,
                k as int,
            ),
        decreases names@.len() - k,
    {
        if str_eq(names[k].as_str(), name) {
            return Some(k);
        }
        k += 1;
    }
    None
}

/// Whether the index list contains `x`.
fn contains_idx(v: &Vec<usize>, x: usize) -> (r: bool)
    ensures
        r == v@.contains(x),
{
    let mut k: usize = 0;
    while k < v.len()
        invariant
            0 <= k <= v@.len(),
            forall|a: int| 0 <= a < k ==> v@[a] != x,
        decreases v@.len() - k,
    {
        if v[k] == x {
            return true;
        }
        k += 1;
    }
    assert(!v@.contains(x));
    false
}

impl Circuit {
    /// Builds the circuit from the parsed module list: the nodes are indexed
    /// in module order, with every destination name that no module defines
    /// appended once, in first-appearance order, as an inert sink. Flip-flops
    /// start off; every conjunction's input list holds exactly the nodes that
    /// list it as a destination, all recorded low; the counters start at zero.
    #[verifier::loop_isolation(false)]
    pub fn from_modules(modules: &Vec<Module>) -> (c: Circuit)
        requires
            exists|i: int|
                0 <= i < modules@.len() && (#[trigger] modules@[i].module_type) is Broadcast,
            forall|i: int, j: int|
                0 <= i < j < modules@.len() ==> modules@[i].source@ != modules@[j].source@,
        ensures
            c.wf(),
            c.button_pushes == 0 && c.low_signals == 0 && c.high_signals == 0,
            modules@.len() <= c.names@.len(),
            forall|i: int|
                0 <= i < modules@.len() ==> c.names.deep_view()[i] == modules@[i].source@,
            forall|i: int, j: int|
                0 <= i < j < c.names@.len() ==> c.names.deep_view()[i] != c.names.deep_view()[j],
            c.names.deep_view() == intern_from(mod_dests(modules@), mod_names(modules@), 0, 0),
            forall|i: int|
                0 <= i < modules@.len() ==> c.kinds@[i] == kind_of(modules@[i].module_type),
            forall|i: int| modules@.len() <= i < c.names@.len() ==> c.kinds@[i] is Sink,
            forall|i: int|
                0 <= i < modules@.len() ==> c.dests@[i]@.len()
                    == modules@[i].destinations@.len(),
            forall|i: int, j: int|
                0 <= i < modules@.len() && 0 <= j < modules@[i].destinations@.len()
                    ==> c.names.deep_view()[#[trigger] c.dests@[i]@[j] as int] == modules@[i].destinations.deep_view()[j],
            forall|i: int| modules@.len() <= i < c.names@.len() ==> c.dests@[i]@.len() == 0,
            (c.broadcaster as int) < modules@.len() && modules@[c.broadcaster as int].module_type is Broadcast,
            forall|i: int|
                0 <= i < c.broadcaster ==> !((#[trigger] modules@[i].module_type) is Broadcast),
            forall|i: int| 0 <= i < c.names@.len() ==> !(#[trigger] c.ff_on@[i]),
            forall|t: int|
                0 <= t < c.names@.len() ==> (#[trigger] c.conj_inputs@[t]@) == (
                if c.kinds@[t] is Conjunction {
                    inputs_upto(c.dests.deep_view(), modules@.len() as int, t as usize)
                } else {
                    Seq::<usize>::empty()
                }),
            forall|t: int, k: int|
                0 <= t < c.names@.len() && 0 <= k < c.conj_high@[t]@.len() ==> !(
                #[trigger] c.conj_high@[t]@[k]),
    {
        let m = modules.len();
        // Name table: module sources first.
        let mut names: Vec<String> = Vec::new();
        let mut i: usize = 0;
        while i < m
            invariant
                0 <= i <= m,
                names@.len() == i,
                forall|k: int| 0 <= k < i ==> names.deep_view()[k] == modules@[k].source@,
            decreases m - i,
        {
            let ghost prev = names.deep_view();
            names.push(modules[i].source.clone());
            assert(names.deep_view() =~= prev.push(modules@[i as int].source@));
            i += 1;
        }
        // Then every destination name no module defines, once, as a sink.
        let ghost md = mod_dests(modules@);
        let ghost mn = mod_names(modules@);
        proof {
            assert(names.deep_view() =~= mn);
        }
        i = 0;
        while i < m
            invariant
                0 <= i <= m,
                m <= names@.len(),
                forall|k: int| 0 <= k < m ==> names.deep_view()[k] == modules@[k].source@,
                forall|a: int, b: int|
                    0 <= a < b < names@.len() ==> names.deep_view()[a] != names.deep_view()[b],
                forall|a: int, b: int|
                    0 <= a < i && 0 <= b < modules@[a].destinations@.len() ==> has_name(
                        names.deep_view(),
                        modules@[a].destinations.deep_view()[b],
                    ),
                intern_from(md, mn, 0, 0) == intern_from(md, names.deep_view(), i as int, 0),
            decreases m - i,
        {
            let ds = &modules[i].destinations;
            let mut j: usize = 0;
            while j < ds.len()
                invariant
                    0 <= j <= ds@.len(),
                    m <= names@.len(),
                    forall|k: int| 0 <= k < m ==> names.deep_view()[k] == modules@[k].source@,
                    forall|a: int, b: int|
                        0 <= a < b < names@.len() ==> names.deep_view()[a] != names.deep_view()[b],
                    forall|a: int, b: int|
                        0 <= a < i && 0 <= b < modules@[a].destinations@.len() ==> has_name(
                            names.deep_view(),
                            modules@[a].destinations.deep_view()[b],
                        ),
                    forall|b: int|
                        0 <= b < j ==> has_name(
                            names.deep_view(),
                            modules@[i as int].destinations.deep_view()[b],
                        ),
                    intern_from(md, mn, 0, 0) == intern_from(
                        md,
                        names.deep_view(),
                        i as int,
                        j as int,
                    ),
                decreases ds@.len() - j,
            {
                proof {
                    assert(md[i as int] == modules@[i as int].destinations.deep_view());
                    assert(md[i as int][j as int] == ds.deep_view()[j as int]);
                }
                if index_of_name(&names, ds[j].as_str()).is_none() {
                    let ghost prev = names.deep_view();
                    names.push(ds[j].clone());
                    proof {
                        assert(names.deep_view() =~= prev.push(ds.deep_view()[j as int]));
                        assert forall|a: int, b: int|
                            0 <= a < i && 0 <= b < modules@[a].destinations@.len() implies has_name(
                            names.deep_view(),
                            #[trigger] modules@[a].destinations.deep_view()[b],
                        ) by {
                            lemma_has_name_push(
                                prev,
                                modules@[a].destinations.deep_view()[b],
                                ds.deep_view()[j as int],
                            );
                        };
                        assert forall|b: int| 0 <= b < j implies has_name(
                            names.deep_view(),
                            #[trigger] modules@[i as int].destinations.deep_view()[b],
                        ) by {
                            lemma_has_name_push(
                                prev,
                                modules@[i as int].destinations.deep_view()[b],
                                ds.deep_view()[j as int],
                            );
                        };
                        assert(names.deep_view()[prev.len() as int] == ds.deep_view()[j as int]);
                        assert(has_name(names.deep_view(), ds.deep_view()[j as int]));
                    }
                }
                assert(has_name(names.deep_view(), modules@[i as int].destinations.deep_view()[j as int]));
                j += 1;
            }
            i += 1;
        }
        let n = names.len();
        // Node kinds: the module's own kind, then sinks.
        let mut kinds: Vec<NodeKind> = Vec::new();
        i = 0;
        while i < m
            invariant
                0 <= i <= m,
                kinds@.len() == i,
                forall|k: int| 0 <= k < i ==> kinds@[k] == kind_of(modules@[k].module_type),
            decreases m - i,
        {
            let k = match modules[i].module_type {
                ModuleType::FlipFlop => NodeKind::FlipFlop,
                ModuleType::Conjunction => NodeKind::Conjunction,
                ModuleType::Broadcast => NodeKind::Broadcast,
            };
            kinds.push(k);
            i += 1;
        }
        while kinds.len() < n
            invariant
                m <= kinds@.len() <= n,
                forall|k: int| 0 <= k < m ==> kinds@[k] == kind_of(modules@[k].module_type),
                forall|k: int| m <= k < kinds@.len() ==> kinds@[k] is Sink,
            decreases n - kinds@.len(),
        {
            kinds.push(NodeKind::Sink);
        }
        // Destination lists, resolved to indices.
        let mut dests: Vec<Vec<usize>> = Vec::new();
        i = 0;
        while i < m
            invariant
                0 <= i <= m,
                dests@.len() == i,
                forall|k: int|
                    0 <= k < i ==> (#[trigger] dests@[k]@).len()
                        == modules@[k].destinations@.len(),
                forall|k: int, j: int|
                    0 <= k < i && 0 <= j < modules@[k].destinations@.len() ==> (
                    #[trigger] dests@[k]@[j] as int) < names@.len() && names.deep_view()[dests@[k]@[j] as int]
                        == modules@[k].destinations.deep_view()[j],
            decreases m - i,
        {
            let ds = &modules[i].destinations;
            let mut row: Vec<usize> = Vec::new();
            let mut j: usize = 0;
            while j < ds.len()
                invariant
                    0 <= j <= ds@.len(),
                    row@.len() == j,
                    forall|b: int|
                        0 <= b < j ==> (#[trigger] row@[b] as int) < names@.len()
                            && names.deep_view()[row@[b] as int] == ds.deep_view()[b],
                decreases ds@.len() - j,
            {
                match index_of_name(&names, ds[j].as_str()) {
                    Some(ix) => {
                        row.push(ix);
                    },
                    None => {
                        proof {
                            assert(has_name(names.deep_view(), ds.deep_view()[j as int]));
                            assert(false);
                        }
                        row.push(0);
                    },
                }
                j += 1;
            }
            dests.push(row);
            i += 1;
        }
        while dests.len() < n
            invariant
                m <= dests@.len() <= n,
                forall|k: int|
                    0 <= k < m ==> (#[trigger] dests@[k]@).len()
                        == modules@[k].destinations@.len(),
                forall|k: int, j: int|
                    0 <= k < m && 0 <= j < modules@[k].destinations@.len() ==> (
                    #[trigger] dests@[k]@[j] as int) < names@.len() && names.deep_view()[dests@[k]@[j] as int]
                        == modules@[k].destinations.deep_view()[j],
                forall|k: int| m <= k < dests@.len() ==> (#[trigger] dests@[k]@).len() == 0,
            decreases n - dests@.len(),
        {
            dests.push(Vec::new());
        }
        // Flip-flops start off.
        let mut ff_on: Vec<bool> = Vec::new();
        while ff_on.len() < n
            invariant
                ff_on@.len() <= n,
                forall|k: int| 0 <= k < ff_on@.len() ==> !(#[trigger] ff_on@[k]),
            decreases n - ff_on@.len(),
        {
            ff_on.push(false);
        }
        // Conjunction input lists, with every recorded level low.
        let ghost dd = dests.deep_view();
        let mut conj_inputs: Vec<Vec<usize>> = Vec::new();
        let mut conj_high: Vec<Vec<bool>> = Vec::new();
        let mut t: usize = 0;
        while t < n
            invariant
                0 <= t <= n,
                dests@.len() == n,
                kinds@.len() == n,
                conj_inputs@.len() == t,
                conj_high@.len() == t,
                dd == dests.deep_view(),
                forall|a: int|
                    0 <= a < t ==> (#[trigger] conj_inputs@[a]@) == (
                    if kinds@[a] is Conjunction {
                        inputs_upto(dd, m as int, a as usize)
                    } else {
                        Seq::<usize>::empty()
                    }),
                forall|a: int|
                    0 <= a < t ==> (#[trigger] conj_high@[a]@).len() == conj_inputs@[a]@.len(),
                forall|a: int, k: int|
                    0 <= a < t && 0 <= k < conj_high@[a]@.len() ==> !(
                    #[trigger] conj_high@[a]@[k]),
                forall|a: int, k: int|
                    0 <= a < t && 0 <= k < conj_inputs@[a]@.len() ==> (
                    #[trigger] conj_inputs@[a]@[k] as int) < n,
            decreases n - t,
        {
            let mut row: Vec<usize> = Vec::new();
            let mut high_row: Vec<bool> = Vec::new();
            let is_conj = match kinds[t] {
                NodeKind::Conjunction => true,
                _ => false,
            };
            if is_conj {
                let mut a: usize = 0;
                while a < m
                    invariant
                        0 <= a <= m,
                        m <= n == dests@.len(),
                        dd == dests.deep_view(),
                        row@ == inputs_upto(dd, a as int, t),
                        high_row@.len() == row@.len(),
                        forall|k: int| 0 <= k < high_row@.len() ==> !(#[trigger] high_row@[k]),
                        forall|k: int| 0 <= k < row@.len() ==> (#[trigger] row@[k] as int) < n,
                    decreases m - a,
                {
                    proof {
                        lemma_deep_at_usizes(&dests, a as int);
                    }
                    if contains_idx(&dests[a], t) {
                        row.push(a);
                        high_row.push(false);
                        assert(row@ =~= inputs_upto(dd, a + 1, t));
                    } else {
                        assert(row@ =~= inputs_upto(dd, a + 1, t));
                    }
                    a += 1;
                }
            }
            conj_inputs.push(row);
            conj_high.push(high_row);
            t += 1;
        }
        // The broadcaster: the first module of broadcast kind.
        let mut broadcaster: usize = 0;
        let mut found = false;
        i = 0;
        while i < m
            invariant
                0 <= i <= m,
                !found ==> forall|k: int|
                    0 <= k < i ==> !((#[trigger] modules@[k].module_type) is Broadcast),
                found ==> (broadcaster as int) < i
                    && modules@[broadcaster as int].module_type is Broadcast && forall|k: int|
                    0 <= k < broadcaster ==> !((#[trigger] modules@[k].module_type) is Broadcast),
            decreases m - i,
        {
            if !found {
                match modules[i].module_type {
                    ModuleType::Broadcast => {
                        broadcaster = i;
                        found = true;
                    },
                    _ => {},
                }
            }
            i += 1;
        }
        if !found {
            proof {
                assert(false);
            }
        }
        Circuit {
            names,
            kinds,
            dests,
            broadcaster,
            ff_on,
            conj_inputs,
            conj_high,
            low_signals: 0,
            high_signals: 0,
            button_pushes: 0,
        }
    }
}

/// Copies a vector of indices.
fn clone_usizes(v: &Vec<usize>) -> (r: Vec<usize>)
    ensures
        r@ == v@,
{
    let r = v.clone();
    assert(r@ =~= v@);
    r
}

/// Whether the cycle search may stop, exactly as [`search_done`] says.
fn check_done(first: &Vec<Option<u64>>, second: &Vec<Option<u64>>) -> (r: bool)
    requires
        first@.len() == second@.len(),
    ensures
        r == search_done(first@, second@),
{
    let mut any: bool = false;
    let mut covered: bool = true;
    let mut k: usize = 0;
    while k < first.len()
        invariant
            0 <= k <= first@.len(),
            first@.len() == second@.len(),
            any == exists|a: int| 0 <= a < k && first@[a] is Some,
            covered == forall|a: int|
                0 <= a < k ==> ((#[trigger] first@[a]) is Some ==> second@[a] is Some),
        decreases first@.len() - k,
    {
        match first[k] {
            Some(_) => {
                any = true;
                match second[k] {
                    Some(_) => {},
                    None => {
                        covered = false;
                    },
                }
            },
            None => {},
        }
        k += 1;
    }
    any && covered
}

impl Circuit {
    /// One button press that also reports which sources sent a high pulse to
    /// node `t` during the wave, in trace order, with multiplicity. When the
    /// wave does not quiesce within `press_fuel` events, the report is empty
    /// and the flag false.
    #[verifier::loop_isolation(false)]
    pub fn press_highs(&mut self, t: usize, press_fuel: usize) -> (r: (Vec<usize>, bool))
        requires
            old(self).wf(),
        ensures
            final(self).wf(),
            final(self).same_wiring(*old(self)),
            ({
                let pm = press_model(
                    old(self).kinds@,
                    old(self).dests.deep_view(),
                    old(self).conj_inputs.deep_view(),
                    old(self).ff_on@,
                    old(self).conj_high.deep_view(),
                    init_wave(*old(self)),
                    press_fuel as nat,
                );
                match pm {
                    Some((ff2, hi2, trace)) => r.1 && final(self).ff_on@ == ff2
                        && final(self).conj_high.deep_view() == hi2
                        && r.0@ == high_sources(trace, t)
                        && final(self).low_signals == sat64(
                        old(self).low_signals + 1 + count_level(trace, Pulse::Low),
                    )
                        && final(self).high_signals == sat64(
                        old(self).high_signals + count_level(trace, Pulse::High),
                    ),
                    None => !r.1,
                }
            }),
            final(self).button_pushes == sat64(old(self).button_pushes + 1),
    {
        let (q, done) = self.push_the_button(press_fuel);
        if !done {
            return (Vec::new(), false);
        }
        assert(q@.take(q@.len() as int) =~= q@);
        let mut hs: Vec<usize> = Vec::new();
        let mut i: usize = 0;
        while i < q.len()
            invariant
                0 <= i <= q@.len(),
                hs@ =~= high_sources(q@.take(i as int), t),
            decreases q@.len() - i,
        {
            proof {
                assert(q@.take(i + 1).drop_last() =~= q@.take(i as int));
                assert(q@.take(i + 1).last() == q@[i as int]);
            }
            let e = q[i];
            if e.target == t {
                match e.level {
                    Pulse::High => {
                        hs.push(e.source);
                    },
                    Pulse::Low => {},
                }
            }
            i += 1;
        }
        assert(q@.take(q@.len() as int) =~= q@);
        (hs, true)
    }

    /// Cycle analysis: finds the conjunction that feeds the sink named "rx",
    /// presses the button until every sighted input of that conjunction has
    /// sent two high pulses, and folds the per-input gaps between the first
    /// two sightings into one least common multiple — the first press at
    /// which all inputs can go high together. `None` when there is no such
    /// sink or conjunction, a wave does not quiesce within `press_fuel`
    /// events, more than `max_presses` presses would be needed, the press
    /// counter would overflow, or the combined period overflows a `u64`.
    #[verifier::loop_isolation(false)]
    pub fn analyze(&mut self, press_fuel: usize, max_presses: u64) -> (r: Option<u64>)
        requires
            old(self).wf(),
        ensures
            final(self).wf(),
            final(self).same_wiring(*old(self)),
            ({
                let names0 = old(self).names.deep_view();
                let kinds0 = old(self).kinds@;
                let dd0 = old(self).dests.deep_view();
                let ins0 = old(self).conj_inputs.deep_view();
                match idx_of_name(names0, "rx"@, 0) {
                    None => r is None,
                    Some(sink) => match feeder_index(kinds0, dd0, sink as usize, 0) {
                        None => r is None,
                        Some(t) => match search_loop(
                            kinds0,
                            dd0,
                            ins0,
                            init_wave(*old(self)),
                            old(self).ff_on@,
                            old(self).conj_high.deep_view(),
                            t as usize,
                            ins0[t],
                            Seq::new(ins0[t].len(), |k: int| None::<u64>),
                            Seq::new(ins0[t].len(), |k: int| None::<u64>),
                            old(self).button_pushes,
                            old(self).low_signals,
                            old(self).high_signals,
                            max_presses as nat,
                            press_fuel as nat,
                        ) {
                            None => r is None,
                            Some((f2, s2, ff2, hi2, lows2, highs2, pushes2)) => final(self).ff_on@
                                == ff2 && final(self).conj_high.deep_view() == hi2
                                && final(self).low_signals == lows2
                                && final(self).high_signals == highs2
                                && final(self).button_pushes == pushes2
                                && r == gaps_lcm(f2, s2, 0, 1u64),
                        },
                    },
                }
            }),
    {
        let ghost names0 = self.names.deep_view();
        let ghost kinds0 = self.kinds@;
        let ghost dd0 = self.dests.deep_view();
        let ghost ins0 = self.conj_inputs.deep_view();
        let ghost ff0 = self.ff_on@;
        let ghost hi0 = self.conj_high.deep_view();
        let ghost seed = init_wave(*old(self));
        let sink = match index_of_name(&self.names, "rx") {
            Some(s) => s,
            None => {
                return None;
            },
        };
        // The first conjunction that lists the sink as a destination.
        let n = self.names.len();
        let mut t: usize = 0;
        let mut feeder: Option<usize> = None;
        while t < n
            invariant
                0 <= t <= n,
                n == self.names@.len(),
                *self == *old(self),
                feeder is None ==> feeder_index(kinds0, dd0, sink, 0) == feeder_index(
                    kinds0,
                    dd0,
                    sink,
                    t as int,
                ),
                match feeder {
                    Some(f) => feeder_index(kinds0, dd0, sink, 0) == Some(f as int) && (f as int)
                        < n,
                    None => true,
                },
            decreases n - t,
        {
            if feeder.is_none() {
                let is_conj = match self.kinds[t] {
                    NodeKind::Conjunction => true,
                    _ => false,
                };
                proof {
                    lemma_deep_at_usizes(&self.dests, t as int);
                }
                if is_conj && contains_idx(&self.dests[t], sink) {
                    feeder = Some(t);
                }
            }
            t += 1;
        }
        let target = match feeder {
            Some(f) => f,
            None => {
                return None;
            },
        };
        let tins = clone_usizes(&self.conj_inputs[target]);
        proof {
            lemma_deep_at_usizes(&self.conj_inputs, target as int);
        }
        let mut first: Vec<Option<u64>> = Vec::new();
        let mut second: Vec<Option<u64>> = Vec::new();
        while first.len() < tins.len()
            invariant
                first@.len() == second@.len() <= tins@.len(),
                forall|k: int| 0 <= k < first@.len() ==> (#[trigger] first@[k]) is None,
                forall|k: int| 0 <= k < second@.len() ==> (#[trigger] second@[k]) is None,
            decreases tins@.len() - first@.len(),
        {
            first.push(None);
            second.push(None);
        }
        assert(first@ =~= Seq::new(ins0[target as int].len(), |k: int| None::<u64>));
        assert(second@ =~= Seq::new(ins0[target as int].len(), |k: int| None::<u64>));
        let ghost f_init = first@;
        let ghost s_init = second@;
        let ghost bp0 = self.button_pushes;
        let ghost lo0 = self.low_signals;
        let ghost hg0 = self.high_signals;
        let mut used: u64 = 0;
        loop
            invariant
                self.wf(),
                self.same_wiring(*old(self)),
                first@.len() == second@.len() == tins@.len(),
                tins@ == ins0[target as int],
                0 <= used <= max_presses,
                search_loop(
                    kinds0,
                    dd0,
                    ins0,
                    seed,
                    ff0,
                    hi0,
                    target,
                    tins@,
                    f_init,
                    s_init,
                    bp0,
                    lo0,
                    hg0,
                    max_presses as nat,
                    press_fuel as nat,
                ) == search_loop(
                    kinds0,
                    dd0,
                    ins0,
                    seed,
                    self.ff_on@,
                    self.conj_high.deep_view(),
                    target,
                    tins@,
                    first@,
                    second@,
                    self.button_pushes,
                    self.low_signals,
                    self.high_signals,
                    (max_presses - used) as nat,
                    press_fuel as nat,
                ),
            decreases max_presses - used,
        {
            if check_done(&first, &second) {
                break ;
            }
            if used == max_presses {
                return None;
            }
            if self.button_pushes == u64::MAX {
                return None;
            }
            let ghost ff_pre = self.ff_on@;
            let ghost hi_pre = self.conj_high.deep_view();
            let ghost bp_pre = self.button_pushes;
            proof {
                lemma_deep_at_usizes(&self.dests, self.broadcaster as int);
                lemma_deep_at_usizes(&old(self).dests, old(self).broadcaster as int);
                assert(init_wave(*self) =~= seed);
            }
            let (hs, ok) = self.press_highs(target, press_fuel);
            if !ok {
                return None;
            }
            let press_no = self.button_pushes;
            assert(press_no == bp_pre + 1);
            // Note every high pulse of this press, in trace order.
            let ghost f_pre = first@;
            let ghost s_pre = second@;
            assert(hs@.subrange(0, hs@.len() as int) =~= hs@);
            let mut e: usize = 0;
            while e < hs.len()
                invariant
                    0 <= e <= hs@.len(),
                    first@.len() == second@.len() == tins@.len(),
                    note_highs(tins@, f_pre, s_pre, hs@, press_no) == note_highs(
                        tins@,
                        first@,
                        second@,
                        hs@.subrange(e as int, hs@.len() as int),
                        press_no,
                    ),
                decreases hs@.len() - e,
            {
                let src = hs[e];
                let ghost fprev = first@;
                let ghost sprev = second@;
                let mut k: usize = 0;
                while k < tins.len()
                    invariant
                        0 <= k <= tins@.len(),
                        first@.len() == second@.len() == tins@.len(),
                        forall|a: int|
                            0 <= a < k ==> (#[trigger] first@[a]) == note_one(
                                tins@,
                                fprev,
                                sprev,
                                src,
                                press_no,
                            ).0[a],
                        forall|a: int|
                            0 <= a < k ==> (#[trigger] second@[a]) == note_one(
                                tins@,
                                fprev,
                                sprev,
                                src,
                                press_no,
                            ).1[a],
                        forall|a: int| k <= a < tins@.len() ==> (#[trigger] first@[a]) == fprev[a],
                        forall|a: int| k <= a < tins@.len() ==> (#[trigger] second@[a]) == sprev[a],
                    decreases tins@.len() - k,
                {
                    if tins[k] == src {
                        match first[k] {
                            None => {
                                first.set(k, Some(press_no));
                            },
                            Some(_) => {
                                match second[k] {
                                    None => {
                                        second.set(k, Some(press_no));
                                    },
                                    Some(_) => {},
                                }
                            },
                        }
                    }
                    k += 1;
                }
                proof {
                    assert(first@ =~= note_one(tins@, fprev, sprev, src, press_no).0);
                    assert(second@ =~= note_one(tins@, fprev, sprev, src, press_no).1);
                    let rest = hs@.subrange(e as int, hs@.len() as int);
                    assert(rest[0] == hs@[e as int]);
                    assert(rest.subrange(1, rest.len() as int) =~= hs@.subrange(
                        e + 1,
                        hs@.len() as int,
                    ));
                }
                e += 1;
            }
            proof {
                assert(hs@.subrange(hs@.len() as int, hs@.len() as int) =~= Seq::<usize>::empty());
                assert((first@, second@) == note_highs(tins@, f_pre, s_pre, hs@, press_no));
            }
            used += 1;
        }
        // The search stopped: fold the per-input gaps by least common multiples.
        let mut acc: u64 = 1;
        let mut k: usize = 0;
        let ghost f_done = first@;
        let ghost s_done = second@;
        while k < first.len()
            invariant
                0 <= k <= first@.len(),
                first@ == f_done,
                second@ == s_done,
                first@.len() == second@.len(),
                gaps_lcm(f_done, s_done, 0, 1u64) == gaps_lcm(f_done, s_done, k as int, acc),
            decreases first@.len() - k,
        {
            match (first[k], second[k]) {
                (Some(f), Some(s)) => {
                    if s < f {
                        return None;
                    }
                    let g = s - f;
                    if acc == 0 && g == 0 {
                        return None;
                    }
                    match acc.checked_mul(g) {
                        None => {
                            return None;
                        },
                        Some(_) => {},
                    }
                    let next = crate::util::lcm(acc, g);
                    proof {
                        assert(crate::util::lcm_spec(acc as nat, g as nat) <= acc * g) by {
                            crate::util::lemma_lcm_le_product(acc as nat, g as nat);
                        }
                        assert(next == lcm64(acc, g));
                    }
                    acc = next;
                },
                (Some(_), None) => {},
                (None, Some(_)) => {},
                (None, None) => {},
            }
            k += 1;
        }
        Some(acc)
    }
}

/// Law: a flip-flop that receives a high pulse keeps its stored state and
/// emits nothing, whatever the rest of the circuit looks like.
pub proof fn flip_flop_ignores_high(
    kinds: Seq<NodeKind>,
    dests: Seq<Seq<usize>>,
    conj_ins: Seq<Seq<usize>>,
    ff: Seq<bool>,
    hi: Seq<Seq<bool>>,
    e: Event,
)
    requires
        0 <= e.target < kinds.len(),
        kinds[e.target as int] is FlipFlop,
        e.level is High,
    ensures
        step_state(kinds, dests, conj_ins, ff, hi, e) == (ff, hi, Seq::<Event>::empty()),
{
}

/// Law: a conjunction emits low exactly when every recorded input level is
/// high; in particular, while any input is still low — as in the initial
/// all-low state of a conjunction with at least one input — it emits high.
pub proof fn conjunction_output_law(levels: Seq<bool>)
    ensures
        conj_out(levels) is Low <==> (forall|k: int| 0 <= k < levels.len() ==> levels[k]),
        (exists|k: int| 0 <= k < levels.len() && !levels[k]) ==> conj_out(levels) is High,
{
}

/// Law: processing an event at a conjunction records the incoming level under
/// its source in the (fixed) input table, leaves every flip-flop alone, and
/// fans out the level that [`conj_out`] gives for the updated table.
pub proof fn conjunction_step_law(
    kinds: Seq<NodeKind>,
    dests: Seq<Seq<usize>>,
    conj_ins: Seq<Seq<usize>>,
    ff: Seq<bool>,
    hi: Seq<Seq<bool>>,
    e: Event,
)
    requires
        0 <= e.target < kinds.len(),
        kinds[e.target as int] is Conjunction,
    ensures
        ({
            let t = e.target as int;
            let hi_t = record_input(conj_ins[t], hi[t], e.source, e.level is High);
            step_state(kinds, dests, conj_ins, ff, hi, e) == (
                ff,
                hi.update(t, hi_t),
                events_to(dests[t], e.target, conj_out(hi_t)),
            )
        }),
{
}

/// The wave only appends to the event queue: every event queued when
/// processing starts keeps its position in the final trace.
pub proof fn lemma_wave_preserves_queue(
    kinds: Seq<NodeKind>,
    dests: Seq<Seq<usize>>,
    conj_ins: Seq<Seq<usize>>,
    ff: Seq<bool>,
    hi: Seq<Seq<bool>>,
    q: Seq<Event>,
    i: int,
    fuel: nat,
)
    ensures
        ({
            let (ff2, hi2, q2, p, done) = wave_run(kinds, dests, conj_ins, ff, hi, q, i, fuel);
            &&& q2.len() >= q.len()
            &&& q2.take(q.len() as int) == q
        }),
    decreases fuel,
{
    if !(0 <= i < q.len()) {
        assert(q.take(q.len() as int) =~= q);
    } else if fuel == 0 {
        assert(q.take(q.len() as int) =~= q);
    } else {
        let (ff2, hi2, em) = step_state(kinds, dests, conj_ins, ff, hi, q[i]);
        lemma_wave_preserves_queue(kinds, dests, conj_ins, ff2, hi2, q + em, i + 1, (fuel
            - 1) as nat);
        let (ff3, hi3, q3, p3, done3) = wave_run(
            kinds,
            dests,
            conj_ins,
            ff2,
            hi2,
            q + em,
            i + 1,
            (fuel - 1) as nat,
        );
        assert((q + em).take(q.len() as int) =~= q);
        assert(q3.take(q.len() as int) =~= q3.take((q + em).len() as int).take(q.len() as int));
    }
}

/// Law: one button press processes the broadcaster's fan-out — one low pulse
/// per broadcaster destination, attributed to the broadcaster, in destination
/// order — before any other event of the wave.
pub proof fn press_seeds_fanout(c: Circuit, fuel: nat)
    requires
        c.wf(),
    ensures
        ({
            let seed = init_wave(c);
            let (ff2, hi2, q2, p, done) = wave_run(
                c.kinds@,
                c.dests.deep_view(),
                c.conj_inputs.deep_view(),
                c.ff_on@,
                c.conj_high.deep_view(),
                seed,
                0,
                fuel,
            );
            &&& q2.len() >= seed.len()
            &&& q2.take(seed.len() as int) == seed
            &&& seed.len() == c.dests@[c.broadcaster as int]@.len()
            &&& forall|k: int|
                0 <= k < seed.len() ==> (#[trigger] q2[k]) == (Event {
                    target: c.dests@[c.broadcaster as int]@[k],
                    source: c.broadcaster,
                    level: Pulse::Low,
                })
        }),
{
    let seed = init_wave(c);
    lemma_wave_preserves_queue(
        c.kinds@,
        c.dests.deep_view(),
        c.conj_inputs.deep_view(),
        c.ff_on@,
        c.conj_high.deep_view(),
        seed,
        0,
        fuel,
    );
    let (ff2, hi2, q2, p, done) = wave_run(
        c.kinds@,
        c.dests.deep_view(),
        c.conj_inputs.deep_view(),
        c.ff_on@,
        c.conj_high.deep_view(),
        seed,
        0,
        fuel,
    );
    assert forall|k: int| 0 <= k < seed.len() implies (#[trigger] q2[k]) == (Event {
        target: c.dests@[c.broadcaster as int]@[k],
        source: c.broadcaster,
        level: Pulse::Low,
    }) by {
        assert(q2[k] == q2.take(seed.len() as int)[k]);
    }
}

/// Law: a button press is a pure function of the circuit's wiring and state —
/// there is no hidden input. Two circuits whose wiring, flip-flop states and
/// conjunction tables agree produce the very same wave: the same trace, the
/// same successor state, the same completion.
pub proof fn press_deterministic(c1: Circuit, c2: Circuit, fuel: nat)
    requires
        c1.same_wiring(c2),
        c1.ff_on@ == c2.ff_on@,
        c1.conj_high.deep_view() == c2.conj_high.deep_view(),
        c1.wf(),
        c2.wf(),
    ensures
        wave_run(
            c1.kinds@,
            c1.dests.deep_view(),
            c1.conj_inputs.deep_view(),
            c1.ff_on@,
            c1.conj_high.deep_view(),
            init_wave(c1),
            0,
            fuel,
        ) == wave_run(
            c2.kinds@,
            c2.dests.deep_view(),
            c2.conj_inputs.deep_view(),
            c2.ff_on@,
            c2.conj_high.deep_view(),
            init_wave(c2),
            0,
            fuel,
        ),
{
    lemma_deep_at_usizes(&c1.dests, c1.broadcaster as int);
    lemma_deep_at_usizes(&c2.dests, c2.broadcaster as int);
    assert(init_wave(c1) == init_wave(c2));
}

/// The first index at or after `from` whose name equals `s`, if any.
pub open spec fn idx_of_name(names: Seq<Seq<char>>, s: Seq<char>, from: int) -> Option<int>
    decreases names.len() - from,
{
    if from < 0 || from >= names.len() {
        None
    } else if names[from] == s {
        Some(from)
    } else {
        idx_of_name(names, s, from + 1)
    }
}

/// The first index at or after `from` holding a conjunction that lists `sink`
/// among its destinations, if any.
pub open spec fn feeder_index(
    kinds: Seq<NodeKind>,
    dests: Seq<Seq<usize>>,
    sink: usize,
    from: int,
) -> Option<int>
    decreases kinds.len() - from,
{
    if from < 0 || from >= kinds.len() {
        None
    } else if kinds[from] is Conjunction && dests[from].contains(sink) {
        Some(from)
    } else {
        feeder_index(kinds, dests, sink, from + 1)
    }
}

/// The sources that send a high pulse to `t` during a trace, in order, with
/// multiplicity.
pub open spec fn high_sources(trace: Seq<Event>, t: usize) -> Seq<usize>
    decreases trace.len(),
{
    if trace.len() == 0 {
        Seq::empty()
    } else {
        high_sources(trace.drop_last(), t) + (if trace.last().target == t
            && trace.last().level is High {
            seq![trace.last().source]
        } else {
            Seq::empty()
        })
    }
}

/// One full button press from a given state: the successor state and the
/// whole processed trace, or `None` when the wave does not quiesce within
/// `press_fuel` processed events.
pub open spec fn press_model(
    kinds: Seq<NodeKind>,
    dests: Seq<Seq<usize>>,
    conj_ins: Seq<Seq<usize>>,
    ff: Seq<bool>,
    hi: Seq<Seq<bool>>,
    seed: Seq<Event>,
    press_fuel: nat,
) -> Option<(Seq<bool>, Seq<Seq<bool>>, Seq<Event>)> {
    let (ff2, hi2, q2, p, done) = wave_run(kinds, dests, conj_ins, ff, hi, seed, 0, press_fuel);
    if done {
        Some((ff2, hi2, q2))
    } else {
        None
    }
}

/// Notes one high pulse from `src` at press `press_no` against the tracked
/// input list: a first sighting fills `first`, a later one fills `second`.
pub open spec fn note_one(
    tins: Seq<usize>,
    first: Seq<Option<u64>>,
    second: Seq<Option<u64>>,
    src: usize,
    press_no: u64,
) -> (Seq<Option<u64>>, Seq<Option<u64>>) {
    (
        Seq::new(
            first.len(),
            |k: int|
                if 0 <= k < tins.len() && tins[k] == src && first[k] is None {
                    Some(press_no)
                } else {
                    first[k]
                },
        ),
        Seq::new(
            second.len(),
            |k: int|
                if 0 <= k < tins.len() && tins[k] == src && first[k] is Some
                    && second[k] is None {
                    Some(press_no)
                } else {
                    second[k]
                },
        ),
    )
}

/// Notes every high pulse of one press, in trace order.
pub open spec fn note_highs(
    tins: Seq<usize>,
    first: Seq<Option<u64>>,
    second: Seq<Option<u64>>,
    hs: Seq<usize>,
    press_no: u64,
) -> (Seq<Option<u64>>, Seq<Option<u64>>)
    decreases hs.len(),
{
    if hs.len() == 0 {
        (first, second)
    } else {
        let (f1, s1) = note_one(tins, first, second, hs[0], press_no);
        note_highs(tins, f1, s1, hs.subrange(1, hs.len() as int), press_no)
    }
}

/// The cycle search may stop: some tracked input has been sighted, and every
/// sighted input has been sighted at least twice.
pub open spec fn search_done(first: Seq<Option<u64>>, second: Seq<Option<u64>>) -> bool {
    &&& exists|k: int| 0 <= k < first.len() && first[k] is Some
    &&& forall|k: int|
        0 <= k < first.len() ==> ((#[trigger] first[k]) is Some ==> second[k] is Some)
}

/// The cycle search: presses the button until the stop condition holds,
/// noting for every tracked input of the watched conjunction the press
/// numbers of its first two high emissions, and carrying the cumulative
/// pulse counters along. `None` when a press does not quiesce, the press
/// budget runs out, or the press counter would overflow.
pub open spec fn search_loop(
    kinds: Seq<NodeKind>,
    dests: Seq<Seq<usize>>,
    conj_ins: Seq<Seq<usize>>,
    seed: Seq<Event>,
    ff: Seq<bool>,
    hi: Seq<Seq<bool>>,
    t: usize,
    tins: Seq<usize>,
    first: Seq<Option<u64>>,
    second: Seq<Option<u64>>,
    press_no: u64,
    lows: u64,
    highs: u64,
    left: nat,
    press_fuel: nat,
) -> Option<(Seq<Option<u64>>, Seq<Option<u64>>, Seq<bool>, Seq<Seq<bool>>, u64, u64, u64)>
    decreases left,
{
    if search_done(first, second) {
        Some((first, second, ff, hi, lows, highs, press_no))
    } else if left == 0 || press_no == u64::MAX {
        None
    } else {
        match press_model(kinds, dests, conj_ins, ff, hi, seed, press_fuel) {
            None => None,
            Some((ff2, hi2, trace)) => {
                let (f2, s2) = note_highs(
                    tins,
                    first,
                    second,
                    high_sources(trace, t),
                    (press_no + 1) as u64,
                );
                search_loop(
                    kinds,
                    dests,
                    conj_ins,
                    seed,
                    ff2,
                    hi2,
                    t,
                    tins,
                    f2,
                    s2,
                    (press_no + 1) as u64,
                    sat64(lows + 1 + count_level(trace, Pulse::Low)),
                    sat64(highs + count_level(trace, Pulse::High)),
                    (left - 1) as nat,
                    press_fuel,
                )
            },
        }
    }
}

/// The least common multiple of two machine words, as a mathematical value.
pub open spec fn lcm64(a: u64, b: u64) -> u64 {
    crate::util::lcm_spec(a as nat, b as nat) as u64
}

/// Folds the gap between the first two sightings of every twice-sighted
/// input into a least common multiple, left to right, starting from `acc`.
/// `None` when a product would overflow the machine word or a gap pairs two
/// zeros with the accumulator.
pub open spec fn gaps_lcm(
    first: Seq<Option<u64>>,
    second: Seq<Option<u64>>,
    k: int,
    acc: u64,
) -> Option<u64>
    decreases first.len() - k,
{
    if k < 0 || k >= first.len() {
        Some(acc)
    } else {
        match (first[k], second[k]) {
            (Some(f), Some(s)) => {
                if s < f {
                    None
                } else {
                    let g = (s - f) as u64;
                    if acc == 0 && g == 0 {
                        None
                    } else if acc * g > u64::MAX {
                        None
                    } else {
                        gaps_lcm(first, second, k + 1, lcm64(acc, g))
                    }
                }
            },
            _ => gaps_lcm(first, second, k + 1, acc),
        }
    }
}

/// At a valid index, the deep view of a table of boolean rows is the row's
/// own view.
proof fn lemma_deep_at_bools(v: &Vec<Vec<bool>>, k: int)
    requires
        0 <= k < v@.len(),
    ensures
        v.deep_view()[k] == v@[k]@,
{
    assert(v.deep_view()[k] =~= v@[k]@);
}

/// At a valid index, the deep view of a table of index rows is the row's own
/// view.
proof fn lemma_deep_at_usizes(v: &Vec<Vec<usize>>, k: int)
    requires
        0 <= k < v@.len(),
    ensures
        v.deep_view()[k] == v@[k]@,
{
    assert(v.deep_view()[k] =~= v@[k]@);
}

/// Copies a vector of booleans.
fn clone_bools(v: &Vec<bool>) -> (r: Vec<bool>)
    ensures
        r@ == v@,
{
    let r = v.clone();
    assert(r@ =~= v@);
    r
}

/// Every line parses as a module.
pub open spec fn lines_parse(lines: Seq<String>) -> bool {
    forall|i: int| 0 <= i < lines.len() ==> module_spec(#[trigger] lines[i]@) is Some
}

/// The kind a line's module has.
pub open spec fn line_kind(lines: Seq<String>, i: int) -> ModuleType {
    module_spec(lines[i]@).unwrap().0
}

/// The name a line's module has.
pub open spec fn line_name(lines: Seq<String>, i: int) -> Seq<char> {
    module_spec(lines[i]@).unwrap().1
}

/// The destination names a line's module has.
pub open spec fn line_dests(lines: Seq<String>, i: int) -> Seq<Seq<char>> {
    module_spec(lines[i]@).unwrap().2
}

/// No two lines name the same module.
pub open spec fn lines_distinct(lines: Seq<String>) -> bool {
    forall|i: int, j: int|
        0 <= i < j < lines.len() ==> line_name(lines, i) != line_name(lines, j)
}

/// Some line is the broadcaster.
pub open spec fn lines_have_broadcaster(lines: Seq<String>) -> bool {
    exists|i: int| 0 <= i < lines.len() && line_kind(lines, i) is Broadcast
}

/// The lines' module names, in order.
pub open spec fn src_names(lines: Seq<String>) -> Seq<Seq<char>> {
    Seq::new(lines.len(), |i: int| line_name(lines, i))
}

/// The lines' destination name lists, in order.
pub open spec fn all_dests(lines: Seq<String>) -> Seq<Seq<Seq<char>>> {
    Seq::new(lines.len(), |i: int| line_dests(lines, i))
}

/// The full node name table the lines build: module names, then every
/// destination name no line defines, in first-appearance order.
pub open spec fn all_names(lines: Seq<String>) -> Seq<Seq<char>> {
    intern_from(all_dests(lines), src_names(lines), 0, 0)
}

/// The node kinds the lines build.
pub open spec fn kinds_of(lines: Seq<String>) -> Seq<NodeKind> {
    Seq::new(
        all_names(lines).len(),
        |i: int|
            if i < lines.len() {
                kind_of(line_kind(lines, i))
            } else {
                NodeKind::Sink
            },
    )
}

/// The destination lists the lines build, resolved to node indices.
pub open spec fn dests_of(lines: Seq<String>) -> Seq<Seq<usize>> {
    Seq::new(
        all_names(lines).len(),
        |i: int|
            if i < lines.len() {
                Seq::new(
                    line_dests(lines, i).len(),
                    |j: int|
                        match idx_of_name(all_names(lines), line_dests(lines, i)[j], 0) {
                            Some(d) => d as usize,
                            None => 0,
                        },
                )
            } else {
                Seq::<usize>::empty()
            },
    )
}

/// The conjunction input lists the lines build.
pub open spec fn ins_of(lines: Seq<String>) -> Seq<Seq<usize>> {
    Seq::new(
        all_names(lines).len(),
        |t: int|
            if kinds_of(lines)[t] is Conjunction {
                inputs_upto(dests_of(lines), lines.len() as int, t as usize)
            } else {
                Seq::<usize>::empty()
            },
    )
}

/// The first line of broadcast kind, if any.
pub open spec fn first_broadcast(lines: Seq<String>, from: int) -> Option<int>
    decreases lines.len() - from,
{
    if from < 0 || from >= lines.len() {
        None
    } else if line_kind(lines, from) is Broadcast {
        Some(from)
    } else {
        first_broadcast(lines, from + 1)
    }
}

/// The broadcaster's node index.
pub open spec fn bc_of(lines: Seq<String>) -> int {
    first_broadcast(lines, 0).unwrap()
}

/// Every flip-flop starts off.
pub open spec fn ff0_of(lines: Seq<String>) -> Seq<bool> {
    Seq::new(all_names(lines).len(), |i: int| false)
}

/// Every conjunction starts with all recorded inputs low.
pub open spec fn hi0_of(lines: Seq<String>) -> Seq<Seq<bool>> {
    Seq::new(all_names(lines).len(), |t: int| Seq::new(ins_of(lines)[t].len(), |k: int| false))
}

/// The events one button press seeds, over the circuit views.
pub open spec fn seed_events(dd: Seq<Seq<usize>>, bc: int) -> Seq<Event> {
    events_to(dd[bc], bc as usize, Pulse::Low)
}

/// The state and cumulative counters after `n` quiescent button presses from
/// the given state; `None` as soon as one press does not quiesce within
/// `press_fuel`.
pub open spec fn presses_model(
    kinds: Seq<NodeKind>,
    dd: Seq<Seq<usize>>,
    ins: Seq<Seq<usize>>,
    bc: int,
    ff0: Seq<bool>,
    hi0: Seq<Seq<bool>>,
    n: nat,
    press_fuel: nat,
) -> Option<(Seq<bool>, Seq<Seq<bool>>, u64, u64, u64)>
    decreases n,
{
    if n == 0 {
        Some((ff0, hi0, 0u64, 0u64, 0u64))
    } else {
        match presses_model(kinds, dd, ins, bc, ff0, hi0, (n - 1) as nat, press_fuel) {
            None => None,
            Some((ff, hi, lows, highs, pushes)) => {
                match press_model(kinds, dd, ins, ff, hi, seed_events(dd, bc), press_fuel) {
                    None => None,
                    Some((ff2, hi2, trace)) => Some(
                        (
                            ff2,
                            hi2,
                            sat64(lows + 1 + count_level(trace, Pulse::Low)),
                            sat64(highs + count_level(trace, Pulse::High)),
                            sat64(pushes + 1),
                        ),
                    ),
                }
            },
        }
    }
}

/// A failed press never recovers: once the press sequence is `None`, it stays
/// `None` for every larger press count.
pub proof fn lemma_presses_none(
    kinds: Seq<NodeKind>,
    dd: Seq<Seq<usize>>,
    ins: Seq<Seq<usize>>,
    bc: int,
    ff0: Seq<bool>,
    hi0: Seq<Seq<bool>>,
    n: nat,
    m: nat,
    press_fuel: nat,
)
    requires
        n <= m,
        presses_model(kinds, dd, ins, bc, ff0, hi0, n, press_fuel) is None,
    ensures
        presses_model(kinds, dd, ins, bc, ff0, hi0, m, press_fuel) is None,
    decreases m,
{
    if m > n {
        lemma_presses_none(kinds, dd, ins, bc, ff0, hi0, n, (m - 1) as nat, press_fuel);
    }
}

/// The cycle analysis over the circuit views: find the sink named "rx", the
/// conjunction feeding it, run the cycle search, and fold the gaps.
pub open spec fn analysis_of(
    names: Seq<Seq<char>>,
    kinds: Seq<NodeKind>,
    dd: Seq<Seq<usize>>,
    ins: Seq<Seq<usize>>,
    bc: int,
    ff1: Seq<bool>,
    hi1: Seq<Seq<bool>>,
    lows1: u64,
    highs1: u64,
    pushes1: u64,
    max_presses: u64,
    press_fuel: nat,
) -> Option<u64> {
    match idx_of_name(names, "rx"@, 0) {
        None => None,
        Some(sink) => match feeder_index(kinds, dd, sink as usize, 0) {
            None => None,
            Some(t) => match search_loop(
                kinds,
                dd,
                ins,
                seed_events(dd, bc),
                ff1,
                hi1,
                t as usize,
                ins[t],
                Seq::new(ins[t].len(), |k: int| None::<u64>),
                Seq::new(ins[t].len(), |k: int| None::<u64>),
                pushes1,
                lows1,
                highs1,
                max_presses as nat,
                press_fuel,
            ) {
                None => None,
                Some((f2, s2, ff2, hi2, lows2, highs2, pushes2)) => gaps_lcm(f2, s2, 0, 1u64),
            },
        },
    }
}

/// The whole day on well-formed lines: the part-one counter product after
/// 1000 quiescent presses, and the part-two analysis value. `None` when a
/// press does not quiesce, the product leaves the machine word, or the
/// analysis fails.
pub open spec fn day_outcome(lines: Seq<String>) -> Option<(u64, u64)> {
    let names = all_names(lines);
    let kinds = kinds_of(lines);
    let dd = dests_of(lines);
    let ins = ins_of(lines);
    let bc = bc_of(lines);
    match presses_model(kinds, dd, ins, bc, ff0_of(lines), hi0_of(lines), 1000, usize::MAX as nat) {
        None => None,
        Some((ff1, hi1, lows, highs, pushes)) => {
            if lows * highs > u64::MAX {
                None
            } else {
                match analysis_of(
                    all_names(lines),
                    kinds,
                    dd,
                    ins,
                    bc,
                    ff1,
                    hi1,
                    lows,
                    highs,
                    pushes,
                    u64::MAX,
                    usize::MAX as nat,
                ) {
                    None => None,
                    Some(v) => Some(((lows * highs) as u64, v)),
                }
            }
        },
    }
}

/// In a table of distinct names, an index holding `s` is the index the name
/// search finds.
pub proof fn lemma_idx_of_pins(names: Seq<Seq<char>>, st: Seq<char>, d: int, from: int)
    requires
        forall|a: int, b: int| 0 <= a < b < names.len() ==> names[a] != names[b],
        0 <= from <= d < names.len(),
        names[d] == st,
    ensures
        idx_of_name(names, st, from) == Some(d),
    decreases d - from,
{
    if from < d {
        assert(names[from] != names[d]);
        lemma_idx_of_pins(names, st, d, from + 1);
    }
}

/// The least broadcast line is what the broadcast search finds.
pub proof fn lemma_first_broadcast_pins(lines: Seq<String>, bc: int, from: int)
    requires
        0 <= from <= bc < lines.len(),
        line_kind(lines, bc) is Broadcast,
        forall|i: int| 0 <= i < bc ==> !((#[trigger] line_kind(lines, i)) is Broadcast),
    ensures
        first_broadcast(lines, from) == Some(bc),
    decreases bc - from,
{
    if from < bc {
        lemma_first_broadcast_pins(lines, bc, from + 1);
    }
}

impl Instance {
    /// Whole-day driver: parses the module list, rejects duplicate module
    /// names and a missing broadcaster, presses the button 1000 times —
    /// requiring every wave to settle — and multiplies the cumulative low
    /// and high pulse counts (part one), then runs the cycle analysis toward
    /// the sink named "rx" (part two). It succeeds exactly when every line
    /// parses, the names are distinct, a broadcaster exists, and
    /// [`day_outcome`] yields the two answers; the rendered answers are those
    /// of the press model.
    #[verifier::loop_isolation(false)]
    pub fn solve(&self, lines: &Vec<String>) -> (r: Result<DayResult, String>)
        ensures
            r is Ok <==> lines_parse(lines@) && lines_distinct(lines@) && lines_have_broadcaster(
                lines@,
            ) && day_outcome(lines@) is Some,
            r matches Ok(dr) ==> dr.part1@ == crate::text::dec_chars(
                day_outcome(lines@).unwrap().0 as nat,
            ) && (dr.part2 matches Some(p2) && p2@ == crate::text::dec_chars(
                day_outcome(lines@).unwrap().1 as nat,
            )),
    {
        let mut modules: Vec<Module> = Vec::new();
        let mut i: usize = 0;
        while i < lines.len()
            invariant
                modules@.len() == i <= lines@.len(),
                forall|k: int| 0 <= k < i ==> module_spec(#[trigger] lines@[k]@) is Some,
                forall|k: int|
                    0 <= k < i ==> #[trigger] module_spec(lines@[k]@) == Some(
                        (
                            modules@[k].module_type,
                            modules@[k].source@,
                            modules@[k].destinations.deep_view(),
                        ),
                    ),
            decreases lines@.len() - i,
        {
            match Module::from_str(lines[i].as_str()) {
                Ok(m) => {
                    modules.push(m);
                },
                Err(e) => {
                    proof {
                        assert(module_spec(lines@[i as int]@) is None);
                        assert(!lines_parse(lines@));
                    }
                    return Err(e);
                },
            }
            i += 1;
        }
        // Module names must be distinct for the index table to be faithful.
        i = 0;
        while i < modules.len()
            invariant
                0 <= i <= modules@.len(),
                forall|a: int, b: int|
                    0 <= a < b < modules@.len() && a < i ==> modules@[a].source@
                        != modules@[b].source@,
            decreases modules@.len() - i,
        {
            let mut j: usize = i + 1;
            while j < modules.len()
                invariant
                    i < j <= modules@.len(),
                    forall|b: int| i < b < j ==> modules@[i as int].source@ != modules@[b].source@,
                decreases modules@.len() - j,
            {
                if str_eq(modules[i].source.as_str(), modules[j].source.as_str()) {
                    proof {
                        assert(line_name(lines@, i as int) == line_name(lines@, j as int));
                        assert(!lines_distinct(lines@));
                    }
                    return Err("duplicate module name".to_owned());
                }
                j += 1;
            }
            i += 1;
        }
        assert(lines_distinct(lines@)) by {
            assert(forall|a: int, b: int|
                0 <= a < b < lines@.len() ==> #[trigger] line_name(lines@, a)
                    != #[trigger] line_name(lines@, b));
        }
        // Exactly the broadcaster seeds every press.
        let mut has_broadcast = false;
        i = 0;
        while i < modules.len()
            invariant
                0 <= i <= modules@.len(),
                has_broadcast == exists|k: int|
                    0 <= k < i && (#[trigger] modules@[k].module_type) is Broadcast,
            decreases modules@.len() - i,
        {
            match modules[i].module_type {
                ModuleType::Broadcast => {
                    has_broadcast = true;
                },
                _ => {},
            }
            i += 1;
        }
        if !has_broadcast {
            proof {
                assert(forall|k: int|
                    0 <= k < lines@.len() ==> !((#[trigger] line_kind(lines@, k)) is Broadcast));
                assert(!lines_have_broadcaster(lines@));
            }
            return Err("no broadcaster module".to_owned());
        }
        proof {
            let w = choose|k: int|
                0 <= k < modules@.len() && (#[trigger] modules@[k].module_type) is Broadcast;
            assert(line_kind(lines@, w) is Broadcast);
            assert(lines_have_broadcaster(lines@));
        }
        let mut circuit = Circuit::from_modules(&modules);
        let ghost c0 = circuit;
        // Pin the built circuit's views to the line-level model.
        let ghost nv = all_names(lines@);
        let ghost kv = kinds_of(lines@);
        let ghost dv = dests_of(lines@);
        let ghost iv = ins_of(lines@);
        let ghost bcv = bc_of(lines@);
        let ghost ff0v = ff0_of(lines@);
        let ghost hi0v = hi0_of(lines@);
        let ghost pf = usize::MAX as nat;
        proof {
            assert(mod_names(modules@) =~= src_names(lines@));
            assert(mod_dests(modules@) =~= all_dests(lines@));
            assert(c0.names.deep_view() == nv);
            assert(c0.names@.len() == nv.len());
            assert(c0.kinds@ =~= kv);
            assert forall|i2: int|
                0 <= i2 < nv.len() implies #[trigger] c0.dests.deep_view()[i2] == dv[i2] by {
                lemma_deep_at_usizes(&c0.dests, i2);
                if i2 < lines@.len() {
                    assert(c0.dests@[i2]@.len() == line_dests(lines@, i2).len());
                    assert forall|j2: int|
                        0 <= j2 < c0.dests@[i2]@.len() implies #[trigger] c0.dests@[i2]@[j2]
                        == dv[i2][j2] by {
                        assert(c0.names.deep_view()[c0.dests@[i2]@[j2] as int]
                            == modules@[i2].destinations.deep_view()[j2]);
                        lemma_idx_of_pins(
                            nv,
                            line_dests(lines@, i2)[j2],
                            c0.dests@[i2]@[j2] as int,
                            0,
                        );
                    }
                    assert(c0.dests@[i2]@ =~= dv[i2]);
                } else {
                    assert(c0.dests@[i2]@.len() == 0);
                    assert(c0.dests@[i2]@ =~= dv[i2]);
                }
            }
            assert(c0.dests.deep_view() =~= dv);
            assert forall|t: int|
                0 <= t < nv.len() implies #[trigger] c0.conj_inputs.deep_view()[t] == iv[t] by {
                lemma_deep_at_usizes(&c0.conj_inputs, t);
                assert(c0.conj_inputs@[t]@ =~= iv[t]);
            }
            assert(c0.conj_inputs.deep_view() =~= iv);
            lemma_first_broadcast_pins(lines@, c0.broadcaster as int, 0);
            assert(bcv == c0.broadcaster as int);
            assert(c0.ff_on@ =~= ff0v);
            assert forall|t: int|
                0 <= t < nv.len() implies #[trigger] c0.conj_high.deep_view()[t] == hi0v[t] by {
                lemma_deep_at_bools(&c0.conj_high, t);
                assert(c0.conj_high@[t]@.len() == c0.conj_inputs@[t]@.len());
                assert(c0.conj_high@[t]@ =~= hi0v[t]);
            }
            assert(c0.conj_high.deep_view() =~= hi0v);
        }
        // 1000 presses, each wave required to settle.
        let mut presses: usize = 0;
        while presses < 1000
            invariant
                0 <= presses <= 1000,
                circuit.wf(),
                circuit.same_wiring(c0),
                presses_model(kv, dv, iv, bcv, ff0v, hi0v, presses as nat, pf) == Some(
                    (
                        circuit.ff_on@,
                        circuit.conj_high.deep_view(),
                        circuit.low_signals,
                        circuit.high_signals,
                        circuit.button_pushes,
                    ),
                ),
            decreases 1000 - presses,
        {
            let ghost pre = circuit;
            proof {
                lemma_deep_at_usizes(&pre.dests, pre.broadcaster as int);
                assert(init_wave(pre) =~= seed_events(dv, bcv));
            }
            let (q, done) = circuit.push_the_button(usize::MAX);
            if !done {
                proof {
                    assert(press_model(
                        kv,
                        dv,
                        iv,
                        pre.ff_on@,
                        pre.conj_high.deep_view(),
                        seed_events(dv, bcv),
                        pf,
                    ) is None);
                    assert(presses_model(kv, dv, iv, bcv, ff0v, hi0v, (presses + 1) as nat, pf)
                        is None);
                    lemma_presses_none(
                        kv,
                        dv,
                        iv,
                        bcv,
                        ff0v,
                        hi0v,
                        (presses + 1) as nat,
                        1000,
                        pf,
                    );
                    assert(day_outcome(lines@) is None);
                }
                return Err("a pulse wave does not settle".to_owned());
            }
            proof {
                let pm = press_model(
                    kv,
                    dv,
                    iv,
                    pre.ff_on@,
                    pre.conj_high.deep_view(),
                    seed_events(dv, bcv),
                    pf,
                );
                assert(pm is Some);
                assert(q@.take(q@.len() as int) =~= q@);
                assert(presses_model(kv, dv, iv, bcv, ff0v, hi0v, (presses + 1) as nat, pf)
                    == Some(
                    (
                        circuit.ff_on@,
                        circuit.conj_high.deep_view(),
                        circuit.low_signals,
                        circuit.high_signals,
                        circuit.button_pushes,
                    ),
                ));
            }
            presses += 1;
        }
        let ghost st = presses_model(kv, dv, iv, bcv, ff0v, hi0v, 1000, pf).unwrap();
        let part1 = match circuit.low_signals.checked_mul(circuit.high_signals) {
            Some(p) => p,
            None => {
                proof {
                    assert(st.2 * st.3 > u64::MAX);
                    assert(day_outcome(lines@) is None);
                }
                return Err("pulse product overflows".to_owned());
            },
        };
        let ghost pre2 = circuit;
        proof {
            lemma_deep_at_usizes(&pre2.dests, pre2.broadcaster as int);
            assert(init_wave(pre2) =~= seed_events(dv, bcv));
        }
        let part2 = match circuit.analyze(usize::MAX, u64::MAX) {
            Some(v) => v,
            None => {
                proof {
                    assert(analysis_of(
                        nv,
                        kv,
                        dv,
                        iv,
                        bcv,
                        pre2.ff_on@,
                        pre2.conj_high.deep_view(),
                        pre2.low_signals,
                        pre2.high_signals,
                        pre2.button_pushes,
                        u64::MAX,
                        pf,
                    ) is None);
                    assert(day_outcome(lines@) is None);
                }
                return Err("no cycle structure toward rx".to_owned());
            },
        };
        proof {
            assert(analysis_of(
                nv,
                kv,
                dv,
                iv,
                bcv,
                pre2.ff_on@,
                pre2.conj_high.deep_view(),
                pre2.low_signals,
                pre2.high_signals,
                pre2.button_pushes,
                u64::MAX,
                pf,
            ) == Some(part2));
            assert(day_outcome(lines@) == Some((part1, part2)));
        }
        Ok(
            DayResult {
                part1: crate::text::u64_to_string(part1),
                part2: Some(crate::text::u64_to_string(part2)),
            },
        )
    }
}

impl Day for Instance {
    fn run(&self, lines: Vec<String>) -> Result<DayResult, String> {
        self.solve(&lines)
    }
}

/// Character-by-character string equality.
pub fn str_eq(a: &str, b: &str) -> (r: bool)
    ensures
        r == (a@ == b@),
{
    let n = a.unicode_len();
    if n != b.unicode_len() {
        return false;
    }
    let mut j: usize = 0;
    while j < n
        invariant
            0 <= j <= n,
            n == a@.len() == b@.len(),
            forall|k: int| 0 <= k < j ==> a@[k] == b@[k],
        decreases n - j,
    {
        if a.get_char(j) != b.get_char(j) {
            return false;
        }
        j += 1;
    }
    assert(a@ =~= b@);
    true
}

} // verus!
