//! Pulse-propagation scenarios.

use puzzles::day::Day;
use puzzles::day20::{Circuit, Event, Module, ModuleType, Pulse};

fn build(lines: &[&str]) -> Circuit {
    let modules: Vec<Module> = lines
        .iter()
        .map(|l| Module::from_str(l).unwrap())
        .collect();
    Circuit::from_modules(&modules)
}

#[test]
fn module_parse_exact() {
    let m = Module::from_str("%a -> b, c").unwrap();
    assert!(matches!(m.module_type, ModuleType::FlipFlop));
    assert_eq!(m.source, "a");
    assert_eq!(m.destinations, vec!["b".to_owned(), "c".to_owned()]);

    let b = Module::from_str("broadcaster -> a").unwrap();
    assert!(matches!(b.module_type, ModuleType::Broadcast));
    assert_eq!(b.source, "broadcaster");

    let c = Module::from_str("&inv -> out").unwrap();
    assert!(matches!(c.module_type, ModuleType::Conjunction));
    assert_eq!(c.source, "inv");
}

#[test]
fn module_parse_errors() {
    assert!(Module::from_str("no separator").is_err());
    assert!(Module::from_str("plain -> x").is_err());
    assert!(Module::from_str(" -> x").is_err());
}

#[test]
fn flip_flop_scenario() {
    // A single flip-flop `a` wired from the broadcaster with destination
    // `out`: the first press toggles it on and sends high to `out`, the
    // second toggles it off and sends low to `out`.
    let mut c = build(&["broadcaster -> a", "%a -> out"]);
    // Node indices follow module order, sinks appended: broadcaster 0, a 1,
    // out 2.
    let (events1, done1) = c.push_the_button(1000);
    assert!(done1);
    assert_eq!(
        events1,
        vec![
            Event { target: 1, source: 0, level: Pulse::Low },
            Event { target: 2, source: 1, level: Pulse::High },
        ]
    );
    let (events2, done2) = c.push_the_button(1000);
    assert!(done2);
    assert_eq!(
        events2,
        vec![
            Event { target: 1, source: 0, level: Pulse::Low },
            Event { target: 2, source: 1, level: Pulse::Low },
        ]
    );
}

#[test]
fn flip_flop_ignores_high_pulse() {
    // The flip-flop `b` receives only a high pulse (from `a` switching on)
    // and must not change state or emit anything: the wave ends right there.
    let mut c = build(&["broadcaster -> a", "%a -> b", "%b -> out"]);
    let (events, done) = c.push_the_button(1000);
    assert!(done);
    // broadcaster 0, a 1, b 2, out 3: low to a, high to b, then silence.
    assert_eq!(
        events,
        vec![
            Event { target: 1, source: 0, level: Pulse::Low },
            Event { target: 2, source: 1, level: Pulse::High },
        ]
    );
    // b is still off.
    assert_eq!(c.ff_on, vec![false, true, false, false]);
}

#[test]
fn conjunction_scenario() {
    // A conjunction `b` with two inputs, both recorded low: the first high
    // pulse from `a` sets that entry high, and since `c` remains low, `b`
    // emits high.
    let mut circuit = build(&[
        "broadcaster -> a",
        "%a -> b",
        "%c -> b",
        "&b -> out",
    ]);
    // Indices: broadcaster 0, a 1, c 2, b 3, out 4.
    assert_eq!(circuit.conj_high[3], vec![false, false]);
    let (events, done) = circuit.push_the_button(1000);
    assert!(done);
    assert_eq!(
        events,
        vec![
            Event { target: 1, source: 0, level: Pulse::Low },
            Event { target: 3, source: 1, level: Pulse::High },
            Event { target: 4, source: 3, level: Pulse::High },
        ]
    );
    assert_eq!(circuit.conj_high[3], vec![true, false]);
}

#[test]
fn button_seeds_fanout_first() {
    // The broadcaster fan-out is processed before anything else, one low
    // pulse per destination, attributed to the broadcaster.
    let mut c = build(&["broadcaster -> a, b, c", "%a -> b", "%b -> c", "%c -> a"]);
    let (events, done) = c.push_the_button(100000);
    assert!(done);
    assert_eq!(events[0], Event { target: 1, source: 0, level: Pulse::Low });
    assert_eq!(events[1], Event { target: 2, source: 0, level: Pulse::Low });
    assert_eq!(events[2], Event { target: 3, source: 0, level: Pulse::Low });
}

#[test]
fn thousand_presses_product_small_example() {
    let mut c = build(&[
        "broadcaster -> a, b, c",
        "%a -> b",
        "%b -> c",
        "%c -> inv",
        "&inv -> a",
    ]);
    for _ in 0..1000 {
        let (_, done) = c.push_the_button(1000000);
        assert!(done);
    }
    assert_eq!(c.low_signals, 8000);
    assert_eq!(c.high_signals, 4000);
    assert_eq!(c.low_signals * c.high_signals, 32000000);
}

#[test]
fn thousand_presses_product_second_example() {
    let mut c = build(&[
        "broadcaster -> a",
        "%a -> inv, con",
        "&inv -> b",
        "%b -> con",
        "&con -> output",
    ]);
    for _ in 0..1000 {
        let (_, done) = c.push_the_button(1000000);
        assert!(done);
    }
    assert_eq!(c.low_signals * c.high_signals, 11687500);
}

#[test]
fn replay_is_deterministic() {
    // Two circuits built from the same text produce identical event
    // sequences press after press; replaying from the same point stays in
    // step.
    let lines = [
        "broadcaster -> a",
        "%a -> inv, con",
        "&inv -> b",
        "%b -> con",
        "&con -> output",
    ];
    let mut c1 = build(&lines);
    let mut c2 = build(&lines);
    for _ in 0..3 {
        c1.push_the_button(100000);
        c2.push_the_button(100000);
    }
    for _ in 0..5 {
        let (e1, d1) = c1.push_the_button(100000);
        let (e2, d2) = c2.push_the_button(100000);
        assert!(d1 && d2);
        assert_eq!(e1, e2);
    }
    assert_eq!(c1.ff_on, c2.ff_on);
    assert_eq!(c1.conj_high, c2.conj_high);
    assert_eq!(c1.low_signals, c2.low_signals);
}

#[test]
fn analyze_without_sink_fails() {
    let mut c = build(&["broadcaster -> a", "%a -> out"]);
    assert_eq!(c.analyze(100000, 1000), None);
}

#[test]
fn analyze_simple_period() {
    // `a` toggles every press, so it sends high to `watch` on presses 1, 3,
    // 5, ...: the first two sightings are presses 1 and 3, the gap 2.
    let mut c = build(&["broadcaster -> a", "%a -> watch", "&watch -> rx"]);
    assert_eq!(c.analyze(100000, 1000), Some(2));
}

#[test]
fn whole_day_with_sink() {
    let lines: Vec<String> = vec![
        "broadcaster -> a".to_owned(),
        "%a -> watch".to_owned(),
        "&watch -> rx".to_owned(),
    ];
    let out = puzzles::day20::Instance.run(lines).unwrap();
    // Every press counts three low pulses and one high pulse, and the tracked
    // input fires on presses one and three: period two.
    assert_eq!(out.part1, "3000000");
    assert_eq!(out.part2, Some("2".to_owned()));
}

#[test]
fn whole_day_without_sink_fails() {
    let lines: Vec<String> = vec![
        "broadcaster -> a, b, c".to_owned(),
        "%a -> b".to_owned(),
        "%b -> c".to_owned(),
        "%c -> inv".to_owned(),
        "&inv -> a".to_owned(),
    ];
    assert!(puzzles::day20::Instance.run(lines).is_err());
}

