//! Scenarios for the smaller days, one per public surface.

use puzzles::day::Day;
use puzzles::day11::Galaxy;
use puzzles::day15::{hash, HashMap};
use puzzles::day16::{Direction, Grid, GridEntry, Mirror, Splitter};
use puzzles::day2::{Game, Handful};
use puzzles::day4::Card;
use puzzles::day6::Race;
use puzzles::day8::{Instruction, Network};
use puzzles::day9::History;
use puzzles::text::{i64_to_string, parse_u64, split_str, u64_to_string};

#[test]
fn text_round_trips() {
    assert_eq!(u64_to_string(0), "0");
    assert_eq!(u64_to_string(1234567890), "1234567890");
    assert_eq!(i64_to_string(-42), "-42");
    assert_eq!(i64_to_string(7), "7");
    assert_eq!(parse_u64("1234567890"), Some(1234567890));
    assert_eq!(parse_u64(""), None);
    assert_eq!(parse_u64("12a"), None);
    assert_eq!(parse_u64("99999999999999999999"), None);
    assert_eq!(split_str("a, b, c", ", "), vec!["a", "b", "c"]);
    assert_eq!(split_str("abc", ", "), vec!["abc"]);
    assert_eq!(split_str("a||b", "|"), vec!["a", "", "b"]);
}

#[test]
fn calibration_example() {
    let lines: Vec<String> = vec![
        "1abc2".to_owned(),
        "pqr3stu8vwx".to_owned(),
        "a1b2c3d4e5f".to_owned(),
        "treb7uchet".to_owned(),
    ];
    let out = puzzles::day1::Instance.run(lines).unwrap();
    assert_eq!(out.part1, "142");
}

#[test]
fn cube_game_example() {
    let h = Handful { red: 4, green: 0, blue: 3 };
    assert!(h.is_possible(12, 13, 14));
    assert!(!h.is_possible(3, 13, 14));
    let g = Game {
        id: 1,
        handfuls: vec![
            Handful { red: 4, green: 0, blue: 3 },
            Handful { red: 1, green: 2, blue: 6 },
            Handful { red: 0, green: 2, blue: 0 },
        ],
    };
    assert_eq!(g.power(), 48);
}

#[test]
fn scratchcard_scores() {
    let card = Card {
        id: 1,
        winners: vec![41, 48, 83, 86, 17],
        numbers: vec![83, 86, 6, 31, 17, 9, 48, 53],
    };
    assert_eq!(card.wins(), 4);
    assert_eq!(card.score(), 8);
    let blank = Card { id: 2, winners: vec![1], numbers: vec![2] };
    assert_eq!(blank.wins(), 0);
    assert_eq!(blank.score(), 0);
}

#[test]
fn race_wins_formula() {
    let race = Race { time: 7, distance: 9 };
    assert_eq!(race.wins(), 4);
    let long = Race { time: 30, distance: 200 };
    assert_eq!(long.wins(), 9);
}

#[test]
fn network_walks_to_target() {
    let lines: Vec<String> = vec![
        "AAA = (BBB, BBB)".to_owned(),
        "BBB = (AAA, ZZZ)".to_owned(),
        "ZZZ = (ZZZ, ZZZ)".to_owned(),
    ];
    let net = Network::new(&lines).unwrap();
    let ins = vec![Instruction::Left, Instruction::Left, Instruction::Right];
    assert_eq!(net.traverse(&ins, 100), Some(6));
    assert_eq!(
        net.step("AAA", Instruction::Left).as_deref(),
        Some("BBB")
    );
    assert_eq!(net.step("QQQ", Instruction::Left), None);
}

#[test]
fn history_predictions() {
    let h = History(vec![0, 3, 6, 9, 12, 15]);
    assert_eq!(h.predict_forward(), Some(18));
    assert_eq!(h.predict_backward(), Some(-3));
    let h2 = History(vec![10, 13, 16, 21, 30, 45]);
    assert_eq!(h2.predict_forward(), Some(68));
    assert_eq!(h2.predict_backward(), Some(5));
}

#[test]
fn galaxy_distances_example() {
    let lines: Vec<String> = vec![
        "...#......".to_owned(),
        ".......#..".to_owned(),
        "#.........".to_owned(),
        "..........".to_owned(),
        "......#...".to_owned(),
        ".#........".to_owned(),
        ".........#".to_owned(),
        "..........".to_owned(),
        ".......#..".to_owned(),
        "#...#.....".to_owned(),
    ];
    let g = Galaxy::new(&lines);
    assert_eq!(g.distances(2), Some(374));
    assert_eq!(g.distances(10), Some(1030));
    assert_eq!(g.distances(100), Some(8410));
}

#[test]
fn lens_hash_and_boxes() {
    assert_eq!(hash("HASH"), 52);
    assert_eq!(hash("rn"), 0);
    assert_eq!(hash("qp"), 1);
    let mut boxes = HashMap::new();
    boxes.insert("rn".to_owned(), 1);
    boxes.insert("cm".to_owned(), 2);
    boxes.insert("qp".to_owned(), 3);
    boxes.remove("qp");
    boxes.insert("pc".to_owned(), 4);
    boxes.insert("ot".to_owned(), 7);
    boxes.insert("ab".to_owned(), 5);
    boxes.remove("pc");
    boxes.insert("pc".to_owned(), 6);
    boxes.insert("ot".to_owned(), 7);
    assert_eq!(boxes.power(), Some(145));
}

#[test]
fn lens_sequence_example() {
    let lines: Vec<String> =
        vec!["rn=1,cm-,qp=3,cm=2,qp-,pc=4,ot=9,ab=5,pc-,pc=6,ot=7".to_owned()];
    let out = puzzles::day15::Instance.run(lines).unwrap();
    assert_eq!(out.part1, "1320");
    assert_eq!(out.part2, Some("145".to_owned()));
}

#[test]
fn beam_pieces() {
    assert_eq!(GridEntry::from_char('/'), Some(GridEntry::Mirror(Mirror::NorthEast)));
    assert_eq!(GridEntry::from_char('.'), None);
    assert_eq!(Direction::Right.next(&(1, 1)), (2, 1));
    let (d, c) = Mirror::NorthEast.next(Direction::Right, &(2, 1));
    assert_eq!(d, Direction::Up);
    assert_eq!(c, (2, 0));
    let split = Splitter::Vertical.next(Direction::Right, &(3, 3));
    assert_eq!(split.len(), 2);
    assert_eq!(split[0].0, Direction::Up);
    assert_eq!(split[1].0, Direction::Down);
}

#[test]
fn beam_small_grid() {
    let lines: Vec<String> = vec!["..".to_owned(), "..".to_owned()];
    let grid = Grid::from_lines(&lines);
    // A beam entering rightward at the top-left crosses the top row only.
    assert_eq!(grid.beam(&(Direction::Right, (1, 1))), 2);
    assert_eq!(grid.beam_all(), 2);
}

#[test]
fn day_results_render() {
    let lines: Vec<String> = vec![
        "Game 1: 3 blue, 4 red; 1 red, 2 green, 6 blue; 2 green".to_owned(),
        "Game 2: 1 blue, 2 green; 3 green, 4 blue, 1 red; 1 green, 1 blue".to_owned(),
        "Game 3: 8 green, 6 blue, 20 red; 5 blue, 4 red, 13 green; 5 green, 1 red".to_owned(),
        "Game 4: 1 green, 3 red, 6 blue; 3 green, 6 red; 3 green, 15 blue, 14 red".to_owned(),
        "Game 5: 6 red, 1 blue, 3 green; 2 blue, 1 red, 2 green".to_owned(),
    ];
    let out = puzzles::day2::Instance.run(lines).unwrap();
    assert_eq!(out.part1, "8");
    assert_eq!(out.part2, Some("2286".to_owned()));
}

#[test]
fn history_overflow_is_rejected() {
    let h = History(vec![i64::MIN, i64::MAX]);
    assert_eq!(h.predict_forward(), None);
    assert_eq!(h.predict_backward(), None);
}

