//! Hand typing and winnings.

use puzzles::day7::{total_winnings, Hand};

#[test]
fn five_of_a_kind() {
    assert!(Hand::from_str("JJJJJ 0").unwrap().with_jokers().type_rank() == 6);
    assert!(Hand::from_str("JJJJA 0").unwrap().with_jokers().type_rank() == 6);
    assert!(Hand::from_str("JJAAJ 0").unwrap().with_jokers().type_rank() == 6);
    assert!(Hand::from_str("AJAJA 0").unwrap().with_jokers().type_rank() == 6);
    assert!(Hand::from_str("AAAAJ 0").unwrap().with_jokers().type_rank() == 6);
    assert!(Hand::from_str("AAAAA 0").unwrap().with_jokers().type_rank() == 6);
}

#[test]
fn hand_type_ranks() {
    assert_eq!(Hand::from_str("23456 0").unwrap().type_rank(), 0);
    assert_eq!(Hand::from_str("A23A4 0").unwrap().type_rank(), 1);
    assert_eq!(Hand::from_str("23432 0").unwrap().type_rank(), 2);
    assert_eq!(Hand::from_str("TTT98 0").unwrap().type_rank(), 3);
    assert_eq!(Hand::from_str("23332 0").unwrap().type_rank(), 4);
    assert_eq!(Hand::from_str("AA8AA 0").unwrap().type_rank(), 5);
    assert_eq!(Hand::from_str("AAAAA 0").unwrap().type_rank(), 6);
}

#[test]
fn winnings_of_example_hands() {
    let hands: Vec<Hand> = vec![
        Hand::from_str("32T3K 765").unwrap(),
        Hand::from_str("T55J5 684").unwrap(),
        Hand::from_str("KK677 28").unwrap(),
        Hand::from_str("KTJJT 220").unwrap(),
        Hand::from_str("QQQJA 483").unwrap(),
    ];
    assert_eq!(total_winnings(&hands), Some(6440));
    let jokered: Vec<Hand> = hands.iter().map(|h| h.with_jokers()).collect();
    assert_eq!(total_winnings(&jokered), Some(5905));
}

#[test]
fn hand_parse_errors() {
    assert!(Hand::from_str("AAAAA").is_err());
    assert!(Hand::from_str("AAAZA 1").is_err());
    assert!(Hand::from_str("AAAAA x").is_err());
}

#[test]
fn card_counts_are_exact() {
    let h = Hand::from_str("AAKKJ 1").unwrap();
    let counts = h.card_counts();
    assert_eq!(counts.len(), 3);
    for (_, n) in counts.iter() {
        assert!(*n == 1 || *n == 2);
    }
}
