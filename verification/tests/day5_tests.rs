//! Range-splitting behaviour of the almanac rules.

use puzzles::day5::{CategoryMap, MapRange, Range};

#[test]
fn map_range_before() {
    let range = Range::from_length(1, 10);
    let map_range = MapRange {
        source: 100,
        destination: 10,
        range: 11,
    };

    let (unmapped, mapped) = map_range.map_range(&range);
    assert!(unmapped.len() == 1);
    assert!(mapped.is_none());
    assert_eq!(unmapped[0], range);
}

#[test]
fn map_range_after() {
    let range = Range::from_length(1000, 10);
    let map_range = MapRange {
        source: 100,
        destination: 10,
        range: 11,
    };

    let (unmapped, mapped) = map_range.map_range(&range);

    assert!(unmapped.len() == 1);
    assert!(mapped.is_none());
    assert_eq!(unmapped[0], range);
}

#[test]
fn map_range_over_start() {
    let range = Range::from_length(1, 10);
    let map_range = MapRange {
        source: 5,
        destination: 10,
        range: 11,
    };

    let (unmapped, mapped) = map_range.map_range(&range);
    assert!(unmapped.len() == 1);
    assert!(mapped.is_some());
    assert_eq!(unmapped[0], Range::from_length(1, 4));
    assert_eq!(mapped.unwrap(), Range::from_length(10, 6));
}

#[test]
fn map_range_over_end() {
    let range = Range::from_length(100, 10);
    let map_range = MapRange {
        source: 95,
        destination: 10,
        range: 10,
    };

    let (unmapped, mapped) = map_range.map_range(&range);
    assert!(unmapped.len() == 1);
    assert!(mapped.is_some());
    assert_eq!(unmapped[0], Range::from_length(105, 5));
    assert_eq!(mapped.unwrap(), Range::from_length(15, 5));
}

#[test]
fn map_range_over_all() {
    let range = Range::from_bounds(1, 20);
    let map_range = MapRange {
        source: 10,
        destination: 30,
        range: 5,
    };

    let (unmapped, mapped) = map_range.map_range(&range);
    assert!(unmapped.len() == 2);
    assert!(mapped.is_some());
    assert_eq!(unmapped[0], Range::from_bounds(1, 10));
    assert_eq!(unmapped[1], Range::from_bounds(15, 20));

    assert_eq!(mapped.unwrap(), Range::from_length(30, 5));
}

#[test]
fn map_range_within() {
    let range = Range::from_length(15, 5);
    let map_range = MapRange {
        source: 1,
        destination: 31,
        range: 100,
    };

    let (unmapped, mapped) = map_range.map_range(&range);
    assert!(unmapped.len() == 0);
    assert!(mapped.is_some());

    assert_eq!(mapped.unwrap(), Range::from_length(45, 5));
}

#[test]
fn map_layer_keeps_length() {
    let layer = CategoryMap {
        to: "soil".to_owned(),
        ranges: vec![
            MapRange {
                source: 10,
                destination: 110,
                range: 5,
            },
            MapRange {
                source: 20,
                destination: 220,
                range: 5,
            },
        ],
    };
    let out = layer.map_range(Range::from_length(0, 30));
    let total: u64 = out.iter().map(|r| r.length).sum();
    assert_eq!(total, 30);
}

#[test]
fn range_bounds_round_trip() {
    let r = Range::from_bounds(7, 19);
    assert_eq!(r.from, 7);
    assert_eq!(r.length, 12);
    assert_eq!(r.to_excl(), 19);
}

#[test]
fn try_map_hits_and_misses() {
    let rule = MapRange {
        source: 50,
        destination: 70,
        range: 3,
    };
    assert_eq!(rule.try_map(50), Some(70));
    assert_eq!(rule.try_map(52), Some(72));
    assert_eq!(rule.try_map(53), None);
    assert_eq!(rule.try_map(49), None);
}
