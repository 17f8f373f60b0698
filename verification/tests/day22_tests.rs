//! Falling blocks.

use puzzles::day22::{Block, Blocks, Coord};

#[test]
fn drop_single_horizontal_block() {
    let block = Block {
        start: Coord { x: 0, y: 0, z: 10 },
        end: Coord { x: 1, y: 0, z: 10 },
    };

    assert!(block.coords().len() == 2);
    assert!(block.coords().contains(&Coord { x: 0, y: 0, z: 10 }));
    assert!(block.coords().contains(&Coord { x: 1, y: 0, z: 10 }));

    let mut blocks = Blocks::new(vec![block]);
    blocks.to_bottom();

    assert_eq!(
        blocks.0[0],
        Block {
            start: Coord { x: 0, y: 0, z: 1 },
            end: Coord { x: 1, y: 0, z: 1 },
        }
    );
}

#[test]
fn drop_single_vertical_block() {
    let block = Block {
        start: Coord { x: 0, y: 0, z: 5 },
        end: Coord { x: 0, y: 0, z: 10 },
    };

    assert!(block.coords().len() == 6);

    let mut blocks = Blocks::new(vec![block]);
    blocks.to_bottom();

    assert_eq!(
        blocks.0[0],
        Block {
            start: Coord { x: 0, y: 0, z: 1 },
            end: Coord { x: 0, y: 0, z: 6 },
        }
    );
}

#[test]
fn block_rests_on_another() {
    let lower = Block {
        start: Coord { x: 0, y: 0, z: 1 },
        end: Coord { x: 2, y: 0, z: 1 },
    };
    let upper = Block {
        start: Coord { x: 1, y: 0, z: 9 },
        end: Coord { x: 1, y: 0, z: 9 },
    };
    let mut pile = Blocks::new(vec![lower, upper]);
    pile.to_bottom();
    assert_eq!(pile.0[0], lower);
    assert_eq!(
        pile.0[1],
        Block {
            start: Coord { x: 1, y: 0, z: 2 },
            end: Coord { x: 1, y: 0, z: 2 },
        }
    );
}

#[test]
fn block_parses_and_rejects() {
    let b = Block::from_str("1,2,3~4,5,6").unwrap();
    assert_eq!(b.start, Coord { x: 1, y: 2, z: 3 });
    assert_eq!(b.end, Coord { x: 4, y: 5, z: 6 });
    assert!(Block::from_str("1,2~3,4").is_err());
    assert!(Block::from_str("4,5,6~1,2,3").is_err());
    assert!(Block::from_str("1,2,0~1,2,0").is_err());
    assert!(Block::from_str("a,b,c~d,e,f").is_err());
}

#[test]
fn disintegrate_example() {
    // The well-known seven-block pile: five blocks are safe to remove, and
    // the cascade over the other two drops seven blocks in total.
    let lines: Vec<String> = vec![
        "1,0,1~1,2,1".to_owned(),
        "0,0,2~2,0,2".to_owned(),
        "0,2,3~2,2,3".to_owned(),
        "0,0,4~0,2,4".to_owned(),
        "2,0,5~2,2,5".to_owned(),
        "0,1,6~2,1,6".to_owned(),
        "1,1,8~1,1,9".to_owned(),
    ];
    let blocks: Vec<Block> = lines
        .iter()
        .map(|l| Block::from_str(l).unwrap())
        .collect();
    let mut pile = Blocks::new(blocks);
    let (part1, part2) = pile.try_disintegrate();
    assert_eq!(part1, 5);
    assert_eq!(part2, 7);
}
