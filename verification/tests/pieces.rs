use rustak::game::{Dir, Loc, Move, Piece, Player, Reserves};
use rustak::tables::{drop_counts, DropCount, DropTables};

#[test]
fn opponent_is_the_other_player() {
    assert_eq!(Player::White.opponent(), Player::Black);
    assert_eq!(Player::Black.opponent(), Player::White);
    assert_eq!(Player::White.opponent().opponent(), Player::White);
}

#[test]
fn offset_steps_in_the_four_directions() {
    let loc = Loc { x: 2, y: 3 };
    assert_eq!(loc.offset(Dir::Up, 1), Loc { x: 2, y: 4 });
    assert_eq!(loc.offset(Dir::Down, 3), Loc { x: 2, y: 0 });
    assert_eq!(loc.offset(Dir::Left, 2), Loc { x: 0, y: 3 });
    assert_eq!(loc.offset(Dir::Right, 5), Loc { x: 7, y: 3 });
    assert_eq!(loc.offset(Dir::Right, 0), loc);
}

#[test]
fn offset_wraps_around() {
    let loc = Loc { x: 0, y: 250 };
    assert_eq!(loc.offset(Dir::Left, 1), Loc { x: 255, y: 250 });
    assert_eq!(loc.offset(Dir::Up, 10), Loc { x: 0, y: 4 });
    assert_eq!(loc.offset(Dir::Down, 251), Loc { x: 0, y: 255 });
    assert_eq!(Loc { x: 255, y: 0 }.offset(Dir::Right, 1), Loc { x: 0, y: 0 });
}

#[test]
fn reserves_by_board_size() {
    let table = [(3, 10, 0), (4, 15, 0), (5, 21, 1), (6, 30, 1), (7, 40, 2), (8, 50, 2)];
    for (size, flats, caps) in table {
        let r = Reserves::new(size).unwrap();
        assert_eq!(r.count(Piece::Flat), flats);
        assert_eq!(r.count(Piece::Wall), flats);
        assert_eq!(r.count(Piece::Cap), caps);
        assert!(!r.empty());
    }
    assert!(Reserves::new(0).is_none());
    assert!(Reserves::new(2).is_none());
    assert!(Reserves::new(9).is_none());
}

#[test]
fn reserves_count_stones_out_and_in() {
    let mut r = Reserves::new(5).unwrap();
    r.remove(Piece::Flat);
    assert_eq!(r.count(Piece::Flat), 20);
    r.remove(Piece::Wall);
    assert_eq!(r.count(Piece::Flat), 19);
    assert_eq!(r.count(Piece::Cap), 1);
    r.remove(Piece::Cap);
    assert_eq!(r.count(Piece::Cap), 0);
    assert_eq!(r.count(Piece::Flat), 19);
    r.add(Piece::Cap);
    r.add(Piece::Flat);
    r.add(Piece::Wall);
    assert_eq!(r.count(Piece::Flat), 21);
    assert_eq!(r.count(Piece::Cap), 1);
}

#[test]
fn reserves_are_empty_when_both_counts_are_zero() {
    let mut r = Reserves::new(3).unwrap();
    for _ in 0..9 {
        r.remove(Piece::Flat);
        assert!(!r.empty());
    }
    r.remove(Piece::Flat);
    assert!(r.empty());
    let mut with_cap = Reserves::new(5).unwrap();
    for _ in 0..21 {
        with_cap.remove(Piece::Flat);
    }
    assert!(!with_cap.empty());
    with_cap.remove(Piece::Cap);
    assert!(with_cap.empty());
}

#[test]
fn a_slide_is_well_formed_when_it_covers_a_square_and_drops_on_each() {
    let origin = Loc { x: 0, y: 0 };
    assert!(Move::Place(origin, Piece::Cap).is_well_formed());
    assert!(Move::Move(origin, Dir::Up, 1, [1, 0, 0, 0, 0, 0, 0], false).is_well_formed());
    assert!(Move::Move(origin, Dir::Up, 3, [1, 2, 3, 0, 0, 0, 0], true).is_well_formed());
    assert!(Move::Move(origin, Dir::Up, 7, [1, 1, 1, 1, 1, 1, 1], false).is_well_formed());
    assert!(Move::Move(origin, Dir::Up, 9, [1, 1, 1, 1, 1, 1, 1], false).is_well_formed());
    assert!(!Move::Move(origin, Dir::Up, 0, [1, 0, 0, 0, 0, 0, 0], false).is_well_formed());
    assert!(!Move::Move(origin, Dir::Up, 2, [1, 0, 0, 0, 0, 0, 0], false).is_well_formed());
    assert!(!Move::Move(origin, Dir::Up, 2, [0, 1, 0, 0, 0, 0, 0], false).is_well_formed());
    assert!(!Move::Move(origin, Dir::Up, 8, [1, 1, 1, 1, 1, 1, 0], false).is_well_formed());
}

fn entry(range: u8, drops: &[u8]) -> DropCount {
    let mut all = [0u8; 7];
    all[..drops.len()].copy_from_slice(drops);
    DropCount(range, all)
}

#[test]
fn drop_counts_list_every_way_in_order() {
    assert_eq!(
        drop_counts(3, 2, false),
        vec![
            entry(1, &[1]),
            entry(1, &[2]),
            entry(1, &[3]),
            entry(2, &[1, 1]),
            entry(2, &[1, 2]),
            entry(2, &[2, 1]),
        ]
    );
    assert_eq!(drop_counts(1, 1, false), vec![entry(1, &[1])]);
    assert_eq!(drop_counts(5, 0, false), vec![]);
    assert_eq!(drop_counts(0, 0, true), vec![]);
}

#[test]
fn drop_counts_leave_one_stone_on_a_wall() {
    assert_eq!(
        drop_counts(3, 2, true),
        vec![entry(1, &[1]), entry(1, &[2]), entry(1, &[3]), entry(2, &[1, 1]), entry(2, &[2, 1])]
    );
    assert_eq!(drop_counts(1, 1, true), vec![entry(1, &[1])]);
    assert_eq!(drop_counts(2, 2, true), vec![entry(1, &[1]), entry(1, &[2]), entry(2, &[1, 1])]);
    assert_eq!(drop_counts(3, 1, true), vec![entry(1, &[1])]);
}

#[test]
fn drop_counts_have_the_expected_sizes() {
    let five = drop_counts(5, 4, false);
    assert_eq!(five.len(), 30);
    assert_eq!(five[27], entry(4, &[1, 1, 2, 1]));
    assert_eq!(five[28], entry(4, &[1, 2, 1, 1]));
    assert_eq!(five[29], entry(4, &[2, 1, 1, 1]));
    let eight = drop_counts(8, 7, false);
    assert_eq!(eight.len(), 254);
    assert_eq!(eight[253], entry(7, &[2, 1, 1, 1, 1, 1, 1]));
    for DropCount(range, drops) in eight {
        assert!(1 <= range && range <= 7);
        let sum: u32 = drops.iter().map(|d| *d as u32).sum();
        assert!(sum <= 8);
        for (i, d) in drops.iter().enumerate() {
            assert_eq!(*d == 0, i >= range as usize);
        }
    }
}

#[test]
fn the_stored_tables_are_the_computed_ones() {
    let tables = DropTables::new();
    for mobile in 0..9 {
        for dist in 0..8 {
            for smash in [false, true] {
                assert_eq!(*tables.get(mobile, dist, smash), drop_counts(mobile, dist, smash));
            }
        }
    }
}
