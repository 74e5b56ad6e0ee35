use rustak::bits::Game;
use rustak::game::{Dir, Loc, Move, MoveValidity, Piece};
use rustak::ptn;

#[test]
fn try_execute_makes_valid_moves_only() {
    let mut game = Game::new(5).unwrap();
    let mut wall = ptn::parse_move("Sa1").unwrap();
    assert_eq!(game.try_execute(&mut wall), MoveValidity::MustPlaceFlatFirstRound);
    assert_eq!(game.to_string(), "x5/x5/x5/x5/x5 1 1");
    assert_eq!(wall, Move::Place(Loc { x: 0, y: 0 }, Piece::Wall));
    let mut flat = ptn::parse_move("a1").unwrap();
    assert_eq!(game.try_execute(&mut flat), MoveValidity::Valid);
    assert_eq!(game.to_string(), "x5/x5/x5/x5/2,x4 2 1");
    assert_eq!(game.try_execute(&mut flat), MoveValidity::SquareOccupied);
    assert_eq!(game.to_string(), "x5/x5/x5/x5/2,x4 2 1");
    for text in ["e5", "Cc3", "Sc4"] {
        assert_eq!(game.try_execute(&mut ptn::parse_move(text).unwrap()), MoveValidity::Valid);
    }
    let mut smash = ptn::parse_move("c3+").unwrap();
    assert_eq!(game.try_execute(&mut smash), MoveValidity::Valid);
    assert_eq!(smash, Move::Move(Loc { x: 2, y: 2 }, Dir::Up, 1, [1, 0, 0, 0, 0, 0, 0], true));
    let hash = game.hash();
    let mut none = ptn::parse_move("c3+").unwrap();
    assert_eq!(game.try_execute(&mut none), MoveValidity::DontControlStack);
    assert_eq!(game.hash(), hash);
    assert_eq!(none, Move::Move(Loc { x: 2, y: 2 }, Dir::Up, 1, [1, 0, 0, 0, 0, 0, 0], false));
}

#[test]
fn a_clone_is_a_game_of_its_own() {
    let mut game = Game::new(5).unwrap();
    for text in ["a1", "e5", "Cc3", "Sc4"] {
        assert_eq!(game.try_execute(&mut ptn::parse_move(text).unwrap()), MoveValidity::Valid);
    }
    let copy = game.clone();
    assert_eq!(copy.to_string(), game.to_string());
    assert_eq!(copy.hash(), game.hash());
    assert_eq!(copy.moves(), game.moves());
    assert_eq!(game.try_execute(&mut ptn::parse_move("c3+").unwrap()), MoveValidity::Valid);
    assert_eq!(copy.to_string(), "x4,1/x2,2S,x2/x2,1C,x2/x5/2,x4 1 3");
    assert_eq!(game.to_string(), "x4,1/x2,21C,x2/x5/x5/2,x4 2 3");
    assert_ne!(copy.hash(), game.hash());
    assert!(format!("{:?}", copy).contains("Game"));
}

#[test]
fn moves_that_are_not_well_formed_are_judged_too() {
    let mut game = Game::new(5).unwrap();
    for text in ["a1", "e5"] {
        assert_eq!(game.try_execute(&mut ptn::parse_move(text).unwrap()), MoveValidity::Valid);
    }
    let origin = Loc { x: 4, y: 4 };
    let still = Move::Move(origin, Dir::Down, 0, [0, 0, 0, 0, 0, 0, 0], false);
    assert!(!still.is_well_formed());
    assert_eq!(game.validate(&still), MoveValidity::Valid);
    let heavy = Move::Move(origin, Dir::Down, 2, [255, 255, 0, 0, 0, 0, 0], false);
    assert_eq!(game.validate(&heavy), MoveValidity::CarryLimit);
    let thin = Move::Move(origin, Dir::Down, 2, [3, 0, 0, 0, 0, 0, 0], false);
    assert_eq!(game.validate(&thin), MoveValidity::NotEnoughPieces);
    let far = Move::Move(origin, Dir::Left, 255, [0, 0, 0, 0, 0, 0, 0], false);
    assert_eq!(game.validate(&far), MoveValidity::EndOutOfBounds);
    let off = Move::Move(Loc { x: 255, y: 255 }, Dir::Up, 255, [9, 9, 9, 9, 9, 9, 9], true);
    assert_eq!(game.validate(&off), MoveValidity::InvalidSquare);
}

#[test]
fn a_cursor_yields_the_moves_one_by_one() {
    let mut game = Game::new(5).unwrap();
    for text in ["a1", "e5", "Cc3", "Sc4", "b2", "c2"] {
        assert_eq!(game.try_execute(&mut ptn::parse_move(text).unwrap()), MoveValidity::Valid);
    }
    let all = game.moves();
    let mut cursor = rustak::movegen::Cursor::start();
    let mut seen = Vec::new();
    while let Some(m) = game.next_move(&mut cursor) {
        seen.push(m);
    }
    assert_eq!(seen, all);
    assert_eq!(game.next_move(&mut cursor), None);
    assert_eq!(game.next_move(&mut cursor), None);
    assert!(seen.contains(&ptn::parse_move("c3+").unwrap()));
    assert!(seen.contains(&ptn::parse_move("c3-").unwrap()));
    assert!(!seen.contains(&ptn::parse_move("c4-").unwrap()));
}
