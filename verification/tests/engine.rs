use rustak::bits::Game;
use rustak::game::{Dir, Loc, Move, MoveValidity, Piece, Player, Winner};
use rustak::ptn;

fn mv(text: &str) -> Move {
    match ptn::parse_move(text) {
        Some(m) => m,
        None => panic!("no move: {}", text),
    }
}

fn play(size: usize, moves: &[&str]) -> Game {
    let mut game = Game::new(size).unwrap();
    for text in moves {
        let mut m = mv(text);
        assert!(m.is_well_formed());
        assert_eq!(game.validate(&m), MoveValidity::Valid, "{}", text);
        game.execute(&mut m);
    }
    game
}

fn texts(moves: &[Move]) -> Vec<String> {
    moves.iter().map(ptn::to_string).collect()
}

const FIVE_STACK: [&str; 10] = ["a1", "a2", "b1", "b2", "b1<", "b2<", "b1", "2a2-", "b1<", "b2"];

const MIDGAME: [&str; 22] = [
    "c3", "b4", "Se5", "Ca2", "e5<", "a2+", "Ce3", "c3>", "Sd4", "Sc5", "e3<", "Sd2", "d3+",
    "d2-", "e3", "c2", "b3", "Se2", "Sc3", "c2<", "2d4-", "b2-",
];

#[test]
fn new_accepts_sizes_three_to_eight_only() {
    for size in 0..3 {
        assert!(Game::new(size).is_none());
    }
    for size in 3..9 {
        assert!(Game::new(size).is_some());
        assert!(rustak::game::new(size).is_some());
    }
    assert!(Game::new(9).is_none());
    assert!(rustak::game::new(2).is_none());
}

#[test]
fn a_new_game_is_empty_with_white_to_move_in_round_one() {
    let game = Game::new(5).unwrap();
    assert_eq!(game.to_string(), "x5/x5/x5/x5/x5 1 1");
    assert_eq!(game.round(), 1);
    assert_eq!(game.cur_player(), Player::White);
    assert_eq!(game.reserves(Player::White).count(Piece::Flat), 21);
    assert_eq!(game.reserves(Player::Black).count(Piece::Cap), 1);
    assert_eq!(game.status(), None);
    assert_eq!(Game::new(3).unwrap().to_string(), "x3/x3/x3 1 1");
    assert_eq!(Game::new(8).unwrap().to_string(), "x8/x8/x8/x8/x8/x8/x8/x8 1 1");
}

#[test]
fn hashes_of_new_games_are_pinned() {
    assert_eq!(Game::new(5).unwrap().hash(), 0xff64fc069ea6459f);
    assert_eq!(Game::new(3).unwrap().hash(), 0x7e77c095fe530861);
    assert_eq!(Game::new(8).unwrap().hash(), 0x5aa57fe05413c105);
}

#[test]
fn first_round_places_the_opponents_flats() {
    let game = play(5, &["a1", "e5"]);
    assert_eq!(game.to_string(), "x4,1/x5/x5/x5/2,x4 1 2");
    assert_eq!(game.cur_player(), Player::White);
    assert_eq!(game.round(), 2);
    assert_eq!(game.status(), None);
    assert_eq!(game.reserves(Player::White).count(Piece::Flat), 20);
    assert_eq!(game.reserves(Player::Black).count(Piece::Flat), 20);
    assert_eq!(game.hash(), 0x8d3a24fcf03d0956);
}

#[test]
fn a_column_of_white_flats_is_a_road_for_white() {
    let before = play(5, &["e1", "a1", "a2", "e2", "a3", "e3", "a4", "e4"]);
    assert_eq!(before.to_string(), "x5/1,x3,2/1,x3,2/1,x3,2/1,x3,2 1 5");
    assert_eq!(before.status(), None);
    let game = play(5, &["e1", "a1", "a2", "e2", "a3", "e3", "a4", "e4", "a5"]);
    assert_eq!(game.to_string(), "1,x4/1,x3,2/1,x3,2/1,x3,2/1,x3,2 2 5");
    assert_eq!(game.status(), Some(Winner::Road(Player::White)));
}

#[test]
fn a_column_of_black_flats_is_a_road_for_black() {
    let game = play(5, &["a1", "e1", "e2", "a2", "e3", "a3", "d1", "a4", "d2", "a5"]);
    assert_eq!(game.to_string(), "2,x4/2,x4/2,x3,1/2,x2,1,1/2,x2,1,1 1 6");
    assert_eq!(game.status(), Some(Winner::Road(Player::Black)));
}

#[test]
fn a_row_of_flats_is_a_road_too() {
    let game = play(3, &["a3", "a1", "b1", "b3", "c1"]);
    assert_eq!(game.status(), Some(Winner::Road(Player::White)));
}

#[test]
fn a_wall_does_not_count_for_a_road() {
    let game = play(3, &["a3", "a1", "b1", "b3", "Sc1"]);
    assert_eq!(game.status(), None);
}

#[test]
fn a_capstone_flattens_a_wall_and_undo_stands_it_up_again() {
    let mut game = play(5, &["e5", "a1", "Cc3", "Sc4"]);
    let before_text = game.to_string();
    let before_hash = game.hash();
    assert_eq!(before_text, "x4,2/x2,2S,x2/x2,1C,x2/x5/1,x4 1 3");
    assert_eq!(before_hash, 0x601adeb1cbc9b1c5);
    let mut m = mv("c3+");
    assert_eq!(m, Move::Move(Loc { x: 2, y: 2 }, Dir::Up, 1, [1, 0, 0, 0, 0, 0, 0], false));
    assert_eq!(game.validate(&m), MoveValidity::Valid);
    game.execute(&mut m);
    assert_eq!(m, Move::Move(Loc { x: 2, y: 2 }, Dir::Up, 1, [1, 0, 0, 0, 0, 0, 0], true));
    assert_eq!(game.to_string(), "x4,2/x2,21C,x2/x5/x5/1,x4 2 3");
    assert_eq!(game.hash(), 0xdfee7925d061a74);
    assert_eq!(game.status(), None);
    game.undo(&m);
    assert_eq!(game.to_string(), before_text);
    assert_eq!(game.hash(), before_hash);
}

#[test]
fn a_slide_onto_a_flat_does_not_set_the_smash_flag() {
    let mut game = play(5, &["e5", "a1", "c3", "c4"]);
    let mut m = mv("c3+");
    game.execute(&mut m);
    assert_eq!(m, Move::Move(Loc { x: 2, y: 2 }, Dir::Up, 1, [1, 0, 0, 0, 0, 0, 0], false));
    assert_eq!(game.to_string(), "x4,2/x2,21,x2/x5/x5/1,x4 2 3");
}

#[test]
fn white_wins_by_flats_when_its_reserves_are_used_up() {
    let moves = [
        "b3", "b1", "a3", "b2", "c3", "b3<", "c1", "2a3>", "a2", "2b3>", "c2", "3c3-12", "a1",
        "a3", "c3", "b2>", "b2", "c2<", "b3",
    ];
    let mut game = Game::new(3).unwrap();
    for text in moves {
        assert_eq!(game.status(), None);
        let mut m = mv(text);
        assert_eq!(game.validate(&m), MoveValidity::Valid, "{}", text);
        game.execute(&mut m);
    }
    assert_eq!(game.to_string(), "2,1,1/1,12,11/1,1,112 2 10");
    assert!(game.reserves(Player::White).empty());
    assert_eq!(game.reserves(Player::Black).count(Piece::Flat), 7);
    assert_eq!(game.status(), Some(Winner::Flat(Player::White)));
}

#[test]
fn a_full_board_with_equal_flats_is_a_draw() {
    let game = play(
        3,
        &["c1", "a1", "Sc2", "Sb2", "c3", "b2-", "a2", "b1+", "Sa3", "b1", "a3>", "a3"],
    );
    assert_eq!(game.to_string(), "2,1S,1/1,2S,1S/1,2,2 1 7");
    assert_eq!(game.status(), Some(Winner::Draw));
}

#[test]
fn the_mover_wins_when_a_move_makes_a_road_for_both() {
    let moves = [
        "b2", "c2", "b4", "b1", "b4-", "d4", "Sc4", "Sd3", "c2-", "d3<", "c4>", "a1", "c2",
        "Sa3", "a2", "b4", "c4", "d1", "a2>", "d1<", "2b2-", "2c1+", "3b1>12", "2c2-", "a2",
        "2c1<", "b3-", "c3>",
    ];
    let mut game = play(4, &moves);
    assert_eq!(game.status(), None);
    assert_eq!(game.cur_player(), Player::White);
    let mut last = mv("d1+");
    assert_eq!(game.validate(&last), MoveValidity::Valid);
    game.execute(&mut last);
    assert_eq!(game.to_string(), "x,2,1,21S/2S,x2,2S/1,1,1,1/2,12,2,2 2 15");
    assert_eq!(game.status(), Some(Winner::Road(Player::White)));
}

#[test]
fn status_is_the_same_when_asked_twice() {
    let game = play(5, &MIDGAME);
    assert_eq!(game.status(), game.status());
    let won = play(5, &["e1", "a1", "a2", "e2", "a3", "e3", "a4", "e4", "a5"]);
    assert_eq!(won.status(), won.status());
}

#[test]
fn only_flats_may_be_placed_in_round_one() {
    let game = Game::new(5).unwrap();
    assert_eq!(game.validate(&mv("Sa1")), MoveValidity::MustPlaceFlatFirstRound);
    assert_eq!(game.validate(&mv("Ca1")), MoveValidity::MustPlaceFlatFirstRound);
    assert_eq!(game.validate(&mv("a1")), MoveValidity::Valid);
    let second = play(5, &["a1"]);
    assert_eq!(second.validate(&mv("Sb1")), MoveValidity::MustPlaceFlatFirstRound);
    assert_eq!(second.validate(&mv("a1+")), MoveValidity::MustPlaceFlatFirstRound);
}

#[test]
fn placements_are_checked_for_square_and_reserves() {
    let game = play(5, &["a1", "e5"]);
    assert_eq!(game.validate(&Move::Place(Loc { x: 5, y: 0 }, Piece::Flat)), MoveValidity::InvalidSquare);
    assert_eq!(game.validate(&Move::Place(Loc { x: 0, y: 5 }, Piece::Flat)), MoveValidity::InvalidSquare);
    assert_eq!(game.validate(&mv("a1")), MoveValidity::SquareOccupied);
    assert_eq!(game.validate(&mv("Cb1")), MoveValidity::Valid);
    assert_eq!(game.validate(&mv("Sb1")), MoveValidity::Valid);
    let no_caps = play(4, &["a1", "d4"]);
    assert_eq!(no_caps.validate(&mv("Cb1")), MoveValidity::NotEnough(Piece::Cap));
    let used = play(5, &["a1", "e5", "Cc3", "c4"]);
    assert_eq!(used.validate(&mv("Cd1")), MoveValidity::NotEnough(Piece::Cap));
}

#[test]
fn white_without_flats_cannot_place_one() {
    let moves = [
        "b3", "b1", "a3", "b2", "c3", "b3<", "c1", "2a3>", "a2", "2b3>", "c2", "3c3-12", "a1",
        "a3", "c3", "b2>", "b2", "c2<", "b3", "a3-",
    ];
    let game = play(3, &moves);
    assert_eq!(game.cur_player(), Player::White);
    assert_eq!(game.validate(&mv("a3")), MoveValidity::NotEnough(Piece::Flat));
    assert_eq!(game.validate(&mv("Sa3")), MoveValidity::NotEnough(Piece::Wall));
    assert_eq!(game.validate(&mv("a1")), MoveValidity::SquareOccupied);
}

#[test]
fn slides_are_checked_for_control_and_bounds() {
    let game = play(5, &["a1", "e5"]);
    let up = |x: u8, y: u8, dir: Dir, range: u8| Move::Move(Loc { x, y }, dir, range, [1, 1, 1, 1, 1, 1, 1], false);
    assert_eq!(game.validate(&up(7, 0, Dir::Up, 1)), MoveValidity::InvalidSquare);
    assert_eq!(game.validate(&mv("b2+")), MoveValidity::DontControlStack);
    assert_eq!(game.validate(&mv("a1+")), MoveValidity::DontControlStack);
    assert_eq!(game.validate(&mv("e5+")), MoveValidity::EndOutOfBounds);
    assert_eq!(game.validate(&mv("e5>")), MoveValidity::EndOutOfBounds);
    assert_eq!(game.validate(&mv("e5-")), MoveValidity::Valid);
    assert_eq!(game.validate(&mv("e5<")), MoveValidity::Valid);
    assert_eq!(game.validate(&up(4, 4, Dir::Down, 200)), MoveValidity::CarryLimit);
    let far = Move::Move(Loc { x: 4, y: 4 }, Dir::Down, 200, [1, 0, 0, 0, 0, 0, 0], false);
    assert_eq!(game.validate(&far), MoveValidity::EndOutOfBounds);
    assert_eq!(game.validate(&mv("2e5-")), MoveValidity::NotEnoughPieces);
    assert_eq!(game.validate(&mv("2e5-11")), MoveValidity::NotEnoughPieces);
}

#[test]
fn slides_are_checked_for_walls_and_capstones() {
    let game = play(6, &["a1", "f6", "Cc3", "Cd4", "c3+"]);
    assert_eq!(game.to_string(), "x5,1/x6/x2,1C,2C,x2/x6/x6/2,x5 2 3");
    assert_eq!(game.hash(), 0x85f97e7ab45312b3);
    assert_eq!(game.validate(&mv("d4<")), MoveValidity::CantMoveIntoCap);
    let walls = play(5, &["e5", "a1", "c3", "Sc4", "Cd4", "a2"]);
    assert_eq!(walls.validate(&mv("c3+")), MoveValidity::NeedCapToSmash);
    let stacked = play(5, &["e5", "a1", "c2", "Sc4", "Cc1", "a2", "c1+", "a3"]);
    assert_eq!(stacked.to_string(), "x4,2/x2,2S,x2/2,x4/2,x,11C,x2/1,x4 1 5");
    assert_eq!(stacked.validate(&mv("2c2+")), MoveValidity::Valid);
    assert_eq!(stacked.validate(&mv("2c2+11")), MoveValidity::Valid);
    assert_eq!(stacked.validate(&mv("2c2+2")), MoveValidity::Valid);
    let near = play(5, &["e5", "a1", "c3", "Sc4", "Cc2", "a2", "c2+", "a3"]);
    assert_eq!(near.validate(&mv("2c3+")), MoveValidity::CapMustSmashAlone);
    assert_eq!(near.validate(&mv("c3+")), MoveValidity::Valid);
    let far = play(5, &["e5", "a1", "c2", "Sc3", "Cc1", "a2", "c1+", "a3"]);
    assert_eq!(far.validate(&mv("2c2+11")), MoveValidity::SmashMustBeLast);
    assert_eq!(far.validate(&mv("c2+")), MoveValidity::Valid);
}

#[test]
fn a_slide_may_not_lift_more_stones_than_the_board_is_wide() {
    let five = play(5, &FIVE_STACK);
    assert_eq!(five.to_string(), "x5/x5/x5/x,2,x3/21121,x4 1 6");
    assert_eq!(five.validate(&mv("5a1>1112")), MoveValidity::Valid);
    assert_eq!(five.validate(&mv("6a1>111111")), MoveValidity::CarryLimit);
    let six_steps = Move::Move(Loc { x: 0, y: 0 }, Dir::Right, 6, [1, 1, 1, 1, 1, 1, 0], false);
    assert_eq!(five.validate(&six_steps), MoveValidity::CarryLimit);
    assert_eq!(five.validate(&mv("6a1>")), MoveValidity::CarryLimit);
    assert_eq!(five.validate(&mv("6a1+2211")), MoveValidity::CarryLimit);
    assert_eq!(five.validate(&mv("5a1>11111")), MoveValidity::EndOutOfBounds);
    assert_eq!(five.validate(&mv("b2>")), MoveValidity::DontControlStack);
    assert_eq!(five.validate(&mv("6b2>111111")), MoveValidity::EndOutOfBounds);
    assert_eq!(five.to_string(), "x5/x5/x5/x,2,x3/21121,x4 1 6");
    assert!(!texts(&five.moves()).contains(&"6a1>111111".to_string()));
    let six = play(
        5,
        &["b2", "a1", "a2", "b2<", "b1", "2a2-", "b1<", "a2", "b1", "a2-", "b1<", "b2"],
    );
    assert_eq!(six.to_string(), "x5/x5/x5/x,2,x3/112121,x4 1 7");
    assert_eq!(six.validate(&mv("6a1>2211")), MoveValidity::CarryLimit);
    assert_eq!(six.validate(&mv("6a1>")), MoveValidity::CarryLimit);
    assert_eq!(six.validate(&mv("5a1>")), MoveValidity::Valid);
    assert_eq!(six.validate(&mv("7a1>")), MoveValidity::CarryLimit);
    let three = play(5, &["b2", "a1", "a2", "b2<", "b1", "2a2-", "e5"]);
    assert_eq!(three.to_string(), "x4,1/x5/x5/x5/112,1,x3 2 4");
    assert_eq!(three.validate(&mv("4a1>")), MoveValidity::NotEnoughPieces);
    assert_eq!(three.validate(&mv("4a1>112")), MoveValidity::NotEnoughPieces);
    assert_eq!(three.validate(&mv("3a1>111")), MoveValidity::Valid);
    for m in six.moves() {
        if let Move::Move(_, _, _, drops, _) = m {
            assert!(drops.iter().map(|d| *d as u32).sum::<u32>() <= 5);
        }
    }
}

#[test]
fn slides_leave_the_stones_in_order() {
    let game = play(5, &FIVE_STACK);
    assert_eq!(game.hash(), 0x84aabb2b8a39472b);
    let cases = [
        ("5a1>1112", "x5/x5/x5/x,2,x3/x,2,1,1,21 2 6", 0xca9b018bbfde7523u64),
        ("3a1+21", "x5/x5/1,x4/12,2,x3/21,x4 2 6", 0x9b254532db7e83ae),
        ("a1>", "x5/x5/x5/x,2,x3/2112,1,x3 2 6", 0x3d7b171b6db125f8),
    ];
    for (text, after, hash) in cases {
        let mut game = play(5, &FIVE_STACK);
        let mut m = mv(text);
        assert_eq!(game.validate(&m), MoveValidity::Valid);
        game.execute(&mut m);
        assert_eq!(game.to_string(), after);
        assert_eq!(game.hash(), hash);
        game.undo(&m);
        assert_eq!(game.to_string(), "x5/x5/x5/x,2,x3/21121,x4 1 6");
        assert_eq!(game.hash(), 0x84aabb2b8a39472b);
    }
}

#[test]
fn the_same_position_has_the_same_hash_whatever_the_order_of_moves() {
    let one = play(5, &["a1", "e5", "b2", "d4", "c3", "c2"]);
    let other = play(5, &["a1", "e5", "c3", "c2", "b2", "d4"]);
    assert_eq!(one.to_string(), other.to_string());
    assert_eq!(one.hash(), 0x8370adc83d943ebe);
    assert_eq!(other.hash(), 0x8370adc83d943ebe);
}

#[test]
fn the_hash_tells_the_side_to_move_and_the_kind_of_stone() {
    let flat = play(5, &["a1", "e5", "c3"]);
    let wall = play(5, &["a1", "e5", "Sc3"]);
    let cap = play(5, &["a1", "e5", "Cc3"]);
    assert_ne!(flat.hash(), wall.hash());
    assert_ne!(flat.hash(), cap.hash());
    assert_ne!(wall.hash(), cap.hash());
    let white_to_move = play(5, &["a1", "e5", "c3", "c4", "c3+", "b1", "c4-", "b1<"]);
    let black_to_move = play(5, &["a1", "e5", "c3", "c4", "c3+", "b1", "c4-"]);
    assert_ne!(white_to_move.hash(), black_to_move.hash());
}

#[test]
fn undo_takes_every_generated_move_back() {
    for moves in [&MIDGAME[..], &FIVE_STACK[..], &["a1"][..], &[][..], &["a1", "e5"][..]] {
        let mut game = play(5, moves);
        let text = game.to_string();
        let hash = game.hash();
        let white = (game.reserves(Player::White).count(Piece::Flat), game.reserves(Player::White).count(Piece::Cap));
        let black = (game.reserves(Player::Black).count(Piece::Flat), game.reserves(Player::Black).count(Piece::Cap));
        for mut m in game.moves() {
            assert_eq!(game.validate(&m), MoveValidity::Valid);
            game.execute(&mut m);
            assert_ne!(game.to_string(), text);
            game.undo(&m);
            assert_eq!(game.to_string(), text);
            assert_eq!(game.hash(), hash);
            assert_eq!(game.reserves(Player::White).count(Piece::Flat), white.0);
            assert_eq!(game.reserves(Player::White).count(Piece::Cap), white.1);
            assert_eq!(game.reserves(Player::Black).count(Piece::Flat), black.0);
            assert_eq!(game.reserves(Player::Black).count(Piece::Cap), black.1);
        }
    }
}

#[test]
fn undo_in_round_one_restores_the_reserves() {
    let mut game = Game::new(5).unwrap();
    let mut first = mv("a1");
    game.execute(&mut first);
    assert_eq!(game.reserves(Player::Black).count(Piece::Flat), 20);
    assert_eq!(game.reserves(Player::White).count(Piece::Flat), 21);
    let mut second = mv("b1");
    game.execute(&mut second);
    assert_eq!(game.reserves(Player::White).count(Piece::Flat), 20);
    game.undo(&second);
    assert_eq!(game.reserves(Player::White).count(Piece::Flat), 21);
    assert_eq!(game.reserves(Player::Black).count(Piece::Flat), 20);
    assert_eq!(game.round(), 1);
    assert_eq!(game.cur_player(), Player::Black);
    game.undo(&first);
    assert_eq!(game.reserves(Player::Black).count(Piece::Flat), 21);
    assert_eq!(game.to_string(), "x5/x5/x5/x5/x5 1 1");
    assert_eq!(game.hash(), 0xff64fc069ea6459f);
}

#[test]
fn a_game_can_be_taken_back_move_by_move() {
    let mut game = Game::new(5).unwrap();
    let mut done = Vec::new();
    let mut seen = Vec::new();
    for text in MIDGAME {
        seen.push((game.to_string(), game.hash()));
        let mut m = mv(text);
        game.execute(&mut m);
        done.push(m);
    }
    while let Some(m) = done.pop() {
        game.undo(&m);
        let (text, hash) = seen.pop().unwrap();
        assert_eq!(game.to_string(), text);
        assert_eq!(game.hash(), hash);
    }
}

#[test]
fn round_one_offers_a_flat_on_every_empty_square() {
    let game = Game::new(5).unwrap();
    let moves = game.moves();
    assert_eq!(moves.len(), 25);
    assert_eq!(moves[0], Move::Place(Loc { x: 0, y: 0 }, Piece::Flat));
    assert_eq!(moves[1], Move::Place(Loc { x: 1, y: 0 }, Piece::Flat));
    assert_eq!(moves[24], Move::Place(Loc { x: 4, y: 4 }, Piece::Flat));
    let second = play(3, &["a1"]);
    assert_eq!(texts(&second.moves()), vec!["b1", "c1", "a2", "b2", "c2", "a3", "b3", "c3"]);
}

#[test]
fn moves_of_a_midgame_position_are_those_of_the_rules() {
    let game = play(5, &MIDGAME);
    assert_eq!(game.to_string(), "x2,2S,1S,x/x,1,x3/2C,1,1S,211C,1/x4,2S/x,2,x,2S,x 1 12");
    assert_eq!(game.hash(), 0xcfa890ec1097f97a);
    let expected = vec![
        "a1", "Sa1", "c1", "Sc1", "e1", "Se1", "a2", "Sa2", "b2", "Sb2", "c2", "Sc2", "d2",
        "Sd2", "b3+", "b3-", "c3+", "c3-", "c3<", "d3+", "2d3+", "3d3+", "2d3+11", "3d3+21",
        "d3-", "2d3-", "3d3-", "2d3-11", "3d3-21", "d3<", "d3>", "2d3>", "3d3>", "e3+", "a4",
        "Sa4", "b4+", "b4-", "b4<", "b4>", "c4", "Sc4", "d4", "Sd4", "e4", "Se4", "a5", "Sa5",
        "b5", "Sb5", "d5-", "d5>", "e5", "Se5",
    ];
    let got = texts(&game.moves());
    assert_eq!(got, expected);
    for text in &expected {
        assert_eq!(got.iter().filter(|t| *t == text).count(), 1);
    }
}

#[test]
fn moves_of_a_tall_stack_are_those_of_the_rules() {
    let game = play(5, &FIVE_STACK);
    let got = texts(&game.moves());
    assert_eq!(got.len(), 106);
    let slides: Vec<&str> = got.iter().map(|s| s.as_str()).filter(|s| s.contains("a1+")).collect();
    assert_eq!(
        slides,
        vec![
            "a1+", "2a1+", "3a1+", "4a1+", "5a1+", "2a1+11", "3a1+12", "4a1+13", "5a1+14",
            "3a1+21", "4a1+22", "5a1+23", "4a1+31", "5a1+32", "5a1+41", "3a1+111", "4a1+112",
            "5a1+113", "4a1+121", "5a1+122", "5a1+131", "4a1+211", "5a1+212", "5a1+221",
            "5a1+311", "4a1+1111", "5a1+1112", "5a1+1121", "5a1+1211", "5a1+2111",
        ]
    );
    assert_eq!(got.iter().filter(|s| s.contains("a1>")).count(), 30);
    assert_eq!(got.iter().filter(|s| s.contains("a1<") || s.contains("a1-")).count(), 0);
    assert_eq!(got[60], "b1");
    assert_eq!(got[61], "Sb1");
}

#[test]
fn every_generated_move_is_valid() {
    for (size, moves) in [(5, &MIDGAME[..]), (5, &FIVE_STACK[..]), (8, &["a1", "h8", "h1", "a8"][..])] {
        let game = play(size, moves);
        for m in game.moves() {
            assert!(m.is_well_formed());
            assert_eq!(game.validate(&m), MoveValidity::Valid);
        }
    }
    let eight = play(8, &["a1", "h8", "h1", "a8"]);
    assert_eq!(eight.to_string(), "2,x6,1/x8/x8/x8/x8/x8/x8/2,x6,1 1 3");
    assert_eq!(eight.hash(), 0x139f5d6bd1298cb9);
    assert_eq!(eight.moves().len(), 124);
}

#[test]
fn foreach_move_calls_back_in_order_and_stops_at_the_first_error() {
    let game = play(5, &MIDGAME);
    let all = game.moves();
    let mut seen = Vec::new();
    let done: Result<(), ()> = game.foreach_move(|m| {
        seen.push(m);
        Ok(())
    });
    assert_eq!(done, Ok(()));
    assert_eq!(seen, all);
    let mut count = 0;
    let stopped = game.foreach_move(|m| {
        count += 1;
        if count == 4 {
            Err(ptn::to_string(&m))
        } else {
            Ok(())
        }
    });
    assert_eq!(stopped, Err("Sc1".to_string()));
    assert_eq!(count, 4);
}

#[test]
fn a_capstone_is_offered_only_when_the_flats_are_used_up() {
    let game = play(5, &["a1", "e5"]);
    let got = texts(&game.moves());
    assert!(got.contains(&"b1".to_string()));
    assert!(got.contains(&"Sb1".to_string()));
    assert!(!got.contains(&"Cb1".to_string()));
}
