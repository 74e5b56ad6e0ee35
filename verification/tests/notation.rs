use rustak::game::{Dir, Loc, Move, Piece, Player, Winner};
use rustak::playtak;
use rustak::playtak::ErrorType::{EndOfFile, InvalidChar, InvalidMoveSquares};
use rustak::ptn;
use rustak::ptn::{SubjAnnotation, TakAnnotation};

fn slide(x: u8, y: u8, dir: Dir, drops: &[u8]) -> Move {
    let mut all = [0u8; 7];
    all[..drops.len()].copy_from_slice(drops);
    Move::Move(Loc { x, y }, dir, drops.len() as u8, all, false)
}

fn place(x: u8, y: u8, piece: Piece) -> Move {
    Move::Place(Loc { x, y }, piece)
}

#[test]
fn ptn_reads_placements() {
    assert_eq!(ptn::parse_move("a1"), Some(place(0, 0, Piece::Flat)));
    assert_eq!(ptn::parse_move("Sb3"), Some(place(1, 2, Piece::Wall)));
    assert_eq!(ptn::parse_move("Cc4"), Some(place(2, 3, Piece::Cap)));
    assert_eq!(ptn::parse_move("Fh8"), Some(place(7, 7, Piece::Flat)));
    assert_eq!(ptn::parse_move("sb3"), Some(place(1, 2, Piece::Wall)));
    assert_eq!(ptn::parse_move("cc4"), Some(place(2, 3, Piece::Cap)));
    assert_eq!(ptn::parse_move("D3"), Some(place(3, 2, Piece::Flat)));
}

#[test]
fn ptn_reads_a_square_whose_column_looks_like_a_kind_of_stone() {
    assert_eq!(ptn::parse_move("c3"), Some(place(2, 2, Piece::Flat)));
    assert_eq!(ptn::parse_move("f4"), Some(place(5, 3, Piece::Flat)));
    assert_eq!(ptn::parse_move("C3"), Some(place(2, 2, Piece::Flat)));
    assert_eq!(ptn::parse_move("ff4"), Some(place(5, 3, Piece::Flat)));
    assert_eq!(ptn::parse_move("cf4"), Some(place(5, 3, Piece::Cap)));
}

#[test]
fn ptn_reads_slides() {
    assert_eq!(ptn::parse_move("3a1>12"), Some(slide(0, 0, Dir::Right, &[1, 2])));
    assert_eq!(ptn::parse_move("a5+"), Some(slide(0, 4, Dir::Up, &[1])));
    assert_eq!(ptn::parse_move("3c3+12"), Some(slide(2, 2, Dir::Up, &[1, 2])));
    assert_eq!(ptn::parse_move("4d4-"), Some(slide(3, 3, Dir::Down, &[4])));
    assert_eq!(ptn::parse_move("2e1<11"), Some(slide(4, 0, Dir::Left, &[1, 1])));
    assert_eq!(ptn::parse_move("6a5+123"), Some(slide(0, 4, Dir::Up, &[1, 2, 3])));
    assert_eq!(ptn::parse_move("7h1<1111111"), Some(slide(7, 0, Dir::Left, &[1, 1, 1, 1, 1, 1, 1])));
    assert_eq!(ptn::parse_move("8a1>8"), Some(slide(0, 0, Dir::Right, &[8])));
}

#[test]
fn ptn_takes_the_sum_of_the_drops_when_the_count_is_left_out() {
    assert_eq!(ptn::parse_move("a1>12"), Some(slide(0, 0, Dir::Right, &[1, 2])));
    assert_eq!(ptn::parse_move("a1>3"), Some(slide(0, 0, Dir::Right, &[3])));
}

#[test]
fn ptn_rejects_drops_that_do_not_add_up() {
    assert_eq!(ptn::parse_move("3a1>11"), None);
    assert_eq!(ptn::parse_move("2a1>12"), None);
    assert_eq!(ptn::parse_move("a1>11111111"), None);
    assert_eq!(ptn::parse_move("8a1>11111111"), None);
}

#[test]
fn ptn_rejects_what_is_no_move() {
    for text in ["", "a", "a9", "i1", "Sa", "a1x", "a1 b2", "3", "3a1", "0a1+", "9a1+", "a1+0", "a1+9", "Wa1", "+", "a1++"] {
        assert_eq!(ptn::parse_move(text), None, "{}", text);
    }
}

#[test]
fn ptn_passes_over_white_space_around_a_move() {
    assert_eq!(ptn::parse_move("  a1 "), Some(place(0, 0, Piece::Flat)));
    assert_eq!(ptn::parse_move("\t3a1>12\n"), Some(slide(0, 0, Dir::Right, &[1, 2])));
    assert_eq!(ptn::parse_exact(" a1"), None);
    assert_eq!(ptn::parse_exact("a1"), Some(place(0, 0, Piece::Flat)));
    assert_eq!(ptn::parse_move("a 1"), None);
}

#[test]
fn ptn_reads_the_marks_behind_a_move() {
    let cases = [
        ("a1", None, None),
        ("a1'", Some(TakAnnotation::Tak), None),
        ("a1''", Some(TakAnnotation::Tinue), None),
        ("a1?", None, Some(SubjAnnotation::Questionable)),
        ("a1!", None, Some(SubjAnnotation::Surprising)),
        ("a1??", None, Some(SubjAnnotation::Blunder)),
        ("a1!!", None, Some(SubjAnnotation::VerySurprising)),
        ("a1?!", None, Some(SubjAnnotation::QuestionableSurprising)),
        ("a1!?", None, Some(SubjAnnotation::SurprisingQuestionable)),
        ("a1'!", Some(TakAnnotation::Tak), Some(SubjAnnotation::Surprising)),
        ("a1!'", Some(TakAnnotation::Tak), Some(SubjAnnotation::Surprising)),
        ("a1 '' ??", Some(TakAnnotation::Tinue), Some(SubjAnnotation::Blunder)),
        ("a1?! ''", Some(TakAnnotation::Tinue), Some(SubjAnnotation::QuestionableSurprising)),
    ];
    for (text, tak, subj) in cases {
        let read = ptn::parse_annotated(text).unwrap();
        assert_eq!(read.m, place(0, 0, Piece::Flat), "{}", text);
        assert_eq!(read.annotation, (tak, subj), "{}", text);
        assert_eq!(ptn::parse_move(text), Some(place(0, 0, Piece::Flat)));
    }
    let slid = ptn::parse_annotated("3a1>12'").unwrap();
    assert_eq!(slid.m, slide(0, 0, Dir::Right, &[1, 2]));
    assert_eq!(slid.annotation, (Some(TakAnnotation::Tak), None));
    let copy = slid.clone();
    assert_eq!(copy.m, slid.m);
    assert_eq!(copy.annotation, slid.annotation);
    for text in ["a1'''", "a1???", "a1!?!", "a1'?'", "a1 ", "a1! x"] {
        assert!(ptn::parse_annotated(text).is_none(), "{}", text);
    }
}

#[test]
fn ptn_reads_no_game_records() {
    assert!(ptn::parse("").is_none());
    assert!(ptn::parse("[Size \"5\"]\n1. a1 e5").is_none());
}

#[test]
fn ptn_reads_squares() {
    assert_eq!(ptn::parse_square("a1").map_err(|e| e.err_type()), Ok(("", Loc { x: 0, y: 0 })));
    assert_eq!(ptn::parse_square("h8+12").map_err(|e| e.err_type()), Ok(("+12", Loc { x: 7, y: 7 })));
    assert_eq!(ptn::parse_square("E5 rest").map_err(|e| e.err_type()), Ok((" rest", Loc { x: 4, y: 4 })));
    assert_eq!(ptn::parse_square("").map_err(|e| e.err_type()), Err(ptn::ErrorType::EndOfFile));
    assert_eq!(ptn::parse_square("a").map_err(|e| e.err_type()), Err(ptn::ErrorType::EndOfFile));
    assert_eq!(ptn::parse_square("i1").map_err(|e| e.err_type()), Err(ptn::ErrorType::InvalidChar('i')));
    assert_eq!(ptn::parse_square("a0").map_err(|e| e.err_type()), Err(ptn::ErrorType::InvalidChar('0')));
    assert_eq!(ptn::parse_square("a9").map_err(|e| e.err_type()), Err(ptn::ErrorType::InvalidChar('9')));
    assert_eq!(ptn::parse_square("é1").map_err(|e| e.err_type()), Err(ptn::ErrorType::InvalidChar('é')));
    assert_eq!(ptn::parse_square("a1é").map_err(|e| e.err_type()), Ok(("é", Loc { x: 0, y: 0 })));
}

#[test]
fn ptn_reads_outcomes() {
    assert_eq!(ptn::parse_winner("R-0"), Ok(("", Winner::Road(Player::White))));
    assert_eq!(ptn::parse_winner("0-R"), Ok(("", Winner::Road(Player::Black))));
    assert_eq!(ptn::parse_winner("F-0 x"), Ok((" x", Winner::Flat(Player::White))));
    assert_eq!(ptn::parse_winner("0-F"), Ok(("", Winner::Flat(Player::Black))));
    assert_eq!(ptn::parse_winner("1-0"), Ok(("", Winner::Other(Player::White))));
    assert_eq!(ptn::parse_winner("0-1"), Ok(("", Winner::Other(Player::Black))));
    assert_eq!(ptn::parse_winner("1/2-1/2"), Ok(("", Winner::Draw)));
    assert_eq!(ptn::parse_winner(""), Err(ptn::ErrorType::EndOfFile));
    assert_eq!(ptn::parse_winner("1/2-1"), Err(ptn::ErrorType::EndOfFile));
    assert_eq!(ptn::parse_winner("0-0"), Err(ptn::ErrorType::InvalidChar('0')));
    assert_eq!(ptn::parse_winner("x"), Err(ptn::ErrorType::InvalidChar('x')));
}

#[test]
fn ptn_writes_moves() {
    assert_eq!(ptn::to_string(&place(0, 0, Piece::Flat)), "a1");
    assert_eq!(ptn::to_string(&place(1, 2, Piece::Wall)), "Sb3");
    assert_eq!(ptn::to_string(&place(7, 7, Piece::Cap)), "Ch8");
    assert_eq!(ptn::to_string(&slide(0, 4, Dir::Up, &[1])), "a5+");
    assert_eq!(ptn::to_string(&slide(0, 0, Dir::Right, &[1, 2])), "3a1>12");
    assert_eq!(ptn::to_string(&slide(3, 3, Dir::Down, &[4])), "4d4-");
    assert_eq!(ptn::to_string(&slide(4, 0, Dir::Left, &[1, 1])), "2e1<11");
    assert_eq!(ptn::to_string(&slide(7, 0, Dir::Left, &[1, 1, 1, 1, 1, 1, 1])), "7h1<1111111");
    assert_eq!(ptn::to_string(&Move::Move(Loc { x: 0, y: 0 }, Dir::Up, 1, [2, 0, 0, 0, 0, 0, 0], true)), "2a1+");
}

#[test]
fn ptn_reads_back_what_it_writes() {
    let moves = [
        place(0, 0, Piece::Flat),
        place(2, 2, Piece::Flat),
        place(5, 3, Piece::Cap),
        place(2, 6, Piece::Wall),
        slide(2, 2, Dir::Up, &[1]),
        slide(2, 2, Dir::Down, &[3]),
        slide(5, 5, Dir::Left, &[2, 1, 1]),
        slide(0, 7, Dir::Right, &[1, 1, 2, 1, 1, 1, 1]),
    ];
    for m in moves {
        assert_eq!(ptn::parse_move(&ptn::to_string(&m)), Some(m));
    }
}

#[test]
fn playtak_reads_placements() {
    assert_eq!(playtak::parse_move("P A1"), Ok((place(0, 0, Piece::Flat), "")));
    assert_eq!(playtak::parse_move("P B3 C"), Ok((place(1, 2, Piece::Cap), "")));
    assert_eq!(playtak::parse_move("P b3 W"), Ok((place(1, 2, Piece::Wall), "")));
    assert_eq!(playtak::parse_move("p h8 w, P A1"), Ok((place(7, 7, Piece::Wall), ", P A1")));
    assert_eq!(playtak::parse_move("PA1"), Ok((place(0, 0, Piece::Flat), "")));
    assert_eq!(playtak::parse_move("P A1 X"), Ok((place(0, 0, Piece::Flat), " X")));
    assert_eq!(playtak::parse_move("P A1  "), Ok((place(0, 0, Piece::Flat), "  ")));
}

#[test]
fn playtak_reads_slides() {
    assert_eq!(playtak::parse_move("M A1 A3 1 2"), Ok((slide(0, 0, Dir::Up, &[1, 2]), "")));
    assert_eq!(playtak::parse_move("M A3 A1 2 1"), Ok((slide(0, 2, Dir::Down, &[2, 1]), "")));
    assert_eq!(playtak::parse_move("M C2 A2 1 1"), Ok((slide(2, 1, Dir::Left, &[1, 1]), "")));
    assert_eq!(playtak::parse_move("m a1 b1 5 rest"), Ok((slide(0, 0, Dir::Right, &[5]), " rest")));
    assert_eq!(playtak::parse_move("M A1 A8 1 1 1 1 1 1 1"), Ok((slide(0, 0, Dir::Up, &[1, 1, 1, 1, 1, 1, 1]), "")));
    assert_eq!(playtak::parse_move("M A1 A3 12"), Ok((slide(0, 0, Dir::Up, &[1, 2]), "")));
}

#[test]
fn playtak_reports_what_is_wrong() {
    assert_eq!(playtak::parse_move(""), Err(EndOfFile));
    assert_eq!(playtak::parse_move("X A1"), Err(InvalidChar('X')));
    assert_eq!(playtak::parse_move("P"), Err(EndOfFile));
    assert_eq!(playtak::parse_move("P A"), Err(EndOfFile));
    assert_eq!(playtak::parse_move("P I1"), Err(InvalidChar('I')));
    assert_eq!(playtak::parse_move("P A9"), Err(InvalidChar('9')));
    assert_eq!(playtak::parse_move("M A1"), Err(EndOfFile));
    assert_eq!(playtak::parse_move("M A1 A3 1"), Err(EndOfFile));
    assert_eq!(playtak::parse_move("M A1 A3 1 9"), Err(InvalidChar('9')));
    assert_eq!(playtak::parse_move("M A1 A3 0 1"), Err(InvalidChar('0')));
    assert_eq!(
        playtak::parse_move("M A1 B2 1"),
        Err(InvalidMoveSquares(Loc { x: 0, y: 0 }, Loc { x: 1, y: 1 }))
    );
    assert_eq!(
        playtak::parse_move("M A1 A1 1"),
        Err(InvalidMoveSquares(Loc { x: 0, y: 0 }, Loc { x: 0, y: 0 }))
    );
}

#[test]
fn playtak_reads_lists_of_moves() {
    assert_eq!(
        playtak::parse_moves("  M A1 A3   1 2, P B3 C"),
        Ok((vec![slide(0, 0, Dir::Up, &[1, 2]), place(1, 2, Piece::Cap)], ""))
    );
    assert_eq!(
        playtak::parse_moves("P A1,P E5,P C3 W , M C3 C4 1 trailing"),
        Ok((
            vec![
                place(0, 0, Piece::Flat),
                place(4, 4, Piece::Flat),
                place(2, 2, Piece::Wall),
                slide(2, 2, Dir::Up, &[1]),
            ],
            " trailing"
        ))
    );
    assert_eq!(playtak::parse_moves(""), Ok((vec![], "")));
    assert_eq!(playtak::parse_moves(" nothing"), Ok((vec![], " nothing")));
    assert_eq!(playtak::parse_moves("P A1\r\n,\tP B1"), Ok((vec![place(0, 0, Piece::Flat), place(1, 0, Piece::Flat)], "")));
}

#[test]
fn playtak_lists_fail_behind_a_comma() {
    assert_eq!(playtak::parse_moves("P A1,"), Err(EndOfFile));
    assert_eq!(playtak::parse_moves("P A1, Q"), Err(InvalidChar('Q')));
    assert_eq!(playtak::parse_moves("P A1, P Z1"), Err(InvalidChar('Z')));
}

#[test]
fn playtak_reads_outcomes() {
    assert_eq!(playtak::parse_result("R-0"), Ok((Winner::Road(Player::White), "")));
    assert_eq!(playtak::parse_result("0-R"), Ok((Winner::Road(Player::Black), "")));
    assert_eq!(playtak::parse_result("F-0"), Ok((Winner::Flat(Player::White), "")));
    assert_eq!(playtak::parse_result("0-F"), Ok((Winner::Flat(Player::Black), "")));
    assert_eq!(playtak::parse_result("1-0"), Ok((Winner::Other(Player::White), "")));
    assert_eq!(playtak::parse_result("0-1"), Ok((Winner::Other(Player::Black), "")));
    assert_eq!(playtak::parse_result("1/2-1/2"), Ok((Winner::Draw, "")));
    assert_eq!(playtak::parse_result("R-0 and more"), Ok((Winner::Road(Player::White), " and more")));
    assert_eq!(playtak::parse_result("1/2-1/23"), Ok((Winner::Draw, "3")));
    assert_eq!(playtak::parse_result(""), Err(EndOfFile));
    assert_eq!(playtak::parse_result("R"), Err(EndOfFile));
    assert_eq!(playtak::parse_result("R-"), Err(EndOfFile));
    assert_eq!(playtak::parse_result("1/2-"), Err(EndOfFile));
    assert_eq!(playtak::parse_result("0-0"), Err(InvalidChar('0')));
    assert_eq!(playtak::parse_result("R-1"), Err(InvalidChar('1')));
    assert_eq!(playtak::parse_result("1-1"), Err(InvalidChar('1')));
    assert_eq!(playtak::parse_result("1/2-1/3"), Err(InvalidChar('3')));
    assert_eq!(playtak::parse_result("1x"), Err(InvalidChar('x')));
    assert_eq!(playtak::parse_result("draw"), Err(InvalidChar('d')));
    assert_eq!(playtak::parse_result("é"), Err(InvalidChar('é')));
}

#[test]
fn playtak_moves_play_a_game() {
    let (mut moves, rest) =
        playtak::parse_moves("P A1,P E5,P C3 C,P C4 W,M C3 C4 1").unwrap();
    assert_eq!(rest, "");
    let mut game = rustak::game::new(5).unwrap();
    for m in moves.iter_mut() {
        assert!(m.is_well_formed());
        assert_eq!(game.status(), None);
        assert_eq!(game.validate(m), rustak::game::MoveValidity::Valid);
        game.execute(m);
    }
    assert_eq!(game.to_string(), "x4,1/x2,21C,x2/x5/x5/2,x4 2 3");
    assert_eq!(moves[4], Move::Move(Loc { x: 2, y: 2 }, Dir::Up, 1, [1, 0, 0, 0, 0, 0, 0], true));
    let (result, _) = playtak::parse_result("R-0").unwrap();
    assert_eq!(result, Winner::Road(Player::White));
}
