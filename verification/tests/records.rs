use rustak::game::{self, MoveValidity, Winner};
use rustak::playtak::{parse_moves, parse_result};

// Games whose recorded result is wrong because the dragon rule was not applied.
const PLAYTAK_DRAGON_RULE_BUG_GAMES: [i64; 13] =
    [3172, 4932, 6037, 6249, 14270, 15070, 15527, 16082, 16325, 17091, 17316, 17405, 17532];
// Games with moves past their end and a wrong recorded result.
const PLAYTAK_INCORRECT_RESULT_GAMES: [i64; 7] = [380, 3018, 9329, 15296, 54675, 81952, 116539];
const PLAYTAK_UNKNOWN_PROBLEM_GAMES: [i64; 3] = [9013, 9449, 9598];

// Recorded games: the size of the board, the moves, the result, the number of the game.
const FIRST_RECORDS: [(i64, &str, &str, i64); 7] = [
    (3, "P A1,P B1,P B2 W,P A2 W,M B2 C2 1,P B2,P B3 W,P A3,M B1 B2 1,P C3,M B3 C3 1,M A2 B2 1,M C3 A3 1 1,M B2 A2 2,P C1,M A1 B1 1", "0-R", 1176),
    (5, "P E3,P C5,P E4 W,P B3 W,P D1,P C1 W,M E4 E3 1,M B3 B4 1,M E3 E2 2,P C2 W,P A4,P D2,M C5 C4 1,P A1 C,P E5 C,M D2 D1 1,P B2,M C1 D1 1,M E2 D2 2,M A1 A2 1,M D2 D3 1,M D1 A1 1 1 1,M C1 B1 1,P C5,P E4,M C2 C3 1,M E4 D4 1,P D1 W,P E3,M A1 B1 1,M B2 B3 1,M C5 D5 1,P B2,M B1 C1 2,M C4 D4 1,M C3 C2 1,M E5 E4 1,M B1 B2 1,M D3 D2 1,M D1 E1 1,M D2 D4 1 1,M C1 B1 1,M E4 D4 1,P B5,M C1 D1 1,P C5,M D4 D1 2 1 1,M C5 D5 1,M B3 C3 1,M B1 B2 1,P A3,M B2 B1 2,M B2 B3 1", "R-0", 1180),
    (3, "P A3,P C2,P C1,P A2 W,P B2 W,M A2 A3 1,M C1 B1 1,M A3 B3 1,M B1 A1 1,P B1 W,M B2 C2 1,M B3 C3 1,M C2 B2 1,M B1 C1 1,P B1,M C1 B1 1,P A2,M C3 C2 1,M B2 A2 1,M C2 C3 2,M A2 A1 2,M B1 B2 1,M A1 A2 1,P C1 W,M A1 B1 1,M C1 C2 1,M B1 C1 2,P B1,P B3 W", "1/2-1/2", 1196),
    (3, "P C1,P A3,P B1 W,P A1,M B1 C1 1,M A1 B1 1,M C1 C2 1,M B1 B2 1,P B1,P A2,M A3 A2 1,P B3 W,M A2 B2 1,M C1 B1 1,M B2 A2 2,P A1,M A2 B2 1,M B3 C3 1,P C1,P B3,M B2 B1 1,M B3 A3 1", "0-R", 1280),
    (3, "P A2,P C2,M C2 C1 1,M A2 B2 1,P A3,P B1,P C2 W,M B2 B1 1,M C2 C1 1,M B1 B2 1,M C1 C2 2,P A2 W,M C2 C3 2,M A2 B2 1,M C3 C1 1 1,P A1,M A3 A2 1,M B2 B3 1,M C2 B2 1,P C2 W,M A2 B2 1,M C2 C3 1,M B2 B1 1,M B3 A3 1,P A2 W,M A1 B1 1,M C1 C2 1,M B1 B3 2 1,M B2 B1 2,M B3 B2 1,M B1 C1 2,M B2 B1 1,M A2 A1 1,M A3 B3 1,M A1 B1 1,M B3 B2 1,M B1 C1 2,P A3,M C1 B1 1,M A3 B3 1,M B1 C1 1,M B2 A2 3,M C2 B2 1,P A3 W,M C1 A1 1 1,M C3 B3 1,M B2 B1 1,M B3 C3 2,M B1 B2 1,P C2,M C1 C2 1,M C1 C2 1,M B2 B3 1,M C2 C1 2,P B2 W", "0-F", 1118),
    (5, "P A1,P E5,P C3", "0-0", 1301),
    (5, "P A1,P E5,P C3,P C4 W", "1-0", 1302),
];

const SECOND_RECORDS: [(i64, &str, &str, i64); 7] = [
    (3, "P B3,P B2,P A1,M B3 C3 1,P A3,M C3 C2 1,P C3,M C2 C3 1,M B2 B3 1,P B1,P B2,M B1 A1 1,M A3 A2 1,M A1 B1 2,M A2 A1 1,M B1 C1 1", "R-0", 1286),
    (3, "P C1,P C3,M C3 B3 1,M C1 B1 1,P C3,P A2,M B3 C3 1,M A2 A3 1,M C3 C2 1,M A3 B3 1,P A1,M B1 A1 1,P B2,M B3 A3 1,M B2 C2 1,P C1,P A2 W,M A3 B3 1,M A2 A3 1,P B2,M A3 A2 1,M C1 C2 1,P B1 W,M C2 C3 2,M C2 C3 1,M B3 A3 1,P C1,M A3 B3 1,M A2 B2 1,M A1 A2 1,M C3 C2 1,M C3 A3 1 1", "R-0", 1294),
    (3, "P C3,P C1,M C1 B1 1,M C3 C2 1,P C3,P B2,P A2 W,M B2 B1 1,P B2,M B1 B3 1 1,M B2 C2 2,P A3,M C2 C1 2,M C2 C1 1,P C2 W,P A1,M A2 A1 1,M B3 A3 1,P B1 W,P B3,M C2 C1 1,M A3 A2 2,M C1 C3 2 1,M C2 A2 1 1,M C3 A3 1 1,M A2 B2 1,M C1 C2 1,M B2 A2 1,M B3 C3 2,M A2 C2 2 1,M B1 C1 1,M B2 C2 3,M C3 B3 2,M C2 A2 1 1,M C2 C3 1", "0-R", 1245),
    (3, "P A3,P C1,P B1 W,M A3 B3 1,P A2 W,M B3 B2 1,M B1 A1 1,M B2 B3 1,M A2 B2 1,P A3 W,M A1 A2 1,M A3 B3 1,M A2 A3 1,P C3,P B1,P A2 W,P C2 W,M A2 A1 1,M C2 C1 1,M B3 C3 2,M C1 B1 2,M C3 C2 3,M B1 C1 2,P B3 W,P A2,M C2 C3 2", "F-0", 1069),
    (3, "P B1,P A3,M A3 B3 1,P A2 W,M B3 A3 1,M B1 B2 1,P B1,M B2 B3 1,M B1 C1 1,P A1 W,P B1 W,P C3,M A3 B3 1,M A2 B2 1,M B3 A3 1,M B3 C3 1,M C1 C2 1,M B2 B3 1,M B1 B2 1,M C3 C2 2,M A3 A2 1,P C3,M A2 A3 1,M C2 C1 3,M B2 C2 1,M A1 A2 1,M C2 C1 1,P B2,M C1 A1 1 2,M B2 C2 1,M A1 B1 2,M B3 A3 1,M B1 A1 2,M C3 C2 1,M C1 B1 1,P C1,M B1 C1 1,M A3 B3 1,M C1 C2 1,M A2 A3 1,M C2 C3 2,M A3 A2 2,P A3 W,M A2 C2 1 1,M B2 B1 1,M C2 C1 1,M C3 C2 2,M C1 C3 1 1,M B1 B2 2,M C2 B2 2,M A1 B1 1,P C1 W,P A2", "0-F", 1153),
    (4, "P A1,P D4", "0-0 abandoned", 2301),
    (6, "P A1,P F6,P C3 C,P D4 C,M C3 C4 1", "0-1", 2302),
];

fn replay(rows: &[(i64, &str, &str, i64)]) {
    for (size, moves_str, result_str, id) in rows.iter().copied() {
        if result_str.starts_with("0-0") {
            continue;
        }
        let mut moves = match parse_moves(moves_str) {
            Ok((moves, _)) => moves,
            Err(e) => panic!("Could not parse moves '{}', error: {:?}", moves_str, e),
        };
        let result = match parse_result(result_str) {
            Ok((result, _)) => result,
            Err(e) => panic!("Could not parse result '{}', error: {:?}", result_str, e),
        };
        let mut g = game::new(size as usize).unwrap();
        for m in moves.iter_mut() {
            if let Some(_) = g.status() {
                break;
            }
            assert!(m.is_well_formed());
            if let MoveValidity::Valid = g.validate(m) {
                g.execute(m);
            } else {
                panic!(
                    "Error during simulated game(id={})\nMove {:?} not valid\nBoard State: \n{}\nMoves str:\n{}",
                    id,
                    m,
                    g.to_string(),
                    moves_str
                );
            }
        }
        match result {
            Winner::Other(_) => {},
            _ => {
                if PLAYTAK_UNKNOWN_PROBLEM_GAMES.contains(&id) {
                    continue;
                }
                if PLAYTAK_INCORRECT_RESULT_GAMES.contains(&id) {
                    continue;
                }
                if PLAYTAK_DRAGON_RULE_BUG_GAMES.contains(&id) {
                    continue;
                }
                let simulated = g.status();
                if simulated.is_none() {
                    if result == Winner::Draw {
                        continue;
                    }
                    panic!(
                        "Simulated game (id={}) did not terminate, result should have been {:?}\nFinal board state:\n{}",
                        id,
                        result,
                        g.to_string()
                    );
                }
                if result != simulated.unwrap() {
                    panic!(
                        "Simulated game (id={}) had incorrect result {:?}, should have been {:?}\nFinal board state:\n{}",
                        id,
                        simulated,
                        result,
                        g.to_string()
                    );
                }
            },
        }
    }
}

#[test]
fn net_test_moves() {
    replay(&FIRST_RECORDS);
}

#[test]
fn playtak_test_moves() {
    replay(&SECOND_RECORDS);
}

#[test]
fn recorded_games_end_as_recorded() {
    let finals = [
        ("P A1,P B1,P B2 W,P A2 W,M B2 C2 1,P B2,P B3 W,P A3,M B1 B2 1,P C3,M B3 C3 1,M A2 B2 1,M C3 A3 1 1,M B2 A2 2,P C1,M A1 B1 1", "21S,2,x/12S,2,1S/x,2,1 1 9"),
        ("P B3,P B2,P A1,M B3 C3 1,P A3,M C3 C2 1,P C3,M C2 C3 1,M B2 B3 1,P B1,P B2,M B1 A1 1,M A3 A2 1,M A1 B1 2,M A2 A1 1,M B1 C1 1", "x,1,12/x,1,x/1,1,2 1 9"),
    ];
    for (moves_str, text) in finals {
        let (mut moves, rest) = parse_moves(moves_str).unwrap();
        assert_eq!(rest, "");
        let mut g = game::new(3).unwrap();
        for m in moves.iter_mut() {
            assert_eq!(g.status(), None);
            assert_eq!(g.validate(m), MoveValidity::Valid);
            g.execute(m);
        }
        assert_eq!(g.to_string(), text);
        assert!(g.status().is_some());
    }
}
