//! The notation of the playtak server: `P <square> [W|C]` places a stone, `M <from> <to>
//! <drops...>` slides a stack; moves are separated by commas.

use vstd::prelude::*;

use crate::game::{Dir, Loc, Move, Piece, Winner};
use crate::tables::{no_drops, with_drop};
use crate::text::Text;
use crate::tokens::{scan, scan_result, Scan};

verus! {

#[derive(Debug, Clone, Copy, PartialEq, Eq)]
pub enum ErrorType {
    /// A character that cannot stand where it stands.
    InvalidChar(char),
    /// The two squares of a slide are the same, or not on one line.
    InvalidMoveSquares(Loc, Loc),
    /// The text ends where more was expected.
    EndOfFile,
}

/// What a parser hands back: a value and the text behind it, or an error.
#[derive(Debug)]
pub enum ParseResult<'a, T> {
    Done(T, &'a str),
    Error(ErrorType),
}

/// The characters that separate the parts of a move.
pub open spec fn white(c: char) -> bool {
    c == ' ' || c == '\t' || c == '\n' || c == '\r'
}

/// The first place from `i` on that holds no separating character.
pub open spec fn skip_ws(s: Seq<char>, i: int) -> int
    decreases s.len() - i,
{
    if 0 <= i < s.len() && white(s[i]) {
        skip_ws(s, i + 1)
    } else {
        i
    }
}

/// The square at place `i`: a column `a` to `h`, in either case, and a row `1` to `8`.
pub open spec fn square_at(s: Seq<char>, i: int) -> Result<(Loc, int), ErrorType> {
    if i >= s.len() {
        Err(ErrorType::EndOfFile)
    } else if !(('a' <= s[i] && s[i] <= 'h') || ('A' <= s[i] && s[i] <= 'H')) {
        Err(ErrorType::InvalidChar(s[i]))
    } else if i + 1 >= s.len() {
        Err(ErrorType::EndOfFile)
    } else if !('1' <= s[i + 1] && s[i + 1] <= '8') {
        Err(ErrorType::InvalidChar(s[i + 1]))
    } else {
        let x = if 'a' <= s[i] {
            (s[i] as u8 - 97) as u8
        } else {
            (s[i] as u8 - 65) as u8
        };
        Ok((Loc { x, y: (s[i + 1] as u8 - 49) as u8 }, i + 2))
    }
}

/// The kind of stone at place `i`: `C` for a capstone, `W` for a wall, in either case.
pub open spec fn piece_at(s: Seq<char>, i: int) -> Result<(Piece, int), ErrorType> {
    if i >= s.len() {
        Err(ErrorType::EndOfFile)
    } else if s[i] == 'c' || s[i] == 'C' {
        Ok((Piece::Cap, i + 1))
    } else if s[i] == 'w' || s[i] == 'W' {
        Ok((Piece::Wall, i + 1))
    } else {
        Err(ErrorType::InvalidChar(s[i]))
    }
}

/// The drop counts `k..num` from place `i` on: each a digit `1` to `8`, which separating
/// characters may precede.
pub open spec fn drops_at(s: Seq<char>, i: int, num: nat, k: nat, drops: [u8; 7]) -> Result<
    ([u8; 7], int),
    ErrorType,
>
    decreases num - k,
{
    if k >= num {
        Ok((drops, i))
    } else {
        let j = skip_ws(s, i);
        if j >= s.len() {
            Err(ErrorType::EndOfFile)
        } else if !('1' <= s[j] && s[j] <= '8') {
            Err(ErrorType::InvalidChar(s[j]))
        } else {
            drops_at(s, j + 1, num, k + 1, with_drop(drops, k as int, (s[j] as u8 - 48) as u8))
        }
    }
}

/// The direction and the distance from one square to another on the same line.
pub open spec fn line_of(start: Loc, end: Loc) -> Option<(Dir, u8)> {
    if start.x == end.x && end.y > start.y {
        Some((Dir::Up, (end.y - start.y) as u8))
    } else if start.x == end.x && end.y < start.y {
        Some((Dir::Down, (start.y - end.y) as u8))
    } else if start.y == end.y && end.x > start.x {
        Some((Dir::Right, (end.x - start.x) as u8))
    } else if start.y == end.y && end.x < start.x {
        Some((Dir::Left, (start.x - end.x) as u8))
    } else {
        None
    }
}

/// The move at place `i`, and the place behind it.
///
/// A placement is `P`, a square and, if one follows, a kind of stone; without one the
/// stone is a flat. A slide is `M`, the square it starts from, the square it ends on, and
/// one drop count for each square of the way.
pub open spec fn move_at(s: Seq<char>, i: int) -> Result<(Move, int), ErrorType> {
    if i >= s.len() {
        Err(ErrorType::EndOfFile)
    } else if s[i] == 'p' || s[i] == 'P' {
        match square_at(s, skip_ws(s, i + 1)) {
            Err(e) => Err(e),
            Ok((square, j)) => match piece_at(s, skip_ws(s, j)) {
                Ok((piece, k)) => Ok((Move::Place(square, piece), k)),
                Err(_) => Ok((Move::Place(square, Piece::Flat), j)),
            },
        }
    } else if s[i] == 'm' || s[i] == 'M' {
        match square_at(s, skip_ws(s, i + 1)) {
            Err(e) => Err(e),
            Ok((start, j)) => match square_at(s, skip_ws(s, j)) {
                Err(e) => Err(e),
                Ok((end, k)) => match line_of(start, end) {
                    None => Err(ErrorType::InvalidMoveSquares(start, end)),
                    Some((dir, range)) => match drops_at(s, k, range as nat, 0, no_drops()) {
                        Err(e) => Err(e),
                        Ok((drops, l)) => Ok((Move::Move(start, dir, range, drops, false), l)),
                    },
                },
            },
        }
    } else {
        Err(ErrorType::InvalidChar(s[i]))
    }
}

/// The moves that follow place `i`, each behind a comma, and the place behind the last.
pub open spec fn more_moves(s: Seq<char>, i: int) -> Result<(Seq<Move>, int), ErrorType>
    decreases s.len() - i,
{
    let j = skip_ws(s, i);
    if 0 <= j < s.len() && s[j] == ',' {
        match move_at(s, skip_ws(s, j + 1)) {
            Err(e) => Err(e),
            Ok((m, k)) => if i < k <= s.len() {
                match more_moves(s, k) {
                    Err(e) => Err(e),
                    Ok((rest, end)) => Ok((seq![m] + rest, end)),
                }
            } else {
                Ok((seq![m], k))
            },
        }
    } else {
        Ok((Seq::empty(), i))
    }
}

/// A list of moves at the start of `s`, and the place behind it. A text that does not
/// start with a move holds the empty list; a comma with no move behind it is an error.
pub open spec fn moves_of(s: Seq<char>) -> Result<(Seq<Move>, int), ErrorType> {
    match move_at(s, skip_ws(s, 0)) {
        Err(_) => Ok((Seq::empty(), 0)),
        Ok((m, k)) => match more_moves(s, k) {
            Err(e) => Err(e),
            Ok((rest, end)) => Ok((seq![m] + rest, end)),
        },
    }
}

/// The outcome at the start of `s`, and the place behind it.
pub open spec fn result_of(s: Seq<char>) -> Result<(Winner, int), ErrorType> {
    match scan(s) {
        Scan::Found(winner, n) => Ok((winner, n as int)),
        Scan::Unexpected(c) => Err(ErrorType::InvalidChar(c)),
        Scan::End => Err(ErrorType::EndOfFile),
    }
}

/// Skipping separating characters never goes back nor beyond the end.
pub proof fn lemma_skip_ws(s: Seq<char>, i: int)
    requires
        0 <= i <= s.len(),
    ensures
        i <= skip_ws(s, i) <= s.len(),
    decreases s.len() - i,
{
    if i < s.len() && white(s[i]) {
        lemma_skip_ws(s, i + 1);
    }
}

#[inline]
fn is_ws(c: char) -> (r: bool)
    ensures
        r == white(c),
{
    c == ' ' || c == '\t' || c == '\n' || c == '\r'
}

/// The first place from `i` on that holds no separating character.
#[inline]
fn ws(text: &Text, i: usize) -> (r: usize)
    requires
        text.wf(),
        i <= text@.len(),
    ensures
        r == skip_ws(text@, i as int),
        i <= r <= text@.len(),
{
    let mut j = i;
    while j < text.len() && is_ws(text.at(j))
        invariant
            text.wf(),
            i <= j <= text@.len(),
            skip_ws(text@, i as int) == skip_ws(text@, j as int),
        decreases text@.len() - j,
    {
        j += 1;
    }
    j
}

#[inline]
fn parse_square(text: &Text, i: usize) -> (r: Result<(Loc, usize), ErrorType>)
    requires
        text.wf(),
        i <= text@.len(),
    ensures
        match r {
            Ok((loc, j)) => square_at(text@, i as int) == Ok::<(Loc, int), ErrorType>(
                (loc, j as int),
            ) && j == i + 2 && j <= text@.len() && loc.x < 8 && loc.y < 8,
            Err(e) => square_at(text@, i as int) == Err::<(Loc, int), ErrorType>(e),
        },
{
    let x = match text.peek(i) {
        Some(c) => if c >= 'a' && c <= 'h' {
            c as u8 - 97
        } else if c >= 'A' && c <= 'H' {
            c as u8 - 65
        } else {
            return Err(ErrorType::InvalidChar(c));
        },
        None => return Err(ErrorType::EndOfFile),
    };
    let y = match text.peek(i + 1) {
        Some(c) => if c >= '1' && c <= '8' {
            c as u8 - 49
        } else {
            return Err(ErrorType::InvalidChar(c));
        },
        None => return Err(ErrorType::EndOfFile),
    };
    Ok((Loc { x, y }, i + 2))
}

#[inline]
fn parse_piecetype(text: &Text, i: usize) -> (r: Result<(Piece, usize), ErrorType>)
    requires
        text.wf(),
        i <= text@.len(),
    ensures
        match r {
            Ok((piece, j)) => piece_at(text@, i as int) == Ok::<(Piece, int), ErrorType>(
                (piece, j as int),
            ) && j <= text@.len(),
            Err(e) => piece_at(text@, i as int) == Err::<(Piece, int), ErrorType>(e),
        },
{
    match text.peek(i) {
        Some(c) => if c == 'c' || c == 'C' {
            Ok((Piece::Cap, i + 1))
        } else if c == 'w' || c == 'W' {
            Ok((Piece::Wall, i + 1))
        } else {
            Err(ErrorType::InvalidChar(c))
        },
        None => Err(ErrorType::EndOfFile),
    }
}

#[inline]
fn parse_dropcounts(text: &Text, i: usize, num: u8) -> (r: Result<([u8; 7], usize), ErrorType>)
    requires
        text.wf(),
        i <= text@.len(),
        num <= 7,
    ensures
        match r {
            Ok((drops, j)) => drops_at(text@, i as int, num as nat, 0, no_drops()) == Ok::<
                ([u8; 7], int),
                ErrorType,
            >((drops, j as int)) && i <= j <= text@.len() && forall|k: int|
                0 <= k < num ==> 1 <= #[trigger] drops[k] <= 8,
            Err(e) => drops_at(text@, i as int, num as nat, 0, no_drops()) == Err::<
                ([u8; 7], int),
                ErrorType,
            >(e),
        },
{
    let mut at = i;
    let mut dropcounts = [0u8;7];
    let mut idx: u8 = 0;
    proof {
        assert(dropcounts@ =~= no_drops()@);
        assert(dropcounts == no_drops());
    }
    while idx < num
        invariant
            text.wf(),
            i <= at <= text@.len(),
            idx <= num <= 7,
            drops_at(text@, i as int, num as nat, 0, no_drops()) == drops_at(
                text@,
                at as int,
                num as nat,
                idx as nat,
                dropcounts,
            ),
            forall|k: int| 0 <= k < idx ==> 1 <= #[trigger] dropcounts[k] <= 8,
        decreases num - idx,
    {
        let j = ws(text, at);
        let ghost before = dropcounts;
        match text.peek(j) {
            Some(c) => if c >= '1' && c <= '8' {
                dropcounts[idx as usize] = c as u8 - 48;
            } else {
                return Err(ErrorType::InvalidChar(c));
            },
            None => return Err(ErrorType::EndOfFile),
        }
        proof {
            let next = with_drop(before, idx as int, dropcounts[idx as int]);
            assert(dropcounts@ =~= next@);
            assert(dropcounts == next);
        }
        at = j + 1;
        idx += 1;
    }
    Ok((dropcounts, at))
}

/// The direction and the distance from `start` to `end`, if they are on one line.
fn line(start: Loc, end: Loc) -> (r: Option<(Dir, u8)>)
    ensures
        r == line_of(start, end),
{
    if start.x == end.x && end.y > start.y {
        Some((Dir::Up, end.y - start.y))
    } else if start.x == end.x && end.y < start.y {
        Some((Dir::Down, start.y - end.y))
    } else if start.y == end.y && end.x > start.x {
        Some((Dir::Right, end.x - start.x))
    } else if start.y == end.y && end.x < start.x {
        Some((Dir::Left, start.x - end.x))
    } else {
        None
    }
}

/// Reads the move at place `i` of a text.
fn move_in(text: &Text, i: usize) -> (r: Result<(Move, usize), ErrorType>)
    requires
        text.wf(),
        i <= text@.len(),
    ensures
        match r {
            Ok((m, j)) => move_at(text@, i as int) == Ok::<(Move, int), ErrorType>((m, j as int))
                && i < j <= text@.len() && m.well_formed(),
            Err(e) => move_at(text@, i as int) == Err::<(Move, int), ErrorType>(e),
        },
{
    match text.peek(i) {
        Some(c) => if c == 'p' || c == 'P' {
            let (square, j) = match parse_square(text, ws(text, i + 1)) {
                Ok(found) => found,
                Err(e) => return Err(e),
            };
            match parse_piecetype(text, ws(text, j)) {
                Ok((piece, k)) => Ok((Move::Place(square, piece), k)),
                Err(_) => Ok((Move::Place(square, Piece::Flat), j)),
            }
        } else if c == 'm' || c == 'M' {
            let (start, j) = match parse_square(text, ws(text, i + 1)) {
                Ok(found) => found,
                Err(e) => return Err(e),
            };
            let (end, k) = match parse_square(text, ws(text, j)) {
                Ok(found) => found,
                Err(e) => return Err(e),
            };
            let (dir, range) = match line(start, end) {
                Some(found) => found,
                None => return Err(ErrorType::InvalidMoveSquares(start, end)),
            };
            let (dropcounts, l) = match parse_dropcounts(text, k, range) {
                Ok(found) => found,
                Err(e) => return Err(e),
            };
            Ok((Move::Move(start, dir, range, dropcounts, false), l))
        } else {
            Err(ErrorType::InvalidChar(c))
        },
        None => Err(ErrorType::EndOfFile),
    }
}

/// Reads one move at the start of a text and hands back the text behind it. A move that
/// is read is well formed.
#[inline]
pub fn parse_move(input: &str) -> (r: Result<(Move, &str), ErrorType>)
    ensures
        match r {
            Ok((m, rest)) => exists|j: int|
                #![trigger input@.skip(j)]
                move_at(input@, 0) == Ok::<(Move, int), ErrorType>((m, j)) && 0 <= j <= input@.len()
                    && rest@ == input@.skip(j),
            Err(e) => move_at(input@, 0) == Err::<(Move, int), ErrorType>(e),
        },
        r matches Ok((m, _)) ==> m.well_formed(),
{
    let text = Text::new(input);
    match move_in(&text, 0) {
        Ok((m, j)) => {
            let rest = text.tail(j);
            proof {
                assert(rest@ == input@.skip(j as int));
            }
            Ok((m, rest))
        },
        Err(e) => Err(e),
    }
}

/// The list `acc` followed by the moves of a result.
pub open spec fn after(acc: Seq<Move>, r: Result<(Seq<Move>, int), ErrorType>) -> Result<
    (Seq<Move>, int),
    ErrorType,
> {
    match r {
        Ok((rest, end)) => Ok((acc + rest, end)),
        Err(e) => Err(e),
    }
}

/// Reads a list of moves, separated by commas, at the start of a text and hands back the
/// text behind it. Every move that is read is well formed.
pub fn parse_moves(input: &str) -> (r: Result<(Vec<Move>, &str), ErrorType>)
    ensures
        match r {
            Ok((moves, rest)) => exists|j: int|
                #![trigger input@.skip(j)]
                moves_of(input@) == Ok::<(Seq<Move>, int), ErrorType>((moves@, j)) && 0 <= j
                    <= input@.len() && rest@ == input@.skip(j),
            Err(e) => moves_of(input@) == Err::<(Seq<Move>, int), ErrorType>(e),
        },
        r matches Ok((moves, _)) ==> forall|k: int|
            0 <= k < moves@.len() ==> (#[trigger] moves@[k]).well_formed(),
{
    let text = Text::new(input);
    let mut moves: Vec<Move> = Vec::new();
    let (first, mut at) = match move_in(&text, ws(&text, 0)) {
        Ok(found) => found,
        Err(_) => {
            let rest = text.tail(0);
            proof {
                assert(rest@ == input@.skip(0));
            }
            return Ok((moves, rest));
        },
    };
    let ghost head = seq![first];
    moves.push(first);
    let mut more = true;
    while more
        invariant
            text.wf(),
            text@ == input@,
            at <= text@.len(),
            moves_of(input@) == after(moves@, more_moves(input@, at as int)),
            !more ==> more_moves(input@, at as int) == Ok::<(Seq<Move>, int), ErrorType>(
                (Seq::empty(), at as int),
            ),
            forall|k: int| 0 <= k < moves@.len() ==> (#[trigger] moves@[k]).well_formed(),
        decreases
                text@.len() - at + if more {
                    1int
                } else {
                    0int
                },
    {
        let j = ws(&text, at);
        match text.peek(j) {
            Some(c) => if c == ',' {
                let ghost before = moves@;
                let (m, k) = match move_in(&text, ws(&text, j + 1)) {
                    Ok(found) => found,
                    Err(e) => return Err(e),
                };
                moves.push(m);
                proof {
                    let next = more_moves(input@, k as int);
                    assert(after(before, after(seq![m], next)) == after(moves@, next)) by {
                        match next {
                            Ok((rest, end)) => {
                                assert(before + (seq![m] + rest) =~= before.push(m) + rest);
                            },
                            Err(_) => {},
                        }
                    }
                }
                at = k;
            } else {
                more = false;
            },
            None => {
                more = false;
            },
        }
    }
    let rest = text.tail(at);
    proof {
        assert(moves@ + Seq::<Move>::empty() =~= moves@);
        assert(rest@ == input@.skip(at as int));
    }
    Ok((moves, rest))
}

/// Reads the outcome of a game at the start of a text and hands back the text behind it.
pub fn parse_result(input: &str) -> (r: Result<(Winner, &str), ErrorType>)
    ensures
        match r {
            Ok((winner, rest)) => exists|j: int|
                #![trigger input@.skip(j)]
                result_of(input@) == Ok::<(Winner, int), ErrorType>((winner, j)) && 0 <= j
                    <= input@.len() && rest@ == input@.skip(j),
            Err(e) => result_of(input@) == Err::<(Winner, int), ErrorType>(e),
        },
{
    let text = Text::new(input);
    proof {
        assert(text@.skip(0) =~= input@);
    }
    match scan_result(&text, 0) {
        Scan::Found(winner, n) => {
            let rest = text.tail(n);
            proof {
                assert(rest@ == input@.skip(n as int));
            }
            Ok((winner, rest))
        },
        Scan::Unexpected(c) => Err(ErrorType::InvalidChar(c)),
        Scan::End => Err(ErrorType::EndOfFile),
    }
}

} // verus!
