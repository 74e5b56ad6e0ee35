//! Portable Tak Notation: moves as text, and text as moves.
//!
//! A placement is a square, with `S` for a wall or `C` for a capstone before it (`F` for
//! a flat may be written). A slide is the number of stones it lifts (1 if left out), the
//! square it starts from, a direction (`+` up, `-` down, `<` left, `>` right) and the
//! number of stones it leaves on each square of its way (all on the first if left out).

use vstd::prelude::*;

use crate::game::{drops_sum, lemma_sums_grow, Dir, Loc, Move, Piece, Winner};
use crate::playtak::{skip_ws, white};
use crate::tables::{lemma_sum_same, no_drops, with_drop};
use crate::text::Text;
use crate::tokens::{scan, scan_result, Scan};
use crate::tps::digit;

verus! {

/// A mark that a move threatens to win.
#[derive(Debug, Clone, Copy, PartialEq, Eq)]
pub enum TakAnnotation {
    /// `'`: the move threatens a road.
    Tak,
    /// `''`: the threat cannot be met.
    Tinue,
}

/// A mark of what the annotator thinks of a move.
#[derive(Debug, Clone, Copy, PartialEq, Eq)]
pub enum SubjAnnotation {
    /// `?`
    Questionable,
    /// `!`
    Surprising,
    /// `??`
    Blunder,
    /// `!!`
    VerySurprising,
    /// `?!`
    QuestionableSurprising,
    /// `!?`
    SurprisingQuestionable,
}

/// A move with the marks behind it.
#[derive(Debug)]
pub struct AnnotatedMove {
    pub m: Move,
    pub annotation: (Option<TakAnnotation>, Option<SubjAnnotation>),
}

impl Clone for AnnotatedMove {
    fn clone(&self) -> (r: Self) {
        AnnotatedMove { m: self.m.clone(), annotation: (self.annotation.0, self.annotation.1) }
    }
}

/// A game record.
#[derive(Debug)]
pub struct Ptn {
    pub player1: String,
    pub player2: String,
    pub size: usize,
    pub result: Option<Winner>,
    pub tags: Vec<Tag>,
    pub moves: Vec<AnnotatedMove>,
}

/// A tag of a game record: a name and a value.
#[derive(Debug)]
pub struct Tag {
    name: String,
    value: String,
}

#[derive(Debug, Clone, Copy, PartialEq, Eq)]
pub enum ErrorType {
    /// A character that cannot stand where it stands.
    InvalidChar(char),
    /// The text ends where more was expected.
    EndOfFile,
    /// A slide lists more than seven drop counts.
    TooManyDrops,
    /// The drop counts of a slide do not add up to the number of stones it lifts.
    InvalidPieceCount,
    NoDrops,
}

#[derive(Debug, Clone, Copy, PartialEq, Eq)]
pub struct ParseError {
    err_type: ErrorType,
}

impl View for ParseError {
    type V = ErrorType;

    closed spec fn view(&self) -> ErrorType {
        self.err_type
    }
}

impl ParseError {
    /// What went wrong.
    pub fn err_type(&self) -> (r: ErrorType)
        ensures
            r == self@,
    {
        self.err_type
    }
}

// ----- the notation -----

/// The square at place `i`: a column `a` to `h`, in either case, and a row `1` to `8`.
pub open spec fn square_at(s: Seq<char>, i: int) -> Result<(Loc, int), ErrorType> {
    if i >= s.len() {
        Err(ErrorType::EndOfFile)
    } else if !(('a' <= s[i] && s[i] <= 'h') || ('A' <= s[i] && s[i] <= 'H')) {
        Err(ErrorType::InvalidChar(s[i]))
    } else if i + 1 >= s.len() {
        Err(ErrorType::EndOfFile)
    } else if !('1' <= s[i + 1] && s[i + 1] <= '8') {
        Err(ErrorType::InvalidChar(s[i + 1]))
    } else {
        let x = if 'a' <= s[i] {
            (s[i] as u8 - 97) as u8
        } else {
            (s[i] as u8 - 65) as u8
        };
        Ok((Loc { x, y: (s[i + 1] as u8 - 49) as u8 }, i + 2))
    }
}

/// The kind of stone at place `i`: `F`, `S` or `C`, in either case.
pub open spec fn piece_type_at(s: Seq<char>, i: int) -> Result<(Piece, int), ErrorType> {
    if i >= s.len() {
        Err(ErrorType::EndOfFile)
    } else if s[i] == 'f' || s[i] == 'F' {
        Ok((Piece::Flat, i + 1))
    } else if s[i] == 's' || s[i] == 'S' {
        Ok((Piece::Wall, i + 1))
    } else if s[i] == 'c' || s[i] == 'C' {
        Ok((Piece::Cap, i + 1))
    } else {
        Err(ErrorType::InvalidChar(s[i]))
    }
}

/// The direction at place `i`.
pub open spec fn direction_at(s: Seq<char>, i: int) -> Result<(Dir, int), ErrorType> {
    if i >= s.len() {
        Err(ErrorType::EndOfFile)
    } else if s[i] == '+' {
        Ok((Dir::Up, i + 1))
    } else if s[i] == '-' {
        Ok((Dir::Down, i + 1))
    } else if s[i] == '<' {
        Ok((Dir::Left, i + 1))
    } else if s[i] == '>' {
        Ok((Dir::Right, i + 1))
    } else {
        Err(ErrorType::InvalidChar(s[i]))
    }
}

/// Whether a character is a count: a digit `1` to `8`.
pub open spec fn is_count(c: char) -> bool {
    '1' <= c && c <= '8'
}

/// The number of counts in a row from place `i` on.
pub open spec fn counts_run(s: Seq<char>, i: int) -> nat
    decreases s.len() - i,
{
    if 0 <= i < s.len() && is_count(s[i]) {
        1 + counts_run(s, i + 1)
    } else {
        0
    }
}

/// The drop counts that the first `n` characters from place `i` on stand for.
pub open spec fn drops_from(s: Seq<char>, i: int, n: nat) -> [u8; 7]
    decreases n,
{
    if n == 0 {
        no_drops()
    } else {
        with_drop(drops_from(s, i, (n - 1) as nat), n - 1, (s[i + n - 1] as u8 - 48) as u8)
    }
}

/// The slide at place `i`. Where the number of stones is written, the drop counts must
/// add up to it; where it is left out, it is their sum, or 1 if they are left out too.
pub open spec fn movement_at(s: Seq<char>, i: int) -> Result<(Move, int), ErrorType> {
    let counted = 0 <= i < s.len() && is_count(s[i]);
    let j = if counted {
        i + 1
    } else {
        i
    };
    match square_at(s, j) {
        Err(e) => Err(e),
        Ok((square, k)) => match direction_at(s, k) {
            Err(e) => Err(e),
            Ok((dir, l)) => {
                let range = counts_run(s, l);
                if range == 0 {
                    let lifted = if counted {
                        (s[i] as u8 - 48) as u8
                    } else {
                        1u8
                    };
                    Ok((Move::Move(square, dir, 1, with_drop(no_drops(), 0, lifted), false), l))
                } else if range <= 7 {
                    let drops = drops_from(s, l, range);
                    if counted && s[i] as u8 - 48 != drops_sum(drops, range) {
                        Err(ErrorType::InvalidPieceCount)
                    } else {
                        Ok((Move::Move(square, dir, range as u8, drops, false), l + range))
                    }
                } else {
                    Err(ErrorType::TooManyDrops)
                }
            },
        }
    }
}

/// The placement at place `i`. A letter that can be read as a kind of stone is read as
/// one if a square follows it, and as the column of the square if not.
pub open spec fn placement_at(s: Seq<char>, i: int) -> Result<(Move, int), ErrorType> {
    match piece_type_at(s, i) {
        Ok((piece, j)) => match square_at(s, j) {
            Ok((square, k)) => Ok((Move::Place(square, piece), k)),
            Err(e) => match square_at(s, i) {
                Ok((square, k)) => Ok((Move::Place(square, Piece::Flat), k)),
                Err(_) => Err(e),
            },
        },
        Err(_) => match square_at(s, i) {
            Ok((square, k)) => Ok((Move::Place(square, Piece::Flat), k)),
            Err(e) => Err(e),
        },
    }
}

/// The move at place `i`: a slide, or else a placement. A slide with too many drop counts
/// or with the wrong number of stones is an error, not a placement.
pub open spec fn move_at(s: Seq<char>, i: int) -> Result<(Move, int), ErrorType> {
    match movement_at(s, i) {
        Ok(found) => Ok(found),
        Err(ErrorType::TooManyDrops) => Err(ErrorType::TooManyDrops),
        Err(ErrorType::InvalidPieceCount) => Err(ErrorType::InvalidPieceCount),
        Err(_) => placement_at(s, i),
    }
}

/// The mark of a threat at place `i`, if there is one.
pub open spec fn tak_at(s: Seq<char>, i: int) -> Option<(TakAnnotation, int)> {
    if 0 <= i < s.len() && s[i] == '\'' {
        if i + 1 < s.len() && s[i + 1] == '\'' {
            Some((TakAnnotation::Tinue, i + 2))
        } else {
            Some((TakAnnotation::Tak, i + 1))
        }
    } else {
        None
    }
}

/// The mark of an opinion at place `i`, if there is one.
pub open spec fn subj_at(s: Seq<char>, i: int) -> Option<(SubjAnnotation, int)> {
    if 0 <= i < s.len() && s[i] == '?' {
        if i + 1 < s.len() && s[i + 1] == '?' {
            Some((SubjAnnotation::Blunder, i + 2))
        } else if i + 1 < s.len() && s[i + 1] == '!' {
            Some((SubjAnnotation::QuestionableSurprising, i + 2))
        } else {
            Some((SubjAnnotation::Questionable, i + 1))
        }
    } else if 0 <= i < s.len() && s[i] == '!' {
        if i + 1 < s.len() && s[i + 1] == '!' {
            Some((SubjAnnotation::VerySurprising, i + 2))
        } else if i + 1 < s.len() && s[i + 1] == '?' {
            Some((SubjAnnotation::SurprisingQuestionable, i + 2))
        } else {
            Some((SubjAnnotation::Surprising, i + 1))
        }
    } else {
        None
    }
}

/// The marks from place `i` on, and the place behind them: a mark of a threat and a mark
/// of an opinion, in either order, each of which may be missing and may stand behind
/// separating characters.
pub open spec fn annotation_at(s: Seq<char>, i: int) -> (
    (Option<TakAnnotation>, Option<SubjAnnotation>),
    int,
) {
    let start = skip_ws(s, i);
    match tak_at(s, start) {
        Some((tak, j)) => match subj_at(s, skip_ws(s, j)) {
            Some((subj, k)) => ((Some(tak), Some(subj)), k),
            None => ((Some(tak), None), j),
        },
        None => match subj_at(s, start) {
            Some((subj, j)) => match tak_at(s, skip_ws(s, j)) {
                Some((tak, k)) => ((Some(tak), Some(subj)), k),
                None => ((None, Some(subj)), j),
            },
            None => ((None, None), i),
        },
    }
}

/// The move with its marks that a text stands for from its first to its last character.
pub open spec fn annotated_of(s: Seq<char>) -> Option<AnnotatedMove> {
    match move_at(s, 0) {
        Err(_) => None,
        Ok((m, j)) => {
            let (annotation, k) = annotation_at(s, j);
            if k == s.len() {
                Some(AnnotatedMove { m, annotation })
            } else {
                None
            }
        },
    }
}

/// The move that a text stands for from its first to its last character; marks behind
/// the move are passed over.
pub open spec fn move_of(s: Seq<char>) -> Option<Move> {
    match annotated_of(s) {
        Some(a) => Some(a.m),
        None => None,
    }
}

/// The outcome at the start of `s`, and the place behind it.
pub open spec fn winner_of(s: Seq<char>) -> Result<(Winner, int), ErrorType> {
    match scan(s) {
        Scan::Found(winner, n) => Ok((winner, n as int)),
        Scan::Unexpected(c) => Err(ErrorType::InvalidChar(c)),
        Scan::End => Err(ErrorType::EndOfFile),
    }
}

/// The text without the white space at its start and at its end, as `str::trim` defines
/// white space.
pub uninterp spec fn trimmed(s: Seq<char>) -> Seq<char>;

/// `str::trim`: the result is the text without leading and trailing white space.
#[verifier::external_body]
fn trim(input: &str) -> (r: &str)
    ensures
        r@ == trimmed(input@),
{
    input.trim()
}

// ----- reading -----

fn square_in(text: &Text, i: usize) -> (r: Result<(Loc, usize), ErrorType>)
    requires
        text.wf(),
        i <= text@.len(),
    ensures
        match r {
            Ok((loc, j)) => square_at(text@, i as int) == Ok::<(Loc, int), ErrorType>(
                (loc, j as int),
            ) && j == i + 2 && j <= text@.len() && loc.x < 8 && loc.y < 8,
            Err(e) => square_at(text@, i as int) == Err::<(Loc, int), ErrorType>(e),
        },
{
    let x = match text.peek(i) {
        Some(c) => if c >= 'a' && c <= 'h' {
            c as u8 - 97
        } else if c >= 'A' && c <= 'H' {
            c as u8 - 65
        } else {
            return Err(ErrorType::InvalidChar(c));
        },
        None => return Err(ErrorType::EndOfFile),
    };
    let y = match text.peek(i + 1) {
        Some(c) => if c >= '1' && c <= '8' {
            c as u8 - 49
        } else {
            return Err(ErrorType::InvalidChar(c));
        },
        None => return Err(ErrorType::EndOfFile),
    };
    Ok((Loc { x, y }, i + 2))
}

fn parse_piece_type(text: &Text, i: usize) -> (r: Result<(Piece, usize), ErrorType>)
    requires
        text.wf(),
        i <= text@.len(),
    ensures
        match r {
            Ok((piece, j)) => piece_type_at(text@, i as int) == Ok::<(Piece, int), ErrorType>(
                (piece, j as int),
            ) && j == i + 1 && j <= text@.len(),
            Err(e) => piece_type_at(text@, i as int) == Err::<(Piece, int), ErrorType>(e),
        },
{
    match text.peek(i) {
        Some(c) => if c == 'f' || c == 'F' {
            Ok((Piece::Flat, i + 1))
        } else if c == 's' || c == 'S' {
            Ok((Piece::Wall, i + 1))
        } else if c == 'c' || c == 'C' {
            Ok((Piece::Cap, i + 1))
        } else {
            Err(ErrorType::InvalidChar(c))
        },
        None => Err(ErrorType::EndOfFile),
    }
}

fn parse_direction(text: &Text, i: usize) -> (r: Result<(Dir, usize), ErrorType>)
    requires
        text.wf(),
        i <= text@.len(),
    ensures
        match r {
            Ok((dir, j)) => direction_at(text@, i as int) == Ok::<(Dir, int), ErrorType>(
                (dir, j as int),
            ) && j == i + 1 && j <= text@.len(),
            Err(e) => direction_at(text@, i as int) == Err::<(Dir, int), ErrorType>(e),
        },
{
    match text.peek(i) {
        Some(c) => if c == '+' {
            Ok((Dir::Up, i + 1))
        } else if c == '-' {
            Ok((Dir::Down, i + 1))
        } else if c == '<' {
            Ok((Dir::Left, i + 1))
        } else if c == '>' {
            Ok((Dir::Right, i + 1))
        } else {
            Err(ErrorType::InvalidChar(c))
        },
        None => Err(ErrorType::EndOfFile),
    }
}

/// The number of counts in a row from place `i` on.
fn count_run(text: &Text, i: usize) -> (r: usize)
    requires
        text.wf(),
        i <= text@.len(),
    ensures
        r == counts_run(text@, i as int),
        i + r <= text@.len(),
        forall|k: int| i <= k < i + r ==> is_count(#[trigger] text@[k]),
{
    let mut j = i;
    while j < text.len() && text.at(j) >= '1' && text.at(j) <= '8'
        invariant
            text.wf(),
            i <= j <= text@.len(),
            counts_run(text@, i as int) == (j - i) + counts_run(text@, j as int),
            forall|k: int| i <= k < j ==> is_count(#[trigger] text@[k]),
        decreases text@.len() - j,
    {
        j += 1;
    }
    j - i
}

/// The first `n` drop counts are those of the text, at least 1 each, and the others 0.
pub proof fn lemma_drops_from(s: Seq<char>, i: int, n: nat)
    requires
        n <= 7,
        0 <= i,
        i + n <= s.len(),
        forall|k: int| i <= k < i + n ==> is_count(#[trigger] s[k]),
    ensures
        forall|k: int| 0 <= k < n ==> (#[trigger] drops_from(s, i, n)[k]) == s[i + k] as u8 - 48,
        forall|k: int| n <= k < 7 ==> (#[trigger] drops_from(s, i, n)[k]) == 0,
    decreases n,
{
    if n > 0 {
        lemma_drops_from(s, i, (n - 1) as nat);
        assert(is_count(s[i + n - 1]));
        let shorter = drops_from(s, i, (n - 1) as nat);
        let v = (s[i + n - 1] as u8 - 48) as u8;
        let longer = with_drop(shorter, n - 1, v);
        assert forall|k: int| 0 <= k < 7 implies #[trigger] longer[k] == if k == n - 1 {
            v
        } else {
            shorter[k]
        } by {}
    } else {
        assert forall|k: int| 0 <= k < 7 implies #[trigger] no_drops()[k] == 0 by {}
    }
}

fn parse_movement(text: &Text, i: usize) -> (r: Result<(Move, usize), ErrorType>)
    requires
        text.wf(),
        i <= text@.len(),
    ensures
        match r {
            Ok((m, j)) => movement_at(text@, i as int) == Ok::<(Move, int), ErrorType>(
                (m, j as int),
            ) && i < j <= text@.len() && m.well_formed(),
            Err(e) => movement_at(text@, i as int) == Err::<(Move, int), ErrorType>(e),
        },
{
    let (lifted, j) = match text.peek(i) {
        Some(c) => if c >= '1' && c <= '8' {
            (Some(c as u8 - 48), i + 1)
        } else {
            (None, i)
        },
        None => (None, i),
    };
    let (square, k) = match square_in(text, j) {
        Ok(found) => found,
        Err(e) => return Err(e),
    };
    let (dir, l) = match parse_direction(text, k) {
        Ok(found) => found,
        Err(e) => return Err(e),
    };
    let range = count_run(text, l);
    let mut drops = [0u8;7];
    proof {
        assert(drops@ =~= no_drops()@);
        assert(drops == no_drops());
    }
    if range == 0 {
        let num_pieces = match lifted {
            Some(n) => n,
            None => 1,
        };
        drops[0] = num_pieces;
        proof {
            let wanted = with_drop(no_drops(), 0, num_pieces);
            assert(drops@ =~= wanted@);
            assert(drops == wanted);
        }
        Ok((Move::Move(square, dir, 1, drops, false), l))
    } else if range <= 7 {
        let mut n: usize = 0;
        let mut sum: u8 = 0;
        proof {
            lemma_drops_from(text@, l as int, range as nat);
            text.lemma_fits();
        }
        while n < range
            invariant
                text.wf(),
                n <= range <= 7,
                l + range <= text@.len() <= usize::MAX,
                forall|k: int| l <= k < l + range ==> is_count(#[trigger] text@[k]),
                drops == drops_from(text@, l as int, n as nat),
                sum == drops_sum(drops, n as nat),
                sum <= 8 * n,
            decreases range - n,
        {
            let ghost before = drops;
            let c = text.at(l + n);
            proof {
                assert(is_count(text@[l + n]));
            }
            drops[n] = c as u8 - 48;
            proof {
                let wanted = with_drop(before, n as int, (c as u8 - 48) as u8);
                assert(drops@ =~= wanted@);
                assert(drops == wanted);
                lemma_sum_same(drops, before, n as nat);
            }
            sum += drops[n];
            n += 1;
        }
        proof {
            assert forall|k: int| 0 <= k < 7 && k < range implies #[trigger] drops[k] >= 1 by {
                assert(is_count(text@[l + k]));
            }
        }
        match lifted {
            Some(num_pieces) => if num_pieces != sum {
                return Err(ErrorType::InvalidPieceCount);
            },
            None => {},
        }
        Ok((Move::Move(square, dir, range as u8, drops, false), l + range))
    } else {
        Err(ErrorType::TooManyDrops)
    }
}

fn parse_placement(text: &Text, i: usize) -> (r: Result<(Move, usize), ErrorType>)
    requires
        text.wf(),
        i <= text@.len(),
    ensures
        match r {
            Ok((m, j)) => placement_at(text@, i as int) == Ok::<(Move, int), ErrorType>(
                (m, j as int),
            ) && i < j <= text@.len() && m.well_formed(),
            Err(e) => placement_at(text@, i as int) == Err::<(Move, int), ErrorType>(e),
        },
{
    match parse_piece_type(text, i) {
        Ok((piece, j)) => match square_in(text, j) {
            Ok((square, k)) => Ok((Move::Place(square, piece), k)),
            Err(e) => match square_in(text, i) {
                Ok((square, k)) => Ok((Move::Place(square, Piece::Flat), k)),
                Err(_) => Err(e),
            },
        },
        Err(_) => match square_in(text, i) {
            Ok((square, k)) => Ok((Move::Place(square, Piece::Flat), k)),
            Err(e) => Err(e),
        },
    }
}

fn parse_move_internal(text: &Text, i: usize) -> (r: Result<(Move, usize), ErrorType>)
    requires
        text.wf(),
        i <= text@.len(),
    ensures
        match r {
            Ok((m, j)) => move_at(text@, i as int) == Ok::<(Move, int), ErrorType>((m, j as int))
                && i < j <= text@.len() && m.well_formed(),
            Err(e) => move_at(text@, i as int) == Err::<(Move, int), ErrorType>(e),
        },
{
    match parse_movement(text, i) {
        Ok(res) => Ok(res),
        Err(ErrorType::TooManyDrops) => Err(ErrorType::TooManyDrops),
        Err(ErrorType::InvalidPieceCount) => Err(ErrorType::InvalidPieceCount),
        Err(_) => parse_placement(text, i),
    }
}

/// The first place from `i` on that holds no separating character.
fn ws(text: &Text, i: usize) -> (r: usize)
    requires
        text.wf(),
        i <= text@.len(),
    ensures
        r == skip_ws(text@, i as int),
        i <= r <= text@.len(),
{
    let mut j = i;
    while j < text.len() && (text.at(j) == ' ' || text.at(j) == '\t' || text.at(j) == '\n'
        || text.at(j) == '\r')
        invariant
            text.wf(),
            i <= j <= text@.len(),
            skip_ws(text@, i as int) == skip_ws(text@, j as int),
        decreases text@.len() - j,
    {
        j += 1;
    }
    j
}

fn tak_eval(text: &Text, i: usize) -> (r: Option<(TakAnnotation, usize)>)
    requires
        text.wf(),
        i <= text@.len(),
    ensures
        match r {
            Some((tak, j)) => tak_at(text@, i as int) == Some((tak, j as int)) && j
                <= text@.len(),
            None => tak_at(text@, i as int) is None,
        },
{
    match text.peek(i) {
        Some(c) => if c == '\'' {
            match text.peek(i + 1) {
                Some(d) => if d == '\'' {
                    Some((TakAnnotation::Tinue, i + 2))
                } else {
                    Some((TakAnnotation::Tak, i + 1))
                },
                None => Some((TakAnnotation::Tak, i + 1)),
            }
        } else {
            None
        },
        None => None,
    }
}

fn subj_eval(text: &Text, i: usize) -> (r: Option<(SubjAnnotation, usize)>)
    requires
        text.wf(),
        i <= text@.len(),
    ensures
        match r {
            Some((subj, j)) => subj_at(text@, i as int) == Some((subj, j as int)) && j
                <= text@.len(),
            None => subj_at(text@, i as int) is None,
        },
{
    let first = match text.peek(i) {
        Some(c) => c,
        None => return None,
    };
    if first != '?' && first != '!' {
        return None;
    }
    let second = text.peek(i + 1);
    let doubled = match second {
        Some(d) => d == first,
        None => false,
    };
    let mixed = match second {
        Some(d) => d != first && (d == '?' || d == '!'),
        None => false,
    };
    if first == '?' {
        if doubled {
            Some((SubjAnnotation::Blunder, i + 2))
        } else if mixed {
            Some((SubjAnnotation::QuestionableSurprising, i + 2))
        } else {
            Some((SubjAnnotation::Questionable, i + 1))
        }
    } else {
        if doubled {
            Some((SubjAnnotation::VerySurprising, i + 2))
        } else if mixed {
            Some((SubjAnnotation::SurprisingQuestionable, i + 2))
        } else {
            Some((SubjAnnotation::Surprising, i + 1))
        }
    }
}

/// Reads the marks behind a move.
fn annotations(text: &Text, i: usize) -> (r: (
    (Option<TakAnnotation>, Option<SubjAnnotation>),
    usize,
))
    requires
        text.wf(),
        i <= text@.len(),
    ensures
        annotation_at(text@, i as int) == (r.0, r.1 as int),
        r.1 <= text@.len(),
{
    let start = ws(text, i);
    match tak_eval(text, start) {
        Some((tak, j)) => match subj_eval(text, ws(text, j)) {
            Some((subj, k)) => ((Some(tak), Some(subj)), k),
            None => ((Some(tak), None), j),
        },
        None => match subj_eval(text, start) {
            Some((subj, j)) => match tak_eval(text, ws(text, j)) {
                Some((tak, k)) => ((Some(tak), Some(subj)), k),
                None => ((None, Some(subj)), j),
            },
            None => ((None, None), i),
        },
    }
}

/// Reads a move with the marks behind it. The text must hold nothing else.
pub fn parse_annotated(input: &str) -> (r: Option<AnnotatedMove>)
    ensures
        r == annotated_of(input@),
        r matches Some(a) ==> a.m.well_formed(),
{
    let text = Text::new(input);
    match parse_move_internal(&text, 0) {
        Ok((m, j)) => {
            let (annotation, k) = annotations(&text, j);
            if k == text.len() {
                Some(AnnotatedMove { m, annotation })
            } else {
                None
            }
        },
        Err(_) => None,
    }
}

/// Reads a move. The text must hold nothing else but marks behind the move.
pub fn parse_exact(input: &str) -> (r: Option<Move>)
    ensures
        r == move_of(input@),
        r matches Some(m) ==> m.well_formed(),
{
    match parse_annotated(input) {
        Some(a) => Some(a.m),
        None => None,
    }
}

/// Reads a move from a text that may have white space around it.
pub fn parse_move(input: &str) -> (r: Option<Move>)
    ensures
        r == move_of(trimmed(input@)),
        r matches Some(m) ==> m.well_formed(),
{
    parse_exact(trim(input))
}

/// Reads a game record. Game records are not read yet: there is none that this function
/// accepts.
pub fn parse(input: &str) -> (r: Option<Ptn>)
    ensures
        r is None,
{
    None
}

/// Reads a square at the start of a text and hands back the text behind it.
pub fn parse_square(input: &str) -> (r: Result<(&str, Loc), ParseError>)
    ensures
        match r {
            Ok((rest, loc)) => square_at(input@, 0) == Ok::<(Loc, int), ErrorType>((loc, 2))
                && input@.len() >= 2 && rest@ == input@.skip(2) && loc.x < 8 && loc.y < 8,
            Err(e) => square_at(input@, 0) == Err::<(Loc, int), ErrorType>(e@),
        },
{
    let text = Text::new(input);
    match square_in(&text, 0) {
        Ok((loc, j)) => Ok((text.tail(j), loc)),
        Err(e) => Err(ParseError { err_type: e }),
    }
}

/// Reads the outcome of a game at the start of a text and hands back the text behind it.
pub fn parse_winner(input: &str) -> (r: Result<(&str, Winner), ErrorType>)
    ensures
        match r {
            Ok((rest, winner)) => exists|j: int|
                #![trigger input@.skip(j)]
                winner_of(input@) == Ok::<(Winner, int), ErrorType>((winner, j)) && 0 <= j
                    <= input@.len() && rest@ == input@.skip(j),
            Err(e) => winner_of(input@) == Err::<(Winner, int), ErrorType>(e),
        },
{
    let text = Text::new(input);
    proof {
        assert(text@.skip(0) =~= input@);
    }
    match scan_result(&text, 0) {
        Scan::Found(winner, n) => {
            let rest = text.tail(n);
            proof {
                assert(rest@ == input@.skip(n as int));
            }
            Ok((rest, winner))
        },
        Scan::Unexpected(c) => Err(ErrorType::InvalidChar(c)),
        Scan::End => Err(ErrorType::EndOfFile),
    }
}

// ----- tags -----

impl View for Tag {
    type V = (Seq<char>, Seq<char>);

    /// The name and the value.
    closed spec fn view(&self) -> (Seq<char>, Seq<char>) {
        (self.name@, self.value@)
    }
}

impl Tag {
    pub fn name(&self) -> (r: &str)
        ensures
            r@ == self@.0,
    {
        self.name.as_str()
    }

    pub fn value(&self) -> (r: &str)
        ensures
            r@ == self@.1,
    {
        self.value.as_str()
    }
}

/// The text behind the character `ch`, if the text starts with it.
pub open spec fn expect_at(s: Seq<char>, ch: char) -> Result<Seq<char>, ErrorType> {
    if s.len() == 0 {
        Err(ErrorType::EndOfFile)
    } else if s[0] == ch {
        Ok(s.skip(1))
    } else {
        Err(ErrorType::InvalidChar(s[0]))
    }
}

/// Whether a character can stand in the name of a tag: a letter or `_`.
pub open spec fn is_key_char(c: char) -> bool {
    ('a' <= c && c <= 'z') || ('A' <= c && c <= 'Z') || c == '_'
}

/// The number of name characters in a row from place `i` on.
pub open spec fn key_run(s: Seq<char>, i: int) -> nat
    decreases s.len() - i,
{
    if 0 <= i < s.len() && is_key_char(s[i]) {
        1 + key_run(s, i + 1)
    } else {
        0
    }
}

/// The lower-case letter of an upper-case letter of `A` to `Z`; any other character as
/// it is.
pub open spec fn lower(c: char) -> char {
    if 'A' <= c && c <= 'Z' {
        ((c as u8 + 32) as u8) as char
    } else {
        c
    }
}

/// The name of a tag at the start of a text, in lower case, and the text behind it.
pub open spec fn key_of(s: Seq<char>) -> Result<(Seq<char>, Seq<char>), ErrorType> {
    if s.len() == 0 {
        Err(ErrorType::EndOfFile)
    } else if key_run(s, 0) == 0 {
        Err(ErrorType::InvalidChar(s[0]))
    } else {
        Ok((s.take(key_run(s, 0) as int).map_values(|c: char| lower(c)), s.skip(key_run(s, 0) as int)))
    }
}

/// The number of characters in a row from place `i` on that are no quotation mark.
pub open spec fn unquoted_run(s: Seq<char>, i: int) -> nat
    decreases s.len() - i,
{
    if 0 <= i < s.len() && s[i] != '"' {
        1 + unquoted_run(s, i + 1)
    } else {
        0
    }
}

/// The value of a tag at the start of a text, which stands between quotation marks, and
/// the text behind it.
pub open spec fn value_of(s: Seq<char>) -> Result<(Seq<char>, Seq<char>), ErrorType> {
    match expect_at(s, '"') {
        Err(e) => Err(e),
        Ok(inner) => {
            let n = unquoted_run(inner, 0) as int;
            match expect_at(inner.skip(n), '"') {
                Err(e) => Err(e),
                Ok(rest) => Ok((inner.take(n), rest)),
            }
        },
    }
}

/// The text without the white space at its start, as `str::trim_start` defines white
/// space.
pub uninterp spec fn left_trimmed(s: Seq<char>) -> Seq<char>;

/// `str::trim_start`: the result is the text without leading white space.
#[verifier::external_body]
fn trim_left(input: &str) -> (r: &str)
    ensures
        r@ == left_trimmed(input@),
{
    input.trim_start()
}

/// The tag at the start of a text, and the text behind it: `[`, a name, a value in
/// quotation marks and `]`, with white space before the name, the value and the `]` as
/// one likes.
pub open spec fn tag_of(s: Seq<char>) -> Result<((Seq<char>, Seq<char>), Seq<char>), ErrorType> {
    match expect_at(s, '[') {
        Err(e) => Err(e),
        Ok(opened) => match key_of(left_trimmed(opened)) {
            Err(e) => Err(e),
            Ok((name, named)) => match value_of(left_trimmed(named)) {
                Err(e) => Err(e),
                Ok((value, valued)) => match expect_at(left_trimmed(valued), ']') {
                    Err(e) => Err(e),
                    Ok(rest) => Ok(((name, value), rest)),
                },
            },
        },
    }
}

/// The text behind the character `ch`, if the text starts with it.
pub fn expect_char(input: &str, ch: char) -> (r: Result<&str, ParseError>)
    ensures
        match r {
            Ok(rest) => expect_at(input@, ch) == Ok::<Seq<char>, ErrorType>(rest@),
            Err(e) => expect_at(input@, ch) == Err::<Seq<char>, ErrorType>(e@),
        },
{
    let text = Text::new(input);
    match text.peek(0) {
        Some(c) => if c == ch {
            Ok(text.tail(1))
        } else {
            Err(ParseError { err_type: ErrorType::InvalidChar(c) })
        },
        None => Err(ParseError { err_type: ErrorType::EndOfFile }),
    }
}

/// The lower-case letter of an upper-case letter; any other character as it is.
fn to_lower(c: char) -> (r: char)
    ensures
        r == lower(c),
{
    if c >= 'A' && c <= 'Z' {
        ((c as u8) + 32) as char
    } else {
        c
    }
}

/// Reads the name of a tag at the start of a text.
pub fn parse_key(input: &str) -> (r: Result<(&str, String), ParseError>)
    ensures
        match r {
            Ok((rest, key)) => key_of(input@) == Ok::<(Seq<char>, Seq<char>), ErrorType>(
                (key@, rest@),
            ),
            Err(e) => key_of(input@) == Err::<(Seq<char>, Seq<char>), ErrorType>(e@),
        },
{
    let text = Text::new(input);
    let first = match text.peek(0) {
        Some(c) => c,
        None => return Err(ParseError { err_type: ErrorType::EndOfFile }),
    };
    let mut key = String::new();
    let mut n: usize = 0;
    let ghost label = |c: char| lower(c);
    while n < text.len() && (text.at(n) >= 'a' && text.at(n) <= 'z' || text.at(n) >= 'A' && text.at(n)
        <= 'Z' || text.at(n) == '_')
        invariant
            text.wf(),
            text@ == input@,
            n <= text@.len(),
            label == |c: char| lower(c),
            key_run(input@, 0) == n + key_run(input@, n as int),
            key@ == input@.take(n as int).map_values(label),
        decreases text@.len() - n,
    {
        let ghost before = key@;
        key.push(to_lower(text.at(n)));
        proof {
            assert(input@.take(n + 1).map_values(label) =~= before.push(lower(input@[n as int])));
        }
        n += 1;
    }
    if n == 0 {
        return Err(ParseError { err_type: ErrorType::InvalidChar(first) });
    }
    Ok((text.tail(n), key))
}

/// Reads the value of a tag at the start of a text.
pub fn parse_value(input: &str) -> (r: Result<(&str, String), ParseError>)
    ensures
        match r {
            Ok((rest, value)) => value_of(input@) == Ok::<(Seq<char>, Seq<char>), ErrorType>(
                (value@, rest@),
            ),
            Err(e) => value_of(input@) == Err::<(Seq<char>, Seq<char>), ErrorType>(e@),
        },
{
    let remaining = match expect_char(input, '"') {
        Ok(rest) => rest,
        Err(e) => return Err(e),
    };
    let text = Text::new(remaining);
    let mut n: usize = 0;
    while n < text.len() && text.at(n) != '"'
        invariant
            text.wf(),
            n <= text@.len(),
            unquoted_run(text@, 0) == n + unquoted_run(text@, n as int),
        decreases text@.len() - n,
    {
        n += 1;
    }
    let value = text.slice(0, n);
    let behind = text.tail(n);
    proof {
        assert(text@.subrange(0, n as int) =~= text@.take(n as int));
    }
    match expect_char(behind, '"') {
        Ok(rest) => Ok((rest, value.to_owned())),
        Err(e) => Err(e),
    }
}

/// Reads a tag at the start of a text.
pub fn parse_tag(input: &str) -> (r: Result<(&str, Tag), ParseError>)
    ensures
        match r {
            Ok((rest, tag)) => tag_of(input@) == Ok::<
                ((Seq<char>, Seq<char>), Seq<char>),
                ErrorType,
            >((tag@, rest@)),
            Err(e) => tag_of(input@) == Err::<((Seq<char>, Seq<char>), Seq<char>), ErrorType>(e@),
        },
{
    let remaining = match expect_char(input, '[') {
        Ok(rest) => rest,
        Err(e) => return Err(e),
    };
    let (remaining, name) = match parse_key(trim_left(remaining)) {
        Ok(found) => found,
        Err(e) => return Err(e),
    };
    let (remaining, value) = match parse_value(trim_left(remaining)) {
        Ok(found) => found,
        Err(e) => return Err(e),
    };
    let remaining = match expect_char(trim_left(remaining), ']') {
        Ok(rest) => rest,
        Err(e) => return Err(e),
    };
    Ok((remaining, Tag { name, value }))
}

// ----- writing -----

/// The letter of column `x`.
pub open spec fn file_char(x: u8) -> char {
    ((97 + x) as u8) as char
}

/// The digit of row `y`.
pub open spec fn rank_char(y: u8) -> char {
    ((49 + y) as u8) as char
}

/// The letter of a kind of stone: none for a flat.
pub open spec fn piece_text(piece: Piece) -> Seq<char> {
    match piece {
        Piece::Cap => seq!['C'],
        Piece::Wall => seq!['S'],
        Piece::Flat => Seq::empty(),
    }
}

/// The sign of a direction.
pub open spec fn dir_char(dir: Dir) -> char {
    match dir {
        Dir::Up => '+',
        Dir::Down => '-',
        Dir::Left => '<',
        Dir::Right => '>',
    }
}

/// The drop counts from square `k` on as digits, up to the first that is 0.
pub open spec fn drops_text(drops: [u8; 7], k: nat) -> Seq<char>
    decreases 7 - k,
{
    if k >= 7 || drops[k as int] == 0 {
        Seq::empty()
    } else {
        seq![digit(drops[k as int] as nat)] + drops_text(drops, k + 1)
    }
}

/// A move as text. A slide shows the number of stones it lifts unless that is 1, and its
/// drop counts unless it covers a single square.
pub open spec fn move_text(m: Move) -> Seq<char> {
    match m {
        Move::Place(loc, piece) => piece_text(piece) + seq![file_char(loc.x), rank_char(loc.y)],
        Move::Move(loc, dir, range, drops, _) => {
            let lifted = drops_sum(drops, 7);
            (if lifted != 1 {
                seq![digit(lifted)]
            } else {
                Seq::empty()
            }) + seq![file_char(loc.x), rank_char(loc.y), dir_char(dir)] + (if range > 1 {
                drops_text(drops, 0)
            } else {
                Seq::empty()
            })
        },
    }
}

/// A move that can be written: its square is on a board of 8 by 8 squares, and a slide
/// lifts at most 9 stones, so that every number is one digit.
pub open spec fn writable(m: Move) -> bool {
    match m {
        Move::Place(loc, _) => loc.x < 8 && loc.y < 8,
        Move::Move(loc, _, _, drops, _) => loc.x < 8 && loc.y < 8 && drops_sum(drops, 7) <= 9,
    }
}

/// A move as text.
pub fn to_string(m: &Move) -> (r: String)
    requires
        writable(*m),
    ensures
        r@ == move_text(*m),
{
    let mut out = String::new();
    match m {
        Move::Place(loc, piece) => {
            match piece {
                Piece::Cap => out.push('C'),
                Piece::Wall => out.push('S'),
                Piece::Flat => {},
            }
            out.push((97 + loc.x) as char);
            out.push((49 + loc.y) as char);
            proof {
                assert(out@ =~= move_text(*m));
            }
        },
        Move::Move(loc, dir, range, drops, _) => {
            let mut piece_count: u8 = 0;
            let mut i: usize = 0;
            while i < 7
                invariant
                    i <= 7,
                    piece_count == drops_sum(*drops, i as nat),
                    drops_sum(*drops, 7) <= 9,
                decreases 7 - i,
            {
                proof {
                    lemma_sums_grow(*drops, (i + 1) as nat, 7);
                }
                piece_count += drops[i];
                i += 1;
            }
            if piece_count != 1 {
                out.push((48 + piece_count) as char);
            }
            out.push((97 + loc.x) as char);
            out.push((49 + loc.y) as char);
            out.push(
                match dir {
                    Dir::Up => '+',
                    Dir::Down => '-',
                    Dir::Left => '<',
                    Dir::Right => '>',
                },
            );
            let ghost head = out@;
            if *range > 1 {
                let mut k: usize = 0;
                while k < 7 && drops[k] != 0
                    invariant
                        k <= 7,
                        drops_sum(*drops, 7) <= 9,
                        out@ + drops_text(*drops, k as nat) == head + drops_text(*drops, 0),
                    decreases 7 - k,
                {
                    proof {
                        lemma_sums_grow(*drops, (k + 1) as nat, 7);
                        assert(drops[k as int] <= drops_sum(*drops, (k + 1) as nat));
                    }
                    let ghost before = out@;
                    out.push((48 + drops[k]) as char);
                    proof {
                        assert(out@ + drops_text(*drops, (k + 1) as nat) =~= before + drops_text(
                            *drops,
                            k as nat,
                        ));
                    }
                    k += 1;
                }
                proof {
                    assert(out@ =~= head + drops_text(*drops, 0));
                }
            }
            proof {
                assert(out@ =~= move_text(*m));
            }
        },
    }
    out
}

} // verus!
