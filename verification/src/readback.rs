//! The notation reads back what it writes: a move that is written and then read is the
//! move that was written.

use vstd::prelude::*;

use crate::coverage::plain;
use crate::game::{drops_sum, lemma_sums_grow, Dir, Loc, Move, Piece};
use crate::playtak::skip_ws;
use crate::ptn::{
    annotated_of, annotation_at, counts_run, dir_char, direction_at, drops_from, drops_text,
    file_char, is_count, lemma_drops_from, move_at, move_of, move_text, movement_at, piece_text,
    placement_at, rank_char, square_at, writable, ErrorType, SubjAnnotation, TakAnnotation,
};
use crate::tables::{no_drops, with_drop};
use crate::tps::digit;

verus! {

/// The drop counts beyond the squares that a slide covers add nothing to the sum.
proof fn lemma_sum_of_covered(drops: [u8; 7], range: nat, n: nat)
    requires
        range <= n <= 7,
        forall|i: int| range <= i < 7 ==> #[trigger] drops[i] == 0,
    ensures
        drops_sum(drops, n) == drops_sum(drops, range),
    decreases n - range,
{
    if range < n {
        lemma_sum_of_covered(drops, range, (n - 1) as nat);
        assert(drops[n - 1] == 0);
    }
}

/// No drop count is greater than the sum.
proof fn lemma_drop_in_sum(drops: [u8; 7], i: int)
    requires
        0 <= i < 7,
    ensures
        drops[i] <= drops_sum(drops, 7),
{
    lemma_sums_grow(drops, (i + 1) as nat, 7);
}

/// The digits of the drop counts from square `k` on, for a slide that covers `range`
/// squares with at least one stone each and none beyond.
proof fn lemma_drops_text(drops: [u8; 7], range: nat, k: nat)
    requires
        k <= range <= 7,
        forall|i: int| 0 <= i < range ==> #[trigger] drops[i] >= 1,
        forall|i: int| range <= i < 7 ==> #[trigger] drops[i] == 0,
    ensures
        drops_text(drops, k).len() == range - k,
        forall|i: int|
            0 <= i < range - k ==> #[trigger] drops_text(drops, k)[i] == digit(drops[k + i] as nat),
    decreases range - k,
{
    if k < range {
        assert(drops[k as int] >= 1);
        lemma_drops_text(drops, range, k + 1);
        let rest = drops_text(drops, k + 1);
        assert forall|i: int| 0 <= i < range - k implies #[trigger] drops_text(drops, k)[i] == digit(
            drops[k + i] as nat,
        ) by {
            if i > 0 {
                assert(drops_text(drops, k)[i] == rest[i - 1]);
            }
        }
    } else if k < 7 {
        assert(drops[k as int] == 0);
    }
}

/// A text that holds counts from place `l` to its end holds a run of that many counts.
proof fn lemma_counts_to_end(s: Seq<char>, l: int, i: int)
    requires
        0 <= l <= i <= s.len(),
        forall|k: int| l <= k < s.len() ==> is_count(#[trigger] s[k]),
    ensures
        counts_run(s, i) == s.len() - i,
    decreases s.len() - i,
{
    if i < s.len() {
        lemma_counts_to_end(s, l, i + 1);
    }
}

/// Nothing stands behind the end of a text: no marks, and no white space to pass over.
proof fn lemma_no_marks(s: Seq<char>)
    ensures
        annotation_at(s, s.len() as int) == (
            (None::<TakAnnotation>, None::<SubjAnnotation>),
            s.len() as int,
        ),
{
    assert(skip_ws(s, s.len() as int) == s.len());
}

/// A slide that is written and then read is the slide that was written.
proof fn lemma_slide_back(origin: Loc, dir: Dir, range: u8, drops: [u8; 7])
    requires
        1 <= range <= 7,
        origin.x < 8,
        origin.y < 8,
        forall|i: int| 0 <= i < range ==> #[trigger] drops[i] >= 1,
        forall|i: int| range <= i < 7 ==> #[trigger] drops[i] == 0,
        drops_sum(drops, 7) <= 8,
    ensures
        ({
            let m = Move::Move(origin, dir, range, drops, false);
            move_at(move_text(m), 0) == Ok::<(Move, int), ErrorType>((m, move_text(m).len() as int))
        }),
{
    let m = Move::Move(origin, dir, range, drops, false);
    let s = move_text(m);
    let lifted = drops_sum(drops, 7);
    let r = range as nat;
    lemma_sum_of_covered(drops, r, 7);
    assert(drops_sum(drops, 1) == drops[0]) by {
        reveal_with_fuel(drops_sum, 2);
    }
    lemma_drops_text(drops, r, 0);
    assert(drops[0] >= 1);
    lemma_drop_in_sum(drops, 0);
    let head: Seq<char> = if lifted != 1 {
        seq![digit(lifted)]
    } else {
        Seq::empty()
    };
    let core = seq![file_char(origin.x), rank_char(origin.y), dir_char(dir)];
    let tail: Seq<char> = if range > 1 {
        drops_text(drops, 0)
    } else {
        Seq::empty()
    };
    assert(s == head + core + tail);
    let h = head.len() as int;
    assert(s.len() == h + 3 + tail.len());
    assert(s[h] == file_char(origin.x));
    assert(s[h + 1] == rank_char(origin.y));
    assert(s[h + 2] == dir_char(dir));
    assert(!is_count(file_char(origin.x)));
    if lifted != 1 {
        assert(s[0] == digit(lifted));
        assert(is_count(s[0]));
    }
    assert(square_at(s, h) == Ok::<(Loc, int), ErrorType>((origin, h + 2)));
    assert(direction_at(s, h + 2) == Ok::<(Dir, int), ErrorType>((dir, h + 3)));
    let l = h + 3;
    if range == 1 {
        assert(counts_run(s, l) == 0);
        let wanted = with_drop(no_drops(), 0, drops[0]);
        assert(wanted@ =~= drops@);
        assert(wanted == drops);
    } else {
        assert(drops[1] >= 1);
        assert(drops_sum(drops, 2) == drops[0] + drops[1]) by {
            reveal_with_fuel(drops_sum, 3);
        }
        lemma_sums_grow(drops, 2, 7);
        assert(lifted >= 2);
        assert forall|k: int| l <= k < s.len() implies is_count(#[trigger] s[k]) by {
            assert(s[k] == tail[k - l]);
            assert(tail[k - l] == digit(drops[k - l] as nat));
            assert(drops[k - l] >= 1);
            lemma_drop_in_sum(drops, k - l);
        }
        lemma_counts_to_end(s, l, l);
        assert(counts_run(s, l) == r);
        lemma_drops_from(s, l, r);
        let read = drops_from(s, l, r);
        assert forall|i: int| 0 <= i < 7 implies read[i] == drops[i] by {
            if i < r {
                assert(s[l + i] == tail[i]);
                assert(tail[i] == digit(drops[i] as nat));
                assert(drops[i] >= 1);
                lemma_drop_in_sum(drops, i);
            }
        }
        assert(read@ =~= drops@);
        assert(read == drops);
    }
}

/// A placement that is written and then read is the placement that was written.
proof fn lemma_place_back(loc: Loc, piece: Piece)
    requires
        loc.x < 8,
        loc.y < 8,
    ensures
        ({
            let m = Move::Place(loc, piece);
            move_at(move_text(m), 0) == Ok::<(Move, int), ErrorType>((m, move_text(m).len() as int))
        }),
{
    let m = Move::Place(loc, piece);
    let s = move_text(m);
    let head = piece_text(piece);
    let core = seq![file_char(loc.x), rank_char(loc.y)];
    assert(s == head + core);
    let h = head.len() as int;
    assert(s[h] == file_char(loc.x));
    assert(s[h + 1] == rank_char(loc.y));
    assert(square_at(s, h) == Ok::<(Loc, int), ErrorType>((loc, h + 2)));
    match piece {
        Piece::Flat => {
            assert(movement_at(s, 0) is Err);
            assert(movement_at(s, 0) == Err::<(Move, int), ErrorType>(ErrorType::EndOfFile));
            assert(placement_at(s, 0) == Ok::<(Move, int), ErrorType>((m, 2)));
        },
        Piece::Wall => {
            assert(s[0] == 'S');
            assert(movement_at(s, 0) == Err::<(Move, int), ErrorType>(ErrorType::InvalidChar('S')));
        },
        Piece::Cap => {
            assert(s[0] == 'C');
            assert(s[1] == file_char(loc.x));
            assert(movement_at(s, 0) == Err::<(Move, int), ErrorType>(
                ErrorType::InvalidChar(file_char(loc.x)),
            ));
        },
    }
}

/// The notation reads back what it writes: a move as move generation writes it, on a
/// board of up to 8 by 8 squares and lifting at most 8 stones, is read from its text as
/// the same move.
pub proof fn lemma_read_back(m: Move)
    requires
        m.well_formed(),
        plain(m),
        writable(m),
        m matches Move::Move(_, _, range, drops, _) ==> range <= 7 && drops_sum(drops, 7) <= 8,
    ensures
        move_of(move_text(m)) == Some(m),
{
    let s = move_text(m);
    lemma_no_marks(s);
    match m {
        Move::Place(loc, piece) => {
            lemma_place_back(loc, piece);
        },
        Move::Move(origin, dir, range, drops, _) => {
            lemma_slide_back(origin, dir, range, drops);
        },
    }
    assert(annotated_of(s) is Some);
}

} // verus!
