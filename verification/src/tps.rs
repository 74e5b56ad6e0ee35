//! The position as text, in the Tak Positional System: the rows from the top one down,
//! separated by `/`; in a row the squares from left to right, separated by `,`; a run of
//! empty squares as `x` and their number; a stack as the owners of its stones from the
//! bottom up, `1` for White and `2` for Black, with `S` behind a wall and `C` behind a
//! capstone; then the side to move and the round.

use vstd::prelude::*;

use crate::bits::game::Game;
use crate::bits::stack::Stack;
use crate::game::{Loc, Piece, Player};
use crate::position::Position;

verus! {

/// `String::push` appends one character to the string.
pub assume_specification[ String::push ](s: &mut String, c: char)
    ensures
        final(s)@ == old(s)@.push(c),
;

/// The character of a decimal digit.
pub open spec fn digit(d: nat) -> char {
    ((48 + d) as u8) as char
}

/// A number in decimal digits.
pub open spec fn decimal(n: nat) -> Seq<char>
    decreases n,
{
    if n < 10 {
        seq![digit(n)]
    } else {
        decimal(n / 10).push(digit(n % 10))
    }
}

/// The digit of a player: `1` for White, `2` for Black.
pub open spec fn player_digit(p: Player) -> char {
    match p {
        Player::White => '1',
        Player::Black => '2',
    }
}

/// A run of `n` empty squares: nothing for none, `x` for one, `x` and the number for more.
pub open spec fn run_text(n: nat) -> Seq<char> {
    if n == 0 {
        Seq::empty()
    } else if n == 1 {
        seq!['x']
    } else {
        seq!['x'] + decimal(n)
    }
}

/// The mark of the kind of a top stone.
pub open spec fn kind_text(top: Piece) -> Seq<char> {
    match top {
        Piece::Cap => seq!['C'],
        Piece::Wall => seq!['S'],
        Piece::Flat => Seq::empty(),
    }
}

impl Position {
    /// The text of the stack on square `i`.
    pub open spec fn cell(self, i: int) -> Seq<char> {
        self.squares[i].stack.map_values(|p: Player| player_digit(p)) + kind_text(
            self.squares[i].top,
        )
    }

    /// The text of row `y` from column `x` on, `run` empty squares having been passed
    /// since the last stack.
    pub open spec fn row_from(self, y: int, x: nat, run: nat) -> Seq<char>
        decreases self.size - x,
    {
        if x >= self.size {
            run_text(run)
        } else if self.squares[self.index(x as int, y)].is_empty() {
            self.row_from(y, x + 1, run + 1)
        } else {
            (if run > 0 {
                run_text(run).push(',')
            } else {
                Seq::empty()
            }) + self.cell(self.index(x as int, y)) + (if x + 1 < self.size {
                seq![',']
            } else {
                Seq::empty()
            }) + self.row_from(y, x + 1, 0)
        }
    }

    /// The text of the rows `y`, `y - 1`, ..., 0.
    pub open spec fn rows_from(self, y: int) -> Seq<char>
        decreases y + 1,
    {
        if y < 0 {
            Seq::empty()
        } else {
            self.row_from(y, 0, 0) + (if y > 0 {
                seq!['/']
            } else {
                Seq::empty()
            }) + self.rows_from(y - 1)
        }
    }

    /// The position as text.
    pub open spec fn tps(self) -> Seq<char> {
        self.rows_from(self.size - 1) + seq![' ', player_digit(self.player), ' '] + decimal(self.round)
    }
}

/// Appends a number in decimal digits.
fn push_number(out: &mut String, n: u32)
    ensures
        final(out)@ == old(out)@ + decimal(n as nat),
    decreases n,
{
    if n >= 10 {
        push_number(out, n / 10);
    }
    let d: u8 = (n % 10) as u8;
    out.push((48u8 + d) as char);
    proof {
        assert(final(out)@ =~= old(out)@ + decimal(n as nat));
    }
}

/// Appends a run of empty squares.
fn push_run(out: &mut String, run: usize)
    requires
        run <= 64,
    ensures
        final(out)@ == old(out)@ + run_text(run as nat),
{
    if run > 0 {
        out.push('x');
        if run > 1 {
            push_number(out, run as u32);
        }
    }
    proof {
        assert(final(out)@ =~= old(out)@ + run_text(run as nat));
    }
}

/// Appends the owners of the stones of a stack, from the bottom up.
fn push_owners(out: &mut String, stack: &Stack)
    requires
        stack.wf(),
    ensures
        final(out)@ == old(out)@ + stack@.map_values(|p: Player| player_digit(p)),
{
    let mut iter = stack.into_iter();
    let ghost label = |p: Player| player_digit(p);
    let ghost done: Seq<Player> = Seq::empty();
    proof {
        assert(stack@.reverse().reverse() =~= stack@);
    }
    loop
        invariant
            iter.wf(),
            label == |p: Player| player_digit(p),
            done + iter.remaining().reverse() == stack@,
            out@ == old(out)@ + done.map_values(label),
        decreases iter.remaining().len(),
    {
        let ghost rest = iter.remaining();
        match iter.next_back() {
            None => {
                proof {
                    assert(done =~= stack@);
                }
                return ;
            },
            Some(p) => {
                out.push(
                    match p {
                        Player::White => '1',
                        Player::Black => '2',
                    },
                );
                proof {
                    let longer = done.push(p);
                    assert(rest.reverse() =~= seq![p] + rest.drop_last().reverse());
                    assert(longer + rest.drop_last().reverse() =~= done + rest.reverse());
                    assert(longer.map_values(label) =~= done.map_values(label).push(label(p)));
                    done = longer;
                }
            },
        }
    }
}

impl Game {
    /// Appends the text of the stack on square `idx`.
    fn push_cell(&self, out: &mut String, idx: usize)
        requires
            self.board_ok(),
            idx < self@.area(),
        ensures
            final(out)@ == old(out)@ + self@.cell(idx as int),
    {
        proof {
            self.lemma_view_wf();
            assert(self.square_ok(idx as int));
            assert(self@.squares[idx as int] == self.square(idx as int));
        }
        push_owners(out, &self.owners[idx]);
        match self.get_top(idx) {
            Piece::Cap => out.push('C'),
            Piece::Wall => out.push('S'),
            Piece::Flat => {},
        }
        proof {
            assert(final(out)@ =~= old(out)@ + self@.cell(idx as int));
        }
    }

    /// Appends the text of row `y`.
    fn push_row(&self, out: &mut String, y: usize)
        requires
            self.board_ok(),
            y < self.size,
        ensures
            final(out)@ == old(out)@ + self@.row_from(y as int, 0, 0),
    {
        proof {
            self.lemma_view_wf();
        }
        let mut prev_empty: usize = 0;
        let mut x: usize = 0;
        while x < self.size
            invariant
                self.board_ok(),
                y < self.size,
                x <= self.size <= 8,
                prev_empty <= x,
                out@ + self@.row_from(y as int, x as nat, prev_empty as nat) == old(out)@
                    + self@.row_from(y as int, 0, 0),
            decreases self.size - x,
        {
            let loc = Loc { x: x as u8, y: y as u8 };
            let idx = self.idx(loc);
            let ghost before = out@;
            let ghost passed = prev_empty;
            let ghost rest = self@.row_from(y as int, (x + 1) as nat, 0);
            proof {
                self.lemma_view_wf();
                assert(self@.squares[idx as int] == self.square(idx as int));
                assert(idx == self@.index(x as int, y as int));
            }
            if self.owners[idx].is_empty() {
                prev_empty += 1;
            } else {
                if prev_empty > 0 {
                    push_run(out, prev_empty);
                    out.push(',');
                    prev_empty = 0;
                }
                self.push_cell(out, idx);
                if x + 1 < self.size {
                    out.push(',');
                }
                proof {
                    assert(out@ + rest =~= before + self@.row_from(
                        y as int,
                        x as nat,
                        passed as nat,
                    )) by {
                        let run = run_text(passed as nat);
                        assert(run.push(',') =~= run + seq![',']);
                    }
                }
            }
            x += 1;
        }
        push_run(out, prev_empty);
    }

    /// The position as text.
    pub fn to_string(&self) -> (r: String)
        requires
            self.wf(),
        ensures
            r@ == self@.tps(),
    {
        let mut out = String::new();
        let mut y: usize = self.size;
        proof {
            assert(out@ + self@.rows_from(y - 1) =~= self@.rows_from(self.size - 1));
        }
        while y > 0
            invariant
                self.board_ok(),
                y <= self.size,
                out@ + self@.rows_from(y - 1) == self@.rows_from(self.size - 1),
            decreases y,
        {
            y -= 1;
            let ghost before = out@;
            self.push_row(&mut out, y);
            if y > 0 {
                out.push('/');
            }
            proof {
                assert(out@ + self@.rows_from(y - 1) =~= before + self@.rows_from(y as int));
            }
        }
        out.push(' ');
        out.push(
            match self.player {
                Player::White => '1',
                Player::Black => '2',
            },
        );
        out.push(' ');
        push_number(&mut out, self.round);
        proof {
            assert(self@.rows_from(-1) =~= Seq::<char>::empty());
            assert(out@ =~= self@.tps());
        }
        out
    }
}

} // verus!
