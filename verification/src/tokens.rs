//! The tokens that stand for the outcome of a game in game records.

use vstd::prelude::*;

use crate::game::{Player, Winner};
use crate::text::Text;

verus! {

/// The number of tokens.
pub const TOKENS: usize = 7;

/// The text of token `k`.
pub open spec fn token_text(k: int) -> Seq<char> {
    if k == 0 {
        seq!['R', '-', '0']
    } else if k == 1 {
        seq!['0', '-', 'R']
    } else if k == 2 {
        seq!['F', '-', '0']
    } else if k == 3 {
        seq!['0', '-', 'F']
    } else if k == 4 {
        seq!['1', '-', '0']
    } else if k == 5 {
        seq!['0', '-', '1']
    } else {
        seq!['1', '/', '2', '-', '1', '/', '2']
    }
}

/// The outcome that token `k` stands for: a road, a win by flats or another win of White
/// (the `0` on the right) or of Black (the `0` on the left), or a draw.
pub open spec fn token_winner(k: int) -> Winner {
    if k == 0 {
        Winner::Road(Player::White)
    } else if k == 1 {
        Winner::Road(Player::Black)
    } else if k == 2 {
        Winner::Flat(Player::White)
    } else if k == 3 {
        Winner::Flat(Player::Black)
    } else if k == 4 {
        Winner::Other(Player::White)
    } else if k == 5 {
        Winner::Other(Player::Black)
    } else {
        Winner::Draw
    }
}

/// The first place from `i` on at which `s` and `t` differ or one of them ends, given
/// that they agree before `i`.
pub open spec fn agree(s: Seq<char>, t: Seq<char>, i: nat) -> nat
    decreases t.len() - i,
{
    if i < s.len() && i < t.len() && s[i as int] == t[i as int] {
        agree(s, t, i + 1)
    } else {
        i
    }
}

/// Whether `s` begins with `t`.
pub open spec fn begins_with(s: Seq<char>, t: Seq<char>) -> bool {
    agree(s, t, 0) == t.len()
}

/// The first token from token `k` on that `s` begins with, or the number of tokens if
/// there is none.
pub open spec fn first_match(s: Seq<char>, k: nat) -> nat
    decreases TOKENS - k,
{
    if k >= TOKENS {
        TOKENS as nat
    } else if begins_with(s, token_text(k as int)) {
        k
    } else {
        first_match(s, k + 1)
    }
}

/// How far `s` agrees with the best of the first `k` tokens.
pub open spec fn best_upto(s: Seq<char>, k: nat) -> nat
    decreases k,
{
    if k == 0 {
        0
    } else {
        let before = best_upto(s, (k - 1) as nat);
        let this = agree(s, token_text(k - 1), 0);
        if this > before {
            this
        } else {
            before
        }
    }
}

/// What stands at the start of a text: a token, a character that fits no token, or the
/// end of the text before a token is complete.
#[derive(Debug, Clone, Copy, PartialEq, Eq)]
pub enum Scan {
    /// A token: its outcome and its length.
    Found(Winner, usize),
    Unexpected(char),
    End,
}

/// What stands at the start of `s`. Where `s` begins with no token, the character that
/// is reported is the first one that fits none of the tokens that `s` agreed with so far.
pub open spec fn scan(s: Seq<char>) -> Scan {
    let k = first_match(s, 0);
    if k < TOKENS {
        Scan::Found(token_winner(k as int), token_text(k as int).len() as usize)
    } else {
        let far = best_upto(s, TOKENS as nat);
        if far < s.len() {
            Scan::Unexpected(s[far as int])
        } else {
            Scan::End
        }
    }
}

/// Token `k` as a string.
fn token(k: usize) -> (r: &'static str)
    requires
        k < TOKENS,
    ensures
        r@ == token_text(k as int),
{
    proof {
        reveal_strlit("R-0");
        reveal_strlit("0-R");
        reveal_strlit("F-0");
        reveal_strlit("0-F");
        reveal_strlit("1-0");
        reveal_strlit("0-1");
        reveal_strlit("1/2-1/2");
    }
    let r = match k {
        0 => "R-0",
        1 => "0-R",
        2 => "F-0",
        3 => "0-F",
        4 => "1-0",
        5 => "0-1",
        _ => "1/2-1/2",
    };
    proof {
        assert(r@ =~= token_text(k as int));
    }
    r
}

/// The outcome of token `k`.
fn winner(k: usize) -> (r: Winner)
    requires
        k < TOKENS,
    ensures
        r == token_winner(k as int),
{
    match k {
        0 => Winner::Road(Player::White),
        1 => Winner::Road(Player::Black),
        2 => Winner::Flat(Player::White),
        3 => Winner::Flat(Player::Black),
        4 => Winner::Other(Player::White),
        5 => Winner::Other(Player::Black),
        _ => Winner::Draw,
    }
}

/// How far the text from place `from` on agrees with `token`.
fn common(text: &Text, from: usize, token: &Text) -> (r: usize)
    requires
        text.wf(),
        token.wf(),
        from <= text@.len(),
    ensures
        r == agree(text@.skip(from as int), token@, 0),
        r <= token@.len(),
        from + r <= text@.len(),
{
    let mut i: usize = 0;
    while i < token.len() && i < text.len() - from && text.at(from + i) == token.at(i)
        invariant
            text.wf(),
            token.wf(),
            from <= text@.len(),
            i <= token@.len(),
            from + i <= text@.len(),
            agree(text@.skip(from as int), token@, 0) == agree(
                text@.skip(from as int),
                token@,
                i as nat,
            ),
        decreases token@.len() - i,
    {
        i += 1;
    }
    i
}

/// Reads what stands at place `from` of a text.
pub fn scan_result(text: &Text, from: usize) -> (r: Scan)
    requires
        text.wf(),
        from <= text@.len(),
    ensures
        r == scan(text@.skip(from as int)),
        r matches Scan::Found(_, n) ==> from + n <= text@.len(),
{
    let ghost s = text@.skip(from as int);
    let mut best: usize = 0;
    let mut k: usize = 0;
    while k < TOKENS
        invariant
            text.wf(),
            from <= text@.len(),
            s == text@.skip(from as int),
            k <= TOKENS,
            first_match(s, 0) == first_match(s, k as nat),
            best == best_upto(s, k as nat),
            best <= s.len(),
        decreases TOKENS - k,
    {
        let word = Text::new(token(k));
        let far = common(text, from, &word);
        if far == word.len() {
            return Scan::Found(winner(k), far);
        }
        if far > best {
            best = far;
        }
        k += 1;
    }
    proof {
        text.lemma_fits();
    }
    match text.peek(from + best) {
        Some(c) => Scan::Unexpected(c),
        None => Scan::End,
    }
}

} // verus!
