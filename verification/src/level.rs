//! The textual level-loading grammar.
//!
//! A level is newline-separated rows of whitespace-separated tokens,
//! surrounding whitespace ignored.  A `-` token is a hole, a `|` token an
//! unowned tile whose color id is drawn at random from the available set
//! once at load time, and a positive integer `N` a tile owned by the
//! `N`-th player of the given list.  Any other token, an out-of-range
//! player number, or a `|` with no available color id is a construction
//! error: the match must not start.

use vstd::prelude::*;

use rand::seq::SliceRandom;

use crate::board::Tile;
use crate::board::TileState;
use crate::board::distinct_coords;

verus! {

/// Why a level text was rejected.
#[derive(Clone, Copy, Debug, PartialEq, Eq, Structural)]
pub enum LevelError {
    /// A token that is neither `-`, `|`, nor a string of digits.
    InvalidToken,
    /// A digit token naming no player: zero, or above the player count.
    InvalidPlayerNumber,
    /// A `|` token with an empty set of color ids to draw from.
    NoColorIds,
}

/// ASCII whitespace: what separates tokens, and, for the newline, rows.
pub open spec fn is_ws(b: u8) -> bool {
    b == 32 || b == 9 || b == 10 || b == 13 || b == 11 || b == 12
}

/// The first position at or after `i` holding a non-whitespace byte, or
/// the end of the text.
pub open spec fn skip_ws(s: Seq<u8>, i: int) -> int
    decreases s.len() - i,
{
    if i < 0 || i >= s.len() {
        s.len() as int
    } else if is_ws(s[i]) {
        skip_ws(s, i + 1)
    } else {
        i
    }
}

/// The position right after the token starting at `i`: the next
/// whitespace byte, or the end of the text.
pub open spec fn token_end(s: Seq<u8>, i: int) -> int
    decreases s.len() - i,
{
    if i < 0 || i >= s.len() {
        s.len() as int
    } else if is_ws(s[i]) {
        i
    } else {
        token_end(s, i + 1)
    }
}

/// One grammatical cell of the level text: a token and the zero-based
/// row and column derived from its line and position.
pub ghost struct LevelCell {
    pub row: int,
    pub col: int,
    pub tok: Seq<u8>,
}

/// The token boundaries never run backwards past the scan position.
proof fn lemma_token_end_bounds(s: Seq<u8>, i: int)
    requires
        0 <= i <= s.len(),
    ensures
        i <= token_end(s, i) <= s.len(),
        i < s.len() && !is_ws(s[i]) ==> token_end(s, i) >= i + 1,
    decreases s.len() - i,
{
    if i < s.len() && !is_ws(s[i]) {
        lemma_token_end_bounds(s, i + 1);
    }
}

/// The cells of the text from position `i` on, with `(row, col)` the
/// coordinate of the next token: a newline advances the row, other
/// whitespace is skipped, and a token run becomes one cell.
pub open spec fn cells_from(s: Seq<u8>, i: int, row: int, col: int) -> Seq<LevelCell>
    decreases s.len() - i, 1int
        via cells_from_decreases
{
    if i < 0 || i >= s.len() {
        Seq::empty()
    } else if s[i] == 10 {
        cells_from(s, i + 1, row + 1, 0)
    } else if is_ws(s[i]) {
        cells_from(s, i + 1, row, col)
    } else {
        let j = token_end(s, i);
        Seq::empty().push(LevelCell { row, col, tok: s.subrange(i, j) }) + cells_from(
            s,
            j,
            row,
            col + 1,
        )
    }
}

#[via_fn]
proof fn cells_from_decreases(s: Seq<u8>, i: int, row: int, col: int) {
    if 0 <= i < s.len() && !is_ws(s[i]) {
        lemma_token_end_bounds(s, i);
    }
}

/// All cells of a level text, surrounding whitespace ignored: the scan
/// starts at the first non-whitespace byte with row and column zero.
pub open spec fn level_cells(s: Seq<u8>) -> Seq<LevelCell> {
    cells_from(s, skip_ws(s, 0), 0, 0)
}

/// An ASCII digit.
pub open spec fn is_digit(b: u8) -> bool {
    48 <= b <= 57
}

/// A non-empty token made only of digits.
pub open spec fn all_digits(tok: Seq<u8>) -> bool {
    tok.len() > 0 && forall|t: int| 0 <= t < tok.len() ==> is_digit(tok[t])
}

/// The number a digit token denotes.
pub open spec fn digits_value(tok: Seq<u8>) -> int
    decreases tok.len(),
{
    if tok.len() == 0 {
        0
    } else {
        digits_value(tok.drop_last()) * 10 + (tok.last() - 48)
    }
}

/// Why one token is rejected, if it is: against a player count and the
/// number of available color ids.
pub open spec fn token_error(tok: Seq<u8>, nplayers: int, nids: int) -> Option<LevelError> {
    if tok == seq![45u8] {
        None
    } else if tok == seq![124u8] {
        if nids > 0 {
            None
        } else {
            Some(LevelError::NoColorIds)
        }
    } else if all_digits(tok) {
        if 1 <= digits_value(tok) <= nplayers {
            None
        } else {
            Some(LevelError::InvalidPlayerNumber)
        }
    } else {
        Some(LevelError::InvalidToken)
    }
}

/// Every token of the level text is acceptable.
pub open spec fn level_ok(s: Seq<u8>, nplayers: int, nids: int) -> bool {
    forall|k: int|
        0 <= k < level_cells(s).len() ==> token_error(level_cells(s)[k].tok, nplayers, nids) is None
}

/// The error of the first offending cell at or after position `k`.
pub open spec fn first_error_at(cells: Seq<LevelCell>, nplayers: int, nids: int, k: int) -> Option<
    LevelError,
>
    decreases cells.len() - k,
{
    if k < 0 || k >= cells.len() {
        None
    } else {
        match token_error(cells[k].tok, nplayers, nids) {
            Some(e) => Some(e),
            None => first_error_at(cells, nplayers, nids, k + 1),
        }
    }
}

/// The error a level text is rejected with, if any: that of its first
/// offending token in scan order.
pub open spec fn first_level_error(s: Seq<u8>, nplayers: int, nids: int) -> Option<LevelError> {
    first_error_at(level_cells(s), nplayers, nids, 0)
}

/// The tile state a token must load to.  A `|` token only constrains the
/// color id to be one of the available ones: which one is drawn at
/// random, once, at load time.
pub open spec fn cell_state_match(
    tok: Seq<u8>,
    players: Seq<u64>,
    ids: Seq<u32>,
    st: TileState,
) -> bool {
    if tok == seq![45u8] {
        st == TileState::Empty
    } else if tok == seq![124u8] {
        match st {
            TileState::Unowned(id) => ids.contains(id),
            _ => false,
        }
    } else {
        st == TileState::Owned(players[digits_value(tok) - 1])
    }
}

/// One cell lies strictly before the position `(row, col)` in scan
/// order: on an earlier line, or earlier in the same line.
pub open spec fn cell_before(c: LevelCell, row: int, col: int) -> bool {
    c.row < row || (c.row == row && c.col < col)
}

/// A loaded board matches the level text: one tile per cell, in scan
/// order, at the cell's coordinate, with the state its token demands.
pub open spec fn tiles_match_level(
    s: Seq<u8>,
    players: Seq<u64>,
    ids: Seq<u32>,
    tiles: Seq<Tile>,
) -> bool {
    let cells = level_cells(s);
    &&& tiles.len() == cells.len()
    &&& forall|k: int|
        0 <= k < cells.len() ==> tiles[k].row as int == cells[k].row && tiles[k].column as int
            == cells[k].col && cell_state_match(cells[k].tok, players, ids, tiles[k].state)
}

/// Whitespace scans stop exactly at the first non-whitespace byte.
proof fn lemma_skip_ws_from(s: Seq<u8>, i: int, j: int)
    requires
        0 <= i <= j <= s.len(),
        forall|t: int| i <= t < j ==> is_ws(s[t]),
        j == s.len() || !is_ws(s[j]),
    ensures
        skip_ws(s, i) == j,
    decreases j - i,
{
    if i < j {
        lemma_skip_ws_from(s, i + 1, j);
    }
}

/// Token scans stop exactly at the first whitespace byte or the end.
proof fn lemma_token_end_char(s: Seq<u8>, i: int, j: int)
    requires
        0 <= i <= j <= s.len(),
        forall|t: int| i <= t < j ==> !is_ws(s[t]),
        j == s.len() || is_ws(s[j]),
    ensures
        token_end(s, i) == j,
    decreases j - i,
{
    if i < j {
        lemma_token_end_char(s, i + 1, j);
    }
}

/// Scanning past cells with acceptable tokens does not change the first
/// error found.
proof fn lemma_first_error_skip(cells: Seq<LevelCell>, nplayers: int, nids: int, k: int)
    requires
        0 <= k <= cells.len(),
        forall|t: int| 0 <= t < k ==> token_error(cells[t].tok, nplayers, nids) is None,
    ensures
        first_error_at(cells, nplayers, nids, 0) == first_error_at(cells, nplayers, nids, k),
    decreases k,
{
    if k > 0 {
        lemma_first_error_skip(cells, nplayers, nids, k - 1);
        assert(token_error(cells[k - 1].tok, nplayers, nids) is None);
    }
}

/// A digit token's value never sinks when another digit is appended.
proof fn lemma_digits_value_nonneg(tok: Seq<u8>)
    requires
        forall|t: int| 0 <= t < tok.len() ==> is_digit(tok[t]),
    ensures
        digits_value(tok) >= 0,
    decreases tok.len(),
{
    if tok.len() > 0 {
        lemma_digits_value_nonneg(tok.drop_last());
        assert(forall|t: int|
            0 <= t < tok.drop_last().len() ==> is_digit(tok.drop_last()[t]));
    }
}

/// Whether a byte separates tokens.
fn is_ws_byte(b: u8) -> (r: bool)
    ensures
        r == is_ws(b),
{
    b == 32 || b == 9 || b == 10 || b == 13 || b == 11 || b == 12
}

/// Relies on rand's `SliceRandom::choose` for `[u32]`: it returns a
/// reference to one element of the slice, drawn uniformly at random, and
/// `None` exactly when the slice is empty.
#[verifier::external_body]
fn choose_color_id(ids: &Vec<u32>) -> (r: Option<u32>)
    ensures
        (r is Some) == (ids@.len() > 0),
        match r {
            Some(v) => ids@.contains(v),
            None => true,
        },
{
    ids.as_slice().choose(&mut rand::thread_rng()).copied()
}

/// Parse a level text into its initial board.
///
/// One tile is produced per token, at the zero-based row and column
/// given by the token's line and position: `-` an empty cell, `|` an
/// unowned tile with a color id drawn at random from `ids` (fixed now,
/// never re-rolled), and a positive integer `N` a tile owned by
/// `players[N - 1]`.  The first offending token in scan order decides
/// the error: the match must not start on malformed text.
pub fn load_level(level: &[u8], players: &Vec<u64>, ids: &Vec<u32>) -> (r: Result<
    Vec<Tile>,
    LevelError,
>)
    requires
        level@.len() < 0x8000_0000,
    ensures
        (r is Ok) == level_ok(level@, players@.len() as int, ids@.len() as int),
        match r {
            Ok(tiles) => tiles_match_level(level@, players@, ids@, tiles@) && distinct_coords(
                tiles@,
            ),
            Err(e) => first_level_error(level@, players@.len() as int, ids@.len() as int) == Some(
                e,
            ),
        },
{
    let n = level.len();
    let np = players.len();
    let ghost npi = players@.len() as int;
    let ghost nidsi = ids@.len() as int;

    // Surrounding whitespace is ignored: find the first real byte.
    let mut i: usize = 0;
    while i < n && is_ws_byte(level[i])
        invariant
            n == level@.len(),
            0 <= i <= n,
            forall|t: int| 0 <= t < i ==> is_ws(level@[t]),
        decreases n - i,
    {
        i += 1;
    }
    proof {
        lemma_skip_ws_from(level@, 0, i as int);
    }

    let mut tiles: Vec<Tile> = Vec::new();
    let ghost mut done: Seq<LevelCell> = Seq::empty();
    let mut row: usize = 0;
    let mut col: usize = 0;

    while i < n
        invariant
            n == level@.len(),
            n < 0x8000_0000,
            np == players@.len(),
            npi == players@.len() as int,
            nidsi == ids@.len() as int,
            0 <= i <= n,
            row <= i,
            col <= i,
            tiles@.len() == done.len(),
            forall|k: int| 0 <= k < done.len() ==> token_error(#[trigger] done[k].tok, npi, nidsi) is None,
            forall|k: int|
                0 <= k < done.len() ==> tiles@[k].row as int == done[k].row && tiles@[k].column
                    as int == done[k].col && cell_state_match(
                    done[k].tok,
                    players@,
                    ids@,
                    tiles@[k].state,
                ),
            forall|k: int| 0 <= k < done.len() ==> cell_before(#[trigger] done[k], row as int, col as int),
            forall|k1: int, k2: int|
                #![trigger done[k1], done[k2]]
                0 <= k1 < k2 < done.len() ==> cell_before(done[k1], done[k2].row, done[k2].col),
            level_cells(level@) == done + cells_from(level@, i as int, row as int, col as int),
        decreases n - i,
    {
        let b = level[i];
        if b == 10 {
            i += 1;
            row += 1;
            col = 0;
        } else if is_ws_byte(b) {
            i += 1;
        } else {
            // A token runs to the next whitespace byte or the end.
            let mut j: usize = i + 1;
            while j < n && !is_ws_byte(level[j])
                invariant
                    n == level@.len(),
                    i < j <= n,
                    !is_ws(level@[i as int]),
                    forall|t: int| i <= t < j ==> !is_ws(level@[t]),
                decreases n - j,
            {
                j += 1;
            }
            proof {
                lemma_token_end_char(level@, i as int, j as int);
            }
            let ghost tok = level@.subrange(i as int, j as int);
            let ghost cell = LevelCell { row: row as int, col: col as int, tok };
            proof {
                assert(cells_from(level@, i as int, row as int, col as int) == Seq::empty().push(
                    cell,
                ) + cells_from(level@, j as int, row as int, col as int + 1));
                assert(level_cells(level@)[done.len() as int] == cell) by {
                    assert((done + (Seq::empty().push(cell) + cells_from(
                        level@,
                        j as int,
                        row as int,
                        col as int + 1,
                    )))[done.len() as int] == cell);
                }
            }
            let state: TileState;
            if j - i == 1 && b == 45 {
                proof {
                    assert(tok =~= seq![45u8]);
                }
                state = TileState::Empty;
            } else if j - i == 1 && b == 124 {
                proof {
                    assert(tok =~= seq![124u8]);
                    assert(tok != seq![45u8]);
                }
                if ids.len() == 0 {
                    proof {
                        assert(token_error(tok, npi, nidsi) == Some(LevelError::NoColorIds));
                        lemma_first_error_skip(level_cells(level@), npi, nidsi, done.len() as int);
                        assert(first_error_at(level_cells(level@), npi, nidsi, done.len() as int)
                            == Some(LevelError::NoColorIds));
                        assert(!level_ok(level@, npi, nidsi));
                    }
                    return Err(LevelError::NoColorIds);
                }
                state = match choose_color_id(ids) {
                    Some(id) => TileState::Unowned(id),
                    None => vstd::pervasive::unreached(),
                };
            } else {
                proof {
                    assert(tok.len() == j - i);
                    assert(tok[0] == level@[i as int]);
                    assert(tok != seq![45u8] && tok != seq![124u8]);
                }
                // The token must be a player number: digits only.
                let mut acc: u64 = 0;
                let mut over = false;
                let mut t = i;
                while t < j
                    invariant
                        n == level@.len(),
                        i <= t <= j <= n,
                        npi == players@.len() as int,
                        nidsi == ids@.len() as int,
                        tok == level@.subrange(i as int, j as int),
                        tok.len() == j - i,
                        tok != seq![45u8] && tok != seq![124u8],
                        cell.tok == tok,
                        forall|k: int|
                            0 <= k < done.len() ==> token_error(
                                #[trigger] done[k].tok,
                                npi,
                                nidsi,
                            ) is None,
                        level_cells(level@) == done + cells_from(
                            level@,
                            i as int,
                            row as int,
                            col as int,
                        ),
                        cells_from(level@, i as int, row as int, col as int) == Seq::empty().push(
                            cell,
                        ) + cells_from(level@, j as int, row as int, col as int + 1),
                        forall|u: int| 0 <= u < t - i ==> is_digit(tok[u]),
                        !over ==> acc as int == digits_value(tok.subrange(0, t - i)),
                        over ==> digits_value(tok.subrange(0, t - i)) > u64::MAX,
                    decreases j - t,
                {
                    let d = level[t];
                    if !(48 <= d && d <= 57) {
                        proof {
                            assert(tok[(t - i) as int] == d);
                            assert(!all_digits(tok));
                            assert(token_error(tok, npi, nidsi) == Some(LevelError::InvalidToken));
                            assert(level_cells(level@)[done.len() as int] == cell);
                            lemma_first_error_skip(
                                level_cells(level@),
                                npi,
                                nidsi,
                                done.len() as int,
                            );
                            assert(!level_ok(level@, npi, nidsi));
                        }
                        return Err(LevelError::InvalidToken);
                    }
                    let ghost pre = tok.subrange(0, t - i);
                    let ghost ext = tok.subrange(0, t + 1 - i);
                    proof {
                        assert(ext.drop_last() =~= pre);
                        assert(ext.last() == tok[(t - i) as int]);
                        assert(digits_value(ext) == digits_value(pre) * 10 + (d - 48));
                        if !over {
                            lemma_digits_value_nonneg(pre);
                        }
                    }
                    if !over {
                        match acc.checked_mul(10) {
                            Some(x) => {
                                match x.checked_add((d - 48) as u64) {
                                    Some(y) => {
                                        acc = y;
                                    },
                                    None => {
                                        over = true;
                                    },
                                }
                            },
                            None => {
                                over = true;
                            },
                        }
                    } else {
                        proof {
                            lemma_digits_value_nonneg(pre);
                        }
                    }
                    t += 1;
                }
                proof {
                    assert(tok.subrange(0, j - i) =~= tok);
                    assert(all_digits(tok));
                }
                if over || acc == 0 || acc > np as u64 {
                    proof {
                        assert(!(1 <= digits_value(tok) <= npi));
                        assert(token_error(tok, npi, nidsi) == Some(
                            LevelError::InvalidPlayerNumber,
                        ));
                        lemma_first_error_skip(level_cells(level@), npi, nidsi, done.len() as int);
                        assert(!level_ok(level@, npi, nidsi));
                    }
                    return Err(LevelError::InvalidPlayerNumber);
                }
                state = TileState::Owned(players[(acc - 1) as usize]);
            }
            tiles.push(
                Tile { row: row as i32, column: col as i32, state },
            );
            proof {
                done = done.push(cell);
                assert(level_cells(level@) =~= done + cells_from(
                    level@,
                    j as int,
                    row as int,
                    col as int + 1,
                ));
            }
            i = j;
            col += 1;
        }
    }
    proof {
        assert(cells_from(level@, i as int, row as int, col as int) =~= Seq::empty());
        assert(level_cells(level@) =~= done);
        assert forall|a: int, b: int|
            0 <= a < tiles@.len() && 0 <= b < tiles@.len() && a != b implies crate::board::tile_coord(
            tiles@[a],
        ) != crate::board::tile_coord(tiles@[b]) by {
            if a < b {
                assert(cell_before(done[a], done[b].row, done[b].col));
            } else {
                assert(cell_before(done[b], done[a].row, done[a].col));
            }
        }
    }
    Ok(tiles)
}

} // verus!
