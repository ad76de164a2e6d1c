//! Tiles, their ownership states, and the events exchanged with the
//! surrounding layers.

use vstd::prelude::*;

verus! {

/// Ownership state of one board cell.
///
/// The only transition a running match ever performs is
/// `Unowned(id)` to `Owned(player)`; `Empty` cells and owned cells are
/// permanent.
#[derive(Clone, Copy, Debug, PartialEq, Eq, Structural)]
pub enum TileState {
    /// A hole in the board: never owned, never capturable.
    Empty,
    /// Claimed by the player with this identity.
    Owned(u64),
    /// Up for capture, grouped under this color id.
    Unowned(u32),
}

/// One board cell: a coordinate on the offset hex grid and its state.
///
/// A board is a collection of tiles keyed by `(row, column)`: no two tiles
/// of one board share a coordinate.
#[derive(Clone, Copy, Debug, PartialEq, Eq, Structural)]
pub struct Tile {
    pub row: i32,
    pub column: i32,
    pub state: TileState,
}

/// A capture request: the acting player asks to claim the region of
/// color `id` adjacent to its territory.
#[derive(Clone, Copy, Debug, PartialEq, Eq, Structural)]
pub struct SelectEvent {
    pub id: u32,
    pub player: u64,
}

/// One tile changed hands: emitted once per captured tile, in the order
/// the tiles were captured.
#[derive(Clone, Copy, Debug, PartialEq, Eq, Structural)]
pub struct CaptureEvent {
    pub row: i32,
    pub column: i32,
    pub player: u64,
}

/// The coordinate of a tile, as a mathematical pair.
pub open spec fn tile_coord(t: Tile) -> (int, int) {
    (t.row as int, t.column as int)
}

/// No two tiles of the board share a coordinate: the board is keyed by
/// `(row, column)`.
pub open spec fn distinct_coords(ts: Seq<Tile>) -> bool {
    forall|i: int, j: int|
        0 <= i < ts.len() && 0 <= j < ts.len() && i != j ==> tile_coord(ts[i]) != tile_coord(
            ts[j],
        )
}

/// The set of coordinates currently owned by `player`.
pub open spec fn owned_coords(ts: Seq<Tile>, player: u64) -> Set<(int, int)> {
    Set::new(
        |c: (int, int)|
            exists|i: int|
                0 <= i < ts.len() && ts[i].state == TileState::Owned(player) && tile_coord(ts[i])
                    == c,
    )
}

/// Whether some tile at coordinate `(r, c)` is unowned with color `sel`.
pub open spec fn unowned_sel_at(ts: Seq<Tile>, sel: u32, r: int, c: int) -> bool {
    exists|i: int|
        0 <= i < ts.len() && ts[i].state == TileState::Unowned(sel) && tile_coord(ts[i]) == (r, c)
}

/// Number of tiles among the first `n` owned by `player`.
pub open spec fn owned_count_upto(ts: Seq<Tile>, player: u64, n: int) -> int
    decreases n,
{
    if n <= 0 {
        0
    } else {
        owned_count_upto(ts, player, n - 1) + if ts[n - 1].state == TileState::Owned(player) {
            1int
        } else {
            0int
        }
    }
}

/// Number of tiles owned by `player`: the player's score before any
/// endgame bonus.
pub open spec fn owned_count(ts: Seq<Tile>, player: u64) -> int {
    owned_count_upto(ts, player, ts.len() as int)
}

/// Number of unowned tiles among the first `n`, regardless of color.
pub open spec fn unowned_count_upto(ts: Seq<Tile>, n: int) -> int
    decreases n,
{
    if n <= 0 {
        0
    } else {
        unowned_count_upto(ts, n - 1) + if ts[n - 1].state is Unowned {
            1int
        } else {
            0int
        }
    }
}

/// Number of unowned tiles on the board: the endgame bonus pool.
pub open spec fn unowned_count(ts: Seq<Tile>) -> int {
    unowned_count_upto(ts, ts.len() as int)
}

} // verus!
