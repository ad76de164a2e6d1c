//! Flood-capture resolution: the core algorithm of the game.
//!
//! A selection by `player` of color `sel` captures every unowned tile of
//! that color reachable from the player's territory, one hex-adjacency
//! step at a time.  Reachability is defined below as the limit of a
//! growing frontier (`reach_set`), and the resolved board
//! (`resolved_board`) turns exactly the captured tiles to owned.

use vstd::prelude::*;

use crate::board::CaptureEvent;
use crate::board::Tile;
use crate::board::TileState;
use crate::board::distinct_coords;
use crate::board::owned_coords;
use crate::board::tile_coord;
use crate::board::unowned_sel_at;

verus! {

/// Whether the cell at `(r, c)` touches the coordinate set `f` under the
/// grid's parity-dependent adjacency.
///
/// Offsets run over `{-1, 0, 1} x {-1, 0, 1}` minus the center; a cell on
/// an even row excludes offsets with a nonzero row step and a column step
/// of `-1`, a cell on an odd row excludes those with a nonzero row step
/// and a column step of `+1`.  The asymmetric exclusion yields the six
/// hex neighbors of an offset-coordinate grid and is part of the game's
/// definition: it must not be normalized.
pub open spec fn hex_adjacent_to(f: Set<(int, int)>, r: int, c: int) -> bool {
    if r % 2 == 0 {
        f.contains((r, c - 1)) || f.contains((r, c + 1)) || f.contains((r - 1, c)) || f.contains(
            (r - 1, c + 1),
        ) || f.contains((r + 1, c)) || f.contains((r + 1, c + 1))
    } else {
        f.contains((r, c - 1)) || f.contains((r, c + 1)) || f.contains((r - 1, c - 1))
            || f.contains((r - 1, c)) || f.contains((r + 1, c - 1)) || f.contains((r + 1, c))
    }
}

/// The capture frontier after `n` growth steps: the player's own
/// coordinates, widened `n` times by every unowned tile of the selected
/// color adjacent to the previous frontier.
pub open spec fn reach_set(ts: Seq<Tile>, sel: u32, player: u64, n: nat) -> Set<(int, int)>
    decreases n,
{
    if n == 0 {
        owned_coords(ts, player)
    } else {
        let prev = reach_set(ts, sel, player, (n - 1) as nat);
        prev.union(
            Set::new(
                |c: (int, int)| unowned_sel_at(ts, sel, c.0, c.1) && hex_adjacent_to(prev, c.0, c.1),
            ),
        )
    }
}

/// A coordinate the flood capture reaches: it lies in some finite
/// widening of the player's territory.
pub open spec fn reachable(ts: Seq<Tile>, sel: u32, player: u64, r: int, c: int) -> bool {
    exists|n: nat| reach_set(ts, sel, player, n).contains((r, c))
}

/// Tile `i` is captured when `player` selects `sel` on board `ts`: it is
/// unowned with the selected color and reachable from the territory.
pub open spec fn tile_captured(ts: Seq<Tile>, sel: u32, player: u64, i: int) -> bool {
    ts[i].state == TileState::Unowned(sel) && reachable(
        ts,
        sel,
        player,
        ts[i].row as int,
        ts[i].column as int,
    )
}

/// The board after `player` selects `sel`: captured tiles become owned by
/// the player, every other tile is untouched.
pub open spec fn resolved_board(ts: Seq<Tile>, sel: u32, player: u64) -> Seq<Tile> {
    Seq::new(
        ts.len(),
        |i: int|
            if tile_captured(ts, sel, player, i) {
                Tile { row: ts[i].row, column: ts[i].column, state: TileState::Owned(player) }
            } else {
                ts[i]
            },
    )
}

/// Number of captured tiles among the first `n`.
pub open spec fn count_captured_upto(ts: Seq<Tile>, sel: u32, player: u64, n: int) -> int
    decreases n,
{
    if n <= 0 {
        0
    } else {
        count_captured_upto(ts, sel, player, n - 1) + if tile_captured(ts, sel, player, n - 1) {
            1int
        } else {
            0int
        }
    }
}

/// How many tiles `player` captures by selecting `sel` on board `ts`.
pub open spec fn capture_count(ts: Seq<Tile>, sel: u32, player: u64) -> int {
    count_captured_upto(ts, sel, player, ts.len() as int)
}

/// The selection is exhausted: no unowned tile of color `sel` touches the
/// territory of `player`, so selecting `sel` captures nothing.
pub open spec fn no_capture_possible(ts: Seq<Tile>, sel: u32, player: u64) -> bool {
    forall|i: int|
        0 <= i < ts.len() && ts[i].state == TileState::Unowned(sel) ==> !hex_adjacent_to(
            owned_coords(ts, player),
            ts[i].row as int,
            ts[i].column as int,
        )
}

/// Adjacency only grows with the frontier.
proof fn lemma_hex_adjacent_monotone(f: Set<(int, int)>, g: Set<(int, int)>, r: int, c: int)
    requires
        f.subset_of(g),
        hex_adjacent_to(f, r, c),
    ensures
        hex_adjacent_to(g, r, c),
{
}

/// Relation between the board at the start of a resolution and the board
/// part-way through: coordinates are untouched, and the only state change
/// is an unowned tile of the selected color turning owned by the acting
/// player.
spec fn capture_frame(ts0: Seq<Tile>, cur: Seq<Tile>, sel: u32, player: u64) -> bool {
    &&& cur.len() == ts0.len()
    &&& forall|i: int|
        0 <= i < ts0.len() ==> cur[i].row == ts0[i].row && cur[i].column == ts0[i].column
    &&& forall|i: int|
        0 <= i < ts0.len() ==> cur[i].state == ts0[i].state || (ts0[i].state == TileState::Unowned(
            sel,
        ) && cur[i].state == TileState::Owned(player))
}

/// Every tile captured so far was reachable on the starting board.
spec fn captures_sound(ts0: Seq<Tile>, cur: Seq<Tile>, sel: u32, player: u64) -> bool {
    forall|i: int|
        0 <= i < ts0.len() && cur[i].state != ts0[i].state ==> reachable(
            ts0,
            sel,
            player,
            ts0[i].row as int,
            ts0[i].column as int,
        )
}

/// A coordinate owned part-way through the resolution was reachable on
/// the starting board.
proof fn lemma_owned_now_reachable(
    ts0: Seq<Tile>,
    cur: Seq<Tile>,
    sel: u32,
    player: u64,
    d: (int, int),
)
    requires
        capture_frame(ts0, cur, sel, player),
        captures_sound(ts0, cur, sel, player),
        owned_coords(cur, player).contains(d),
    ensures
        reachable(ts0, sel, player, d.0, d.1),
{
    let i = choose|i: int|
        0 <= i < cur.len() && cur[i].state == TileState::Owned(player) && tile_coord(cur[i]) == d;
    if cur[i].state == ts0[i].state {
        assert(owned_coords(ts0, player).contains(d));
        assert(reach_set(ts0, sel, player, 0).contains(d));
    } else {
        assert(tile_coord(ts0[i]) == d);
    }
}

/// A cell of the selected color adjacent to the territory held part-way
/// through the resolution is reachable on the starting board.
proof fn lemma_capture_step_reachable(
    ts0: Seq<Tile>,
    cur: Seq<Tile>,
    sel: u32,
    player: u64,
    r: int,
    c: int,
)
    requires
        capture_frame(ts0, cur, sel, player),
        captures_sound(ts0, cur, sel, player),
        unowned_sel_at(ts0, sel, r, c),
        hex_adjacent_to(owned_coords(cur, player), r, c),
    ensures
        reachable(ts0, sel, player, r, c),
{
    let f = owned_coords(cur, player);
    let d: (int, int) = if r % 2 == 0 {
        if f.contains((r, c - 1)) {
            (r, c - 1)
        } else if f.contains((r, c + 1)) {
            (r, c + 1)
        } else if f.contains((r - 1, c)) {
            (r - 1, c)
        } else if f.contains((r - 1, c + 1)) {
            (r - 1, c + 1)
        } else if f.contains((r + 1, c)) {
            (r + 1, c)
        } else {
            (r + 1, c + 1)
        }
    } else {
        if f.contains((r, c - 1)) {
            (r, c - 1)
        } else if f.contains((r, c + 1)) {
            (r, c + 1)
        } else if f.contains((r - 1, c - 1)) {
            (r - 1, c - 1)
        } else if f.contains((r - 1, c)) {
            (r - 1, c)
        } else if f.contains((r + 1, c - 1)) {
            (r + 1, c - 1)
        } else {
            (r + 1, c)
        }
    };
    assert(f.contains(d));
    lemma_owned_now_reachable(ts0, cur, sel, player, d);
    let n = choose|n: nat| reach_set(ts0, sel, player, n).contains(d);
    assert(hex_adjacent_to(reach_set(ts0, sel, player, n), r, c));
    assert(reach_set(ts0, sel, player, n + 1).contains((r, c)));
}

/// Once no further capture is possible, the held territory covers every
/// frontier widening of the starting board.
proof fn lemma_reach_subset_of_closed(
    ts0: Seq<Tile>,
    cur: Seq<Tile>,
    sel: u32,
    player: u64,
    n: nat,
)
    requires
        capture_frame(ts0, cur, sel, player),
        no_capture_possible(cur, sel, player),
    ensures
        reach_set(ts0, sel, player, n).subset_of(owned_coords(cur, player)),
    decreases n,
{
    if n == 0 {
        assert forall|d: (int, int)| owned_coords(ts0, player).contains(d) implies owned_coords(
            cur,
            player,
        ).contains(d) by {
            let i = choose|i: int|
                0 <= i < ts0.len() && ts0[i].state == TileState::Owned(player) && tile_coord(
                    ts0[i],
                ) == d;
            assert(cur[i].state == TileState::Owned(player));
            assert(tile_coord(cur[i]) == d);
        }
    } else {
        lemma_reach_subset_of_closed(ts0, cur, sel, player, (n - 1) as nat);
        let prev = reach_set(ts0, sel, player, (n - 1) as nat);
        assert forall|d: (int, int)| reach_set(ts0, sel, player, n).contains(d) implies owned_coords(
            cur,
            player,
        ).contains(d) by {
            if prev.contains(d) {
            } else {
                assert(unowned_sel_at(ts0, sel, d.0, d.1) && hex_adjacent_to(prev, d.0, d.1));
                lemma_hex_adjacent_monotone(prev, owned_coords(cur, player), d.0, d.1);
                let i = choose|i: int|
                    0 <= i < ts0.len() && ts0[i].state == TileState::Unowned(sel) && tile_coord(
                        ts0[i],
                    ) == d;
                if cur[i].state == ts0[i].state {
                    assert(cur[i].state == TileState::Unowned(sel));
                    assert(!hex_adjacent_to(
                        owned_coords(cur, player),
                        cur[i].row as int,
                        cur[i].column as int,
                    ));
                    assert(false);
                } else {
                    assert(cur[i].state == TileState::Owned(player));
                    assert(tile_coord(cur[i]) == d);
                }
            }
        }
    }
}

/// When the resolution has stopped, the board is exactly the resolved
/// board of the starting state.
proof fn lemma_resolution_exact(ts0: Seq<Tile>, cur: Seq<Tile>, sel: u32, player: u64)
    requires
        distinct_coords(ts0),
        capture_frame(ts0, cur, sel, player),
        captures_sound(ts0, cur, sel, player),
        no_capture_possible(cur, sel, player),
    ensures
        cur =~= resolved_board(ts0, sel, player),
        forall|i: int|
            0 <= i < ts0.len() ==> (cur[i].state != ts0[i].state) == tile_captured(
                ts0,
                sel,
                player,
                i,
            ),
{
    assert forall|i: int| 0 <= i < ts0.len() implies cur[i] == resolved_board(ts0, sel, player)[i]
        && (cur[i].state != ts0[i].state) == tile_captured(ts0, sel, player, i) by {
        if tile_captured(ts0, sel, player, i) {
            let r = ts0[i].row as int;
            let c = ts0[i].column as int;
            let n = choose|n: nat| reach_set(ts0, sel, player, n).contains((r, c));
            lemma_reach_subset_of_closed(ts0, cur, sel, player, n);
            assert(owned_coords(cur, player).contains((r, c)));
            let j = choose|j: int|
                0 <= j < cur.len() && cur[j].state == TileState::Owned(player) && tile_coord(
                    cur[j],
                ) == (r, c);
            assert(tile_coord(ts0[j]) == tile_coord(cur[j]));
            assert(j == i);
            assert(cur[i].state == TileState::Owned(player));
        } else {
            if cur[i].state != ts0[i].state {
                assert(ts0[i].state == TileState::Unowned(sel));
                assert(reachable(ts0, sel, player, ts0[i].row as int, ts0[i].column as int));
                assert(false);
            }
        }
    }
}

/// Number of tiles among the first `n` whose state differs between the
/// two boards.
spec fn count_changed_upto(a: Seq<Tile>, b: Seq<Tile>, n: int) -> int
    decreases n,
{
    if n <= 0 {
        0
    } else {
        count_changed_upto(a, b, n - 1) + if a[n - 1].state != b[n - 1].state {
            1int
        } else {
            0int
        }
    }
}

/// A board differs from itself nowhere.
proof fn lemma_count_changed_self(a: Seq<Tile>, n: int)
    ensures
        count_changed_upto(a, a, n) == 0,
    decreases n,
{
    if n > 0 {
        lemma_count_changed_self(a, n - 1);
    }
}

proof fn lemma_count_changed_bounds(a: Seq<Tile>, b: Seq<Tile>, n: int)
    ensures
        0 <= count_changed_upto(a, b, n),
        count_changed_upto(a, b, n) <= if n >= 0 {
            n
        } else {
            0
        },
    decreases n,
{
    if n > 0 {
        lemma_count_changed_bounds(a, b, n - 1);
    }
}

/// Turning one previously unchanged tile into a changed one raises the
/// changed count by exactly one.
proof fn lemma_count_changed_update(a: Seq<Tile>, b: Seq<Tile>, t: Tile, j: int, n: int)
    requires
        0 <= j < b.len(),
        b.len() == a.len(),
        n <= b.len(),
        a[j].state == b[j].state,
        t.state != a[j].state,
    ensures
        count_changed_upto(a, b.update(j, t), n) == count_changed_upto(a, b, n) + if n > j {
            1int
        } else {
            0int
        },
    decreases n,
{
    if n > 0 {
        lemma_count_changed_update(a, b, t, j, n - 1);
        if n - 1 == j {
            assert(b.update(j, t)[n - 1] == t);
        } else {
            assert(b.update(j, t)[n - 1] == b[n - 1]);
        }
    }
}

/// Whether some tile at coordinate `(r, c)` is currently owned by
/// `player`: the executable membership test of the capture frontier.
fn board_has_owned_at(tiles: &Vec<Tile>, player: u64, r: i64, c: i64) -> (b: bool)
    ensures
        b == owned_coords(tiles@, player).contains((r as int, c as int)),
{
    let n = tiles.len();
    let mut i: usize = 0;
    while i < n
        invariant
            n == tiles@.len(),
            0 <= i <= n,
            forall|j: int|
                0 <= j < i ==> !(tiles@[j].state == TileState::Owned(player) && tile_coord(
                    tiles@[j],
                ) == (r as int, c as int)),
        decreases n - i,
    {
        let t = tiles[i];
        if t.row as i64 == r && t.column as i64 == c {
            match t.state {
                TileState::Owned(p) => {
                    if p == player {
                        assert(tile_coord(tiles@[i as int]) == (r as int, c as int));
                        return true;
                    }
                },
                _ => {},
            }
        }
        i += 1;
    }
    false
}

/// Whether the cell at `(r, c)` has a hex neighbor currently owned by
/// `player`, under the parity-dependent offset rule.
fn has_adjacent_owned(tiles: &Vec<Tile>, player: u64, r: i32, c: i32) -> (b: bool)
    ensures
        b == hex_adjacent_to(owned_coords(tiles@, player), r as int, c as int),
{
    let r64 = r as i64;
    let c64 = c as i64;
    if r % 2 == 0 {
        board_has_owned_at(tiles, player, r64, c64 - 1) || board_has_owned_at(
            tiles,
            player,
            r64,
            c64 + 1,
        ) || board_has_owned_at(tiles, player, r64 - 1, c64) || board_has_owned_at(
            tiles,
            player,
            r64 - 1,
            c64 + 1,
        ) || board_has_owned_at(tiles, player, r64 + 1, c64) || board_has_owned_at(
            tiles,
            player,
            r64 + 1,
            c64 + 1,
        )
    } else {
        board_has_owned_at(tiles, player, r64, c64 - 1) || board_has_owned_at(
            tiles,
            player,
            r64,
            c64 + 1,
        ) || board_has_owned_at(tiles, player, r64 - 1, c64 - 1) || board_has_owned_at(
            tiles,
            player,
            r64 - 1,
            c64,
        ) || board_has_owned_at(tiles, player, r64 + 1, c64 - 1) || board_has_owned_at(
            tiles,
            player,
            r64 + 1,
            c64,
        )
    }
}

/// When changed tiles are exactly the captured tiles, the changed count
/// is the capture count.
proof fn lemma_count_changed_eq_captured(a: Seq<Tile>, b: Seq<Tile>, sel: u32, player: u64, n: int)
    requires
        forall|i: int|
            0 <= i < a.len() ==> (b[i].state != a[i].state) == tile_captured(a, sel, player, i),
        n <= a.len(),
    ensures
        count_changed_upto(a, b, n) == count_captured_upto(a, sel, player, n),
    decreases n,
{
    if n > 0 {
        lemma_count_changed_eq_captured(a, b, sel, player, n - 1);
    }
}

/// Resolve a selection: capture every unowned tile of color `selection`
/// reachable from the territory of `player`, and return one event per
/// captured tile, in the order the tiles were captured.
///
/// The board afterwards is exactly `resolved_board` of the board before;
/// in particular no owned tile ever changes hands, and once this returns
/// the same selection by the same player can capture nothing further.
/// The events a resolution emits: one per captured tile.  Each event
/// names the acting player and the coordinate of a captured tile, every
/// captured tile is named by an event, and the number of events is
/// exactly the capture count.
pub open spec fn events_for_captures(
    ts0: Seq<Tile>,
    sel: u32,
    player: u64,
    events: Seq<CaptureEvent>,
) -> bool {
    &&& events.len() == capture_count(ts0, sel, player)
    &&& forall|k: int|
        0 <= k < events.len() ==> events[k].player == player && exists|i: int|
            0 <= i < ts0.len() && tile_captured(ts0, sel, player, i) && events[k].row == ts0[i].row
                && events[k].column == ts0[i].column
    &&& forall|i: int|
        0 <= i < ts0.len() && tile_captured(ts0, sel, player, i) ==> exists|k: int|
            0 <= k < events.len() && events[k].row == ts0[i].row && events[k].column
                == ts0[i].column
}

/// The emitted events describe exactly the tiles whose state differs
/// between the starting board and the current one: every event carries
/// the acting player and the coordinate of a changed tile, and every
/// changed tile has an event.
spec fn events_match(ts0: Seq<Tile>, cur: Seq<Tile>, events: Seq<CaptureEvent>, player: u64) -> bool {
    &&& forall|k: int|
        0 <= k < events.len() ==> events[k].player == player && exists|i: int|
            0 <= i < ts0.len() && cur[i].state != ts0[i].state && events[k].row == ts0[i].row
                && events[k].column == ts0[i].column
    &&& forall|i: int|
        0 <= i < ts0.len() && cur[i].state != ts0[i].state ==> exists|k: int|
            0 <= k < events.len() && events[k].row == ts0[i].row && events[k].column
                == ts0[i].column
}

/// One full pass of the resolution: scan every tile once, capturing each
/// unowned tile of the selected color adjacent to the territory as it
/// stands at the moment of the scan.  Returns whether anything was
/// captured; a pass that captures nothing leaves board and events
/// untouched and certifies that no capture is possible at all.
fn capture_pass(
    board: &mut Vec<Tile>,
    events: &mut Vec<CaptureEvent>,
    selection: u32,
    player: u64,
    Ghost(ts0): Ghost<Seq<Tile>>,
) -> (did: bool)
    requires
        distinct_coords(ts0),
        old(board)@.len() == ts0.len(),
        capture_frame(ts0, old(board)@, selection, player),
        captures_sound(ts0, old(board)@, selection, player),
        old(events)@.len() == count_changed_upto(ts0, old(board)@, ts0.len() as int),
        events_match(ts0, old(board)@, old(events)@, player),
    ensures
        final(board)@.len() == ts0.len(),
        capture_frame(ts0, final(board)@, selection, player),
        captures_sound(ts0, final(board)@, selection, player),
        final(events)@.len() == count_changed_upto(ts0, final(board)@, ts0.len() as int),
        events_match(ts0, final(board)@, final(events)@, player),
        !did ==> final(board)@ == old(board)@ && final(events)@ == old(events)@
            && no_capture_possible(final(board)@, selection, player),
        did ==> final(events)@.len() > old(events)@.len(),
{
    let n = board.len();
    let mut did_capture = false;
    let mut j: usize = 0;
    while j < n
        invariant
            distinct_coords(ts0),
            n == ts0.len(),
            board@.len() == n,
            0 <= j <= n,
            capture_frame(ts0, board@, selection, player),
            captures_sound(ts0, board@, selection, player),
            events@.len() == count_changed_upto(ts0, board@, n as int),
            events_match(ts0, board@, events@, player),
            !did_capture ==> board@ == old(board)@ && events@ == old(events)@,
            did_capture ==> events@.len() > old(events)@.len(),
            !did_capture ==> forall|i: int|
                0 <= i < j ==> !(board@[i].state == TileState::Unowned(selection)
                    && hex_adjacent_to(
                    owned_coords(board@, player),
                    board@[i].row as int,
                    board@[i].column as int,
                )),
        decreases n - j,
    {
        let t = board[j];
        let is_sel = match t.state {
            TileState::Unowned(id) => id == selection,
            _ => false,
        };
        if is_sel {
            if has_adjacent_owned(board, player, t.row, t.column) {
                proof {
                    assert(ts0[j as int].state == TileState::Unowned(selection));
                    assert(tile_coord(ts0[j as int]) == (t.row as int, t.column as int));
                    lemma_capture_step_reachable(
                        ts0,
                        board@,
                        selection,
                        player,
                        t.row as int,
                        t.column as int,
                    );
                }
                let ghost board_before = board@;
                let ghost events_before = events@;
                let newt = Tile { row: t.row, column: t.column, state: TileState::Owned(player) };
                board.set(j, newt);
                events.push(CaptureEvent { row: t.row, column: t.column, player });
                did_capture = true;
                proof {
                    lemma_count_changed_update(ts0, board_before, newt, j as int, n as int);
                    assert forall|i: int|
                        0 <= i < n && board@[i].state != ts0[i].state implies exists|k: int|
                        0 <= k < events@.len() && events@[k].row == ts0[i].row && events@[k].column
                            == ts0[i].column by {
                        if i == j as int {
                            assert(events@[events@.len() - 1].row == ts0[i].row);
                            assert(events@[events@.len() - 1].column == ts0[i].column);
                        } else {
                            assert(board_before[i].state != ts0[i].state);
                            let k = choose|k: int|
                                0 <= k < events_before.len() && events_before[k].row == ts0[i].row
                                    && events_before[k].column == ts0[i].column;
                            assert(events@[k] == events_before[k]);
                        }
                    }
                }
            }
        }
        j += 1;
    }
    did_capture
}

/// Resolve a selection: capture every unowned tile of color `selection`
/// reachable from the territory of `player`, and return one event per
/// captured tile, in the order the tiles were captured.
///
/// The board afterwards is exactly `resolved_board` of the board before;
/// in particular no owned tile ever changes hands, and once this returns
/// the same selection by the same player can capture nothing further.
pub fn for_each_selected_tile(tiles: &mut Vec<Tile>, selection: u32, player: u64) -> (events: Vec<
    CaptureEvent,
>)
    requires
        distinct_coords(old(tiles)@),
    ensures
        final(tiles)@ == resolved_board(old(tiles)@, selection, player),
        no_capture_possible(final(tiles)@, selection, player),
        events_for_captures(old(tiles)@, selection, player, events@),
{
    let ghost ts0 = tiles@;
    let n = tiles.len();

    // Work on an owned copy of the board; write it back once resolved.
    let mut board: Vec<Tile> = Vec::new();
    let mut i: usize = 0;
    while i < n
        invariant
            n == ts0.len(),
            tiles@ == ts0,
            0 <= i <= n,
            board@ == ts0.subrange(0, i as int),
        decreases n - i,
    {
        board.push(tiles[i]);
        assert(board@ =~= ts0.subrange(0, i + 1));
        i += 1;
    }
    assert(board@ =~= ts0);
    proof {
        lemma_count_changed_self(ts0, n as int);
    }

    let mut events: Vec<CaptureEvent> = Vec::new();
    let mut again = true;
    while again
        invariant
            distinct_coords(ts0),
            n == ts0.len(),
            board@.len() == n,
            capture_frame(ts0, board@, selection, player),
            captures_sound(ts0, board@, selection, player),
            events@.len() == count_changed_upto(ts0, board@, n as int),
            events_match(ts0, board@, events@, player),
            !again ==> no_capture_possible(board@, selection, player),
        decreases n - count_changed_upto(ts0, board@, n as int), (if again {
            1int
        } else {
            0int
        }),
    {
        let did = capture_pass(&mut board, &mut events, selection, player, Ghost(ts0));
        proof {
            lemma_count_changed_bounds(ts0, board@, n as int);
        }
        again = did;
    }

    proof {
        lemma_resolution_exact(ts0, board@, selection, player);
        lemma_count_changed_eq_captured(ts0, board@, selection, player, n as int);
        assert forall|k: int| 0 <= k < events@.len() implies events@[k].player == player && exists|
            i: int,
        |
            0 <= i < ts0.len() && tile_captured(ts0, selection, player, i) && events@[k].row
                == ts0[i].row && events@[k].column == ts0[i].column by {
            let i = choose|i: int|
                0 <= i < n && board@[i].state != ts0[i].state && events@[k].row == ts0[i].row
                    && events@[k].column == ts0[i].column;
            assert(tile_captured(ts0, selection, player, i));
        }
        assert forall|i: int|
            0 <= i < ts0.len() && tile_captured(ts0, selection, player, i) implies exists|k: int|
            0 <= k < events@.len() && events@[k].row == ts0[i].row && events@[k].column
                == ts0[i].column by {
            assert(board@[i].state != ts0[i].state);
        }
    }
    *tiles = board;
    events
}

/// Count how many tiles a selection would capture, without touching the
/// board: the count-only mode used by scoring and by the automated
/// opponent.
pub fn count_selected_tiles(tiles: &Vec<Tile>, selection: u32, player: u64) -> (count: usize)
    requires
        distinct_coords(tiles@),
    ensures
        count == capture_count(tiles@, selection, player),
{
    let n = tiles.len();
    let mut probe: Vec<Tile> = Vec::new();
    let mut i: usize = 0;
    while i < n
        invariant
            n == tiles@.len(),
            0 <= i <= n,
            probe@ == tiles@.subrange(0, i as int),
        decreases n - i,
    {
        probe.push(tiles[i]);
        assert(probe@ =~= tiles@.subrange(0, i + 1));
        i += 1;
    }
    assert(probe@ =~= tiles@);
    let events = for_each_selected_tile(&mut probe, selection, player);
    events.len()
}

/// Whether selecting `selection` as `player` would capture the tile at
/// `(row, column)`: the validity test an input layer runs before it
/// turns a click or hover on that cell into a selection request.  The
/// board is not touched.
pub fn selection_reaches_tile(
    tiles: &Vec<Tile>,
    selection: u32,
    player: u64,
    row: i32,
    column: i32,
) -> (b: bool)
    requires
        distinct_coords(tiles@),
    ensures
        b == exists|i: int|
            0 <= i < tiles@.len() && tile_captured(tiles@, selection, player, i)
                && tiles@[i].row == row && tiles@[i].column == column,
{
    let n = tiles.len();
    let mut probe: Vec<Tile> = Vec::new();
    let mut i: usize = 0;
    while i < n
        invariant
            n == tiles@.len(),
            0 <= i <= n,
            probe@ == tiles@.subrange(0, i as int),
        decreases n - i,
    {
        probe.push(tiles[i]);
        assert(probe@ =~= tiles@.subrange(0, i + 1));
        i += 1;
    }
    assert(probe@ =~= tiles@);
    let events = for_each_selected_tile(&mut probe, selection, player);
    let m = events.len();
    let mut k: usize = 0;
    while k < m
        invariant
            m == events@.len(),
            0 <= k <= m,
            events_for_captures(tiles@, selection, player, events@),
            forall|t: int|
                0 <= t < k ==> !(events@[t].row == row && events@[t].column == column),
        decreases m - k,
    {
        let e = events[k];
        if e.row == row && e.column == column {
            proof {
                let i2 = choose|i2: int|
                    0 <= i2 < tiles@.len() && tile_captured(tiles@, selection, player, i2)
                        && events@[k as int].row == tiles@[i2].row && events@[k as int].column
                        == tiles@[i2].column;
                assert(tiles@[i2].row == row && tiles@[i2].column == column);
            }
            return true;
        }
        k += 1;
    }
    proof {
        if exists|i2: int|
            0 <= i2 < tiles@.len() && tile_captured(tiles@, selection, player, i2)
                && tiles@[i2].row == row && tiles@[i2].column == column {
            let i2 = choose|i2: int|
                0 <= i2 < tiles@.len() && tile_captured(tiles@, selection, player, i2)
                    && tiles@[i2].row == row && tiles@[i2].column == column;
            let t = choose|t: int|
                0 <= t < events@.len() && events@[t].row == tiles@[i2].row && events@[t].column
                    == tiles@[i2].column;
            assert(events@[t].row == row && events@[t].column == column);
            assert(false);
        }
    }
    false
}

/// Law: selecting a color that can capture nothing — in particular any
/// color a resolution has just exhausted — captures zero tiles and
/// leaves the board exactly as it was.
pub proof fn lemma_exhausted_selection_is_noop(ts: Seq<Tile>, sel: u32, player: u64)
    requires
        distinct_coords(ts),
        no_capture_possible(ts, sel, player),
    ensures
        resolved_board(ts, sel, player) == ts,
        capture_count(ts, sel, player) == 0,
{
    lemma_resolution_exact(ts, ts, sel, player);
    assert(ts =~= resolved_board(ts, sel, player));
    lemma_count_changed_self(ts, ts.len() as int);
    lemma_count_changed_eq_captured(ts, ts, sel, player, ts.len() as int);
}

/// Law: a resolution captures at most as many tiles as the board holds.
/// The resolution loop stops as soon as a full pass captures nothing,
/// and every earlier pass captures at least one tile, so the number of
/// passes is bounded by the tile count as well.
pub proof fn lemma_capture_count_bounded(ts: Seq<Tile>, sel: u32, player: u64)
    ensures
        0 <= capture_count(ts, sel, player) <= ts.len(),
{
    lemma_count_captured_bounds(ts, sel, player, ts.len() as int);
}

proof fn lemma_count_captured_bounds(ts: Seq<Tile>, sel: u32, player: u64, n: int)
    ensures
        0 <= count_captured_upto(ts, sel, player, n),
        count_captured_upto(ts, sel, player, n) <= if n >= 0 {
            n
        } else {
            0
        },
    decreases n,
{
    if n > 0 {
        lemma_count_captured_bounds(ts, sel, player, n - 1);
    }
}

/// Law: territory never shrinks.  Every coordinate owned by any player —
/// the acting one or an opponent — before a resolution is still owned by
/// the same player after it: a capture only ever claims unowned tiles.
pub proof fn lemma_capture_preserves_ownership(ts: Seq<Tile>, sel: u32, player: u64, q: u64)
    ensures
        owned_coords(ts, q).subset_of(owned_coords(resolved_board(ts, sel, player), q)),
{
    assert forall|d: (int, int)| owned_coords(ts, q).contains(d) implies owned_coords(
        resolved_board(ts, sel, player),
        q,
    ).contains(d) by {
        let i = choose|i: int|
            0 <= i < ts.len() && ts[i].state == TileState::Owned(q) && tile_coord(ts[i]) == d;
        assert(resolved_board(ts, sel, player)[i] == ts[i]);
        assert(tile_coord(resolved_board(ts, sel, player)[i]) == d);
    }
}

} // verus!
