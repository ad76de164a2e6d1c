//! Players, match state, turn rotation and the automated opponent.

use vstd::prelude::*;

use crate::board::CaptureEvent;
use crate::board::SelectEvent;
use crate::board::Tile;
use crate::board::distinct_coords;
use crate::capture::capture_count;
use crate::capture::events_for_captures;
use crate::capture::for_each_selected_tile;
use crate::capture::count_selected_tiles;
use crate::capture::resolved_board;
use crate::capture::no_capture_possible;

verus! {

/// Who controls a player: a person at the input layer, or the built-in
/// greedy opponent.
#[derive(Clone, Copy, Debug, PartialEq, Eq, Structural)]
pub enum PlayerKind {
    Human,
    Bot,
}

/// One participant: display name, controller kind, and the score derived
/// from the board.  The score is never patched incrementally; it is
/// recomputed from scratch at every evaluation.
#[derive(Clone, Debug)]
pub struct Player {
    pub name: String,
    pub kind: PlayerKind,
    pub score: u32,
}

/// Phase of a match.  Transitions are one-directional: `Setup` to
/// `Running` to `Over(winner)`, and `Over` is terminal.
#[derive(Clone, Copy, Debug, PartialEq, Eq, Structural)]
pub enum GamePhase {
    Setup,
    Running,
    Over(u64),
}

/// The match state around the board.
#[derive(Clone, Debug)]
pub struct GameState {
    /// The turn order; the head is always the current actor.
    pub players: Vec<u64>,
    /// The match phase.
    pub phase: GamePhase,
    /// The selectable color ids, kept in ascending order.
    pub ids: Vec<u32>,
}

/// The turn order after one resolved selection: the current head moves
/// to the tail and the next player becomes head.
pub open spec fn rotated_order(s: Seq<u64>) -> Seq<u64> {
    if s.len() == 0 {
        s
    } else {
        s.subrange(1, s.len() as int).push(s[0])
    }
}

/// Resolve one selection event and advance the turn.
///
/// While the match is running this captures the selected region for the
/// acting player (see `for_each_selected_tile`), returns the capture
/// events, and rotates the turn order by one, whatever the capture count
/// was.  Outside the running phase it is a no-op: a finished or not yet
/// started match accepts no selections.
pub fn perform_selection(
    state: &mut GameState,
    tiles: &mut Vec<Tile>,
    selection: &SelectEvent,
) -> (events: Vec<CaptureEvent>)
    requires
        distinct_coords(old(tiles)@),
    ensures
        old(state).phase is Running ==> {
            &&& final(tiles)@ == resolved_board(old(tiles)@, selection.id, selection.player)
            &&& no_capture_possible(final(tiles)@, selection.id, selection.player)
            &&& events_for_captures(old(tiles)@, selection.id, selection.player, events@)
            &&& final(state).players@ == rotated_order(old(state).players@)
            &&& final(state).phase == old(state).phase
            &&& final(state).ids@ == old(state).ids@
        },
        !(old(state).phase is Running) ==> {
            &&& *final(state) == *old(state)
            &&& final(tiles)@ == old(tiles)@
            &&& events@.len() == 0
        },
{
    match state.phase {
        GamePhase::Running => {},
        _ => {
            return Vec::new();
        },
    }
    let events = for_each_selected_tile(tiles, selection.id, selection.player);
    if state.players.len() > 0 {
        let head = state.players.remove(0);
        state.players.push(head);
    }
    proof {
        assert(state.players@ =~= rotated_order(old(state).players@));
    }
    events
}

/// Index of the first entry of the player registry carrying identity
/// `pid`, scanning from position `k`.
pub open spec fn find_player_from(reg: Seq<(u64, Player)>, pid: u64, k: int) -> Option<int>
    decreases reg.len() - k,
{
    if k < 0 || k >= reg.len() {
        None
    } else if reg[k].0 == pid {
        Some(k)
    } else {
        find_player_from(reg, pid, k + 1)
    }
}

/// Index of the first entry of the player registry carrying identity
/// `pid`, if any.
pub open spec fn find_player(reg: Seq<(u64, Player)>, pid: u64) -> Option<int> {
    find_player_from(reg, pid, 0)
}

/// Linear lookup of a player identity in the registry.
fn lookup_player(players: &Vec<(u64, Player)>, pid: u64) -> (r: Option<usize>)
    ensures
        match r {
            Some(i) => find_player(players@, pid) == Some(i as int) && i < players@.len()
                && players@[i as int].0 == pid,
            None => find_player(players@, pid) is None,
        },
{
    let n = players.len();
    let mut k: usize = 0;
    while k < n
        invariant
            n == players@.len(),
            0 <= k <= n,
            find_player(players@, pid) == find_player_from(players@, pid, k as int),
        decreases n - k,
    {
        if players[k].0 == pid {
            return Some(k);
        }
        k += 1;
    }
    None
}

/// Whether the automated opponent is to act: the match is running and
/// the head of the turn order is registered as a bot.
pub open spec fn bot_to_act(phase: GamePhase, order: Seq<u64>, reg: Seq<(u64, Player)>) -> bool {
    &&& phase is Running
    &&& order.len() > 0
    &&& match find_player(reg, order[0]) {
        Some(i) => reg[i].1.kind is Bot,
        None => false,
    }
}

/// The greedy choice among the first `n` color ids: the id with the
/// strictly highest capture count seen so far, earliest id on ties.
pub open spec fn best_selection_upto(ts: Seq<Tile>, ids: Seq<u32>, player: u64, n: int) -> (
    u32,
    int,
)
    decreases n,
{
    if n <= 1 {
        (ids[0], capture_count(ts, ids[0], player))
    } else {
        let prev = best_selection_upto(ts, ids, player, n - 1);
        let c = capture_count(ts, ids[n - 1], player);
        if c > prev.1 {
            (ids[n - 1], c)
        } else {
            prev
        }
    }
}

/// The color id the automated opponent selects: scanning the available
/// ids in order, the one with the strictly highest capture count, the
/// earliest on ties; when nothing can be captured, the first id (a
/// forced no-op turn).
pub open spec fn best_selection(ts: Seq<Tile>, ids: Seq<u32>, player: u64) -> u32 {
    best_selection_upto(ts, ids, player, ids.len() as int).0
}

/// Produce the automated opponent's selection for the next tick.
///
/// Acts only when the match is running and the head of the turn order is
/// a registered bot; the choice is the greedy `best_selection`, a pure
/// function of the board and the id list, so identical states always
/// yield the identical selection.
pub fn perform_ai_move(
    state: &GameState,
    players: &Vec<(u64, Player)>,
    tiles: &Vec<Tile>,
) -> (sel: Option<SelectEvent>)
    requires
        distinct_coords(tiles@),
    ensures
        sel is Some <==> bot_to_act(state.phase, state.players@, players@) && state.ids@.len() > 0,
        sel matches Some(ev) ==> ev.player == state.players@[0] && ev.id == best_selection(
            tiles@,
            state.ids@,
            state.players@[0],
        ),
{
    match state.phase {
        GamePhase::Running => {},
        _ => {
            return None;
        },
    }
    if state.players.len() == 0 {
        return None;
    }
    let head = state.players[0];
    let idx = match lookup_player(players, head) {
        Some(i) => i,
        None => {
            return None;
        },
    };
    match players[idx].1.kind {
        PlayerKind::Bot => {},
        _ => {
            return None;
        },
    }
    if state.ids.len() == 0 {
        return None;
    }
    let mut best_id = state.ids[0];
    let mut best_cnt = count_selected_tiles(tiles, best_id, head);
    let mut k: usize = 1;
    while k < state.ids.len()
        invariant
            distinct_coords(tiles@),
            state.ids@.len() > 0,
            1 <= k <= state.ids@.len(),
            (best_id, best_cnt as int) == best_selection_upto(tiles@, state.ids@, head, k as int),
        decreases state.ids@.len() - k,
    {
        let c = count_selected_tiles(tiles, state.ids[k], head);
        if c > best_cnt {
            best_cnt = c;
            best_id = state.ids[k];
        }
        k += 1;
    }
    Some(SelectEvent { id: best_id, player: head })
}

} // verus!
