//! Score recomputation and game-over detection.
//!
//! Every evaluation recomputes each player's score from scratch as the
//! number of tiles it owns.  A player with no color id yielding a
//! positive capture count is stuck; the first stuck player ends the
//! match: every remaining unowned tile is credited as a lump bonus to
//! the first other player, and the winner is the player with the
//! maximum score.  Several players can be stuck at once and scores can
//! tie; both are resolved by one deliberate, deterministic policy: every
//! scan walks the player registry in its own order, the first stuck
//! entry ends the match, the first other entry takes the bonus, and on
//! tied scores the earliest entry wins.

use vstd::prelude::*;

use crate::board::Tile;
use crate::board::TileState;
use crate::board::distinct_coords;
use crate::board::owned_count;
use crate::board::owned_count_upto;
use crate::board::unowned_count;
use crate::board::unowned_count_upto;
use crate::capture::capture_count;
use crate::capture::count_selected_tiles;
use crate::game::GamePhase;
use crate::game::GameState;
use crate::game::Player;

verus! {

/// No identity appears twice in the registry: it is keyed by identity.
pub open spec fn distinct_pids(reg: Seq<(u64, Player)>) -> bool {
    forall|i: int, j: int|
        0 <= i < reg.len() && 0 <= j < reg.len() && i != j ==> reg[i].0 != reg[j].0
}

/// Whether `pid` has a legal move: some available color id captures at
/// least one tile for it.
pub open spec fn has_move(ts: Seq<Tile>, ids: Seq<u32>, pid: u64) -> bool {
    exists|k: int| 0 <= k < ids.len() && capture_count(ts, ids[k], pid) > 0
}

/// The first stuck player at or after registry position `k`: one with
/// no legal move.
pub open spec fn first_stuck_from(
    reg: Seq<(u64, Player)>,
    ts: Seq<Tile>,
    ids: Seq<u32>,
    k: int,
) -> Option<u64>
    decreases reg.len() - k,
{
    if k < 0 || k >= reg.len() {
        None
    } else if !has_move(ts, ids, reg[k].0) {
        Some(reg[k].0)
    } else {
        first_stuck_from(reg, ts, ids, k + 1)
    }
}

/// The first stuck player of the registry, if any: the player whose
/// lack of a legal move ends the match.
pub open spec fn first_stuck(reg: Seq<(u64, Player)>, ts: Seq<Tile>, ids: Seq<u32>) -> Option<
    u64,
> {
    first_stuck_from(reg, ts, ids, 0)
}

/// The first registry entry at or after position `k` other than the
/// stuck player: the receiver of the endgame bonus.
pub open spec fn bonus_receiver_from(reg: Seq<(u64, Player)>, stuck: u64, k: int) -> Option<u64>
    decreases reg.len() - k,
{
    if k < 0 || k >= reg.len() {
        None
    } else if reg[k].0 != stuck {
        Some(reg[k].0)
    } else {
        bonus_receiver_from(reg, stuck, k + 1)
    }
}

/// The receiver of the endgame bonus, if any other player is registered.
pub open spec fn bonus_receiver(reg: Seq<(u64, Player)>, stuck: u64) -> Option<u64> {
    bonus_receiver_from(reg, stuck, 0)
}

/// A player's score after the evaluation: the number of tiles it owns,
/// plus — when the match ends and this player receives the bonus — every
/// remaining unowned tile.
pub open spec fn final_score(
    ts: Seq<Tile>,
    reg0: Seq<(u64, Player)>,
    ids: Seq<u32>,
    pid: u64,
) -> int {
    owned_count(ts, pid) + match first_stuck(reg0, ts, ids) {
        None => 0int,
        Some(st) => if bonus_receiver(reg0, st) == Some(pid) {
            unowned_count(ts)
        } else {
            0int
        },
    }
}

/// The best (player, score) pair among the first `n` registry entries by
/// final score; strictly higher scores win, so the earliest entry is
/// kept on ties.
pub open spec fn winner_upto(
    reg0: Seq<(u64, Player)>,
    ts: Seq<Tile>,
    ids: Seq<u32>,
    n: int,
) -> Option<(u64, int)>
    decreases n,
{
    if n <= 0 {
        None
    } else {
        let prev = winner_upto(reg0, ts, ids, n - 1);
        let pid = reg0[n - 1].0;
        let s = final_score(ts, reg0, ids, pid);
        match prev {
            None => Some((pid, s)),
            Some(p) => if s > p.1 {
                Some((pid, s))
            } else {
                prev
            },
        }
    }
}

/// The winner once a stuck player ends the match: the registered player
/// with the maximum final score, earliest in the registry on ties.
pub open spec fn winner(reg0: Seq<(u64, Player)>, ts: Seq<Tile>, ids: Seq<u32>) -> Option<u64> {
    match winner_upto(reg0, ts, ids, reg0.len() as int) {
        None => None,
        Some(p) => Some(p.0),
    }
}

/// Counting a player's tiles and the unowned tiles never exceeds the
/// board, and neither count is negative.
proof fn lemma_counts_bound(ts: Seq<Tile>, pid: u64, n: int)
    ensures
        0 <= owned_count_upto(ts, pid, n),
        0 <= unowned_count_upto(ts, n),
        owned_count_upto(ts, pid, n) + unowned_count_upto(ts, n) <= if n >= 0 {
            n
        } else {
            0
        },
    decreases n,
{
    if n > 0 {
        lemma_counts_bound(ts, pid, n - 1);
    }
}

/// A stuck player means the registry is not empty, so the winner scan
/// over the whole registry finds somebody.
proof fn lemma_winner_some(reg0: Seq<(u64, Player)>, ts: Seq<Tile>, ids: Seq<u32>, n: int)
    requires
        1 <= n <= reg0.len(),
    ensures
        winner_upto(reg0, ts, ids, n) is Some,
    decreases n,
{
    if n > 1 {
        lemma_winner_some(reg0, ts, ids, n - 1);
    }
}

/// Count the tiles owned by `pid`.
fn count_owned(tiles: &Vec<Tile>, pid: u64) -> (c: u32)
    requires
        tiles@.len() <= u32::MAX,
    ensures
        c as int == owned_count(tiles@, pid),
{
    let n = tiles.len();
    let mut c: u32 = 0;
    let mut i: usize = 0;
    while i < n
        invariant
            n == tiles@.len(),
            n <= u32::MAX,
            0 <= i <= n,
            c as int == owned_count_upto(tiles@, pid, i as int),
            c <= i,
        decreases n - i,
    {
        match tiles[i].state {
            TileState::Owned(p) => {
                if p == pid {
                    c += 1;
                }
            },
            _ => {},
        }
        i += 1;
    }
    c
}

/// Count the unowned tiles of the board, regardless of color.
fn count_unowned(tiles: &Vec<Tile>) -> (c: u32)
    requires
        tiles@.len() <= u32::MAX,
    ensures
        c as int == unowned_count(tiles@),
{
    let n = tiles.len();
    let mut c: u32 = 0;
    let mut i: usize = 0;
    while i < n
        invariant
            n == tiles@.len(),
            n <= u32::MAX,
            0 <= i <= n,
            c as int == unowned_count_upto(tiles@, i as int),
            c <= i,
        decreases n - i,
    {
        match tiles[i].state {
            TileState::Unowned(_) => {
                c += 1;
            },
            _ => {},
        }
        i += 1;
    }
    c
}

/// Whether `pid` has at least one color id with a positive capture
/// count.
fn player_has_move(tiles: &Vec<Tile>, ids: &Vec<u32>, pid: u64) -> (b: bool)
    requires
        distinct_coords(tiles@),
    ensures
        b == has_move(tiles@, ids@, pid),
{
    let m = ids.len();
    let mut k: usize = 0;
    while k < m
        invariant
            m == ids@.len(),
            0 <= k <= m,
            distinct_coords(tiles@),
            forall|t: int| 0 <= t < k ==> capture_count(tiles@, ids@[t], pid) <= 0,
        decreases m - k,
    {
        if count_selected_tiles(tiles, ids[k], pid) > 0 {
            return true;
        }
        k += 1;
    }
    false
}

/// Recompute every score and detect the end of the match.
///
/// While the match is running: each registered player's score becomes
/// the number of tiles it owns; then the registry is scanned for the
/// first player with no legal move.  If none exists the phase is left
/// alone; otherwise every remaining unowned tile is credited to the
/// first other registered player, and the phase becomes `Over` of the
/// player with the maximum score, earliest on ties.  Outside the
/// running phase nothing changes: `Over` is terminal.
pub fn update_scores(state: &mut GameState, players: &mut Vec<(u64, Player)>, tiles: &Vec<Tile>)
    requires
        distinct_coords(tiles@),
        distinct_pids(old(players)@),
        tiles@.len() <= u32::MAX,
    ensures
        !(old(state).phase is Running) ==> *final(state) == *old(state) && final(players)@
            == old(players)@,
        old(state).phase is Running ==> ({
            let reg0 = old(players)@;
            let ids = old(state).ids@;
            &&& final(state).players@ == old(state).players@
            &&& final(state).ids@ == ids
            &&& final(players)@.len() == reg0.len()
            &&& forall|j: int|
                #![trigger final(players)@[j]]
                0 <= j < reg0.len() ==> final(players)@[j].0 == reg0[j].0
                    && final(players)@[j].1.name == reg0[j].1.name
                    && final(players)@[j].1.kind == reg0[j].1.kind
            &&& forall|j: int|
                #![trigger final(players)@[j]]
                0 <= j < reg0.len() ==> final(players)@[j].1.score as int == final_score(
                    tiles@,
                    reg0,
                    ids,
                    reg0[j].0,
                )
            &&& match first_stuck(reg0, tiles@, ids) {
                None => final(state).phase == old(state).phase,
                Some(_) => match winner(reg0, tiles@, ids) {
                    Some(w) => final(state).phase == GamePhase::Over(w),
                    None => false,
                },
            }
        }),
{
    match state.phase {
        GamePhase::Running => {},
        _ => {
            return ;
        },
    }
    let ghost reg0 = players@;
    let ghost ts = tiles@;
    let ghost ids0 = state.ids@;

    // Base scores: what each player owns on the board.
    let np = players.len();
    let mut j: usize = 0;
    while j < np
        invariant
            np == players@.len(),
            players@.len() == reg0.len(),
            0 <= j <= np,
            tiles@ == ts,
            ts.len() <= u32::MAX,
            forall|i: int| j <= i < np ==> #[trigger] players@[i] == reg0[i],
            forall|i: int|
                #![trigger players@[i]]
                0 <= i < j ==> players@[i].0 == reg0[i].0 && players@[i].1.name == reg0[i].1.name
                    && players@[i].1.kind == reg0[i].1.kind && players@[i].1.score as int
                    == owned_count(ts, players@[i].0),
        decreases np - j,
    {
        let pid = players[j].0;
        let c = count_owned(tiles, pid);
        let entry = &mut players[j];
        entry.1.score = c;
        j += 1;
    }

    let total_unowned = count_unowned(tiles);

    // The first registered player with no legal move, if any.
    let mut stuck: Option<u64> = None;
    let mut k: usize = 0;
    while k < np && stuck.is_none()
        invariant
            np == players@.len(),
            players@.len() == reg0.len(),
            state.ids@ == ids0,
            tiles@ == ts,
            distinct_coords(ts),
            0 <= k <= np,
            forall|i: int|
                #![trigger players@[i]]
                0 <= i < reg0.len() ==> players@[i].0 == reg0[i].0 && players@[i].1.name
                    == reg0[i].1.name && players@[i].1.kind == reg0[i].1.kind
                    && players@[i].1.score as int == owned_count(ts, players@[i].0),
            stuck is None ==> first_stuck(reg0, ts, ids0) == first_stuck_from(
                reg0,
                ts,
                ids0,
                k as int,
            ),
            match stuck {
                Some(st) => first_stuck(reg0, ts, ids0) == Some(st),
                None => true,
            },
        decreases np - k, (if stuck is None {
            1int
        } else {
            0int
        }),
    {
        let pid = players[k].0;
        if !player_has_move(tiles, &state.ids, pid) {
            stuck = Some(pid);
        } else {
            k += 1;
        }
    }
    let st = match stuck {
        Some(s) => s,
        None => {
            return ;
        },
    };

    // The endgame bonus: every unowned tile goes to the first other
    // registered player.
    let mut rec: Option<u64> = None;
    let mut rec_idx: usize = 0;
    let mut k2: usize = 0;
    while k2 < np && rec.is_none()
        invariant
            np == players@.len(),
            players@.len() == reg0.len(),
            0 <= k2 <= np,
            forall|i: int|
                #![trigger players@[i]]
                0 <= i < reg0.len() ==> players@[i].0 == reg0[i].0 && players@[i].1.name
                    == reg0[i].1.name && players@[i].1.kind == reg0[i].1.kind
                    && players@[i].1.score as int == owned_count(ts, players@[i].0),
            rec is None ==> bonus_receiver(reg0, st) == bonus_receiver_from(reg0, st, k2 as int),
            match rec {
                Some(r) => bonus_receiver(reg0, st) == Some(r) && rec_idx < players@.len()
                    && players@[rec_idx as int].0 == r,
                None => true,
            },
        decreases np - k2, (if rec is None {
            1int
        } else {
            0int
        }),
    {
        let pid = players[k2].0;
        if pid != st {
            rec = Some(pid);
            rec_idx = k2;
        } else {
            k2 += 1;
        }
    }
    match rec {
        Some(rpid) => {
            proof {
                lemma_counts_bound(ts, rpid, ts.len() as int);
            }
            let base = players[rec_idx].1.score;
            assert(base as int == owned_count(ts, rpid));
            assert(base as int + total_unowned as int <= u32::MAX);
            let entry = &mut players[rec_idx];
            entry.1.score = base + total_unowned;
        },
        None => {
            assert(bonus_receiver(reg0, st) is None);
        },
    }
    proof {
        assert(first_stuck(reg0, ts, ids0) == Some(st));
        assert forall|i: int| 0 <= i < reg0.len() implies #[trigger] players@[i].1.score as int
            == final_score(ts, reg0, ids0, players@[i].0) by {
            let pid_i = players@[i].0;
            match rec {
                Some(rpid) => {
                    assert(bonus_receiver(reg0, st) == Some(rpid));
                    if i == rec_idx as int {
                        assert(pid_i == rpid);
                        assert(players@[i].1.score as int == owned_count(ts, pid_i)
                            + unowned_count(ts));
                    } else {
                        assert(players@[i].1.score as int == owned_count(ts, pid_i));
                        assert(reg0[i].0 == pid_i);
                        assert(reg0[rec_idx as int].0 == rpid);
                        assert(pid_i != rpid);
                    }
                },
                None => {
                    assert(players@[i].1.score as int == owned_count(ts, pid_i));
                },
            }
        }
    }

    // The winner: maximum final score, earliest registry entry on ties.
    let mut best: Option<(u64, u32)> = None;
    let mut k3: usize = 0;
    while k3 < np
        invariant
            np == players@.len(),
            players@.len() == reg0.len(),
            0 <= k3 <= np,
            forall|i: int|
                #![trigger players@[i]]
                0 <= i < reg0.len() ==> players@[i].0 == reg0[i].0 && players@[i].1.score as int
                    == final_score(ts, reg0, ids0, players@[i].0),
            match (best, winner_upto(reg0, ts, ids0, k3 as int)) {
                (Option::None, Option::None) => true,
                (Option::Some(b), Option::Some(w)) => b.0 == w.0 && b.1 as int == w.1,
                _ => false,
            },
        decreases np - k3,
    {
        let pid = players[k3].0;
        let s = players[k3].1.score;
        match best {
            None => {
                best = Some((pid, s));
            },
            Some(b) => {
                if s > b.1 {
                    best = Some((pid, s));
                }
            },
        }
        k3 += 1;
    }
    let w = match best {
        Some(b) => b.0,
        None => {
            proof {
                lemma_winner_some(reg0, ts, ids0, reg0.len() as int);
            }
            vstd::pervasive::unreached()
        },
    };
    state.phase = GamePhase::Over(w);
}

} // verus!
