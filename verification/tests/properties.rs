use assimilation::board::SelectEvent;
use assimilation::board::Tile;
use assimilation::board::TileState;
use assimilation::capture::count_selected_tiles;
use assimilation::capture::for_each_selected_tile;
use assimilation::capture::selection_reaches_tile;
use assimilation::game::GamePhase;
use assimilation::game::GameState;
use assimilation::game::Player;
use assimilation::game::PlayerKind;
use assimilation::game::perform_ai_move;
use assimilation::game::perform_selection;
use assimilation::score::update_scores;

fn tile(row: i32, column: i32, state: TileState) -> Tile {
    Tile { row, column, state }
}

fn human(name: &str) -> Player {
    Player { name: name.to_string(), kind: PlayerKind::Human, score: 0 }
}

fn bot(name: &str) -> Player {
    Player { name: name.to_string(), kind: PlayerKind::Bot, score: 0 }
}

/// Re-selecting an exhausted color captures zero additional tiles.
#[test]
fn reselect_exhausted_color_captures_nothing() {
    let mut tiles = vec![
        tile(0, 0, TileState::Owned(1)),
        tile(0, 1, TileState::Unowned(5)),
        tile(0, 2, TileState::Unowned(5)),
        tile(0, 5, TileState::Unowned(5)),
    ];
    let first = for_each_selected_tile(&mut tiles, 5, 1);
    assert_eq!(first.len(), 2);
    let again = for_each_selected_tile(&mut tiles, 5, 1);
    assert_eq!(again.len(), 0);
    // The disconnected tile stays unowned.
    assert_eq!(tiles[3].state, TileState::Unowned(5));
}

/// No player's owned tiles are ever taken away by a resolution.
#[test]
fn owned_tiles_never_shrink() {
    let mut tiles = vec![
        tile(0, 0, TileState::Owned(1)),
        tile(0, 1, TileState::Unowned(5)),
        tile(1, 0, TileState::Owned(2)),
        tile(1, 1, TileState::Unowned(5)),
    ];
    for_each_selected_tile(&mut tiles, 5, 1);
    assert_eq!(tiles[0].state, TileState::Owned(1));
    assert_eq!(tiles[2].state, TileState::Owned(2));
}

/// A resolution emits at most one event per board tile.
#[test]
fn captures_bounded_by_tile_count() {
    let mut tiles = Vec::new();
    for row in 0..6 {
        for column in 0..6 {
            tiles.push(tile(row, column, TileState::Unowned(0)));
        }
    }
    tiles[0].state = TileState::Owned(9);
    let n = tiles.len();
    let events = for_each_selected_tile(&mut tiles, 0, 9);
    assert_eq!(events.len(), n - 1);
    assert!(events.len() <= n);
}

/// On an even row a neighbor with a negative column step and a nonzero
/// row step is excluded; on an odd row the positive column step is.
#[test]
fn parity_rule_is_asymmetric() {
    // Odd-row tile at (1, 1): (0, 2) is not one of its six neighbors.
    let mut separated = vec![
        tile(0, 2, TileState::Owned(1)),
        tile(1, 1, TileState::Unowned(3)),
    ];
    assert_eq!(for_each_selected_tile(&mut separated, 3, 1).len(), 0);

    // Odd-row tile at (1, 2): (0, 2) is its neighbor through (-1, 0).
    let mut adjacent = vec![
        tile(0, 2, TileState::Owned(1)),
        tile(1, 2, TileState::Unowned(3)),
    ];
    assert_eq!(for_each_selected_tile(&mut adjacent, 3, 1).len(), 1);

    // Even-row tile at (2, 1): (1, 0) is not one of its six neighbors.
    let mut separated_even = vec![
        tile(1, 0, TileState::Owned(1)),
        tile(2, 1, TileState::Unowned(4)),
    ];
    assert_eq!(for_each_selected_tile(&mut separated_even, 4, 1).len(), 0);

    // Even-row tile at (2, 1): (1, 1) is its neighbor through (-1, 0).
    let mut adjacent_even = vec![
        tile(1, 1, TileState::Owned(1)),
        tile(2, 1, TileState::Unowned(4)),
    ];
    assert_eq!(for_each_selected_tile(&mut adjacent_even, 4, 1).len(), 1);
}

/// One resolved selection rotates the turn order by one: the head moves
/// to the tail.
#[test]
fn selection_rotates_player_order() {
    let mut state = GameState {
        players: vec![10, 20, 30],
        phase: GamePhase::Running,
        ids: vec![0],
    };
    let mut tiles: Vec<Tile> = Vec::new();
    let selection = SelectEvent { id: 0, player: 10 };
    perform_selection(&mut state, &mut tiles, &selection);
    assert_eq!(state.players, vec![20, 30, 10]);

    perform_selection(&mut state, &mut tiles, &SelectEvent { id: 0, player: 20 });
    assert_eq!(state.players, vec![30, 10, 20]);
}

/// A finished match accepts no selections: the order and board stay put.
#[test]
fn selection_after_game_over_is_ignored() {
    let mut state = GameState {
        players: vec![1, 2],
        phase: GamePhase::Over(2),
        ids: vec![0],
    };
    let mut tiles = vec![tile(0, 0, TileState::Unowned(0)), tile(0, 1, TileState::Owned(1))];
    let events = perform_selection(&mut state, &mut tiles, &SelectEvent { id: 0, player: 1 });
    assert_eq!(events.len(), 0);
    assert_eq!(state.players, vec![1, 2]);
    assert_eq!(tiles[0].state, TileState::Unowned(0));
}

/// A board where the first player is stuck ends the match: the leftover
/// unowned tiles go to the other player and the phase becomes Over.
#[test]
fn stuck_player_ends_match_with_bonus() {
    let mut registry = vec![(1u64, human("Player")), (2u64, bot("Bot"))];
    let mut state = GameState { players: vec![1, 2], phase: GamePhase::Running, ids: vec![0] };
    // Player 1 owns nothing; player 2 could still capture (0, 1).
    let tiles = vec![
        tile(0, 0, TileState::Owned(2)),
        tile(0, 1, TileState::Unowned(0)),
    ];
    update_scores(&mut state, &mut registry, &tiles);
    assert_eq!(registry[0].1.score, 0);
    assert_eq!(registry[1].1.score, 2);
    assert_eq!(state.phase, GamePhase::Over(2));
}

/// While every player still has a move, the phase stays Running and the
/// scores are plain ownership counts.
#[test]
fn scores_recomputed_while_running() {
    let mut registry = vec![(1u64, human("Player")), (2u64, bot("Bot"))];
    let mut state = GameState { players: vec![1, 2], phase: GamePhase::Running, ids: vec![0] };
    let tiles = vec![
        tile(0, 0, TileState::Owned(1)),
        tile(0, 1, TileState::Unowned(0)),
        tile(5, 5, TileState::Owned(2)),
        tile(5, 6, TileState::Unowned(0)),
    ];
    update_scores(&mut state, &mut registry, &tiles);
    assert_eq!(registry[0].1.score, 1);
    assert_eq!(registry[1].1.score, 1);
    assert_eq!(state.phase, GamePhase::Running);
}

/// A finished match is never re-scored.
#[test]
fn update_scores_after_game_over_is_ignored() {
    let mut registry = vec![(1u64, human("Player")), (2u64, bot("Bot"))];
    let mut state = GameState { players: vec![1, 2], phase: GamePhase::Over(1), ids: vec![0] };
    let tiles = vec![tile(0, 0, TileState::Owned(2))];
    update_scores(&mut state, &mut registry, &tiles);
    assert_eq!(registry[1].1.score, 0);
    assert_eq!(state.phase, GamePhase::Over(1));
}

/// The automated opponent is deterministic: the same board and id set
/// give the same selection twice.
#[test]
fn ai_choice_is_deterministic() {
    let registry = vec![(2u64, bot("Bot")), (1u64, human("Player"))];
    let state = GameState { players: vec![2, 1], phase: GamePhase::Running, ids: vec![0, 1] };
    let tiles = vec![
        tile(0, 0, TileState::Owned(2)),
        tile(0, 1, TileState::Unowned(1)),
        tile(0, 2, TileState::Unowned(1)),
        tile(1, 0, TileState::Unowned(0)),
    ];
    let first = perform_ai_move(&state, &registry, &tiles);
    let second = perform_ai_move(&state, &registry, &tiles);
    assert_eq!(first, second);
    assert_eq!(first, Some(SelectEvent { id: 1, player: 2 }));
}

/// The opponent picks the id with the strictly highest capture count;
/// ties keep the lowest id, and with nothing to capture it still selects
/// the lowest id as a forced no-op.
#[test]
fn ai_greedy_choice_and_ties() {
    let registry = vec![(2u64, bot("Bot"))];
    let state = GameState { players: vec![2], phase: GamePhase::Running, ids: vec![0, 1] };

    // Tie: one tile of each color is reachable.
    let tie_board = vec![
        tile(0, 0, TileState::Owned(2)),
        tile(0, 1, TileState::Unowned(1)),
        tile(1, 0, TileState::Unowned(0)),
    ];
    assert_eq!(
        perform_ai_move(&state, &registry, &tie_board),
        Some(SelectEvent { id: 0, player: 2 })
    );

    // Nothing to capture: the lowest id is selected anyway.
    let empty_board = vec![tile(0, 0, TileState::Owned(2))];
    assert_eq!(
        perform_ai_move(&state, &registry, &empty_board),
        Some(SelectEvent { id: 0, player: 2 })
    );
}

/// The opponent stays quiet when the head of the turn order is human or
/// the match is not running.
#[test]
fn ai_acts_only_for_running_bot() {
    let registry = vec![(1u64, human("Player")), (2u64, bot("Bot"))];
    let tiles = vec![tile(0, 0, TileState::Owned(2))];

    let human_head = GameState { players: vec![1, 2], phase: GamePhase::Running, ids: vec![0] };
    assert_eq!(perform_ai_move(&human_head, &registry, &tiles), None);

    let finished = GameState { players: vec![2, 1], phase: GamePhase::Over(2), ids: vec![0] };
    assert_eq!(perform_ai_move(&finished, &registry, &tiles), None);
}

/// A selection by a player owning nothing, or on an empty board, is a
/// legal no-op: zero captures, turn still rotated.
#[test]
fn empty_selection_is_legal_noop() {
    let mut state = GameState { players: vec![1, 2], phase: GamePhase::Running, ids: vec![0] };

    let mut no_tiles: Vec<Tile> = Vec::new();
    let events = perform_selection(&mut state, &mut no_tiles, &SelectEvent { id: 0, player: 1 });
    assert_eq!(events.len(), 0);
    assert_eq!(state.players, vec![2, 1]);

    // A player unknown to the board owns no seed tiles.
    let mut tiles = vec![tile(0, 0, TileState::Unowned(0)), tile(0, 1, TileState::Owned(1))];
    let events = perform_selection(&mut state, &mut tiles, &SelectEvent { id: 0, player: 99 });
    assert_eq!(events.len(), 0);
    assert_eq!(tiles[0].state, TileState::Unowned(0));
}

/// A cell is a valid selection target only when the flood capture would
/// actually reach it.
#[test]
fn reachability_check_for_input_layer() {
    let tiles = vec![
        tile(0, 0, TileState::Owned(1)),
        tile(0, 1, TileState::Unowned(5)),
        tile(0, 2, TileState::Unowned(5)),
        tile(0, 5, TileState::Unowned(5)),
        tile(0, 6, TileState::Unowned(7)),
    ];
    // Connected chain of the selected color: reachable.
    assert!(selection_reaches_tile(&tiles, 5, 1, 0, 1));
    assert!(selection_reaches_tile(&tiles, 5, 1, 0, 2));
    // Disconnected same-color tile: not reachable.
    assert!(!selection_reaches_tile(&tiles, 5, 1, 0, 5));
    // Other color, other player, empty cell: never valid.
    assert!(!selection_reaches_tile(&tiles, 7, 1, 0, 6));
    assert!(!selection_reaches_tile(&tiles, 5, 2, 0, 1));
    assert!(!selection_reaches_tile(&tiles, 5, 1, 3, 3));
    // The check itself never mutates.
    assert_eq!(tiles[1].state, TileState::Unowned(5));
}

/// The count-only mode reports what a real resolution would capture,
/// without touching the board.
#[test]
fn count_mode_matches_resolution() {
    let tiles = vec![
        tile(0, 0, TileState::Owned(1)),
        tile(0, 1, TileState::Unowned(5)),
        tile(0, 2, TileState::Unowned(5)),
    ];
    let count = count_selected_tiles(&tiles, 5, 1);
    assert_eq!(count, 2);
    assert_eq!(tiles[1].state, TileState::Unowned(5));

    let mut mutated = tiles.clone();
    let events = for_each_selected_tile(&mut mutated, 5, 1);
    assert_eq!(events.len(), count);
}
