use assimilation::board::SelectEvent;
use assimilation::board::Tile;
use assimilation::board::TileState;
use assimilation::game::GamePhase;
use assimilation::game::GameState;
use assimilation::game::Player;
use assimilation::game::PlayerKind;
use assimilation::game::perform_selection;
use assimilation::level::load_level;
use assimilation::score::update_scores;

fn two_player_state() -> (GameState, Vec<(u64, Player)>) {
    let registry = vec![
        (
            1u64,
            Player { name: "Player".to_string(), kind: PlayerKind::Human, score: 0 },
        ),
        (
            2u64,
            Player { name: "Bot".to_string(), kind: PlayerKind::Bot, score: 0 },
        ),
    ];
    let state = GameState { players: vec![1, 2], phase: GamePhase::Running, ids: vec![0, 1] };
    (state, registry)
}

#[test]
fn test_load_level_basic() {
    let (state, _) = two_player_state();

    let desc = "
- 1 | | | 2 -
- | | | | | -
";
    let tiles = load_level(desc.as_bytes(), &state.players, &state.ids).unwrap();

    assert_eq!(tiles.len(), 14);
}

#[test]
fn do_selection() {
    let (mut state, mut registry) = two_player_state();

    let mut tiles = Vec::new();
    for row in 0..10 {
        for column in 0..10 {
            tiles.push(Tile { row, column, state: TileState::Unowned(0) });
        }
    }

    let selection = SelectEvent { id: 0, player: state.players[0] };
    perform_selection(&mut state, &mut tiles, &selection);
    update_scores(&mut state, &mut registry, &tiles);

    // The player owns no tiles, so should have no score
    assert_eq!(registry[0].1.score, 0);
}
