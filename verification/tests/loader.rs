use assimilation::board::TileState;
use assimilation::level::LevelError;
use assimilation::level::load_level;
use assimilation::levels::HEXAGON;
use assimilation::levels::SQUARE;

/// Every token kind loads to its documented state, with zero-based
/// coordinates from line and position.
#[test]
fn tokens_load_to_their_states() {
    let players = vec![5u64, 6u64];
    let ids = vec![9u32];
    let tiles = load_level(b"- 1 | 2", &players, &ids).unwrap();
    assert_eq!(tiles.len(), 4);
    assert_eq!((tiles[0].row, tiles[0].column), (0, 0));
    assert_eq!(tiles[0].state, TileState::Empty);
    assert_eq!((tiles[1].row, tiles[1].column), (0, 1));
    assert_eq!(tiles[1].state, TileState::Owned(5));
    assert_eq!((tiles[2].row, tiles[2].column), (0, 2));
    // The color id is drawn from the available set; here it has one
    // element, so the draw is forced.
    assert_eq!(tiles[2].state, TileState::Unowned(9));
    assert_eq!((tiles[3].row, tiles[3].column), (0, 3));
    assert_eq!(tiles[3].state, TileState::Owned(6));
}

/// The two-row example board: fourteen tiles, the numbered tokens owned
/// by the right players, the bars drawn from the color set.
#[test]
fn example_level_shape() {
    let players = vec![1u64, 2u64];
    let ids = vec![0u32, 1u32];
    let tiles = load_level(b"- 1 | | | 2 -\n- | | | | | -", &players, &ids).unwrap();
    assert_eq!(tiles.len(), 14);
    assert_eq!(tiles[1].state, TileState::Owned(1));
    assert_eq!(tiles[5].state, TileState::Owned(2));
    for (k, t) in tiles.iter().enumerate() {
        assert_eq!(t.row, (k / 7) as i32);
        assert_eq!(t.column, (k % 7) as i32);
        match t.state {
            TileState::Unowned(id) => assert!(ids.contains(&id)),
            _ => {}
        }
    }
}

/// A blank interior line still advances the row counter.
#[test]
fn blank_line_counts_as_row() {
    let players = vec![1u64, 2u64];
    let tiles = load_level(b"1\n\n2", &players, &vec![]).unwrap();
    assert_eq!(tiles.len(), 2);
    assert_eq!(tiles[0].row, 0);
    assert_eq!(tiles[1].row, 2);
}

/// Multi-digit player numbers parse as one number.
#[test]
fn multi_digit_player_number() {
    let players: Vec<u64> = (100..112).collect();
    let tiles = load_level(b"12 1", &players, &vec![]).unwrap();
    assert_eq!(tiles[0].state, TileState::Owned(111));
    assert_eq!(tiles[1].state, TileState::Owned(100));
}

/// A token that is neither a bar, a dash, nor digits is rejected.
#[test]
fn unknown_token_is_rejected() {
    let players = vec![1u64];
    assert_eq!(
        load_level(b"- x", &players, &vec![0]),
        Err(LevelError::InvalidToken)
    );
}

/// A player number of zero or above the player count is rejected.
#[test]
fn out_of_range_player_is_rejected() {
    let players = vec![1u64, 2u64];
    assert_eq!(load_level(b"3", &players, &vec![]), Err(LevelError::InvalidPlayerNumber));
    assert_eq!(load_level(b"0", &players, &vec![]), Err(LevelError::InvalidPlayerNumber));
    assert_eq!(
        load_level(b"184467440737095516151", &players, &vec![]),
        Err(LevelError::InvalidPlayerNumber)
    );
}

/// A bar cannot be loaded without color ids to draw from.
#[test]
fn bar_without_color_ids_is_rejected() {
    let players = vec![1u64];
    assert_eq!(load_level(b"- |", &players, &vec![]), Err(LevelError::NoColorIds));
}

/// The first offending token in scan order decides the error.
#[test]
fn first_bad_token_wins() {
    let players = vec![1u64];
    assert_eq!(
        load_level(b"- x 0", &players, &vec![0]),
        Err(LevelError::InvalidToken)
    );
    assert_eq!(
        load_level(b"- 0 x", &players, &vec![0]),
        Err(LevelError::InvalidPlayerNumber)
    );
}

/// Windows-style line endings separate rows just as bare newlines do.
#[test]
fn crlf_lines_load() {
    let players = vec![1u64, 2u64];
    let tiles = load_level(b"1 -\r\n- 2\r\n", &players, &vec![]).unwrap();
    assert_eq!(tiles.len(), 4);
    assert_eq!((tiles[2].row, tiles[2].column), (1, 0));
    assert_eq!(tiles[3].state, TileState::Owned(2));
}

/// Text with no tokens loads an empty board.
#[test]
fn empty_text_loads_empty_board() {
    let players = vec![1u64];
    assert_eq!(load_level(b"", &players, &vec![]), Ok(vec![]));
    assert_eq!(load_level(b"  \n \n", &players, &vec![]), Ok(vec![]));
}

/// The built-in presets load with two players.
#[test]
fn presets_load() {
    let players = vec![1u64, 2u64];
    let ids = vec![0u32, 1, 2, 3];
    let square = load_level(SQUARE.as_bytes(), &players, &ids).unwrap();
    assert_eq!(square.len(), 100);
    let hexagon = load_level(HEXAGON.as_bytes(), &players, &ids).unwrap();
    assert_eq!(hexagon.len(), 13 * 13);
    assert_eq!(square[90].state, TileState::Owned(1));
    assert_eq!(square[9].state, TileState::Owned(2));
}
