use gamey::{
    other_player, Coordinates, GameAction, GameStatus, GameY, GameYError, Movement, PlayerId, YEN,
};
use std::collections::HashSet;

fn assert_neighbors_match(actual: Vec<Coordinates>, expected: Vec<Coordinates>) {
    let actual_set: HashSet<_> = actual.into_iter().collect();
    let expected_set: HashSet<_> = expected.into_iter().collect();
    assert_eq!(actual_set, expected_set);
}

fn place(player: u32, x: u32, y: u32, z: u32) -> Movement {
    Movement::Placement {
        player: PlayerId::new(player),
        coords: Coordinates::new(x, y, z),
    }
}

#[test]
fn test_other_player() {
    assert_eq!(other_player(PlayerId::new(0)), PlayerId::new(1));
    assert_eq!(other_player(PlayerId::new(1)), PlayerId::new(0));
}

#[test]
fn test_game_initialization() {
    let game = GameY::new(7);
    assert_eq!(game.board_size, 7);
    assert_eq!(game.history.len(), 0);
    match game.status {
        GameStatus::Ongoing { next_player } => {
            assert_eq!(next_player, PlayerId::new(0));
        }
        _ => panic!("Game should be ongoing"),
    }
}

#[test]
fn test_interior_cell_has_six_neighbors() {
    let board = GameY::new(5);
    let cell = Coordinates::new(2, 1, 1);

    let neighbors = board.get_neighbors(&cell);

    let expected = vec![
        Coordinates::new(1, 2, 1),
        Coordinates::new(1, 1, 2),
        Coordinates::new(3, 0, 1),
        Coordinates::new(2, 0, 2),
        Coordinates::new(3, 1, 0),
        Coordinates::new(2, 2, 0),
    ];

    assert_eq!(neighbors.len(), 6);
    assert_neighbors_match(neighbors, expected);
}

#[test]
fn test_corner_cell_has_two_neighbors() {
    let board = GameY::new(5);
    let top_corner = Coordinates::new(4, 0, 0);

    let neighbors = board.get_neighbors(&top_corner);

    let expected = vec![Coordinates::new(3, 1, 0), Coordinates::new(3, 0, 1)];

    assert_eq!(neighbors.len(), 2);
    assert_neighbors_match(neighbors, expected);
}

#[test]
fn test_edge_cell_has_four_neighbors() {
    let board = GameY::new(5);
    let edge_cell = Coordinates::new(0, 2, 2);

    let neighbors = board.get_neighbors(&edge_cell);

    let expected = vec![
        Coordinates::new(1, 1, 2),
        Coordinates::new(0, 1, 3),
        Coordinates::new(1, 2, 1),
        Coordinates::new(0, 3, 1),
    ];

    assert_eq!(neighbors.len(), 4);
    assert_neighbors_match(neighbors, expected);
}

#[test]
fn test_winning_condition() {
    let mut game = GameY::new(3);

    let moves = vec![
        place(0, 0, 2, 0),
        place(1, 2, 0, 0),
        place(0, 0, 1, 1),
        place(1, 1, 1, 0),
        place(0, 0, 0, 2),
    ];

    for mv in moves {
        game.add_move(mv).unwrap();
    }

    match game.status {
        GameStatus::Finished { winner } => {
            assert_eq!(winner, PlayerId::new(0));
        }
        _ => panic!("Game should be finished with a winner"),
    }
}

#[test]
fn test_yen_conversion() {
    let mut game = GameY::new(3);

    let moves = vec![place(0, 0, 2, 0), place(1, 2, 0, 0), place(0, 0, 1, 1)];

    for mv in moves {
        game.add_move(mv).unwrap();
    }

    let yen: YEN = game.to_yen();
    let loaded_game = GameY::try_from(yen.clone()).unwrap();

    assert_eq!(game.board_size, loaded_game.board_size);
    let yen_loaded: YEN = loaded_game.to_yen();
    assert_eq!(yen.layout(), yen_loaded.layout());
}

fn yen_of(size: u32, layout: &str) -> YEN {
    YEN::new(size, 0, vec!['B', 'R'], layout.to_string())
}

#[test]
fn test_load_yen_end2() {
    let yen = yen_of(2, "B/BB");
    let game = GameY::try_from(yen).unwrap();
    match game.status {
        GameStatus::Finished { winner } => {
            assert_eq!(winner, PlayerId::new(0));
        }
        _ => panic!("Game should be finished with a winner"),
    }
}

#[test]
fn test_load_yen_end3() {
    let yen = yen_of(3, "B/BB/BBR");
    let game = GameY::try_from(yen).unwrap();
    match game.status {
        GameStatus::Finished { winner } => {
            assert_eq!(winner, PlayerId::new(0));
        }
        other => panic!("Game should be finished with a winner. Found: {:?}", other),
    }
}

#[test]
fn test_load_yen_single_full() {
    let yen = yen_of(1, "B");
    let game = GameY::try_from(yen).unwrap();
    match game.status {
        GameStatus::Finished { winner } => {
            assert_eq!(winner, PlayerId::new(0));
        }
        other => panic!("Game should be finished with a winner. Found {:?}", other),
    }
}

#[test]
fn test_load_yen_single_empty() {
    let yen = yen_of(1, ".");
    let game = GameY::try_from(yen).unwrap();
    match game.status {
        GameStatus::Ongoing { next_player } => {
            assert_eq!(next_player, PlayerId::new(0));
        }
        _ => panic!("Game should be ongoing"),
    }
}

#[test]
fn winner_only_after_fifth_move() {
    let mut game = GameY::new(3);
    let moves = vec![
        place(0, 0, 2, 0),
        place(1, 2, 0, 0),
        place(0, 0, 1, 1),
        place(1, 1, 1, 0),
        place(0, 0, 0, 2),
    ];
    for (i, mv) in moves.into_iter().enumerate() {
        assert!(!game.check_game_over(), "finished before move {}", i);
        game.add_move(mv).unwrap();
    }
    assert_eq!(
        *game.status(),
        GameStatus::Finished {
            winner: PlayerId::new(0)
        }
    );
    assert_eq!(game.next_player(), None);
    assert_eq!(game.history().len(), 5);
}

#[test]
fn single_cell_board_is_won_at_once() {
    let mut game = GameY::new(1);
    game.add_move(place(0, 0, 0, 0)).unwrap();
    assert_eq!(
        *game.status(),
        GameStatus::Finished {
            winner: PlayerId::new(0)
        }
    );
}

#[test]
fn turn_passes_to_the_other_player() {
    let mut game = GameY::new(4);
    game.add_move(place(0, 3, 0, 0)).unwrap();
    assert_eq!(game.next_player(), Some(PlayerId::new(1)));
    game.add_move(place(1, 0, 3, 0)).unwrap();
    assert_eq!(game.next_player(), Some(PlayerId::new(0)));
}

#[test]
fn occupied_placement_is_refused_and_changes_nothing() {
    let mut game = GameY::new(3);
    game.add_move(place(0, 1, 1, 0)).unwrap();
    let before_status = *game.status();
    let before_cells = game.available_cells().clone();
    let err = game.add_move(place(1, 1, 1, 0)).err().unwrap();
    assert_eq!(
        err,
        GameYError::Occupied {
            coordinates: Coordinates::new(1, 1, 0),
            player: PlayerId::new(1)
        }
    );
    assert_eq!(*game.status(), before_status);
    assert_eq!(*game.available_cells(), before_cells);
    assert_eq!(game.history().len(), 1);
    let again = game.add_move(place(1, 1, 1, 0)).err().unwrap();
    assert_eq!(again, err);
    assert_eq!(game.history().len(), 1);
}

#[test]
fn off_board_coordinates_are_refused() {
    let mut game = GameY::new(3);
    let err = game.add_move(place(0, 3, 0, 0)).err().unwrap();
    assert_eq!(
        err,
        GameYError::OutOfBounds {
            coordinates: Coordinates::new(3, 0, 0)
        }
    );
    assert_eq!(game.available_cells().len(), 6);
}

#[test]
fn available_cells_track_free_cells() {
    let mut game = GameY::new(3);
    assert_eq!(*game.available_cells(), vec![0, 1, 2, 3, 4, 5]);
    game.add_move(place(0, 1, 0, 1)).unwrap();
    assert_eq!(*game.available_cells(), vec![0, 2, 3, 4, 5]);
    game.add_move(place(1, 0, 0, 2)).unwrap();
    assert_eq!(*game.available_cells(), vec![0, 2, 4, 5]);
}

#[test]
fn total_cells_is_triangular() {
    for size in 1..=12u32 {
        let game = GameY::new(size);
        assert_eq!(game.total_cells(), size * (size + 1) / 2);
        assert_eq!(game.available_cells().len() as u32, size * (size + 1) / 2);
    }
    assert_eq!(GameY::new(7).total_cells(), 28);
}

#[test]
fn wrong_turn_is_reported() {
    let game = GameY::new(3);
    let mv = place(1, 2, 0, 0);
    assert_eq!(
        game.check_player_turn(&mv),
        Err(GameYError::InvalidPlayerTurn {
            expected: PlayerId::new(0),
            found: PlayerId::new(1)
        })
    );
    assert_eq!(game.check_player_turn(&place(0, 2, 0, 0)), Ok(()));
}

#[test]
fn turn_check_is_off_once_finished() {
    let mut game = GameY::new(1);
    game.add_move(place(0, 0, 0, 0)).unwrap();
    assert_eq!(game.check_player_turn(&place(1, 0, 0, 0)), Ok(()));
}

#[test]
fn resign_and_swap() {
    let mut game = GameY::new(3);
    game.add_move(Movement::Action {
        player: PlayerId::new(0),
        action: GameAction::Swap,
    })
    .unwrap();
    assert_eq!(game.next_player(), Some(PlayerId::new(1)));
    game.add_move(Movement::Action {
        player: PlayerId::new(1),
        action: GameAction::Resign,
    })
    .unwrap();
    assert_eq!(
        *game.status(),
        GameStatus::Finished {
            winner: PlayerId::new(0)
        }
    );
    assert_eq!(game.available_cells().len(), 6);
    assert_eq!(game.history().len(), 2);
}

#[test]
fn encoding_layout_and_turn() {
    let mut game = GameY::new(3);
    game.add_move(place(0, 0, 2, 0)).unwrap();
    game.add_move(place(1, 2, 0, 0)).unwrap();
    game.add_move(place(0, 0, 1, 1)).unwrap();
    let yen = game.to_yen();
    assert_eq!(yen.layout(), "R/../.BB");
    assert_eq!(yen.size(), 3);
    assert_eq!(yen.turn(), 1);
    assert_eq!(*yen.players(), vec!['B', 'R']);
}

#[test]
fn encoding_a_finished_game_gives_the_loser_the_turn() {
    let mut game = GameY::new(1);
    game.add_move(place(0, 0, 0, 0)).unwrap();
    let yen = game.to_yen();
    assert_eq!(yen.layout(), "B");
    assert_eq!(yen.turn(), 1);
}

#[test]
fn exchange_round_trip_keeps_the_layout() {
    let mut game = GameY::new(5);
    let moves = vec![
        place(0, 2, 1, 1),
        place(1, 4, 0, 0),
        place(0, 0, 2, 2),
        place(1, 1, 3, 0),
        place(0, 3, 0, 1),
    ];
    for mv in moves {
        game.add_move(mv).unwrap();
    }
    let yen = game.to_yen();
    let loaded = GameY::try_from(yen.clone()).unwrap();
    assert_eq!(loaded.to_yen().layout(), yen.layout());
    assert_eq!(loaded.available_cells(), game.available_cells());
}

#[test]
fn decoding_rejects_wrong_row_count() {
    let err = GameY::try_from(yen_of(3, "B/BB")).err().unwrap();
    assert_eq!(
        err,
        GameYError::InvalidYENLayout {
            expected: 3,
            found: 2
        }
    );
}

#[test]
fn decoding_rejects_wrong_row_length() {
    let err = GameY::try_from(yen_of(3, "B/B/BBR")).err().unwrap();
    assert_eq!(
        err,
        GameYError::InvalidYENLayoutLine {
            expected: 2,
            found: 1,
            line: 1
        }
    );
}

#[test]
fn decoding_rejects_unknown_symbols() {
    let err = GameY::try_from(yen_of(3, "./.X/...")).err().unwrap();
    assert_eq!(
        err,
        GameYError::InvalidCharInLayout {
            char: 'X',
            row: 1,
            col: 1
        }
    );
}

#[test]
fn decoding_reports_the_first_fault() {
    let err = GameY::try_from(yen_of(3, "Z/B/...")).err().unwrap();
    assert_eq!(
        err,
        GameYError::InvalidCharInLayout {
            char: 'Z',
            row: 0,
            col: 0
        }
    );
}

#[test]
fn decoding_places_both_players() {
    let game = GameY::try_from(yen_of(3, "R/B./..B")).unwrap();
    assert_eq!(*game.available_cells(), vec![2, 3, 4]);
    assert_eq!(game.next_player(), Some(PlayerId::new(1)));
}

#[test]
fn random_draw_picks_a_free_cell() {
    let mut game = GameY::new(2);
    assert_eq!(game.available_cell_for(4), Some(Coordinates::new(0, 0, 1)));
    game.add_move(place(0, 0, 0, 1)).unwrap();
    assert_eq!(game.available_cell_for(1), Some(Coordinates::new(0, 1, 0)));
    game.add_move(place(1, 1, 0, 0)).unwrap();
    game.add_move(place(0, 0, 1, 0)).unwrap();
    assert_eq!(game.available_cell_for(7), None);
}

#[test]
fn finished_game_stays_finished_after_actions() {
    let mut game = GameY::new(1);
    game.add_move(place(0, 0, 0, 0)).unwrap();
    let won = GameStatus::Finished {
        winner: PlayerId::new(0),
    };
    game.add_move(Movement::Action {
        player: PlayerId::new(0),
        action: GameAction::Swap,
    })
    .unwrap();
    assert_eq!(*game.status(), won);
    game.add_move(Movement::Action {
        player: PlayerId::new(0),
        action: GameAction::Resign,
    })
    .unwrap();
    assert_eq!(*game.status(), won);
    assert_eq!(game.history().len(), 3);
}

#[test]
fn decoding_uses_the_record_tags() {
    let yen = YEN::new(2, 0, vec!['X', 'O'], "O/X.".to_string());
    let game = GameY::try_from(yen).unwrap();
    assert_eq!(*game.available_cells(), vec![2]);
    assert_eq!(game.to_yen().layout(), "R/B.");
}

#[test]
fn decoding_rejects_symbols_of_other_tags() {
    let yen = YEN::new(1, 0, vec!['X', 'O'], "B".to_string());
    let err = GameY::try_from(yen).err().unwrap();
    assert_eq!(
        err,
        GameYError::InvalidCharInLayout {
            char: 'B',
            row: 0,
            col: 0
        }
    );
}

#[test]
fn decoding_rejects_bad_player_lists() {
    for players in [vec!['B'], vec!['B', 'B'], vec!['B', '.'], vec!['/', 'R'], vec!['B', 'R', 'G']] {
        let yen = YEN::new(1, 0, players, ".".to_string());
        assert_eq!(
            GameY::try_from(yen).err().unwrap(),
            GameYError::InvalidYENPlayers
        );
    }
}

#[test]
fn placement_keeps_free_cells_in_order() {
    let mut game = GameY::new(4);
    game.add_move(place(0, 1, 1, 1)).unwrap();
    game.add_move(place(1, 3, 0, 0)).unwrap();
    game.add_move(place(0, 0, 3, 0)).unwrap();
    assert_eq!(*game.available_cells(), vec![1, 2, 3, 5, 6, 7, 8]);
    let loaded = GameY::try_from(game.to_yen()).unwrap();
    assert_eq!(loaded.available_cells(), game.available_cells());
}
