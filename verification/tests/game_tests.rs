use std::time::SystemTime;
use tombola::game::{Game, GameEntry, GameRegistry, GameStatus};

#[test]
fn test_game_creation() {
    let game = Game::new();

    // Verify all components are properly initialized
    assert_eq!(game.board_length(), 0);
    assert_eq!(game.published_score(), 0);
    assert_eq!(game.pouch_length(), 90); // Should start with full pouch
    assert!(!game.has_game_started());
    assert!(!game.is_bingo_reached());
    assert!(!game.is_pouch_empty());

    // Verify new fields are set
    assert!(!game.id().is_empty());
    assert!(game.id().starts_with("game_"));
    assert_eq!(game.id().len(), 13); // "game_" + 8 hex chars

    // Verify creation time is recent (within last second)
    let now = SystemTime::now();
    let creation_time = game.created_at();
    let time_diff = now.duration_since(creation_time).unwrap_or_default();
    assert!(time_diff.as_secs() < 2); // Should be created within last 2 seconds

    // Verify the human-readable time string format
    let time_string = game.created_at_string();
    assert!(time_string.contains("UTC"));
    assert!(time_string.len() > 10); // Should be a reasonable length
}

#[test]
fn test_game_state_queries() {
    let game = Game::new();

    // Test initial state
    assert_eq!(game.board_length(), 0);
    assert_eq!(game.published_score(), 0);
    assert!(!game.has_game_started());
    assert!(!game.is_bingo_reached());
}

#[test]
fn test_unique_game_ids() {
    let game1 = Game::new();
    let game2 = Game::new();

    // Verify each game gets a unique ID
    assert_ne!(game1.id(), game2.id());

    // Verify both IDs follow the expected format
    assert!(game1.id().starts_with("game_"));
    assert!(game2.id().starts_with("game_"));
    assert_eq!(game1.id().len(), 13);
    assert_eq!(game2.id().len(), 13);
}

#[test]
fn test_game_info() {
    let game = Game::new();
    let info = game.game_info();

    // Verify the info string contains expected components
    assert!(info.contains("Game[id="));
    assert!(info.contains("created="));
    assert!(info.contains("board_len=0"));
    assert!(info.contains("pouch_len=90"));
    assert!(info.contains("score=0"));
    assert!(info.contains("started=false"));
    assert!(info.contains(&game.id()));
}

#[test]
fn test_game_state_serialization() {
    let game = Game::new();

    // Test creating serializable state
    let serializable_state = game.create_serializable_state();
    assert!(serializable_state.is_ok());

    let state = serializable_state.unwrap();
    assert_eq!(state.id, game.id());
    assert_eq!(state.board.len(), 0);
    assert_eq!(state.pouch.len(), 90);
}

#[test]
fn test_game_ending_conditions() {
    let game = Game::new();

    // Initially, game hasn't ended
    assert!(!game.is_game_ended());
    assert!(!game.is_bingo_reached());
    assert!(!game.is_pouch_empty());

    // Test dump_if_ended for a non-ended game
    let dump_result = game.dump_if_ended();
    assert!(dump_result.is_err());
    assert!(dump_result.unwrap_err().contains("Game has not ended yet"));
}

#[test]
fn test_selective_dump_logic() {
    let game = Game::new();

    // Scenario 1: Game not started - should not dump
    assert!(!game.has_game_started());
    assert!(!game.is_bingo_reached());

    // For now, just verify the boolean logic conditions are accessible
    assert!(!game.has_game_started());
    assert!(!game.is_bingo_reached());
    assert!(!game.is_game_ended());
}

#[test]
fn test_running_game_info() {
    let game = Game::new();

    // Test get_running_game_info method
    let (game_id, created_at_string, created_at_systemtime) = game.get_running_game_info();

    // Verify the returned values
    assert!(!game_id.is_empty());
    assert!(game_id.starts_with("game_"));
    assert_eq!(game_id.len(), 13); // "game_" + 8 hex chars
    assert_eq!(game_id, game.id());

    // Verify creation time consistency
    assert!(!created_at_string.is_empty());
    assert!(created_at_string.contains("UTC"));
    assert_eq!(created_at_string, game.created_at_string());
    assert_eq!(created_at_systemtime, game.created_at());

    // Verify the SystemTime is recent (within last few seconds)
    let now = SystemTime::now();
    let time_diff = now.duration_since(created_at_systemtime).unwrap_or_default();
    assert!(time_diff.as_secs() < 5); // Should be created within last 5 seconds
}

#[test]
fn test_game_registry_creation() {
    let mut registry = GameRegistry::new();

    // Test initial state
    assert_eq!(registry.total_games().unwrap(), 0);

    let games_list = registry.games_list().unwrap();
    assert!(games_list.is_empty());

    let status_summary = registry.status_summary().unwrap();
    assert_eq!(status_summary, (0, 0, 0)); // (new, active, closed)
}

#[test]
fn test_game_registry_add_game() {
    let mut registry = GameRegistry::new();
    let game1 = Game::new();
    let game2 = Game::new();

    // Add first game
    let game1_id = registry.add_game(game1.clone()).unwrap();
    assert_eq!(game1_id, game1.id());
    assert_eq!(registry.total_games().unwrap(), 1);

    // Add second game
    let game2_id = registry.add_game(game2.clone()).unwrap();
    assert_eq!(game2_id, game2.id());
    assert_eq!(registry.total_games().unwrap(), 2);

    // Try to add the same game again (should fail)
    let duplicate_result = registry.add_game(game1.clone());
    assert!(duplicate_result.is_err());
    assert!(duplicate_result.unwrap_err().contains("already exists"));
    assert_eq!(registry.total_games().unwrap(), 2); // Count shouldn't change
}

#[test]
fn test_game_registry_games_list() {
    let mut registry = GameRegistry::new();
    let game1 = Game::new();
    let game2 = Game::new();

    // Add games
    registry.add_game(game1.clone()).unwrap();
    registry.add_game(game2.clone()).unwrap();

    // Get games list
    let games_list = registry.games_list().unwrap();
    assert_eq!(games_list.len(), 2);

    // Check that both games are present with New status
    let game_ids: Vec<String> = games_list.iter().map(|(id, _, _)| id.clone()).collect();
    assert!(game_ids.contains(&game1.id()));
    assert!(game_ids.contains(&game2.id()));

    // All games should have New status initially
    for (_, status, _) in &games_list {
        assert_eq!(*status, GameStatus::New);
    }
}

#[test]
fn test_game_registry_get_game() {
    let mut registry = GameRegistry::new();
    let game = Game::new();
    let game_id = game.id();

    // Get non-existent game
    let result = registry.get_game("non_existent_id").unwrap();
    assert!(result.is_none());

    // Add game and retrieve it
    registry.add_game(game.clone()).unwrap();
    let retrieved_game = registry.get_game(&game_id).unwrap();
    assert!(retrieved_game.is_some());

    let retrieved = retrieved_game.unwrap();
    assert_eq!(retrieved.id(), game_id);
}

#[test]
fn test_game_registry_remove_game() {
    let mut registry = GameRegistry::new();
    let game = Game::new();
    let game_id = game.id();

    // Try to remove non-existent game
    let removed = registry.remove_game("non_existent_id").unwrap();
    assert!(!removed);

    // Add game and remove it
    registry.add_game(game.clone()).unwrap();
    assert_eq!(registry.total_games().unwrap(), 1);

    let removed = registry.remove_game(&game_id).unwrap();
    assert!(removed);
    assert_eq!(registry.total_games().unwrap(), 0);

    // Try to remove again (should return false)
    let removed_again = registry.remove_game(&game_id).unwrap();
    assert!(!removed_again);
}

#[test]
fn test_game_registry_games_by_status() {
    let mut registry = GameRegistry::new();
    let game1 = Game::new();
    let game2 = Game::new();

    registry.add_game(game1.clone()).unwrap();
    registry.add_game(game2.clone()).unwrap();

    // Initially all games should be New
    let new_games = registry.games_by_status(GameStatus::New).unwrap();
    assert_eq!(new_games.len(), 2);
    assert!(new_games.contains(&game1.id()));
    assert!(new_games.contains(&game2.id()));

    let active_games = registry.games_by_status(GameStatus::Active).unwrap();
    assert!(active_games.is_empty());

    let closed_games = registry.games_by_status(GameStatus::Closed).unwrap();
    assert!(closed_games.is_empty());
}

#[test]
fn test_game_registry_status_summary() {
    let mut registry = GameRegistry::new();
    let game1 = Game::new();
    let game2 = Game::new();

    // Empty registry
    let summary = registry.status_summary().unwrap();
    assert_eq!(summary, (0, 0, 0));

    // Add games
    registry.add_game(game1.clone()).unwrap();
    registry.add_game(game2.clone()).unwrap();

    // All should be New
    let summary = registry.status_summary().unwrap();
    assert_eq!(summary, (2, 0, 0)); // (new, active, closed)
}

#[test]
fn test_game_registry_clear() {
    let mut registry = GameRegistry::new();
    let game1 = Game::new();
    let game2 = Game::new();

    registry.add_game(game1.clone()).unwrap();
    registry.add_game(game2.clone()).unwrap();
    assert_eq!(registry.total_games().unwrap(), 2);

    // Clear all games
    let cleared_count = registry.clear().unwrap();
    assert_eq!(cleared_count, 2);
    assert_eq!(registry.total_games().unwrap(), 0);

    // Clear empty registry
    let cleared_count_empty = registry.clear().unwrap();
    assert_eq!(cleared_count_empty, 0);
}

#[test]
fn test_game_entry() {
    let game = Game::new();
    let game_id = game.id();
    let mut entry = GameEntry::new(game_id.clone(), game.clone());

    // Test initial values
    assert_eq!(entry.game_id, game_id);
    assert_eq!(entry.game.id(), game_id);
    assert_eq!(entry.status(), GameStatus::New);
    assert!(entry.closed_at.is_none());
    assert!(!entry.is_closed());

    // Test info string
    let info = entry.info();
    assert!(info.contains(&game_id));
    assert!(info.contains("New"));
    assert!(info.contains("board_len=0"));
    assert!(info.contains("score=0"));
    assert!(!info.contains("closed_at=")); // Should not have closed_at info for new game

    // Test registered_at_string
    let reg_time = entry.registered_at_string();
    assert!(reg_time.contains("UTC"));
    assert!(!reg_time.is_empty());

    // Test closed_at_string when None
    assert!(entry.closed_at_string().is_none());

    // Test status_with_update for a new game
    let status = entry.status_with_update();
    assert_eq!(status, GameStatus::New);
    assert!(entry.closed_at.is_none()); // Should still be None for non-closed game
}

#[test]
fn test_game_status_conversions() {
    assert_eq!(GameStatus::New.as_str(), "New");
    assert_eq!(GameStatus::Active.as_str(), "Active");
    assert_eq!(GameStatus::Closed.as_str(), "Closed");

    // Test PartialEq
    assert_eq!(GameStatus::New, GameStatus::New);
    assert_ne!(GameStatus::New, GameStatus::Active);
    assert_ne!(GameStatus::Active, GameStatus::Closed);
}

#[test]
fn test_game_entry_closed_at() {
    let game = Game::new();
    let game_id = game.id();
    let mut entry = GameEntry::new(game_id.clone(), game.clone());

    // Initially closed_at should be None
    assert!(entry.closed_at.is_none());
    assert!(entry.closed_at_string().is_none());
    assert!(!entry.is_closed());

    // Simulate game reaching BINGO by manually setting the scorecard
    {
        let scorecard = entry.game.scorecard_mut();
        scorecard.published_score = 15; // BINGO reached
    }

    // Now the game should be closed
    assert!(entry.is_closed());
    assert_eq!(entry.status(), GameStatus::Closed);

    // But closed_at should still be None until we call status_with_update
    assert!(entry.closed_at.is_none());

    // Call status_with_update to set the closed_at timestamp
    let status = entry.status_with_update();
    assert_eq!(status, GameStatus::Closed);
    assert!(entry.closed_at.is_some());

    // Test that closed_at_string returns a valid time string
    let closed_time_str = entry.closed_at_string();
    assert!(closed_time_str.is_some());
    let time_str = closed_time_str.unwrap();
    assert!(time_str.contains("UTC"));
    assert!(!time_str.is_empty());

    // Test that info now includes closed_at
    let info = entry.info();
    assert!(info.contains("Closed"));
    assert!(info.contains("closed_at="));

    // Test that update_closed_at doesn't change the timestamp once set
    let original_closed_at = entry.closed_at;
    entry.update_closed_at();
    assert_eq!(entry.closed_at, original_closed_at);
}

#[test]
fn game_lifecycle_through_the_registry() {
    let mut registry = GameRegistry::new();
    let game = Game::new();
    let game_id = registry.add_game(game).unwrap();

    assert_eq!(registry.status_summary().unwrap(), (1, 0, 0));
    let g = registry.get_game_mut(&game_id).unwrap();
    g.add_client("0000000000000000".to_string()).unwrap();
    g.assign_client_cards("0000000000000000", 1, Some("board"));
    let mut extractions = 0;
    let mut last_score = 0;
    while !g.is_bingo_reached() {
        let (n, _) = g.extract_number(0, None).unwrap();
        assert!((1..=90).contains(&n));
        extractions += 1;
        assert!(g.published_score() >= last_score, "the published score never decreases");
        last_score = g.published_score();
        if extractions == 5 {
            assert_eq!(g.status(), GameStatus::Active);
        }
        assert_eq!(g.board_length() + g.pouch_length(), 90);
    }
    assert!(g.is_game_ended());
    assert_eq!(g.status(), GameStatus::Closed);
    let snapshot = g.dump_if_ended().unwrap();
    assert_eq!(snapshot.id, game_id);
    assert_eq!(snapshot.board.len(), extractions);
    assert_eq!(g.dump_file_path(), format!("data/games/{}.json", game_id));

    let rows = registry.games_list().unwrap();
    assert_eq!(rows.len(), 1);
    assert_eq!(rows[0].1, GameStatus::Closed);
    assert!(rows[0].2.contains("closed_at="));
    assert!(rows[0].2.contains("UTC"));
    assert_eq!(registry.status_summary().unwrap(), (0, 0, 1));
    assert_eq!(registry.games_by_status(GameStatus::Closed).unwrap(), vec![game_id.clone()]);
}

#[test]
fn registry_lists_games_in_id_order() {
    let mut registry = GameRegistry::new();
    for _ in 0..5 {
        registry.add_game(Game::new()).unwrap();
    }
    let rows = registry.games_list().unwrap();
    let ids: Vec<String> = rows.iter().map(|r| r.0.clone()).collect();
    let mut sorted = ids.clone();
    sorted.sort();
    assert_eq!(ids, sorted);
    let new_ids = registry.games_by_status(GameStatus::New).unwrap();
    assert_eq!(new_ids, sorted);
}

#[test]
fn join_refused_after_first_extraction() {
    let mut game = Game::new();
    assert_eq!(game.add_client("a".to_string()), Ok(true));
    assert_eq!(game.add_client("a".to_string()), Ok(false));
    game.extract_number(0, None).unwrap();
    assert_eq!(
        game.add_client("b".to_string()),
        Err("Cannot register new clients after numbers have been extracted".to_string())
    );
    assert_eq!(game.player_count(), 1);
}

#[test]
fn test_game_lifecycle_end_to_end() {
    // Phase 1: a new game, registered.
    let mut registry = GameRegistry::new();
    let game = Game::new();
    let game_id = game.id();
    assert!(!game.has_game_started());
    assert!(!game.is_bingo_reached());
    assert!(!game.is_game_ended());
    assert_eq!(game.board_length(), 0);
    assert_eq!(game.published_score(), 0);
    assert_eq!(game.pouch_length(), 90);
    let registered_id = registry.add_game(game).unwrap();
    assert_eq!(registered_id, game_id);

    // Phase 2: the registry sees a new game.
    assert_eq!(registry.total_games().unwrap(), 1);
    assert_eq!(registry.status_summary().unwrap(), (1, 0, 0));
    let games_list = registry.games_list().unwrap();
    assert_eq!(games_list.len(), 1);
    let (list_game_id, status, info) = &games_list[0];
    assert_eq!(*list_game_id, game_id);
    assert_eq!(*status, GameStatus::New);
    assert!(info.contains("New"));
    assert!(info.contains("board_len=0"));
    assert!(info.contains("score=0"));
    assert!(!info.contains("closed_at="));
    let new_games = registry.games_by_status(GameStatus::New).unwrap();
    assert_eq!(new_games.len(), 1);
    assert!(new_games.contains(&game_id));
    assert!(registry.games_by_status(GameStatus::Active).unwrap().is_empty());
    assert!(registry.games_by_status(GameStatus::Closed).unwrap().is_empty());

    // Phase 3: five extractions make the game active.
    for i in 1..=5 {
        let game = registry.get_game_mut(&game_id).unwrap();
        let current_score = game.published_score();
        let extraction_result = game.extract_number(current_score, None);
        assert!(extraction_result.is_ok(), "Failed to extract number {i}: {extraction_result:?}");
        let (extracted_number, new_score) = extraction_result.unwrap();
        assert!((1..=90).contains(&extracted_number));
        assert!(new_score >= current_score);
        assert_eq!(game.board_length(), i as usize);
        assert_eq!(game.published_score(), new_score);
        assert_eq!(game.pouch_length(), 90 - i as usize);
    }
    {
        let game = registry.get_game(&game_id).unwrap().unwrap();
        assert!(game.has_game_started());
        assert!(!game.is_bingo_reached());
        assert!(!game.is_game_ended());
    }

    // Phase 4: the registry sees an active game.
    let active_score = registry.get_game(&game_id).unwrap().unwrap().published_score();
    assert_eq!(registry.status_summary().unwrap(), (0, 1, 0));
    let games_list = registry.games_list().unwrap();
    assert_eq!(games_list.len(), 1);
    let (list_game_id, status, info) = &games_list[0];
    assert_eq!(*list_game_id, game_id);
    assert_eq!(*status, GameStatus::Active);
    assert!(info.contains("Active"));
    assert!(info.contains("board_len=5"));
    assert!(info.contains(&format!("score={active_score}")));
    assert!(!info.contains("closed_at="));
    assert!(registry.games_by_status(GameStatus::New).unwrap().is_empty());
    let active_games = registry.games_by_status(GameStatus::Active).unwrap();
    assert_eq!(active_games.len(), 1);
    assert!(active_games.contains(&game_id));
    assert!(registry.games_by_status(GameStatus::Closed).unwrap().is_empty());

    // Phase 5: extractions until BINGO.
    let mut extractions = 5;
    {
        let game = registry.get_game_mut(&game_id).unwrap();
        while !game.is_bingo_reached() && extractions < 90 {
            let current_score = game.published_score();
            let extraction_result = game.extract_number(current_score, None);
            if extraction_result.is_err() {
                break;
            }
            let (extracted_number, new_score) = extraction_result.unwrap();
            extractions += 1;
            assert!((1..=90).contains(&extracted_number));
            assert!(new_score >= current_score);
        }
        assert!(game.is_bingo_reached(), "BINGO should have been reached");
        assert!(game.published_score() >= 15, "Score should be >= 15 for BINGO");
        assert!(game.is_game_ended(), "Game should be ended when BINGO is reached");
        assert!(game.has_game_started(), "Game should still show as started");
    }

    // Phase 6: the registry sees a closed game, with its closing time.
    assert_eq!(registry.status_summary().unwrap(), (0, 0, 1));
    let final_score = registry.get_game(&game_id).unwrap().unwrap().published_score();
    let games_list = registry.games_list().unwrap();
    assert_eq!(games_list.len(), 1);
    let (list_game_id, status, info) = &games_list[0];
    assert_eq!(*list_game_id, game_id);
    assert_eq!(*status, GameStatus::Closed);
    assert!(info.contains("Closed"));
    assert!(info.contains(&format!("board_len={extractions}")));
    assert!(info.contains(&format!("score={final_score}")));
    assert!(info.contains("closed_at="));
    assert!(registry.games_by_status(GameStatus::New).unwrap().is_empty());
    assert!(registry.games_by_status(GameStatus::Active).unwrap().is_empty());
    let closed_games = registry.games_by_status(GameStatus::Closed).unwrap();
    assert_eq!(closed_games.len(), 1);
    assert!(closed_games.contains(&game_id));

    // Phase 7: the closing time is a UTC date.
    assert!(registry.get_game(&game_id).unwrap().is_some());
    let final_games_list = registry.games_list().unwrap();
    let (_, _, final_info) = &final_games_list[0];
    assert!(final_info.contains("closed_at="));
    let closed_at_part = final_info.split("closed_at=").nth(1).unwrap();
    let closed_at_time = closed_at_part.split(']').next().unwrap();
    assert!(closed_at_time.contains("UTC"));
    assert!(closed_at_time.len() > 10);

    // Phase 8: the ended game can be dumped, to a file named by its id.
    let game = registry.get_game(&game_id).unwrap().unwrap();
    let dump_result = game.dump_if_ended();
    assert!(dump_result.is_ok(), "Should be able to dump ended game");
    let snapshot = dump_result.unwrap();
    assert_eq!(snapshot.id, game_id);
    let dump_path = game.dump_file_path();
    assert!(dump_path.contains(&game_id));
    assert!(dump_path.contains(".json"));

    // Phase 9: final state.
    assert_eq!(registry.total_games().unwrap(), 1);
    let game = registry.get_game(&game_id).unwrap().unwrap();
    assert!(game.is_game_ended());
    assert!(game.is_bingo_reached());
    assert!(game.published_score() >= 15);
    assert_eq!(game.board_length(), extractions as usize);
    assert_eq!(game.pouch_length(), 90 - extractions as usize);
}

#[test]
fn snapshot_keeps_scores_marks_and_cards() {
    let mut game = Game::new();
    game.add_client("ABCDEF0123456789".to_string()).unwrap();
    let (infos, ids) = game.assign_client_cards("ABCDEF0123456789", 3, None);
    for _ in 0..10 {
        game.extract_number(game.published_score(), None).unwrap();
    }
    let st = game.create_serializable_state().unwrap();
    assert_eq!(st.id, game.id());
    assert_eq!(st.created_at, game.created_at());
    assert_eq!(st.board.get_numbers(), game.board().get_numbers());
    assert_eq!(st.board.get_marked_numbers(), game.board().get_marked_numbers());
    assert_eq!(st.scorecard.published_score, game.published_score());
    assert_eq!(st.scorecard.get_scoremap().len(), game.scorecard().get_scoremap().len());
    assert_eq!(st.card_manager.get_client_cards("ABCDEF0123456789"), Some(&ids));
    for (info, id) in infos.iter().zip(ids.iter()) {
        let a = st.card_manager.get_card_assignment(id).unwrap();
        assert_eq!(a.client_id, "ABCDEF0123456789");
        assert_eq!(a.card_data, info.card_data);
    }
}
