use tombola::api::{
    handle_board, handle_dumpgame, handle_extract, handle_generatecards, handle_getassignedcard,
    handle_global_clientinfo, handle_global_clientinfo_by_id, handle_global_gameslist, handle_global_newgame,
    handle_global_register, handle_join, handle_listassignedcards, handle_players, handle_pouch, handle_scoremap,
    handle_status, ApiError, AppState, ClientHeader, ClientNameQuery,
};
use tombola::card::GenerateCardsRequest;
use tombola::client::RegisterRequest;
use tombola::config::ServerConfig;

fn create_test_app_state() -> AppState {
    AppState::new(ServerConfig::default())
}

fn request(name: &str, client_type: &str, nocard: Option<u32>, email: Option<&str>) -> RegisterRequest {
    RegisterRequest {
        name: name.to_string(),
        client_type: client_type.to_string(),
        nocard,
        email: email.map(|e| e.to_string()),
    }
}

fn id_header(id: &str) -> ClientHeader {
    ClientHeader::Id(id.to_string())
}

/// Registers a board client and has it create a game: (game id, board client id).
fn create_test_game_with_board_client(state: &mut AppState) -> (String, String) {
    let reg = handle_global_register(state, &request("TestBoard", "board", Some(0), None)).unwrap();
    let board_client_id = reg.client_id.clone();
    let game = handle_global_newgame(state, &id_header(&board_client_id)).unwrap();
    (game.game_id, board_client_id)
}

fn create_test_game(state: &mut AppState) -> String {
    create_test_game_with_board_client(state).0
}

#[test]
fn test_handle_register_new_client() {
    let mut app_state = create_test_app_state();
    let game_id = create_test_game(&mut app_state);
    let response = handle_join(&mut app_state, &game_id, &request("test_player", "player", Some(2), None)).unwrap();
    assert_eq!(response.message, format!("Client 'test_player' registered successfully in game '{game_id}'"));
    assert!(!response.client_id.is_empty());
}

#[test]
fn test_handle_register_existing_client() {
    let mut app_state = create_test_app_state();
    let game_id = create_test_game(&mut app_state);
    let req = request("existing_player", "player", Some(1), None);
    let first_response = handle_join(&mut app_state, &game_id, &req).unwrap();
    let second_response = handle_join(&mut app_state, &game_id, &req).unwrap();
    assert_eq!(first_response.client_id, second_response.client_id);
    assert_eq!(second_response.message, format!("Client 'existing_player' already registered in game '{game_id}'"));
}

#[test]
fn test_handle_register_after_game_started() {
    let mut app_state = create_test_app_state();
    let (game_id, board_client_id) = create_test_game_with_board_client(&mut app_state);
    handle_extract(&mut app_state, &game_id, &id_header(&board_client_id)).unwrap();
    let error = handle_join(&mut app_state, &game_id, &request("late_player", "player", Some(1), None)).unwrap_err();
    assert_eq!(error.status, 409);
    assert!(error.message.contains("Cannot register new clients after numbers have been extracted"));
}

#[test]
fn test_handle_client_info_nonexistent() {
    let app_state = create_test_app_state();
    let error = handle_global_clientinfo(&app_state, &ClientNameQuery { name: Some("nonexistent_player".to_string()) })
        .unwrap_err();
    assert_eq!(error.status, 404);
    assert_eq!(error.message, "Client 'nonexistent_player' not found");
}

#[test]
fn test_handle_client_info_by_id_board_client() {
    let app_state = create_test_app_state();
    let info = handle_global_clientinfo_by_id(&app_state, "0000000000000000").unwrap();
    assert_eq!(info.client_id, "0000000000000000");
    assert_eq!(info.name, "Board");
    assert_eq!(info.client_type, "board");
    assert_eq!(info.registered_at, "System");
}

#[test]
fn test_handle_client_info_by_id_nonexistent() {
    let app_state = create_test_app_state();
    let error = handle_global_clientinfo_by_id(&app_state, "invalid_client_id").unwrap_err();
    assert_eq!(error.status, 404);
    assert_eq!(error.message, "Client with ID 'invalid_client_id' not found");
}

#[test]
fn test_handle_generate_cards_success() {
    let mut app_state = create_test_app_state();
    let game_id = create_test_game(&mut app_state);
    let joined = handle_join(&mut app_state, &game_id, &request("cards_test_player", "player", Some(0), None)).unwrap();
    let response =
        handle_generatecards(&mut app_state, &game_id, &id_header(&joined.client_id), &GenerateCardsRequest { count: 3 })
            .unwrap();
    assert_eq!(response.cards.len(), 3);
    assert_eq!(response.message, "Generated 3 cards successfully");
    let again =
        handle_generatecards(&mut app_state, &game_id, &id_header(&joined.client_id), &GenerateCardsRequest { count: 1 })
            .unwrap_err();
    assert_eq!(again.status, 409);
}

#[test]
fn test_handle_generate_cards_missing_client_id() {
    let mut app_state = create_test_app_state();
    let game_id = create_test_game(&mut app_state);
    let error =
        handle_generatecards(&mut app_state, &game_id, &ClientHeader::Missing, &GenerateCardsRequest { count: 1 })
            .unwrap_err();
    assert_eq!(error.status, 400);
    assert_eq!(error.message, "Client ID header (X-Client-ID) is required");
}

#[test]
fn test_handle_generate_cards_unregistered_client() {
    let mut app_state = create_test_app_state();
    let game_id = create_test_game(&mut app_state);
    let error = handle_generatecards(
        &mut app_state,
        &game_id,
        &id_header("invalid_client_id"),
        &GenerateCardsRequest { count: 1 },
    )
    .unwrap_err();
    assert_eq!(error.status, 401);
    assert_eq!(error.message, "Client not registered");
}

#[test]
fn test_handle_get_assigned_card_success_and_not_found() {
    let mut app_state = create_test_app_state();
    let game_id = create_test_game(&mut app_state);
    let joined = handle_join(&mut app_state, &game_id, &request("get_card_test_player", "player", Some(2), None)).unwrap();
    let list = handle_listassignedcards(&app_state, &game_id, &id_header(&joined.client_id)).unwrap();
    assert_eq!(list.cards.len(), 2);
    for c in &list.cards {
        assert_eq!(c.assigned_to, joined.client_id);
        let card = handle_getassignedcard(&app_state, &game_id, &c.card_id, &id_header(&joined.client_id)).unwrap();
        assert_eq!(card.card_id, c.card_id);
        assert_eq!(card.card_data.len(), 3);
    }
    let missing =
        handle_getassignedcard(&app_state, &game_id, "nonexistent_card_id", &id_header(&joined.client_id)).unwrap_err();
    assert_eq!(missing.status, 404);
    assert_eq!(missing.message, "Card not found");
}

#[test]
fn test_handle_board_pouch_scoremap_initial_state() {
    let mut app_state = create_test_app_state();
    let game_id = create_test_game(&mut app_state);
    assert_eq!(handle_board(&app_state, &game_id).unwrap().len(), 0);
    assert_eq!(handle_pouch(&app_state, &game_id).unwrap().len(), 90);
    assert_eq!(handle_scoremap(&app_state, &game_id).unwrap().published_score, 0);
    let err = handle_board(&app_state, "game_nonexistent").unwrap_err();
    assert_eq!(err.status, 404);
    assert_eq!(err.message, "Game with ID 'game_nonexistent' not found");
}

#[test]
fn test_handle_status() {
    let mut app_state = create_test_app_state();
    let (game_id, owner) = create_test_game_with_board_client(&mut app_state);
    let status = handle_status(&app_state, &game_id).unwrap();
    assert_eq!(status.status, "new");
    assert_eq!(status.game_id, game_id);
    assert!(status.created_at.contains("UTC"));
    assert_eq!(status.owner, Some(owner));
    assert_eq!(status.players, "1");
    assert_eq!(status.cards, "1");
    assert_eq!(status.numbers_extracted, 0);
    assert_eq!(status.scorecard, 0);
    assert!(status.closed_at.is_none());
}

#[test]
fn test_handle_extract_success() {
    let mut app_state = create_test_app_state();
    let (game_id, board_client_id) = create_test_game_with_board_client(&mut app_state);
    let response = handle_extract(&mut app_state, &game_id, &id_header(&board_client_id)).unwrap();
    assert!(response.success);
    assert!((1..=90).contains(&response.extracted_number));
    assert_eq!(response.numbers_remaining, 89);
    assert_eq!(response.total_extracted, 1);
    assert_eq!(response.message, format!("Number {} extracted successfully", response.extracted_number));
    assert_eq!(handle_pouch(&app_state, &game_id).unwrap().len(), 89);
    assert_eq!(handle_board(&app_state, &game_id).unwrap().get_numbers(), &vec![response.extracted_number]);
}

#[test]
fn test_handle_extract_unauthorized() {
    let mut app_state = create_test_app_state();
    let game_id = create_test_game(&mut app_state);
    let player = handle_join(&mut app_state, &game_id, &request("extract_test_player", "player", Some(1), None)).unwrap();
    let err = handle_extract(&mut app_state, &game_id, &id_header(&player.client_id)).unwrap_err();
    assert_eq!(err.status, 403);
    assert_eq!(err.message, "Unauthorized: Only the board owner can extract numbers");
    let err = handle_extract(&mut app_state, &game_id, &ClientHeader::Missing).unwrap_err();
    assert_eq!(err.status, 400);
    assert_eq!(err.message, "Client ID header (X-Client-ID) is required");
    let err = handle_extract(&mut app_state, &game_id, &id_header("not_in_game")).unwrap_err();
    assert_eq!(err.status, 403);
    assert_eq!(err.message, "Client must be registered to this game");
}

#[test]
fn test_handle_newgame_success() {
    let mut app_state = create_test_app_state();
    let reg = handle_global_register(&mut app_state, &request("newgame_test_player", "player", None, None)).unwrap();
    let response = handle_global_newgame(&mut app_state, &id_header(&reg.client_id)).unwrap();
    assert!(response.success);
    assert_eq!(response.message, "New game created successfully. You are now the board owner.");
    assert!(response.game_id.starts_with("game_"));
    assert!(response.created_at.contains("UTC"));
    assert_eq!(response.board_owner, reg.client_id);
    assert_eq!(response.note, "New game created and registered. Access it via /gameslist endpoint.");
    let unauthorized = handle_global_newgame(&mut app_state, &id_header("unknown")).unwrap_err();
    assert_eq!(unauthorized.status, 401);
    assert_eq!(unauthorized.message, "Client not registered");
    let missing = handle_global_newgame(&mut app_state, &ClientHeader::Missing).unwrap_err();
    assert_eq!(missing.message, "Client ID header (X-Client-ID) is required");
}

#[test]
fn test_handle_dumpgame_success_and_unauthorized() {
    let mut app_state = create_test_app_state();
    let (game_id, owner) = create_test_game_with_board_client(&mut app_state);
    let plan = handle_dumpgame(&app_state, &game_id, &id_header(&owner)).unwrap();
    assert_eq!(plan.game_id, game_id);
    assert_eq!(plan.path, format!("data/games/{game_id}.json"));
    assert!(!plan.game_ended && !plan.bingo_reached && !plan.pouch_empty);
    let player = handle_join(&mut app_state, &game_id, &request("dumpgame_test_player", "player", Some(1), None)).unwrap();
    let err = handle_dumpgame(&app_state, &game_id, &id_header(&player.client_id)).unwrap_err();
    assert_eq!(err.status, 403);
    assert_eq!(err.message, "Unauthorized: Only the board owner can dump the game");
    let missing = handle_dumpgame(&app_state, &game_id, &ClientHeader::Missing).unwrap_err();
    assert_eq!(missing.status, 401);
    assert_eq!(missing.message, "Missing X-Client-ID header");
}

#[test]
fn test_api_error_into_response() {
    let error = ApiError::new(400, "Test error message".to_string());
    assert_eq!(error.to_error_response().error, "Test error message");
}

#[test]
fn test_handle_games_list_with_multiple_games() {
    let mut app_state = create_test_app_state();
    let (g1, owner1) = create_test_game_with_board_client(&mut app_state);
    let _g2 = create_test_game(&mut app_state);
    handle_extract(&mut app_state, &g1, &id_header(&owner1)).unwrap();
    let list = handle_global_gameslist(&mut app_state).unwrap();
    assert!(list.success);
    assert_eq!(list.total_games, 2);
    assert_eq!(list.new_games, 1);
    assert_eq!(list.active_games, 1);
    assert_eq!(list.closed_games, 0);
    assert_eq!(list.games.len(), 2);
    assert!(list.games[0].game_id <= list.games[1].game_id);
    for g in &list.games {
        assert!(g.game_id.starts_with("game_"));
        assert!(g.start_date.contains("UTC"));
        assert!(g.close_date.is_none());
        let expected = if g.game_id == g1 { "Active" } else { "New" };
        assert_eq!(g.status, expected);
    }
}

#[test]
fn test_global_client_id_across_multiple_games() {
    let mut app_state = create_test_app_state();
    let g1 = create_test_game(&mut app_state);
    let g2 = create_test_game(&mut app_state);
    let a = handle_join(&mut app_state, &g1, &request("global_test_player", "player", Some(2), None)).unwrap();
    let b = handle_join(&mut app_state, &g2, &request("global_test_player", "player", Some(2), None)).unwrap();
    assert_eq!(a.client_id, b.client_id, "Client should have the same ID across different games");
    let c = handle_join(&mut app_state, &g1, &request("different_test_player", "player", Some(1), None)).unwrap();
    assert_ne!(a.client_id, c.client_id, "Different clients should have different IDs");
    assert_eq!(handle_listassignedcards(&app_state, &g1, &id_header(&a.client_id)).unwrap().cards.len(), 2);
    assert_eq!(handle_listassignedcards(&app_state, &g2, &id_header(&a.client_id)).unwrap().cards.len(), 2);
    let err = handle_global_clientinfo_by_id(&app_state, "NONEXISTENT_ID").unwrap_err();
    assert_eq!(err.message, "Client with ID 'NONEXISTENT_ID' not found");
}

#[test]
fn test_handle_global_register_existing_client() {
    let mut app_state = create_test_app_state();
    let first = handle_global_register(
        &mut app_state,
        &request("global_existing_player", "player", None, Some("first@example.com")),
    )
    .unwrap();
    assert_eq!(first.message, "Client 'global_existing_player' registered successfully globally");
    let second = handle_global_register(
        &mut app_state,
        &request("global_existing_player", "admin", None, Some("second@example.com")),
    )
    .unwrap();
    assert_eq!(second.client_id, first.client_id);
    assert_eq!(second.message, "Client 'global_existing_player' already registered globally");
    let info = handle_global_clientinfo(
        &app_state,
        &ClientNameQuery { name: Some("global_existing_player".to_string()) },
    )
    .unwrap();
    assert_eq!(info.client_type, "player");
    assert_eq!(app_state.global_client_registry.get(&first.client_id).unwrap().unwrap().email, "first@example.com");
}

#[test]
fn test_board_ownership_transfer_impossible() {
    let mut app_state = create_test_app_state();
    let (game_id, owner) = create_test_game_with_board_client(&mut app_state);
    let second = handle_join(&mut app_state, &game_id, &request("second_user", "board", Some(1), None)).unwrap();
    let cards = handle_listassignedcards(&app_state, &game_id, &id_header(&second.client_id)).unwrap();
    assert_eq!(cards.cards.len(), 1);
    assert_ne!(cards.cards[0].card_id, "0000000000000000", "Second user should NOT have BOARD_ID card");
    let err = handle_extract(&mut app_state, &game_id, &id_header(&second.client_id)).unwrap_err();
    assert!(err.message.contains("Only the board owner can extract numbers"));
    assert!(handle_extract(&mut app_state, &game_id, &id_header(&owner)).unwrap().success);
}

#[test]
fn test_end_to_end_players_endpoint() {
    let mut app_state = create_test_app_state();
    let (game_id, owner) = create_test_game_with_board_client(&mut app_state);
    let p1 = handle_join(&mut app_state, &game_id, &request("player1", "player", Some(12), None)).unwrap();
    let p2 = handle_join(&mut app_state, &game_id, &request("player2", "player", Some(6), None)).unwrap();
    let p3 = handle_join(&mut app_state, &game_id, &request("player3", "player", Some(3), None)).unwrap();
    let players = handle_players(&app_state, &game_id, &id_header(&p1.client_id)).unwrap();
    assert_eq!(players.game_id, game_id);
    assert_eq!(players.total_players, 4);
    assert_eq!(players.total_cards, 21);
    assert_eq!(players.players[0].client_id, owner);
    assert_eq!(players.players[0].client_type, "board");
    assert_eq!(players.players[0].card_count, 0);
    let rest: Vec<&String> = players.players[1..].iter().map(|p| &p.client_id).collect();
    let mut sorted = rest.clone();
    sorted.sort();
    assert_eq!(rest, sorted);
    for p in [&p1, &p2, &p3] {
        assert!(players.players.iter().any(|x| x.client_id == p.client_id));
    }
    let err = handle_players(&app_state, "game_nonexistent", &id_header(&owner)).unwrap_err();
    assert_eq!(err.status, 404);
    assert_eq!(err.message, "Game 'game_nonexistent' not found");
    let err = handle_players(&app_state, &game_id, &ClientHeader::Missing).unwrap_err();
    assert_eq!(err.message, "Client ID header (X-Client-ID) is required");
    let err = handle_players(&app_state, &game_id, &id_header("UNREGISTERED_CLIENT_ID")).unwrap_err();
    assert_eq!(err.status, 403);
    assert!(err.message.contains("Client 'UNREGISTERED_CLIENT_ID' is not registered in game"));
}

#[test]
fn extraction_until_bingo_gives_the_state_to_save() {
    let mut app_state = create_test_app_state();
    let (game_id, owner) = create_test_game_with_board_client(&mut app_state);
    let mut saved = None;
    for _ in 0..90 {
        let r = handle_extract(&mut app_state, &game_id, &id_header(&owner)).unwrap();
        if r.final_state.is_some() {
            saved = r.final_state;
            break;
        }
    }
    let (snapshot, path) = saved.expect("BINGO is reached before the pouch runs out");
    assert_eq!(snapshot.id, game_id);
    assert_eq!(path, format!("data/games/{game_id}.json"));
    let status = handle_status(&app_state, &game_id).unwrap();
    assert_eq!(status.status, "closed");
    assert!(status.closed_at.unwrap().ends_with(" UTC"));
    let err = handle_extract(&mut app_state, &game_id, &id_header(&owner)).unwrap_err();
    assert_eq!(err.status, 409);
    assert_eq!(err.message, "Game over: BINGO has been reached. No more numbers can be extracted.");
    let list = handle_global_gameslist(&mut app_state).unwrap();
    assert_eq!(list.closed_games, 1);
    assert!(list.games[0].close_date.is_some());
}

#[test]
fn actions_on_one_game_leave_other_games_alone() {
    let mut app_state = create_test_app_state();
    let (g1, owner1) = create_test_game_with_board_client(&mut app_state);
    let g2 = create_test_game(&mut app_state);
    let p = handle_join(&mut app_state, &g2, &request("isolated_player", "player", Some(2), None)).unwrap();
    let before_board = handle_board(&app_state, &g2).unwrap().get_numbers().clone();
    let before_pouch = handle_pouch(&app_state, &g2).unwrap().len();
    for _ in 0..5 {
        handle_extract(&mut app_state, &g1, &id_header(&owner1)).unwrap();
    }
    assert_eq!(handle_board(&app_state, &g1).unwrap().len(), 5);
    assert_eq!(handle_board(&app_state, &g2).unwrap().get_numbers(), &before_board);
    assert_eq!(handle_pouch(&app_state, &g2).unwrap().len(), before_pouch);
    assert_eq!(handle_listassignedcards(&app_state, &g2, &id_header(&p.client_id)).unwrap().cards.len(), 2);
    let e = handle_join(&mut app_state, &g1, &request("late", "player", None, None)).unwrap_err();
    assert_eq!(e.status, 409);
    assert!(handle_join(&mut app_state, &g2, &request("late", "player", None, None)).is_ok());
}
