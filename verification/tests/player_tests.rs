use tombola::player::TombolaClient;

#[test]
fn new_session_is_unregistered_without_game() {
    let c = TombolaClient::new("alice", "http://127.0.0.1:3000");
    assert!(!c.is_registered());
    assert_eq!(c.get_client_id(), None);
    assert_eq!(c.current_game_id(), None);
    assert_eq!(c.nocard, None);
}

#[test]
fn nocard_and_game_can_be_set() {
    let mut c = TombolaClient::new("alice", "http://127.0.0.1:3000");
    c.set_nocard(6);
    assert_eq!(c.nocard, Some(6));
    c.clear_nocard();
    assert_eq!(c.nocard, None);
    c.set_game_id("game_1234abcd".to_string());
    assert_eq!(c.current_game_id(), Some(&"game_1234abcd".to_string()));
}

#[test]
fn registration_needs_a_game() {
    let c = TombolaClient::new("alice", "http://127.0.0.1:3000");
    assert_eq!(c.registration().err(), Some("Game ID not set".to_string()));
}

#[test]
fn registration_request_and_game_requests() {
    let mut c = TombolaClient::new("alice", "http://127.0.0.1:3000");
    c.set_nocard(3);
    c.set_game_id("game_1234abcd".to_string());
    let (url, request) = c.registration().unwrap().unwrap();
    assert_eq!(url, "http://127.0.0.1:3000/game_1234abcd/register");
    assert_eq!(request.name, "alice");
    assert_eq!(request.client_type, "tombola_client");
    assert_eq!(request.nocard, Some(3));
    assert_eq!(request.email, None);

    assert_eq!(
        c.game_request("board").err(),
        Some("Client not registered. Call register() first.".to_string())
    );
    c.record_registration("ABCDEF0123456789".to_string());
    assert!(c.is_registered());
    assert_eq!(c.get_client_id(), Some(&"ABCDEF0123456789".to_string()));
    assert!(c.registration().unwrap().is_none());
    let (board_url, id) = c.game_request("board").unwrap();
    assert_eq!(board_url, "http://127.0.0.1:3000/game_1234abcd/board");
    assert_eq!(id, "ABCDEF0123456789");
}

#[test]
fn game_requests_need_a_game() {
    let mut c = TombolaClient::new("bob", "http://h:1");
    c.record_registration("0011223344556677".to_string());
    assert_eq!(
        c.game_request("pouch").err(),
        Some("Game ID not set. Use set_game_id() first.".to_string())
    );
}
