use tombola::board::BOARD_ID;
use tombola::client::{ClientInfo, ClientRegistry};

#[test]
fn test_client_info_generation() {
    let client1 = ClientInfo::new("player1", "player", "player1@example.com");
    let client2 = ClientInfo::new("player2", "player", "player2@example.com");
    let client3 = ClientInfo::new("player1", "player", "player1@example.com"); // Same name, should get different ID

    // Each client should have a unique ID
    assert_ne!(client1.id, client2.id, "Different clients should have different IDs");
    assert_ne!(client1.id, client3.id, "Even same name should get different ID due to timestamp");

    // IDs should be 16 character hex strings
    assert_eq!(client1.id.len(), 16, "Client ID should be 16 characters");
    assert_eq!(client2.id.len(), 16, "Client ID should be 16 characters");

    // IDs should only contain hex characters
    assert!(client1.id.chars().all(|c| c.is_ascii_hexdigit()), "Client ID should only contain hex digits");
    assert!(client2.id.chars().all(|c| c.is_ascii_hexdigit()), "Client ID should only contain hex digits");

    // Names and types should be preserved
    assert_eq!(client1.name, "player1");
    assert_eq!(client1.client_type, "player");
}

#[test]
fn test_client_registry_operations() {
    let mut registry = ClientRegistry::new();
    let client = ClientInfo::new("testplayer", "player", "test@example.com");

    // Should be able to register
    let result = registry.insert(client.clone()).unwrap();
    assert!(result.is_none(), "First insert should return None");

    // Should return previous value when inserting same client ID
    let new_client = ClientInfo::new("newplayer", "player", "new@example.com");
    let updated_client = ClientInfo {
        id: client.id.clone(),
        name: new_client.name,
        client_type: new_client.client_type,
        registered_at: new_client.registered_at,
        email: String::new(), // Default empty email for test
    };
    let result = registry.insert(updated_client).unwrap();
    assert!(result.is_some(), "Should return previous client when client ID exists");
}

#[test]
fn test_client_registry_lookup() {
    let mut registry = ClientRegistry::new();
    let client = ClientInfo::new("testplayer", "player", "test@example.com");

    let _ = registry.insert(client.clone());

    // Test lookup by client ID
    let found = registry.get(&client.id).unwrap();
    assert!(found.is_some(), "Should find client by ID");
    assert_eq!(found.unwrap().name, "testplayer");

    // Test contains_client
    assert!(registry.contains_client(&client.id).unwrap(), "Should contain client");
    assert!(!registry.contains_client("nonexistent").unwrap(), "Should not contain nonexistent client");

    // Test get_client_name_by_id
    let name = registry.get_client_name_by_id(&client.id).unwrap();
    assert_eq!(name, Some("testplayer".to_string()));

    // Test board client special case
    let board_name = registry.get_client_name_by_id(BOARD_ID).unwrap();
    assert_eq!(board_name, Some("Board".to_string()));
}

#[test]
fn test_client_registry_collection_methods() {
    let mut registry = ClientRegistry::new();
    let client1 = ClientInfo::new("player1", "player", "player1@example.com");
    let client2 = ClientInfo::new("player2", "player", "player2@example.com");
    let client3 = ClientInfo::new("player3", "player", "player3@example.com");

    let _ = registry.insert(client1);
    let _ = registry.insert(client2);
    let _ = registry.insert(client3);

    // Test collection methods
    assert_eq!(registry.len().unwrap(), 3, "Registry should contain 3 clients");
    assert!(!registry.is_empty().unwrap(), "Registry should not be empty");

    let clients = registry.get_all_clients().unwrap();
    let names: Vec<String> = clients.iter().map(|c| c.name.clone()).collect();
    assert!(names.contains(&"player1".to_string()));
    assert!(names.contains(&"player2".to_string()));
    assert!(names.contains(&"player3".to_string()));
}

#[test]
fn client_lookup_by_name_finds_first_registered() {
    let mut registry = ClientRegistry::new();
    let a = ClientInfo::new("alice", "player", "");
    let b = ClientInfo::new("bob", "board", "");
    let _ = registry.insert(a.clone());
    let _ = registry.insert(b.clone());
    assert_eq!(registry.get_by_name("bob").unwrap().unwrap().id, b.id);
    assert!(registry.get_by_name("carol").unwrap().is_none());
    let removed = registry.remove(&a.id).unwrap();
    assert_eq!(removed.unwrap().name, "alice");
    assert!(!registry.contains_client(&a.id).unwrap());
    assert_eq!(registry.clear().unwrap(), 1);
    assert!(registry.is_empty().unwrap());
}
