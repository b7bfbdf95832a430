use tombola::card::{block_clashes, CardAssignmentManager, CardManagement};
use tombola::game::GameStatus;

#[test]
fn test_generate_cards_for_registered_client_new_game() {
    // Setup
    let mut card_manager = CardAssignmentManager::new();
    let client_id = "test_client_123";
    let client_type = Some("player");
    let game_status = GameStatus::New;

    // Register client with 0 cards initially
    card_manager.client_cards.insert(client_id.to_string(), vec![]);

    // Test: Should generate cards when game is in New state
    let result = card_manager.generate_cards_for_registered_client(client_id, 1, client_type, &game_status);

    assert!(result.is_ok(), "Should allow card generation for registered client in new game");

    // Verify card was assigned
    let assigned_cards = card_manager.get_client_assigned_cards(client_id);
    assert_eq!(assigned_cards.len(), 1, "Should have exactly one card assigned");
    assert_eq!(assigned_cards[0].assigned_to, client_id);
}

#[test]
fn test_generate_cards_for_registered_client_active_game() {
    // Setup
    let mut card_manager = CardAssignmentManager::new();
    let client_id = "test_client_123";
    let client_type = Some("player");
    let game_status = GameStatus::Active;

    // Register client with 0 cards initially
    card_manager.client_cards.insert(client_id.to_string(), vec![]);

    // Test: Should NOT generate cards when game is Active
    let result = card_manager.generate_cards_for_registered_client(client_id, 1, client_type, &game_status);

    assert!(result.is_err(), "Should reject card generation for active game");

    // Verify no card was assigned
    let assigned_cards = card_manager.get_client_assigned_cards(client_id);
    assert_eq!(assigned_cards.len(), 0, "Should have no cards assigned");
}

#[test]
fn test_generate_cards_for_registered_client_closed_game() {
    // Setup
    let mut card_manager = CardAssignmentManager::new();
    let client_id = "test_client_123";
    let client_type = Some("player");
    let game_status = GameStatus::Closed;

    // Register client with 0 cards initially
    card_manager.client_cards.insert(client_id.to_string(), vec![]);

    // Test: Should NOT generate cards when game is Closed
    let result = card_manager.generate_cards_for_registered_client(client_id, 1, client_type, &game_status);

    assert!(result.is_err(), "Should reject card generation for closed game");

    // Verify no card was assigned
    let assigned_cards = card_manager.get_client_assigned_cards(client_id);
    assert_eq!(assigned_cards.len(), 0, "Should have no cards assigned");
}

#[test]
fn test_generate_cards_for_unregistered_client() {
    // Setup
    let mut card_manager = CardAssignmentManager::new();
    let client_id = "unregistered_client";
    let client_type = Some("player");
    let game_status = GameStatus::New;

    // Test: Should NOT generate cards for unregistered client
    let result = card_manager.generate_cards_for_registered_client(client_id, 1, client_type, &game_status);

    assert!(result.is_err(), "Should reject card generation for unregistered client");

    // Verify no card was assigned
    let assigned_cards = card_manager.get_client_assigned_cards(client_id);
    assert_eq!(assigned_cards.len(), 0, "Should have no cards assigned");
}

#[test]
fn test_assign_cards_with_game_state_check_integration() {
    // Setup
    let mut card_manager = CardAssignmentManager::new();
    let client_id = "pluto_client";
    let client_type = Some("player");
    let game_status = GameStatus::New;

    // First register with 0 cards (simulating join without card generation)
    card_manager.client_cards.insert(client_id.to_string(), vec![]);

    // Test: assign_cards_with_game_state_check should work for registered client with 0 cards
    let result = card_manager.assign_cards_with_game_state_check(client_id, 1, client_type, &game_status);

    assert!(result.is_ok(), "Should allow card assignment for registered client with 0 cards in new game");

    // Verify card was assigned
    let assigned_cards = card_manager.get_client_assigned_cards(client_id);
    assert_eq!(assigned_cards.len(), 1, "Should have exactly one card assigned");
    assert_eq!(assigned_cards[0].assigned_to, client_id);
}

#[test]
fn card_group_has_six_cards_of_three_rows_by_nine_columns() {
    let cm = CardManagement::new();
    let group = cm.generate_card_group();
    assert_eq!(group.len(), 6);
    for card in &group {
        assert_eq!(card.len(), 3);
        for row in card {
            assert_eq!(row.len(), 9);
            for (col, cell) in row.iter().enumerate() {
                if let Some(n) = cell {
                    let n = *n as usize;
                    let (lo, hi) = if col == 0 {
                        (1, 9)
                    } else if col == 8 {
                        (80, 90)
                    } else {
                        (10 * col, 10 * col + 9)
                    };
                    assert!(lo <= n && n <= hi, "number {} in column {}", n, col);
                }
            }
        }
    }
}

#[test]
fn card_group_covers_every_number_once_with_fifteen_per_card() {
    let cm = CardManagement::new();
    let group = cm.generate_card_group();
    let mut seen = vec![0u32; 91];
    for card in &group {
        let nums: Vec<u8> = card.iter().flat_map(|row| row.iter().filter_map(|c| *c)).collect();
        assert_eq!(nums.len(), 15);
        for row in card {
            assert_eq!(row.iter().filter(|c| c.is_some()).count(), 5);
        }
        for n in nums {
            seen[n as usize] += 1;
        }
    }
    for n in 1..=90 {
        assert_eq!(seen[n], 1, "number {} should appear once", n);
    }
}

#[test]
fn generated_cards_have_distinct_ids_and_requested_count() {
    let cm = CardManagement::new();
    let cards = cm.generate_cards(8);
    assert_eq!(cards.len(), 8);
    for i in 0..cards.len() {
        for j in (i + 1)..cards.len() {
            assert_ne!(cards[i].id, cards[j].id);
        }
    }
}

#[test]
fn board_type_gets_only_the_board_card() {
    let mut card_manager = CardAssignmentManager::new();
    let (infos, ids) = card_manager.assign_cards_with_type("owner", 3, Some("board"));
    assert_eq!(ids, vec!["0000000000000000".to_string()]);
    assert_eq!(infos.len(), 1);
    assert_eq!(card_manager.get_client_id_for_card("0000000000000000"), "owner");
}

fn numbers_of(card: &Vec<Vec<Option<u8>>>) -> Vec<u8> {
    card.iter().flat_map(|r| r.iter().filter_map(|c| *c)).collect()
}

#[test]
fn cards_of_the_same_group_share_no_number() {
    let cm = CardManagement::new();
    for requested in [4usize, 6, 14] {
        let cards = cm.generate_cards(requested);
        assert_eq!(cards.len(), requested);
        for i in 0..cards.len() {
            for j in (i + 1)..cards.len() {
                if i / 6 == j / 6 {
                    let a = numbers_of(&cards[i].card);
                    let b = numbers_of(&cards[j].card);
                    assert!(a.iter().all(|x| !b.contains(x)));
                }
            }
        }
    }
}

#[test]
fn cards_of_different_groups_get_different_ids() {
    let cm = CardManagement::new();
    let (cards, regenerations) = cm.generate_cards_within(20, 100);
    assert_eq!(cards.len(), 20);
    assert!(regenerations <= 100);
    if regenerations < 100 {
        for i in 0..cards.len() {
            for j in (i + 1)..cards.len() {
                if i / 6 != j / 6 {
                    assert_ne!(cards[i].id, cards[j].id);
                }
            }
        }
    }
}

#[test]
fn block_clashes_finds_a_seen_id() {
    let cm = CardManagement::new();
    let block = cm.generate_card_group_with_ids();
    let mut seen = std::collections::HashSet::new();
    assert!(!block_clashes(&block, &seen));
    seen.insert(block[3].id);
    assert!(block_clashes(&block, &seen));
    seen.clear();
    seen.insert(12345);
    assert_eq!(block_clashes(&block, &seen), block.iter().any(|c| c.id == 12345));
}

#[test]
fn group_cards_follow_the_allocation_pattern() {
    let singles: [[usize; 3]; 6] = [[0, 3, 6], [1, 4, 7], [2, 5, 8], [0, 4, 8], [1, 5, 6], [2, 3, 7]];
    let shape = |counts: &[usize; 9]| -> Vec<usize> {
        let mut v: Vec<usize> = counts[1..8].to_vec();
        v.push(counts[0] + counts[8]);
        v
    };
    let mut expected: Vec<Vec<usize>> = singles
        .iter()
        .map(|row| {
            let mut counts = [2usize; 9];
            for &c in row {
                counts[c] = 1;
            }
            shape(&counts)
        })
        .collect();
    expected.sort();
    let cm = CardManagement::new();
    for _ in 0..20 {
        let group = cm.generate_card_group();
        let mut got: Vec<Vec<usize>> = group
            .iter()
            .map(|card| {
                let mut counts = [0usize; 9];
                for row in card {
                    for (col, cell) in row.iter().enumerate() {
                        if cell.is_some() {
                            counts[col] += 1;
                        }
                    }
                }
                shape(&counts)
            })
            .collect();
        got.sort();
        assert_eq!(got, expected);
    }
}
