use tombola::clock::{date_text, time_text};
use std::collections::HashMap;
use tombola::board::Board;
use tombola::api::GameListItem;
use tombola::client_view::{
    card_achievement_summary, card_row_text, extract_game_id_from_info, extract_highest_achievement_numbers,
    first_open_game, games_listing, get_highest_score_numbers_for_card,
};
use tombola::logging::{log_line, LogLevel};
use tombola::pouch::Pouch;
use tombola::score::{ScoreAchievement, ScoreCard};
use tombola::terminal::{board_text, downrightshift, print_last_numbers};

fn ach(card: &str, numbers: Vec<u8>) -> ScoreAchievement {
    ScoreAchievement { client_id: card.to_string(), card_id: card.to_string(), numbers }
}

#[test]
fn game_id_is_the_text_before_the_first_comma() {
    assert_eq!(extract_game_id_from_info("game_1234abcd, started at: 2024-01-01"), Some("game_1234abcd".to_string()));
    assert_eq!(extract_game_id_from_info("  game_x  "), Some("game_x".to_string()));
    assert_eq!(extract_game_id_from_info(""), Some("".to_string()));
    assert_eq!(extract_game_id_from_info(",a,b"), Some("".to_string()));
}

#[test]
fn moves_between_board_numbers() {
    let d = downrightshift(0, 1);
    assert_eq!((d.delta_x, d.delta_y), (2, 0));
    let d = downrightshift(1, 2);
    assert_eq!((d.delta_x, d.delta_y), (2, 0));
    let d = downrightshift(5, 6);
    assert_eq!((d.delta_x, d.delta_y), (4, 0));
    let d = downrightshift(10, 11);
    assert_eq!((d.delta_x, d.delta_y), (2, 2));
    let d = downrightshift(30, 31);
    assert_eq!((d.delta_x, d.delta_y), (2, 3));
    let d = downrightshift(1, 90);
    assert_eq!(d.delta_y, 18);
}

#[test]
fn last_numbers_most_recent_first() {
    let mut board = Board::new();
    for n in [5u8, 17, 33, 48, 60] {
        board.push_simple(n);
    }
    assert_eq!(print_last_numbers(&board, 3), vec![48, 33, 17]);
    assert_eq!(print_last_numbers(&board, 10), vec![48, 33, 17, 5]);
    assert_eq!(print_last_numbers(&Board::new(), 3), Vec::<u8>::new());
}

#[test]
fn board_text_places_and_colours_numbers() {
    let mut board = Board::new();
    board.push_simple(12);
    board.push_simple(1);
    let text = board_text(&board);
    assert_eq!(text, "  \u{1b}[1;32m 1\u{1b}[0m\n\n      12");
    let _ = Pouch::new();
}

#[test]
fn highlights_follow_the_published_score() {
    let mut map = HashMap::new();
    map.insert(2u8, vec![ach("card_a", vec![1, 2]), ach("0000000000000000", vec![3, 4])]);
    map.insert(3u8, vec![ach("0000000000000000", vec![5, 6, 7])]);
    let sc = ScoreCard { published_score: 3, score_map: map.clone() };
    assert_eq!(extract_highest_achievement_numbers(&sc), vec![5, 6, 7]);
    assert_eq!(get_highest_score_numbers_for_card(&sc, "0000000000000000"), vec![5, 6, 7]);
    assert_eq!(get_highest_score_numbers_for_card(&sc, "card_a"), Vec::<u8>::new());
    let sc2 = ScoreCard { published_score: 4, score_map: map };
    assert_eq!(extract_highest_achievement_numbers(&sc2), Vec::<u8>::new());
    let sc3 = ScoreCard { published_score: 1, score_map: HashMap::new() };
    assert_eq!(extract_highest_achievement_numbers(&sc3), Vec::<u8>::new());
}

#[test]
fn log_lines_name_the_level_and_module() {
    assert_eq!(log_line("2024-01-01 00:00:00", LogLevel::Warning, "api", "hi"), "2024-01-01 00:00:00 - WARNING - [api] hi");
    assert_eq!(LogLevel::Error.as_str(), "ERROR");
}

#[test]
fn card_rows_show_drawn_and_winning_numbers() {
    let row = vec![Some(5u8), None, Some(12u8), Some(40u8)];
    let text = card_row_text(&row, &[5, 12], &[12]);
    assert_eq!(
        text,
        "\u{2502}\u{1b}[1;32m    5   \u{1b}[0m|        \u{2502}\u{1b}[1;33m   12   \u{1b}[0m|   40   |"
    );
}

#[test]
fn card_summary_names_the_current_achievement() {
    let mut map = HashMap::new();
    map.insert(2u8, vec![ach("c1", vec![1, 2])]);
    map.insert(3u8, vec![ach("c1", vec![1, 2, 3]), ach("c2", vec![4, 5, 6])]);
    let sc = ScoreCard { published_score: 3, score_map: map.clone() };
    assert_eq!(card_achievement_summary(&sc, "c1"), (false, vec!["3 in line".to_string()]));
    assert_eq!(card_achievement_summary(&sc, "c3"), (false, vec![]));
    let later = ScoreCard { published_score: 4, score_map: map.clone() };
    assert_eq!(card_achievement_summary(&later, "c1"), (false, vec![]));
    map.insert(15u8, vec![ach("c2", (1..=15).collect())]);
    let bingo = ScoreCard { published_score: 15, score_map: map };
    assert_eq!(card_achievement_summary(&bingo, "c2"), (true, vec!["BINGO".to_string()]));
}

fn listed(id: &str, status: &str, date: &str) -> GameListItem {
    GameListItem {
        game_id: id.to_string(),
        status: status.to_string(),
        start_date: date.to_string(),
        close_date: None,
        owner: None,
    }
}

#[test]
fn first_open_game_skips_closed_games() {
    let games = vec![
        listed("game_00000001", "Closed", "2024-01-01 10:00:00 UTC"),
        listed("game_00000002", "Active", "2024-01-02 10:00:00 UTC"),
        listed("game_00000003", "New", "2024-01-03 10:00:00 UTC"),
    ];
    let line = first_open_game(&games).unwrap();
    assert_eq!(line, "game_00000002, started at: 2024-01-02 10:00:00 UTC");
    assert_eq!(extract_game_id_from_info(&line), Some("game_00000002".to_string()));
}

#[test]
fn first_open_game_fails_when_all_are_closed() {
    let games = vec![listed("game_00000001", "Closed", "d")];
    assert_eq!(first_open_game(&games), Err("No available games found".to_string()));
    assert_eq!(first_open_game(&Vec::new()), Err("No available games found".to_string()));
}

#[test]
fn games_listing_lists_open_games_only() {
    assert_eq!(games_listing(&Vec::new()), vec!["No games found.".to_string()]);
    let games = vec![
        listed("game_0000000a", "New", "d1"),
        listed("game_0000000b", "Closed", "d2"),
        listed("game_0000000c", "Active", "d3"),
    ];
    assert_eq!(
        games_listing(&games),
        vec![
            "Available games:".to_string(),
            "  game_0000000a - New (created: d1)".to_string(),
            "  game_0000000c - Active (created: d3)".to_string(),
        ]
    );
    let closed = vec![listed("game_0000000b", "Closed", "d2")];
    assert_eq!(games_listing(&closed), vec!["Available games:".to_string()]);
}

#[test]
fn date_text_of_epoch_parts() {
    assert_eq!(date_text(None), "Unknown time");
    assert_eq!(date_text(Some((0, 0))), "1970-01-01 00:00:00 UTC");
    assert_eq!(date_text(Some((1753174309, 1753174309_000_000_123))), "2025-07-22 08:51:49 UTC");
    let t = std::time::UNIX_EPOCH + std::time::Duration::from_secs(1753174309);
    assert_eq!(time_text(&t), "2025-07-22 08:51:49 UTC");
    let before = std::time::UNIX_EPOCH - std::time::Duration::from_secs(5);
    assert_eq!(time_text(&before), "Unknown time");
}
