use tombola::board::Board;
use tombola::card::CardAssignmentManager;
use tombola::extraction::perform_extraction;
use tombola::pouch::Pouch;
use tombola::score::ScoreCard;

#[test]
fn extraction_from_a_partial_pouch() {
    let mut pouch = Pouch { numbers: vec![5, 7] };
    let mut board = Board::new();
    let mut scorecard = ScoreCard::new();
    let manager = CardAssignmentManager::new();
    let (n, score) = perform_extraction(&mut pouch, &mut board, &mut scorecard, &manager, 0).unwrap();
    assert!(n == 5 || n == 7);
    assert_eq!(pouch.numbers.len(), 1);
    assert!(!pouch.numbers.contains(&n));
    assert_eq!(board.get_numbers(), &vec![n]);
    assert_eq!(score, 1); // one number on its line of the board
}

#[test]
fn extraction_of_zero_is_refused() {
    let mut pouch = Pouch { numbers: vec![0] };
    let mut board = Board::new();
    let mut scorecard = ScoreCard::new();
    let manager = CardAssignmentManager::new();
    let r = perform_extraction(&mut pouch, &mut board, &mut scorecard, &manager, 0);
    assert_eq!(r, Err("No numbers remaining in pouch".to_string()));
    assert!(pouch.numbers.is_empty());
    assert!(board.get_numbers().is_empty());
}

#[test]
fn extraction_from_an_empty_pouch_is_refused() {
    let mut pouch = Pouch { numbers: vec![] };
    let mut board = Board::new();
    let mut scorecard = ScoreCard::new();
    let manager = CardAssignmentManager::new();
    let r = perform_extraction(&mut pouch, &mut board, &mut scorecard, &manager, 3);
    assert_eq!(r, Err("Pouch is empty".to_string()));
}
