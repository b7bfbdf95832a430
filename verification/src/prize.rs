//! Prize checking on a board of marked entries: the score after an
//! extraction and the marking of the numbers that make a new prize.

use vstd::prelude::*;
use crate::defs::NUMBERSPERCARD;
use crate::layout::{all_tombola_numbers, board_card_count, card_complete, contains_number, first_complete, is_bingo, lemma_first_complete_from, lemma_no_complete_from, on_same_line, same_line, board_card_numbers};
use crate::score::{board_score, ScoreCard};

verus! {

/// A drawn number and whether it is marked.
#[derive(Clone, Copy, Debug)]
pub struct NumberEntry {
    pub number: u8,
    pub is_marked: bool,
}

/// The numbers of a board of entries.
pub open spec fn entry_numbers(board: Seq<NumberEntry>) -> Seq<u8> {
    board.map_values(|e: NumberEntry| e.number)
}

/// Whether an entry is marked after a prize check that moved the score from
/// `prev` to `s`.
pub open spec fn marked_after(nums: Seq<u8>, e: u8, prev: u8, s: u8, n: u8, was: bool) -> bool {
    if s > prev {
        if 2 <= s <= 5 {
            same_line(n, e)
        } else if s == NUMBERSPERCARD {
            is_bingo(nums) && board_card_numbers(first_complete(nums)).contains(n)
        } else {
            was
        }
    } else {
        was
    }
}

/// Updates the score after `extracted` was drawn (15 on a BINGO, the line
/// score of `extracted` when it is higher) and, on a new achievement, marks
/// exactly the numbers that make it.
pub fn tombola_prize_check(board: &mut [NumberEntry], extracted: u8, scorecard: &mut u8)
    requires
        all_tombola_numbers(entry_numbers(old(board)@)),
        1 <= extracted <= 90,
        old(board)@.len() < 255,
    ensures
        *final(scorecard) == board_score(entry_numbers(old(board)@), extracted, *old(scorecard)),
        final(board)@.len() == old(board)@.len(),
        forall|i: int|
            0 <= i < final(board)@.len() ==> (#[trigger] final(board)@[i]).number == old(board)@[i].number
                && final(board)@[i].is_marked == marked_after(
                entry_numbers(old(board)@),
                extracted,
                *old(scorecard),
                *final(scorecard),
                old(board)@[i].number,
                old(board)@[i].is_marked,
            ),
{
    let ghost nums = entry_numbers(board@);
    let previous_scorecard = *scorecard;
    let mut numbers: Vec<u8> = Vec::new();
    let mut i: usize = 0;
    while i < board.len()
        invariant
            nums == entry_numbers(board@),
            i <= board@.len(),
            numbers@ == nums.take(i as int),
        decreases board@.len() - i,
    {
        numbers.push(board[i].number);
        i = i + 1;
    }
    assert(numbers@ == nums);
    let checker = ScoreCard::with_score(previous_scorecard);
    let (new_score, _) = checker.board_score_check(numbers.as_slice(), extracted);
    *scorecard = new_score;

    if new_score > previous_scorecard {
        if 2 <= new_score && new_score <= 5 {
            let mut j: usize = 0;
            while j < board.len()
                invariant
                    1 <= extracted <= 90,
                    all_tombola_numbers(nums),
                    nums == entry_numbers(old(board)@),
                    board@.len() == old(board)@.len(),
                    j <= board@.len(),
                    forall|k: int| 0 <= k < board@.len() ==> (#[trigger] board@[k]).number == old(board)@[k].number,
                    forall|k: int| 0 <= k < j ==> (#[trigger] board@[k]).is_marked == same_line(board@[k].number, extracted),
                decreases board@.len() - j,
            {
                let number = board[j].number;
                assert(number == nums[j as int]);
                board[j] = NumberEntry { number, is_marked: on_same_line(number, extracted) };
                j = j + 1;
            }
        } else if new_score == NUMBERSPERCARD {
            let mut found_card: Option<Vec<u8>> = None;
            let mut card_index: u8 = 0;
            while card_index < 6
                invariant_except_break
                    found_card is None,
                invariant
                    card_index <= 6,
                    forall|k: int| 0 <= k < card_index ==> !card_complete(nums, k),
                    nums == numbers@,
                ensures
                    card_index < 6 ==> card_complete(nums, card_index as int) && found_card is Some
                        && found_card.unwrap()@ == board_card_numbers(card_index as int),
                    card_index >= 6 ==> found_card is None,
                decreases 6 - card_index,
            {
                let (card_numbers, found) = board_card_count(numbers.as_slice(), card_index);
                if found == NUMBERSPERCARD {
                    found_card = Some(card_numbers);
                    break;
                }
                card_index = card_index + 1;
            }
            proof {
                if card_index >= 6 {
                    lemma_no_complete_from(nums, 0);
                } else {
                    lemma_first_complete_from(nums, 0, card_index as int);
                }
            }
            let mut j: usize = 0;
            while j < board.len()
                invariant
                    nums == entry_numbers(old(board)@),
                    board@.len() == old(board)@.len(),
                    j <= board@.len(),
                    found_card is None ==> !is_bingo(nums),
                    found_card is Some ==> is_bingo(nums) && found_card.unwrap()@ == board_card_numbers(first_complete(nums)),
                    forall|k: int| 0 <= k < board@.len() ==> (#[trigger] board@[k]).number == old(board)@[k].number,
                    forall|k: int| 0 <= k < j ==> (#[trigger] board@[k]).is_marked == (is_bingo(nums)
                        && board_card_numbers(first_complete(nums)).contains(board@[k].number)),
                decreases board@.len() - j,
            {
                let number = board[j].number;
                let mark = match &found_card {
                    Some(c) => contains_number(c.as_slice(), number),
                    None => false,
                };
                board[j] = NumberEntry { number, is_marked: mark };
                j = j + 1;
            }
        }
    }
}

} // verus!
