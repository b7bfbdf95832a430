//! One extraction: draw a number, put it on the board, and rescore.

use vstd::prelude::*;
use crate::board::Board;
use crate::card::CardAssignmentManager;
use crate::defs::Number;
use crate::pouch::{lemma_draw_keeps_in_play, lemma_in_play_facts, numbers_in_play, Pouch};
use crate::score::{best_score_update, ScoreCard};
use crate::text::string_of;

verus! {

/// Draws a number from the pouch, adds it to the board (scoring and marking
/// the board), and updates the best score over the board and all cards.
/// Returns the number and the new working score. A drawn 0 is no number: the
/// extraction then fails and leaves board and score card alone.
pub fn perform_extraction(
    pouch: &mut Pouch,
    board: &mut Board,
    scorecard: &mut ScoreCard,
    card_manager: &CardAssignmentManager,
    current_working_score: Number,
) -> (r: Result<(Number, Number), String>)
    requires
        old(board).wf(),
        old(board).numbers().len() < 254,
        card_manager.wf(),
        forall|i: int| 0 <= i < old(pouch).numbers@.len() ==> #[trigger] old(pouch).numbers@[i] <= 90,
    ensures
        final(board).wf(),
        numbers_in_play(old(board).numbers(), old(pouch).numbers@) ==> numbers_in_play(
            final(board).numbers(),
            final(pouch).numbers@,
        ),
        old(pouch).numbers@.len() == 0 ==> (r matches Err(e) && e@ == "Pouch is empty"@)
            && final(pouch).numbers@ == old(pouch).numbers@ && final(board).numbers() == old(board).numbers()
            && final(board).marked() == old(board).marked() && *final(scorecard) == *old(scorecard),
        old(pouch).numbers@.len() > 0 ==> exists|i: int|
            0 <= i < old(pouch).numbers@.len() && final(pouch).numbers@ == old(pouch).numbers@.remove(i) && (
            old(pouch).numbers@[i] == 0 ==> (r matches Err(e) && e@ == "No numbers remaining in pouch"@)
                && final(board).numbers() == old(board).numbers() && final(board).marked() == old(board).marked()
                && *final(scorecard) == *old(scorecard)) && (old(pouch).numbers@[i] != 0 ==> (r matches Ok(p)
                && p.0 == old(pouch).numbers@[i] && final(board).numbers() == old(board).numbers().push(p.0)
                && best_score_update(
                *old(scorecard),
                *final(scorecard),
                final(board).numbers(),
                card_manager,
                current_working_score,
                p.1,
            ))),
        old(pouch).numbers@.len() > 0 && !old(pouch).numbers@.contains(0u8) ==> r is Ok,
        r matches Ok(p) ==> p.1 >= current_working_score && old(pouch).numbers@.contains(p.0) && (
        old(pouch).numbers@.no_duplicates() ==> !final(pouch).numbers@.contains(p.0)),
{
    if pouch.is_empty() {
        return Err(string_of("Pouch is empty"));
    }
    let ghost before_pouch = pouch.numbers@;
    let ghost before_board = board.numbers();
    let extracted: Number = pouch.extract();
    let ghost i = choose|i: int|
        0 <= i < before_pouch.len() && extracted == before_pouch[i] && pouch.numbers@
            == before_pouch.remove(i);
    proof {
        if numbers_in_play(before_board, before_pouch) {
            lemma_in_play_facts(before_board, before_pouch);
            lemma_draw_keeps_in_play(before_board, before_pouch, i);
        }
        assert(before_pouch.contains(extracted));
        if before_pouch.no_duplicates() {
            assert forall|j: int| 0 <= j < pouch.numbers@.len() implies pouch.numbers@[j] != extracted by {
                if j < i {
                    assert(pouch.numbers@[j] == before_pouch[j]);
                } else {
                    assert(pouch.numbers@[j] == before_pouch[j + 1]);
                }
            }
        }
    }
    if extracted == 0 {
        return Err(string_of("No numbers remaining in pouch"));
    }
    board.push(extracted, scorecard);
    let new_working_score = scorecard.calculate_and_update_best_score(
        board,
        card_manager,
        current_working_score,
    );
    Ok((extracted, new_working_score))
}

} // verus!
