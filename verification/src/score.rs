//! The scorecard: board scoring (lines and BINGO on the six board cards),
//! scoring of the assigned cards, and the record of achievements per level.

use std::collections::HashMap;
use vstd::prelude::*;
use crate::card::{client_for_card, CardAssignmentManager, card_number_list, card_numbers, card_shape_ok, lemma_row_numbers_len, row_number_list, row_numbers, Card, CardAssignment};
use crate::defs::{Number, NUMBERSPERCARD};
use crate::strmap::StrMap;
use crate::board::{board_id, board_id_string, Board};
use crate::layout::{
    all_tombola_numbers, board_card_count, board_card_number, board_card_numbers, card_complete, contains_number,
    first_complete, first_complete_from, is_bingo, lemma_first_complete_from,
    lemma_no_complete_from, on_same_line, same_line,
};

verus! {

broadcast use vstd::seq_lib::group_seq_properties, vstd::std_specs::hash::group_hash_axioms,
    Seq::lemma_filter_push;

/// Who reached a score, with which card, and the numbers that made it.
#[derive(Debug, Default, Clone)]
pub struct ScoreAchievement {
    pub client_id: String,
    pub card_id: String,
    pub numbers: Vec<Number>,
}

/// The published score and the achievements recorded for each score level.
#[derive(Debug, Default)]
pub struct ScoreCard {
    /// Official recorded achievement level.
    pub published_score: Number,
    pub score_map: HashMap<Number, Vec<ScoreAchievement>>,
}

/// Numbers other than `e` on the line of `e` count towards its line score.
pub open spec fn line_pred(e: u8) -> spec_fn(u8) -> bool {
    |n: u8| n != e && same_line(n, e)
}

/// Numbers on the line of `e`, `e` included.
pub open spec fn mark_pred(e: u8) -> spec_fn(u8) -> bool {
    |n: u8| same_line(n, e)
}

/// Numbers of board card `k`.
pub open spec fn card_pred(k: int) -> spec_fn(u8) -> bool {
    |n: u8| board_card_numbers(k).contains(n)
}

/// How many extracted numbers other than `e` lie on the line of `e`.
pub open spec fn line_count(nums: Seq<u8>, e: u8) -> nat {
    nums.filter(line_pred(e)).len()
}

/// The board score after `e` was extracted: 15 on a BINGO, otherwise the
/// line score of `e` when it beats the previous score, else the previous score.
pub open spec fn board_score(nums: Seq<u8>, e: u8, prev: u8) -> u8 {
    if is_bingo(nums) {
        NUMBERSPERCARD
    } else if line_count(nums, e) + 1 > prev {
        (line_count(nums, e) + 1) as u8
    } else {
        prev
    }
}

/// The numbers to mark after `e` was extracted: only on a new achievement,
/// the line of `e` for scores 2 to 5, the completed card for a BINGO.
pub open spec fn board_marks(nums: Seq<u8>, e: u8, prev: u8) -> Seq<u8> {
    let s = board_score(nums, e, prev);
    if s > prev {
        if 2 <= s <= 5 {
            nums.filter(mark_pred(e))
        } else if s == NUMBERSPERCARD && is_bingo(nums) {
            nums.filter(card_pred(first_complete(nums)))
        } else {
            Seq::empty()
        }
    } else {
        Seq::empty()
    }
}

/// Filters `nums` by the board numbers of card `k`.
fn filter_by_card(nums: &[u8], card: &Vec<u8>, k: Ghost<int>) -> (res: Vec<u8>)
    requires
        card@ == board_card_numbers(k@),
    ensures
        res@ == nums@.filter(card_pred(k@)),
{
    let mut res: Vec<u8> = Vec::new();
    let mut i: usize = 0;
    while i < nums.len()
        invariant
            card@ == board_card_numbers(k@),
            i <= nums.len(),
            res@ == nums@.take(i as int).filter(card_pred(k@)),
        decreases nums.len() - i,
    {
        assert(nums@.take(i + 1) == nums@.take(i as int).push(nums@[i as int]));
        if contains_number(card.as_slice(), nums[i]) {
            res.push(nums[i]);
        }
        i = i + 1;
    }
    assert(nums@.take(nums.len() as int) == nums@);
    res
}

/// The numbers of `nums` that have been extracted.
pub open spec fn extracted_in(nums: Seq<u8>, board: Seq<u8>) -> Seq<u8> {
    nums.filter(|n: u8| board.contains(n))
}

/// The row with the most extracted numbers among the first `k` rows (the
/// first such row on a tie): how many, and which.
pub open spec fn best_line(board: Seq<u8>, card: Seq<Seq<Option<u8>>>, k: int) -> (nat, Seq<u8>)
    decreases k,
{
    if k <= 0 {
        (0, Seq::empty())
    } else {
        let (m, b) = best_line(board, card, k - 1);
        let r = extracted_in(row_numbers(card[k - 1]), board);
        if r.len() > m {
            (r.len(), r)
        } else {
            (m, b)
        }
    }
}

/// The score of a card and the numbers that make it: 15 when every number
/// is extracted, else the best of the first three rows when it holds at
/// least two extracted numbers, else 0.
pub open spec fn card_score(board: Seq<u8>, card: Seq<Seq<Option<u8>>>) -> (u8, Seq<u8>) {
    let all = card_numbers(card);
    let ext = extracted_in(all, board);
    if ext.len() == all.len() && all.len() > 0 {
        (NUMBERSPERCARD, ext)
    } else if ext.len() > 0 {
        let (m, best) = best_line(board, card, 3);
        if m >= 2 {
            (m as u8, best)
        } else {
            (0, Seq::empty())
        }
    } else {
        (0, Seq::empty())
    }
}

/// The score of an assigned card.
pub open spec fn entry_score(board: Seq<u8>, e: (String, CardAssignment)) -> (u8, Seq<u8>) {
    card_score(board, e.1.card_data.deep_view())
}

/// The highest card score (0 when there are no cards).
pub open spec fn best_card_score(board: Seq<u8>, cards: Seq<(String, CardAssignment)>) -> u8
    decreases cards.len(),
{
    if cards.len() == 0 {
        0
    } else {
        let rest = best_card_score(board, cards.drop_last());
        let s = entry_score(board, cards.last()).0;
        if s > rest {
            s
        } else {
            rest
        }
    }
}

/// The cards, in order, that score exactly `g` (at least 2) with their numbers.
pub open spec fn winning_details(board: Seq<u8>, cards: Seq<(String, CardAssignment)>, g: u8) -> Seq<
    (Seq<char>, Seq<u8>),
>
    decreases cards.len(),
{
    if cards.len() == 0 {
        Seq::empty()
    } else {
        let rest = winning_details(board, cards.drop_last(), g);
        let (s, nums) = entry_score(board, cards.last());
        if s >= 2 && nums.len() > 0 && s == g {
            rest.push((cards.last().0@, nums))
        } else {
            rest
        }
    }
}

/// The card score result: the best card score and the cards that reach it,
/// when it beats the published score; otherwise 0 and nothing.
pub open spec fn allcards_result(board: Seq<u8>, cards: Seq<(String, CardAssignment)>, published: u8) -> (
    u8,
    Seq<(Seq<char>, Seq<u8>)>,
) {
    let g = best_card_score(board, cards);
    if g > published {
        (g, winning_details(board, cards, g))
    } else {
        (0, Seq::empty())
    }
}

/// An achievement as plain values: client id, card id, numbers.
pub type AchievementView = (Seq<char>, Seq<char>, Seq<u8>);

/// The plain values of an achievement.
pub open spec fn ach_view(a: ScoreAchievement) -> AchievementView {
    (a.client_id@, a.card_id@, a.numbers@)
}

/// The plain values of a list of achievements.
pub open spec fn achs_view(v: Vec<ScoreAchievement>) -> Seq<AchievementView> {
    v@.map_values(|a: ScoreAchievement| ach_view(a))
}

/// The board's own achievement with the given numbers.
pub open spec fn board_ach(nums: Seq<u8>) -> AchievementView {
    (board_id(), board_id(), nums)
}

/// At most the first `n` elements of `s`.
pub open spec fn take_up_to(s: Seq<u8>, n: int) -> Seq<u8> {
    if s.len() >= n {
        s.take(n)
    } else {
        s
    }
}

/// Achievements of the cards whose numbers number exactly `level`.
pub open spec fn achs_exact(
    m: &CardAssignmentManager,
    details: Seq<(Seq<char>, Seq<u8>)>,
    level: int,
) -> Seq<AchievementView>
    decreases details.len(),
{
    if details.len() == 0 {
        Seq::empty()
    } else {
        let rest = achs_exact(m, details.drop_last(), level);
        let d = details.last();
        if d.1.len() == level {
            rest.push((client_for_card(m, d.0), d.0, d.1))
        } else {
            rest
        }
    }
}

/// Achievements of the cards with at least `level` numbers, each cut to its
/// first `level` numbers.
pub open spec fn achs_at_least(
    m: &CardAssignmentManager,
    details: Seq<(Seq<char>, Seq<u8>)>,
    level: int,
) -> Seq<AchievementView>
    decreases details.len(),
{
    if details.len() == 0 {
        Seq::empty()
    } else {
        let rest = achs_at_least(m, details.drop_last(), level);
        let d = details.last();
        if d.1.len() >= level {
            rest.push((client_for_card(m, d.0), d.0, d.1.take(level)))
        } else {
            rest
        }
    }
}

/// The achievements recorded for a BINGO.
pub open spec fn bingo_achs(
    m: &CardAssignmentManager,
    cs: u8,
    details: Seq<(Seq<char>, Seq<u8>)>,
    bs: u8,
    bnums: Seq<u8>,
) -> Seq<AchievementView> {
    if cs == NUMBERSPERCARD {
        achs_exact(m, details, NUMBERSPERCARD as int)
    } else if bs == NUMBERSPERCARD {
        seq![board_ach(bnums)]
    } else {
        Seq::empty()
    }
}

/// The achievements recorded at a line level when `best` (2 to 5 or more)
/// is reached: the actual achievements at `best`, reconstructed ones below.
pub open spec fn level_achs(
    m: &CardAssignmentManager,
    level: int,
    best: u8,
    cs: u8,
    details: Seq<(Seq<char>, Seq<u8>)>,
    bs: u8,
    bnums: Seq<u8>,
) -> Seq<AchievementView> {
    if level == best {
        if cs >= bs {
            achs_exact(m, details, level) + if bs == level {
                seq![board_ach(bnums)]
            } else {
                Seq::<AchievementView>::empty()
            }
        } else if bs == level {
            seq![board_ach(bnums)]
        } else {
            Seq::empty()
        }
    } else {
        achs_at_least(m, details, level) + if bs >= level {
            seq![board_ach(take_up_to(bnums, level))]
        } else {
            Seq::<AchievementView>::empty()
        }
    }
}

/// The board part of the best score: 0 on an empty board, else the board score.
pub open spec fn board_part(nums: Seq<u8>, prev: u8) -> (u8, Seq<u8>) {
    if nums.len() == 0 {
        (0, Seq::empty())
    } else {
        (board_score(nums, nums.last(), prev), board_marks(nums, nums.last(), prev))
    }
}

/// How `calculate_and_update_best_score` moves a scorecard from `old_sc` to
/// `new_sc` and what it returns: the best of the board and card scores is
/// published and returned when it beats `cws`; the achievements of a new
/// best score are recorded; recorded levels are kept (only a BINGO record
/// is ever replaced).
pub open spec fn best_score_update(
    old_sc: ScoreCard,
    new_sc: ScoreCard,
    nums: Seq<u8>,
    m: &CardAssignmentManager,
    cws: u8,
    ret: u8,
) -> bool {
                let prev = old_sc.published_score;
                let (bs, bnums) = board_part(nums, prev);
                let (cs, details) = allcards_result(
                    nums,
                    m.assignments.entries(),
                    prev,
                );
                let best = if cs > bs {
                    cs
                } else {
                    bs
                };
                &&& ret == if best > cws {
                    best
                } else {
                    cws
                }
                &&& new_sc.published_score == if best > cws {
                    best
                } else {
                    prev
                }
                &&& forall|k: u8|
                    #[trigger] old_sc.score_map@.contains_key(k) ==> new_sc.score_map@.contains_key(k)
                &&& forall|k: u8|
                    #[trigger] old_sc.score_map@.contains_key(k) && !(k == NUMBERSPERCARD && best
                        == NUMBERSPERCARD && best > cws) ==> new_sc.score_map@[k]
                        == old_sc.score_map@[k]
                &&& !(best >= 2 && best > cws) ==> new_sc.score_map@
                    == old_sc.score_map@
                &&& (best >= 2 && best > cws && best == NUMBERSPERCARD)
                    ==> {
                    let achs = bingo_achs(m, cs, details, bs, bnums);
                    &&& achs.len() > 0 ==> new_sc.score_map@.contains_key(NUMBERSPERCARD)
                        && achs_view(new_sc.score_map@[NUMBERSPERCARD]) == achs
                    &&& forall|k: u8|
                        k != NUMBERSPERCARD || achs.len() == 0 ==> (#[trigger] new_sc.score_map@.contains_key(k)
                            <==> old_sc.score_map@.contains_key(k))
                }
                &&& (best >= 2 && best > cws && best != NUMBERSPERCARD)
                    ==> forall|k: u8|
                    #[trigger] new_sc.score_map@.contains_key(k) <==> (old_sc.score_map@.contains_key(k)
                        || (2 <= k <= best && level_achs(m, k as int, best, cs, details, bs, bnums).len() > 0))
                &&& (best >= 2 && best > cws && best != NUMBERSPERCARD)
                    ==> forall|k: u8|
                    #[trigger] new_sc.score_map@.contains_key(k) && !old_sc.score_map@.contains_key(k)
                        ==> achs_view(new_sc.score_map@[k]) == level_achs(
                        m,
                        k as int,
                        best,
                        cs,
                        details,
                        bs,
                        bnums,
                    )
}

/// The published score never decreases: an update of the score card after
/// an extraction publishes at least the score it had (for a score card whose
/// score is at most a BINGO's, updated with a working score no higher, on a
/// board of fewer than 255 numbers).
pub proof fn law_published_score_never_decreases(
    old_sc: ScoreCard,
    new_sc: ScoreCard,
    nums: Seq<u8>,
    m: &CardAssignmentManager,
    cws: u8,
    ret: u8,
)
    requires
        best_score_update(old_sc, new_sc, nums, m, cws, ret),
        old_sc.published_score <= NUMBERSPERCARD,
        cws <= old_sc.published_score,
        nums.len() < 255,
    ensures
        new_sc.published_score >= old_sc.published_score,
{
    broadcast use vstd::seq_lib::group_filter_ensures;

    let prev = old_sc.published_score;
    let bs = board_part(nums, prev).0;
    let cs = allcards_result(nums, m.assignments.entries(), prev).0;
    assert(cs == 0 || cs > prev);
    if nums.len() > 0 {
        assert(bs == board_score(nums, nums.last(), prev));
        assert(bs >= prev);
    } else {
        assert(bs == 0);
    }
}

/// Achievements are never lost: every score level recorded before an update
/// of the score card is still recorded after it.
pub proof fn law_recorded_levels_kept(
    old_sc: ScoreCard,
    new_sc: ScoreCard,
    nums: Seq<u8>,
    m: &CardAssignmentManager,
    cws: u8,
    ret: u8,
)
    requires
        best_score_update(old_sc, new_sc, nums, m, cws, ret),
    ensures
        forall|k: u8| #[trigger] old_sc.score_map@.contains_key(k) ==> new_sc.score_map@.contains_key(k),
{
}

/// The best card score is at least the score of each card.
proof fn lemma_best_card_score_covers(board: Seq<u8>, cards: Seq<(String, CardAssignment)>, i: int)
    requires
        0 <= i < cards.len(),
    ensures
        best_card_score(board, cards) >= entry_score(board, cards[i]).0,
    decreases cards.len(),
{
    if i < cards.len() - 1 {
        lemma_best_card_score_covers(board, cards.drop_last(), i);
        assert(cards.drop_last()[i] == cards[i]);
    }
}

/// The best card score, unless 0, is the score of one of the cards.
proof fn lemma_best_card_score_reached(board: Seq<u8>, cards: Seq<(String, CardAssignment)>)
    ensures
        best_card_score(board, cards) == 0 || exists|i: int|
            0 <= i < cards.len() && #[trigger] entry_score(board, cards[i]).0 == best_card_score(board, cards),
    decreases cards.len(),
{
    if cards.len() > 0 {
        let p = cards.drop_last();
        lemma_best_card_score_reached(board, p);
        if best_card_score(board, cards) != 0 && entry_score(board, cards.last()).0 != best_card_score(board, cards) {
            let i = choose|i: int| 0 <= i < p.len() && #[trigger] entry_score(board, p[i]).0 == best_card_score(board, p);
            assert(p[i] == cards[i]);
        }
    }
}

/// Only a reached score is published: after an update of the score card the
/// published score is the one published before, the board's score for its
/// last number, or the score of one of the assigned cards.
pub proof fn law_published_score_is_reached(
    old_sc: ScoreCard,
    new_sc: ScoreCard,
    nums: Seq<u8>,
    m: &CardAssignmentManager,
    cws: u8,
    ret: u8,
)
    requires
        best_score_update(old_sc, new_sc, nums, m, cws, ret),
    ensures
        new_sc.published_score == old_sc.published_score || (nums.len() > 0 && new_sc.published_score
            == board_score(nums, nums.last(), old_sc.published_score)) || exists|i: int|
            0 <= i < m.assignments.entries().len() && #[trigger] entry_score(nums, m.assignments.entries()[i]).0
                == new_sc.published_score,
{
    lemma_best_card_score_reached(nums, m.assignments.entries());
}

/// Card scores are published: after an update of the score card, the
/// published score and the returned score are at least the score of every
/// assigned card that beats both the score published before and the working
/// score; in particular at least the best card score when that beats both.
pub proof fn law_published_score_covers_cards(
    old_sc: ScoreCard,
    new_sc: ScoreCard,
    nums: Seq<u8>,
    m: &CardAssignmentManager,
    cws: u8,
    ret: u8,
)
    requires
        best_score_update(old_sc, new_sc, nums, m, cws, ret),
    ensures
        forall|i: int|
            0 <= i < m.assignments.entries().len() && #[trigger] entry_score(nums, m.assignments.entries()[i]).0
                > old_sc.published_score && entry_score(nums, m.assignments.entries()[i]).0 > cws
                ==> new_sc.published_score >= entry_score(nums, m.assignments.entries()[i]).0
                && ret >= entry_score(nums, m.assignments.entries()[i]).0,
        best_card_score(nums, m.assignments.entries()) > old_sc.published_score && best_card_score(
            nums,
            m.assignments.entries(),
        ) > cws ==> new_sc.published_score >= best_card_score(nums, m.assignments.entries()) && ret
            >= best_card_score(nums, m.assignments.entries()),
{
    let cards = m.assignments.entries();
    assert forall|i: int|
        0 <= i < cards.len() && #[trigger] entry_score(nums, cards[i]).0 > old_sc.published_score && entry_score(
            nums,
            cards[i],
        ).0 > cws implies new_sc.published_score >= entry_score(nums, cards[i]).0 && ret >= entry_score(
        nums,
        cards[i],
    ).0 by {
        lemma_best_card_score_covers(nums, cards, i);
    }
}

/// Counting `e` itself on its line: one more than the other numbers on it
/// when `e` is among the numbers (which hold no number twice).
proof fn lemma_mark_count(nums: Seq<u8>, e: u8)
    requires
        nums.no_duplicates(),
    ensures
        nums.filter(mark_pred(e)).len() == line_count(nums, e) + if nums.contains(e) {
            1nat
        } else {
            0nat
        },
    decreases nums.len(),
{
    if nums.len() > 0 {
        let p = nums.drop_last();
        let x = nums.last();
        assert(nums == p.push(x));
        assert(p.no_duplicates()) by {
            assert forall|i: int, j: int| 0 <= i < p.len() && 0 <= j < p.len() && i != j implies p[i] != p[j] by {
                assert(p[i] == nums[i] && p[j] == nums[j]);
            }
        }
        lemma_mark_count(p, e);
        if x == e {
            assert(!p.contains(e)) by {
                if p.contains(e) {
                    let i = choose|i: int| 0 <= i < p.len() && p[i] == e;
                    assert(nums[i] == nums[nums.len() - 1]);
                }
            }
        } else {
            assert(nums.contains(e) == p.contains(e)) by {
                if nums.contains(e) {
                    let i = choose|i: int| 0 <= i < nums.len() && nums[i] == e;
                    assert(p[i] == e);
                }
            }
        }
    }
}

/// A new line prize on the board (a score of 2 to 5 above the previous one)
/// marks the line of the extracted number: the number itself and the board
/// numbers on its line, as many as the new score, and nothing else.
pub proof fn law_new_line_marks_the_line(nums: Seq<u8>, e: u8, prev: u8)
    requires
        nums.no_duplicates(),
        nums.contains(e),
        nums.len() < 255,
        2 <= board_score(nums, e, prev) <= 5,
        board_score(nums, e, prev) > prev,
    ensures
        board_marks(nums, e, prev).contains(e),
        board_marks(nums, e, prev).len() == board_score(nums, e, prev),
        forall|x: u8| #[trigger]
            board_marks(nums, e, prev).contains(x) ==> nums.contains(x) && same_line(x, e),
{
    broadcast use vstd::seq_lib::group_filter_ensures, Seq::lemma_filter_contains_rev;

    lemma_mark_count(nums, e);
    assert(line_count(nums, e) <= nums.len());
    assert(!is_bingo(nums));
    assert(board_marks(nums, e, prev) == nums.filter(mark_pred(e)));
    let i = choose|i: int| 0 <= i < nums.len() && nums[i] == e;
    assert(mark_pred(e)(nums[i]));
    assert forall|x: u8| #[trigger] board_marks(nums, e, prev).contains(x) implies nums.contains(x) && same_line(
        x,
        e,
    ) by {
        let f = nums.filter(mark_pred(e));
        let j = choose|j: int| 0 <= j < f.len() && f[j] == x;
        assert(mark_pred(e)(f[j]));
    }
}

/// Filtering keeps a sequence free of duplicates.
proof fn lemma_filter_no_duplicates(s: Seq<u8>, pred: spec_fn(u8) -> bool)
    requires
        s.no_duplicates(),
    ensures
        s.filter(pred).no_duplicates(),
    decreases s.len(),
{
    broadcast use Seq::lemma_filter_contains_rev;

    if s.len() > 0 {
        let p = s.drop_last();
        let x = s.last();
        assert(s == p.push(x));
        assert(p.no_duplicates()) by {
            assert forall|i: int, j: int| 0 <= i < p.len() && 0 <= j < p.len() && i != j implies p[i] != p[j] by {
                assert(p[i] == s[i] && p[j] == s[j]);
            }
        }
        lemma_filter_no_duplicates(p, pred);
        if pred(x) {
            let f = p.filter(pred);
            assert(!p.contains(x)) by {
                if p.contains(x) {
                    let i = choose|i: int| 0 <= i < p.len() && p[i] == x;
                    assert(s[i] == s[s.len() - 1]);
                }
            }
            assert(!f.contains(x));
            let g = f.push(x);
            assert forall|i: int, j: int| 0 <= i < g.len() && 0 <= j < g.len() && i != j implies g[i] != g[j] by {
                if i < f.len() && j < f.len() {
                    assert(g[i] == f[i] && g[j] == f[j]);
                } else if i < f.len() {
                    assert(g[i] == f[i]);
                } else if j < f.len() {
                    assert(g[j] == f[j]);
                }
            }
        }
    }
}

/// The fifteen numbers of a board card are distinct.
proof fn lemma_board_card_distinct(k: int)
    requires
        0 <= k < 6,
    ensures
        board_card_numbers(k).no_duplicates(),
        board_card_numbers(k).len() == 15,
{
    let c = board_card_numbers(k);
    assert forall|i: int, j: int| 0 <= i < c.len() && 0 <= j < c.len() && i != j implies c[i] != c[j] by {
        let vi = 1 + ((k / 2) * 3 + i / 5) * 10 + (k % 2) * 5 + i % 5;
        let vj = 1 + ((k / 2) * 3 + j / 5) * 10 + (k % 2) * 5 + j % 5;
        assert(1 <= vi <= 90 && 1 <= vj <= 90);
        assert(c[i] == vi && c[j] == vj);
        assert(i == 5 * (i / 5) + i % 5 && j == 5 * (j / 5) + j % 5);
        if i / 5 != j / 5 {
            assert(vi != vj);
        } else {
            assert(i % 5 != j % 5);
        }
    }
}

/// A BINGO on the board above the previous score is scored 15 and marks
/// the fifteen numbers of a complete board card, and only those.
pub proof fn law_bingo_marks_a_board_card(nums: Seq<u8>, e: u8, prev: u8)
    requires
        nums.no_duplicates(),
        is_bingo(nums),
        prev < NUMBERSPERCARD,
    ensures
        board_score(nums, e, prev) == NUMBERSPERCARD,
        board_marks(nums, e, prev).len() == 15,
        exists|k: int|
            0 <= k < 6 && #[trigger] card_complete(nums, k) && forall|x: u8|
                #[trigger] board_marks(nums, e, prev).contains(x) <==> board_card_numbers(k).contains(x),
{
    broadcast use vstd::seq_lib::group_filter_ensures, Seq::lemma_filter_contains_rev;

    crate::layout::lemma_first_complete_is_complete(nums, 0);
    let k = first_complete(nums);
    let c = board_card_numbers(k);
    let f = nums.filter(card_pred(k));
    assert(board_marks(nums, e, prev) == f);
    assert forall|x: u8| #[trigger] f.contains(x) <==> c.contains(x) by {
        if f.contains(x) {
            let j = choose|j: int| 0 <= j < f.len() && f[j] == x;
            assert(card_pred(k)(f[j]));
        }
        if c.contains(x) {
            let i = choose|i: int| 0 <= i < 15 && c[i] == x;
            assert(nums.contains(board_card_number(k, i)));
            let j = choose|j: int| 0 <= j < nums.len() && nums[j] == x;
            assert(card_pred(k)(nums[j]));
        }
    }
    lemma_board_card_distinct(k);
    lemma_filter_no_duplicates(nums, card_pred(k));
    assert(f.to_set() =~= c.to_set());
    f.unique_seq_to_set();
    c.unique_seq_to_set();
}

/// A row holds at most as many extracted numbers as numbers.
proof fn lemma_best_line_bound(board: Seq<u8>, card: Seq<Seq<Option<u8>>>, k: int)
    requires
        forall|q: int| 0 <= q < k ==> #[trigger] row_numbers(card[q]).len() <= 15,
    ensures
        best_line(board, card, k).0 <= 15,
    decreases k,
{
    broadcast use vstd::seq_lib::group_filter_ensures;

    if k > 0 {
        lemma_best_line_bound(board, card, k - 1);
        assert(row_numbers(card[k - 1]).len() <= 15);
    }
}

/// The best of the first `k` rows counts at least as many extracted numbers
/// as each of them.
proof fn lemma_best_line_covers(board: Seq<u8>, card: Seq<Seq<Option<u8>>>, k: int, r: int)
    requires
        0 <= r < k,
    ensures
        best_line(board, card, k).0 >= extracted_in(row_numbers(card[r]), board).len(),
    decreases k,
{
    if r < k - 1 {
        lemma_best_line_covers(board, card, k - 1, r);
    }
}

/// A card holds at least as many extracted numbers as each of its rows.
proof fn lemma_card_extracted_covers_row(board: Seq<u8>, card: Seq<Seq<Option<u8>>>, r: int)
    requires
        0 <= r < card.len(),
    ensures
        extracted_in(card_numbers(card), board).len() >= extracted_in(row_numbers(card[r]), board).len(),
    decreases card.len(),
{
    let p = card.drop_last();
    let a = card_numbers(p);
    let b = row_numbers(card.last());
    assert(card_numbers(card) == a + b);
    Seq::filter_distributes_over_add(a, b, |n: u8| board.contains(n));
    assert(extracted_in(card_numbers(card), board) == extracted_in(a, board) + extracted_in(b, board));
    if r < card.len() - 1 {
        lemma_card_extracted_covers_row(board, p, r);
        assert(p[r] == card[r]);
    }
}

/// The best of the first `k` rows, when it counts any, is one of them.
proof fn lemma_best_line_is_a_row(board: Seq<u8>, card: Seq<Seq<Option<u8>>>, k: int)
    ensures
        best_line(board, card, k).0 == 0 || exists|r: int|
            0 <= r < k && #[trigger] extracted_in(row_numbers(card[r]), board) == best_line(board, card, k).1
                && best_line(board, card, k).1.len() == best_line(board, card, k).0,
    decreases k,
{
    if k > 0 {
        lemma_best_line_is_a_row(board, card, k - 1);
    }
}

/// Every row of a card counts: a row with two or more extracted numbers
/// gives the card a score of at least that many (for a card whose first
/// three rows hold at most fifteen numbers each).
pub proof fn law_card_score_counts_every_row(board: Seq<u8>, card: Seq<Seq<Option<u8>>>, r: int)
    requires
        card_shape_ok(card),
        0 <= r < 3,
        forall|q: int| 0 <= q < 3 ==> #[trigger] row_numbers(card[q]).len() <= 15,
        extracted_in(row_numbers(card[r]), board).len() >= 2,
    ensures
        card_score(board, card).0 >= extracted_in(row_numbers(card[r]), board).len(),
{
    broadcast use vstd::seq_lib::group_filter_ensures;

    let row = extracted_in(row_numbers(card[r]), board);
    assert(row_numbers(card[r]).len() <= 15);
    assert(row.len() <= 15);
    lemma_card_extracted_covers_row(board, card, r);
    lemma_best_line_covers(board, card, 3, r);
    lemma_best_line_bound(board, card, 3);
}

/// A card that is not complete scores 0 or one of its first three rows: the
/// extracted numbers of that row, as many as the score, and at least two.
pub proof fn law_card_score_is_a_row(board: Seq<u8>, card: Seq<Seq<Option<u8>>>)
    requires
        card_shape_ok(card),
        forall|q: int| 0 <= q < 3 ==> #[trigger] row_numbers(card[q]).len() <= 15,
        extracted_in(card_numbers(card), board).len() < card_numbers(card).len(),
    ensures
        card_score(board, card).0 == 0 || exists|r: int|
            0 <= r < 3 && #[trigger] extracted_in(row_numbers(card[r]), board) == card_score(board, card).1
                && card_score(board, card).1.len() == card_score(board, card).0 && card_score(board, card).0 >= 2,
{
    lemma_best_line_is_a_row(board, card, 3);
    lemma_best_line_bound(board, card, 3);
}

/// The view of a list of card details.
pub open spec fn details_view(d: Seq<(String, Vec<u8>)>) -> Seq<(Seq<char>, Seq<u8>)> {
    d.map_values(|p: (String, Vec<u8>)| (p.0@, p.1@))
}

/// The details whose recorded score is `g`.
pub open spec fn keep_scored(d: Seq<(String, Vec<u8>)>, s: Seq<u8>, g: u8) -> Seq<(String, Vec<u8>)>
    decreases d.len(),
{
    if d.len() == 0 || s.len() == 0 {
        Seq::empty()
    } else {
        let rest = keep_scored(d.drop_last(), s.drop_last(), g);
        if s.last() == g {
            rest.push(d.last())
        } else {
            rest
        }
    }
}

proof fn lemma_keep_scored_push(
    d: Seq<(String, Vec<u8>)>,
    s: Seq<u8>,
    e: (String, Vec<u8>),
    sc: u8,
    g: u8,
)
    ensures
        details_view(keep_scored(d.push(e), s.push(sc), g)) == if sc == g {
            details_view(keep_scored(d, s, g)).push((e.0@, e.1@))
        } else {
            details_view(keep_scored(d, s, g))
        },
{
    assert(d.push(e).drop_last() == d);
    assert(s.push(sc).drop_last() == s);
    let k = keep_scored(d, s, g);
    assert(details_view(k.push(e)) =~= details_view(k).push((e.0@, e.1@)));
}

/// A copy of a byte vector.
pub fn copy_bytes(v: &Vec<u8>) -> (r: Vec<u8>)
    ensures
        r@ == v@,
{
    let mut r: Vec<u8> = Vec::new();
    let mut i: usize = 0;
    while i < v.len()
        invariant
            i <= v@.len(),
            r@ == v@.take(i as int),
        decreases v@.len() - i,
    {
        r.push(v[i]);
        i = i + 1;
    }
    r
}

/// The details whose recorded score is `g`, copied.
fn keep_scored_exec(d: &Vec<(String, Vec<u8>)>, s: &Vec<u8>, g: u8) -> (r: Vec<(String, Vec<u8>)>)
    requires
        d@.len() == s@.len(),
    ensures
        details_view(r@) == details_view(keep_scored(d@, s@, g)),
{
    let mut r: Vec<(String, Vec<u8>)> = Vec::new();
    let mut i: usize = 0;
    while i < d.len()
        invariant
            d@.len() == s@.len(),
            i <= d@.len(),
            details_view(r@) == details_view(keep_scored(d@.take(i as int), s@.take(i as int), g)),
        decreases d@.len() - i,
    {
        proof {
            assert(d@.take(i + 1) == d@.take(i as int).push(d@[i as int]));
            assert(s@.take(i + 1) == s@.take(i as int).push(s@[i as int]));
            lemma_keep_scored_push(d@.take(i as int), s@.take(i as int), d@[i as int], s@[i as int], g);
        }
        if s[i] == g {
            let ghost before = r@;
            let e = (d[i].0.clone(), copy_bytes(&d[i].1));
            r.push(e);
            proof {
                assert(details_view(r@) =~= details_view(before).push((e.0@, e.1@)));
            }
        }
        i = i + 1;
    }
    proof {
        assert(d@.take(d@.len() as int) == d@);
        assert(s@.take(s@.len() as int) == s@);
    }
    r
}

/// The board's own achievement with a copy of the given numbers.
fn board_achievement(nums: &Vec<u8>) -> (a: ScoreAchievement)
    ensures
        ach_view(a) == board_ach(nums@),
{
    ScoreAchievement { client_id: board_id_string(), card_id: board_id_string(), numbers: copy_bytes(nums) }
}

/// The first `n` numbers of `nums` (all of them when there are fewer).
fn copy_prefix(nums: &Vec<u8>, n: usize) -> (r: Vec<u8>)
    ensures
        r@ == take_up_to(nums@, n as int),
{
    let mut r: Vec<u8> = Vec::new();
    let mut i: usize = 0;
    while i < nums.len() && i < n
        invariant
            i <= nums@.len(),
            i <= n,
            r@ == nums@.take(i as int),
        decreases nums@.len() - i,
    {
        r.push(nums[i]);
        i = i + 1;
    }
    assert(r@ =~= take_up_to(nums@, n as int));
    r
}

/// Achievements of the cards of `details` with exactly `level` numbers
/// (`exact`), or with at least `level` numbers cut to the first `level`.
fn card_achievements(
    m: &CardAssignmentManager,
    details: &Vec<(String, Vec<u8>)>,
    level: usize,
    exact: bool,
) -> (v: Vec<ScoreAchievement>)
    requires
        m.wf(),
    ensures
        exact ==> achs_view(v) == achs_exact(m, details_view(details@), level as int),
        !exact ==> achs_view(v) == achs_at_least(m, details_view(details@), level as int),
{
    let ghost dv = details_view(details@);
    let mut v: Vec<ScoreAchievement> = Vec::new();
    let mut i: usize = 0;
    while i < details.len()
        invariant
            m.wf(),
            dv == details_view(details@),
            i <= details@.len(),
            exact ==> achs_view(v) == achs_exact(m, dv.take(i as int), level as int),
            !exact ==> achs_view(v) == achs_at_least(m, dv.take(i as int), level as int),
        decreases details@.len() - i,
    {
        assert(dv.take(i + 1).drop_last() == dv.take(i as int));
        assert(dv.take(i + 1).last() == dv[i as int]);
        let ghost before = v@;
        let numbers = &details[i].1;
        let card_id = &details[i].0;
        if exact {
            if numbers.len() == level {
                let a = ScoreAchievement {
                    client_id: m.get_client_id_for_card(card_id.as_str()),
                    card_id: card_id.clone(),
                    numbers: copy_bytes(numbers),
                };
                v.push(a);
                assert(achs_view(v) =~= before.map_values(|a: ScoreAchievement| ach_view(a)).push(
                    ach_view(a),
                ));
            }
        } else {
            if numbers.len() >= level {
                let a = ScoreAchievement {
                    client_id: m.get_client_id_for_card(card_id.as_str()),
                    card_id: card_id.clone(),
                    numbers: copy_prefix(numbers, level),
                };
                v.push(a);
                assert(achs_view(v) =~= before.map_values(|a: ScoreAchievement| ach_view(a)).push(
                    ach_view(a),
                ));
            }
        }
        i = i + 1;
    }
    assert(dv.take(details@.len() as int) == dv);
    v
}

/// Keeps the numbers of `nums` found on `board`.
fn keep_extracted(nums: &Vec<u8>, board: &[u8]) -> (res: Vec<u8>)
    ensures
        res@ == extracted_in(nums@, board@),
{
    let mut res: Vec<u8> = Vec::new();
    let mut i: usize = 0;
    while i < nums.len()
        invariant
            i <= nums@.len(),
            res@ == extracted_in(nums@.take(i as int), board@),
        decreases nums@.len() - i,
    {
        assert(nums@.take(i + 1) == nums@.take(i as int).push(nums@[i as int]));
        if contains_number(board, nums[i]) {
            res.push(nums[i]);
        }
        i = i + 1;
    }
    assert(nums@.take(nums@.len() as int) == nums@);
    res
}

/// The score of a card, and the numbers that make it.
pub fn calculate_card_score(board: &[u8], card: &Card) -> (res: (u8, Vec<u8>))
    requires
        card_shape_ok(card.deep_view()),
    ensures
        res.0 == card_score(board@, card.deep_view()).0,
        res.1@ == card_score(board@, card.deep_view()).1,
{
    let ghost c = card.deep_view();
    let card_nums = card_number_list(card);
    let extracted = keep_extracted(&card_nums, board);
    proof {
        extracted_in(card_nums@, board@).lemma_filter_len(|n: u8| board@.contains(n));
    }
    if extracted.len() == card_nums.len() && card_nums.len() > 0 {
        (NUMBERSPERCARD, extracted)
    } else if extracted.len() > 0 {
        let mut max_line_score: usize = 0;
        let mut best_line_numbers: Vec<u8> = Vec::new();
        let mut row_index: usize = 0;
        while row_index < 3
            invariant
                c == card.deep_view(),
                card_shape_ok(c),
                row_index <= 3,
                max_line_score as nat == best_line(board@, c, row_index as int).0,
                best_line_numbers@ == best_line(board@, c, row_index as int).1,
            decreases 3 - row_index,
        {
            let row_nums = row_number_list(&card[row_index]);
            let row_extracted = keep_extracted(&row_nums, board);
            proof {
                lemma_row_numbers_len(c[row_index as int]);
                row_nums@.lemma_filter_len(|n: u8| board@.contains(n));
            }
            if row_extracted.len() > max_line_score {
                max_line_score = row_extracted.len();
                best_line_numbers = row_extracted;
            }
            row_index = row_index + 1;
        }
        if max_line_score >= 2 {
            (max_line_score as u8, best_line_numbers)
        } else {
            (0, Vec::new())
        }
    } else {
        (0, Vec::new())
    }
}

impl Clone for ScoreCard {
    fn clone(&self) -> (s: Self)
        ensures
            s.published_score == self.published_score,
            s.score_map@ == self.score_map@,
    {
        ScoreCard { published_score: self.published_score, score_map: self.score_map.clone() }
    }
}

impl ScoreCard {
    pub fn new() -> (s: Self)
        ensures
            s.published_score == 0,
            s.score_map@ == Map::<Number, Vec<ScoreAchievement>>::empty(),
    {
        ScoreCard { published_score: 0, score_map: HashMap::new() }
    }

    pub fn get_scorecard(&self) -> (s: Number)
        ensures
            s == self.published_score,
    {
        self.published_score
    }

    pub fn get_scoremap(&self) -> (m: &HashMap<Number, Vec<ScoreAchievement>>)
        ensures
            m@ == self.score_map@,
    {
        &self.score_map
    }

    pub fn with_score(score: Number) -> (s: Self)
        ensures
            s.published_score == score,
            s.score_map@ == Map::<Number, Vec<ScoreAchievement>>::empty(),
    {
        ScoreCard { published_score: score, score_map: HashMap::new() }
    }

    pub fn update_scorecard(&mut self, score: Number)
        ensures
            final(self).published_score == score,
            final(self).score_map@ == old(self).score_map@,
    {
        self.published_score = score;
    }

    pub fn update_score_map(&mut self, score_idx: Number, achievements: Vec<ScoreAchievement>)
        ensures
            final(self).published_score == old(self).published_score,
            final(self).score_map@ == old(self).score_map@.insert(score_idx, achievements),
    {
        self.score_map.insert(score_idx, achievements);
    }

    /// The best card score, and the cards reaching it with the numbers that
    /// make it, when that score beats the published score.
    pub fn allcards_calculate_score(
        &self,
        board_numbers: &[Number],
        card_assignments: &StrMap<CardAssignment>,
    ) -> (res: (Number, Vec<(String, Vec<Number>)>))
        requires
            forall|i: int|
                0 <= i < card_assignments.entries().len() ==> card_shape_ok(
                    #[trigger] card_assignments.entries()[i].1.card_data.deep_view(),
                ),
        ensures
            res.0 == allcards_result(board_numbers@, card_assignments.entries(), self.published_score).0,
            details_view(res.1@) == allcards_result(
                board_numbers@,
                card_assignments.entries(),
                self.published_score,
            ).1,
    {
        let ghost cards = card_assignments.entries();
        let current_published_score = self.published_score;
        let mut global_score: u8 = 0;
        let mut card_details: Vec<(String, Vec<u8>)> = Vec::new();
        let mut card_scores: Vec<u8> = Vec::new();
        let mut i: usize = 0;
        while i < card_assignments.len()
            invariant
                cards == card_assignments.entries(),
                forall|j: int|
                    0 <= j < cards.len() ==> card_shape_ok(
                        #[trigger] cards[j].1.card_data.deep_view(),
                    ),
                i <= cards.len(),
                global_score == best_card_score(board_numbers@, cards.take(i as int)),
                card_details@.len() == card_scores@.len(),
                forall|g: u8|
                    winning_details(board_numbers@, cards.take(i as int), g) == details_view(
                        keep_scored(card_details@, card_scores@, g),
                    ),
            decreases cards.len() - i,
        {
            let key = card_assignments.key_at(i);
            let assignment = card_assignments.value_at(i);
            let (card_score, contributing_numbers) = calculate_card_score(
                board_numbers,
                &assignment.card_data,
            );
            proof {
                assert(cards.take(i + 1).drop_last() == cards.take(i as int));
                assert(cards.take(i + 1).last() == cards[i as int]);
            }
            if card_score > global_score {
                global_score = card_score;
            }
            if card_score >= 2 && contributing_numbers.len() > 0 {
                let ghost before_d = card_details@;
                let ghost before_s = card_scores@;
                card_details.push((key.clone(), contributing_numbers));
                card_scores.push(card_score);
                proof {
                    assert forall|g: u8|
                        winning_details(board_numbers@, cards.take(i + 1), g) == details_view(
                            keep_scored(card_details@, card_scores@, g),
                        ) by {
                        lemma_keep_scored_push(before_d, before_s, card_details@.last(), card_score, g);
                        assert(card_details@ == before_d.push(card_details@.last()));
                        assert(card_scores@ == before_s.push(card_score));
                        assert(winning_details(board_numbers@, cards.take(i + 1), g) == if card_score
                            == g {
                            winning_details(board_numbers@, cards.take(i as int), g).push(
                                (key@, contributing_numbers@),
                            )
                        } else {
                            winning_details(board_numbers@, cards.take(i as int), g)
                        });
                    }
                }
            } else {
                proof {
                    assert forall|g: u8|
                        winning_details(board_numbers@, cards.take(i + 1), g) == details_view(
                            keep_scored(card_details@, card_scores@, g),
                        ) by {
                        assert(winning_details(board_numbers@, cards.take(i + 1), g)
                            == winning_details(board_numbers@, cards.take(i as int), g));
                    }
                }
            }
            i = i + 1;
        }
        proof {
            assert(cards.take(cards.len() as int) == cards);
        }
        if global_score > current_published_score {
            (global_score, keep_scored_exec(&card_details, &card_scores, global_score))
        } else {
            (0, Vec::new())
        }
    }

    /// Scores the board and every assigned card, records the achievements of
    /// a new best score in the score map (never dropping a recorded level),
    /// and publishes the best score when it beats `current_working_score`.
    /// Returns the new working score.
    pub fn calculate_and_update_best_score(
        &mut self,
        board: &Board,
        card_manager: &CardAssignmentManager,
        current_working_score: Number,
    ) -> (ret: Number)
        requires
            board.wf(),
            card_manager.wf(),
        ensures
            best_score_update(*old(self), *final(self), board.numbers(), card_manager, current_working_score, ret),
    {
        let ghost prev = self.published_score;
        let ghost old_map = self.score_map@;
        let board_numbers = board.get_numbers();
        let card_assignments = card_manager.get_all_assignments();
        let (boardscore_value, board_numbers_contributing) = self.board_calculate_score(board_numbers.as_slice());
        let (allcardscore_value, card_details) = self.allcards_calculate_score(board_numbers.as_slice(), card_assignments);
        let ghost details = details_view(card_details@);
        let bestscore = if allcardscore_value > boardscore_value {
            allcardscore_value
        } else {
            boardscore_value
        };

        if bestscore >= 2 && bestscore > current_working_score {
            if bestscore == NUMBERSPERCARD {
                let bingo_achievements = if allcardscore_value == NUMBERSPERCARD {
                    card_achievements(card_manager, &card_details, NUMBERSPERCARD as usize, true)
                } else if boardscore_value == NUMBERSPERCARD {
                    let a = board_achievement(&board_numbers_contributing);
                    let mut v: Vec<ScoreAchievement> = Vec::new();
                    v.push(a);
                    assert(achs_view(v) =~= seq![board_ach(board_numbers_contributing@)]);
                    v
                } else {
                    Vec::new()
                };
                proof {
                    assert(achs_view(bingo_achievements).len() == bingo_achievements@.len());
                }
                if bingo_achievements.len() > 0 {
                    self.score_map.insert(NUMBERSPERCARD, bingo_achievements);
                }
            } else {
                let mut achievement_level: u16 = 2;
                while achievement_level <= bestscore as u16
                    invariant
                        2 <= achievement_level <= bestscore as u16 + 1,
                        bestscore >= 2,
                        bestscore != NUMBERSPERCARD,
                        card_manager.wf(),
                        details == details_view(card_details@),
                        forall|k: u8|
                            #[trigger] old_map.contains_key(k) ==> self.score_map@.contains_key(k)
                                && self.score_map@[k] == old_map[k],
                        forall|k: u8|
                            #[trigger] self.score_map@.contains_key(k) <==> (old_map.contains_key(k) || (2
                                <= k < achievement_level && level_achs(
                                card_manager,
                                k as int,
                                bestscore,
                                allcardscore_value,
                                details,
                                boardscore_value,
                                board_numbers_contributing@,
                            ).len() > 0)),
                        forall|k: u8|
                            #[trigger] self.score_map@.contains_key(k) && !old_map.contains_key(k)
                                ==> achs_view(self.score_map@[k]) == level_achs(
                                card_manager,
                                k as int,
                                bestscore,
                                allcardscore_value,
                                details,
                                boardscore_value,
                                board_numbers_contributing@,
                            ),
                    decreases bestscore as u16 + 1 - achievement_level,
                {
                    let level = achievement_level as u8;
                    if !self.score_map.contains_key(&level) {
                        assert(!old_map.contains_key(level));
                        let level_achievements = if level == bestscore {
                            if allcardscore_value >= boardscore_value {
                                let mut achievements = card_achievements(
                                    card_manager,
                                    &card_details,
                                    level as usize,
                                    true,
                                );
                                if boardscore_value == level {
                                    let ghost before = achievements@;
                                    let a = board_achievement(&board_numbers_contributing);
                                    achievements.push(a);
                                    assert(achs_view(achievements) =~= before.map_values(
                                        |a: ScoreAchievement| ach_view(a),
                                    ) + seq![board_ach(board_numbers_contributing@)]);
                                } else {
                                    assert(achs_view(achievements) =~= achs_view(achievements)
                                        + Seq::<AchievementView>::empty());
                                }
                                achievements
                            } else if boardscore_value == level {
                                let a = board_achievement(&board_numbers_contributing);
                                let mut v: Vec<ScoreAchievement> = Vec::new();
                                v.push(a);
                                assert(achs_view(v) =~= seq![board_ach(board_numbers_contributing@)]);
                                v
                            } else {
                                Vec::new()
                            }
                        } else {
                            let mut achievements = card_achievements(
                                card_manager,
                                &card_details,
                                level as usize,
                                false,
                            );
                            if boardscore_value >= level {
                                let ghost before = achievements@;
                                let nums = copy_prefix(&board_numbers_contributing, level as usize);
                                let a = ScoreAchievement {
                                    client_id: board_id_string(),
                                    card_id: board_id_string(),
                                    numbers: nums,
                                };
                                achievements.push(a);
                                assert(achs_view(achievements) =~= before.map_values(
                                    |a: ScoreAchievement| ach_view(a),
                                ) + seq![board_ach(take_up_to(board_numbers_contributing@, level as int))]);
                            } else {
                                assert(achs_view(achievements) =~= achs_view(achievements)
                                    + Seq::<AchievementView>::empty());
                            }
                            achievements
                        };
                        assert(achs_view(level_achievements) == level_achs(
                            card_manager,
                            level as int,
                            bestscore,
                            allcardscore_value,
                            details,
                            boardscore_value,
                            board_numbers_contributing@,
                        ));
                        proof {
                            assert(achs_view(level_achievements).len() == level_achievements@.len());
                        }
                        if level_achievements.len() > 0 {
                            self.score_map.insert(level, level_achievements);
                        }
                    }
                    achievement_level = achievement_level + 1;
                }
            }
        }
        if bestscore > current_working_score {
            self.update_scorecard(bestscore);
            bestscore
        } else {
            current_working_score
        }
    }

    /// The board score, and the numbers to mark, after the last number of
    /// `board_numbers` was extracted.
    pub fn board_calculate_score(&self, board_numbers: &[Number]) -> (res: (Number, Vec<Number>))
        requires
            all_tombola_numbers(board_numbers@),
            board_numbers@.len() < 255,
        ensures
            board_numbers@.len() == 0 ==> res.0 == 0 && res.1@ == Seq::<u8>::empty(),
            board_numbers@.len() > 0 ==> res.0 == board_score(
                board_numbers@,
                board_numbers@.last(),
                self.published_score,
            ) && res.1@ == board_marks(
                board_numbers@,
                board_numbers@.last(),
                self.published_score,
            ),
    {
        if board_numbers.len() > 0 {
            let last_number = board_numbers[board_numbers.len() - 1];
            self.board_score_check(board_numbers, last_number)
        } else {
            (0, Vec::new())
        }
    }

    /// The board score, and the numbers to mark, once `extracted` is on the board.
    pub fn board_score_check(&self, board_numbers: &[Number], extracted: Number) -> (res: (
        Number,
        Vec<Number>,
    ))
        requires
            all_tombola_numbers(board_numbers@),
            1 <= extracted <= 90,
            board_numbers@.len() < 255,
        ensures
            res.0 == board_score(board_numbers@, extracted, self.published_score),
            res.1@ == board_marks(board_numbers@, extracted, self.published_score),
    {
        let ghost nums = board_numbers@;
        let previous_published_score = self.published_score;
        let mut new_scorecard: u8 = 0;

        // Look for a complete board card first.
        let mut bingo_found = false;
        let mut card_index: u8 = 0;
        while card_index < 6
            invariant_except_break
                !bingo_found,
            invariant
                card_index <= 6,
                forall|k: int| 0 <= k < card_index ==> !card_complete(nums, k),
                nums == board_numbers@,
            ensures
                bingo_found ==> card_index < 6 && card_complete(nums, card_index as int)
                    && new_scorecard == NUMBERSPERCARD,
                !bingo_found ==> card_index >= 6,
            decreases 6 - card_index,
        {
            let (_card_numbers, found) = board_card_count(board_numbers, card_index);
            if found == NUMBERSPERCARD {
                new_scorecard = NUMBERSPERCARD;
                bingo_found = true;
                break;
            }
            card_index = card_index + 1;
        }
        proof {
            if bingo_found {
                lemma_first_complete_from(nums, 0, card_index as int);
            } else {
                lemma_no_complete_from(nums, 0);
            }
        }

        if !bingo_found {
            // Count the numbers on the line of the extracted number.
            let mut same_row_card_count: u8 = 0;
            let mut i: usize = 0;
            while i < board_numbers.len()
                invariant
                    nums == board_numbers@,
                    all_tombola_numbers(nums),
                    1 <= extracted <= 90,
                    nums.len() < 255,
                    i <= nums.len(),
                    same_row_card_count == nums.take(i as int).filter(line_pred(extracted)).len(),
                decreases nums.len() - i,
            {
                assert(nums.take(i + 1) == nums.take(i as int).push(nums[i as int]));
                proof {
                    nums.take(i as int).lemma_filter_len(line_pred(extracted));
                }
                let num = board_numbers[i];
                if num != extracted && on_same_line(num, extracted) {
                    same_row_card_count = same_row_card_count + 1;
                }
                i = i + 1;
            }
            assert(nums.take(nums.len() as int) == nums);
            let current_line_score = same_row_card_count + 1;
            if current_line_score > previous_published_score {
                new_scorecard = current_line_score;
            } else {
                new_scorecard = previous_published_score;
            }
        }
        assert(new_scorecard == board_score(nums, extracted, previous_published_score));

        let is_new_achievement = new_scorecard > previous_published_score;
        let numbers_to_mark = if is_new_achievement {
            if 2 <= new_scorecard && new_scorecard <= 5 {
                let mut marks: Vec<u8> = Vec::new();
                let mut i: usize = 0;
                while i < board_numbers.len()
                    invariant
                        nums == board_numbers@,
                        all_tombola_numbers(nums),
                        1 <= extracted <= 90,
                        i <= nums.len(),
                        marks@ == nums.take(i as int).filter(mark_pred(extracted)),
                    decreases nums.len() - i,
                {
                    assert(nums.take(i + 1) == nums.take(i as int).push(nums[i as int]));
                    let num = board_numbers[i];
                    if on_same_line(num, extracted) {
                        marks.push(num);
                    }
                    i = i + 1;
                }
                assert(nums.take(nums.len() as int) == nums);
                marks
            } else if new_scorecard == NUMBERSPERCARD {
                let mut marks: Vec<u8> = Vec::new();
                let mut card_index: u8 = 0;
                while card_index < 6
                    invariant_except_break
                        marks@ == Seq::<u8>::empty(),
                    invariant
                        card_index <= 6,
                        forall|k: int| 0 <= k < card_index ==> !card_complete(nums, k),
                        nums == board_numbers@,
                    ensures
                        (card_index < 6 && card_complete(nums, card_index as int) && marks@
                            == nums.filter(card_pred(card_index as int))) || (card_index >= 6
                            && marks@ == Seq::<u8>::empty()),
                    decreases 6 - card_index,
                {
                    let (card_numbers, found) = board_card_count(board_numbers, card_index);
                    if found == NUMBERSPERCARD {
                        marks = filter_by_card(board_numbers, &card_numbers, Ghost(card_index as int));
                        break;
                    }
                    card_index = card_index + 1;
                }
                proof {
                    if card_index >= 6 {
                        lemma_no_complete_from(nums, 0);
                    } else {
                        lemma_first_complete_from(nums, 0, card_index as int);
                    }
                }
                marks
            } else {
                Vec::new()
            }
        } else {
            Vec::new()
        };
        (new_scorecard, numbers_to_mark)
    }
}

} // verus!
