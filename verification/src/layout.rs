//! Where each number sits on the board: its line, the card it belongs to,
//! and the numbers of each of the six board cards.

use vstd::prelude::*;
use crate::defs::is_tombola_number;

verus! {

/// The board line (0-based) of a number: ten numbers per line.
pub open spec fn line_of(n: u8) -> int {
    (n - 1) / 10
}

/// Which of the two cards of a board line a number falls in.
pub open spec fn slot_of(n: u8) -> int {
    ((n - 1) % 10) / 5
}

/// Two numbers are on the same line of the same board card.
pub open spec fn same_line(a: u8, b: u8) -> bool {
    line_of(a) == line_of(b) && slot_of(a) == slot_of(b)
}

/// The `i`-th number (row-major, five per row) of board card `k`.
pub open spec fn board_card_number(k: int, i: int) -> u8 {
    (1 + ((k / 2) * 3 + i / 5) * 10 + (k % 2) * 5 + i % 5) as u8
}

/// The fifteen numbers of board card `k`, row by row.
pub open spec fn board_card_numbers(k: int) -> Seq<u8> {
    Seq::new(15, |i: int| board_card_number(k, i))
}

/// Every number of board card `k` has been extracted.
pub open spec fn card_complete(nums: Seq<u8>, k: int) -> bool {
    forall|i: int| 0 <= i < 15 ==> nums.contains(#[trigger] board_card_number(k, i))
}

/// The first complete board card from `k` on, or -1 when there is none.
pub open spec fn first_complete_from(nums: Seq<u8>, k: int) -> int
    decreases 6 - k,
{
    if k >= 6 || k < 0 {
        -1
    } else if card_complete(nums, k) {
        k
    } else {
        first_complete_from(nums, k + 1)
    }
}

/// The first complete board card, or -1 when there is none.
pub open spec fn first_complete(nums: Seq<u8>) -> int {
    first_complete_from(nums, 0)
}

/// Some board card is complete: a BINGO on the board.
pub open spec fn is_bingo(nums: Seq<u8>) -> bool {
    first_complete(nums) >= 0
}

/// Every number of a sequence is a tombola number.
pub open spec fn all_tombola_numbers(nums: Seq<u8>) -> bool {
    forall|i: int| 0 <= i < nums.len() ==> is_tombola_number(#[trigger] nums[i] as int)
}

pub proof fn lemma_first_complete_from(nums: Seq<u8>, j: int, m: int)
    requires
        0 <= j <= m < 6,
        card_complete(nums, m),
        forall|k: int| 0 <= k < m ==> !card_complete(nums, k),
    ensures
        first_complete_from(nums, j) == m,
    decreases m - j,
{
    if j < m {
        lemma_first_complete_from(nums, j + 1, m);
    }
}

pub proof fn lemma_no_complete_from(nums: Seq<u8>, j: int)
    requires
        0 <= j <= 6,
        forall|k: int| j <= k < 6 ==> !card_complete(nums, k),
    ensures
        first_complete_from(nums, j) == -1,
    decreases 6 - j,
{
    if j < 6 {
        lemma_no_complete_from(nums, j + 1);
    }
}

/// The first complete card, when there is one, is a complete card below six.
pub proof fn lemma_first_complete_is_complete(nums: Seq<u8>, j: int)
    requires
        0 <= j <= 6,
    ensures
        first_complete_from(nums, j) == -1 || (j <= first_complete_from(nums, j) < 6
            && card_complete(nums, first_complete_from(nums, j))),
    decreases 6 - j,
{
    if j < 6 {
        lemma_first_complete_is_complete(nums, j + 1);
    }
}

/// Whether a number occurs in a slice.
pub fn contains_number(s: &[u8], x: u8) -> (r: bool)
    ensures
        r == s@.contains(x),
{
    let mut i: usize = 0;
    while i < s.len()
        invariant
            i <= s.len(),
            forall|j: int| 0 <= j < i ==> s@[j] != x,
        decreases s.len() - i,
    {
        if s[i] == x {
            return true;
        }
        i = i + 1;
    }
    false
}

/// Whether two tombola numbers are on the same line of the same board card.
pub fn on_same_line(a: u8, b: u8) -> (r: bool)
    requires
        a >= 1,
        b >= 1,
    ensures
        r == same_line(a, b),
{
    (a - 1) / 10 == (b - 1) / 10 && ((a - 1) % 10) / 5 == ((b - 1) % 10) / 5
}

/// The fifteen numbers of board card `k`, and how many of them `board` holds.
pub fn board_card_count(board: &[u8], k: u8) -> (res: (Vec<u8>, u8))
    requires
        k < 6,
    ensures
        res.0@ == board_card_numbers(k as int),
        res.1 <= 15,
        res.1 == 15 <==> card_complete(board@, k as int),
{
    let card_row = k / 2;
    let card_col = k % 2;
    let mut numbers: Vec<u8> = Vec::new();
    let mut found: u8 = 0;
    let mut i: u8 = 0;
    while i < 15
        invariant
            k < 6,
            card_row == k / 2,
            card_col == k % 2,
            i <= 15,
            numbers@.len() == i,
            forall|j: int| 0 <= j < i ==> numbers@[j] == board_card_number(k as int, j),
            found <= i,
            found == i <==> (forall|j: int| 0 <= j < i ==> board@.contains(
                #[trigger] board_card_number(k as int, j),
            )),
        decreases 15 - i,
    {
        let row = i / 5;
        let col = i % 5;
        let number = 1 + (card_row * 3 + row) * 10 + card_col * 5 + col;
        assert(number == board_card_number(k as int, i as int));
        numbers.push(number);
        if contains_number(board, number) {
            found = found + 1;
        } else {
            assert(!board@.contains(board_card_number(k as int, i as int)));
        }
        i = i + 1;
    }
    assert(numbers@ =~= board_card_numbers(k as int));
    (numbers, found)
}

/// Where a tombola number sits: board card `2 * (line / 3) + slot`, row
/// `line % 3` of that card, place `(n - 1) % 5` in the row.
proof fn lemma_board_place(n: u8)
    requires
        1 <= n <= 90,
    ensures
        board_card_number(2 * (line_of(n) / 3) + slot_of(n), 5 * (line_of(n) % 3) + (n - 1) % 5) == n,
{
    let l = line_of(n);
    let s = slot_of(n);
    let k = 2 * (l / 3) + s;
    let i = 5 * (l % 3) + (n - 1) % 5;
    assert(0 <= l < 9 && 0 <= s < 2);
    assert(k / 2 == l / 3 && k % 2 == s);
    assert(i / 5 == l % 3 && i % 5 == (n - 1) % 5);
    assert((l / 3) * 3 + l % 3 == l);
    assert(l * 10 + s * 5 + (n - 1) % 5 == n - 1);
}

/// The line and card slot of a number of board card `k`, row `r`.
proof fn lemma_board_row_line(k: int, r: int, i: int)
    requires
        0 <= k < 6,
        0 <= r < 3,
        0 <= i < 5,
    ensures
        line_of(board_card_number(k, 5 * r + i)) == (k / 2) * 3 + r,
        slot_of(board_card_number(k, 5 * r + i)) == k % 2,
{
    assert((5 * r + i) / 5 == r && (5 * r + i) % 5 == i);
    let v = 1 + ((k / 2) * 3 + r) * 10 + (k % 2) * 5 + i;
    assert(1 <= v <= 90);
    assert(board_card_number(k, 5 * r + i) == v);
    assert((v - 1) / 10 == (k / 2) * 3 + r);
    assert(((v - 1) % 10) / 5 == k % 2);
}

/// Two tombola numbers are on the same line exactly when they lie in the
/// same row of five of one of the six board cards.
pub proof fn law_same_line_is_a_board_card_row(a: u8, b: u8)
    requires
        1 <= a <= 90,
        1 <= b <= 90,
    ensures
        same_line(a, b) <==> exists|k: int, r: int, i: int, j: int|
            #![trigger board_card_number(k, 5 * r + i), board_card_number(k, 5 * r + j)]
            0 <= k < 6 && 0 <= r < 3 && 0 <= i < 5 && 0 <= j < 5 && board_card_number(k, 5 * r + i) == a
                && board_card_number(k, 5 * r + j) == b,
{
    if same_line(a, b) {
        lemma_board_place(a);
        lemma_board_place(b);
        let k = 2 * (line_of(a) / 3) + slot_of(a);
        let r = line_of(a) % 3;
        assert(0 <= k < 6);
        assert(board_card_number(k, 5 * r + (a - 1) % 5) == a);
        assert(board_card_number(k, 5 * r + (b - 1) % 5) == b);
    }
    if exists|k: int, r: int, i: int, j: int|
        #![trigger board_card_number(k, 5 * r + i), board_card_number(k, 5 * r + j)]
        0 <= k < 6 && 0 <= r < 3 && 0 <= i < 5 && 0 <= j < 5 && board_card_number(k, 5 * r + i) == a
            && board_card_number(k, 5 * r + j) == b {
        let (k, r, i, j) = choose|k: int, r: int, i: int, j: int|
            #![trigger board_card_number(k, 5 * r + i), board_card_number(k, 5 * r + j)]
            0 <= k < 6 && 0 <= r < 3 && 0 <= i < 5 && 0 <= j < 5 && board_card_number(k, 5 * r + i) == a
                && board_card_number(k, 5 * r + j) == b;
        lemma_board_row_line(k, r, i);
        lemma_board_row_line(k, r, j);
    }
}

} // verus!
