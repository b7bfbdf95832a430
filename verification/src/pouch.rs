//! The pouch: the numbers still to be drawn.

use vstd::prelude::*;
use crate::defs::{Number, FIRSTNUMBER, LASTNUMBER};
use crate::rng::random_index;

verus! {

/// The numbers `FIRSTNUMBER..=LASTNUMBER`, in increasing order.
pub open spec fn full_pouch() -> Seq<u8> {
    Seq::new(LASTNUMBER as nat, |i: int| (i + 1) as u8)
}

/// The numbers drawn and the numbers left are, together, each number of the
/// game exactly once.
pub open spec fn numbers_in_play(board: Seq<u8>, pouch: Seq<u8>) -> bool {
    (board + pouch).to_multiset() == full_pouch().to_multiset()
}

/// A number of the full pouch is a tombola number.
pub proof fn lemma_full_pouch_range(x: u8)
    requires
        full_pouch().to_multiset().count(x) > 0,
    ensures
        1 <= x <= 90,
{
    broadcast use vstd::seq_lib::group_seq_properties;
    assert(full_pouch().contains(x));
    let j = choose|j: int| 0 <= j < full_pouch().len() && full_pouch()[j] == x;
    assert(full_pouch()[j] == (j + 1) as u8);
}

/// The full pouch holds each number once.
pub proof fn lemma_full_pouch_no_duplicates()
    ensures
        full_pouch().no_duplicates(),
{
    assert forall|i: int, j: int| 0 <= i < full_pouch().len() && 0 <= j < full_pouch().len() && i != j
        implies full_pouch()[i] != full_pouch()[j] by {}
}

/// While the numbers are in play, the board and pouch hold ninety numbers
/// together, and every number of either is a tombola number.
pub proof fn lemma_in_play_facts(board: Seq<u8>, pouch: Seq<u8>)
    requires
        numbers_in_play(board, pouch),
    ensures
        board.len() + pouch.len() == 90,
        forall|i: int| 0 <= i < board.len() ==> 1 <= #[trigger] board[i] <= 90,
        forall|i: int| 0 <= i < pouch.len() ==> 1 <= #[trigger] pouch[i] <= 90,
{
    broadcast use vstd::seq_lib::group_seq_properties, vstd::multiset::group_multiset_axioms;
    vstd::seq_lib::lemma_multiset_commutative(board, pouch);
    vstd::seq_lib::to_multiset_len(board + pouch);
    vstd::seq_lib::to_multiset_len(full_pouch());
    assert forall|i: int| 0 <= i < board.len() implies 1 <= #[trigger] board[i] <= 90 by {
        let x = board[i];
        assert((board + pouch)[i] == x);
        vstd::seq_lib::to_multiset_contains(board + pouch, x);
        lemma_full_pouch_range(x);
    }
    assert forall|i: int| 0 <= i < pouch.len() implies 1 <= #[trigger] pouch[i] <= 90 by {
        let x = pouch[i];
        assert((board + pouch)[board.len() + i] == x);
        vstd::seq_lib::to_multiset_contains(board + pouch, x);
        lemma_full_pouch_range(x);
    }
}

/// Drawing the `i`-th number of the pouch onto the board keeps the numbers in play.
pub proof fn lemma_draw_keeps_in_play(board: Seq<u8>, pouch: Seq<u8>, i: int)
    requires
        numbers_in_play(board, pouch),
        0 <= i < pouch.len(),
    ensures
        numbers_in_play(board.push(pouch[i]), pouch.remove(i)),
{
    broadcast use vstd::seq_lib::group_seq_properties, vstd::multiset::group_multiset_axioms;
    let x = pouch[i];
    vstd::seq_lib::lemma_multiset_commutative(board, pouch);
    vstd::seq_lib::lemma_multiset_commutative(board.push(x), pouch.remove(i));
    vstd::seq_lib::to_multiset_remove(pouch, i);
    vstd::seq_lib::to_multiset_build(board, x);
    vstd::seq_lib::to_multiset_contains(pouch, x);
    assert(pouch.contains(x));
    assert((board.push(x) + pouch.remove(i)).to_multiset() =~= (board + pouch).to_multiset());
}

/// While the numbers are in play, no number is drawn twice.
pub proof fn lemma_in_play_board_distinct(board: Seq<u8>, pouch: Seq<u8>)
    requires
        numbers_in_play(board, pouch),
    ensures
        board.no_duplicates(),
        pouch.no_duplicates(),
{
    broadcast use vstd::seq_lib::group_seq_properties, vstd::multiset::group_multiset_axioms;
    lemma_full_pouch_no_duplicates();
    full_pouch().lemma_multiset_has_no_duplicates();
    vstd::seq_lib::lemma_multiset_commutative(board, pouch);
    assert forall|x: u8| board.to_multiset().contains(x) implies board.to_multiset().count(x) == 1 by {
        assert(full_pouch().to_multiset().count(x) >= board.to_multiset().count(x));
    }
    board.lemma_multiset_has_no_duplicates_conv();
    assert forall|x: u8| pouch.to_multiset().contains(x) implies pouch.to_multiset().count(x) == 1 by {
        assert(full_pouch().to_multiset().count(x) >= pouch.to_multiset().count(x));
    }
    pouch.lemma_multiset_has_no_duplicates_conv();
}

/// Every number of the game is, at any time, either drawn or still in the
/// pouch, never both, and no number is drawn twice.
pub proof fn law_each_number_drawn_at_most_once(board: Seq<u8>, pouch: Seq<u8>)
    requires
        numbers_in_play(board, pouch),
    ensures
        board.no_duplicates(),
        pouch.no_duplicates(),
        forall|n: u8| 1 <= n <= 90 ==> (#[trigger] board.contains(n) <==> !pouch.contains(n)),
{
    broadcast use vstd::seq_lib::group_seq_properties, vstd::multiset::group_multiset_axioms;
    lemma_in_play_board_distinct(board, pouch);
    lemma_full_pouch_no_duplicates();
    full_pouch().lemma_multiset_has_no_duplicates();
    vstd::seq_lib::lemma_multiset_commutative(board, pouch);
    assert forall|n: u8| 1 <= n <= 90 implies (#[trigger] board.contains(n) <==> !pouch.contains(n)) by {
        assert(full_pouch()[n - 1] == n);
        assert(full_pouch().contains(n));
        assert(full_pouch().to_multiset().count(n) == 1);
        assert(board.to_multiset().count(n) + pouch.to_multiset().count(n) == 1);
    }
}

#[derive(Debug)]
pub struct Pouch {
    pub numbers: Vec<Number>,
}

impl Pouch {
    /// A full pouch: every number from 1 to 90, in order.
    pub fn new() -> (p: Self)
        ensures
            p.numbers@ == full_pouch(),
            numbers_in_play(Seq::empty(), p.numbers@),
    {
        let mut numbers: Vec<Number> = Vec::new();
        let mut n: Number = FIRSTNUMBER;
        while n <= LASTNUMBER
            invariant
                1 <= n <= LASTNUMBER + 1,
                numbers@.len() == n - 1,
                forall|i: int| 0 <= i < numbers@.len() ==> numbers@[i] == i + 1,
            decreases LASTNUMBER + 1 - n,
        {
            numbers.push(n);
            n = n + 1;
        }
        assert(numbers@ =~= full_pouch());
        assert(Seq::<u8>::empty() + numbers@ =~= full_pouch());
        Pouch { numbers }
    }

    pub fn len(&self) -> (n: usize)
        ensures
            n == self.numbers@.len(),
    {
        self.numbers.len()
    }

    pub fn is_empty(&self) -> (b: bool)
        ensures
            b == (self.numbers@.len() == 0),
    {
        self.numbers.len() == 0
    }

    fn remove(&mut self, index: usize) -> (n: Number)
        requires
            index < old(self).numbers@.len(),
        ensures
            n == old(self).numbers@[index as int],
            final(self).numbers@ == old(self).numbers@.remove(index as int),
    {
        self.numbers.remove(index)
    }

    /// Draws a number at random and takes it out of the pouch; 0 when the pouch is empty.
    pub fn extract(&mut self) -> (n: Number)
        ensures
            old(self).numbers@.len() == 0 ==> n == 0 && final(self).numbers@ == old(self).numbers@,
            old(self).numbers@.len() > 0 ==> exists|i: int|
                0 <= i < old(self).numbers@.len() && n == old(self).numbers@[i]
                    && final(self).numbers@ == old(self).numbers@.remove(i),
    {
        if self.is_empty() {
            0
        } else {
            let random_index = random_index(self.len());
            self.remove(random_index)
        }
    }
}

impl Clone for Pouch {
    fn clone(&self) -> (p: Self)
        ensures
            p.numbers@ == self.numbers@,
    {
        Pouch { numbers: crate::score::copy_bytes(&self.numbers) }
    }
}

impl Default for Pouch {
    fn default() -> (p: Self)
        ensures
            p.numbers@ == full_pouch(),
    {
        Self::new()
    }
}

} // verus!
