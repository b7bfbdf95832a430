//! The board: the numbers drawn so far, in order of extraction, and the
//! numbers marked by the latest achievement.

use vstd::prelude::*;
use crate::defs::Number;
use crate::layout::{all_tombola_numbers, contains_number};
use crate::score::{board_marks, board_score, ScoreCard};
use vstd::string::StringExecFns;

verus! {

broadcast use vstd::seq_lib::group_seq_properties, vstd::std_specs::hash::group_hash_axioms;

/// The client id (and card id) that stands for the board itself.
pub const BOARD_ID: &'static str = "0000000000000000";

/// The text of `BOARD_ID`.
pub open spec fn board_id() -> Seq<char> {
    seq!['0', '0', '0', '0', '0', '0', '0', '0', '0', '0', '0', '0', '0', '0', '0', '0']
}

/// `BOARD_ID` holds the characters of `board_id()`.
pub proof fn lemma_board_id()
    ensures
        BOARD_ID@ == board_id(),
{
    reveal_strlit("0000000000000000");
    assert(BOARD_ID@ =~= board_id());
}

/// `BOARD_ID` as a `String`.
pub fn board_id_string() -> (s: String)
    ensures
        s@ == board_id(),
{
    proof {
        reveal_strlit("0000000000000000");
    }
    String::from_str(BOARD_ID)
}

/// Returns the board's client ID.
pub fn board_client_id() -> (s: String)
    ensures
        s@ == board_id(),
{
    board_id_string()
}

/// Returns the board's card ID.
pub fn board_card_id() -> (s: String)
    ensures
        s@ == board_id(),
{
    board_id_string()
}

/// An entry of the sorted board: a number and whether it is marked.
pub open spec fn entry_of(marked: Set<u8>) -> spec_fn(u8) -> (u8, bool) {
    |n: u8| (n, marked.contains(n))
}

/// A sequence of entries is ordered by number.
pub open spec fn sorted_by_number(s: Seq<(u8, bool)>) -> bool {
    forall|i: int, j: int| 0 <= i <= j < s.len() ==> s[i].0 <= s[j].0
}

/// The last `n` numbers before the current one, most recent first.
pub open spec fn last_numbers(nums: Seq<u8>, n: nat) -> Seq<u8> {
    if nums.len() <= 1 {
        Seq::empty()
    } else {
        let k = if n < nums.len() - 1 { n as int } else { nums.len() - 1 };
        Seq::new(k as nat, |i: int| nums[nums.len() - 2 - i])
    }
}

#[derive(Debug)]
pub struct Board {
    numbers: Vec<Number>,
    marked_numbers: Vec<Number>,
}

impl Board {
    /// The numbers drawn, in order.
    pub closed spec fn numbers(&self) -> Seq<u8> {
        self.numbers@
    }

    /// The marked numbers.
    pub closed spec fn marked(&self) -> Set<u8> {
        self.marked_numbers@.to_set()
    }

    /// Every number on the board is a tombola number, and there are fewer than 255 of them.
    pub open spec fn wf(&self) -> bool {
        all_tombola_numbers(self.numbers()) && self.numbers().len() < 255
    }

    pub fn new() -> (b: Self)
        ensures
            b.numbers() == Seq::<u8>::empty(),
            b.marked() == Set::<u8>::empty(),
            b.wf(),
    {
        Board { numbers: Vec::new(), marked_numbers: Vec::new() }
    }

    /// Adds a drawn number, scores the board and marks the numbers of a new
    /// achievement; returns the board score.
    pub fn push(&mut self, entry: Number, scorecard: &ScoreCard) -> (score: Number)
        requires
            old(self).wf(),
            1 <= entry <= 90,
            old(self).numbers().len() < 254,
        ensures
            final(self).wf(),
            final(self).numbers() == old(self).numbers().push(entry),
            score == board_score(final(self).numbers(), entry, scorecard.published_score),
            board_marks(final(self).numbers(), entry, scorecard.published_score).len() > 0
                ==> final(self).marked() == board_marks(
                final(self).numbers(),
                entry,
                scorecard.published_score,
            ).to_set(),
            board_marks(final(self).numbers(), entry, scorecard.published_score).len() == 0
                ==> final(self).marked() == old(self).marked(),
    {
        self.numbers.push(entry);
        let (score, numbers_to_mark) = scorecard.board_calculate_score(self.numbers.as_slice());
        self.update_marked_numbers(numbers_to_mark);
        score
    }

    /// Adds a drawn number without scoring.
    pub fn push_simple(&mut self, entry: Number)
        requires
            old(self).wf(),
            1 <= entry <= 90,
            old(self).numbers().len() < 254,
        ensures
            final(self).wf(),
            final(self).numbers() == old(self).numbers().push(entry),
            final(self).marked() == old(self).marked(),
    {
        self.numbers.push(entry);
    }

    /// Replaces the marked numbers with `numbers_to_mark`, unless it is empty.
    pub fn update_marked_numbers(&mut self, numbers_to_mark: Vec<Number>)
        ensures
            final(self).numbers() == old(self).numbers(),
            numbers_to_mark@.len() > 0 ==> final(self).marked() == numbers_to_mark@.to_set(),
            numbers_to_mark@.len() == 0 ==> final(self).marked() == old(self).marked(),
    {
        if numbers_to_mark.len() > 0 {
            self.marked_numbers = numbers_to_mark;
        }
    }

    pub fn get_numbers(&self) -> (v: &Vec<Number>)
        ensures
            v@ == self.numbers(),
    {
        &self.numbers
    }

    /// The marked numbers (in the order they were marked).
    pub fn get_marked_numbers(&self) -> (m: &Vec<Number>)
        ensures
            m@.to_set() == self.marked(),
    {
        &self.marked_numbers
    }

    pub fn len(&self) -> (n: usize)
        ensures
            n == self.numbers().len(),
    {
        self.numbers.len()
    }

    pub fn is_empty(&self) -> (b: bool)
        ensures
            b == (self.numbers().len() == 0),
    {
        self.numbers.len() == 0
    }

    /// The drawn numbers with their marked flags, ordered by number.
    pub fn get_sorted_entries(&self) -> (sorted: Vec<(Number, bool)>)
        ensures
            sorted_by_number(sorted@),
            sorted@.to_multiset() == self.numbers().map_values(entry_of(self.marked())).to_multiset(),
    {
        let ghost f = entry_of(self.marked());
        let mut sorted: Vec<(Number, bool)> = Vec::new();
        let mut i: usize = 0;
        while i < self.numbers.len()
            invariant
                i <= self.numbers@.len(),
                f == entry_of(self.marked()),
                sorted_by_number(sorted@),
                sorted@.to_multiset() == self.numbers@.take(i as int).map_values(f).to_multiset(),
            decreases self.numbers@.len() - i,
        {
            let number = self.numbers[i];
            let entry = (number, contains_number(self.marked_numbers.as_slice(), number));
            assert(entry == f(number));
            // Find the first position holding a greater number.
            let mut p: usize = 0;
            while p < sorted.len() && sorted[p].0 <= number
                invariant
                    p <= sorted@.len(),
                    forall|j: int| 0 <= j < p ==> sorted@[j].0 <= number,
                decreases sorted@.len() - p,
            {
                p = p + 1;
            }
            let ghost before = sorted@;
            sorted.insert(p, entry);
            proof {
                assert forall|a: int, b: int| 0 <= a <= b < sorted@.len() implies sorted@[a].0
                    <= sorted@[b].0 by {
                    if a < p && b > p {
                        assert(sorted@[a] == before[a]);
                        assert(sorted@[b] == before[b - 1]);
                    }
                }
                assert(self.numbers@.take(i + 1) == self.numbers@.take(i as int).push(number));
                assert(self.numbers@.take(i + 1).map_values(f) == self.numbers@.take(
                    i as int,
                ).map_values(f).push(entry));
            }
            i = i + 1;
        }
        assert(self.numbers@.take(self.numbers@.len() as int) == self.numbers@);
        sorted
    }

    /// The last `n` numbers drawn before the current one, most recent first.
    pub fn get_last_numbers(&self, n: usize) -> (v: Vec<Number>)
        ensures
            v@ == last_numbers(self.numbers(), n as nat),
    {
        let mut result: Vec<Number> = Vec::new();
        if self.numbers.len() <= 1 {
            return result;
        }
        let count = self.numbers.len() - 1;
        let take = if n < count { n } else { count };
        let mut i: usize = 0;
        while i < take
            invariant
                take <= count,
                count == self.numbers@.len() - 1,
                i <= take,
                result@.len() == i,
                forall|j: int| 0 <= j < i ==> result@[j] == self.numbers@[self.numbers@.len() - 2 - j],
            decreases take - i,
        {
            result.push(self.numbers[count - 1 - i]);
            i = i + 1;
        }
        assert(result@ =~= last_numbers(self.numbers(), n as nat));
        result
    }
}

impl Clone for Board {
    fn clone(&self) -> (b: Self)
        ensures
            b.numbers() == self.numbers(),
            b.marked() == self.marked(),
    {
        Board {
            numbers: crate::score::copy_bytes(&self.numbers),
            marked_numbers: crate::score::copy_bytes(&self.marked_numbers),
        }
    }
}

impl Default for Board {
    fn default() -> (b: Self)
        ensures
            b.numbers() == Seq::<u8>::empty(),
            b.marked() == Set::<u8>::empty(),
    {
        Self::new()
    }
}

} // verus!
