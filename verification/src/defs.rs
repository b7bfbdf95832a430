//! Basic game definitions: the number type, the board layout and the
//! terminal colour sequences.

use vstd::prelude::*;

verus! {

/// A tombola number.
pub type Number = u8;

/// Layout of the board: how many cards it holds and how they are spaced.
#[derive(Clone, Copy, Debug, PartialEq, Eq)]
pub struct BoardStruct {
    pub cols_per_card: Number,
    pub rows_per_card: Number,
    pub cards_per_row: Number,
    pub cards_per_col: Number,
    pub hnumbers_space: Number,
    pub vnumbers_space: Number,
    pub hcards_space: Number,
    pub vcards_space: Number,
}

/// Number of columns in a card.
pub const COLS_PER_CARD: Number = 5;
/// Number of rows in a card.
pub const ROWS_PER_CARD: Number = 3;
/// Number of cards in a board row.
pub const CARDS_PER_ROW: Number = 2;
/// Number of cards in a board column.
pub const CARDS_PER_COL: Number = 3;
/// Space between numbers in the same row.
pub const HNUMBERS_SPACE: Number = 2;
/// Space between numbers in the same column.
pub const VNUMBERS_SPACE: Number = 1;
/// Space between cards in the same row.
pub const HCARDS_SPACE: Number = 2;
/// Space between cards in the same column.
pub const VCARDS_SPACE: Number = 1;

/// The smallest tombola number.
pub const FIRSTNUMBER: Number = 1;
/// The largest tombola number: cols × rows × cards per row × cards per column.
pub const LASTNUMBER: Number = 90;
/// How many numbers a card holds (cols × rows): the score of a BINGO.
pub const NUMBERSPERCARD: Number = 15;
/// How many cards the board holds.
pub const CARDSNUMBER: Number = 6;

/// The board layout in use.
pub open spec fn spec_board_config() -> BoardStruct {
    BoardStruct {
        cols_per_card: COLS_PER_CARD,
        rows_per_card: ROWS_PER_CARD,
        cards_per_row: CARDS_PER_ROW,
        cards_per_col: CARDS_PER_COL,
        hnumbers_space: HNUMBERS_SPACE,
        vnumbers_space: VNUMBERS_SPACE,
        hcards_space: HCARDS_SPACE,
        vcards_space: VCARDS_SPACE,
    }
}

/// Returns the board layout in use.
pub fn board_config() -> (c: BoardStruct)
    ensures
        c == spec_board_config(),
{
    BoardStruct {
        cols_per_card: COLS_PER_CARD,
        rows_per_card: ROWS_PER_CARD,
        cards_per_row: CARDS_PER_ROW,
        cards_per_col: CARDS_PER_COL,
        hnumbers_space: HNUMBERS_SPACE,
        vnumbers_space: VNUMBERS_SPACE,
        hcards_space: HCARDS_SPACE,
        vcards_space: VCARDS_SPACE,
    }
}

/// The numbers of the game follow from the layout.
pub proof fn lemma_numbers_follow_layout()
    ensures
        LASTNUMBER == COLS_PER_CARD * ROWS_PER_CARD * CARDS_PER_ROW * CARDS_PER_COL - 1
            + FIRSTNUMBER,
        NUMBERSPERCARD == COLS_PER_CARD * ROWS_PER_CARD,
        CARDSNUMBER == CARDS_PER_ROW * CARDS_PER_COL,
{
}

/// A tombola number lies in `FIRSTNUMBER..=LASTNUMBER`.
pub open spec fn is_tombola_number(n: int) -> bool {
    FIRSTNUMBER <= n <= LASTNUMBER
}

/// Terminal colour escape sequences.
pub struct Colors;

impl Colors {
    /// Bold green: the current number.
    pub fn green() -> (s: &'static str)
        ensures
            s@ == "\x1b[1;32m"@,
    {
        "\x1b[1;32m"
    }

    /// Bold yellow: marked numbers and prizes.
    pub fn yellow() -> (s: &'static str)
        ensures
            s@ == "\x1b[1;33m"@,
    {
        "\x1b[1;33m"
    }

    /// Reset the formatting.
    pub fn reset() -> (s: &'static str)
        ensures
            s@ == "\x1b[0m"@,
    {
        "\x1b[0m"
    }

    /// Bold red: errors and warnings.
    pub fn red() -> (s: &'static str)
        ensures
            s@ == "\x1b[1;31m"@,
    {
        "\x1b[1;31m"
    }

    /// Bold blue: information.
    pub fn blue() -> (s: &'static str)
        ensures
            s@ == "\x1b[1;34m"@,
    {
        "\x1b[1;34m"
    }

    /// Bold magenta: special highlights.
    pub fn magenta() -> (s: &'static str)
        ensures
            s@ == "\x1b[1;35m"@,
    {
        "\x1b[1;35m"
    }
}

} // verus!
