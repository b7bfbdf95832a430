//! Terminal layout of the board: cursor moves between numbers, the text of
//! the board with colours, the last numbers, and the keys a client reacts to.

use vstd::prelude::*;
use crate::board::{entry_of, last_numbers, sorted_by_number, Board};
use crate::defs::{Colors, Number};
use crate::text::{digit_char, push_char, string_of};

verus! {

/// How far the cursor moves right and down to the next number.
#[derive(Debug, Clone, Copy)]
pub struct DeltaPos {
    pub delta_x: u8,
    pub delta_y: u8,
}

/// A keypress a client reacts to.
#[derive(Debug, Clone, Copy, PartialEq, Eq, Structural)]
pub enum KeyAction {
    /// Enter: extract a number.
    Extract,
    /// Esc: leave.
    Exit,
    /// F5: redraw the screen.
    Refresh,
}

/// `n` read as an `i8`.
pub open spec fn as_i8(n: u8) -> int {
    if n < 128 {
        n as int
    } else {
        n - 256
    }
}

/// Division rounding towards zero (Rust's `/` on signed integers), `b > 0`.
pub open spec fn tdiv(a: int, b: int) -> int {
    if a >= 0 {
        a / b
    } else {
        -((-a) / b)
    }
}

/// Remainder of `tdiv` (Rust's `%` on signed integers), `b > 0`.
pub open spec fn trem(a: int, b: int) -> int {
    a - b * tdiv(a, b)
}

/// The low byte of `x`, for `-256 <= x < 256`.
pub open spec fn low_byte(x: int) -> u8 {
    if x >= 0 {
        x as u8
    } else {
        (x + 256) as u8
    }
}

/// The vertical move between numbers `prev` and `curr` of the board: two
/// lines per board row, and one more between rows of cards (ten numbers per
/// board row, three rows per card).
pub open spec fn delta_y_of(prev: u8, curr: u8) -> int {
    let ypos = tdiv(as_i8(curr) - 1, 10) + 1;
    let prev_ypos = tdiv(as_i8(prev) - 1, 10) + 1;
    let yshift = tdiv(ypos - 1, 3) - tdiv(prev_ypos - 1, 3);
    (ypos - prev_ypos) * 2 + yshift
}

/// The horizontal move between numbers `prev` and `curr` on the same line
/// (from the line start when the line changes): four columns per number,
/// two more between cards (five numbers per card row).
pub open spec fn delta_x_of(prev: u8, curr: u8) -> int {
    let xpos = trem(as_i8(curr) - 1, 10) + 1;
    let prev_xpos = if delta_y_of(prev, curr) == 0 {
        trem(as_i8(prev) - 1, 10) + 1
    } else {
        0
    };
    let xshift = (tdiv(xpos - 1, 5) - tdiv(prev_xpos - 1, 5)) * 2;
    (xpos - prev_xpos - 1) * 4 + 2 + xshift
}

/// `a / b` rounding towards zero, for `b > 0`.
fn div_toward_zero(a: i16, b: i16) -> (q: i16)
    requires
        b > 0,
        -1000 <= a <= 1000,
    ensures
        q == tdiv(a as int, b as int),
{
    if a >= 0 {
        a / b
    } else {
        let m: i16 = -a;
        -(m / b)
    }
}

/// The cursor move from number `prev` to number `curr` on the board (the
/// numbers read as `i8`, moves taken modulo 256); 128, which overflows when
/// read as `i8` and decreased, is not accepted.
pub fn downrightshift(prev_num: Number, curr_num: Number) -> (d: DeltaPos)
    requires
        prev_num != 128,
        curr_num != 128,
    ensures
        d.delta_y == low_byte(delta_y_of(prev_num, curr_num)),
        d.delta_x == low_byte(delta_x_of(prev_num, curr_num)),
{
    let prev: i16 = if prev_num < 128 {
        prev_num as i16
    } else {
        prev_num as i16 - 256
    };
    let curr: i16 = if curr_num < 128 {
        curr_num as i16
    } else {
        curr_num as i16 - 256
    };
    assert(prev == as_i8(prev_num) && -127 <= prev <= 127);
    assert(curr == as_i8(curr_num) && -127 <= curr <= 127);
    let cq = div_toward_zero(curr - 1, 10);
    assert(-13 <= cq <= 13);
    let pq = div_toward_zero(prev - 1, 10);
    assert(-13 <= pq <= 13);
    let xpos = (curr - 1) - 10 * cq + 1;
    assert(xpos == trem(as_i8(curr_num) - 1, 10) + 1);
    assert(-9 <= xpos <= 10);
    let ypos = cq + 1;
    let prev_ypos = pq + 1;
    let ys1 = div_toward_zero(ypos - 1, 3);
    let ys2 = div_toward_zero(prev_ypos - 1, 3);
    assert(-5 <= ys1 <= 5 && -5 <= ys2 <= 5);
    let yshift = ys1 - ys2;
    let delta_y = (ypos - prev_ypos) * 2 + yshift;
    assert(delta_y == delta_y_of(prev_num, curr_num));
    assert(-80 <= delta_y <= 80);
    let prev_xpos = if delta_y == 0 {
        (prev - 1) - 10 * pq + 1
    } else {
        0
    };
    assert(-9 <= prev_xpos <= 10);
    let xs1 = div_toward_zero(xpos - 1, 5);
    let xs2 = div_toward_zero(prev_xpos - 1, 5);
    assert(-3 <= xs1 <= 3 && -3 <= xs2 <= 3);
    let xshift = (xs1 - xs2) * 2;
    let delta_x = (xpos - prev_xpos - 1) * 4 + 2 + xshift;
    assert(delta_x == delta_x_of(prev_num, curr_num));
    assert(-120 <= delta_x <= 120);
    DeltaPos {
        delta_x: if delta_x >= 0 {
            delta_x as u8
        } else {
            (delta_x + 256) as u8
        },
        delta_y: if delta_y >= 0 {
            delta_y as u8
        } else {
            (delta_y + 256) as u8
        },
    }
}

/// The last `n` numbers drawn before the current one, most recent first.
pub fn print_last_numbers(board: &Board, n: usize) -> (v: Vec<Number>)
    ensures
        v@ == last_numbers(board.numbers(), n as nat),
{
    board.get_last_numbers(n)
}

/// `c` repeated `k` times.
pub open spec fn repeat_char(c: char, k: nat) -> Seq<char>
    decreases k,
{
    if k == 0 {
        Seq::empty()
    } else {
        repeat_char(c, (k - 1) as nat).push(c)
    }
}

/// A number right-aligned in two columns.
pub open spec fn two_cols(n: u8) -> Seq<char> {
    if n < 10 {
        seq![' ', digit_char(n as nat)]
    } else if n < 100 {
        seq![digit_char((n / 10) as nat), digit_char((n % 10) as nat)]
    } else {
        seq![digit_char((n / 100) as nat), digit_char(((n / 10) % 10) as nat), digit_char((n % 10) as nat)]
    }
}

/// The colour codes of `Colors`.
pub open spec fn green_code() -> Seq<char> {
    seq!['\x1b', '[', '1', ';', '3', '2', 'm']
}

pub open spec fn yellow_code() -> Seq<char> {
    seq!['\x1b', '[', '1', ';', '3', '3', 'm']
}

pub open spec fn reset_code() -> Seq<char> {
    seq!['\x1b', '[', '0', 'm']
}

/// One number of the board text: the moves from the previous number (new
/// lines, then spaces), then the number, green when it is the last drawn,
/// yellow when it is marked.
pub open spec fn board_cell(prev: u8, entry: (u8, bool), extracted: u8) -> Seq<char> {
    let n = entry.0;
    repeat_char('\n', low_byte(delta_y_of(prev, n)) as nat) + repeat_char(' ', low_byte(delta_x_of(prev, n)) as nat)
        + if n == extracted {
        green_code() + two_cols(n) + reset_code()
    } else if entry.1 {
        yellow_code() + two_cols(n) + reset_code()
    } else {
        two_cols(n)
    }
}

/// The board text of some entries in order, the first following `prev`.
pub open spec fn board_cells(entries: Seq<(u8, bool)>, prev: u8, extracted: u8) -> Seq<char>
    decreases entries.len(),
{
    if entries.len() == 0 {
        Seq::empty()
    } else {
        board_cells(entries.drop_last(), prev, extracted) + board_cell(
            if entries.len() == 1 {
                prev
            } else {
                entries[entries.len() - 2].0
            },
            entries.last(),
            extracted,
        )
    }
}

fn append_repeat(s: &mut String, c: char, k: u8)
    ensures
        final(s)@ == old(s)@ + repeat_char(c, k as nat),
{
    let mut i: u8 = 0;
    while i < k
        invariant
            i <= k,
            s@ == old(s)@ + repeat_char(c, i as nat),
        decreases k - i,
    {
        push_char(s, c);
        i = i + 1;
        assert(s@ =~= old(s)@ + repeat_char(c, i as nat));
    }
}

/// Appends a number right-aligned in two columns.
pub(crate) fn append_two_cols(s: &mut String, n: u8)
    ensures
        final(s)@ == old(s)@ + two_cols(n),
{
    if n < 10 {
        push_char(s, ' ');
        push_char(s, crate::text::hex_digit(n as u64, false));
    } else if n < 100 {
        push_char(s, crate::text::hex_digit((n / 10) as u64, false));
        push_char(s, crate::text::hex_digit((n % 10) as u64, false));
    } else {
        push_char(s, crate::text::hex_digit((n / 100) as u64, false));
        push_char(s, crate::text::hex_digit(((n / 10) % 10) as u64, false));
        push_char(s, crate::text::hex_digit((n % 10) as u64, false));
    }
    assert(final(s)@ =~= old(s)@ + two_cols(n));
}

/// Appends the board text of one number (see `board_cell`).
fn append_cell(s: &mut String, prev: u8, entry: (u8, bool), extracted: u8)
    requires
        prev != 128,
        entry.0 != 128,
    ensures
        final(s)@ == old(s)@ + board_cell(prev, entry, extracted),
{
    proof {
        reveal_strlit("\x1b[1;32m");
        reveal_strlit("\x1b[1;33m");
        reveal_strlit("\x1b[0m");
        assert("\x1b[1;32m"@ =~= green_code());
        assert("\x1b[1;33m"@ =~= yellow_code());
        assert("\x1b[0m"@ =~= reset_code());
    }
    let (curr, marked) = entry;
    let d = downrightshift(prev, curr);
    append_repeat(s, '\n', d.delta_y);
    append_repeat(s, ' ', d.delta_x);
    let ghost mid = s@;
    if curr == extracted {
        s.append(Colors::green());
        append_two_cols(s, curr);
        s.append(Colors::reset());
        assert(s@ =~= mid + (green_code() + two_cols(curr) + reset_code()));
    } else if marked {
        s.append(Colors::yellow());
        append_two_cols(s, curr);
        s.append(Colors::reset());
        assert(s@ =~= mid + (yellow_code() + two_cols(curr) + reset_code()));
    } else {
        append_two_cols(s, curr);
    }
    assert(s@ =~= old(s)@ + board_cell(prev, entry, extracted));
}

/// The text that draws the board: its numbers in increasing order, placed
/// as on the board, the last drawn number in green and the marked ones in
/// yellow (what `print_board` prints).
pub fn board_text(board: &Board) -> (s: String)
    requires
        board.wf(),
    ensures
        ({
            let entries = board.numbers().map_values(entry_of(board.marked()));
            let extracted = if board.numbers().len() > 0 {
                board.numbers().last()
            } else {
                0u8
            };
            exists|sorted: Seq<(u8, bool)>|
                sorted_by_number(sorted) && sorted.to_multiset() == entries.to_multiset() && s@
                    == board_cells(sorted, 0, extracted)
        }),
{
    let sorted = board.get_sorted_entries();
    let numbers = board.get_numbers();
    let extracted: u8 = if numbers.len() > 0 {
        numbers[numbers.len() - 1]
    } else {
        0
    };
    proof {
        let entries = board.numbers().map_values(entry_of(board.marked()));
        assert forall|j: int| 0 <= j < sorted@.len() implies 1 <= #[trigger] sorted@[j].0 <= 90 by {
            broadcast use vstd::seq_lib::group_to_multiset_ensures;

            assert(sorted@.contains(sorted@[j]));
            assert(sorted@.to_multiset().count(sorted@[j]) > 0);
            assert(entries.contains(sorted@[j]));
            let k = choose|k: int| 0 <= k < entries.len() && entries[k] == sorted@[j];
            assert(entries[k].0 == board.numbers()[k]);
        }
    }
    let mut s = String::new();
    let mut prev: u8 = 0;
    let mut i: usize = 0;
    while i < sorted.len()
        invariant
            i <= sorted@.len(),
            sorted_by_number(sorted@),
            forall|j: int| 0 <= j < sorted@.len() ==> 1 <= #[trigger] sorted@[j].0 <= 90,
            s@ == board_cells(sorted@.take(i as int), 0, extracted),
            prev == (if i == 0 {
                0u8
            } else {
                sorted@[i - 1].0
            }),
        decreases sorted@.len() - i,
    {
        let entry = sorted[i];
        append_cell(&mut s, prev, entry, extracted);
        let curr = entry.0;
        proof {
            let t = sorted@.take(i + 1);
            assert(t.drop_last() =~= sorted@.take(i as int));
            assert(t.last() == sorted@[i as int]);
            if i > 0 {
                assert(t[t.len() - 2] == sorted@[i - 1]);
            }
            assert(s@ =~= board_cells(t, 0, extracted));
        }
        prev = curr;
        i = i + 1;
    }
    assert(sorted@.take(sorted@.len() as int) =~= sorted@);
    s
}

} // verus!
