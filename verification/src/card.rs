//! Cards: generation of groups of six cards that share out the ninety
//! numbers, identifiers, and the assignment of cards to clients.

use std::collections::hash_map::DefaultHasher;
use std::collections::HashSet;
use std::hash::Hasher;
use vstd::prelude::*;
use vstd::std_specs::hash::DefaultHasherAdditionalSpecFns;
use vstd::string::StringExecFns;
use crate::board::{board_id, board_id_string, lemma_board_id, BOARD_ID};
use crate::defs::{Number, CARDSNUMBER, FIRSTNUMBER, LASTNUMBER};
use crate::client::ClientRegistry;
use crate::coverage::{
    col_bag, filled_in_column, lemma_cell_ms_len, lemma_cells_count, lemma_filled_is_bag_len, lemma_group_disjoint, same_group, share_no_number,
    bags_sum, cell_for, cell_ms, column_count, laid_bag, lemma_bags_sum_moved, lemma_bags_sum_prefix,
    lemma_card_rows, lemma_col_is_bags, lemma_columns_parts, lemma_row_cells, lemma_columns_cover,
    lemma_row_is_bags, group_numbers, card_bag, id_card_bag, id_group_numbers,
    lemma_source_counts, part_bag, row_bag,
};
use crate::tally::{
    lemma_seq_ms_sum_remove,
    lemma_ms_rows_cols, lemma_seq_ms_sum_permutation, lemma_seq_ms_sum_pointwise, lemma_seq_ms_sum_rows, ms_col, ms_row,
    seq_ms_sum,
};
use vstd::seq_lib::{lemma_multiset_commutative, to_multiset_build, to_multiset_remove};
use crate::game::{status_name, GameStatus};
use crate::rng::shuffle;
use crate::strmap::{has_key, index_of, keys_distinct, lemma_index_of, StrMap};
use crate::score::copy_bytes;
use crate::text::{append_hex_fixed, hex_fixed, str_eq, string_of as string_of_str};

verus! {

broadcast use vstd::seq_lib::group_seq_properties, vstd::std_specs::hash::group_hash_axioms;

/// A card: rows of cells, each empty or holding a number.
pub type Card = Vec<Vec<Option<Number>>>;

/// Card generation request.
#[derive(Debug, Clone)]
pub struct GenerateCardsRequest {
    pub count: u32,
}

/// Card generation response.
#[derive(Debug, Clone)]
pub struct GenerateCardsResponse {
    pub cards: Vec<CardInfo>,
    pub message: String,
}

/// A card and its id, as handed to clients.
#[derive(Debug, Clone)]
pub struct CardInfo {
    pub card_id: String,
    pub card_data: Vec<Vec<Option<u8>>>,
}

/// The cards assigned to a client.
#[derive(Debug, Clone)]
pub struct ListAssignedCardsResponse {
    pub cards: Vec<AssignedCardInfo>,
}

/// A card id and the client it is assigned to.
#[derive(Debug, Clone)]
pub struct AssignedCardInfo {
    pub card_id: String,
    pub assigned_to: String,
}

/// A card assigned to a client.
#[derive(Debug, Clone)]
pub struct CardAssignment {
    pub card_id: String,
    pub client_id: String,
    pub card_data: Card,
}

/// Card generation.
#[derive(Debug, Clone)]
pub struct CardManagement;

/// A generated card and its numeric id.
#[derive(Debug, Clone)]
pub struct CardWithId {
    pub id: u64,
    pub card: Card,
}

/// The numbers of a row, left to right.
pub open spec fn row_numbers(row: Seq<Option<u8>>) -> Seq<u8>
    decreases row.len(),
{
    if row.len() == 0 {
        Seq::empty()
    } else {
        let rest = row_numbers(row.drop_last());
        match row.last() {
            Some(n) => rest.push(n),
            None => rest,
        }
    }
}

/// The numbers of a card, row by row.
pub open spec fn card_numbers(card: Seq<Seq<Option<u8>>>) -> Seq<u8>
    decreases card.len(),
{
    if card.len() == 0 {
        Seq::empty()
    } else {
        card_numbers(card.drop_last()) + row_numbers(card.last())
    }
}

/// A card has at least three rows (the rows its lines are scored on).
pub open spec fn card_shape_ok(card: Seq<Seq<Option<u8>>>) -> bool {
    3 <= card.len()
}

/// A row holds no more numbers than cells.
pub proof fn lemma_row_numbers_len(row: Seq<Option<u8>>)
    ensures
        row_numbers(row).len() <= row.len(),
    decreases row.len(),
{
    if row.len() > 0 {
        lemma_row_numbers_len(row.drop_last());
    }
}

/// The numbers of a row, left to right.
pub fn row_number_list(row: &Vec<Option<u8>>) -> (v: Vec<u8>)
    ensures
        v@ == row_numbers(row.deep_view()),
{
    let ghost rv = row.deep_view();
    let mut v: Vec<u8> = Vec::new();
    let mut i: usize = 0;
    while i < row.len()
        invariant
            rv == row.deep_view(),
            i <= row@.len(),
            v@ == row_numbers(rv.take(i as int)),
        decreases row@.len() - i,
    {
        assert(rv.take(i + 1).drop_last() == rv.take(i as int));
        match row[i] {
            Some(n) => {
                v.push(n);
            },
            None => {},
        }
        i = i + 1;
    }
    assert(rv.take(row@.len() as int) == rv);
    v
}

/// The numbers of a card, as a flat sequence.
pub fn card_number_list(card: &Card) -> (v: Vec<u8>)
    ensures
        v@ == card_numbers(card.deep_view()),
{
    let ghost c = card.deep_view();
    let mut v: Vec<u8> = Vec::new();
    let mut r: usize = 0;
    while r < card.len()
        invariant
            c == card.deep_view(),
            r <= card@.len(),
            v@ == card_numbers(c.take(r as int)),
        decreases card@.len() - r,
    {
        let row = &card[r];
        let ghost before = v@;
        let mut i: usize = 0;
        while i < row.len()
            invariant
                c == card.deep_view(),
                r < card@.len(),
                *row == card@[r as int],
                i <= row@.len(),
                v@ == before + row_numbers(c[r as int].take(i as int)),
            decreases row@.len() - i,
        {
            assert(c[r as int].take(i + 1).drop_last() == c[r as int].take(i as int));
            match row[i] {
                Some(n) => {
                    v.push(n);
                },
                None => {},
            }
            assert(v@ == before + row_numbers(c[r as int].take(i + 1)));
            i = i + 1;
        }
        assert(c[r as int].take(row@.len() as int) == c[r as int]);
        assert(c.take(r + 1).drop_last() == c.take(r as int));
        r = r + 1;
    }
    assert(c.take(card@.len() as int) == c);
    v
}

} // verus!

verus! {

/// The byte a cell contributes to a card's id: its number, or 0 when empty.
pub open spec fn cell_byte(c: Option<u8>) -> u8 {
    match c {
        Some(n) => n,
        None => 0,
    }
}

/// The bytes of a row.
pub open spec fn row_bytes(row: Seq<Option<u8>>) -> Seq<u8>
    decreases row.len(),
{
    if row.len() == 0 {
        Seq::empty()
    } else {
        row_bytes(row.drop_last()).push(cell_byte(row.last()))
    }
}

/// The bytes of a card, row by row.
pub open spec fn card_bytes(card: Seq<Seq<Option<u8>>>) -> Seq<u8>
    decreases card.len(),
{
    if card.len() == 0 {
        Seq::empty()
    } else {
        card_bytes(card.drop_last()) + row_bytes(card.last())
    }
}

/// One single-byte write per byte.
pub open spec fn byte_writes(bytes: Seq<u8>) -> Seq<Seq<u8>> {
    bytes.map_values(|b: u8| seq![b])
}

/// The id of a card: the `DefaultHasher` digest of its cells, one byte each.
pub open spec fn card_id_of(card: Seq<Seq<Option<u8>>>) -> u64 {
    DefaultHasher::spec_finish(byte_writes(card_bytes(card)))
}

/// The text id of a generated card: its id in 16 upper-case hex digits.
pub open spec fn card_id_text(card: Seq<Seq<Option<u8>>>) -> Seq<char> {
    hex_fixed(card_id_of(card) as nat, 16, true)
}

/// The board card: nine rows of ten numbers, 1 to 90 in order.
pub open spec fn board_card_grid() -> Seq<Seq<Option<u8>>> {
    Seq::new(9, |r: int| Seq::new(10, |c: int| Some((1 + 10 * r + c) as u8)))
}

/// A copy of a card.
pub fn copy_card(card: &Card) -> (c: Card)
    ensures
        c.deep_view() == card.deep_view(),
        c@.len() == card@.len(),
{
    let mut c: Card = Vec::new();
    let mut r: usize = 0;
    while r < card.len()
        invariant
            r <= card@.len(),
            c@.len() == r,
            forall|j: int| 0 <= j < r ==> (#[trigger] c@[j])@ == card@[j]@,
        decreases card@.len() - r,
    {
        let mut row: Vec<Option<u8>> = Vec::new();
        let mut i: usize = 0;
        while i < card[r].len()
            invariant
                r < card@.len(),
                i <= card@[r as int]@.len(),
                row@ == card@[r as int]@.take(i as int),
            decreases card@[r as int]@.len() - i,
        {
            row.push(card[r][i]);
            i = i + 1;
        }
        assert(row@ == card@[r as int]@);
        c.push(row);
        r = r + 1;
    }
    assert(c.deep_view() =~= card.deep_view()) by {
        assert forall|j: int| 0 <= j < c@.len() implies c.deep_view()[j] == card.deep_view()[j] by {
            assert(c@[j]@ == card@[j]@);
            assert(c.deep_view()[j] =~= card.deep_view()[j]);
        }
    }
    c
}

/// The client holding a card: the assignment's client, the board for the
/// board card, otherwise "Unknown".
pub open spec fn client_for_card(m: &CardAssignmentManager, card_id: Seq<char>) -> Seq<char> {
    if m.assignments.has(card_id) {
        m.assignments.value_of(card_id).client_id@
    } else if card_id == board_id() {
        board_id()
    } else {
        "Unknown"@
    }
}

/// Card assignments of one game: assignments by card id, and the card ids
/// of each client in the order they were assigned.
#[derive(Debug, Clone)]
pub struct CardAssignmentManager {
    pub assignments: StrMap<CardAssignment>,
    pub client_cards: StrMap<Vec<String>>,
}

/// What a card assignment records: its card id, its client id and its card.
pub open spec fn assignment_view(a: CardAssignment) -> (Seq<char>, Seq<char>, Seq<Seq<Option<u8>>>) {
    (a.card_id@, a.client_id@, a.card_data.deep_view())
}

/// What a card manager records, entry by entry and in order: each card id
/// with its assignment, and each client with its list of card ids.
pub open spec fn manager_view(m: CardAssignmentManager) -> (
    Seq<(Seq<char>, (Seq<char>, Seq<char>, Seq<Seq<Option<u8>>>))>,
    Seq<(Seq<char>, Seq<String>)>,
) {
    (
        Seq::new(
            m.assignments.entries().len(),
            |i: int| (m.assignments.entries()[i].0@, assignment_view(m.assignments.entries()[i].1)),
        ),
        Seq::new(
            m.client_cards.entries().len(),
            |i: int| (m.client_cards.entries()[i].0@, m.client_cards.entries()[i].1@),
        ),
    )
}

impl CardAssignmentManager {
    /// A copy of the manager: the same assignments and card lists, in the
    /// same order.
    pub fn duplicate(&self) -> (m: Self)
        ensures
            manager_view(m) == manager_view(*self),
            self.wf() ==> m.wf(),
    {
        let mut assignments: StrMap<CardAssignment> = StrMap::new();
        let mut i: usize = 0;
        while i < self.assignments.len()
            invariant
                i <= self.assignments.entries().len(),
                assignments.entries().len() == i,
                forall|j: int|
                    0 <= j < i ==> (#[trigger] assignments.entries()[j]).0@ == self.assignments.entries()[j].0@
                        && assignment_view(assignments.entries()[j].1) == assignment_view(
                        self.assignments.entries()[j].1,
                    ),
            decreases self.assignments.entries().len() - i,
        {
            let k = self.assignments.key_at(i);
            let a = self.assignments.value_at(i);
            let copy = CardAssignment {
                card_id: a.card_id.clone(),
                client_id: a.client_id.clone(),
                card_data: copy_card(&a.card_data),
            };
            let ghost before = assignments.entries();
            assignments.push_entry(k.clone(), copy);
            proof {
                assert forall|j: int| 0 <= j < i + 1 implies (#[trigger] assignments.entries()[j]).0@
                    == self.assignments.entries()[j].0@ && assignment_view(assignments.entries()[j].1)
                    == assignment_view(self.assignments.entries()[j].1) by {
                    if j < i {
                        assert(assignments.entries()[j] == before[j]);
                    }
                }
            }
            i = i + 1;
        }
        let mut client_cards: StrMap<Vec<String>> = StrMap::new();
        let mut i: usize = 0;
        while i < self.client_cards.len()
            invariant
                i <= self.client_cards.entries().len(),
                client_cards.entries().len() == i,
                forall|j: int|
                    0 <= j < i ==> (#[trigger] client_cards.entries()[j]).0@ == self.client_cards.entries()[j].0@
                        && client_cards.entries()[j].1@ == self.client_cards.entries()[j].1@,
            decreases self.client_cards.entries().len() - i,
        {
            let k = self.client_cards.key_at(i);
            let list = copy_strings(self.client_cards.value_at(i));
            let ghost before = client_cards.entries();
            client_cards.push_entry(k.clone(), list);
            proof {
                assert forall|j: int| 0 <= j < i + 1 implies (#[trigger] client_cards.entries()[j]).0@
                    == self.client_cards.entries()[j].0@ && client_cards.entries()[j].1@
                    == self.client_cards.entries()[j].1@ by {
                    if j < i {
                        assert(client_cards.entries()[j] == before[j]);
                    }
                }
            }
            i = i + 1;
        }
        let m = CardAssignmentManager { assignments, client_cards };
        proof {
            assert(manager_view(m).0 =~= manager_view(*self).0);
            assert(manager_view(m).1 =~= manager_view(*self).1);
            if self.wf() {
                let e = m.assignments.entries();
                let f = self.assignments.entries();
                assert forall|a: int, b: int|
                    0 <= a < e.len() && 0 <= b < e.len() && a != b implies #[trigger] e[a].0@ != #[trigger] e[b].0@ by {
                    assert(e[a].0@ == f[a].0@ && e[b].0@ == f[b].0@);
                }
                assert forall|a: int| 0 <= a < e.len() implies (#[trigger] e[a]).0@ == e[a].1.card_id@
                    && card_shape_ok(e[a].1.card_data.deep_view()) by {
                    assert(assignment_view(e[a].1) == assignment_view(f[a].1));
                    assert(f[a].0@ == f[a].1.card_id@);
                }
                let g = m.client_cards.entries();
                let h = self.client_cards.entries();
                assert forall|a: int, b: int|
                    0 <= a < g.len() && 0 <= b < g.len() && a != b implies #[trigger] g[a].0@ != #[trigger] g[b].0@ by {
                    assert(g[a].0@ == h[a].0@ && g[b].0@ == h[b].0@);
                }
            }
        }
        m
    }

    /// Both maps have distinct keys, each assignment is filed under its own
    /// card id, and every card has a scoreable shape.
    pub open spec fn wf(&self) -> bool {
        &&& self.assignments.wf()
        &&& self.client_cards.wf()
        &&& forall|i: int|
            0 <= i < self.assignments.entries().len() ==> (#[trigger] self.assignments.entries()[i]).0@
                == self.assignments.entries()[i].1.card_id@
        &&& forall|i: int|
            0 <= i < self.assignments.entries().len() ==> card_shape_ok(
                (#[trigger] self.assignments.entries()[i]).1.card_data.deep_view(),
            )
    }

    pub fn new() -> (m: Self)
        ensures
            m.wf(),
            m.assignments.entries() == Seq::<(String, CardAssignment)>::empty(),
            m.client_cards.entries() == Seq::<(String, Vec<String>)>::empty(),
    {
        CardAssignmentManager { assignments: StrMap::new(), client_cards: StrMap::new() }
    }

    /// The card ids assigned to a client, if it is known.
    pub fn get_client_cards(&self, client_id: &str) -> (r: Option<&Vec<String>>)
        requires
            self.wf(),
        ensures
            r matches Some(v) ==> self.client_cards.has(client_id@) && *v
                == self.client_cards.value_of(client_id@),
            r is None <==> !self.client_cards.has(client_id@),
    {
        self.client_cards.get(client_id)
    }

    /// The assignment of a card, if any.
    pub fn get_card_assignment(&self, card_id: &str) -> (r: Option<&CardAssignment>)
        requires
            self.wf(),
        ensures
            r matches Some(a) ==> self.assignments.has(card_id@) && *a
                == self.assignments.value_of(card_id@),
            r is None <==> !self.assignments.has(card_id@),
    {
        self.assignments.get(card_id)
    }

    /// All assignments, by card id.
    pub fn get_all_assignments(&self) -> (m: &StrMap<CardAssignment>)
        ensures
            *m == self.assignments,
    {
        &self.assignments
    }

    /// A client may generate cards when it holds none (or is not known yet).
    pub fn can_client_generate_cards(&self, client_id: &str) -> (b: bool)
        requires
            self.wf(),
        ensures
            b == (!self.client_cards.has(client_id@) || self.client_cards.value_of(
                client_id@,
            )@.len() == 0),
    {
        match self.client_cards.get(client_id) {
            Some(cards) => cards.len() == 0,
            None => true,
        }
    }

    /// Whether a card exists and is assigned to the client.
    pub fn client_owns_card(&self, client_id: &str, card_id: &str) -> (b: bool)
        requires
            self.wf(),
        ensures
            b == (self.assignments.has(card_id@) && self.assignments.value_of(card_id@).client_id@
                == client_id@),
    {
        match self.assignments.get(card_id) {
            Some(assignment) => {
                let cid = string_of_str(client_id);
                assignment.client_id == cid
            },
            None => false,
        }
    }

    /// The cards of a client, each with the client as owner.
    pub fn get_client_assigned_cards(&self, client_id: &str) -> (v: Vec<AssignedCardInfo>)
        requires
            self.wf(),
        ensures
            !self.client_cards.has(client_id@) ==> v@.len() == 0,
            self.client_cards.has(client_id@) ==> v@.len() == self.client_cards.value_of(
                client_id@,
            )@.len() && forall|i: int|
                0 <= i < v@.len() ==> (#[trigger] v@[i]).card_id@ == self.client_cards.value_of(
                    client_id@,
                )@[i]@ && v@[i].assigned_to@ == client_id@,
    {
        let mut v: Vec<AssignedCardInfo> = Vec::new();
        match self.client_cards.get(client_id) {
            Some(card_ids) => {
                let mut i: usize = 0;
                while i < card_ids.len()
                    invariant
                        i <= card_ids@.len(),
                        v@.len() == i,
                        forall|j: int|
                            0 <= j < i ==> (#[trigger] v@[j]).card_id@ == card_ids@[j]@
                                && v@[j].assigned_to@ == client_id@,
                    decreases card_ids@.len() - i,
                {
                    v.push(
                        AssignedCardInfo {
                            card_id: card_ids[i].clone(),
                            assigned_to: string_of_str(client_id),
                        },
                    );
                    i = i + 1;
                }
            },
            None => {},
        }
        v
    }

    /// The client holding a card.
    pub fn get_client_id_for_card(&self, card_id: &str) -> (s: String)
        requires
            self.wf(),
        ensures
            s@ == client_for_card(self, card_id@),
    {
        if let Some(assignment) = self.get_card_assignment(card_id) {
            return assignment.client_id.clone();
        }
        proof {
            lemma_board_id();
        }
        if str_eq(card_id, BOARD_ID) {
            return board_id_string();
        }
        string_of_str("Unknown")
    }
}

} // verus!

verus! {

/// In the allocation pattern, card `card` takes a single number from column `col`
/// (the others take two): each card has three such columns, spread so that
/// no two cards share a pattern and every column is single in exactly two cards.
pub open spec fn is_single(card: int, col: int) -> bool {
    if card == 0 {
        col == 0 || col == 3 || col == 6
    } else if card == 1 {
        col == 1 || col == 4 || col == 7
    } else if card == 2 {
        col == 2 || col == 5 || col == 8
    } else if card == 3 {
        col == 0 || col == 4 || col == 8
    } else if card == 4 {
        col == 1 || col == 5 || col == 6
    } else {
        col == 2 || col == 3 || col == 7
    }
}

/// How many numbers card `card` of a group takes from column `col`.
pub open spec fn share(card: int, col: int) -> nat {
    if is_single(card, col) {
        1
    } else {
        2
    }
}

/// How many numbers column `col` gives to the first `n` cards of a group.
pub open spec fn col_alloc(col: int, n: nat) -> nat
    decreases n,
{
    if n == 0 {
        0
    } else {
        col_alloc(col, (n - 1) as nat) + share(n - 1, col)
    }
}

/// How many numbers card `card` takes from the first `n` columns.
pub open spec fn card_alloc(card: int, n: nat) -> nat
    decreases n,
{
    if n == 0 {
        0
    } else {
        card_alloc(card, (n - 1) as nat) + share(card, n - 1)
    }
}

/// The six cards of a group take all ten numbers of each column, and each
/// card takes fifteen numbers.
proof fn lemma_alloc_totals()
    ensures
        forall|col: int| 0 <= col < 9 ==> #[trigger] col_alloc(col, 6) == 10,
        forall|c: int| 0 <= c < 6 ==> #[trigger] card_alloc(c, 9) == 15,
{
    reveal_with_fuel(col_alloc, 7);
    reveal_with_fuel(card_alloc, 10);
    assert forall|col: int| 0 <= col < 9 implies #[trigger] col_alloc(col, 6) == 10 by {
        if col == 0 {} else if col == 1 {} else if col == 2 {} else if col == 3 {} else if col == 4 {}
        else if col == 5 {} else if col == 6 {} else if col == 7 {} else {}
    }
    assert forall|c: int| 0 <= c < 6 implies #[trigger] card_alloc(c, 9) == 15 by {
        if c == 0 {} else if c == 1 {} else if c == 2 {} else if c == 3 {} else if c == 4 {} else {}
    }
}

/// Fewer cards take no more of a column.
proof fn lemma_col_alloc_mono(col: int, n: nat, m: nat)
    requires
        n <= m,
    ensures
        col_alloc(col, n) <= col_alloc(col, m),
    decreases m,
{
    if n < m {
        lemma_col_alloc_mono(col, n, (m - 1) as nat);
    }
}

/// A number belongs to column `col` of a card: 1-9, then tens, with 80-90 in the last.
pub open spec fn in_column(n: u8, col: int) -> bool {
    if col == 0 {
        1 <= n <= 9
    } else if col == 8 {
        80 <= n <= 90
    } else {
        10 * col <= n <= 10 * col + 9
    }
}

/// A generated card: three rows of nine cells, each number in its column.
pub open spec fn card_grid_ok(c: Seq<Seq<Option<u8>>>) -> bool {
    &&& c.len() == 3
    &&& forall|r: int| 0 <= r < 3 ==> (#[trigger] c[r]).len() == 9
    &&& forall|r: int, col: int|
        0 <= r < 3 && 0 <= col < 9 ==> (#[trigger] c[r][col] matches Some(n) ==> in_column(n, col))
}

/// A generated card has a scoreable shape.
pub proof fn lemma_grid_shape(c: Seq<Seq<Option<u8>>>)
    requires
        card_grid_ok(c),
    ensures
        card_shape_ok(c),
{
}

/// The numbers a column draws from before shuffling: 90 is lent to the first
/// column so that every column holds ten numbers.
pub open spec fn column_source(col: int, n: u8) -> bool {
    if col == 0 {
        (1 <= n <= 9) || n == 90
    } else if col == 8 {
        80 <= n <= 89
    } else {
        10 * col <= n <= 10 * col + 9
    }
}

/// Sorts a vector of numbers in increasing order.
pub fn sort_numbers(v: Vec<u8>) -> (r: Vec<u8>)
    ensures
        r@.to_multiset() == v@.to_multiset(),
        r@.len() == v@.len(),
        forall|i: int, j: int| 0 <= i <= j < r@.len() ==> r@[i] <= r@[j],
{
    let mut r: Vec<u8> = Vec::new();
    let mut i: usize = 0;
    while i < v.len()
        invariant
            i <= v@.len(),
            r@.to_multiset() == v@.take(i as int).to_multiset(),
            r@.len() == i,
            forall|a: int, b: int| 0 <= a <= b < r@.len() ==> r@[a] <= r@[b],
        decreases v@.len() - i,
    {
        let x = v[i];
        let mut p: usize = 0;
        while p < r.len() && r[p] <= x
            invariant
                p <= r@.len(),
                forall|j: int| 0 <= j < p ==> r@[j] <= x,
            decreases r@.len() - p,
        {
            p = p + 1;
        }
        let ghost before = r@;
        r.insert(p, x);
        proof {
            assert forall|a: int, b: int| 0 <= a <= b < r@.len() implies r@[a] <= r@[b] by {
                if a < p && b > p {
                    assert(r@[a] == before[a]);
                    assert(r@[b] == before[b - 1]);
                }
            }
            assert(v@.take(i + 1) == v@.take(i as int).push(x));
        }
        i = i + 1;
    }
    assert(v@.take(v@.len() as int) == v@);
    r
}

/// A permutation of a sequence without duplicates has none either.
pub proof fn lemma_permutation_no_duplicates<A>(s: Seq<A>, t: Seq<A>)
    requires
        s.to_multiset() == t.to_multiset(),
        s.no_duplicates(),
    ensures
        t.no_duplicates(),
{
    s.lemma_multiset_has_no_duplicates();
    t.lemma_multiset_has_no_duplicates_conv();
}

/// Every element of `s` satisfies `p`, and that survives a permutation.
pub proof fn lemma_permutation_keeps<A>(s: Seq<A>, t: Seq<A>, p: spec_fn(A) -> bool)
    requires
        s.to_multiset() == t.to_multiset(),
        forall|i: int| 0 <= i < s.len() ==> p(#[trigger] s[i]),
    ensures
        forall|i: int| 0 <= i < t.len() ==> p(#[trigger] t[i]),
{
    assert forall|i: int| 0 <= i < t.len() implies p(#[trigger] t[i]) by {
        let x = t[i];
        assert(t.contains(x));
        assert(t.to_multiset().count(x) > 0);
        assert(s.to_multiset().count(x) > 0);
        assert(s.contains(x));
        let j = choose|j: int| 0 <= j < s.len() && s[j] == x;
        assert(p(s[j]));
    }
}

impl CardManagement {
    pub fn new() -> (c: Self) {
        CardManagement
    }

    /// How many columns take two numbers and how many take one, for a card
    /// of `numbers_per_card` numbers over `columns` columns.
    fn calculate_column_distribution(&self, numbers_per_card: usize, columns: usize) -> (d: (usize, usize))
        requires
            columns <= numbers_per_card <= 2 * columns,
        ensures
            d.0 == numbers_per_card - columns,
            d.1 == columns - d.0,
            2 * d.0 + d.1 == numbers_per_card,
    {
        let columns_with_2_numbers = numbers_per_card - columns;
        let columns_with_1_number = columns - columns_with_2_numbers;
        (columns_with_2_numbers, columns_with_1_number)
    }

    /// How many numbers each card takes from each column.
    fn create_allocation_matrix(&self, distribution: (usize, usize)) -> (m: Vec<Vec<Number>>)
        ensures
            m@.len() == 6,
            forall|c: int| 0 <= c < 6 ==> (#[trigger] m@[c])@.len() == 9,
            forall|c: int, col: int|
                0 <= c < 6 && 0 <= col < 9 ==> #[trigger] m@[c]@[col] == if is_single(c, col) {
                    1u8
                } else {
                    2u8
                },
    {
        let mut matrix: Vec<Vec<Number>> = Vec::new();
        let mut card: usize = 0;
        while card < 6
            invariant
                card <= 6,
                matrix@.len() == card,
                forall|c: int| 0 <= c < card ==> (#[trigger] matrix@[c])@.len() == 9,
                forall|c: int, col: int|
                    0 <= c < card && 0 <= col < 9 ==> #[trigger] matrix@[c]@[col] == if is_single(
                        c,
                        col,
                    ) {
                        1u8
                    } else {
                        2u8
                    },
            decreases 6 - card,
        {
            let mut row: Vec<Number> = Vec::new();
            let mut col: usize = 0;
            while col < 9
                invariant
                    card < 6,
                    col <= 9,
                    row@.len() == col,
                    forall|j: int| 0 <= j < col ==> #[trigger] row@[j] == if is_single(card as int, j) {
                        1u8
                    } else {
                        2u8
                    },
                decreases 9 - col,
            {
                let single = if card == 0 {
                    col == 0 || col == 3 || col == 6
                } else if card == 1 {
                    col == 1 || col == 4 || col == 7
                } else if card == 2 {
                    col == 2 || col == 5 || col == 8
                } else if card == 3 {
                    col == 0 || col == 4 || col == 8
                } else if card == 4 {
                    col == 1 || col == 5 || col == 6
                } else {
                    col == 2 || col == 3 || col == 7
                };
                row.push(if single { 1 } else { 2 });
                col = col + 1;
            }
            matrix.push(row);
            card = card + 1;
        }
        matrix
    }

    /// The ten numbers column `col` draws from, in order.
    fn column_numbers(col: usize) -> (v: Vec<u8>)
        requires
            col < 9,
        ensures
            v@.len() == 10,
            forall|i: int| 0 <= i < 10 ==> column_source(col as int, #[trigger] v@[i]),
            v@.no_duplicates(),
            forall|x: u8| column_source(col as int, x) ==> #[trigger] v@.contains(x),
    {
        let mut v: Vec<u8> = Vec::new();
        if col == 0 {
            let mut n: u8 = 1;
            while n <= 9
                invariant
                    1 <= n <= 10,
                    v@.len() == n - 1,
                    forall|i: int| 0 <= i < v@.len() ==> #[trigger] v@[i] == i + 1,
                decreases 10 - n,
            {
                v.push(n);
                n = n + 1;
            }
            v.push(90);
            assert forall|i: int, j: int| 0 <= i < j < 10 implies v@[i] < v@[j] by {}
            assert forall|x: u8| column_source(0, x) implies #[trigger] v@.contains(x) by {
                if x == 90 {
                    assert(v@[9] == x);
                } else {
                    assert(v@[x - 1] == x);
                }
            }
        } else {
            let start: u8 = (col * 10) as u8;
            let mut k: u8 = 0;
            while k < 10
                invariant
                    1 <= col < 9,
                    start == col * 10,
                    k <= 10,
                    v@.len() == k,
                    forall|i: int| 0 <= i < v@.len() ==> #[trigger] v@[i] == start + i,
                decreases 10 - k,
            {
                v.push(start + k);
                k = k + 1;
            }
            assert forall|i: int, j: int| 0 <= i < j < 10 implies v@[i] < v@[j] by {}
            assert forall|x: u8| column_source(col as int, x) implies #[trigger] v@.contains(x) by {
                assert(v@[x - start] == x);
            }
        }
        v
    }
}

/// The column parts of a card: nine sorted parts of column numbers.
pub open spec fn parts_ok(parts: Seq<Vec<u8>>) -> bool {
    &&& parts.len() == 9
    &&& forall|col: int, i: int|
        0 <= col < 9 && 0 <= i < parts[col]@.len() ==> column_source(col, #[trigger] parts[col]@[i])
    &&& forall|col: int| 0 <= col < 9 ==> (#[trigger] parts[col])@.len() <= 2
    &&& forall|col: int| 0 <= col < 9 ==> (#[trigger] parts[col])@.no_duplicates()
}

impl CardManagement {
    /// Shares out each column's numbers among the six cards as the matrix
    /// says, each card's part of a column sorted.
    fn distribute_numbers(&self, allocation_matrix: &[Vec<Number>]) -> (cards: Vec<Vec<Vec<Number>>>)
        requires
            allocation_matrix@.len() == 6,
            forall|c: int| 0 <= c < 6 ==> (#[trigger] allocation_matrix@[c])@.len() == 9,
            forall|c: int, col: int|
                0 <= c < 6 && 0 <= col < 9 ==> #[trigger] allocation_matrix@[c]@[col] == share(c, col),
        ensures
            cards@.len() == 6,
            forall|c: int| 0 <= c < 6 ==> parts_ok(#[trigger] cards@[c]@),
            forall|c: int, col: int|
                0 <= c < 6 && 0 <= col < 9 ==> (#[trigger] cards@[c]@[col])@.len() == share(c, col),
            forall|col: int, x: u8|
                0 <= col < 9 ==> #[trigger] ms_col(part_bag(cards@), col, 6).count(x) == column_count(col, x),
    {
        proof {
            lemma_alloc_totals();
        }
        // parts[col][card]
        let mut by_column: Vec<Vec<Vec<u8>>> = Vec::new();
        let mut col: usize = 0;
        while col < 9
            invariant
                col <= 9,
                allocation_matrix@.len() == 6,
                forall|c: int| 0 <= c < 6 ==> (#[trigger] allocation_matrix@[c])@.len() == 9,
                forall|c: int, k: int|
                    0 <= c < 6 && 0 <= k < 9 ==> #[trigger] allocation_matrix@[c]@[k] == share(c, k),
                forall|k: int| 0 <= k < 9 ==> #[trigger] col_alloc(k, 6) == 10,
                by_column@.len() == col,
                forall|k: int| 0 <= k < col ==> (#[trigger] by_column@[k])@.len() == 6,
                forall|k: int, c: int, i: int|
                    0 <= k < col && 0 <= c < 6 && 0 <= i < by_column@[k]@[c]@.len()
                        ==> column_source(k, #[trigger] by_column@[k]@[c]@[i]),
                forall|k: int, c: int|
                    0 <= k < col && 0 <= c < 6 ==> (#[trigger] by_column@[k]@[c])@.len() == share(c, k),
                forall|k: int, c: int|
                    0 <= k < col && 0 <= c < 6 ==> (#[trigger] by_column@[k]@[c])@.no_duplicates(),
                forall|k: int, x: u8|
                    0 <= k < col ==> #[trigger] bags_sum(by_column@[k]@, 6).count(x) == column_count(k, x),
            decreases 9 - col,
        {
            let mut column = Self::column_numbers(col);
            let ghost source = column@;
            shuffle(&mut column);
            proof {
                lemma_permutation_keeps(source, column@, |n: u8| column_source(col as int, n));
                lemma_permutation_no_duplicates(source, column@);
                lemma_source_counts(source, col as int);
            }
            let mut parts: Vec<Vec<u8>> = Vec::new();
            let mut number_index: usize = 0;
            let mut card: usize = 0;
            while card < 6
                invariant
                    col < 9,
                    card <= 6,
                    allocation_matrix@.len() == 6,
                    forall|c: int| 0 <= c < 6 ==> (#[trigger] allocation_matrix@[c])@.len() == 9,
                    forall|c: int, k: int|
                        0 <= c < 6 && 0 <= k < 9 ==> #[trigger] allocation_matrix@[c]@[k] == share(c, k),
                    col_alloc(col as int, 6) == 10,
                    column@.len() == 10,
                    forall|i: int| 0 <= i < 10 ==> column_source(col as int, #[trigger] column@[i]),
                    number_index == col_alloc(col as int, card as nat),
                    parts@.len() == card,
                    forall|c: int, i: int|
                        0 <= c < card && 0 <= i < parts@[c]@.len() ==> column_source(
                            col as int,
                            #[trigger] parts@[c]@[i],
                        ),
                    forall|c: int| 0 <= c < card ==> (#[trigger] parts@[c])@.len() == share(c, col as int),
                    column@.no_duplicates(),
                    forall|c: int| 0 <= c < card ==> (#[trigger] parts@[c])@.no_duplicates(),
                    bags_sum(parts@, card as nat) == column@.subrange(0, number_index as int).to_multiset(),
                decreases 6 - card,
            {
                proof {
                    lemma_col_alloc_mono(col as int, (card + 1) as nat, 6);
                }
                let quantity = allocation_matrix[card][col] as usize;
                let mut part: Vec<u8> = Vec::new();
                let mut taken: usize = 0;
                let ghost start = number_index;
                while taken < quantity && number_index < column.len()
                    invariant
                        quantity <= 2,
                        taken <= quantity,
                        start + quantity <= 10,
                        number_index == start + taken,
                        column@.len() == 10,
                        part@.len() == taken,
                        part@ == column@.subrange(start as int, number_index as int),
                        forall|i: int| 0 <= i < 10 ==> column_source(col as int, #[trigger] column@[i]),
                    decreases quantity - taken,
                {
                    part.push(column[number_index]);
                    number_index = number_index + 1;
                    taken = taken + 1;
                }
                let ghost unsorted = part@;
                assert forall|i: int| 0 <= i < unsorted.len() implies column_source(
                    col as int,
                    #[trigger] unsorted[i],
                ) by {
                    assert(unsorted[i] == column@[start + i]);
                }
                let sorted = sort_numbers(part);
                proof {
                    lemma_permutation_keeps(unsorted, sorted@, |n: u8| column_source(col as int, n));
                    lemma_permutation_no_duplicates(unsorted, sorted@);
                }
                let ghost before = parts@;
                parts.push(sorted);
                proof {
                    lemma_bags_sum_prefix(parts@, before, card as nat);
                    let whole = column@.subrange(0, number_index as int);
                    let head = column@.subrange(0, start as int);
                    assert(whole =~= head + unsorted);
                    lemma_multiset_commutative(head, unsorted);
                }
                card = card + 1;
            }
            proof {
                assert(column@.subrange(0, number_index as int) =~= column@);
            }
            by_column.push(parts);
            col = col + 1;
        }
        // Transpose into cards[card][col].
        let mut cards: Vec<Vec<Vec<u8>>> = Vec::new();
        let mut card: usize = 0;
        while card < 6
            invariant
                card <= 6,
                by_column@.len() == 9,
                forall|k: int| 0 <= k < 9 ==> (#[trigger] by_column@[k])@.len() == 6,
                forall|k: int, c: int, i: int|
                    0 <= k < 9 && 0 <= c < 6 && 0 <= i < by_column@[k]@[c]@.len() ==> column_source(
                        k,
                        #[trigger] by_column@[k]@[c]@[i],
                    ),
                forall|k: int, c: int|
                    0 <= k < 9 && 0 <= c < 6 ==> (#[trigger] by_column@[k]@[c])@.len() == share(c, k),
                forall|k: int, c: int|
                    0 <= k < 9 && 0 <= c < 6 ==> (#[trigger] by_column@[k]@[c])@.no_duplicates(),
                cards@.len() == card,
                forall|c: int| 0 <= c < card ==> parts_ok(#[trigger] cards@[c]@),
                forall|c: int, k: int|
                    0 <= c < card && 0 <= k < 9 ==> (#[trigger] cards@[c]@[k])@.len() == share(c, k),
                forall|k: int, x: u8|
                    0 <= k < 9 ==> #[trigger] bags_sum(by_column@[k]@, 6).count(x) == column_count(k, x),
                forall|c: int, k: int|
                    0 <= c < card && 0 <= k < 9 ==> #[trigger] cards@[c]@[k]@ == by_column@[k]@[c]@,
            decreases 6 - card,
        {
            let mut parts: Vec<Vec<u8>> = Vec::new();
            let mut col: usize = 0;
            while col < 9
                invariant
                    card < 6,
                    col <= 9,
                    by_column@.len() == 9,
                    forall|k: int| 0 <= k < 9 ==> (#[trigger] by_column@[k])@.len() == 6,
                    forall|k: int, c: int, i: int|
                        0 <= k < 9 && 0 <= c < 6 && 0 <= i < by_column@[k]@[c]@.len()
                            ==> column_source(k, #[trigger] by_column@[k]@[c]@[i]),
                    forall|k: int, c: int|
                        0 <= k < 9 && 0 <= c < 6 ==> (#[trigger] by_column@[k]@[c])@.len() == share(c, k),
                    forall|k: int, c: int|
                        0 <= k < 9 && 0 <= c < 6 ==> (#[trigger] by_column@[k]@[c])@.no_duplicates(),
                    forall|k: int| 0 <= k < col ==> (#[trigger] parts@[k])@.no_duplicates(),
                    parts@.len() == col,
                    forall|k: int, i: int|
                        0 <= k < col && 0 <= i < parts@[k]@.len() ==> column_source(
                            k,
                            #[trigger] parts@[k]@[i],
                        ),
                    forall|k: int| 0 <= k < col ==> (#[trigger] parts@[k])@.len() == share(card as int, k),
                    forall|k: int| 0 <= k < col ==> #[trigger] parts@[k]@ == by_column@[k]@[card as int]@,
                decreases 9 - col,
            {
                let part = copy_bytes(&by_column[col][card]);
                assert(part@ == by_column@[col as int]@[card as int]@);
                parts.push(part);
                col = col + 1;
            }
            cards.push(parts);
            card = card + 1;
        }
        proof {
            assert forall|col: int, x: u8| 0 <= col < 9 implies #[trigger] ms_col(part_bag(cards@), col, 6).count(
                x,
            ) == column_count(col, x) by {
                lemma_col_is_bags(cards@, col, by_column@[col]@, 6);
            }
        }
        cards
    }
}

/// How many numbers the first `n` parts hold.
pub open spec fn parts_total(parts: Seq<Vec<u8>>, n: nat) -> nat
    decreases n,
{
    if n == 0 {
        0
    } else {
        parts_total(parts, (n - 1) as nat) + parts[n - 1]@.len()
    }
}

/// Parts sized as card `c`'s shares hold its shares.
proof fn lemma_parts_total_shares(parts: Seq<Vec<u8>>, c: int, n: nat)
    requires
        n <= 9,
        forall|col: int| 0 <= col < 9 ==> (#[trigger] parts[col])@.len() == share(c, col),
    ensures
        parts_total(parts, n) == card_alloc(c, n),
    decreases n,
{
    if n > 0 {
        lemma_parts_total_shares(parts, c, (n - 1) as nat);
    }
}

/// Parts whose first and last columns hold as many numbers between them,
/// and whose other columns as many each, hold as many numbers.
proof fn lemma_parts_total_moved(a: Seq<Vec<u8>>, b: Seq<Vec<u8>>)
    requires
        a.len() == 9,
        b.len() == 9,
        a[0]@.len() + a[8]@.len() == b[0]@.len() + b[8]@.len(),
        forall|col: int| 1 <= col < 8 ==> (#[trigger] a[col])@.len() == b[col]@.len(),
    ensures
        parts_total(a, 9) == parts_total(b, 9),
{
    reveal_with_fuel(parts_total, 10);
    assert(a[1]@.len() == b[1]@.len());
    assert(a[2]@.len() == b[2]@.len());
    assert(a[3]@.len() == b[3]@.len());
    assert(a[4]@.len() == b[4]@.len());
    assert(a[5]@.len() == b[5]@.len());
    assert(a[6]@.len() == b[6]@.len());
    assert(a[7]@.len() == b[7]@.len());
}

/// How many of `0..n` leave remainder `r` when divided by three.
pub open spec fn residue_count(n: int, r: int) -> int {
    n / 3 + if r < n % 3 {
        1int
    } else {
        0int
    }
}

/// Some of the `len` (at most three) positions from `p` leaves remainder `r`.
pub open spec fn hits(p: int, len: int, r: int) -> bool {
    ||| len > 0 && p % 3 == r
    ||| len > 1 && (p + 1) % 3 == r
    ||| len > 2 && (p + 2) % 3 == r
}

/// Up to three more positions add one to the count of each remainder they hit.
proof fn lemma_residue_step(p: int, len: int, r: int)
    requires
        p >= 0,
        0 <= len <= 3,
        0 <= r < 3,
    ensures
        residue_count(p + len, r) == residue_count(p, r) + if hits(p, len, r) {
            1int
        } else {
            0int
        },
{
    let q = p / 3;
    let s = p % 3;
    assert(p == 3 * q + s);
    assert((p + 1) % 3 == (s + 1) % 3);
    assert((p + 2) % 3 == (s + 2) % 3);
}

/// A laid-out row: nine cells, each number in its column, five numbers.
pub open spec fn full_row(r: Seq<Option<u8>>) -> bool {
    &&& r.len() == 9
    &&& forall|col: int| 0 <= col < 9 ==> (#[trigger] r[col] matches Some(n) ==> in_column(n, col))
    &&& row_numbers(r).len() == 5
}

/// A card of a group: three rows of nine cells, each number in its column,
/// five numbers in each row.
pub open spec fn card_full(c: Seq<Seq<Option<u8>>>) -> bool {
    &&& card_grid_ok(c)
    &&& forall|r: int| 0 <= r < 3 ==> row_numbers(#[trigger] c[r]).len() == 5
}

/// Every card of a group holds fifteen numbers, five in each of its three
/// rows of nine cells, each in its column.
pub proof fn law_card_has_fifteen_numbers(c: Seq<Seq<Option<u8>>>)
    requires
        card_full(c),
    ensures
        c.len() == 3,
        forall|r: int| 0 <= r < 3 ==> #[trigger] c[r].len() == 9,
        forall|r: int| 0 <= r < 3 ==> row_numbers(#[trigger] c[r]).len() == 5,
        card_numbers(c).len() == 15,
{
    reveal_with_fuel(card_numbers, 4);
    assert(c.drop_last().drop_last().drop_last() =~= Seq::<Seq<Option<u8>>>::empty());
    assert(c.drop_last().drop_last().last() == c[0]);
    assert(c.drop_last().last() == c[1]);
    assert(c.last() == c[2]);
    assert(row_numbers(c[0]).len() == 5);
    assert(row_numbers(c[1]).len() == 5);
    assert(row_numbers(c[2]).len() == 5);
}

/// The parts of a card once 90 is back in the last column: nine parts of
/// numbers that belong to their columns, at most three per column.
pub open spec fn placed_parts_ok(parts: Seq<Vec<u8>>) -> bool {
    &&& parts.len() == 9
    &&& forall|col: int, i: int|
        0 <= col < 9 && 0 <= i < parts[col]@.len() ==> in_column(#[trigger] parts[col]@[i], col)
    &&& forall|col: int| 0 <= col < 9 ==> (#[trigger] parts[col])@.len() <= 3
}

/// A card follows row `k` of the allocation pattern: it has `share(k, col)`
/// numbers in each of the middle columns, and `share(k, 0) + share(k, 8)`
/// between the first and the last column (90, lent to the first column for
/// the allocation, ends in the last).
pub open spec fn follows_pattern(c: Seq<Seq<Option<u8>>>, k: int) -> bool {
    &&& forall|col: int| 1 <= col < 8 ==> #[trigger] filled_in_column(c, col) == share(k, col)
    &&& filled_in_column(c, 0) + filled_in_column(c, 8) == share(k, 0) + share(k, 8)
}

/// How many numbers come before each part: the start of its turn among the rows.
pub open spec fn totals_of(parts: Seq<Vec<u8>>) -> spec_fn(int) -> int {
    |j: int| parts_total(parts, j as nat) as int
}

impl CardManagement {
    /// Assigns each number of each column, in turn, to the row holding the
    /// fewest numbers so far (the first such row on a tie).
    fn calculate_row_assignments(&self, card_numbers: &[Vec<u8>], columns: usize) -> (rows: Vec<Vec<usize>>)
        requires
            columns <= 9,
            columns <= card_numbers@.len(),
            forall|c: int| 0 <= c < columns ==> (#[trigger] card_numbers@[c])@.len() <= 3,
        ensures
            rows@.len() == columns,
            forall|c: int| 0 <= c < columns ==> (#[trigger] rows@[c])@.len() == card_numbers@[c]@.len(),
            forall|c: int, i: int| 0 <= c < columns && 0 <= i < rows@[c]@.len() ==> #[trigger] rows@[c]@[i] < 3,
            forall|c: int, i: int|
                0 <= c < columns && 0 <= i < rows@[c]@.len() ==> #[trigger] rows@[c]@[i] == (parts_total(
                    card_numbers@,
                    c as nat,
                ) + i) % 3,
    {
        let mut row_assignments: Vec<Vec<usize>> = Vec::new();
        let mut row_counts: Vec<usize> = Vec::new();
        row_counts.push(0);
        row_counts.push(0);
        row_counts.push(0);
        let mut total: usize = 0;
        let mut col: usize = 0;
        while col < columns
            invariant
                columns <= 9,
                columns <= card_numbers@.len(),
                forall|c: int| 0 <= c < columns ==> (#[trigger] card_numbers@[c])@.len() <= 3,
                col <= columns,
                total <= 3 * col,
                total == parts_total(card_numbers@, col as nat),
                row_counts@.len() == 3,
                forall|r: int| 0 <= r < 3 ==> #[trigger] row_counts@[r] <= total,
                forall|r: int| 0 <= r < 3 ==> #[trigger] row_counts@[r] == residue_count(total as int, r),
                row_assignments@.len() == col,
                forall|c: int| 0 <= c < col ==> (#[trigger] row_assignments@[c])@.len() == card_numbers@[c]@.len(),
                forall|c: int, i: int|
                    0 <= c < col && 0 <= i < row_assignments@[c]@.len() ==> #[trigger] row_assignments@[c]@[i] < 3,
                forall|c: int, i: int|
                    0 <= c < col && 0 <= i < row_assignments@[c]@.len() ==> #[trigger] row_assignments@[c]@[i]
                        == (parts_total(card_numbers@, c as nat) + i) % 3,
            decreases columns - col,
        {
            let ghost before = total;
            let numbers_in_column = card_numbers[col].len();
            let mut assignment: Vec<usize> = Vec::new();
            let mut k: usize = 0;
            while k < numbers_in_column
                invariant
                    numbers_in_column <= 3,
                    k <= numbers_in_column,
                    total <= 3 * col + k,
                    total == before + k,
                    col < columns <= 9,
                    row_counts@.len() == 3,
                    forall|r: int| 0 <= r < 3 ==> #[trigger] row_counts@[r] <= total,
                    forall|r: int| 0 <= r < 3 ==> #[trigger] row_counts@[r] == residue_count(total as int, r),
                    assignment@.len() == k,
                    forall|i: int| 0 <= i < k ==> #[trigger] assignment@[i] < 3,
                    forall|i: int| 0 <= i < k ==> #[trigger] assignment@[i] == (before + i) % 3,
                decreases numbers_in_column - k,
            {
                let mut min_count = row_counts[0];
                if row_counts[1] < min_count {
                    min_count = row_counts[1];
                }
                if row_counts[2] < min_count {
                    min_count = row_counts[2];
                }
                let target_row: usize = if row_counts[0] == min_count {
                    0
                } else if row_counts[1] == min_count {
                    1
                } else {
                    2
                };
                assert(target_row == total % 3);
                assignment.push(target_row);
                let c = row_counts[target_row];
                row_counts.set(target_row, c + 1);
                total = total + 1;
                k = k + 1;
            }
            assert(total == parts_total(card_numbers@, (col + 1) as nat));
            row_assignments.push(assignment);
            col = col + 1;
        }
        row_assignments
    }

    /// Moves 90 back to the last column, lays each card's numbers out in
    /// three rows of nine cells, and shuffles the rows of each card.
    fn position_numbers_in_cards(&self, cards_numbers: Vec<Vec<Vec<u8>>>) -> (cards: Vec<Card>)
        requires
            cards_numbers@.len() == 6,
            forall|c: int| 0 <= c < 6 ==> parts_ok(#[trigger] cards_numbers@[c]@),
            forall|c: int, col: int|
                0 <= c < 6 && 0 <= col < 9 ==> (#[trigger] cards_numbers@[c]@[col])@.len() == share(c, col),
        ensures
            cards@.len() == 6,
            forall|c: int| 0 <= c < 6 ==> card_full(#[trigger] cards@[c].deep_view()),
            forall|c: int|
                0 <= c < 6 ==> #[trigger] card_numbers(cards@[c].deep_view()).to_multiset() == bags_sum(
                    cards_numbers@[c]@,
                    9,
                ),
            forall|c: int| 0 <= c < 6 ==> follows_pattern(#[trigger] cards@[c].deep_view(), c),
    {
        proof {
            lemma_alloc_totals();
        }
        let mut cards: Vec<Card> = Vec::new();
        let mut k: usize = 0;
        while k < 6
            invariant
                k <= 6,
                cards_numbers@.len() == 6,
                forall|c: int| 0 <= c < 6 ==> parts_ok(#[trigger] cards_numbers@[c]@),
                forall|c: int, col: int|
                    0 <= c < 6 && 0 <= col < 9 ==> (#[trigger] cards_numbers@[c]@[col])@.len() == share(c, col),
                forall|c: int| 0 <= c < 6 ==> #[trigger] card_alloc(c, 9) == 15,
                cards@.len() == k,
                forall|c: int| 0 <= c < k ==> card_full(#[trigger] cards@[c].deep_view()),
                forall|c: int|
                    0 <= c < k ==> #[trigger] card_numbers(cards@[c].deep_view()).to_multiset() == bags_sum(
                        cards_numbers@[c]@,
                        9,
                    ),
                forall|c: int| 0 <= c < k ==> follows_pattern(#[trigger] cards@[c].deep_view(), c),
            decreases 6 - k,
        {
            let parts = Self::return_ninety(&cards_numbers[k]);
            proof {
                lemma_parts_total_shares(cards_numbers@[k as int]@, k as int, 9);
                lemma_parts_total_moved(parts@, cards_numbers@[k as int]@);
                assert(parts_total(parts@, 9) == 15);
            }
            let row_assignment = self.calculate_row_assignments(parts.as_slice(), 9);
            let mut card: Card = Vec::new();
            let mut row: usize = 0;
            while row < 3
                invariant
                    row <= 3,
                    placed_parts_ok(parts@),
                    parts_total(parts@, 9) == 15,
                    row_assignment@.len() == 9,
                    forall|c: int| 0 <= c < 9 ==> (#[trigger] row_assignment@[c])@.len() == parts@[c]@.len(),
                    forall|c: int, i: int|
                        0 <= c < 9 && 0 <= i < row_assignment@[c]@.len() ==> #[trigger] row_assignment@[c]@[i]
                            == (parts_total(parts@, c as nat) + i) % 3,
                    card@.len() == row,
                    forall|r: int| 0 <= r < row ==> full_row(#[trigger] card@[r]@),
                    forall|r: int, j: int|
                        0 <= r < row && 0 <= j < 9 ==> #[trigger] card@[r]@[j] == cell_for(
                            parts@[j]@,
                            parts_total(parts@, j as nat) as int,
                            r,
                        ),
                decreases 3 - row,
            {
                let mut cells: Vec<Option<u8>> = Vec::new();
                let mut col: usize = 0;
                while col < 9
                    invariant
                        row < 3,
                        col <= 9,
                        placed_parts_ok(parts@),
                        row_assignment@.len() == 9,
                        forall|c: int| 0 <= c < 9 ==> (#[trigger] row_assignment@[c])@.len() == parts@[c]@.len(),
                        forall|c: int, i: int|
                            0 <= c < 9 && 0 <= i < row_assignment@[c]@.len() ==> #[trigger] row_assignment@[c]@[i]
                                == (parts_total(parts@, c as nat) + i) % 3,
                        cells@.len() == col,
                        forall|j: int| 0 <= j < col ==> (#[trigger] cells@[j] matches Some(n) ==> in_column(n, j)),
                        row_numbers(cells@).len() == residue_count(parts_total(parts@, col as nat) as int, row as int),
                        forall|j: int|
                            0 <= j < col ==> #[trigger] cells@[j] == cell_for(
                                parts@[j]@,
                                parts_total(parts@, j as nat) as int,
                                row as int,
                            ),
                    decreases 9 - col,
                {
                    let ghost pre = parts_total(parts@, col as nat) as int;
                    // The last number of the column assigned to this row fills the cell.
                    let mut cell: Option<u8> = None;
                    let mut i: usize = 0;
                    while i < parts[col].len()
                        invariant
                            col < 9,
                            row < 3,
                            placed_parts_ok(parts@),
                            row_assignment@.len() == 9,
                            forall|c: int| 0 <= c < 9 ==> (#[trigger] row_assignment@[c])@.len() == parts@[c]@.len(),
                            forall|c: int, i: int|
                                0 <= c < 9 && 0 <= i < row_assignment@[c]@.len() ==> #[trigger] row_assignment@[c]@[i]
                                    == (parts_total(parts@, c as nat) + i) % 3,
                            pre == parts_total(parts@, col as nat),
                            i <= parts@[col as int]@.len(),
                            cell matches Some(n) ==> in_column(n, col as int),
                            cell is Some == hits(pre, i as int, row as int),
                            cell == cell_for(parts@[col as int]@.take(i as int), pre, row as int),
                        decreases parts@[col as int]@.len() - i,
                    {
                        if row_assignment[col][i] == row {
                            cell = Some(parts[col][i]);
                        }
                        i = i + 1;
                    }
                    proof {
                        assert(parts@[col as int]@.take(parts@[col as int]@.len() as int) =~= parts@[col as int]@);
                        lemma_residue_step(pre, parts@[col as int]@.len() as int, row as int);
                        assert(parts_total(parts@, (col + 1) as nat) == pre + parts@[col as int]@.len());
                    }
                    let ghost before = cells@;
                    cells.push(cell);
                    proof {
                        assert(cells@.drop_last() =~= before);
                    }
                    col = col + 1;
                }
                assert(residue_count(15, row as int) == 5);
                card.push(cells);
                row = row + 1;
            }
            let ghost laid_out = card@;
            shuffle(&mut card);
            proof {
                let totals = totals_of(parts@);
                let g = laid_bag(parts@, totals);
                assert forall|r: int| 0 <= r < 3 implies #[trigger] row_numbers(laid_out[r]@).to_multiset() == ms_row(
                    g,
                    r,
                    9,
                ) by {
                    assert(full_row(laid_out[r]@));
                    assert forall|j: int| 0 <= j < laid_out[r]@.len() implies #[trigger] g(r, j) == cell_ms(
                        laid_out[r]@[j],
                    ) by {
                        assert(laid_out[r]@[j] == cell_for(parts@[j]@, parts_total(parts@, j as nat) as int, r));
                    }
                    lemma_row_cells(laid_out[r]@, g, r);
                }
                lemma_seq_ms_sum_rows(laid_out, row_bag(), g, 9);
                lemma_ms_rows_cols(g, 3, 9);
                lemma_columns_parts(parts@, totals, 9);
                lemma_seq_ms_sum_permutation(laid_out, card@, row_bag());
                assert forall|r: int| 0 <= r < 3 implies #[trigger] card.deep_view()[r] == card@[r]@ by {
                    assert(card.deep_view()[r] =~= card@[r]@);
                }
                lemma_card_rows(card.deep_view(), card@);
                lemma_permutation_keeps(laid_out, card@, |r: Vec<Option<u8>>| full_row(r@));
                assert forall|r: int| 0 <= r < 3 implies (#[trigger] card.deep_view()[r]).len() == 9 by {
                    assert(full_row(card@[r]@));
                }
                assert forall|r: int, col: int| 0 <= r < 3 && 0 <= col < 9 implies (#[trigger] card.deep_view()[r][col] matches Some(n) ==> in_column(n, col)) by {
                    assert(full_row(card@[r]@));
                    assert(card.deep_view()[r][col] == card@[r]@[col]);
                }
                assert forall|r: int| 0 <= r < 3 implies row_numbers(#[trigger] card.deep_view()[r]).len() == 5 by {
                    assert(full_row(card@[r]@));
                    assert(card.deep_view()[r] == card@[r]@);
                }
                assert forall|j: int| 0 <= j < 9 implies #[trigger] filled_in_column(card.deep_view(), j)
                    == parts@[j]@.len() by {
                    let pre = parts_total(parts@, j as nat) as int;
                    let f = col_bag(j);
                    lemma_cells_count(parts@[j]@, pre);
                    lemma_seq_ms_sum_permutation(laid_out, card@, f);
                    lemma_filled_is_bag_len(card.deep_view(), card@, j);
                    let s2 = laid_out.drop_last();
                    let s1 = s2.drop_last();
                    let s0 = s1.drop_last();
                    assert(s0.len() == 0);
                    assert(s1.last() == laid_out[0]);
                    assert(s2.last() == laid_out[1]);
                    assert(laid_out.last() == laid_out[2]);
                    assert(f(laid_out[0]) == cell_ms(cell_for(parts@[j]@, pre, 0)));
                    assert(f(laid_out[1]) == cell_ms(cell_for(parts@[j]@, pre, 1)));
                    assert(f(laid_out[2]) == cell_ms(cell_for(parts@[j]@, pre, 2)));
                    assert(seq_ms_sum(s0, f).len() == 0);
                    assert(seq_ms_sum(s1, f) == seq_ms_sum(s0, f).add(f(laid_out[0])));
                    assert(seq_ms_sum(s2, f) == seq_ms_sum(s1, f).add(f(laid_out[1])));
                    assert(seq_ms_sum(laid_out, f) == seq_ms_sum(s2, f).add(f(laid_out[2])));
                    lemma_cell_ms_len(cell_for(parts@[j]@, pre, 0));
                    lemma_cell_ms_len(cell_for(parts@[j]@, pre, 1));
                    lemma_cell_ms_len(cell_for(parts@[j]@, pre, 2));
                }
                assert(follows_pattern(card.deep_view(), k as int));
            }
            cards.push(card);
            k = k + 1;
        }
        cards
    }

    /// A card's parts with 90, lent to the first column, returned to the last
    /// one (which stays sorted).
    fn return_ninety(parts: &Vec<Vec<u8>>) -> (placed: Vec<Vec<u8>>)
        requires
            parts_ok(parts@),
        ensures
            placed_parts_ok(placed@),
            placed@[0]@.len() + placed@[8]@.len() == parts@[0]@.len() + parts@[8]@.len(),
            forall|col: int| 1 <= col < 8 ==> (#[trigger] placed@[col])@.len() == parts@[col]@.len(),
            bags_sum(placed@, 9) == bags_sum(parts@, 9),
    {
        let mut placed: Vec<Vec<u8>> = Vec::new();
        let first = &parts[0];
        let mut position: Option<usize> = None;
        let mut i: usize = 0;
        while i < first.len()
            invariant
                i <= first@.len(),
                *first == parts@[0],
                position is None ==> forall|j: int| 0 <= j < i ==> first@[j] != 90,
                position matches Some(p) ==> p < first@.len() && first@[p as int] == 90,
            decreases first@.len() - i,
        {
            if position.is_none() && first[i] == 90 {
                position = Some(i);
            }
            i = i + 1;
        }
        let mut col: usize = 0;
        while col < 9
            invariant
                col <= 9,
                parts_ok(parts@),
                *first == parts@[0],
                position is None ==> forall|j: int| 0 <= j < first@.len() ==> first@[j] != 90,
                position matches Some(p) ==> p < first@.len() && first@[p as int] == 90,
                placed@.len() == col,
                forall|c: int, j: int|
                    0 <= c < col && 0 <= j < placed@[c]@.len() ==> in_column(#[trigger] placed@[c]@[j], c),
                forall|c: int| 0 <= c < col ==> (#[trigger] placed@[c])@.len() <= 3,
                forall|c: int| 1 <= c < col && c < 8 ==> (#[trigger] placed@[c])@.len() == parts@[c]@.len(),
                col > 0 ==> placed@[0]@.len() == parts@[0]@.len() - (if position is Some {
                    1int
                } else {
                    0int
                }),
                col > 8 ==> placed@[8]@.len() == parts@[8]@.len() + (if position is Some {
                    1int
                } else {
                    0int
                }),
                forall|c: int| 1 <= c < col && c < 8 ==> #[trigger] placed@[c]@ == parts@[c]@,
                col > 0 ==> placed@[0]@.to_multiset() == if position is Some {
                    parts@[0]@.to_multiset().remove(90)
                } else {
                    parts@[0]@.to_multiset()
                },
                col > 8 ==> placed@[8]@.to_multiset() == if position is Some {
                    parts@[8]@.to_multiset().insert(90)
                } else {
                    parts@[8]@.to_multiset()
                },
            decreases 9 - col,
        {
            let mut part = copy_bytes(&parts[col]);
            match position {
                Some(p) => {
                    if col == 0 {
                        let ghost before = part@;
                        part.remove(p);
                        proof {
                            to_multiset_remove(before, p as int);
                            assert forall|j: int| 0 <= j < part@.len() implies in_column(#[trigger] part@[j], 0) by {
                                if j < p {
                                    assert(part@[j] == before[j]);
                                    assert(before[j] != before[p as int]);
                                } else {
                                    assert(part@[j] == before[j + 1]);
                                    assert(before[j + 1] != before[p as int]);
                                }
                            }
                        }
                    } else if col == 8 {
                        let ghost before = part@;
                        part.push(90);
                        let ghost unsorted = part@;
                        part = sort_numbers(part);
                        proof {
                            to_multiset_build(before, 90u8);
                        }
                        proof {
                            lemma_permutation_keeps(unsorted, part@, |n: u8| in_column(n, 8));
                        }
                    }
                },
                None => {},
            }
            placed.push(part);
            col = col + 1;
        }
        proof {
            if let Some(p) = position {
                assert(parts@[0]@.to_multiset().count(90) > 0) by {
                    assert(parts@[0]@.contains(90u8));
                }
                assert(placed@[0]@.to_multiset().add(placed@[8]@.to_multiset()) =~= parts@[0]@.to_multiset().add(
                    parts@[8]@.to_multiset(),
                ));
            }
            lemma_bags_sum_moved(placed@, parts@);
        }
        placed
    }

    /// Generates a group of six cards sharing out the ninety numbers.
    pub fn generate_card_group(&self) -> (cards: Vec<Card>)
        ensures
            cards@.len() == 6,
            forall|c: int| 0 <= c < 6 ==> card_full(#[trigger] cards@[c].deep_view()),
            forall|n: u8| #[trigger] group_numbers(cards@).count(n) == if 1 <= n <= 90 {
                1nat
            } else {
                0nat
            },
            group_follows_pattern(cards@),
    {
        let columns: usize = 9;
        let numbers_per_card: usize = 15;
        let distribution = self.calculate_column_distribution(numbers_per_card, columns);
        let allocation_matrix = self.create_allocation_matrix(distribution);
        let cards_numbers = self.distribute_numbers(allocation_matrix.as_slice());
        let mut cards = self.position_numbers_in_cards(cards_numbers);
        let ghost positioned = cards@;
        shuffle(&mut cards);
        proof {
            lemma_permutation_keeps(positioned, cards@, |c: Card| card_full(c.deep_view()));
            let g = part_bag(cards_numbers@);
            assert forall|c: int| 0 <= c < 6 implies #[trigger] card_bag()(positioned[c]) == ms_row(g, c, 9) by {
                lemma_row_is_bags(cards_numbers@, c, 9);
            }
            lemma_seq_ms_sum_rows(positioned, card_bag(), g, 9);
            lemma_ms_rows_cols(g, 6, 9);
            lemma_columns_cover(g, 6);
            lemma_seq_ms_sum_permutation(positioned, cards@, card_bag());
            assert forall|c: int| 0 <= c < 6 implies card_numbers(#[trigger] positioned[c].deep_view()).len() > 0 by {
                law_card_has_fifteen_numbers(positioned[c].deep_view());
            }
            lemma_cards_distinct(positioned);
            lemma_permutation_no_duplicates(positioned, cards@);
            lemma_pattern_after_shuffle(positioned, cards@);
        }
        cards
    }
}

/// Distinct positions `p` of 0..6: a permutation of the six rows.
pub open spec fn is_perm6(p: Seq<int>) -> bool {
    &&& p.len() == 6
    &&& p.no_duplicates()
    &&& forall|i: int| 0 <= i < 6 ==> 0 <= #[trigger] p[i] < 6
}

/// The six cards of a group follow the six rows of the allocation pattern,
/// one row each: in each row's single-number columns (1, 4, 7; 2, 5, 8;
/// 3, 6, 9; 1, 5, 9; 2, 6, 7; 3, 4, 8) a card has one number, in the others
/// two, but for the number 90, which moves from the first column's count to
/// the last's.
pub open spec fn group_follows_pattern(cards: Seq<Card>) -> bool {
    exists|perm: Seq<int>|
        #[trigger] is_perm6(perm) && forall|i: int| 0 <= i < 6 ==> follows_pattern(cards[i].deep_view(), perm[i])
}

/// Cards whose numbers, all together, hold no number twice, and each hold
/// some number, are distinct.
proof fn lemma_cards_distinct(s: Seq<Card>)
    requires
        forall|n: u8| #[trigger] group_numbers(s).count(n) <= 1,
        forall|c: int| 0 <= c < s.len() ==> card_numbers(#[trigger] s[c].deep_view()).len() > 0,
    ensures
        s.no_duplicates(),
{
    broadcast use vstd::multiset::group_multiset_axioms, vstd::seq_lib::group_to_multiset_ensures;

    assert forall|i: int, j: int| 0 <= i < s.len() && 0 <= j < s.len() && i != j implies s[i] != s[j] by {
        if s[i] == s[j] {
            let (a, b) = if i < j { (i, j) } else { (j, i) };
            let f = card_bag();
            let nums = card_numbers(s[a].deep_view());
            assert(nums.len() > 0);
            let x = nums[0];
            assert(nums.contains(x));
            lemma_seq_ms_sum_remove(s, f, b);
            let s1 = s.remove(b);
            assert(s1[a] == s[a]);
            lemma_seq_ms_sum_remove(s1, f, a);
            assert(f(s[a]) == nums.to_multiset());
            assert(f(s[b]) == nums.to_multiset());
            assert(nums.to_multiset().count(x) > 0);
            assert(group_numbers(s).count(x) >= 2);
            assert(group_numbers(s).count(x) <= 1);
        }
    }
}

/// Card `c` of the laid-out group follows row `c` of the pattern; after the
/// cards are shuffled each follows a distinct row.
proof fn lemma_pattern_after_shuffle(before: Seq<Card>, after: Seq<Card>)
    requires
        before.len() == 6,
        after.len() == 6,
        before.to_multiset() == after.to_multiset(),
        before.no_duplicates(),
        after.no_duplicates(),
        forall|c: int| 0 <= c < 6 ==> follows_pattern(#[trigger] before[c].deep_view(), c),
    ensures
        group_follows_pattern(after),
{
    broadcast use vstd::multiset::group_multiset_axioms, vstd::seq_lib::group_to_multiset_ensures;

    let perm = Seq::new(6, |i: int| choose|j: int| 0 <= j < 6 && #[trigger] before[j] == after[i]);
    assert forall|i: int| 0 <= i < 6 implies 0 <= #[trigger] perm[i] < 6 && before[perm[i]] == after[i] by {
        assert(after.contains(after[i]));
        assert(after.to_multiset().count(after[i]) > 0);
        assert(before.contains(after[i]));
        assert(exists|j: int| 0 <= j < 6 && #[trigger] before[j] == after[i]);
    }
    assert forall|i: int, k: int| 0 <= i < 6 && 0 <= k < 6 && i != k implies perm[i] != perm[k] by {
        assert(before[perm[i]] == after[i]);
        assert(before[perm[k]] == after[k]);
        assert(after[i] != after[k]);
    }
    assert(is_perm6(perm));
    assert forall|i: int| 0 <= i < 6 implies follows_pattern(after[i].deep_view(), perm[i]) by {
        assert(before[perm[i]] == after[i]);
        assert(follows_pattern(before[perm[i]].deep_view(), perm[i]));
    }
}

/// Cards of different groups of six have different ids.
pub open spec fn ids_apart_across_groups(v: Seq<CardWithId>) -> bool {
    forall|i: int, j: int|
        0 <= i < j < v.len() && !same_group(i, j) ==> #[trigger] v[i].id != #[trigger] v[j].id
}

/// `seen` holds exactly the ids of the cards.
pub open spec fn ids_seen(seen: Set<u64>, cards: Seq<CardWithId>) -> bool {
    forall|x: u64| seen.contains(x) <==> exists|i: int| 0 <= i < cards.len() && #[trigger] cards[i].id == x
}

/// Whether some card of `block` has an id in `seen`.
pub fn block_clashes(block: &[CardWithId], seen: &HashSet<u64>) -> (r: bool)
    ensures
        r == exists|i: int| 0 <= i < block@.len() && seen@.contains(#[trigger] block@[i].id),
{
    let mut i: usize = 0;
    while i < block.len()
        invariant
            i <= block@.len(),
            forall|j: int| 0 <= j < i ==> !seen@.contains(#[trigger] block@[j].id),
        decreases block@.len() - i,
    {
        if seen.contains(&block[i].id) {
            return true;
        }
        i = i + 1;
    }
    false
}

/// Adds the ids of the cards to `seen`.
fn add_ids(seen: &mut HashSet<u64>, cards: &Vec<CardWithId>)
    ensures
        forall|x: u64| final(seen)@.contains(x) <==> (old(seen)@.contains(x) || exists|i: int|
            0 <= i < cards@.len() && #[trigger] cards@[i].id == x),
{
    let mut j: usize = 0;
    while j < cards.len()
        invariant
            j <= cards@.len(),
            forall|x: u64| seen@.contains(x) <==> (old(seen)@.contains(x) || exists|i: int|
                0 <= i < j && #[trigger] cards@[i].id == x),
        decreases cards@.len() - j,
    {
        seen.insert(cards[j].id);
        proof {
            assert forall|x: u64| seen@.contains(x) <==> (old(seen)@.contains(x) || exists|i: int|
                0 <= i < j + 1 && #[trigger] cards@[i].id == x) by {
                if x == cards@[j as int].id {
                    assert(cards@[j as int].id == x);
                }
            }
        }
        j = j + 1;
    }
}

/// Appending a group whose ids were not seen before (when `fresh`) to whole
/// groups keeps the ids of different groups apart, and the seen ids become
/// those of all cards.
proof fn lemma_appended_ids(
    seen: Set<u64>,
    seen_after: Set<u64>,
    before: Seq<CardWithId>,
    added: Seq<CardWithId>,
    after: Seq<CardWithId>,
    fresh: bool,
)
    requires
        before.len() % 6 == 0,
        added.len() <= 6,
        after == before + added,
        ids_seen(seen, before),
        forall|x: u64| seen_after.contains(x) <==> (seen.contains(x) || exists|i: int|
            0 <= i < added.len() && #[trigger] added[i].id == x),
        fresh ==> forall|i: int| 0 <= i < added.len() ==> !seen.contains(#[trigger] added[i].id),
    ensures
        ids_seen(seen_after, after),
        fresh && ids_apart_across_groups(before) ==> ids_apart_across_groups(after),
{
    let k = before.len() as int;
    assert forall|x: u64| seen_after.contains(x) <==> exists|i: int| 0 <= i < after.len() && #[trigger] after[i].id == x by {
        if seen_after.contains(x) {
            if seen.contains(x) {
                let i = choose|i: int| 0 <= i < before.len() && #[trigger] before[i].id == x;
                assert(after[i] == before[i]);
            } else {
                let i = choose|i: int| 0 <= i < added.len() && #[trigger] added[i].id == x;
                assert(after[k + i] == added[i]);
            }
        }
        if exists|i: int| 0 <= i < after.len() && #[trigger] after[i].id == x {
            let i = choose|i: int| 0 <= i < after.len() && #[trigger] after[i].id == x;
            if i < k {
                assert(after[i] == before[i]);
                assert(seen.contains(x));
            } else {
                assert(after[i] == added[i - k]);
            }
        }
    }
    if fresh && ids_apart_across_groups(before) {
        assert forall|i: int, j: int| 0 <= i < j < after.len() && !same_group(i, j) implies #[trigger] after[i].id
            != #[trigger] after[j].id by {
            if j < k {
                assert(after[i] == before[i]);
                assert(after[j] == before[j]);
            } else if i >= k {
                assert(i / 6 == k / 6) by (nonlinear_arith)
                    requires
                        k <= i < k + 6,
                        k % 6 == 0,
                ;
                assert(j / 6 == k / 6) by (nonlinear_arith)
                    requires
                        k <= j < k + 6,
                        k % 6 == 0,
                ;
            } else {
                assert(after[i] == before[i]);
                assert(after[j] == added[j - k]);
                assert(seen.contains(before[i].id));
                assert(!seen.contains(added[j - k].id));
            }
        }
    }
}

/// Appending a group of at most six full cards that share no number to a
/// list of whole groups keeps every card full and keeps the cards of each
/// group apart.
proof fn lemma_appended_group(before: Seq<CardWithId>, added: Seq<CardWithId>, after: Seq<CardWithId>)
    requires
        before.len() % 6 == 0,
        added.len() <= 6,
        after == before + added,
        forall|c: int| 0 <= c < before.len() ==> card_full(#[trigger] before[c].card.deep_view())
            && before[c].id == card_id_of(before[c].card.deep_view()),
        forall|c: int| 0 <= c < added.len() ==> card_full(#[trigger] added[c].card.deep_view())
            && added[c].id == card_id_of(added[c].card.deep_view()),
        forall|i: int, j: int|
            0 <= i < j < before.len() && same_group(i, j) ==> share_no_number(
                #[trigger] before[i].card.deep_view(),
                #[trigger] before[j].card.deep_view(),
            ),
        forall|i: int, j: int|
            0 <= i < j < added.len() ==> share_no_number(
                #[trigger] added[i].card.deep_view(),
                #[trigger] added[j].card.deep_view(),
            ),
    ensures
        added.len() == 6 ==> after.len() % 6 == 0,
        forall|c: int| 0 <= c < after.len() ==> card_full(#[trigger] after[c].card.deep_view())
            && after[c].id == card_id_of(after[c].card.deep_view()),
        forall|i: int, j: int|
            0 <= i < j < after.len() && same_group(i, j) ==> share_no_number(
                #[trigger] after[i].card.deep_view(),
                #[trigger] after[j].card.deep_view(),
            ),
{
    let k = before.len() as int;
    assert forall|c: int| 0 <= c < after.len() implies card_full(#[trigger] after[c].card.deep_view())
        && after[c].id == card_id_of(after[c].card.deep_view()) by {
        if c >= k {
            assert(after[c] == added[c - k]);
        } else {
            assert(after[c] == before[c]);
        }
    }
    assert forall|i: int, j: int| 0 <= i < j < after.len() && same_group(i, j) implies share_no_number(
        #[trigger] after[i].card.deep_view(),
        #[trigger] after[j].card.deep_view(),
    ) by {
        if j < k {
            assert(after[i] == before[i]);
            assert(after[j] == before[j]);
            assert(share_no_number(before[i].card.deep_view(), before[j].card.deep_view()));
        } else if i >= k {
            assert(after[i] == added[i - k]);
            assert(after[j] == added[j - k]);
            assert(share_no_number(added[i - k].card.deep_view(), added[j - k].card.deep_view()));
        } else {
            assert(i / 6 < k / 6) by (nonlinear_arith)
                requires
                    0 <= i < k,
                    k % 6 == 0,
            ;
            assert(k / 6 <= j / 6) by (nonlinear_arith)
                requires
                    k <= j,
                    k >= 0,
            ;
        }
    }
}

impl CardManagement {
    /// The id of a card: the `DefaultHasher` digest of its cells, one byte
    /// per cell (the number, or 0 for an empty cell).
    pub fn generate_card_id(&self, card: &Card) -> (id: u64)
        ensures
            id == card_id_of(card.deep_view()),
    {
        let ghost c = card.deep_view();
        let mut hasher = DefaultHasher::new();
        let mut r: usize = 0;
        while r < card.len()
            invariant
                c == card.deep_view(),
                r <= card@.len(),
                hasher@ == byte_writes(card_bytes(c.take(r as int))),
            decreases card@.len() - r,
        {
            let row = &card[r];
            let ghost before = card_bytes(c.take(r as int));
            let mut i: usize = 0;
            while i < row.len()
                invariant
                    c == card.deep_view(),
                    r < card@.len(),
                    *row == card@[r as int],
                    i <= row@.len(),
                    hasher@ == byte_writes(before + row_bytes(c[r as int].take(i as int))),
                decreases row@.len() - i,
            {
                let b: u8 = match row[i] {
                    Some(number) => number,
                    None => 0,
                };
                let buf: [u8; 1] = [b];
                hasher.write(buf.as_slice());
                proof {
                    assert(c[r as int].take(i + 1).drop_last() == c[r as int].take(i as int));
                    assert(c[r as int].take(i + 1).last() == c[r as int][i as int]);
                    assert(buf@ =~= seq![b]);
                    let prev = before + row_bytes(c[r as int].take(i as int));
                    assert(before + row_bytes(c[r as int].take(i + 1)) =~= prev.push(b));
                    assert(byte_writes(prev.push(b)) =~= byte_writes(prev).push(seq![b]));
                }
                i = i + 1;
            }
            proof {
                assert(c[r as int].take(row@.len() as int) == c[r as int]);
                assert(c.take(r + 1).drop_last() == c.take(r as int));
            }
            r = r + 1;
        }
        proof {
            assert(c.take(card@.len() as int) == c);
        }
        hasher.finish()
    }

    /// The cards of `cards` paired with their ids.
    fn with_ids(&self, cards: Vec<Card>) -> (v: Vec<CardWithId>)
        requires
            forall|c: int| 0 <= c < cards@.len() ==> card_full(#[trigger] cards@[c].deep_view()),
        ensures
            v@.len() == cards@.len(),
            forall|c: int| 0 <= c < v@.len() ==> card_full(#[trigger] v@[c].card.deep_view())
                && v@[c].id == card_id_of(v@[c].card.deep_view()),
            forall|c: int| 0 <= c < v@.len() ==> #[trigger] v@[c].card.deep_view() == cards@[c].deep_view(),
    {
        let mut v: Vec<CardWithId> = Vec::new();
        let mut i: usize = 0;
        while i < cards.len()
            invariant
                i <= cards@.len(),
                forall|c: int| 0 <= c < cards@.len() ==> card_full(#[trigger] cards@[c].deep_view()),
                v@.len() == i,
                forall|c: int| 0 <= c < i ==> card_full(#[trigger] v@[c].card.deep_view())
                    && v@[c].id == card_id_of(v@[c].card.deep_view()),
                forall|c: int| 0 <= c < i ==> #[trigger] v@[c].card.deep_view() == cards@[c].deep_view(),
            decreases cards@.len() - i,
        {
            let card = copy_card(&cards[i]);
            let id = self.generate_card_id(&card);
            let ghost before = v@;
            v.push(CardWithId { id, card });
            proof {
                assert forall|c: int| 0 <= c < i + 1 implies card_full(#[trigger] v@[c].card.deep_view())
                    && v@[c].id == card_id_of(v@[c].card.deep_view()) && v@[c].card.deep_view()
                    == cards@[c].deep_view() by {
                    if c < i {
                        assert(v@[c] == before[c]);
                    }
                }
            }
            i = i + 1;
        }
        v
    }

    /// A group of six cards with their ids, regenerated (up to 100 attempts)
    /// while two cards of the group share an id.
    pub fn generate_card_group_with_ids(&self) -> (v: Vec<CardWithId>)
        ensures
            v@.len() == 6,
            forall|c: int| 0 <= c < 6 ==> card_full(#[trigger] v@[c].card.deep_view())
                && v@[c].id == card_id_of(v@[c].card.deep_view()),
            forall|n: u8| #[trigger] id_group_numbers(v@).count(n) == if 1 <= n <= 90 {
                1nat
            } else {
                0nat
            },
    {
        let mut attempt: usize = 0;
        loop
            invariant
                attempt < 100,
            decreases 100 - attempt,
        {
            attempt = attempt + 1;
            let cards = self.generate_card_group();
            let mut seen_ids: HashSet<u64> = HashSet::new();
            let mut has_duplicates = false;
            let mut i: usize = 0;
            while i < cards.len()
                invariant
                    i <= cards@.len(),
                decreases cards@.len() - i,
            {
                let id = self.generate_card_id(&cards[i]);
                if seen_ids.contains(&id) {
                    has_duplicates = true;
                    break;
                }
                seen_ids.insert(id);
                i = i + 1;
            }
            if !has_duplicates || attempt >= 100 {
                let v = self.with_ids(cards);
                proof {
                    assert forall|i: int| 0 <= i < v@.len() implies #[trigger] id_card_bag()(v@[i]) == card_bag()(
                        cards@[i],
                    ) by {
                        assert(v@[i].card.deep_view() == cards@[i].deep_view());
                    }
                    lemma_seq_ms_sum_pointwise(v@, id_card_bag(), cards@, card_bag());
                    assert(id_group_numbers(v@) == group_numbers(cards@));
                }
                return v;
            }
        }
    }

    /// `requested_cards` cards with their ids, built from whole groups; a
    /// group whose ids clash with earlier groups is regenerated (up to 100
    /// regenerations in all, see `generate_cards_within`), and of the last
    /// group a random selection of the cards still needed is kept.
    pub fn generate_cards(&self, requested_cards: usize) -> (v: Vec<CardWithId>)
        ensures
            v@.len() == requested_cards,
            forall|c: int| 0 <= c < v@.len() ==> card_full(#[trigger] v@[c].card.deep_view())
                && v@[c].id == card_id_of(v@[c].card.deep_view()),
            forall|i: int, j: int|
                0 <= i < j < v@.len() && same_group(i, j) ==> share_no_number(
                    #[trigger] v@[i].card.deep_view(),
                    #[trigger] v@[j].card.deep_view(),
                ),
    {
        let (v, _) = self.generate_cards_within(requested_cards, 100);
        v
    }

    /// `requested_cards` cards with their ids, built from whole groups; a
    /// group with an id that an earlier group holds is regenerated while
    /// fewer than `budget` regenerations have been made, and of the last
    /// group a random selection of the cards still needed is kept. Returns
    /// the cards and the number of regenerations made: when that stays below
    /// the budget, cards of different groups have different ids.
    pub fn generate_cards_within(&self, requested_cards: usize, budget: usize) -> (r: (Vec<CardWithId>, usize))
        ensures
            r.0@.len() == requested_cards,
            forall|c: int| 0 <= c < r.0@.len() ==> card_full(#[trigger] r.0@[c].card.deep_view())
                && r.0@[c].id == card_id_of(r.0@[c].card.deep_view()),
            forall|i: int, j: int|
                0 <= i < j < r.0@.len() && same_group(i, j) ==> share_no_number(
                    #[trigger] r.0@[i].card.deep_view(),
                    #[trigger] r.0@[j].card.deep_view(),
                ),
            r.1 <= budget,
            r.1 < budget ==> ids_apart_across_groups(r.0@),
    {
        let mut all_cards: Vec<CardWithId> = Vec::new();
        let mut remaining_cards = requested_cards;
        let mut global_ids: HashSet<u64> = HashSet::new();
        let mut total_regenerations: usize = 0;
        while remaining_cards > CARDSNUMBER as usize
            invariant
                all_cards@.len() + remaining_cards == requested_cards,
                all_cards@.len() % 6 == 0,
                total_regenerations <= budget,
                forall|c: int| 0 <= c < all_cards@.len() ==> card_full(#[trigger] all_cards@[c].card.deep_view())
                    && all_cards@[c].id == card_id_of(all_cards@[c].card.deep_view()),
                forall|i: int, j: int|
                    0 <= i < j < all_cards@.len() && same_group(i, j) ==> share_no_number(
                        #[trigger] all_cards@[i].card.deep_view(),
                        #[trigger] all_cards@[j].card.deep_view(),
                    ),
                ids_seen(global_ids@, all_cards@),
                total_regenerations < budget ==> ids_apart_across_groups(all_cards@),
            decreases remaining_cards, budget - total_regenerations,
        {
            let mut block = self.generate_card_group_with_ids();
            proof {
                lemma_group_disjoint(block@);
            }
            let has_global_duplicates = block_clashes(block.as_slice(), &global_ids);
            if has_global_duplicates && total_regenerations < budget {
                total_regenerations = total_regenerations + 1;
                continue;
            }
            let ghost seen = global_ids@;
            add_ids(&mut global_ids, &block);
            let ghost before = all_cards@;
            let ghost added = block@;
            all_cards.append(&mut block);
            proof {
                lemma_appended_group(before, added, all_cards@);
                lemma_appended_ids(seen, global_ids@, before, added, all_cards@, !has_global_duplicates);
            }
            remaining_cards = remaining_cards - CARDSNUMBER as usize;
        }
        if remaining_cards > 0 {
            loop
                invariant_except_break
                    all_cards@.len() + remaining_cards == requested_cards,
                    all_cards@.len() % 6 == 0,
                    ids_seen(global_ids@, all_cards@),
                invariant
                    0 < remaining_cards <= 6,
                    total_regenerations <= budget,
                    forall|c: int| 0 <= c < all_cards@.len() ==> card_full(#[trigger] all_cards@[c].card.deep_view())
                        && all_cards@[c].id == card_id_of(all_cards@[c].card.deep_view()),
                    forall|i: int, j: int|
                        0 <= i < j < all_cards@.len() && same_group(i, j) ==> share_no_number(
                            #[trigger] all_cards@[i].card.deep_view(),
                            #[trigger] all_cards@[j].card.deep_view(),
                        ),
                    total_regenerations < budget ==> ids_apart_across_groups(all_cards@),
                ensures
                    all_cards@.len() == requested_cards,
                    forall|c: int| 0 <= c < all_cards@.len() ==> card_full(#[trigger] all_cards@[c].card.deep_view())
                        && all_cards@[c].id == card_id_of(all_cards@[c].card.deep_view()),
                    forall|i: int, j: int|
                        0 <= i < j < all_cards@.len() && same_group(i, j) ==> share_no_number(
                            #[trigger] all_cards@[i].card.deep_view(),
                            #[trigger] all_cards@[j].card.deep_view(),
                        ),
                    total_regenerations <= budget,
                    total_regenerations < budget ==> ids_apart_across_groups(all_cards@),
                decreases budget - total_regenerations,
            {
                let mut final_block = self.generate_card_group_with_ids();
                let has_global_duplicates = block_clashes(final_block.as_slice(), &global_ids);
                if has_global_duplicates && total_regenerations < budget {
                    total_regenerations = total_regenerations + 1;
                    continue;
                }
                proof {
                    lemma_group_disjoint(final_block@);
                }
                let ghost fresh = !has_global_duplicates;
                let ghost seen = global_ids@;
                if remaining_cards < CARDSNUMBER as usize {
                    let ghost generated = final_block@;
                    shuffle(&mut final_block);
                    proof {
                        lemma_permutation_keeps(
                            generated,
                            final_block@,
                            |w: CardWithId| card_full(w.card.deep_view()) && w.id == card_id_of(w.card.deep_view()),
                        );
                        if fresh {
                            lemma_permutation_keeps(generated, final_block@, |w: CardWithId| !seen.contains(w.id));
                        }
                        lemma_seq_ms_sum_permutation(generated, final_block@, id_card_bag());
                        assert(id_group_numbers(final_block@) == id_group_numbers(generated));
                        lemma_group_disjoint(final_block@);
                    }
                    let ghost shuffled = final_block@;
                    final_block.truncate(remaining_cards);
                    proof {
                        assert(final_block@ =~= shuffled.take(remaining_cards as int));
                        assert forall|i: int, j: int| 0 <= i < j < final_block@.len() implies share_no_number(
                            #[trigger] final_block@[i].card.deep_view(),
                            #[trigger] final_block@[j].card.deep_view(),
                        ) by {
                            assert(final_block@[i] == shuffled[i]);
                            assert(final_block@[j] == shuffled[j]);
                            assert(share_no_number(shuffled[i].card.deep_view(), shuffled[j].card.deep_view()));
                        }
                        if fresh {
                            assert forall|i: int| 0 <= i < final_block@.len() implies !seen.contains(
                                #[trigger] final_block@[i].id,
                            ) by {
                                assert(final_block@[i] == shuffled[i]);
                            }
                        }
                    }
                }
                proof {
                    assert(final_block@.len() <= 6);
                }
                add_ids(&mut global_ids, &final_block);
                let ghost before = all_cards@;
                let ghost added = final_block@;
                all_cards.append(&mut final_block);
                proof {
                    lemma_appended_group(before, added, all_cards@);
                    lemma_appended_ids(seen, global_ids@, before, added, all_cards@, fresh);
                }
                break;
            }
        }
        (all_cards, total_regenerations)
    }

    /// The board card: nine rows of ten numbers, 1 to 90 in order.
    fn create_board_card(&self) -> (card: Card)
        ensures
            card.deep_view() == board_card_grid(),
    {
        let mut card: Card = Vec::new();
        let total_rows: usize = 9;
        let total_cols: usize = 10;
        let mut row: usize = 0;
        while row < total_rows
            invariant
                total_rows == 9,
                total_cols == 10,
                row <= 9,
                card@.len() == row,
                forall|r: int| 0 <= r < row ==> (#[trigger] card@[r])@ == board_card_grid()[r],
            decreases 9 - row,
        {
            let mut card_row: Vec<Option<u8>> = Vec::new();
            let mut col: usize = 0;
            while col < total_cols
                invariant
                    total_cols == 10,
                    row < 9,
                    col <= 10,
                    card_row@.len() == col,
                    forall|c: int| 0 <= c < col ==> #[trigger] card_row@[c] == Some((1 + 10 * row + c) as u8),
                decreases 10 - col,
            {
                let number: u8 = FIRSTNUMBER + (row * total_cols + col) as u8;
                if number <= LASTNUMBER {
                    card_row.push(Some(number));
                } else {
                    card_row.push(None);
                }
                col = col + 1;
            }
            assert(card_row@ =~= board_card_grid()[row as int]);
            card.push(card_row);
            row = row + 1;
        }
        assert(card.deep_view() =~= board_card_grid()) by {
            assert forall|r: int| 0 <= r < 9 implies card.deep_view()[r] == board_card_grid()[r] by {
                assert(card.deep_view()[r] =~= card@[r]@);
            }
        }
        card
    }

    /// The board card with the placeholder id 0.
    fn generate_board_card(&self) -> (v: Vec<CardWithId>)
        ensures
            v@.len() == 1,
            v@[0].id == 0,
            v@[0].card.deep_view() == board_card_grid(),
    {
        let card = self.create_board_card();
        let mut v: Vec<CardWithId> = Vec::new();
        v.push(CardWithId { id: 0, card });
        v
    }
}

/// Whether a client type is the board's.
pub open spec fn is_board_type(client_type: Option<&str>) -> bool {
    match client_type {
        Some(t) => t@ == "board"@,
        None => false,
    }
}

/// The cards handed out by one generation: infos, ids and assignments
/// agree entry by entry, all for `client_id`.
pub open spec fn generation_consistent(
    infos: Seq<CardInfo>,
    ids: Seq<String>,
    assignments: Seq<CardAssignment>,
    client_id: Seq<char>,
) -> bool {
    &&& infos.len() == ids.len() == assignments.len()
    &&& forall|i: int|
        0 <= i < ids.len() ==> (#[trigger] infos[i]).card_id@ == ids[i]@ && assignments[i].card_id@
            == ids[i]@ && assignments[i].client_id@ == client_id && infos[i].card_data.deep_view()
            == assignments[i].card_data.deep_view() && card_shape_ok(assignments[i].card_data.deep_view())
}

impl CardManagement {
    /// Generates the cards of a client: the board card under `BOARD_ID` for a
    /// board client, otherwise `count` cards identified by their 16-digit
    /// upper-case hex ids. Returns the card infos, the ids and the assignments.
    pub fn generate_and_assign_cards(
        &self,
        count: u32,
        client_id: &str,
        client_type: Option<&str>,
    ) -> (res: (Vec<CardInfo>, Vec<String>, Vec<CardAssignment>))
        ensures
            generation_consistent(res.0@, res.1@, res.2@, client_id@),
            is_board_type(client_type) ==> res.1@.len() == 1 && res.1@[0]@
                == board_id() && res.2@[0].card_data.deep_view() == board_card_grid(),
            !is_board_type(client_type) ==> res.1@.len() == count && forall|i: int|
                0 <= i < res.1@.len() ==> card_full(#[trigger] res.2@[i].card_data.deep_view())
                    && res.1@[i]@ == card_id_text(res.2@[i].card_data.deep_view()),
            !is_board_type(client_type) ==> forall|i: int, j: int|
                0 <= i < j < res.0@.len() && same_group(i, j) ==> share_no_number(
                    #[trigger] res.0@[i].card_data.deep_view(),
                    #[trigger] res.0@[j].card_data.deep_view(),
                ),
    {
        let is_board_client = match client_type {
            Some(t) => str_eq(t, "board"),
            None => false,
        };
        proof {
            reveal_strlit("board");
        }
        let cards_with_ids = if is_board_client {
            self.generate_board_card()
        } else {
            self.generate_cards(count as usize)
        };
        let mut card_infos: Vec<CardInfo> = Vec::new();
        let mut client_card_ids: Vec<String> = Vec::new();
        let mut assignments: Vec<CardAssignment> = Vec::new();
        let mut i: usize = 0;
        while i < cards_with_ids.len()
            invariant
                i <= cards_with_ids@.len(),
                is_board_client == is_board_type(client_type),
                is_board_client ==> cards_with_ids@.len() == 1 && cards_with_ids@[0].card.deep_view()
                    == board_card_grid(),
                !is_board_client ==> cards_with_ids@.len() == count && forall|c: int|
                    0 <= c < cards_with_ids@.len() ==> card_full(
                        #[trigger] cards_with_ids@[c].card.deep_view(),
                    ) && cards_with_ids@[c].id == card_id_of(cards_with_ids@[c].card.deep_view()),
                !is_board_client ==> forall|a: int, b: int|
                    0 <= a < b < cards_with_ids@.len() && same_group(a, b) ==> share_no_number(
                        #[trigger] cards_with_ids@[a].card.deep_view(),
                        #[trigger] cards_with_ids@[b].card.deep_view(),
                    ),
                generation_consistent(card_infos@, client_card_ids@, assignments@, client_id@),
                client_card_ids@.len() == i,
                is_board_client ==> forall|c: int| 0 <= c < i ==> (#[trigger] client_card_ids@[c])@ == board_id(),
                forall|c: int|
                    0 <= c < i ==> (#[trigger] assignments@[c]).card_data.deep_view()
                        == cards_with_ids@[c].card.deep_view(),
                !is_board_client ==> forall|c: int|
                    0 <= c < i ==> (#[trigger] client_card_ids@[c])@ == card_id_text(
                        cards_with_ids@[c].card.deep_view(),
                    ),
            decreases cards_with_ids@.len() - i,
        {
            let card_with_id = &cards_with_ids[i];
            let card_id_str = if is_board_client {
                board_id_string()
            } else {
                let mut s = String::new();
                append_hex_fixed(&mut s, card_with_id.id, 16, true);
                s
            };
            proof {
                if is_board_client {
                    let g = board_card_grid();
                } else {
                    lemma_grid_shape(card_with_id.card.deep_view());
                }
            }
            client_card_ids.push(card_id_str.clone());
            let info_card = copy_card(&card_with_id.card);
            card_infos.push(CardInfo { card_id: card_id_str.clone(), card_data: info_card });
            let assigned_card = copy_card(&card_with_id.card);
            assignments.push(
                CardAssignment {
                    card_id: card_id_str,
                    client_id: string_of_str(client_id),
                    card_data: assigned_card,
                },
            );
            i = i + 1;
        }
        proof {
            if !is_board_client {
                assert forall|a: int, b: int|
                    0 <= a < b < card_infos@.len() && same_group(a, b) implies share_no_number(
                    #[trigger] card_infos@[a].card_data.deep_view(),
                    #[trigger] card_infos@[b].card_data.deep_view(),
                ) by {
                    assert(card_infos@[a].card_data.deep_view() == assignments@[a].card_data.deep_view());
                    assert(card_infos@[b].card_data.deep_view() == assignments@[b].card_data.deep_view());
                    assert(share_no_number(cards_with_ids@[a].card.deep_view(), cards_with_ids@[b].card.deep_view()));
                }
            }
        }
        (card_infos, client_card_ids, assignments)
    }
}

/// What filing a client's new cards does: `infos` and `ids` list the new
/// cards in order (the board card alone for a board client, else `count`
/// full cards, each id the text of its card's digest); the client's card list
/// becomes `ids`, each new card is assigned to the client, and every other
/// client and card stays as it was.
pub open spec fn cards_filed(
    before: CardAssignmentManager,
    after: CardAssignmentManager,
    client_id: Seq<char>,
    count: nat,
    client_type: Option<&str>,
    infos: Seq<CardInfo>,
    ids: Seq<String>,
) -> bool {
    &&& infos.len() == ids.len()
    &&& forall|i: int| 0 <= i < ids.len() ==> (#[trigger] infos[i]).card_id@ == ids[i]@
    &&& is_board_type(client_type) ==> ids.len() == 1 && ids[0]@ == board_id()
    &&& !is_board_type(client_type) ==> ids.len() == count && forall|i: int|
        0 <= i < ids.len() ==> card_full(#[trigger] infos[i].card_data.deep_view()) && ids[i]@ == card_id_text(
            infos[i].card_data.deep_view(),
        )
    &&& !is_board_type(client_type) ==> forall|i: int, j: int|
        0 <= i < j < infos.len() && same_group(i, j) ==> share_no_number(
            #[trigger] infos[i].card_data.deep_view(),
            #[trigger] infos[j].card_data.deep_view(),
        )
    &&& after.client_cards.has(client_id)
    &&& after.client_cards.value_of(client_id)@ == ids
    &&& forall|k: Seq<char>|
        k != client_id ==> (after.client_cards.has(k) == before.client_cards.has(k)) && (before.client_cards.has(k)
            ==> after.client_cards.value_of(k) == before.client_cards.value_of(k))
    &&& forall|i: int|
        0 <= i < ids.len() ==> after.assignments.has(#[trigger] ids[i]@) && after.assignments.value_of(
            ids[i]@,
        ).client_id@ == client_id
    &&& forall|k: Seq<char>|
        (forall|i: int| 0 <= i < ids.len() ==> (#[trigger] ids[i])@ != k) ==> (after.assignments.has(k)
            == before.assignments.has(k)) && (before.assignments.has(k) ==> after.assignments.value_of(k)
            == before.assignments.value_of(k))
}

impl CardAssignmentManager {
    /// Generates and files the cards of a client (see
    /// `CardManagement::generate_and_assign_cards`): each assignment under
    /// its card id, and the new card ids as the client's card list.
    pub fn assign_cards_with_type(&mut self, client_id: &str, count: u32, client_type: Option<&str>) -> (res: (
        Vec<CardInfo>,
        Vec<String>,
    ))
        requires
            old(self).wf(),
        ensures
            final(self).wf(),
            res.0@.len() == res.1@.len(),
            forall|i: int| 0 <= i < res.1@.len() ==> (#[trigger] res.0@[i]).card_id@ == res.1@[i]@,
            is_board_type(client_type) ==> res.1@.len() == 1 && res.1@[0]@ == board_id(),
            !is_board_type(client_type) ==> res.1@.len() == count && forall|i: int|
                0 <= i < res.1@.len() ==> card_full(#[trigger] res.0@[i].card_data.deep_view())
                    && res.1@[i]@ == card_id_text(res.0@[i].card_data.deep_view()),
            !is_board_type(client_type) ==> forall|i: int, j: int|
                0 <= i < j < res.0@.len() && same_group(i, j) ==> share_no_number(
                    #[trigger] res.0@[i].card_data.deep_view(),
                    #[trigger] res.0@[j].card_data.deep_view(),
                ),
            final(self).client_cards.has(client_id@),
            final(self).client_cards.value_of(client_id@)@ == res.1@,
            forall|k: Seq<char>|
                k != client_id@ ==> (final(self).client_cards.has(k) == old(self).client_cards.has(k))
                    && (old(self).client_cards.has(k) ==> final(self).client_cards.value_of(k)
                    == old(self).client_cards.value_of(k)),
            forall|i: int|
                0 <= i < res.1@.len() ==> final(self).assignments.has(#[trigger] res.1@[i]@)
                    && final(self).assignments.value_of(res.1@[i]@).client_id@ == client_id@,
            forall|k: Seq<char>|
                (forall|i: int| 0 <= i < res.1@.len() ==> (#[trigger] res.1@[i])@ != k) ==> (
                final(self).assignments.has(k) == old(self).assignments.has(k)) && (
                old(self).assignments.has(k) ==> final(self).assignments.value_of(k)
                    == old(self).assignments.value_of(k)),
    {
        let card_management = CardManagement::new();
        let (card_infos, client_card_ids, assignments) = card_management.generate_and_assign_cards(
            count,
            client_id,
            client_type,
        );
        let ghost ids = client_card_ids@;
        let ghost old_assign = self.assignments;
        let mut i: usize = 0;
        while i < assignments.len()
            invariant
                self.wf(),
                generation_consistent(card_infos@, ids, assignments@, client_id@),
                ids == client_card_ids@,
                i <= assignments@.len(),
                self.client_cards == old(self).client_cards,
                forall|j: int| 0 <= j < i ==> self.assignments.has(#[trigger] ids[j]@) && self.assignments.value_of(
                    ids[j]@,
                ).client_id@ == client_id@,
                forall|k: Seq<char>|
                    (forall|j: int| 0 <= j < i ==> (#[trigger] ids[j])@ != k) ==> (self.assignments.has(k)
                        == old_assign.has(k)) && (old_assign.has(k) ==> self.assignments.value_of(k)
                        == old_assign.value_of(k)),
            decreases assignments@.len() - i,
        {
            proof {
                let _ = card_infos@[i as int];
                assert(assignments@[i as int].card_id@ == ids[i as int]@);
            }
            let assignment = CardAssignment {
                card_id: assignments[i].card_id.clone(),
                client_id: assignments[i].client_id.clone(),
                card_data: copy_card(&assignments[i].card_data),
            };
            let card_id = assignment.card_id.clone();
            let ghost before = self.assignments;
            self.assignments.insert(card_id, assignment);
            proof {
                let e = self.assignments.entries();
                assert forall|j: int| 0 <= j < e.len() implies (#[trigger] e[j]).0@ == e[j].1.card_id@
                    && card_shape_ok(e[j].1.card_data.deep_view()) by {
                    let be = before.entries();
                    if before.has(ids[i as int]@) {
                        if j != index_of(be, ids[i as int]@) {
                            assert(e[j] == be[j]);
                        }
                    } else {
                        if j < be.len() {
                            assert(e[j] == be[j]);
                        }
                    }
                }
                assert forall|j: int| 0 <= j < i + 1 implies self.assignments.has(#[trigger] ids[j]@)
                    && self.assignments.value_of(ids[j]@).client_id@ == client_id@ by {
                    if j < i && ids[j]@ != ids[i as int]@ {
                    }
                }
            }
            i = i + 1;
        }
        let ids_copy = copy_strings(&client_card_ids);
        self.client_cards.insert(string_of_str(client_id), ids_copy);
        (card_infos, client_card_ids)
    }

    /// Generates and files the cards of a client of no particular type.
    pub fn assign_cards(&mut self, client_id: &str, count: u32) -> (res: (Vec<CardInfo>, Vec<String>))
        requires
            old(self).wf(),
        ensures
            final(self).wf(),
            cards_filed(*old(self), *final(self), client_id@, count as nat, None, res.0@, res.1@),
    {
        self.assign_cards_with_type(client_id, count, None)
    }

    /// Generates cards for a client registered with no cards, while the game
    /// is still new.
    pub fn generate_cards_for_registered_client(
        &mut self,
        client_id: &str,
        count: u32,
        client_type: Option<&str>,
        game_status: &GameStatus,
    ) -> (res: Result<(Vec<CardInfo>, Vec<String>), String>)
        requires
            old(self).wf(),
        ensures
            final(self).wf(),
            res is Ok <==> (*game_status == GameStatus::New && old(self).client_cards.has(client_id@)
                && old(self).client_cards.value_of(client_id@)@.len() == 0),
            res is Err ==> *final(self) == *old(self),
            *game_status != GameStatus::New ==> (res matches Err(e) && e@ == "Cannot generate cards: game is in '"@
                + status_name(*game_status) + "' state. Card generation is only allowed in 'New' games."@),
            *game_status == GameStatus::New && !old(self).client_cards.has(client_id@) ==> (res matches Err(e)
                && e@ == "Client is not registered in this game"@),
            *game_status == GameStatus::New && old(self).client_cards.has(client_id@)
                && old(self).client_cards.value_of(client_id@)@.len() > 0 ==> (res matches Err(e) && e@
                == "Client already has cards assigned"@),
            res matches Ok(r) ==> cards_filed(*old(self), *final(self), client_id@, count as nat, client_type, r.0@, r.1@),
    {
        if *game_status != GameStatus::New {
            let mut msg = string_of_str("Cannot generate cards: game is in '");
            msg.append(game_status.as_str());
            msg.append("' state. Card generation is only allowed in 'New' games.");
            return Err(msg);
        }
        if !self.client_cards.contains_key(client_id) {
            return Err(string_of_str("Client is not registered in this game"));
        }
        if !self.can_client_generate_cards(client_id) {
            return Err(string_of_str("Client already has cards assigned"));
        }
        let (card_infos, client_card_ids) = self.assign_cards_with_type(client_id, count, client_type);
        Ok((card_infos, client_card_ids))
    }

    /// Card generation that respects the game state and the client's cards.
    pub fn assign_cards_with_game_state_check(
        &mut self,
        client_id: &str,
        count: u32,
        client_type: Option<&str>,
        game_status: &GameStatus,
    ) -> (res: Result<(Vec<CardInfo>, Vec<String>), String>)
        requires
            old(self).wf(),
        ensures
            final(self).wf(),
            res is Ok <==> (*game_status == GameStatus::New && old(self).client_cards.has(client_id@)
                && old(self).client_cards.value_of(client_id@)@.len() == 0),
            res is Err ==> *final(self) == *old(self),
            *game_status != GameStatus::New ==> (res matches Err(e) && e@ == "Cannot generate cards: game is in '"@
                + status_name(*game_status) + "' state. Card generation is only allowed in 'New' games."@),
            *game_status == GameStatus::New && !old(self).client_cards.has(client_id@) ==> (res matches Err(e)
                && e@ == "Client is not registered in this game"@),
            *game_status == GameStatus::New && old(self).client_cards.has(client_id@)
                && old(self).client_cards.value_of(client_id@)@.len() > 0 ==> (res matches Err(e) && e@
                == "Client already has cards assigned"@),
            res matches Ok(r) ==> cards_filed(*old(self), *final(self), client_id@, count as nat, client_type, r.0@, r.1@),
    {
        self.generate_cards_for_registered_client(client_id, count, client_type, game_status)
    }
}

/// A copy of a list of strings.
pub fn copy_strings(v: &Vec<String>) -> (r: Vec<String>)
    ensures
        r@ == v@,
{
    let mut r: Vec<String> = Vec::new();
    let mut i: usize = 0;
    while i < v.len()
        invariant
            i <= v@.len(),
            r@ == v@.take(i as int),
        decreases v@.len() - i,
    {
        r.push(v[i].clone());
        i = i + 1;
    }
    assert(r@ == v@.take(v@.len() as int));
    r
}

/// The name shown for a card's holder: "Board" for the board card, the
/// registered name of the card's client, or "Unknown".
pub open spec fn holder_name(m: &CardAssignmentManager, card_id: Seq<char>, reg: &ClientRegistry) -> Seq<char> {
    if card_id == board_id() {
        "Board"@
    } else if m.assignments.has(card_id) && exists|i: int|
        0 <= i < reg.clients.entries().len() && (#[trigger] reg.clients.entries()[i]).1.id@
            == m.assignments.value_of(card_id).client_id@ {
        let i = choose|i: int|
            0 <= i < reg.clients.entries().len() && (#[trigger] reg.clients.entries()[i]).1.id@
                == m.assignments.value_of(card_id).client_id@ && forall|j: int|
                0 <= j < i ==> reg.clients.entries()[j].1.id@ != m.assignments.value_of(
                    card_id,
                ).client_id@;
        reg.clients.entries()[i].1.name@
    } else {
        "Unknown"@
    }
}

impl CardAssignmentManager {
    /// The name of the client holding a card.
    pub fn get_client_name_for_card(&self, card_id: &str, client_registry: &ClientRegistry) -> (s: String)
        requires
            self.wf(),
        ensures
            s@ == holder_name(self, card_id@, client_registry),
    {
        proof {
            lemma_board_id();
        }
        if str_eq(card_id, BOARD_ID) {
            return string_of_str("Board");
        }
        if let Some(assignment) = self.get_card_assignment(card_id) {
            if let Ok(clients) = client_registry.get_all_clients() {
                let mut i: usize = 0;
                while i < clients.len()
                    invariant
                        i <= clients@.len(),
                        self.assignments.has(card_id@),
                        card_id@ != board_id(),
                        *assignment == self.assignments.value_of(card_id@),
                        clients@.len() == client_registry.clients.entries().len(),
                        forall|j: int| 0 <= j < clients@.len() ==> #[trigger] clients@[j] == client_registry.clients.entries()[j].1,
                        forall|j: int| 0 <= j < i ==> client_registry.clients.entries()[j].1.id@ != assignment.client_id@,
                    decreases clients@.len() - i,
                {
                    let same = clients[i].id == assignment.client_id;
                    if same {
                        proof {
                            assert(clients@[i as int].id@ == assignment.client_id@);
                            assert(clients@[i as int] == client_registry.clients.entries()[i as int].1);
                            let e = client_registry.clients.entries();
                            let cid = self.assignments.value_of(card_id@).client_id@;
                            assert(e[i as int].1.id@ == cid);
                            let k = choose|k: int|
                                0 <= k < e.len() && (#[trigger] e[k]).1.id@ == cid && forall|j: int|
                                    0 <= j < k ==> e[j].1.id@ != cid;
                            assert(k == i) by {
                                if k < i {
                                    assert(e[k].1.id@ != cid);
                                }
                                if k > i {
                                    assert(e[i as int].1.id@ != cid);
                                }
                            }
                        }
                        return clients[i].name.clone();
                    }
                    i = i + 1;
                }
            }
        }
        string_of_str("Unknown")
    }
}

} // verus!
