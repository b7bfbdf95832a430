//! How the numbers of a group of cards cover the ninety numbers: the
//! multisets of numbers that each step of card generation keeps.

use vstd::multiset::Multiset;
use vstd::prelude::*;
use crate::card::{card_numbers, column_source, row_numbers, Card, CardWithId};
use crate::tally::{lemma_seq_ms_sum_remove, ms_col, ms_cols, ms_row, seq_ms_sum};
use vstd::seq_lib::lemma_multiset_commutative;

verus! {

broadcast use vstd::seq_lib::group_seq_properties, vstd::seq_lib::group_to_multiset_ensures,
    vstd::multiset::group_multiset_axioms;

/// How often a column's ten source numbers hold `x`: once or not at all.
pub open spec fn column_count(col: int, x: u8) -> nat {
    if column_source(col, x) {
        1
    } else {
        0
    }
}

/// Ten distinct numbers drawn from a column's source are all of it, each once.
pub proof fn lemma_source_counts(v: Seq<u8>, col: int)
    requires
        v.no_duplicates(),
        forall|i: int| 0 <= i < v.len() ==> column_source(col, #[trigger] v[i]),
        forall|x: u8| column_source(col, x) ==> #[trigger] v.contains(x),
    ensures
        forall|x: u8| #[trigger] v.to_multiset().count(x) == column_count(col, x),
{
    v.lemma_multiset_has_no_duplicates();
    assert forall|x: u8| #[trigger] v.to_multiset().count(x) == column_count(col, x) by {
        if column_source(col, x) {
            assert(v.contains(x));
        } else if v.contains(x) {
            let i = choose|i: int| 0 <= i < v.len() && v[i] == x;
            assert(column_source(col, v[i]));
        }
    }
}

/// The first `n` parts, summed as multisets.
pub open spec fn bags_sum(parts: Seq<Vec<u8>>, n: nat) -> Multiset<u8>
    decreases n,
{
    if n == 0 {
        Multiset::empty()
    } else {
        bags_sum(parts, (n - 1) as nat).add(parts[n - 1]@.to_multiset())
    }
}

/// The sum of the first `n` parts depends on those parts only.
pub proof fn lemma_bags_sum_prefix(a: Seq<Vec<u8>>, b: Seq<Vec<u8>>, n: nat)
    requires
        forall|i: int| 0 <= i < n ==> #[trigger] a[i]@ == b[i]@,
    ensures
        bags_sum(a, n) == bags_sum(b, n),
    decreases n,
{
    if n > 0 {
        lemma_bags_sum_prefix(a, b, (n - 1) as nat);
    }
}

/// A group's parts as a table: card `c`'s part of column `col`.
pub open spec fn part_bag(group: Seq<Vec<Vec<u8>>>) -> spec_fn(int, int) -> Multiset<u8> {
    |c: int, col: int| group[c]@[col]@.to_multiset()
}

/// A column of the table is the sum of the parts that make it up.
pub proof fn lemma_col_is_bags(group: Seq<Vec<Vec<u8>>>, col: int, parts: Seq<Vec<u8>>, n: nat)
    requires
        forall|c: int| 0 <= c < n ==> #[trigger] group[c]@[col]@ == parts[c]@,
    ensures
        ms_col(part_bag(group), col, n) == bags_sum(parts, n),
    decreases n,
{
    if n > 0 {
        lemma_col_is_bags(group, col, parts, (n - 1) as nat);
    }
}

/// A row of the table is the sum of that card's parts.
pub proof fn lemma_row_is_bags(group: Seq<Vec<Vec<u8>>>, c: int, n: nat)
    ensures
        ms_row(part_bag(group), c, n) == bags_sum(group[c]@, n),
    decreases n,
{
    if n > 0 {
        lemma_row_is_bags(group, c, (n - 1) as nat);
    }
}

/// Up to the last, two lists of parts that agree after their first differ in
/// their sums by their first parts only.
proof fn lemma_bags_sum_first(a: Seq<Vec<u8>>, b: Seq<Vec<u8>>, n: nat)
    requires
        1 <= n <= 8,
        a.len() == 9,
        b.len() == 9,
        forall|c: int| 1 <= c < 8 ==> #[trigger] a[c]@.to_multiset() == b[c]@.to_multiset(),
    ensures
        bags_sum(a, n).add(b[0]@.to_multiset()) == bags_sum(b, n).add(a[0]@.to_multiset()),
    decreases n,
{
    if n == 1 {
        assert(bags_sum(a, 0) == Multiset::<u8>::empty());
        assert(bags_sum(b, 0) == Multiset::<u8>::empty());
        assert(bags_sum(a, 1).add(b[0]@.to_multiset()) =~= bags_sum(b, 1).add(a[0]@.to_multiset()));
    } else {
        lemma_bags_sum_first(a, b, (n - 1) as nat);
        let a0 = a[0]@.to_multiset();
        let b0 = b[0]@.to_multiset();
        assert(a[n - 1]@.to_multiset() == b[n - 1]@.to_multiset());
        assert forall|x: u8| bags_sum(a, n).add(b0).count(x) == bags_sum(b, n).add(a0).count(x) by {
            assert(bags_sum(a, (n - 1) as nat).add(b0).count(x) == bags_sum(b, (n - 1) as nat).add(a0).count(x));
        }
        assert(bags_sum(a, n).add(b0) =~= bags_sum(b, n).add(a0));
    }
}

/// Nine parts whose first and last hold the same numbers between them as
/// another nine's, and whose other parts hold the same numbers each, hold the
/// same numbers in all.
pub proof fn lemma_bags_sum_moved(a: Seq<Vec<u8>>, b: Seq<Vec<u8>>)
    requires
        a.len() == 9,
        b.len() == 9,
        forall|c: int| 1 <= c < 8 ==> #[trigger] a[c]@.to_multiset() == b[c]@.to_multiset(),
        a[0]@.to_multiset().add(a[8]@.to_multiset()) == b[0]@.to_multiset().add(b[8]@.to_multiset()),
    ensures
        bags_sum(a, 9) == bags_sum(b, 9),
{
    lemma_bags_sum_first(a, b, 8);
    let a0 = a[0]@.to_multiset();
    let b0 = b[0]@.to_multiset();
    let a8 = a[8]@.to_multiset();
    let b8 = b[8]@.to_multiset();
    assert forall|x: u8| bags_sum(a, 9).count(x) == bags_sum(b, 9).count(x) by {
        assert(a0.add(a8).count(x) == b0.add(b8).count(x));
        assert(bags_sum(a, 8).add(b0).count(x) == bags_sum(b, 8).add(a0).count(x));
    }
    assert(bags_sum(a, 9) =~= bags_sum(b, 9));
}

/// The numbers a cell holds: none, or its one number.
pub open spec fn cell_ms(cell: Option<u8>) -> Multiset<u8> {
    match cell {
        Some(n) => Multiset::singleton(n),
        None => Multiset::empty(),
    }
}

/// The cell of row `row` that a column part gets when its numbers go to the
/// rows in turn, starting from the row `start` picks out: the number whose
/// turn lands on that row, if any.
pub open spec fn cell_for(part: Seq<u8>, start: int, row: int) -> Option<u8> {
    if part.len() > 0 && start % 3 == row {
        Some(part[0])
    } else if part.len() > 1 && (start + 1) % 3 == row {
        Some(part[1])
    } else if part.len() > 2 && (start + 2) % 3 == row {
        Some(part[2])
    } else {
        None
    }
}

/// The three cells a part of at most three numbers fills hold its numbers.
pub proof fn lemma_cells_of_part(part: Seq<u8>, start: int)
    requires
        part.len() <= 3,
        start >= 0,
    ensures
        cell_ms(cell_for(part, start, 0)).add(cell_ms(cell_for(part, start, 1))).add(
            cell_ms(cell_for(part, start, 2)),
        ) == part.to_multiset(),
{
    let s = start % 3;
    assert((start + 1) % 3 == (s + 1) % 3);
    assert((start + 2) % 3 == (s + 2) % 3);
    if part.len() == 0 {
        assert(part =~= Seq::<u8>::empty());
    } else if part.len() == 1 {
        assert(part =~= Seq::<u8>::empty().push(part[0]));
    } else if part.len() == 2 {
        assert(part =~= Seq::<u8>::empty().push(part[0]).push(part[1]));
    } else {
        assert(part =~= Seq::<u8>::empty().push(part[0]).push(part[1]).push(part[2]));
    }
    assert(Seq::<u8>::empty().to_multiset() =~= Multiset::<u8>::empty());
    assert(cell_ms(cell_for(part, start, 0)).add(cell_ms(cell_for(part, start, 1))).add(
        cell_ms(cell_for(part, start, 2)),
    ) =~= part.to_multiset());
}

/// A card laid out from its parts as a table: the numbers of row `r`,
/// column `j`.
pub open spec fn laid_bag(parts: Seq<Vec<u8>>, totals: spec_fn(int) -> int) -> spec_fn(int, int) -> Multiset<u8> {
    |r: int, j: int| cell_ms(cell_for(parts[j]@, totals(j), r))
}

/// The numbers of a row are those of its cells.
pub proof fn lemma_row_cells(row: Seq<Option<u8>>, g: spec_fn(int, int) -> Multiset<u8>, r: int)
    requires
        forall|j: int| 0 <= j < row.len() ==> #[trigger] g(r, j) == cell_ms(row[j]),
    ensures
        row_numbers(row).to_multiset() == ms_row(g, r, row.len()),
    decreases row.len(),
{
    if row.len() > 0 {
        let rest = row.drop_last();
        lemma_row_cells(rest, g, r);
        assert(g(r, row.len() - 1) == cell_ms(row.last()));
        match row.last() {
            Some(n) => {
                assert(row_numbers(row) == row_numbers(rest).push(n));
                assert(row_numbers(row).to_multiset() =~= ms_row(g, r, row.len()));
            },
            None => {
                assert(row_numbers(row).to_multiset() =~= ms_row(g, r, row.len()));
            },
        }
    } else {
        assert(row_numbers(row).to_multiset() =~= ms_row(g, r, row.len()));
    }
}

/// The numbers of a row of cells, as a multiset.
pub open spec fn row_bag() -> spec_fn(Vec<Option<u8>>) -> Multiset<u8> {
    |row: Vec<Option<u8>>| row_numbers(row@).to_multiset()
}

/// The numbers of a card are those of its rows.
pub proof fn lemma_card_rows(d: Seq<Seq<Option<u8>>>, rows: Seq<Vec<Option<u8>>>)
    requires
        d.len() == rows.len(),
        forall|r: int| 0 <= r < d.len() ==> #[trigger] d[r] == rows[r]@,
    ensures
        card_numbers(d).to_multiset() == seq_ms_sum(rows, row_bag()),
    decreases d.len(),
{
    if d.len() > 0 {
        lemma_card_rows(d.drop_last(), rows.drop_last());
        lemma_multiset_commutative(card_numbers(d.drop_last()), row_numbers(d.last()));
        assert(d.last() == rows.last()@);
    } else {
        assert(card_numbers(d).to_multiset() =~= seq_ms_sum(rows, row_bag()));
    }
}

/// The columns of a laid-out card sum to its parts.
pub proof fn lemma_columns_parts(parts: Seq<Vec<u8>>, totals: spec_fn(int) -> int, n: nat)
    requires
        n <= parts.len(),
        forall|j: int| 0 <= j < n ==> (#[trigger] parts[j])@.len() <= 3,
        forall|j: int| 0 <= j < n ==> #[trigger] totals(j) >= 0,
    ensures
        ms_cols(laid_bag(parts, totals), 3, n) == bags_sum(parts, n),
    decreases n,
{
    if n > 0 {
        let j = n - 1;
        let g = laid_bag(parts, totals);
        lemma_columns_parts(parts, totals, (n - 1) as nat);
        lemma_cells_of_part(parts[j]@, totals(j));
        let c0 = cell_ms(cell_for(parts[j]@, totals(j), 0));
        let c1 = cell_ms(cell_for(parts[j]@, totals(j), 1));
        let c2 = cell_ms(cell_for(parts[j]@, totals(j), 2));
        assert(g(0, j) == c0);
        assert(g(1, j) == c1);
        assert(g(2, j) == c2);
        assert(ms_col(g, j, 0) == Multiset::<u8>::empty());
        assert(ms_col(g, j, 1) =~= c0);
        assert(ms_col(g, j, 2) =~= c0.add(c1));
        assert(ms_col(g, j, 3) =~= cell_ms(cell_for(parts[j]@, totals(j), 0)).add(
            cell_ms(cell_for(parts[j]@, totals(j), 1)),
        ).add(cell_ms(cell_for(parts[j]@, totals(j), 2))));
    }
}

/// How many of the first `k` columns' sources hold `x`.
pub open spec fn source_count(k: nat, x: u8) -> nat
    decreases k,
{
    if k == 0 {
        0
    } else {
        source_count((k - 1) as nat, x) + column_count(k - 1, x)
    }
}

/// Columns that each hold their source numbers once hold, together, every
/// number from 1 to 90 once and nothing else.
pub proof fn lemma_columns_cover(g: spec_fn(int, int) -> Multiset<u8>, n: nat)
    requires
        forall|col: int, x: u8| 0 <= col < 9 ==> #[trigger] ms_col(g, col, n).count(x) == column_count(col, x),
    ensures
        forall|x: u8| #[trigger] ms_cols(g, n, 9).count(x) == if 1 <= x <= 90 {
            1nat
        } else {
            0nat
        },
{
    assert forall|x: u8| #[trigger] ms_cols(g, n, 9).count(x) == if 1 <= x <= 90 {
        1nat
    } else {
        0nat
    } by {
        lemma_cols_count(g, n, 9, x);
        reveal_with_fuel(source_count, 10);
    }
}

proof fn lemma_cols_count(g: spec_fn(int, int) -> Multiset<u8>, n: nat, k: nat, x: u8)
    requires
        k <= 9,
        forall|col: int, x: u8| 0 <= col < 9 ==> #[trigger] ms_col(g, col, n).count(x) == column_count(col, x),
    ensures
        ms_cols(g, n, k).count(x) == source_count(k, x),
    decreases k,
{
    if k > 0 {
        lemma_cols_count(g, n, (k - 1) as nat, x);
        assert(ms_col(g, k - 1, n).count(x) == column_count(k - 1, x));
    }
}

/// The numbers of a card, as a multiset.
pub open spec fn card_bag() -> spec_fn(Card) -> Multiset<u8> {
    |card: Card| card_numbers(card.deep_view()).to_multiset()
}

/// All the numbers of a group of cards, as a multiset.
pub open spec fn group_numbers(cards: Seq<Card>) -> Multiset<u8> {
    seq_ms_sum(cards, card_bag())
}

/// The numbers of a card with its id, as a multiset.
pub open spec fn id_card_bag() -> spec_fn(CardWithId) -> Multiset<u8> {
    |card: CardWithId| card_numbers(card.card.deep_view()).to_multiset()
}

/// All the numbers of a group of cards with their ids, as a multiset.
pub open spec fn id_group_numbers(cards: Seq<CardWithId>) -> Multiset<u8> {
    seq_ms_sum(cards, id_card_bag())
}

/// Two cards hold no number in common.
pub open spec fn share_no_number(a: Seq<Seq<Option<u8>>>, b: Seq<Seq<Option<u8>>>) -> bool {
    forall|x: u8| !(#[trigger] card_numbers(a).contains(x) && card_numbers(b).contains(x))
}

/// Positions `i` and `j` of a list of cards fall in the same group of six.
pub open spec fn same_group(i: int, j: int) -> bool {
    i / 6 == j / 6
}

/// Cards whose numbers, all together, hold no number twice share no number
/// pairwise.
pub proof fn lemma_group_disjoint(s: Seq<CardWithId>)
    requires
        forall|n: u8| #[trigger] id_group_numbers(s).count(n) <= 1,
    ensures
        forall|i: int, j: int|
            0 <= i < j < s.len() ==> share_no_number(#[trigger] s[i].card.deep_view(), #[trigger] s[j].card.deep_view()),
{
    assert forall|i: int, j: int| 0 <= i < j < s.len() implies share_no_number(
        #[trigger] s[i].card.deep_view(),
        #[trigger] s[j].card.deep_view(),
    ) by {
        let a = card_numbers(s[i].card.deep_view());
        let b = card_numbers(s[j].card.deep_view());
        assert forall|x: u8| !(#[trigger] a.contains(x) && b.contains(x)) by {
            if a.contains(x) && b.contains(x) {
                let f = id_card_bag();
                lemma_seq_ms_sum_remove(s, f, j);
                let s1 = s.remove(j);
                assert(s1[i] == s[i]);
                lemma_seq_ms_sum_remove(s1, f, i);
                assert(f(s[i]) == a.to_multiset());
                assert(f(s[j]) == b.to_multiset());
                assert(a.to_multiset().count(x) > 0);
                assert(b.to_multiset().count(x) > 0);
                assert(id_group_numbers(s).count(x) >= 2);
                assert(id_group_numbers(s).count(x) <= 1);
            }
        }
    }
}

/// A cell holds one number or none.
pub proof fn lemma_cell_ms_len(cell: Option<u8>)
    ensures
        cell_ms(cell).len() == if cell is Some {
            1nat
        } else {
            0nat
        },
{
}

/// How many rows of a card have a number in column `col`.
pub open spec fn filled_in_column(c: Seq<Seq<Option<u8>>>, col: int) -> nat
    decreases c.len(),
{
    if c.len() == 0 {
        0
    } else {
        filled_in_column(c.drop_last(), col) + if c.last()[col] is Some {
            1nat
        } else {
            0nat
        }
    }
}

/// The number a row has in column `col`, as a multiset.
pub open spec fn col_bag(col: int) -> spec_fn(Vec<Option<u8>>) -> Multiset<u8> {
    |row: Vec<Option<u8>>| cell_ms(row@[col])
}

/// The filled cells of a column are as many as the numbers in it.
pub proof fn lemma_filled_is_bag_len(d: Seq<Seq<Option<u8>>>, rows: Seq<Vec<Option<u8>>>, col: int)
    requires
        d.len() == rows.len(),
        forall|r: int| 0 <= r < d.len() ==> #[trigger] d[r] == rows[r]@,
    ensures
        filled_in_column(d, col) == seq_ms_sum(rows, col_bag(col)).len(),
    decreases d.len(),
{
    if d.len() > 0 {
        lemma_filled_is_bag_len(d.drop_last(), rows.drop_last(), col);
        assert(d.last() == rows.last()@);
        assert(col_bag(col)(rows.last()) == cell_ms(rows.last()@[col]));
    }
}

/// A part of at most three numbers fills as many of the three cells it
/// lays out as it has numbers.
pub proof fn lemma_cells_count(part: Seq<u8>, start: int)
    requires
        part.len() <= 3,
        start >= 0,
    ensures
        (if cell_for(part, start, 0) is Some { 1int } else { 0int }) + (if cell_for(part, start, 1) is Some {
            1int
        } else {
            0int
        }) + (if cell_for(part, start, 2) is Some { 1int } else { 0int }) == part.len(),
{
    let s = start % 3;
    assert((start + 1) % 3 == (s + 1) % 3);
    assert((start + 2) % 3 == (s + 2) % 3);
}

} // verus!
