//! What clients show: the game to join from a games list, the game id of a
//! games-list line, and the numbers to highlight from a score card.

use vstd::prelude::*;
use vstd::string::StrSliceExecFns;
use crate::api::GameListItem;
use crate::board::{board_id, lemma_board_id, BOARD_ID};
use crate::config::{chars_to_string, is_space, trim, trim_end, trim_range, trim_start};
use crate::defs::Number;
use crate::score::{achs_view, AchievementView, ScoreAchievement, ScoreCard};
use crate::score::copy_bytes;
use crate::defs::Colors;
use crate::terminal::{append_two_cols, green_code, reset_code, two_cols, yellow_code};
use crate::text::{str_eq, string_of};
use vstd::string::StringExecFns;

verus! {

broadcast use vstd::std_specs::hash::group_hash_axioms;

/// The text before the first `,` of `s` (all of `s` when it has none).
pub open spec fn before_comma(s: Seq<char>) -> Seq<char> {
    if exists|i: int| 0 <= i < s.len() && s[i] == ',' {
        s.take(choose|i: int| crate::config::is_first(s, ',', i))
    } else {
        s
    }
}

/// The game id of a "`id`, started at: `date`" line: the trimmed text before
/// the first comma.
pub fn extract_game_id_from_info(game_info: &str) -> (r: Option<String>)
    ensures
        r matches Some(id) && id@ == trim(before_comma(game_info@)),
{
    let n = game_info.unicode_len();
    let mut chars: Vec<char> = Vec::new();
    let mut i: usize = 0;
    while i < n
        invariant
            n == game_info@.len(),
            i <= n,
            chars@ == game_info@.take(i as int),
        decreases n - i,
    {
        chars.push(game_info.get_char(i));
        assert(chars@ =~= game_info@.take(i + 1));
        i = i + 1;
    }
    assert(chars@ =~= game_info@);
    let mut e: usize = 0;
    while e < chars.len() && chars[e] != ','
        invariant
            e <= chars@.len(),
            forall|j: int| 0 <= j < e ==> chars@[j] != ',',
        decreases chars@.len() - e,
    {
        e = e + 1;
    }
    proof {
        if e < chars@.len() {
            assert(crate::config::is_first(chars@, ',', e as int));
            let c = choose|i: int| crate::config::is_first(chars@, ',', i);
            assert(c == e) by {
                if c < e {
                    assert(chars@[c] != ',');
                } else if c > e {
                    assert(chars@[e as int] != ',');
                }
            }
            assert(before_comma(chars@) == chars@.take(e as int));
        } else {
            assert(before_comma(chars@) == chars@);
        }
        assert(chars@.subrange(0, e as int) =~= before_comma(chars@));
    }
    let (a, b) = trim_range(&chars, 0, e);
    Some(chars_to_string(&chars, a, b))
}

/// A game of the list that is still open (not closed).
pub open spec fn is_open(g: GameListItem) -> bool {
    g.status@ != "Closed"@
}

/// The line naming a game to join: "`id`, started at: `date`".
pub open spec fn join_line(g: GameListItem) -> Seq<char> {
    g.game_id@ + ", started at: "@ + g.start_date@
}

/// A game id read back from its info line: for an id without commas and
/// without white space at either end, and any date text `d`, the game-id
/// text of "`id`, started at: `d`" (what `extract_game_id_from_info`
/// returns) is the id.
pub proof fn law_game_id_round_trip(id: Seq<char>, d: Seq<char>)
    requires
        forall|i: int| 0 <= i < id.len() ==> #[trigger] id[i] != ',',
        id.len() > 0 ==> !is_space(id[0]) && !is_space(id.last()),
    ensures
        trim(before_comma(id + ", started at: "@ + d)) == id,
{
    let s = id + ", started at: "@ + d;
    reveal_strlit(", started at: ");
    let n = id.len() as int;
    assert(s[n] == ',');
    assert(crate::config::is_first(s, ',', n));
    let c = choose|i: int| crate::config::is_first(s, ',', i);
    assert(c == n) by {
        if c < n {
            assert(s[c] == id[c]);
        } else if c > n {
            assert(s[n] != ',');
        }
    }
    assert(before_comma(s) =~= id);
    assert(trim_start(id) == id);
    assert(trim_end(id) == id);
}

/// The line naming a game gives back its id (see `law_game_id_round_trip`).
pub proof fn law_join_line_gives_the_id(g: GameListItem)
    requires
        forall|i: int| 0 <= i < g.game_id@.len() ==> #[trigger] g.game_id@[i] != ',',
        g.game_id@.len() > 0 ==> !is_space(g.game_id@[0]) && !is_space(g.game_id@.last()),
    ensures
        trim(before_comma(join_line(g))) == g.game_id@,
{
    law_game_id_round_trip(g.game_id@, g.start_date@);
}

/// The first open game of a games list, as the line naming it; an error when
/// every game is closed.
pub fn first_open_game(games: &Vec<GameListItem>) -> (r: Result<String, String>)
    ensures
        r is Ok <==> exists|i: int| 0 <= i < games@.len() && is_open(#[trigger] games@[i]),
        r matches Ok(s) ==> exists|i: int|
            0 <= i < games@.len() && is_open(#[trigger] games@[i]) && (forall|j: int|
                0 <= j < i ==> !is_open(#[trigger] games@[j])) && s@ == join_line(games@[i]),
        r matches Err(e) ==> e@ == "No available games found"@,
{
    let mut i: usize = 0;
    while i < games.len()
        invariant
            i <= games@.len(),
            forall|j: int| 0 <= j < i ==> !is_open(#[trigger] games@[j]),
        decreases games@.len() - i,
    {
        let g = &games[i];
        if !str_eq(g.status.as_str(), "Closed") {
            let mut s = string_of(g.game_id.as_str());
            s.append(", started at: ");
            s.append(g.start_date.as_str());
            assert(is_open(games@[i as int]));
            return Ok(s);
        }
        i = i + 1;
    }
    Err(string_of("No available games found"))
}

/// The line listing an open game: "  `id` - `status` (created: `date`)".
pub open spec fn listing_line(g: GameListItem) -> Seq<char> {
    "  "@ + g.game_id@ + " - "@ + g.status@ + " (created: "@ + g.start_date@ + ")"@
}

/// The listing lines of the open games, in order.
pub open spec fn open_lines(games: Seq<GameListItem>) -> Seq<Seq<char>>
    decreases games.len(),
{
    if games.len() == 0 {
        Seq::empty()
    } else {
        let rest = open_lines(games.drop_last());
        if is_open(games.last()) {
            rest.push(listing_line(games.last()))
        } else {
            rest
        }
    }
}

/// The lines that list a games list: a note when it is empty, else a
/// heading and one line per open game.
pub fn games_listing(games: &Vec<GameListItem>) -> (v: Vec<String>)
    ensures
        games@.len() == 0 ==> v@.map_values(|t: String| t@) == seq!["No games found."@],
        games@.len() > 0 ==> v@.map_values(|t: String| t@) == seq!["Available games:"@] + open_lines(games@),
{
    let mut v: Vec<String> = Vec::new();
    if games.len() == 0 {
        v.push(string_of("No games found."));
        assert(v@.map_values(|t: String| t@) =~= seq!["No games found."@]);
        return v;
    }
    v.push(string_of("Available games:"));
    let mut i: usize = 0;
    while i < games.len()
        invariant
            i <= games@.len(),
            v@.map_values(|t: String| t@) == seq!["Available games:"@] + open_lines(games@.take(i as int)),
        decreases games@.len() - i,
    {
        let g = &games[i];
        assert(games@.take(i + 1).drop_last() =~= games@.take(i as int));
        assert(games@.take(i + 1).last() == games@[i as int]);
        if !str_eq(g.status.as_str(), "Closed") {
            let mut s = string_of("  ");
            s.append(g.game_id.as_str());
            s.append(" - ");
            s.append(g.status.as_str());
            s.append(" (created: ");
            s.append(g.start_date.as_str());
            s.append(")");
            let ghost before = v@;
            v.push(s);
            assert(v@.map_values(|t: String| t@) =~= before.map_values(|t: String| t@).push(
                listing_line(games@[i as int]),
            ));
        }
        i = i + 1;
    }
    assert(games@.take(games@.len() as int) =~= games@);
    v
}

/// The numbers of the first achievement of card `card` in a list.
pub open spec fn first_of_card(achs: Seq<AchievementView>, card: Seq<char>) -> Option<Seq<u8>>
    decreases achs.len(),
{
    if achs.len() == 0 {
        None
    } else if achs[0].1 == card {
        Some(achs[0].2)
    } else {
        first_of_card(achs.drop_first(), card)
    }
}

/// Card `card` has an achievement at `level` of the score map.
pub open spec fn has_level(m: Map<u8, Vec<ScoreAchievement>>, card: Seq<char>, level: u8) -> bool {
    m.contains_key(level) && first_of_card(achs_view(m[level]), card) is Some
}

/// The highest level, from 1 to `top`, at which card `card` has an achievement.
pub open spec fn highest_level(m: Map<u8, Vec<ScoreAchievement>>, card: Seq<char>, top: u8) -> Option<u8>
    decreases top,
{
    if top == 0 {
        None
    } else if has_level(m, card, top) {
        Some(top)
    } else {
        highest_level(m, card, (top - 1) as u8)
    }
}

/// The level `highest_level` finds is one at which the card has an achievement.
proof fn lemma_highest_level_has(m: Map<u8, Vec<ScoreAchievement>>, card: Seq<char>, top: u8)
    ensures
        highest_level(m, card, top) matches Some(l) ==> has_level(m, card, l),
    decreases top,
{
    if top > 0 && !has_level(m, card, top) {
        lemma_highest_level_has(m, card, (top - 1) as u8);
    }
}

/// The numbers of the first achievement of `card` in a list, if any.
fn first_numbers_of_card(achs: &Vec<ScoreAchievement>, card: &str) -> (r: Option<Vec<u8>>)
    ensures
        r is Some == first_of_card(achs_view(*achs), card@) is Some,
        r matches Some(v) ==> v@ == first_of_card(achs_view(*achs), card@)->0,
{
    let ghost s = achs_view(*achs);
    let mut i: usize = 0;
    assert(s.skip(0) =~= s);
    while i < achs.len()
        invariant
            i <= achs@.len(),
            s == achs_view(*achs),
            first_of_card(s, card@) == first_of_card(s.skip(i as int), card@),
        decreases achs@.len() - i,
    {
        assert(s.skip(i as int)[0] == crate::score::ach_view(achs@[i as int]));
        assert(s.skip(i as int).drop_first() =~= s.skip(i + 1));
        if str_eq(achs[i].card_id.as_str(), card) {
            return Some(copy_bytes(&achs[i].numbers));
        }
        i = i + 1;
    }
    None
}

/// The numbers to highlight on the board: those of the board's own
/// achievement at its highest level, when that level is the published score
/// and at least two; none otherwise.
pub open spec fn board_highlight(sc: ScoreCard) -> Seq<u8> {
    let m = sc.score_map@;
    match highest_level(m, board_id(), 255) {
        Some(l) => if sc.published_score >= 2 && l == sc.published_score {
            first_of_card(achs_view(m[l]), board_id())->0
        } else {
            Seq::empty()
        },
        None => Seq::empty(),
    }
}

/// The highest level at which card `card` has an achievement (see `highest_level`).
fn highest_level_of(scorecard: &ScoreCard, card: &str) -> (r: Option<u8>)
    ensures
        r == highest_level(scorecard.score_map@, card@, 255),
{
    let mut level: u8 = 255;
    loop
        invariant
            highest_level(scorecard.score_map@, card@, 255) == highest_level(
                scorecard.score_map@,
                card@,
                level,
            ),
        decreases level,
    {
        if level == 0 {
            return None;
        }
        match scorecard.score_map.get(&level) {
            Some(achs) => {
                if first_numbers_of_card(achs, card).is_some() {
                    return Some(level);
                }
            },
            None => {},
        }
        level = level - 1;
    }
}

/// The numbers to highlight on the board (see `board_highlight`).
pub fn extract_highest_achievement_numbers(scorecard: &ScoreCard) -> (v: Vec<Number>)
    ensures
        v@ == board_highlight(*scorecard),
{
    if scorecard.published_score < 2 {
        return Vec::new();
    }
    proof {
        lemma_board_id();
        lemma_highest_level_has(scorecard.score_map@, board_id(), 255);
    }
    match highest_level_of(scorecard, BOARD_ID) {
        Some(level) => {
            if level == scorecard.published_score {
                match scorecard.score_map.get(&level) {
                    Some(achs) => match first_numbers_of_card(achs, BOARD_ID) {
                        Some(numbers) => numbers,
                        None => Vec::new(),
                    },
                    None => Vec::new(),
                }
            } else {
                Vec::new()
            }
        },
        None => Vec::new(),
    }
}

/// The name of an achievement level a card shows.
pub open spec fn achievement_name(level: u8) -> Option<Seq<char>> {
    if level == 2 {
        Some("2 in line"@)
    } else if level == 3 {
        Some("3 in line"@)
    } else if level == 4 {
        Some("4 in line"@)
    } else if level == 5 {
        Some("5 in line"@)
    } else if level == 15 {
        Some("BINGO"@)
    } else {
        None
    }
}

/// What a card shows of its achievements: whether its highest level is a
/// BINGO, and the name of that level, unless the published score has moved
/// past it.
pub open spec fn card_summary(sc: ScoreCard, card: Seq<char>) -> (bool, Seq<Seq<char>>) {
    match highest_level(sc.score_map@, card, 255) {
        None => (false, Seq::empty()),
        Some(l) => {
            let names = match achievement_name(l) {
                Some(t) => seq![t],
                None => Seq::empty(),
            };
            if sc.published_score > 0 && l < sc.published_score {
                (l == 15, Seq::empty())
            } else {
                (l == 15, names)
            }
        },
    }
}

/// Whether card `card_id` shows a BINGO, and the achievement it shows (see `card_summary`).
pub fn card_achievement_summary(scorecard: &ScoreCard, card_id: &str) -> (r: (bool, Vec<String>))
    ensures
        r.0 == card_summary(*scorecard, card_id@).0,
        r.1@.map_values(|t: String| t@) == card_summary(*scorecard, card_id@).1,
{
    let mut names: Vec<String> = Vec::new();
    match highest_level_of(scorecard, card_id) {
        None => {
            assert(names@.map_values(|t: String| t@) =~= Seq::<Seq<char>>::empty());
            (false, names)
        },
        Some(level) => {
            let name: Option<String> = if level == 2 {
                Some(string_of("2 in line"))
            } else if level == 3 {
                Some(string_of("3 in line"))
            } else if level == 4 {
                Some(string_of("4 in line"))
            } else if level == 5 {
                Some(string_of("5 in line"))
            } else if level == 15 {
                Some(string_of("BINGO"))
            } else {
                None
            };
            let obsolete = scorecard.published_score > 0 && level < scorecard.published_score;
            if !obsolete {
                match name {
                    Some(t) => names.push(t),
                    None => {},
                }
            }
            assert(names@.map_values(|t: String| t@) =~= card_summary(*scorecard, card_id@).1);
            (level == 15, names)
        },
    }
}

/// The text of one cell of a card table: a number drawn is shown in yellow
/// when it made the published score, in green otherwise.
pub open spec fn cell_text(cell: Option<u8>, extracted: Seq<u8>, highlighted: Seq<u8>) -> Seq<char> {
    match cell {
        Some(n) => if extracted.contains(n) {
            (if highlighted.contains(n) {
                yellow_code()
            } else {
                green_code()
            }) + "   "@ + two_cols(n) + "   "@ + reset_code() + "|"@
        } else {
            "   "@ + two_cols(n) + "   |"@
        },
        None => "        \u{2502}"@,
    }
}

/// The cells of a card row as table text, left to right.
pub open spec fn cells_text(cells: Seq<Option<u8>>, extracted: Seq<u8>, highlighted: Seq<u8>) -> Seq<char>
    decreases cells.len(),
{
    if cells.len() == 0 {
        Seq::empty()
    } else {
        cells_text(cells.drop_last(), extracted, highlighted) + cell_text(cells.last(), extracted, highlighted)
    }
}

fn contains_byte(v: &[u8], x: u8) -> (b: bool)
    ensures
        b == v@.contains(x),
{
    let mut i: usize = 0;
    while i < v.len()
        invariant
            i <= v@.len(),
            forall|j: int| 0 <= j < i ==> v@[j] != x,
        decreases v@.len() - i,
    {
        if v[i] == x {
            assert(v@[i as int] == x);
            return true;
        }
        i = i + 1;
    }
    false
}

/// One row of a card as a table line: "│" and its cells (see `cell_text`).
pub fn card_row_text(row: &Vec<Option<u8>>, extracted: &[u8], highlighted: &[u8]) -> (s: String)
    ensures
        s@ == "\u{2502}"@ + cells_text(row@, extracted@, highlighted@),
{
    proof {
        reveal_strlit("\x1b[1;32m");
        reveal_strlit("\x1b[1;33m");
        reveal_strlit("\x1b[0m");
        assert("\x1b[1;32m"@ =~= green_code());
        assert("\x1b[1;33m"@ =~= yellow_code());
        assert("\x1b[0m"@ =~= reset_code());
    }
    let mut s = string_of("\u{2502}");
    let mut i: usize = 0;
    assert(row@.take(0) =~= Seq::<Option<u8>>::empty());
    while i < row.len()
        invariant
            i <= row@.len(),
            s@ == "\u{2502}"@ + cells_text(row@.take(i as int), extracted@, highlighted@),
            "\x1b[1;32m"@ == green_code(),
            "\x1b[1;33m"@ == yellow_code(),
            "\x1b[0m"@ == reset_code(),
        decreases row@.len() - i,
    {
        let ghost before = s@;
        match row[i] {
            Some(n) => {
                if contains_byte(extracted, n) {
                    if contains_byte(highlighted, n) {
                        s.append(Colors::yellow());
                    } else {
                        s.append(Colors::green());
                    }
                    s.append("   ");
                    append_two_cols(&mut s, n);
                    s.append("   ");
                    s.append(Colors::reset());
                    s.append("|");
                } else {
                    s.append("   ");
                    append_two_cols(&mut s, n);
                    s.append("   |");
                }
            },
            None => {
                s.append("        \u{2502}");
            },
        }
        proof {
            let t = row@.take(i + 1);
            assert(t.drop_last() =~= row@.take(i as int));
            assert(t.last() == row@[i as int]);
            assert(s@ =~= before + cell_text(row@[i as int], extracted@, highlighted@));
            assert(s@ =~= "\u{2502}"@ + cells_text(t, extracted@, highlighted@));
        }
        i = i + 1;
    }
    assert(row@.take(row@.len() as int) =~= row@);
    s
}

/// The numbers of card `card_id`'s achievement at the published score, if any.
pub open spec fn card_highlight(sc: ScoreCard, card: Seq<char>) -> Seq<u8> {
    let m = sc.score_map@;
    if sc.published_score != 0 && m.contains_key(sc.published_score) && first_of_card(
        achs_view(m[sc.published_score]),
        card,
    ) is Some {
        first_of_card(achs_view(m[sc.published_score]), card)->0
    } else {
        Seq::empty()
    }
}

/// The numbers that made the published score on card `card_id` (see `card_highlight`).
pub fn get_highest_score_numbers_for_card(scorecard: &ScoreCard, card_id: &str) -> (v: Vec<u8>)
    ensures
        v@ == card_highlight(*scorecard, card_id@),
{
    if scorecard.published_score == 0 {
        return Vec::new();
    }
    match scorecard.score_map.get(&scorecard.published_score) {
        Some(achs) => match first_numbers_of_card(achs, card_id) {
            Some(numbers) => numbers,
            None => Vec::new(),
        },
        None => Vec::new(),
    }
}

} // verus!
