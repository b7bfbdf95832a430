//! Games: the state of one game (board, pouch, scorecard, clients, cards),
//! its status, and the registry of all games.

use vstd::prelude::*;
use std::time::SystemTime;
use vstd::string::StringExecFns;
use crate::board::Board;
use crate::card::{card_full, card_id_text, manager_view, CardAssignmentManager, CardInfo};
use crate::client::{ClientInfo, ClientRegistry};
use crate::clock::{date_text_ok, ends_with, epoch_parts, now, time_text};
use crate::defs::Number;
use crate::extraction::perform_extraction;
use crate::pouch::{full_pouch, lemma_in_play_board_distinct, lemma_in_play_facts, numbers_in_play, Pouch};
use crate::rng::random_u32;
use crate::score::{best_score_update, ScoreCard};
use crate::strmap::{has_key, index_of, keys_distinct, StrMap};
use crate::text::{
    append_dec, append_hex_fixed, dec, hex_fixed, lemma_seq_le_total, lemma_seq_le_trans, seq_le, str_eq, str_le,
    string_of,
};

verus! {

/// The status of a game.
#[derive(Debug, Clone, Copy, PartialEq, Eq, Structural)]
pub enum GameStatus {
    /// No number extracted yet.
    New,
    /// At least one number extracted.
    Active,
    /// BINGO reached.
    Closed,
}

/// The name of a status.
pub open spec fn status_name(s: GameStatus) -> Seq<char> {
    match s {
        GameStatus::New => "New"@,
        GameStatus::Active => "Active"@,
        GameStatus::Closed => "Closed"@,
    }
}

impl GameStatus {
    /// The name of the status.
    pub fn as_str(&self) -> (s: &'static str)
        ensures
            s@ == status_name(*self),
    {
        match self {
            GameStatus::New => "New",
            GameStatus::Active => "Active",
            GameStatus::Closed => "Closed",
        }
    }
}

/// A client's type within one game.
#[derive(Debug, Clone)]
pub struct GameClientType {
    pub client_id: String,
    /// "board", "player", ...
    pub client_type: String,
}

/// The client ids, in order, whose type is `t`.
pub open spec fn ids_of_type(entries: Seq<(String, String)>, t: Seq<char>) -> Seq<Seq<char>>
    decreases entries.len(),
{
    if entries.len() == 0 {
        Seq::empty()
    } else {
        let rest = ids_of_type(entries.drop_last(), t);
        if entries.last().1@ == t {
            rest.push(entries.last().0@)
        } else {
            rest
        }
    }
}

/// The types clients have within one game.
#[derive(Debug, Clone)]
pub struct GameClientTypeRegistry {
    pub client_types: StrMap<String>,
}

impl GameClientTypeRegistry {
    pub open spec fn wf(&self) -> bool {
        self.client_types.wf()
    }

    pub fn new() -> (r: Self)
        ensures
            r.wf(),
            r.client_types.entries().len() == 0,
    {
        GameClientTypeRegistry { client_types: StrMap::new() }
    }

    /// Sets a client's type in this game.
    pub fn set_client_type(&mut self, client_id: &str, client_type: &str) -> (r: Result<(), String>)
        requires
            old(self).wf(),
        ensures
            final(self).wf(),
            r is Ok,
            final(self).client_types.has(client_id@),
            final(self).client_types.value_of(client_id@)@ == client_type@,
            forall|k: Seq<char>|
                k != client_id@ ==> (final(self).client_types.has(k) == old(self).client_types.has(k)) && (
                old(self).client_types.has(k) ==> final(self).client_types.value_of(k)
                    == old(self).client_types.value_of(k)),
    {
        self.client_types.insert(string_of(client_id), string_of(client_type));
        Ok(())
    }

    /// A client's type in this game, if set.
    pub fn get_client_type(&self, client_id: &str) -> (r: Result<Option<String>, String>)
        requires
            self.wf(),
        ensures
            r is Ok,
            r matches Ok(None) ==> !self.client_types.has(client_id@),
            r matches Ok(Some(t)) ==> self.client_types.has(client_id@) && t@ == self.client_types.value_of(client_id@)@,
    {
        match self.client_types.get(client_id) {
            Some(t) => Ok(Some(t.clone())),
            None => Ok(None),
        }
    }

    /// Removes a client's type association, returning it.
    pub fn remove_client_type(&mut self, client_id: &str) -> (r: Result<Option<String>, String>)
        requires
            old(self).wf(),
        ensures
            final(self).wf(),
            r is Ok,
            !final(self).client_types.has(client_id@),
            r matches Ok(prev) ==> (prev is Some <==> old(self).client_types.has(client_id@)),
            r matches Ok(Some(t)) ==> t == old(self).client_types.value_of(client_id@),
            forall|k: Seq<char>|
                k != client_id@ ==> (final(self).client_types.has(k) == old(self).client_types.has(k)) && (
                old(self).client_types.has(k) ==> final(self).client_types.value_of(k)
                    == old(self).client_types.value_of(k)),
    {
        Ok(self.client_types.remove(client_id))
    }

    /// The clients with a given type, in order.
    pub fn get_clients_by_type(&self, client_type: &str) -> (r: Result<Vec<String>, String>)
        ensures
            r matches Ok(v) && v@.map_values(|s: String| s@) == ids_of_type(self.client_types.entries(), client_type@),
    {
        let ghost e = self.client_types.entries();
        let mut clients: Vec<String> = Vec::new();
        let mut i: usize = 0;
        while i < self.client_types.len()
            invariant
                e == self.client_types.entries(),
                i <= e.len(),
                clients@.map_values(|s: String| s@) == ids_of_type(e.take(i as int), client_type@),
            decreases e.len() - i,
        {
            proof {
                assert(e.take(i + 1).drop_last() == e.take(i as int));
                assert(e.take(i + 1).last() == e[i as int]);
            }
            let ghost before = clients@;
            if str_eq(self.client_types.value_at(i).as_str(), client_type) {
                clients.push(self.client_types.key_at(i).clone());
                assert(clients@.map_values(|s: String| s@) =~= before.map_values(|s: String| s@).push(e[i as int].0@));
            }
            i = i + 1;
        }
        assert(e.take(e.len() as int) == e);
        Ok(clients)
    }

    /// Whether a client has the given type in this game.
    pub fn is_client_type(&self, client_id: &str, client_type: &str) -> (r: Result<bool, String>)
        requires
            self.wf(),
        ensures
            r == Ok::<bool, String>(self.client_types.has(client_id@) && self.client_types.value_of(client_id@)@
                == client_type@),
    {
        match self.client_types.get(client_id) {
            Some(t) => Ok(str_eq(t.as_str(), client_type)),
            None => Ok(false),
        }
    }

    /// All client type associations, in order.
    pub fn get_all_client_types(&self) -> (r: Result<Vec<GameClientType>, String>)
        ensures
            r matches Ok(v) && v@.len() == self.client_types.entries().len() && forall|i: int|
                0 <= i < v@.len() ==> (#[trigger] v@[i]).client_id@ == self.client_types.entries()[i].0@
                    && v@[i].client_type@ == self.client_types.entries()[i].1@,
    {
        let mut v: Vec<GameClientType> = Vec::new();
        let mut i: usize = 0;
        while i < self.client_types.len()
            invariant
                i <= self.client_types.entries().len(),
                v@.len() == i,
                forall|j: int|
                    0 <= j < i ==> (#[trigger] v@[j]).client_id@ == self.client_types.entries()[j].0@
                        && v@[j].client_type@ == self.client_types.entries()[j].1@,
            decreases self.client_types.entries().len() - i,
        {
            v.push(
                GameClientType {
                    client_id: self.client_types.key_at(i).clone(),
                    client_type: self.client_types.value_at(i).clone(),
                },
            );
            i = i + 1;
        }
        Ok(v)
    }

    /// Removes every association; returns how many there were.
    pub fn clear(&mut self) -> (r: Result<usize, String>)
        ensures
            final(self).wf(),
            final(self).client_types.entries().len() == 0,
            r matches Ok(n) && n == old(self).client_types.entries().len(),
    {
        let count = self.client_types.len();
        self.client_types.clear();
        Ok(count)
    }
}

/// The text of a boolean.
pub open spec fn bool_text(b: bool) -> Seq<char> {
    if b {
        "true"@
    } else {
        "false"@
    }
}

/// Appends the text of a boolean.
pub fn append_bool(s: &mut String, b: bool)
    ensures
        final(s)@ == old(s)@ + bool_text(b),
{
    if b {
        s.append("true");
    } else {
        s.append("false");
    }
}

/// Every string of the sequence is different.
pub open spec fn strings_distinct(v: Seq<String>) -> bool {
    forall|i: int, j: int| 0 <= i < v.len() && 0 <= j < v.len() && i != j ==> #[trigger] v[i]@ != #[trigger] v[j]@
}

/// Some string of the sequence holds `k`.
pub open spec fn has_string(v: Seq<String>, k: Seq<char>) -> bool {
    exists|i: int| 0 <= i < v.len() && #[trigger] v[i]@ == k
}

/// The status of a game with this published score and board length.
pub open spec fn status_of(score: u8, board_len: nat) -> GameStatus {
    if score >= 15 {
        GameStatus::Closed
    } else if board_len > 0 {
        GameStatus::Active
    } else {
        GameStatus::New
    }
}

/// The text id of a game: "game_" and eight lower-case hex digits.
pub open spec fn game_id_text(n: u32) -> Seq<char> {
    "game_"@ + hex_fixed(n as nat, 8, false)
}

/// The whole state of one game.
#[derive(Debug, Clone)]
pub struct Game {
    id: String,
    created_at: SystemTime,
    board: Board,
    pouch: Pouch,
    scorecard: ScoreCard,
    registered_clients: Vec<String>,
    card_manager: CardAssignmentManager,
    client_type_registry: GameClientTypeRegistry,
    owner: Option<String>,
}

impl Game {
    pub closed spec fn id_view(&self) -> Seq<char> {
        self.id@
    }

    pub closed spec fn created(&self) -> SystemTime {
        self.created_at
    }

    pub closed spec fn board_state(&self) -> Board {
        self.board
    }

    pub closed spec fn pouch_state(&self) -> Seq<u8> {
        self.pouch.numbers@
    }

    pub closed spec fn scorecard_state(&self) -> ScoreCard {
        self.scorecard
    }

    pub closed spec fn clients(&self) -> Seq<String> {
        self.registered_clients@
    }

    pub closed spec fn manager(&self) -> CardAssignmentManager {
        self.card_manager
    }

    pub closed spec fn types(&self) -> GameClientTypeRegistry {
        self.client_type_registry
    }

    pub closed spec fn owner_state(&self) -> Option<String> {
        self.owner
    }

    /// The board and pouch hold each number once between them; every part is
    /// well formed; each client is registered once.
    pub closed spec fn wf(&self) -> bool {
        &&& self.board.wf()
        &&& numbers_in_play(self.board.numbers(), self.pouch.numbers@)
        &&& self.card_manager.wf()
        &&& self.client_type_registry.wf()
        &&& strings_distinct(self.registered_clients@)
    }

    /// The parts of a well-formed game are well formed.
    pub proof fn lemma_wf(&self)
        requires
            self.wf(),
        ensures
            self.board_state().wf(),
            numbers_in_play(self.board_state().numbers(), self.pouch_state()),
            self.manager().wf(),
            self.types().wf(),
            strings_distinct(self.clients()),
            self.board_state().numbers().len() + self.pouch_state().len() == 90,
            self.board_state().numbers().no_duplicates(),
    {
        lemma_in_play_facts(self.board.numbers(), self.pouch.numbers@);
        lemma_in_play_board_distinct(self.board.numbers(), self.pouch.numbers@);
    }

    /// A new game: a random id, the current time, an empty board, a full
    /// pouch, a zero score, no clients and no cards.
    pub fn new() -> (g: Self)
        ensures
            g.wf(),
            exists|n: u32| g.id_view() == game_id_text(n),
            g.id_view().len() == 13,
            g.board_state().numbers().len() == 0,
            g.pouch_state() == full_pouch(),
            g.scorecard_state().published_score == 0,
            g.scorecard_state().score_map@ == Map::<Number, Vec<crate::score::ScoreAchievement>>::empty(),
            g.clients().len() == 0,
            g.manager().assignments.entries().len() == 0,
            g.manager().client_cards.entries().len() == 0,
            g.types().client_types.entries().len() == 0,
            g.owner_state() is None,
    {
        let r = random_u32();
        let mut game_id = string_of("game_");
        append_hex_fixed(&mut game_id, r as u64, 8, false);
        proof {
            reveal_strlit("game_");
            crate::text::lemma_hex_fixed_len(r as nat, 8, false);
            assert(game_id@ == game_id_text(r));
        }
        Game {
            id: game_id,
            created_at: now(),
            board: Board::new(),
            pouch: Pouch::new(),
            scorecard: ScoreCard::new(),
            registered_clients: Vec::new(),
            card_manager: CardAssignmentManager::new(),
            client_type_registry: GameClientTypeRegistry::new(),
            owner: None,
        }
    }

    /// The game id.
    pub fn id(&self) -> (s: String)
        ensures
            s@ == self.id_view(),
    {
        self.id.clone()
    }

    /// The creation time.
    pub fn created_at(&self) -> (t: SystemTime)
        ensures
            t == self.created(),
    {
        self.created_at.clone()
    }

    /// The creation time as UTC date text ("Unknown time" before the epoch).
    pub fn created_at_string(&self) -> (s: String)
        ensures
            time_text_of(self.created(), s@),
    {
        time_text(&self.created_at)
    }

    pub fn board(&self) -> (b: &Board)
        ensures
            *b == self.board_state(),
    {
        &self.board
    }

    pub fn pouch(&self) -> (p: &Pouch)
        ensures
            p.numbers@ == self.pouch_state(),
    {
        &self.pouch
    }

    pub fn scorecard(&self) -> (s: &ScoreCard)
        ensures
            *s == self.scorecard_state(),
    {
        &self.scorecard
    }

    /// This game with its score card replaced by `sc`.
    pub closed spec fn with_scorecard(self, sc: ScoreCard) -> Game {
        Game { scorecard: sc, ..self }
    }

    /// Replacing the score card changes nothing else.
    pub proof fn lemma_with_scorecard(self, sc: ScoreCard)
        ensures
            self.with_scorecard(sc).scorecard_state() == sc,
            self.with_scorecard(sc).id_view() == self.id_view(),
            self.with_scorecard(sc).created() == self.created(),
            self.with_scorecard(sc).board_state() == self.board_state(),
            self.with_scorecard(sc).pouch_state() == self.pouch_state(),
            self.with_scorecard(sc).clients() == self.clients(),
            self.with_scorecard(sc).manager() == self.manager(),
            self.with_scorecard(sc).types() == self.types(),
            self.with_scorecard(sc).owner_state() == self.owner_state(),
            self.wf() ==> self.with_scorecard(sc).wf(),
    {
    }

    /// The score card, for update in place.
    pub fn scorecard_mut(&mut self) -> (s: &mut ScoreCard)
        ensures
            *s == old(self).scorecard_state(),
            *final(self) == old(self).with_scorecard(*final(s)),
    {
        &mut self.scorecard
    }

    /// The ids of the registered clients, in order of registration.
    pub fn registered_clients(&self) -> (v: &Vec<String>)
        ensures
            v@ == self.clients(),
    {
        &self.registered_clients
    }

    pub fn card_manager(&self) -> (m: &CardAssignmentManager)
        ensures
            *m == self.manager(),
    {
        &self.card_manager
    }

    /// The game's owner, if set.
    pub fn owner(&self) -> (o: Option<String>)
        ensures
            o == self.owner_state(),
    {
        match &self.owner {
            Some(s) => Some(s.clone()),
            None => None,
        }
    }

    /// Sets the game's owner.
    pub fn set_owner(&mut self, client_id: &str) -> (r: Result<(), String>)
        requires
            old(self).wf(),
        ensures
            final(self).wf(),
            r is Ok,
            final(self).owner_state() matches Some(o) && o@ == client_id@,
            final(self).id_view() == old(self).id_view(),
            final(self).created() == old(self).created(),
            final(self).board_state() == old(self).board_state(),
            final(self).pouch_state() == old(self).pouch_state(),
            final(self).scorecard_state() == old(self).scorecard_state(),
            final(self).clients() == old(self).clients(),
            final(self).manager() == old(self).manager(),
            final(self).types() == old(self).types(),
    {
        self.owner = Some(string_of(client_id));
        Ok(())
    }

    /// Whether a client is registered to this game.
    pub fn contains_client(&self, client_id: &str) -> (b: bool)
        ensures
            b == has_string(self.clients(), client_id@),
    {
        let key = string_of(client_id);
        let mut i: usize = 0;
        while i < self.registered_clients.len()
            invariant
                key@ == client_id@,
                i <= self.registered_clients@.len(),
                forall|j: int| 0 <= j < i ==> self.registered_clients@[j]@ != client_id@,
            decreases self.registered_clients@.len() - i,
        {
            if self.registered_clients[i] == key {
                return true;
            }
            i = i + 1;
        }
        false
    }

    /// Whether any number has been extracted.
    pub fn has_game_started(&self) -> (b: bool)
        ensures
            b == (self.board_state().numbers().len() > 0),
    {
        !self.board.is_empty()
    }

    /// Registers a client, only while no number has been extracted; true when
    /// the client was not registered yet.
    pub fn add_client(&mut self, client_id: String) -> (r: Result<bool, String>)
        requires
            old(self).wf(),
        ensures
            final(self).wf(),
            old(self).board_state().numbers().len() > 0 ==> (r matches Err(e) && e@
                == "Cannot register new clients after numbers have been extracted"@) && *final(self)
                == *old(self),
            old(self).board_state().numbers().len() == 0 ==> (r matches Ok(added) && added
                == !has_string(old(self).clients(), client_id@)),
            old(self).board_state().numbers().len() == 0 && !has_string(old(self).clients(), client_id@)
                ==> final(self).clients() == old(self).clients().push(client_id),
            old(self).board_state().numbers().len() == 0 && has_string(old(self).clients(), client_id@)
                ==> final(self).clients() == old(self).clients(),
            final(self).id_view() == old(self).id_view(),
            final(self).created() == old(self).created(),
            final(self).board_state() == old(self).board_state(),
            final(self).pouch_state() == old(self).pouch_state(),
            final(self).scorecard_state() == old(self).scorecard_state(),
            final(self).manager() == old(self).manager(),
            final(self).types() == old(self).types(),
            final(self).owner_state() == old(self).owner_state(),
    {
        if self.has_game_started() {
            return Err(string_of("Cannot register new clients after numbers have been extracted"));
        }
        if self.contains_client(client_id.as_str()) {
            Ok(false)
        } else {
            let ghost k = client_id@;
            self.registered_clients.push(client_id);
            proof {
                assert forall|i: int, j: int|
                    0 <= i < self.registered_clients@.len() && 0 <= j < self.registered_clients@.len()
                        && i != j implies #[trigger] self.registered_clients@[i]@
                    != #[trigger] self.registered_clients@[j]@ by {
                    if i < old(self).registered_clients@.len() && j < old(self).registered_clients@.len() {
                    } else if i == old(self).registered_clients@.len() {
                        assert(self.registered_clients@[j] == old(self).registered_clients@[j]);
                    } else {
                        assert(self.registered_clients@[i] == old(self).registered_clients@[i]);
                    }
                }
            }
            Ok(true)
        }
    }
}

/// Everything but the card manager and the client types is unchanged.
pub open spec fn same_but_cards(a: Game, b: Game) -> bool {
    &&& a.id_view() == b.id_view()
    &&& a.created() == b.created()
    &&& a.board_state() == b.board_state()
    &&& a.pouch_state() == b.pouch_state()
    &&& a.scorecard_state() == b.scorecard_state()
    &&& a.clients() == b.clients()
    &&& a.owner_state() == b.owner_state()
}

/// The client infos, in order of registration, of the registered clients the
/// registry knows.
pub open spec fn known_infos(ids: Seq<String>, reg: &ClientRegistry) -> Seq<ClientInfo>
    decreases ids.len(),
{
    if ids.len() == 0 {
        Seq::empty()
    } else {
        let rest = known_infos(ids.drop_last(), reg);
        if reg.clients.has(ids.last()@) {
            rest.push(reg.clients.value_of(ids.last()@))
        } else {
            rest
        }
    }
}

impl Game {
    /// The registry entries of the clients registered to this game, in order
    /// of registration (clients the registry does not know are skipped).
    pub fn get_registered_client_infos(&self, client_registry: &ClientRegistry) -> (r: Result<Vec<ClientInfo>, String>)
        requires
            client_registry.wf(),
        ensures
            r matches Ok(v) && v@ == known_infos(self.clients(), client_registry),
    {
        let ghost ids = self.registered_clients@;
        let mut client_infos: Vec<ClientInfo> = Vec::new();
        let mut i: usize = 0;
        while i < self.registered_clients.len()
            invariant
                client_registry.wf(),
                ids == self.registered_clients@,
                i <= ids.len(),
                client_infos@ == known_infos(ids.take(i as int), client_registry),
            decreases ids.len() - i,
        {
            proof {
                assert(ids.take(i + 1).drop_last() == ids.take(i as int));
                assert(ids.take(i + 1).last() == ids[i as int]);
            }
            match client_registry.get(self.registered_clients[i].as_str()) {
                Ok(Some(client_info)) => {
                    client_infos.push(client_info);
                },
                _ => {},
            }
            i = i + 1;
        }
        assert(ids.take(ids.len() as int) == ids);
        Ok(client_infos)
    }

    /// The registry entry of a client, when it is registered to this game.
    pub fn get_client_info(&self, client_id: &str, client_registry: &ClientRegistry) -> (r: Result<Option<ClientInfo>, String>)
        requires
            client_registry.wf(),
        ensures
            r is Ok,
            !has_string(self.clients(), client_id@) ==> r matches Ok(None),
            has_string(self.clients(), client_id@) ==> (r matches Ok(None) <==> !client_registry.clients.has(client_id@)),
            r matches Ok(Some(c)) ==> has_string(self.clients(), client_id@) && client_registry.clients.has(client_id@)
                && c == client_registry.clients.value_of(client_id@),
    {
        if !self.contains_client(client_id) {
            return Ok(None);
        }
        client_registry.get(client_id)
    }

    /// How many clients are registered.
    pub fn registered_client_count(&self) -> (r: Result<usize, String>)
        ensures
            r matches Ok(n) && n == self.clients().len(),
    {
        Ok(self.registered_clients.len())
    }

    /// The ids of the registered clients.
    pub fn get_registered_client_ids(&self) -> (r: Result<Vec<String>, String>)
        ensures
            r matches Ok(v) && v@ == self.clients(),
    {
        Ok(crate::card::copy_strings(&self.registered_clients))
    }

    /// Sets a client's type in this game.
    pub fn set_client_type(&mut self, client_id: &str, client_type: &str) -> (r: Result<(), String>)
        requires
            old(self).wf(),
        ensures
            final(self).wf(),
            r is Ok,
            same_but_cards(*old(self), *final(self)),
            final(self).manager() == old(self).manager(),
            final(self).types().client_types.has(client_id@),
            final(self).types().client_types.value_of(client_id@)@ == client_type@,
            forall|k: Seq<char>|
                k != client_id@ ==> (final(self).types().client_types.has(k) == old(self).types().client_types.has(k))
                    && (old(self).types().client_types.has(k) ==> final(self).types().client_types.value_of(k)
                    == old(self).types().client_types.value_of(k)),
    {
        self.client_type_registry.set_client_type(client_id, client_type)
    }

    /// A client's type in this game.
    pub fn get_client_type(&self, client_id: &str) -> (r: Result<Option<String>, String>)
        requires
            self.wf(),
        ensures
            r is Ok,
            r matches Ok(None) ==> !self.types().client_types.has(client_id@),
            r matches Ok(Some(t)) ==> self.types().client_types.has(client_id@) && t@
                == self.types().client_types.value_of(client_id@)@,
    {
        self.client_type_registry.get_client_type(client_id)
    }

    /// Whether a client has the given type in this game.
    pub fn is_client_type(&self, client_id: &str, client_type: &str) -> (r: Result<bool, String>)
        requires
            self.wf(),
        ensures
            r == Ok::<bool, String>(self.types().client_types.has(client_id@)
                && self.types().client_types.value_of(client_id@)@ == client_type@),
    {
        self.client_type_registry.is_client_type(client_id, client_type)
    }

    /// The clients with the given type in this game, in order.
    pub fn get_clients_by_type(&self, client_type: &str) -> (r: Result<Vec<String>, String>)
        ensures
            r matches Ok(v) && v@.map_values(|s: String| s@) == ids_of_type(
                self.types().client_types.entries(),
                client_type@,
            ),
    {
        self.client_type_registry.get_clients_by_type(client_type)
    }

    /// All client type associations in this game.
    pub fn get_all_client_types(&self) -> (r: Result<Vec<GameClientType>, String>)
        ensures
            r matches Ok(v) && v@.len() == self.types().client_types.entries().len() && forall|i: int|
                0 <= i < v@.len() ==> (#[trigger] v@[i]).client_id@ == self.types().client_types.entries()[i].0@
                    && v@[i].client_type@ == self.types().client_types.entries()[i].1@,
    {
        self.client_type_registry.get_all_client_types()
    }

    /// Removes a client's type association in this game.
    pub fn remove_client_type(&mut self, client_id: &str) -> (r: Result<Option<String>, String>)
        requires
            old(self).wf(),
        ensures
            final(self).wf(),
            r is Ok,
            same_but_cards(*old(self), *final(self)),
            final(self).manager() == old(self).manager(),
            !final(self).types().client_types.has(client_id@),
            r matches Ok(prev) ==> (prev is Some <==> old(self).types().client_types.has(client_id@)),
            r matches Ok(Some(t)) ==> t == old(self).types().client_types.value_of(client_id@),
            forall|k: Seq<char>|
                k != client_id@ ==> (final(self).types().client_types.has(k) == old(self).types().client_types.has(k))
                    && (old(self).types().client_types.has(k) ==> final(self).types().client_types.value_of(k)
                    == old(self).types().client_types.value_of(k)),
    {
        self.client_type_registry.remove_client_type(client_id)
    }

    /// Generates and assigns cards to a client of this game (see
    /// `CardAssignmentManager::assign_cards_with_type`).
    pub fn assign_client_cards(&mut self, client_id: &str, count: u32, client_type: Option<&str>) -> (res: (
        Vec<CardInfo>,
        Vec<String>,
    ))
        requires
            old(self).wf(),
        ensures
            final(self).wf(),
            same_but_cards(*old(self), *final(self)),
            final(self).types() == old(self).types(),
            res.0@.len() == res.1@.len(),
            forall|i: int| 0 <= i < res.1@.len() ==> (#[trigger] res.0@[i]).card_id@ == res.1@[i]@,
            crate::card::is_board_type(client_type) ==> res.1@.len() == 1 && res.1@[0]@ == crate::board::board_id(),
            !crate::card::is_board_type(client_type) ==> res.1@.len() == count && forall|i: int|
                0 <= i < res.1@.len() ==> card_full(#[trigger] res.0@[i].card_data.deep_view())
                    && res.1@[i]@ == card_id_text(res.0@[i].card_data.deep_view()),
            !crate::card::is_board_type(client_type) ==> forall|i: int, j: int|
                0 <= i < j < res.0@.len() && crate::coverage::same_group(i, j) ==> crate::coverage::share_no_number(
                    #[trigger] res.0@[i].card_data.deep_view(),
                    #[trigger] res.0@[j].card_data.deep_view(),
                ),
            final(self).manager().client_cards.has(client_id@),
            final(self).manager().client_cards.value_of(client_id@)@ == res.1@,
            forall|k: Seq<char>|
                k != client_id@ ==> (final(self).manager().client_cards.has(k) == old(self).manager().client_cards.has(k))
                    && (old(self).manager().client_cards.has(k) ==> final(self).manager().client_cards.value_of(k)
                    == old(self).manager().client_cards.value_of(k)),
            forall|i: int|
                0 <= i < res.1@.len() ==> final(self).manager().assignments.has(#[trigger] res.1@[i]@)
                    && final(self).manager().assignments.value_of(res.1@[i]@).client_id@ == client_id@,
            forall|k: Seq<char>|
                (forall|i: int| 0 <= i < res.1@.len() ==> (#[trigger] res.1@[i])@ != k) ==> (
                final(self).manager().assignments.has(k) == old(self).manager().assignments.has(k)) && (
                old(self).manager().assignments.has(k) ==> final(self).manager().assignments.value_of(k)
                    == old(self).manager().assignments.value_of(k)),
    {
        self.card_manager.assign_cards_with_type(client_id, count, client_type)
    }

    /// Extracts a number (see `perform_extraction`); the board client id is
    /// not consulted.
    pub fn extract_number(&mut self, current_working_score: Number, board_client_id: Option<&str>) -> (r: Result<
        (Number, Number),
        String,
    >)
        requires
            old(self).wf(),
        ensures
            final(self).wf(),
            final(self).id_view() == old(self).id_view(),
            final(self).created() == old(self).created(),
            final(self).clients() == old(self).clients(),
            final(self).manager() == old(self).manager(),
            final(self).types() == old(self).types(),
            final(self).owner_state() == old(self).owner_state(),
            old(self).pouch_state().len() == 0 ==> (r matches Err(e) && e@ == "Pouch is empty"@) && *final(self)
                == *old(self),
            old(self).pouch_state().len() > 0 ==> (r matches Ok(p) && exists|i: int|
                0 <= i < old(self).pouch_state().len() && p.0 == old(self).pouch_state()[i]
                    && final(self).pouch_state() == old(self).pouch_state().remove(i)
                    && final(self).board_state().numbers() == old(self).board_state().numbers().push(p.0)
                    && best_score_update(
                    old(self).scorecard_state(),
                    final(self).scorecard_state(),
                    final(self).board_state().numbers(),
                    &old(self).manager(),
                    current_working_score,
                    p.1,
                )),
    {
        if self.pouch.is_empty() {
            return Err(string_of("Pouch is empty"));
        }
        proof {
            lemma_in_play_facts(self.board.numbers(), self.pouch.numbers@);
        }
        perform_extraction(
            &mut self.pouch,
            &mut self.board,
            &mut self.scorecard,
            &self.card_manager,
            current_working_score,
        )
    }

    /// How many numbers have been extracted.
    pub fn board_length(&self) -> (n: usize)
        ensures
            n == self.board_state().numbers().len(),
    {
        self.board.len()
    }

    /// The published score.
    pub fn published_score(&self) -> (s: Number)
        ensures
            s == self.scorecard_state().published_score,
    {
        self.scorecard.published_score
    }

    /// BINGO has been reached: the published score is at least 15.
    pub fn is_bingo_reached(&self) -> (b: bool)
        ensures
            b == (self.scorecard_state().published_score >= 15),
    {
        self.published_score() >= 15
    }

    /// How many numbers are left in the pouch.
    pub fn pouch_length(&self) -> (n: usize)
        ensures
            n == self.pouch_state().len(),
    {
        self.pouch.len()
    }

    /// The pouch is empty.
    pub fn is_pouch_empty(&self) -> (b: bool)
        ensures
            b == (self.pouch_state().len() == 0),
    {
        self.pouch_length() == 0
    }

    /// The game has ended: BINGO, or nothing left to draw.
    pub fn is_game_ended(&self) -> (b: bool)
        ensures
            b == (self.scorecard_state().published_score >= 15 || self.pouch_state().len() == 0),
    {
        self.is_bingo_reached() || self.is_pouch_empty()
    }

    /// How many clients are registered.
    pub fn player_count(&self) -> (n: usize)
        ensures
            n == self.clients().len(),
    {
        self.registered_clients.len()
    }

    /// How many cards are assigned.
    pub fn card_count(&self) -> (n: usize)
        ensures
            n == self.manager().assignments.entries().len(),
    {
        self.card_manager.assignments.len()
    }

    /// The status: Closed after BINGO, Active once a number is drawn, else New.
    pub fn status(&self) -> (s: GameStatus)
        ensures
            s == status_of(self.scorecard_state().published_score, self.board_state().numbers().len()),
    {
        if self.is_bingo_reached() {
            GameStatus::Closed
        } else if self.has_game_started() {
            GameStatus::Active
        } else {
            GameStatus::New
        }
    }

    /// The game id, the creation time as text, and the creation time.
    pub fn get_running_game_info(&self) -> (r: (String, String, SystemTime))
        ensures
            r.0@ == self.id_view(),
            time_text_of(self.created(), r.1@),
            r.2 == self.created(),
    {
        (self.id(), self.created_at_string(), self.created_at())
    }

    /// A one-line description of the game.
    pub fn game_info(&self) -> (s: String)
        ensures
            exists|created: Seq<char>|
                time_text_of(self.created(), created) && s@ == "Game[id="@ + self.id_view() + ", created="@ + created + ", board_len="@ + dec(
                    self.board_state().numbers().len(),
                ) + ", pouch_len="@ + dec(self.pouch_state().len()) + ", score="@ + dec(
                    self.scorecard_state().published_score as nat,
                ) + ", started="@ + bool_text(self.board_state().numbers().len() > 0) + "]"@,
    {
        let created = self.created_at_string();
        let mut s = string_of("Game[id=");
        s.append(self.id.as_str());
        s.append(", created=");
        s.append(created.as_str());
        s.append(", board_len=");
        append_dec(&mut s, self.board_length() as u64);
        s.append(", pouch_len=");
        append_dec(&mut s, self.pouch_length() as u64);
        s.append(", score=");
        append_dec(&mut s, self.published_score() as u64);
        s.append(", started=");
        append_bool(&mut s, self.has_game_started());
        s.append("]");
        assert(s@ =~= "Game[id="@ + self.id_view() + ", created="@ + created@ + ", board_len="@ + dec(
            self.board_state().numbers().len(),
        ) + ", pouch_len="@ + dec(self.pouch_state().len()) + ", score="@ + dec(
            self.scorecard_state().published_score as nat,
        ) + ", started="@ + bool_text(self.board_state().numbers().len() > 0) + "]"@);
        assert(time_text_of(self.created(), created@));
        s
    }

    /// A snapshot of the game state for saving.
    pub fn create_serializable_state(&self) -> (r: Result<SerializableGameState, String>)
        ensures
            r matches Ok(st) && snapshot_of(st, *self),
    {
        Ok(
            SerializableGameState {
                id: self.id(),
                created_at: self.created_at(),
                board: self.board.clone(),
                pouch: self.pouch.clone(),
                scorecard: self.scorecard.clone(),
                registered_clients: crate::card::copy_strings(&self.registered_clients),
                card_manager: self.card_manager.duplicate(),
                game_ended_at: now(),
            },
        )
    }

    /// Where the snapshot of this game is saved: "data/games/" id ".json".
    pub fn dump_file_path(&self) -> (s: String)
        ensures
            s@ == "data/games/"@ + self.id_view() + ".json"@,
    {
        let mut s = string_of("data/games/");
        s.append(self.id.as_str());
        s.append(".json");
        s
    }

    /// The snapshot to save when the game has ended; an error otherwise.
    pub fn dump_if_ended(&self) -> (r: Result<SerializableGameState, String>)
        ensures
            !(self.scorecard_state().published_score >= 15 || self.pouch_state().len() == 0) ==> (r matches Err(
                e,
            ) && e@ == "Game has not ended yet (BINGO not reached and pouch not empty)"@),
            (self.scorecard_state().published_score >= 15 || self.pouch_state().len() == 0) ==> (r matches Ok(
                st,
            ) && snapshot_of(st, *self)),
    {
        if self.is_game_ended() {
            self.create_serializable_state()
        } else {
            Err(string_of("Game has not ended yet (BINGO not reached and pouch not empty)"))
        }
    }
}

/// A snapshot holds the whole state of a game: its id and creation time,
/// the board with its marks, the pouch, the score card, the registered
/// clients and every card assignment.
pub open spec fn snapshot_of(st: SerializableGameState, g: Game) -> bool {
    &&& st.id@ == g.id_view()
    &&& st.created_at == g.created()
    &&& st.board.numbers() == g.board_state().numbers()
    &&& st.board.marked() == g.board_state().marked()
    &&& st.pouch.numbers@ == g.pouch_state()
    &&& st.scorecard.published_score == g.scorecard_state().published_score
    &&& st.scorecard.score_map@ == g.scorecard_state().score_map@
    &&& st.registered_clients@ == g.clients()
    &&& manager_view(st.card_manager) == manager_view(g.manager())
}

/// A snapshot of a game, for saving.
#[derive(Debug, Clone)]
pub struct SerializableGameState {
    pub id: String,
    pub created_at: SystemTime,
    pub board: Board,
    pub pouch: Pouch,
    pub scorecard: ScoreCard,
    pub registered_clients: Vec<String>,
    pub card_manager: CardAssignmentManager,
    pub game_ended_at: SystemTime,
}

impl Default for Game {
    fn default() -> (g: Self)
        ensures
            g.wf(),
    {
        Self::new()
    }
}

/// A time as text: a UTC date, or "Unknown time".
pub open spec fn time_text_ok(t: Seq<char>) -> bool {
    t == "Unknown time"@ || ends_with(t, " UTC"@)
}

/// `s` is the text of time `t`, as `time_text` gives it.
pub open spec fn time_text_of(t: SystemTime, s: Seq<char>) -> bool {
    date_text_ok(epoch_parts(t), s) && time_text_ok(s)
}

/// The status of an entry's game.
pub open spec fn entry_status(e: GameEntry) -> GameStatus {
    status_of(e.game.scorecard_state().published_score, e.game.board_state().numbers().len())
}

/// The description of an entry, given the texts of its registration and
/// closing times.
pub open spec fn entry_info(e: GameEntry, registered: Seq<char>, closed: Seq<char>) -> Seq<char> {
    "GameEntry[id="@ + e.game_id@ + ", status="@ + status_name(entry_status(e)) + ", board_len="@ + dec(
        e.game.board_state().numbers().len(),
    ) + ", score="@ + dec(e.game.scorecard_state().published_score as nat) + ", registered_at="@
        + registered + (if e.closed_at is Some {
        ", closed_at="@ + closed
    } else {
        Seq::<char>::empty()
    }) + "]"@
}

/// `s` describes entry `e`.
pub open spec fn describes(e: GameEntry, s: Seq<char>) -> bool {
    exists|registered: Seq<char>, closed: Seq<char>|
        time_text_of(e.registered_at, registered) && (e.closed_at is Some ==> time_text_of(e.closed_at->0, closed))
            && s == entry_info(
            e,
            registered,
            closed,
        )
}

/// `after` is `before`, with a closing time set when its game has reached
/// BINGO and none was set yet.
pub open spec fn closed_at_updated(before: GameEntry, after: GameEntry) -> bool {
    &&& after.game_id == before.game_id
    &&& after.game == before.game
    &&& after.registered_at == before.registered_at
    &&& if before.closed_at is None && before.game.scorecard_state().published_score >= 15 {
        after.closed_at is Some
    } else {
        after.closed_at == before.closed_at
    }
}

/// A game as the registry holds it.
#[derive(Debug, Clone)]
pub struct GameEntry {
    pub game_id: String,
    pub game: Game,
    /// When the game was registered.
    pub registered_at: SystemTime,
    /// When the game was first seen closed.
    pub closed_at: Option<SystemTime>,
}

impl GameEntry {
    /// An entry registered now, not closed.
    pub fn new(game_id: String, game: Game) -> (e: Self)
        ensures
            e.game_id == game_id,
            e.game == game,
            e.closed_at is None,
    {
        GameEntry { game_id, game, registered_at: now(), closed_at: None }
    }

    /// The status of the game.
    pub fn status(&self) -> (s: GameStatus)
        ensures
            s == entry_status(*self),
    {
        self.game.status()
    }

    /// Sets the closing time to now when the game has reached BINGO and no
    /// closing time is set.
    pub fn update_closed_at(&mut self)
        ensures
            closed_at_updated(*old(self), *final(self)),
    {
        if self.game.is_bingo_reached() && self.closed_at.is_none() {
            self.closed_at = Some(now());
        }
    }

    /// The status, after setting the closing time as `update_closed_at` does.
    pub fn status_with_update(&mut self) -> (s: GameStatus)
        ensures
            closed_at_updated(*old(self), *final(self)),
            s == entry_status(*old(self)),
    {
        let status = self.status();
        if status == GameStatus::Closed && self.closed_at.is_none() {
            self.closed_at = Some(now());
        }
        status
    }

    /// The game has reached BINGO.
    pub fn is_closed(&self) -> (b: bool)
        ensures
            b == (self.game.scorecard_state().published_score >= 15),
    {
        self.game.is_bingo_reached()
    }

    /// The closing time as text, when set.
    pub fn closed_at_string(&self) -> (r: Option<String>)
        ensures
            r is Some == self.closed_at is Some,
            r matches Some(s) ==> time_text_of(self.closed_at->0, s@),
    {
        match &self.closed_at {
            Some(t) => Some(time_text(t)),
            None => None,
        }
    }

    /// A one-line description of the entry.
    pub fn info(&self) -> (s: String)
        ensures
            describes(*self, s@),
    {
        let registered = self.registered_at_string();
        let closed = self.closed_at_string();
        let ghost closed_text: Seq<char> = if closed is Some {
            closed->0@
        } else {
            Seq::<char>::empty()
        };
        let mut s = string_of("GameEntry[id=");
        s.append(self.game_id.as_str());
        s.append(", status=");
        s.append(self.status().as_str());
        s.append(", board_len=");
        append_dec(&mut s, self.game.board_length() as u64);
        s.append(", score=");
        append_dec(&mut s, self.game.published_score() as u64);
        s.append(", registered_at=");
        s.append(registered.as_str());
        match closed {
            Some(c) => {
                s.append(", closed_at=");
                s.append(c.as_str());
            },
            None => {},
        }
        s.append("]");
        assert(s@ =~= entry_info(*self, registered@, closed_text));
        s
    }

    /// The registration time as text.
    pub fn registered_at_string(&self) -> (s: String)
        ensures
            time_text_of(self.registered_at, s@),
    {
        time_text(&self.registered_at)
    }
}


/// Listing rows in order of game id.
pub open spec fn rows_sorted(v: Seq<(String, GameStatus, String)>) -> bool {
    forall|a: int, b: int| 0 <= a <= b < v.len() ==> seq_le(#[trigger] v[a].0@, #[trigger] v[b].0@)
}

/// Strings in order.
pub open spec fn strings_sorted(v: Seq<String>) -> bool {
    forall|a: int, b: int| 0 <= a <= b < v.len() ==> seq_le(#[trigger] v[a]@, #[trigger] v[b]@)
}

/// Each row names an entry and describes it.
pub open spec fn rows_described(rows: Seq<(String, GameStatus, String)>, entries: Seq<(String, GameEntry)>) -> bool {
    forall|j: int|
        0 <= j < rows.len() ==> exists|k: int|
            0 <= k < entries.len() && (#[trigger] rows[j]).0 == (#[trigger] entries[k]).0 && describes(
                entries[k].1,
                rows[j].2@,
            )
}

/// The id and status of a listing row.
pub open spec fn row_key() -> spec_fn((String, GameStatus, String)) -> (Seq<char>, GameStatus) {
    |t: (String, GameStatus, String)| (t.0@, t.1)
}

/// The id and status of a registry entry.
pub open spec fn entry_key() -> spec_fn((String, GameEntry)) -> (Seq<char>, GameStatus) {
    |e: (String, GameEntry)| (e.0@, entry_status(e.1))
}

/// The text of a string.
pub open spec fn text_of() -> spec_fn(String) -> Seq<char> {
    |s: String| s@
}

/// The ids, in entry order, of the games with status `st`.
pub open spec fn ids_with_status(entries: Seq<(String, GameEntry)>, st: GameStatus) -> Seq<Seq<char>>
    decreases entries.len(),
{
    if entries.len() == 0 {
        Seq::empty()
    } else {
        let rest = ids_with_status(entries.drop_last(), st);
        if entry_status(entries.last().1) == st {
            rest.push(entries.last().0@)
        } else {
            rest
        }
    }
}

/// There are no more ids with a status than entries.
pub proof fn lemma_ids_with_status_len(entries: Seq<(String, GameEntry)>, st: GameStatus)
    ensures
        ids_with_status(entries, st).len() <= entries.len(),
    decreases entries.len(),
{
    if entries.len() > 0 {
        lemma_ids_with_status_len(entries.drop_last(), st);
    }
}

/// Games with the same ids and games in the same order have the same ids
/// by status.
pub proof fn lemma_ids_with_status_same_games(a: Seq<(String, GameEntry)>, b: Seq<(String, GameEntry)>, st: GameStatus)
    requires
        a.len() == b.len(),
        forall|i: int| 0 <= i < a.len() ==> (#[trigger] a[i]).0 == b[i].0 && a[i].1.game == b[i].1.game,
    ensures
        ids_with_status(a, st) == ids_with_status(b, st),
    decreases a.len(),
{
    if a.len() > 0 {
        lemma_ids_with_status_same_games(a.drop_last(), b.drop_last(), st);
        assert(a.last() == a[a.len() - 1]);
    }
}

/// The status summary agrees with the lists of games by status and with the
/// number of games. `status_summary`, `games_by_status` and `total_games`
/// change at most the closing times of the entries (`closed_at_updated`),
/// so whichever is called first, each list of ids with a status is the same
/// before and after, and the three counts add up to the number of games.
pub proof fn law_status_summary_agrees(before: &GameRegistry, after: &GameRegistry, st: GameStatus)
    requires
        after.entries().len() == before.entries().len(),
        forall|i: int|
            0 <= i < before.entries().len() ==> (#[trigger] after.entries()[i]).0 == before.entries()[i].0
                && closed_at_updated(before.entries()[i].1, after.entries()[i].1),
    ensures
        ids_with_status(after.entries(), st) == ids_with_status(before.entries(), st),
        ids_with_status(after.entries(), GameStatus::New).len() + ids_with_status(
            after.entries(),
            GameStatus::Active,
        ).len() + ids_with_status(after.entries(), GameStatus::Closed).len() == after.entries().len(),
{
    assert forall|i: int| 0 <= i < after.entries().len() implies (#[trigger] after.entries()[i]).0
        == before.entries()[i].0 && after.entries()[i].1.game == before.entries()[i].1.game by {
        assert(closed_at_updated(before.entries()[i].1, after.entries()[i].1));
    }
    lemma_ids_with_status_same_games(after.entries(), before.entries(), st);
    law_status_counts_add_up(after);
}

/// Every game has exactly one status: the numbers of new, active and closed
/// games that `status_summary` counts add up to the number of games that
/// `total_games` counts.
pub proof fn law_status_counts_add_up(reg: &GameRegistry)
    ensures
        ids_with_status(reg.entries(), GameStatus::New).len() + ids_with_status(reg.entries(), GameStatus::Active).len()
            + ids_with_status(reg.entries(), GameStatus::Closed).len() == reg.entries().len(),
{
    lemma_status_counts(reg.entries());
}

proof fn lemma_status_counts(entries: Seq<(String, GameEntry)>)
    ensures
        ids_with_status(entries, GameStatus::New).len() + ids_with_status(entries, GameStatus::Active).len()
            + ids_with_status(entries, GameStatus::Closed).len() == entries.len(),
    decreases entries.len(),
{
    if entries.len() > 0 {
        lemma_status_counts(entries.drop_last());
    }
}

/// Inserting an element anywhere adds it to the multiset of elements.
pub proof fn lemma_insert_to_multiset<A>(s: Seq<A>, i: int, a: A)
    requires
        0 <= i <= s.len(),
    ensures
        s.insert(i, a).to_multiset() =~= s.to_multiset().insert(a),
{
    broadcast use vstd::seq_lib::group_seq_properties, vstd::multiset::group_multiset_axioms;

    let t = s.insert(i, a);
    assert(t.remove(i) =~= s);
    assert(t[i] == a);
    assert(t.to_multiset().count(a) > 0);
}

/// Every game of the registry, by id, with when it was registered and closed.
#[derive(Debug)]
pub struct GameRegistry {
    games: StrMap<GameEntry>,
}

impl GameRegistry {
    /// The entries, keyed by game id, in order of registration.
    pub closed spec fn entries(&self) -> Seq<(String, GameEntry)> {
        self.games.entries()
    }

    /// Ids are distinct; each entry is keyed by its own game's id and holds a
    /// well-formed game.
    pub open spec fn wf(&self) -> bool {
        &&& keys_distinct(self.entries())
        &&& forall|i: int|
            0 <= i < self.entries().len() ==> (#[trigger] self.entries()[i]).1.game_id@ == self.entries()[i].0@
                && self.entries()[i].0@ == self.entries()[i].1.game.id_view() && self.entries()[i].1.game.wf()
    }

    /// A game with this id is registered.
    pub open spec fn has_game(&self, id: Seq<char>) -> bool {
        has_key(self.entries(), id)
    }

    /// The entry of a registered game.
    pub open spec fn entry_of(&self, id: Seq<char>) -> GameEntry {
        self.entries()[index_of(self.entries(), id)].1
    }

    /// An empty registry.
    pub fn new() -> (r: Self)
        ensures
            r.wf(),
            r.entries().len() == 0,
    {
        GameRegistry { games: StrMap::new() }
    }

    /// Registers a game under its id; an error when a game with that id is
    /// registered already.
    pub fn add_game(&mut self, game: Game) -> (r: Result<String, String>)
        requires
            old(self).wf(),
            game.wf(),
        ensures
            final(self).wf(),
            old(self).has_game(game.id_view()) ==> (r matches Err(e) && e@ == "Game with ID '"@ + game.id_view()
                + "' already exists in registry"@) && *final(self) == *old(self),
            !old(self).has_game(game.id_view()) ==> (r matches Ok(id) && id@ == game.id_view() && final(self).entries().len() == old(self).entries().len() + 1 && final(self).entries().drop_last()
                == old(self).entries() && final(self).entries().last().0@ == id@ && final(self).entries().last().1.game == game && final(self).entries().last().1.closed_at is None),
    {
        let game_id = game.id();
        if self.games.contains_key(game_id.as_str()) {
            let mut e = string_of("Game with ID '");
            e.append(game_id.as_str());
            e.append("' already exists in registry");
            return Err(e);
        }
        let entry = GameEntry::new(game_id.clone(), game);
        self.games.insert(game_id.clone(), entry);
        proof {
            assert(self.entries().drop_last() =~= old(self).entries());
        }
        Ok(game_id)
    }

    /// Every game: id, status and description, in order of id. Closing times
    /// are set as `GameEntry::update_closed_at` does.
    pub fn games_list(&mut self) -> (r: Result<Vec<(String, GameStatus, String)>, String>)
        requires
            old(self).wf(),
        ensures
            final(self).wf(),
            final(self).entries().len() == old(self).entries().len(),
            forall|i: int|
                0 <= i < old(self).entries().len() ==> (#[trigger] final(self).entries()[i]).0 == old(self).entries()[i].0 && closed_at_updated(old(self).entries()[i].1, final(self).entries()[i].1),
            r matches Ok(v) && rows_sorted(v@) && v@.map_values(row_key()).to_multiset() == final(self).entries().map_values(entry_key()).to_multiset() && rows_described(v@, final(self).entries()),
    {
        broadcast use vstd::seq_lib::group_seq_properties;

        let n = self.games.len();
        let ghost before = self.entries();
        let mut rows: Vec<(String, GameStatus, String)> = Vec::new();
        let mut i: usize = 0;
        assert(rows@.map_values(row_key()) =~= Seq::empty());
        assert(self.entries().take(0).map_values(entry_key()) =~= Seq::empty());
        while i < n
            invariant
                n == before.len(),
                i <= n,
                keys_distinct(before),
                forall|k: int|
                    0 <= k < n ==> (#[trigger] before[k]).1.game_id@ == before[k].0@ && before[k].0@
                        == before[k].1.game.id_view() && before[k].1.game.wf(),
                self.entries().len() == n,
                forall|k: int| 0 <= k < n ==> (#[trigger] self.entries()[k]).0 == before[k].0,
                forall|k: int|
                    0 <= k < i ==> closed_at_updated(before[k].1, #[trigger] self.entries()[k].1),
                forall|k: int| i <= k < n ==> (#[trigger] self.entries()[k]).1 == before[k].1,
                rows_sorted(rows@),
                rows@.map_values(row_key()).to_multiset() == self.entries().take(i as int).map_values(
                    entry_key(),
                ).to_multiset(),
                rows_described(rows@, self.entries().take(i as int)),
            decreases n - i,
        {
            let ghost prev = self.entries();
            let key = self.games.key_at(i).clone();
            let entry = self.games.value_at_mut(i);
            let status = entry.status_with_update();
            let info = entry.info();
            let row = (key, status, info);
            assert(self.entries() == prev.update(i as int, (prev[i as int].0, self.entries()[i as int].1)));
            let mut p: usize = 0;
            while p < rows.len() && str_le(rows[p].0.as_str(), row.0.as_str())
                invariant
                    p <= rows@.len(),
                    forall|j: int| 0 <= j < p ==> seq_le(#[trigger] rows@[j].0@, row.0@),
                decreases rows@.len() - p,
            {
                p = p + 1;
            }
            let ghost unsorted = rows@;
            rows.insert(p, row);
            proof {
                assert forall|a: int, b: int| 0 <= a <= b < rows@.len() implies seq_le(
                    #[trigger] rows@[a].0@,
                    #[trigger] rows@[b].0@,
                ) by {
                    if a < p && b > p {
                        assert(rows@[a] == unsorted[a]);
                        assert(rows@[b] == unsorted[b - 1]);
                    } else if a < p && b == p {
                        assert(rows@[a] == unsorted[a]);
                    } else if a == p && b > p {
                        assert(rows@[b] == unsorted[b - 1]);
                        lemma_seq_le_total(unsorted[p as int].0@, row.0@);
                        lemma_seq_le_trans(row.0@, unsorted[p as int].0@, unsorted[b - 1].0@);
                    } else if a > p {
                        assert(rows@[a] == unsorted[a - 1]);
                        assert(rows@[b] == unsorted[b - 1]);
                    } else {
                        lemma_seq_le_total(row.0@, row.0@);
                    }
                }
                assert(rows@.map_values(row_key()) =~= unsorted.map_values(row_key()).insert(
                    p as int,
                    row_key()(row),
                ));
                lemma_insert_to_multiset(unsorted.map_values(row_key()), p as int, row_key()(row));
                assert(row_key()(row) == entry_key()(self.entries()[i as int]));
                vstd::seq_lib::to_multiset_build(prev.take(i as int).map_values(entry_key()), row_key()(row));
                assert(self.entries().take(i + 1) =~= prev.take(i as int).push(self.entries()[i as int]));
                assert(self.entries().take(i + 1).map_values(entry_key()) =~= prev.take(i as int).map_values(
                    entry_key(),
                ).push(entry_key()(self.entries()[i as int])));
                assert(self.entries().take(i as int) =~= prev.take(i as int));
                assert(describes(self.entries()[i as int].1, row.2@));
                let cur = self.entries().take(i + 1);
                assert forall|j: int| 0 <= j < rows@.len() implies exists|k: int|
                    0 <= k < cur.len() && (#[trigger] rows@[j]).0 == (#[trigger] cur[k]).0 && describes(
                        cur[k].1,
                        rows@[j].2@,
                    ) by {
                    let jj = if j < p {
                        j
                    } else {
                        j - 1
                    };
                    if j == p {
                        assert(rows@[j].0 == cur[i as int].0);
                    } else {
                        assert(rows@[j] == unsorted[jj]);
                        let pt = prev.take(i as int);
                        let k = choose|k: int|
                            0 <= k < pt.len() && (#[trigger] unsorted[jj]).0 == (#[trigger] pt[k]).0 && describes(
                                pt[k].1,
                                unsorted[jj].2@,
                            );
                        assert(cur[k] == pt[k]);
                    }
                }
            }
            i = i + 1;
        }
        proof {
            assert(self.entries().take(n as int) =~= self.entries());
            assert forall|a: int, b: int|
                0 <= a < self.entries().len() && 0 <= b < self.entries().len() && a != b implies #[trigger] self.entries()[a].0@
                != #[trigger] self.entries()[b].0@ by {
                assert(self.entries()[a].0 == before[a].0);
                assert(self.entries()[b].0 == before[b].0);
            }
            assert forall|k: int| 0 <= k < self.entries().len() implies (#[trigger] self.entries()[k]).1.game_id@
                == self.entries()[k].0@ && self.entries()[k].0@ == self.entries()[k].1.game.id_view()
                && self.entries()[k].1.game.wf() by {
                assert(closed_at_updated(before[k].1, self.entries()[k].1));
            }
        }
        Ok(rows)
    }

    /// Sets the closing time of every entry as `GameEntry::update_closed_at` does.
    fn refresh_closed_at(&mut self)
        requires
            old(self).wf(),
        ensures
            final(self).wf(),
            final(self).entries().len() == old(self).entries().len(),
            forall|i: int|
                0 <= i < old(self).entries().len() ==> (#[trigger] final(self).entries()[i]).0 == old(self).entries()[i].0 && closed_at_updated(old(self).entries()[i].1, final(self).entries()[i].1),
    {
        let n = self.games.len();
        let ghost before = self.entries();
        let mut i: usize = 0;
        while i < n
            invariant
                n == before.len(),
                i <= n,
                keys_distinct(before),
                forall|k: int|
                    0 <= k < n ==> (#[trigger] before[k]).1.game_id@ == before[k].0@ && before[k].0@
                        == before[k].1.game.id_view() && before[k].1.game.wf(),
                self.entries().len() == n,
                forall|k: int| 0 <= k < n ==> (#[trigger] self.entries()[k]).0 == before[k].0,
                forall|k: int|
                    0 <= k < i ==> closed_at_updated(before[k].1, #[trigger] self.entries()[k].1),
                forall|k: int| i <= k < n ==> (#[trigger] self.entries()[k]).1 == before[k].1,
            decreases n - i,
        {
            let entry = self.games.value_at_mut(i);
            entry.update_closed_at();
            i = i + 1;
        }
        proof {
            assert forall|a: int, b: int|
                0 <= a < self.entries().len() && 0 <= b < self.entries().len() && a != b implies #[trigger] self.entries()[a].0@
                != #[trigger] self.entries()[b].0@ by {
                assert(self.entries()[a].0 == before[a].0);
                assert(self.entries()[b].0 == before[b].0);
            }
            assert forall|k: int| 0 <= k < self.entries().len() implies (#[trigger] self.entries()[k]).1.game_id@
                == self.entries()[k].0@ && self.entries()[k].0@ == self.entries()[k].1.game.id_view()
                && self.entries()[k].1.game.wf() by {
                assert(closed_at_updated(before[k].1, self.entries()[k].1));
            }
        }
    }

    /// The game registered under `game_id`, if any.
    pub fn get_game(&self, game_id: &str) -> (r: Result<Option<&Game>, String>)
        requires
            self.wf(),
        ensures
            r matches Ok(o) && (o is Some <==> self.has_game(game_id@)) && (o matches Some(g) ==> *g
                == self.entry_of(game_id@).game),
    {
        match self.games.get(game_id) {
            Some(entry) => Ok(Some(&entry.game)),
            None => Ok(None),
        }
    }

    /// The entry of the game registered under `game_id`, if any.
    pub fn get_entry(&self, game_id: &str) -> (r: Option<&GameEntry>)
        requires
            self.wf(),
        ensures
            r is Some <==> self.has_game(game_id@),
            r matches Some(e) ==> *e == self.entry_of(game_id@),
    {
        self.games.get(game_id)
    }

    /// The game registered under `game_id`, if any, for update in place: the
    /// registry then holds the updated game in that entry.
    pub fn get_game_mut(&mut self, game_id: &str) -> (r: Option<&mut Game>)
        requires
            old(self).wf(),
        ensures
            r is Some <==> old(self).has_game(game_id@),
            r matches Some(g) ==> *g == old(self).entry_of(game_id@).game && final(self).entries() == old(self).entries().update(
                index_of(old(self).entries(), game_id@),
                (
                    old(self).entries()[index_of(old(self).entries(), game_id@)].0,
                    GameEntry { game: *final(g), ..old(self).entry_of(game_id@) },
                ),
            ),
            r is None ==> final(self).entries() == old(self).entries(),
    {
        match self.games.find(game_id) {
            Some(i) => {
                let entry = self.games.value_at_mut(i);
                Some(&mut entry.game)
            },
            None => None,
        }
    }

    /// Removes the game registered under `game_id`; true when there was one.
    pub fn remove_game(&mut self, game_id: &str) -> (r: Result<bool, String>)
        requires
            old(self).wf(),
        ensures
            final(self).wf(),
            r matches Ok(b) && b == old(self).has_game(game_id@),
            old(self).has_game(game_id@) ==> final(self).entries() == old(self).entries().remove(
                index_of(old(self).entries(), game_id@),
            ),
            !old(self).has_game(game_id@) ==> final(self).entries() == old(self).entries(),
            !final(self).has_game(game_id@),
    {
        let removed = self.games.remove(game_id);
        proof {
            if old(self).has_game(game_id@) {
                let idx = index_of(old(self).entries(), game_id@);
                assert forall|k: int| 0 <= k < self.entries().len() implies (#[trigger] self.entries()[k]).1.game_id@
                    == self.entries()[k].0@ && self.entries()[k].0@ == self.entries()[k].1.game.id_view()
                    && self.entries()[k].1.game.wf() by {
                    if k < idx {
                        assert(self.entries()[k] == old(self).entries()[k]);
                    } else {
                        assert(self.entries()[k] == old(self).entries()[k + 1]);
                    }
                }
            }
        }
        Ok(removed.is_some())
    }

    /// How many games are registered.
    pub fn total_games(&self) -> (r: Result<usize, String>)
        ensures
            r matches Ok(n) && n == self.entries().len(),
    {
        Ok(self.games.len())
    }

    /// The ids of the games with status `status`, in order of id. Closing
    /// times are set as `GameEntry::update_closed_at` does.
    pub fn games_by_status(&mut self, status: GameStatus) -> (r: Result<Vec<String>, String>)
        requires
            old(self).wf(),
        ensures
            final(self).wf(),
            final(self).entries().len() == old(self).entries().len(),
            forall|i: int|
                0 <= i < old(self).entries().len() ==> (#[trigger] final(self).entries()[i]).0 == old(self).entries()[i].0 && closed_at_updated(old(self).entries()[i].1, final(self).entries()[i].1),
            r matches Ok(v) && strings_sorted(v@) && v@.map_values(text_of()).to_multiset() == ids_with_status(
                final(self).entries(),
                status,
            ).to_multiset(),
    {
        broadcast use vstd::seq_lib::group_seq_properties;

        self.refresh_closed_at();
        let n = self.games.len();
        let mut ids: Vec<String> = Vec::new();
        let mut i: usize = 0;
        assert(ids@.map_values(text_of()) =~= Seq::empty());
        assert(self.entries().take(0) =~= Seq::empty());
        while i < n
            invariant
                n == self.entries().len(),
                i <= n,
                strings_sorted(ids@),
                ids@.map_values(text_of()).to_multiset() == ids_with_status(self.entries().take(i as int), status).to_multiset(),
            decreases n - i,
        {
            let entry = self.games.value_at(i);
            let ghost e = self.entries()[i as int];
            assert(self.entries().take(i + 1).drop_last() =~= self.entries().take(i as int));
            assert(self.entries().take(i + 1).last() == e);
            if entry.status() == status {
                let id = self.games.key_at(i).clone();
                let mut p: usize = 0;
                while p < ids.len() && str_le(ids[p].as_str(), id.as_str())
                    invariant
                        p <= ids@.len(),
                        forall|j: int| 0 <= j < p ==> seq_le(#[trigger] ids@[j]@, id@),
                    decreases ids@.len() - p,
                {
                    p = p + 1;
                }
                let ghost unsorted = ids@;
                ids.insert(p, id);
                proof {
                    assert forall|a: int, b: int| 0 <= a <= b < ids@.len() implies seq_le(
                        #[trigger] ids@[a]@,
                        #[trigger] ids@[b]@,
                    ) by {
                        if a < p && b > p {
                            assert(ids@[a] == unsorted[a]);
                            assert(ids@[b] == unsorted[b - 1]);
                        } else if a < p && b == p {
                            assert(ids@[a] == unsorted[a]);
                        } else if a == p && b > p {
                            assert(ids@[b] == unsorted[b - 1]);
                            lemma_seq_le_total(unsorted[p as int]@, id@);
                            lemma_seq_le_trans(id@, unsorted[p as int]@, unsorted[b - 1]@);
                        } else if a > p {
                            assert(ids@[a] == unsorted[a - 1]);
                            assert(ids@[b] == unsorted[b - 1]);
                        } else {
                            lemma_seq_le_total(id@, id@);
                        }
                    }
                    assert(ids@.map_values(text_of()) =~= unsorted.map_values(text_of()).insert(p as int, id@));
                    lemma_insert_to_multiset(unsorted.map_values(text_of()), p as int, id@);
                    vstd::seq_lib::to_multiset_build(ids_with_status(self.entries().take(i as int), status), id@);
                }
            }
            i = i + 1;
        }
        assert(self.entries().take(n as int) =~= self.entries());
        Ok(ids)
    }

    /// How many games are New, Active and Closed. Closing times are set as
    /// `GameEntry::update_closed_at` does.
    pub fn status_summary(&mut self) -> (r: Result<(usize, usize, usize), String>)
        requires
            old(self).wf(),
        ensures
            final(self).wf(),
            final(self).entries().len() == old(self).entries().len(),
            forall|i: int|
                0 <= i < old(self).entries().len() ==> (#[trigger] final(self).entries()[i]).0 == old(self).entries()[i].0 && closed_at_updated(old(self).entries()[i].1, final(self).entries()[i].1),
            r matches Ok(c) && c.0 == ids_with_status(final(self).entries(), GameStatus::New).len() && c.1
                == ids_with_status(final(self).entries(), GameStatus::Active).len() && c.2 == ids_with_status(
                final(self).entries(),
                GameStatus::Closed,
            ).len(),
    {
        self.refresh_closed_at();
        let n = self.games.len();
        let mut new_count: usize = 0;
        let mut active_count: usize = 0;
        let mut closed_count: usize = 0;
        let mut i: usize = 0;
        assert(self.entries().take(0) =~= Seq::empty());
        while i < n
            invariant
                n == self.entries().len(),
                i <= n,
                new_count == ids_with_status(self.entries().take(i as int), GameStatus::New).len(),
                active_count == ids_with_status(self.entries().take(i as int), GameStatus::Active).len(),
                closed_count == ids_with_status(self.entries().take(i as int), GameStatus::Closed).len(),
            decreases n - i,
        {
            let ghost t = self.entries().take(i + 1);
            assert(t.drop_last() =~= self.entries().take(i as int));
            proof {
                lemma_ids_with_status_len(t, GameStatus::New);
                lemma_ids_with_status_len(t, GameStatus::Active);
                lemma_ids_with_status_len(t, GameStatus::Closed);
            }
            match self.games.value_at(i).status() {
                GameStatus::New => new_count = new_count + 1,
                GameStatus::Active => active_count = active_count + 1,
                GameStatus::Closed => closed_count = closed_count + 1,
            }
            i = i + 1;
        }
        assert(self.entries().take(n as int) =~= self.entries());
        Ok((new_count, active_count, closed_count))
    }

    /// Removes every game; returns how many there were.
    pub fn clear(&mut self) -> (r: Result<usize, String>)
        ensures
            final(self).wf(),
            final(self).entries().len() == 0,
            r matches Ok(n) && n == old(self).entries().len(),
    {
        let count = self.games.len();
        self.games.clear();
        Ok(count)
    }
}

/// The entries of `before` with the game registered under `id` replaced by
/// `g` (its id, registration and closing times kept).
pub open spec fn with_game(before: &GameRegistry, id: Seq<char>, g: Game) -> Seq<(String, GameEntry)> {
    let i = index_of(before.entries(), id);
    before.entries().update(i, (before.entries()[i].0, GameEntry { game: g, ..before.entries()[i].1 }))
}

/// The game that `after` holds where `before` held the game registered under `id`.
pub open spec fn game_now(before: &GameRegistry, after: &GameRegistry, id: Seq<char>) -> Game {
    after.entries()[index_of(before.entries(), id)].1.game
}

/// Replacing a registered game by a well-formed game with the same id keeps
/// the registry well formed, and the other games and ids as they were.
pub proof fn lemma_with_game(before: &GameRegistry, id: Seq<char>, g: Game, after: &GameRegistry)
    requires
        before.wf(),
        before.has_game(id),
        g.wf(),
        g.id_view() == id,
        after.entries() == with_game(before, id, g),
    ensures
        after.wf(),
        after.has_game(id),
        index_of(after.entries(), id) == index_of(before.entries(), id),
        after.entry_of(id).game == g,
        game_now(before, after, id) == g,
        forall|k: Seq<char>| #[trigger] after.has_game(k) == before.has_game(k),
{
    let i = index_of(before.entries(), id);
    let e = before.entries();
    let f = after.entries();
    assert(0 <= i < e.len() && e[i].0@ == id);
    assert forall|a: int, b: int| 0 <= a < f.len() && 0 <= b < f.len() && a != b implies #[trigger] f[a].0@
        != #[trigger] f[b].0@ by {
        assert(f[a].0 == e[a].0);
        assert(f[b].0 == e[b].0);
    }
    assert forall|k: int| 0 <= k < f.len() implies (#[trigger] f[k]).1.game_id@ == f[k].0@ && f[k].0@
        == f[k].1.game.id_view() && f[k].1.game.wf() by {
        if k != i {
            assert(f[k] == e[k]);
        }
    }
    crate::strmap::lemma_index_of(f, i);
    assert forall|k: Seq<char>| #[trigger] after.has_game(k) == before.has_game(k) by {
        if after.has_game(k) {
            let j = choose|j: int| 0 <= j < f.len() && #[trigger] f[j].0@ == k;
            assert(e[j].0@ == k);
        }
        if before.has_game(k) {
            let j = choose|j: int| 0 <= j < e.len() && #[trigger] e[j].0@ == k;
            assert(f[j].0@ == k);
        }
    }
}

/// A registered game can be found again: after a game is appended to the
/// registry under its id, the registry holds it under that id, and every
/// other id is registered, with its game, exactly as before.
pub proof fn law_added_game_is_found(before: &GameRegistry, after: &GameRegistry, g: Game)
    requires
        before.wf(),
        after.wf(),
        !before.has_game(g.id_view()),
        after.entries().len() == before.entries().len() + 1,
        after.entries().drop_last() == before.entries(),
        after.entries().last().0@ == g.id_view(),
        after.entries().last().1.game == g,
    ensures
        after.has_game(g.id_view()),
        after.entry_of(g.id_view()).game == g,
        forall|k: Seq<char>|
            k != g.id_view() ==> (#[trigger] after.has_game(k) == before.has_game(k)) && (before.has_game(k)
                ==> after.entry_of(k) == before.entry_of(k)),
{
    let e = before.entries();
    let f = after.entries();
    let n = e.len() as int;
    assert(f[n] == f.last());
    crate::strmap::lemma_index_of(f, n as int);
    assert forall|k: Seq<char>| k != g.id_view() implies (#[trigger] after.has_game(k) == before.has_game(k)) && (
    before.has_game(k) ==> after.entry_of(k) == before.entry_of(k)) by {
        if after.has_game(k) {
            let j = choose|j: int| 0 <= j < f.len() && #[trigger] f[j].0@ == k;
            assert(j != n);
            assert(f[j] == e[j]);
        }
        if before.has_game(k) {
            let j = index_of(e, k);
            assert(0 <= j < e.len() && e[j].0@ == k);
            assert(f[j] == e[j]);
            crate::strmap::lemma_index_of(e, j);
            crate::strmap::lemma_index_of(f, j);
        }
    }
}

/// Games are isolated: replacing the game registered under `id` leaves every
/// other registered game, and the set of ids, as it was.
pub proof fn law_game_isolation(before: &GameRegistry, id: Seq<char>, g: Game, after: &GameRegistry, other: Seq<char>)
    requires
        before.wf(),
        before.has_game(id),
        g.wf(),
        g.id_view() == id,
        after.entries() == with_game(before, id, g),
        other != id,
    ensures
        after.has_game(other) == before.has_game(other),
        before.has_game(other) ==> after.entry_of(other) == before.entry_of(other),
{
    lemma_with_game(before, id, g, after);
    if before.has_game(other) {
        let e = before.entries();
        let f = after.entries();
        let j = index_of(e, other);
        assert(0 <= j < e.len() && e[j].0@ == other);
        let i = index_of(e, id);
        assert(0 <= i < e.len() && e[i].0@ == id);
        assert(j != i);
        assert(f[j] == e[j]);
        crate::strmap::lemma_index_of(e, j);
        crate::strmap::lemma_index_of(f, j);
    }
}

/// The rank of a status: New, then Active, then Closed.
pub open spec fn status_rank(s: GameStatus) -> nat {
    match s {
        GameStatus::New => 0,
        GameStatus::Active => 1,
        GameStatus::Closed => 2,
    }
}

/// A game's status only moves forward: an extraction (one more number on
/// the board, the score card updated with working score 0) never takes a
/// game from Closed back to Active, nor from Active back to New.
pub proof fn law_status_only_advances(before: Game, after: Game, x: u8, w: u8)
    requires
        after.board_state().numbers() == before.board_state().numbers().push(x),
        after.board_state().numbers().len() < 255,
        before.scorecard_state().published_score <= 15,
        best_score_update(
            before.scorecard_state(),
            after.scorecard_state(),
            after.board_state().numbers(),
            &before.manager(),
            0,
            w,
        ),
    ensures
        status_rank(status_of(after.scorecard_state().published_score, after.board_state().numbers().len()))
            >= status_rank(status_of(before.scorecard_state().published_score, before.board_state().numbers().len())),
{
    crate::score::law_published_score_never_decreases(
        before.scorecard_state(),
        after.scorecard_state(),
        after.board_state().numbers(),
        &before.manager(),
        0,
        w,
    );
}

impl Default for GameRegistry {
    fn default() -> (r: Self)
        ensures
            r.wf(),
            r.entries().len() == 0,
    {
        Self::new()
    }
}


} // verus!
