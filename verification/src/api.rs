//! The request logic of the HTTP API: each handler takes the server state and
//! the request's plain values and gives the response or the error (status
//! code and message) the API answers with.

use std::time::SystemTime;
use vstd::prelude::*;
use vstd::string::StringExecFns;
use crate::board::{board_id, lemma_board_id, Board, BOARD_ID};
use crate::card::{card_full, copy_card, AssignedCardInfo, CardInfo, GenerateCardsRequest, GenerateCardsResponse, ListAssignedCardsResponse};
use crate::client::{first_with_name, ClientInfo, ClientInfoResponse, ClientRegistry, RegisterRequest, RegisterResponse};
use crate::clock::{debug_text, ends_with, format_utc_now};
use crate::config::ServerConfig;
use crate::game::{
    game_now, has_string, lemma_with_game, same_but_cards, status_of, time_text_ok, time_text_of, with_game, Game, GameRegistry,
    GameStatus, SerializableGameState, GameEntry, closed_at_updated, describes, entry_key, entry_status,
    ids_with_status, lemma_ids_with_status_same_games, lemma_insert_to_multiset, row_key, rows_described, snapshot_of, status_name,
};
use crate::pouch::full_pouch;
use crate::score::best_score_update;
use crate::pouch::Pouch;
use crate::score::ScoreCard;
use crate::strmap::index_of;
use crate::text::{append_dec, dec, lemma_seq_le_trans, seq_le, str_eq, str_le, string_of};

verus! {

/// 400 Bad Request.
pub const STATUS_BAD_REQUEST: u16 = 400;

/// 401 Unauthorized.
pub const STATUS_UNAUTHORIZED: u16 = 401;

/// 403 Forbidden.
pub const STATUS_FORBIDDEN: u16 = 403;

/// 404 Not Found.
pub const STATUS_NOT_FOUND: u16 = 404;

/// 409 Conflict.
pub const STATUS_CONFLICT: u16 = 409;

/// 500 Internal Server Error.
pub const STATUS_INTERNAL_SERVER_ERROR: u16 = 500;

/// The body of an error answer.
#[derive(Debug, Clone)]
pub struct ErrorResponse {
    pub error: String,
}

/// An error answer: an HTTP status code and a message.
#[derive(Debug, Clone)]
pub struct ApiError {
    pub status: u16,
    pub message: String,
}

impl ApiError {
    pub fn new(status: u16, message: String) -> (e: Self)
        ensures
            e.status == status,
            e.message == message,
    {
        ApiError { status, message }
    }

    /// The body of the answer.
    pub fn to_error_response(&self) -> (r: ErrorResponse)
        ensures
            r.error == self.message,
    {
        ErrorResponse { error: self.message.clone() }
    }
}

/// Query with an optional client id.
#[derive(Debug, Clone)]
pub struct ClientIdQuery {
    pub client_id: Option<String>,
}

/// Query with an optional client name.
#[derive(Debug, Clone)]
pub struct ClientNameQuery {
    pub name: Option<String>,
}

/// Query with an optional client id and card id.
#[derive(Debug, Clone)]
pub struct CardQuery {
    pub client_id: Option<String>,
    pub card_id: Option<String>,
}

/// Query with an optional dump file name.
#[derive(Debug, Clone)]
pub struct DumpGameQuery {
    pub filename: Option<String>,
}

/// The `X-Client-ID` header of a request: absent, not readable as text, or
/// its text.
#[derive(Debug, Clone)]
pub enum ClientHeader {
    Missing,
    Unreadable,
    Id(String),
}

/// The state the server keeps: every game, every client, the configuration.
#[derive(Debug)]
pub struct AppState {
    pub game_registry: GameRegistry,
    pub global_client_registry: ClientRegistry,
    pub config: ServerConfig,
}

impl AppState {
    /// Both registries are well formed.
    pub open spec fn wf(&self) -> bool {
        self.game_registry.wf() && self.global_client_registry.wf()
    }

    /// A state with no games and no clients.
    pub fn new(config: ServerConfig) -> (s: Self)
        ensures
            s.wf(),
            s.game_registry.entries().len() == 0,
            s.global_client_registry.clients.entries().len() == 0,
            s.config == config,
    {
        AppState { game_registry: GameRegistry::new(), global_client_registry: ClientRegistry::new(), config }
    }
}

/// The client registered under a name: the first, in registration order.
pub open spec fn client_named(reg: &ClientRegistry, name: Seq<char>) -> Option<ClientInfo> {
    let ghost e = reg.clients.entries();
    if exists|i: int| 0 <= i < e.len() && #[trigger] e[i].1.name@ == name {
        Some(e[first_with_name(e, name)].1)
    } else {
        None
    }
}

/// The client a name lookup finds.
fn find_client_by_name(reg: &ClientRegistry, name: &str) -> (r: Option<ClientInfo>)
    requires
        reg.wf(),
    ensures
        r == client_named(reg, name@),
{
    let ghost e = reg.clients.entries();
    match reg.get_by_name(name) {
        Ok(Some(c)) => {
            proof {
                let i = choose|i: int|
                    0 <= i < e.len() && c == (#[trigger] e[i]).1 && c.name@ == name@ && forall|j: int|
                        0 <= j < i ==> e[j].1.name@ != name@;
                let f = first_with_name(e, name@);
                assert(e[i].1.name@ == name@);
                assert(0 <= f < e.len() && e[f].1.name@ == name@ && forall|j: int|
                    0 <= j < f ==> e[j].1.name@ != name@);
                if f < i {
                    assert(e[f].1.name@ != name@);
                } else if f > i {
                    assert(e[i].1.name@ != name@);
                }
            }
            Some(c)
        },
        Ok(None) => None,
        Err(_) => None,
    }
}

/// "Client '" name "' " ending: the messages of a registration answer.
pub open spec fn client_message(name: Seq<char>, ending: Seq<char>) -> Seq<char> {
    "Client '"@ + name + "' "@ + ending
}

fn client_message_text(name: &str, ending: &str) -> (s: String)
    ensures
        s@ == client_message(name@, ending@),
{
    let mut s = string_of("Client '");
    s.append(name);
    s.append("' ");
    s.append(ending);
    proof {
        reveal_strlit("Client '");
        reveal_strlit("' ");
    }
    s
}

/// Registers a client globally by name: an existing client of that name is
/// answered with its id; otherwise a new client (with the given type and
/// email, empty when absent) is created and filed.
pub fn handle_global_register(state: &mut AppState, request: &RegisterRequest) -> (r: Result<
    RegisterResponse,
    ApiError,
>)
    requires
        old(state).wf(),
    ensures
        final(state).wf(),
        final(state).game_registry == old(state).game_registry,
        final(state).config == old(state).config,
        r is Ok,
        client_named(&old(state).global_client_registry, request.name@) matches Some(c) ==> (r matches Ok(
            resp,
        ) && resp.client_id == c.id && resp.message@ == client_message(
            request.name@,
            "already registered globally"@,
        )) && final(state).global_client_registry == old(state).global_client_registry,
        client_named(&old(state).global_client_registry, request.name@) is None ==> (r matches Ok(resp)
            && resp.message@ == client_message(request.name@, "registered successfully globally"@)
            && final(state).global_client_registry.clients.has(resp.client_id@) && ({
            let c = final(state).global_client_registry.clients.value_of(resp.client_id@);
            &&& c.id == resp.client_id
            &&& c.name@ == request.name@
            &&& c.client_type@ == request.client_type@
            &&& c.email@ == (if request.email is Some {
                request.email->0@
            } else {
                Seq::<char>::empty()
            })
        }) && forall|k: Seq<char>|
            k != resp.client_id@ ==> (final(state).global_client_registry.clients.has(k)
                == old(state).global_client_registry.clients.has(k)) && (old(
                state,
            ).global_client_registry.clients.has(k) ==> final(state).global_client_registry.clients.value_of(k)
                == old(state).global_client_registry.clients.value_of(k))),
{
    match find_client_by_name(&state.global_client_registry, request.name.as_str()) {
        Some(existing) => {
            Ok(
                RegisterResponse {
                    client_id: existing.id.clone(),
                    message: client_message_text(request.name.as_str(), "already registered globally"),
                },
            )
        },
        None => {
            let email = match &request.email {
                Some(e) => e.as_str(),
                None => "",
            };
            proof {
                reveal_strlit("");
            }
            let new_client = ClientInfo::new(request.name.as_str(), request.client_type.as_str(), email);
            let client_id = new_client.id.clone();
            let _ = state.global_client_registry.insert(new_client);
            Ok(
                RegisterResponse {
                    client_id,
                    message: client_message_text(request.name.as_str(), "registered successfully globally"),
                },
            )
        },
    }
}

/// The answer describing a client; its registration time is given as the
/// debug text of the time.
fn client_info_response(c: &ClientInfo) -> (r: ClientInfoResponse)
    ensures
        r.client_id == c.id,
        r.name == c.name,
        r.client_type == c.client_type,
{
    ClientInfoResponse {
        client_id: c.id.clone(),
        name: c.name.clone(),
        client_type: c.client_type.clone(),
        registered_at: debug_text(&c.registered_at),
    }
}

/// Looks a client up by name (empty when absent): 404 when none has it.
pub fn handle_global_clientinfo(state: &AppState, query: &ClientNameQuery) -> (r: Result<
    ClientInfoResponse,
    ApiError,
>)
    requires
        state.wf(),
    ensures
        ({
            let name = if query.name is Some {
                query.name->0@
            } else {
                Seq::<char>::empty()
            };
            &&& client_named(&state.global_client_registry, name) matches Some(c) ==> (r matches Ok(resp)
                && resp.client_id == c.id && resp.name == c.name && resp.client_type == c.client_type)
            &&& client_named(&state.global_client_registry, name) is None ==> (r matches Err(e) && e.status
                == STATUS_NOT_FOUND && e.message@ == "Client '"@ + name + "' not found"@)
        }),
{
    let name = match &query.name {
        Some(n) => n.clone(),
        None => String::new(),
    };
    match find_client_by_name(&state.global_client_registry, name.as_str()) {
        Some(c) => Ok(client_info_response(&c)),
        None => {
            let mut msg = string_of("Client '");
            msg.append(name.as_str());
            msg.append("' not found");
            Err(ApiError::new(STATUS_NOT_FOUND, msg))
        },
    }
}

/// "Game with ID '" id "' not found".
pub open spec fn game_not_found_message(game_id: Seq<char>) -> Seq<char> {
    "Game with ID '"@ + game_id + "' not found"@
}

/// The answer for a game id the registry does not hold.
fn game_not_found(game_id: &str) -> (e: ApiError)
    ensures
        e.status == STATUS_NOT_FOUND,
        e.message@ == game_not_found_message(game_id@),
{
    let mut msg = string_of("Game with ID '");
    msg.append(game_id);
    msg.append("' not found");
    ApiError::new(STATUS_NOT_FOUND, msg)
}

/// Whether the registry holds a game under `game_id`.
fn game_exists(reg: &GameRegistry, game_id: &str) -> (b: bool)
    requires
        reg.wf(),
    ensures
        b == reg.has_game(game_id@),
{
    match reg.get_game(game_id) {
        Ok(Some(_)) => true,
        _ => false,
    }
}

/// The client id a request must carry in its `X-Client-ID` header.
pub open spec fn required_id_result(h: ClientHeader) -> Result<Seq<char>, (u16, Seq<char>)> {
    match h {
        ClientHeader::Missing => Err((STATUS_BAD_REQUEST, "Client ID header (X-Client-ID) is required"@)),
        ClientHeader::Unreadable => Err((STATUS_BAD_REQUEST, "Invalid client ID in header"@)),
        ClientHeader::Id(s) => Ok(s@),
    }
}

/// The client id of the header, or the answer for a missing or unreadable one.
fn required_client_id(h: &ClientHeader) -> (r: Result<String, ApiError>)
    ensures
        required_id_result(*h) matches Ok(s) ==> (r matches Ok(id) && id@ == s),
        required_id_result(*h) matches Err(p) ==> (r matches Err(e) && e.status == p.0 && e.message@ == p.1),
{
    match h {
        ClientHeader::Missing => Err(
            ApiError::new(STATUS_BAD_REQUEST, string_of("Client ID header (X-Client-ID) is required")),
        ),
        ClientHeader::Unreadable => Err(ApiError::new(STATUS_BAD_REQUEST, string_of("Invalid client ID in header"))),
        ClientHeader::Id(s) => Ok(s.clone()),
    }
}

/// The client a join by name uses: the client already registered under the
/// name, or else a new client, with the requested type and no email, filed
/// in the global registry.
pub open spec fn join_client(before: &ClientRegistry, after: &ClientRegistry, request: RegisterRequest, id: Seq<char>) -> bool {
    match client_named(before, request.name@) {
        Some(c) => c.id@ == id && *after == *before,
        None => {
            &&& after.wf()
            &&& after.clients.has(id)
            &&& after.clients.value_of(id).id@ == id
            &&& after.clients.value_of(id).name@ == request.name@
            &&& after.clients.value_of(id).client_type@ == request.client_type@
            &&& after.clients.value_of(id).email@ == Seq::<char>::empty()
            &&& forall|k: Seq<char>|
                k != id ==> (#[trigger] after.clients.has(k) == before.clients.has(k)) && (before.clients.has(k)
                    ==> after.clients.value_of(k) == before.clients.value_of(k))
        },
    }
}

/// A join gives the client the board card only when it asks as "board" and
/// the game has no board owner yet.
pub open spec fn joins_as_board(g: Game, request: RegisterRequest) -> bool {
    request.client_type@ == "board"@ && !g.manager().assignments.has(board_id())
}

/// What joining game `g0` (registered as `game_id`) does for client `id`:
/// a client already in the game is answered as such; a game that has started
/// refuses (409); otherwise the client is added with the requested type and
/// its cards (the board card when it joins as the board, else `nocard`
/// cards, one by default).
pub open spec fn join_effect(
    g0: Game,
    g1: Game,
    id: Seq<char>,
    request: RegisterRequest,
    game_id: Seq<char>,
    r: Result<RegisterResponse, ApiError>,
) -> bool {
    if has_string(g0.clients(), id) {
        &&& g1 == g0
        &&& r matches Ok(resp) && resp.client_id@ == id && resp.message@ == client_message(
            request.name@,
            "already registered in game '"@ + game_id + "'"@,
        )
    } else if g0.board_state().numbers().len() > 0 {
        &&& g1 == g0
        &&& r matches Err(e) && e.status == STATUS_CONFLICT && e.message@
            == "Cannot register new clients after numbers have been extracted"@
    } else {
        &&& r matches Ok(resp) && resp.client_id@ == id && resp.message@ == client_message(
            request.name@,
            "registered successfully in game '"@ + game_id + "'"@,
        )
        &&& g1.wf()
        &&& g1.id_view() == g0.id_view()
        &&& g1.board_state() == g0.board_state()
        &&& g1.pouch_state() == g0.pouch_state()
        &&& g1.scorecard_state() == g0.scorecard_state()
        &&& g1.owner_state() == g0.owner_state()
        &&& g1.clients().len() == g0.clients().len() + 1
        &&& g1.clients().drop_last() == g0.clients()
        &&& g1.clients().last()@ == id
        &&& g1.types().client_types.has(id)
        &&& g1.types().client_types.value_of(id)@ == request.client_type@
        &&& g1.manager().client_cards.has(id)
        &&& joins_as_board(g0, request) ==> g1.manager().client_cards.value_of(id)@.len() == 1
            && g1.manager().client_cards.value_of(id)@[0]@ == board_id()
        &&& !joins_as_board(g0, request) ==> g1.manager().client_cards.value_of(id)@.len() == (if request.nocard is Some {
            request.nocard->0 as nat
        } else {
            1nat
        })
    }
}

/// A client that joins a game before any number is extracted is registered
/// with its cards: the board card alone when it joins as the board and the
/// game has no board yet; otherwise the cards it asks for, `nocard` of them,
/// and exactly one when it names no count.
pub proof fn law_join_gives_the_cards_asked(
    g0: Game,
    g1: Game,
    id: Seq<char>,
    request: RegisterRequest,
    game_id: Seq<char>,
    r: Result<RegisterResponse, ApiError>,
)
    requires
        join_effect(g0, g1, id, request, game_id, r),
        !has_string(g0.clients(), id),
        g0.board_state().numbers().len() == 0,
    ensures
        r is Ok,
        g1.clients().last()@ == id,
        g1.manager().client_cards.has(id),
        request.client_type@ == "board"@ && !g0.manager().assignments.has(board_id()) ==> g1.manager().client_cards.value_of(id)@.len()
            == 1 && g1.manager().client_cards.value_of(id)@[0]@ == board_id(),
        request.client_type@ != "board"@ || g0.manager().assignments.has(board_id()) ==> if request.nocard is Some {
            g1.manager().client_cards.value_of(id)@.len() == request.nocard->0 as nat
        } else {
            g1.manager().client_cards.value_of(id)@.len() == 1
        },
{
}

/// Joins client `client_id` to the registered game `game_id` (see `join_effect`).
#[verifier::rlimit(40)]
fn join_registered_game(reg: &mut GameRegistry, game_id: &str, client_id: String, request: &RegisterRequest) -> (r: Result<
    RegisterResponse,
    ApiError,
>)
    requires
        old(reg).wf(),
        old(reg).has_game(game_id@),
    ensures
        final(reg).wf(),
        final(reg).entries() == with_game(old(reg), game_id@, game_now(old(reg), final(reg), game_id@)),
        join_effect(
            old(reg).entry_of(game_id@).game,
            game_now(old(reg), final(reg), game_id@),
            client_id@,
            *request,
            game_id@,
            r,
        ),
{
    let ghost reg0 = *reg;
    let ghost g0 = reg0.entry_of(game_id@).game;
    let ghost idx = index_of(reg0.entries(), game_id@);
    let ghost id = client_id@;
    proof {
        assert(0 <= idx < reg0.entries().len() && reg0.entries()[idx].0@ == game_id@);
        assert(reg0.entries()[idx].1.game.wf());
    }
    let game = match reg.get_game_mut(game_id) {
        Some(g) => g,
        None => {
            return Err(game_not_found(game_id));
        },
    };
    if game.contains_client(client_id.as_str()) {
        let mut tail = string_of("already registered in game '");
        tail.append(game_id);
        tail.append("'");
        let msg = client_message_text(request.name.as_str(), tail.as_str());
        proof {
            lemma_with_game(&reg0, game_id@, g0, reg);
        }
        return Ok(RegisterResponse { client_id, message: msg });
    }
    match game.add_client(client_id.clone()) {
        Ok(_) => {},
        Err(e) => {
            proof {
                lemma_with_game(&reg0, game_id@, g0, reg);
            }
            return Err(ApiError::new(STATUS_CONFLICT, e));
        },
    }
    let ghost ga = *game;
    assert(ga.clients() =~= g0.clients().push(client_id));
    let _ = game.set_client_type(client_id.as_str(), request.client_type.as_str());
    let ghost gb = *game;
    let card_count: u32 = match request.nocard {
        Some(n) => n,
        None => 1,
    };
    proof {
        (*game).lemma_wf();
    }
    let has_board_owner = game.card_manager().get_card_assignment(BOARD_ID).is_some();
    proof {
        reveal_strlit("board");
        reveal_strlit("player");
        lemma_board_id();
    }
    let effective: &str = if str_eq(request.client_type.as_str(), "board") && has_board_owner {
        "player"
    } else {
        request.client_type.as_str()
    };
    assert(gb.manager() == g0.manager());
    assert(has_board_owner == g0.manager().assignments.has(board_id()));
    assert("player"@ != "board"@) by {
        assert("player"@.len() != "board"@.len());
    }
    assert(crate::card::is_board_type(Some(effective)) == joins_as_board(g0, *request));
    let (_, ids) = game.assign_client_cards(client_id.as_str(), card_count, Some(effective));
    let ghost gc = *game;
    assert(gc.manager().client_cards.value_of(id)@ == ids@);
    assert(gc.clients().drop_last() =~= g0.clients());
    let mut tail = string_of("registered successfully in game '");
    tail.append(game_id);
    tail.append("'");
    let msg = client_message_text(request.name.as_str(), tail.as_str());
    proof {
        lemma_with_game(&reg0, game_id@, gc, reg);
    }
    Ok(RegisterResponse { client_id, message: msg })
}

/// Joins a client, by name, to a game: 404 for an unknown game; otherwise
/// the client is found or created globally (see `join_client`) and joined
/// as `join_effect` says. Only that game and the client registry change.
pub fn handle_join(state: &mut AppState, game_id: &str, request: &RegisterRequest) -> (r: Result<
    RegisterResponse,
    ApiError,
>)
    requires
        old(state).wf(),
    ensures
        final(state).wf(),
        final(state).config == old(state).config,
        !old(state).game_registry.has_game(game_id@) ==> (r matches Err(e) && e.status == STATUS_NOT_FOUND
            && e.message@ == game_not_found_message(game_id@)) && *final(state) == *old(state),
        old(state).game_registry.has_game(game_id@) ==> final(state).game_registry.entries() == with_game(
            &old(state).game_registry,
            game_id@,
            game_now(&old(state).game_registry, &final(state).game_registry, game_id@),
        ) && exists|id: Seq<char>|
            #[trigger] join_client(
                &old(state).global_client_registry,
                &final(state).global_client_registry,
                *request,
                id,
            ) && join_effect(
                old(state).game_registry.entry_of(game_id@).game,
                game_now(&old(state).game_registry, &final(state).game_registry, game_id@),
                id,
                *request,
                game_id@,
                r,
            ),
{
    if !game_exists(&state.game_registry, game_id) {
        return Err(game_not_found(game_id));
    }
    let ghost clients0 = state.global_client_registry;
    let client = match find_client_by_name(&state.global_client_registry, request.name.as_str()) {
        Some(c) => c,
        None => {
            proof {
                reveal_strlit("");
                assert(""@ =~= Seq::<char>::empty());
            }
            let c = ClientInfo::new(request.name.as_str(), request.client_type.as_str(), "");
            let _ = state.global_client_registry.insert(c.clone());
            c
        },
    };
    let client_id = client.id.clone();
    let ghost id = client_id@;
    assert(join_client(&clients0, &state.global_client_registry, *request, id));
    join_registered_game(&mut state.game_registry, game_id, client_id, request)
}

/// Describes a client by id; the board's id is described as the board.
/// 404 for an id no client has.
pub fn handle_global_clientinfo_by_id(state: &AppState, client_id: &str) -> (r: Result<
    ClientInfoResponse,
    ApiError,
>)
    requires
        state.wf(),
    ensures
        client_id@ == board_id() ==> (r matches Ok(resp) && resp.client_id@ == client_id@ && resp.name@
            == "Board"@ && resp.client_type@ == "board"@ && resp.registered_at@ == "System"@),
        client_id@ != board_id() && state.global_client_registry.clients.has(client_id@) ==> (r matches Ok(resp)
            && resp.client_id == state.global_client_registry.clients.value_of(client_id@).id && resp.name
            == state.global_client_registry.clients.value_of(client_id@).name && resp.client_type
            == state.global_client_registry.clients.value_of(client_id@).client_type),
        client_id@ != board_id() && !state.global_client_registry.clients.has(client_id@) ==> (r matches Err(e)
            && e.status == STATUS_NOT_FOUND && e.message@ == "Client with ID '"@ + client_id@ + "' not found"@),
{
    proof {
        lemma_board_id();
    }
    if str_eq(client_id, BOARD_ID) {
        return Ok(
            ClientInfoResponse {
                client_id: string_of(client_id),
                name: string_of("Board"),
                client_type: string_of("board"),
                registered_at: string_of("System"),
            },
        );
    }
    match state.global_client_registry.get(client_id) {
        Ok(Some(c)) => Ok(client_info_response(&c)),
        _ => {
            let mut msg = string_of("Client with ID '");
            msg.append(client_id);
            msg.append("' not found");
            Err(ApiError::new(STATUS_NOT_FOUND, msg))
        },
    }
}

/// The board of a game; 404 for an unknown game.
pub fn handle_board(state: &AppState, game_id: &str) -> (r: Result<Board, ApiError>)
    requires
        state.wf(),
    ensures
        state.game_registry.has_game(game_id@) ==> (r matches Ok(b) && b.numbers()
            == state.game_registry.entry_of(game_id@).game.board_state().numbers() && b.marked()
            == state.game_registry.entry_of(game_id@).game.board_state().marked()),
        !state.game_registry.has_game(game_id@) ==> (r matches Err(e) && e.status == STATUS_NOT_FOUND
            && e.message@ == game_not_found_message(game_id@)),
{
    match state.game_registry.get_game(game_id) {
        Ok(Some(g)) => Ok(g.board().clone()),
        _ => Err(game_not_found(game_id)),
    }
}

/// The pouch of a game; 404 for an unknown game.
pub fn handle_pouch(state: &AppState, game_id: &str) -> (r: Result<Pouch, ApiError>)
    requires
        state.wf(),
    ensures
        state.game_registry.has_game(game_id@) ==> (r matches Ok(p) && p.numbers@
            == state.game_registry.entry_of(game_id@).game.pouch_state()),
        !state.game_registry.has_game(game_id@) ==> (r matches Err(e) && e.status == STATUS_NOT_FOUND
            && e.message@ == game_not_found_message(game_id@)),
{
    match state.game_registry.get_game(game_id) {
        Ok(Some(g)) => Ok(g.pouch().clone()),
        _ => Err(game_not_found(game_id)),
    }
}

/// The score card of a game; 404 for an unknown game.
pub fn handle_scoremap(state: &AppState, game_id: &str) -> (r: Result<ScoreCard, ApiError>)
    requires
        state.wf(),
    ensures
        state.game_registry.has_game(game_id@) ==> (r matches Ok(s) && s.published_score
            == state.game_registry.entry_of(game_id@).game.scorecard_state().published_score && s.score_map@
            == state.game_registry.entry_of(game_id@).game.scorecard_state().score_map@),
        !state.game_registry.has_game(game_id@) ==> (r matches Err(e) && e.status == STATUS_NOT_FOUND
            && e.message@ == game_not_found_message(game_id@)),
{
    match state.game_registry.get_game(game_id) {
        Ok(Some(g)) => Ok(g.scorecard().clone()),
        _ => Err(game_not_found(game_id)),
    }
}

/// The status of a game as the API reports it.
#[derive(Debug, Clone)]
pub struct StatusResponse {
    /// "new", "active" or "closed".
    pub status: String,
    pub game_id: String,
    pub created_at: String,
    pub owner: Option<String>,
    /// The number of registered clients, as text.
    pub players: String,
    /// The number of assigned cards, as text.
    pub cards: String,
    pub numbers_extracted: usize,
    pub scorecard: u8,
    /// When the status is "closed": the current time, as UTC date text.
    pub closed_at: Option<String>,
}

/// The lower-case name of a status.
pub open spec fn status_word(s: GameStatus) -> Seq<char> {
    match s {
        GameStatus::New => "new"@,
        GameStatus::Active => "active"@,
        GameStatus::Closed => "closed"@,
    }
}

fn status_word_text(s: GameStatus) -> (r: String)
    ensures
        r@ == status_word(s),
{
    match s {
        GameStatus::New => string_of("new"),
        GameStatus::Active => string_of("active"),
        GameStatus::Closed => string_of("closed"),
    }
}

/// A count as decimal text.
fn count_text(n: usize) -> (s: String)
    ensures
        s@ == dec(n as nat),
{
    let mut s = String::new();
    append_dec(&mut s, n as u64);
    assert(s@ =~= dec(n as nat));
    s
}

/// The status of a game: its status word, id, creation time, owner, numbers
/// of players and cards, numbers extracted and published score, and, once
/// closed, a closing time; 404 for an unknown game.
pub fn handle_status(state: &AppState, game_id: &str) -> (r: Result<StatusResponse, ApiError>)
    requires
        state.wf(),
    ensures
        !state.game_registry.has_game(game_id@) ==> (r matches Err(e) && e.status == STATUS_NOT_FOUND
            && e.message@ == game_not_found_message(game_id@)),
        state.game_registry.has_game(game_id@) ==> (r matches Ok(resp) && ({
            let g = state.game_registry.entry_of(game_id@).game;
            let st = status_of(g.scorecard_state().published_score, g.board_state().numbers().len());
            &&& resp.status@ == status_word(st)
            &&& resp.game_id@ == g.id_view()
            &&& time_text_of(g.created(), resp.created_at@)
            &&& resp.owner == g.owner_state()
            &&& resp.players@ == dec(g.clients().len())
            &&& resp.cards@ == dec(g.manager().assignments.entries().len())
            &&& resp.numbers_extracted == g.board_state().numbers().len()
            &&& resp.scorecard == g.scorecard_state().published_score
            &&& (resp.closed_at is Some <==> st == GameStatus::Closed)
            &&& resp.closed_at matches Some(t) ==> ends_with(t@, " UTC"@)
        })),
{
    let g = match state.game_registry.get_game(game_id) {
        Ok(Some(g)) => g,
        _ => return Err(game_not_found(game_id)),
    };
    let status = g.status();
    let closed_at = if status == GameStatus::Closed {
        Some(format_utc_now())
    } else {
        None
    };
    Ok(
        StatusResponse {
            status: status_word_text(status),
            game_id: g.id(),
            created_at: g.created_at_string(),
            owner: g.owner(),
            players: count_text(g.player_count()),
            cards: count_text(g.card_count()),
            numbers_extracted: g.board_length(),
            scorecard: g.published_score(),
            closed_at,
        },
    )
}

/// The client id of the header for a request about a registered client of a
/// game: 400 for a missing or unreadable header, 404 for an unknown game,
/// 401 for a client not registered to the game or unknown globally.
pub open spec fn client_check(state: &AppState, game_id: Seq<char>, h: ClientHeader) -> Result<Seq<char>, (u16, Seq<char>)> {
    match required_id_result(h) {
        Err(p) => Err(p),
        Ok(id) => if !state.game_registry.has_game(game_id) {
            Err((STATUS_NOT_FOUND, game_not_found_message(game_id)))
        } else if !(has_string(state.game_registry.entry_of(game_id).game.clients(), id)
            && state.global_client_registry.clients.has(id)) {
            Err((STATUS_UNAUTHORIZED, "Client not registered"@))
        } else {
            Ok(id)
        },
    }
}

/// Checks the header, the game and the client's registration (see `client_check`).
fn check_registered_client(state: &AppState, game_id: &str, h: &ClientHeader) -> (r: Result<String, ApiError>)
    requires
        state.wf(),
    ensures
        client_check(state, game_id@, *h) matches Ok(id) ==> (r matches Ok(s) && s@ == id),
        client_check(state, game_id@, *h) matches Err(p) ==> (r matches Err(e) && e.status == p.0 && e.message@
            == p.1),
{
    let client_id = match required_client_id(h) {
        Ok(id) => id,
        Err(e) => return Err(e),
    };
    let g = match state.game_registry.get_game(game_id) {
        Ok(Some(g)) => g,
        _ => return Err(game_not_found(game_id)),
    };
    match g.get_client_info(client_id.as_str(), &state.global_client_registry) {
        Ok(Some(_)) => Ok(client_id),
        _ => Err(ApiError::new(STATUS_UNAUTHORIZED, string_of("Client not registered"))),
    }
}

/// The cards assigned to the requesting client (see `client_check` for the
/// errors), each with the client as holder.
pub fn handle_listassignedcards(state: &AppState, game_id: &str, h: &ClientHeader) -> (r: Result<
    ListAssignedCardsResponse,
    ApiError,
>)
    requires
        state.wf(),
    ensures
        client_check(state, game_id@, *h) matches Err(p) ==> (r matches Err(e) && e.status == p.0 && e.message@
            == p.1),
        client_check(state, game_id@, *h) matches Ok(id) ==> (r matches Ok(resp) && ({
            let m = state.game_registry.entry_of(game_id@).game.manager();
            let ids = if m.client_cards.has(id) {
                m.client_cards.value_of(id)@
            } else {
                Seq::<String>::empty()
            };
            &&& resp.cards@.len() == ids.len()
            &&& forall|i: int|
                0 <= i < ids.len() ==> (#[trigger] resp.cards@[i]).card_id == ids[i] && resp.cards@[i].assigned_to@
                    == id
        })),
{
    let client_id = match check_registered_client(state, game_id, h) {
        Ok(id) => id,
        Err(e) => return Err(e),
    };
    let g = match state.game_registry.get_game(game_id) {
        Ok(Some(g)) => g,
        _ => return Err(game_not_found(game_id)),
    };
    proof {
        g.lemma_wf();
    }
    let mut cards: Vec<AssignedCardInfo> = Vec::new();
    match g.card_manager().get_client_cards(client_id.as_str()) {
        Some(ids) => {
            let mut i: usize = 0;
            while i < ids.len()
                invariant
                    i <= ids@.len(),
                    cards@.len() == i,
                    forall|j: int|
                        0 <= j < i ==> (#[trigger] cards@[j]).card_id == ids@[j] && cards@[j].assigned_to@
                            == client_id@,
                decreases ids@.len() - i,
            {
                cards.push(AssignedCardInfo { card_id: ids[i].clone(), assigned_to: client_id.clone() });
                i = i + 1;
            }
        },
        None => {},
    }
    Ok(ListAssignedCardsResponse { cards })
}

/// One card of the requesting client (see `client_check` for the errors):
/// 404 for a card no one holds, 403 for a card another client holds.
pub fn handle_getassignedcard(state: &AppState, game_id: &str, card_id: &str, h: &ClientHeader) -> (r: Result<
    CardInfo,
    ApiError,
>)
    requires
        state.wf(),
    ensures
        client_check(state, game_id@, *h) matches Err(p) ==> (r matches Err(e) && e.status == p.0 && e.message@
            == p.1),
        client_check(state, game_id@, *h) matches Ok(id) ==> ({
            let m = state.game_registry.entry_of(game_id@).game.manager();
            &&& !m.assignments.has(card_id@) ==> (r matches Err(e) && e.status == STATUS_NOT_FOUND && e.message@
                == "Card not found"@)
            &&& m.assignments.has(card_id@) && m.assignments.value_of(card_id@).client_id@ != id ==> (r matches Err(
                e,
            ) && e.status == STATUS_FORBIDDEN && e.message@ == "Card not assigned to this client"@)
            &&& m.assignments.has(card_id@) && m.assignments.value_of(card_id@).client_id@ == id ==> (r matches Ok(
                c,
            ) && c.card_id == m.assignments.value_of(card_id@).card_id && c.card_data.deep_view()
                == m.assignments.value_of(card_id@).card_data.deep_view())
        }),
{
    let client_id = match check_registered_client(state, game_id, h) {
        Ok(id) => id,
        Err(e) => return Err(e),
    };
    let g = match state.game_registry.get_game(game_id) {
        Ok(Some(g)) => g,
        _ => return Err(game_not_found(game_id)),
    };
    proof {
        g.lemma_wf();
    }
    match g.card_manager().get_card_assignment(card_id) {
        Some(a) => {
            if !str_eq(a.client_id.as_str(), client_id.as_str()) {
                return Err(ApiError::new(STATUS_FORBIDDEN, string_of("Card not assigned to this client")));
            }
            Ok(CardInfo { card_id: a.card_id.clone(), card_data: copy_card(&a.card_data) })
        },
        None => Err(ApiError::new(STATUS_NOT_FOUND, string_of("Card not found"))),
    }
}

/// "Generated " count " cards successfully".
pub open spec fn generated_message(count: u32) -> Seq<char> {
    "Generated "@ + dec(count as nat) + " cards successfully"@
}

/// Generates cards for the requesting client (see `client_check` for the
/// errors); 409 when the client holds cards already. The cards are of the
/// client's global type (the board card for a board client).
pub fn handle_generatecards(state: &mut AppState, game_id: &str, h: &ClientHeader, request: &GenerateCardsRequest) -> (r: Result<
    GenerateCardsResponse,
    ApiError,
>)
    requires
        old(state).wf(),
    ensures
        final(state).wf(),
        final(state).config == old(state).config,
        final(state).global_client_registry == old(state).global_client_registry,
        client_check(old(state), game_id@, *h) matches Err(p) ==> (r matches Err(e) && e.status == p.0
            && e.message@ == p.1) && *final(state) == *old(state),
        client_check(old(state), game_id@, *h) matches Ok(id) ==> ({
            let g0 = old(state).game_registry.entry_of(game_id@).game;
            let g1 = game_now(&old(state).game_registry, &final(state).game_registry, game_id@);
            let t = old(state).global_client_registry.clients.value_of(id).client_type@;
            &&& g0.manager().client_cards.has(id) && g0.manager().client_cards.value_of(id)@.len() > 0 ==> (r matches Err(
                e,
            ) && e.status == STATUS_CONFLICT && e.message@
                == "Client already has cards assigned. Card generation is only allowed during registration."@)
                && *final(state) == *old(state)
            &&& !(g0.manager().client_cards.has(id) && g0.manager().client_cards.value_of(id)@.len() > 0) ==> (r matches Ok(
                resp,
            ) && resp.message@ == generated_message(request.count) && final(state).game_registry.entries()
                == with_game(&old(state).game_registry, game_id@, g1) && same_but_cards(g0, g1) && g1.types()
                == g0.types() && g1.manager().client_cards.has(id) && g1.manager().client_cards.value_of(id)@.len()
                == resp.cards@.len() && (forall|i: int|
                0 <= i < resp.cards@.len() ==> (#[trigger] resp.cards@[i]).card_id@
                    == g1.manager().client_cards.value_of(id)@[i]@) && (t == "board"@ ==> resp.cards@.len() == 1
                && resp.cards@[0].card_id@ == board_id()) && (t != "board"@ ==> resp.cards@.len()
                == request.count && forall|i: int|
                0 <= i < resp.cards@.len() ==> card_full(#[trigger] resp.cards@[i].card_data.deep_view())))
        }),
{
    let client_id = match check_registered_client(state, game_id, h) {
        Ok(id) => id,
        Err(e) => return Err(e),
    };
    let ghost reg0 = state.game_registry;
    let ghost g0 = reg0.entry_of(game_id@).game;
    let ghost idx = index_of(reg0.entries(), game_id@);
    proof {
        assert(0 <= idx < reg0.entries().len() && reg0.entries()[idx].0@ == game_id@);
        assert(reg0.entries()[idx].1.game.wf());
        g0.lemma_wf();
    }
    let already = match state.game_registry.get_game(game_id) {
        Ok(Some(g)) => match g.card_manager().get_client_cards(client_id.as_str()) {
            Some(ids) => ids.len() > 0,
            None => false,
        },
        _ => false,
    };
    if already {
        return Err(
            ApiError::new(
                STATUS_CONFLICT,
                string_of("Client already has cards assigned. Card generation is only allowed during registration."),
            ),
        );
    }
    let client_type: Option<String> = match state.global_client_registry.get(client_id.as_str()) {
        Ok(Some(info)) => Some(info.client_type.clone()),
        _ => None,
    };
    let type_ref: Option<&str> = match &client_type {
        Some(t) => Some(t.as_str()),
        None => None,
    };
    let game = match state.game_registry.get_game_mut(game_id) {
        Some(g) => g,
        None => return Err(game_not_found(game_id)),
    };
    assert(crate::card::is_board_type(type_ref) == (old(state).global_client_registry.clients.value_of(
        client_id@,
    ).client_type@ == "board"@));
    let (cards, ids) = game.assign_client_cards(client_id.as_str(), request.count, type_ref);
    let ghost g1 = *game;
    assert(g1.manager().client_cards.value_of(client_id@)@ == ids@);
    let mut message = string_of("Generated ");
    append_dec(&mut message, request.count as u64);
    message.append(" cards successfully");
    proof {
        lemma_with_game(&reg0, game_id@, g1, &state.game_registry);
    }
    Ok(GenerateCardsResponse { cards, message })
}

/// The client holds the board card in game `g`.
pub open spec fn board_owner(g: Game, id: Seq<char>) -> bool {
    g.manager().client_cards.has(id) && has_string(g.manager().client_cards.value_of(id)@, board_id())
}

/// Whether the client holds the board card in game `g`.
fn holds_board_card(g: &Game, client_id: &str) -> (b: bool)
    requires
        g.wf(),
    ensures
        b == board_owner(*g, client_id@),
{
    proof {
        g.lemma_wf();
        lemma_board_id();
    }
    match g.card_manager().get_client_cards(client_id) {
        Some(ids) => {
            let mut i: usize = 0;
            while i < ids.len()
                invariant
                    i <= ids@.len(),
                    BOARD_ID@ == board_id(),
                    g.manager().client_cards.has(client_id@),
                    *ids == g.manager().client_cards.value_of(client_id@),
                    forall|j: int| 0 <= j < i ==> ids@[j]@ != board_id(),
                decreases ids@.len() - i,
            {
                if str_eq(ids[i].as_str(), BOARD_ID) {
                    assert(ids@[i as int]@ == board_id());
                    return true;
                }
                i = i + 1;
            }
            false
        },
        None => false,
    }
}

/// The checks before an extraction: the header's client id, a known game,
/// the client registered to it (403), holding the board card (403), and no
/// BINGO yet (409).
pub open spec fn extract_check(state: &AppState, game_id: Seq<char>, h: ClientHeader) -> Result<Seq<char>, (u16, Seq<char>)> {
    match required_id_result(h) {
        Err(p) => Err(p),
        Ok(id) => {
            let g = state.game_registry.entry_of(game_id).game;
            if !state.game_registry.has_game(game_id) {
                Err((STATUS_NOT_FOUND, game_not_found_message(game_id)))
            } else if !has_string(g.clients(), id) {
                Err((STATUS_FORBIDDEN, "Client must be registered to this game"@))
            } else if !board_owner(g, id) {
                Err((STATUS_FORBIDDEN, "Unauthorized: Only the board owner can extract numbers"@))
            } else if g.scorecard_state().published_score >= 15 {
                Err((STATUS_CONFLICT, "Game over: BINGO has been reached. No more numbers can be extracted."@))
            } else {
                Ok(id)
            }
        },
    }
}

/// Only the board owner extracts: an extraction gets past its checks only
/// for a client registered to the game that holds the board card, while the
/// game has not reached BINGO.
pub proof fn law_only_board_owner_extracts(state: &AppState, game_id: Seq<char>, h: ClientHeader)
    requires
        state.wf(),
    ensures
        extract_check(state, game_id, h) matches Ok(id) ==> ({
            let g = state.game_registry.entry_of(game_id).game;
            &&& h matches ClientHeader::Id(s) && s@ == id
            &&& state.game_registry.has_game(game_id)
            &&& has_string(g.clients(), id)
            &&& board_owner(g, id)
            &&& g.scorecard_state().published_score < 15
        }),
{
}

/// The answer to an extraction.
#[derive(Debug, Clone)]
pub struct ExtractResponse {
    pub success: bool,
    pub extracted_number: u8,
    pub numbers_remaining: usize,
    pub total_extracted: usize,
    pub message: String,
    /// When this extraction reached BINGO: the snapshot of the game to save,
    /// and where to save it.
    pub final_state: Option<(SerializableGameState, String)>,
}

/// "Number " n " extracted successfully".
pub open spec fn extracted_message(n: u8) -> Seq<char> {
    "Number "@ + dec(n as nat) + " extracted successfully"@
}

/// Extracts a number in a game for its board owner (see `extract_check` for
/// the refusals; 409 "Pouch is empty" when nothing is left): one number of
/// the pouch moves to the board and the score card is updated as
/// `best_score_update` says. When the extraction reaches BINGO, the answer
/// carries the snapshot to save.
pub fn handle_extract(state: &mut AppState, game_id: &str, h: &ClientHeader) -> (r: Result<ExtractResponse, ApiError>)
    requires
        old(state).wf(),
    ensures
        final(state).wf(),
        final(state).config == old(state).config,
        final(state).global_client_registry == old(state).global_client_registry,
        extract_check(old(state), game_id@, *h) matches Err(p) ==> (r matches Err(e) && e.status == p.0
            && e.message@ == p.1) && *final(state) == *old(state),
        extract_check(old(state), game_id@, *h) matches Ok(id) ==> ({
            let g0 = old(state).game_registry.entry_of(game_id@).game;
            let g1 = game_now(&old(state).game_registry, &final(state).game_registry, game_id@);
            &&& g0.pouch_state().len() == 0 ==> (r matches Err(e) && e.status == STATUS_CONFLICT && e.message@
                == "Pouch is empty"@) && *final(state) == *old(state)
            &&& g0.pouch_state().len() > 0 ==> (r matches Ok(resp) && final(state).game_registry.entries()
                == with_game(&old(state).game_registry, game_id@, g1) && resp.success && (exists|i: int|
                0 <= i < g0.pouch_state().len() && resp.extracted_number == g0.pouch_state()[i]
                    && g1.pouch_state() == g0.pouch_state().remove(i)) && g1.board_state().numbers()
                == g0.board_state().numbers().push(resp.extracted_number) && (exists|w: u8|
                best_score_update(
                    g0.scorecard_state(),
                    g1.scorecard_state(),
                    g1.board_state().numbers(),
                    &g0.manager(),
                    0,
                    w,
                )) && g1.id_view() == g0.id_view() && g1.clients() == g0.clients() && g1.manager()
                == g0.manager() && g1.types() == g0.types() && g1.owner_state() == g0.owner_state()
                && resp.numbers_remaining == g1.pouch_state().len() && resp.total_extracted
                == g1.board_state().numbers().len() && resp.message@ == extracted_message(resp.extracted_number)
                && (resp.final_state is Some <==> g1.scorecard_state().published_score >= 15) && (
            resp.final_state matches Some(fs) ==> snapshot_of(fs.0, g1) && fs.1@
                == "data/games/"@ + g1.id_view() + ".json"@))
        }),
{
    let client_id = match required_client_id(h) {
        Ok(id) => id,
        Err(e) => return Err(e),
    };
    let ghost reg0 = state.game_registry;
    let ghost g0 = reg0.entry_of(game_id@).game;
    let ghost idx = index_of(reg0.entries(), game_id@);
    {
        let g = match state.game_registry.get_game(game_id) {
            Ok(Some(g)) => g,
            _ => return Err(game_not_found(game_id)),
        };
        proof {
            assert(0 <= idx < reg0.entries().len() && reg0.entries()[idx].0@ == game_id@);
            assert(reg0.entries()[idx].1.game.wf());
        }
        if !g.contains_client(client_id.as_str()) {
            return Err(ApiError::new(STATUS_FORBIDDEN, string_of("Client must be registered to this game")));
        }
        if !holds_board_card(g, client_id.as_str()) {
            return Err(
                ApiError::new(
                    STATUS_FORBIDDEN,
                    string_of("Unauthorized: Only the board owner can extract numbers"),
                ),
            );
        }
        if g.is_bingo_reached() {
            return Err(
                ApiError::new(
                    STATUS_CONFLICT,
                    string_of("Game over: BINGO has been reached. No more numbers can be extracted."),
                ),
            );
        }
        if g.is_pouch_empty() {
            return Err(ApiError::new(STATUS_CONFLICT, string_of("Pouch is empty")));
        }
    }
    let game = match state.game_registry.get_game_mut(game_id) {
        Some(g) => g,
        None => return Err(game_not_found(game_id)),
    };
    let extracted = match game.extract_number(0, Some(client_id.as_str())) {
        Ok((n, _)) => n,
        Err(e) => {
            proof {
                lemma_with_game(&reg0, game_id@, g0, &state.game_registry);
            }
            return Err(ApiError::new(STATUS_CONFLICT, e));
        },
    };
    let numbers_remaining = game.pouch_length();
    let total_extracted = game.board_length();
    let final_state = if game.is_bingo_reached() {
        match game.create_serializable_state() {
            Ok(st) => Some((st, game.dump_file_path())),
            Err(_) => None,
        }
    } else {
        None
    };
    let mut message = string_of("Number ");
    append_dec(&mut message, extracted as u64);
    message.append(" extracted successfully");
    let ghost g1 = *game;
    proof {
        lemma_with_game(&reg0, game_id@, g1, &state.game_registry);
    }
    Ok(ExtractResponse { success: true, extracted_number: extracted, numbers_remaining, total_extracted, message, final_state })
}

/// The answer to a new game request.
#[derive(Debug, Clone)]
pub struct NewGameResponse {
    pub success: bool,
    pub message: String,
    pub game_id: String,
    pub created_at: String,
    pub board_owner: String,
    pub note: String,
}

/// A fresh game created for `id`: empty board, full pouch, zero score, owned
/// by the client, who is its only client, of type "board", holding the board
/// card.
pub open spec fn fresh_board_game(g: Game, id: Seq<char>) -> bool {
    &&& g.wf()
    &&& g.board_state().numbers().len() == 0
    &&& g.pouch_state() == full_pouch()
    &&& g.scorecard_state().published_score == 0
    &&& g.owner_state() matches Some(o) && o@ == id
    &&& g.clients().len() == 1
    &&& g.clients()[0]@ == id
    &&& g.types().client_types.has(id)
    &&& g.types().client_types.value_of(id)@ == "board"@
    &&& g.manager().client_cards.has(id)
    &&& g.manager().client_cards.value_of(id)@.len() == 1
    &&& g.manager().client_cards.value_of(id)@[0]@ == board_id()
}

/// What creating a game for client `id` gives: a refusal (500) leaving the
/// state as it was when the random id is taken already, or the registry with
/// the new game appended (see `fresh_board_game`) and the answer naming it.
pub open spec fn new_game_outcome(before: &AppState, after: &AppState, id: Seq<char>, r: Result<NewGameResponse, ApiError>) -> bool {
    match r {
        Err(e) => {
            &&& e.status == STATUS_INTERNAL_SERVER_ERROR
            &&& *after == *before
            &&& exists|gid: Seq<char>|
                before.game_registry.has_game(gid) && e.message@ == "Failed to register new game: "@
                    + "Game with ID '"@ + gid + "' already exists in registry"@
        },
        Ok(resp) => {
            let e = after.game_registry.entries();
            &&& resp.success
            &&& resp.message@ == "New game created successfully. You are now the board owner."@
            &&& resp.board_owner@ == id
            &&& resp.note@ == "New game created and registered. Access it via /gameslist endpoint."@
            &&& time_text_of(e.last().1.game.created(), resp.created_at@)
            &&& !before.game_registry.has_game(resp.game_id@)
            &&& e.len() == before.game_registry.entries().len() + 1
            &&& e.drop_last() == before.game_registry.entries()
            &&& e.last().0@ == resp.game_id@
            &&& e.last().1.game.id_view() == resp.game_id@
            &&& e.last().1.closed_at is None
            &&& fresh_board_game(e.last().1.game, id)
        },
    }
}

/// Creates a game for a registered client (401 otherwise, after the header
/// checks), who becomes its owner and board. The game's id is random: when
/// a game with that id is registered already the game is dropped (500).
pub fn handle_global_newgame(state: &mut AppState, h: &ClientHeader) -> (r: Result<NewGameResponse, ApiError>)
    requires
        old(state).wf(),
    ensures
        final(state).wf(),
        final(state).config == old(state).config,
        final(state).global_client_registry == old(state).global_client_registry,
        required_id_result(*h) matches Err(p) ==> (r matches Err(e) && e.status == p.0 && e.message@ == p.1)
            && *final(state) == *old(state),
        required_id_result(*h) matches Ok(id) ==> (!old(state).global_client_registry.clients.has(id) ==> (r matches Err(
            e,
        ) && e.status == STATUS_UNAUTHORIZED && e.message@ == "Client not registered"@) && *final(state)
            == *old(state)),
        required_id_result(*h) matches Ok(id) ==> (old(state).global_client_registry.clients.has(id)
            ==> new_game_outcome(old(state), final(state), id, r)),
{
    let client_id = match required_client_id(h) {
        Ok(id) => id,
        Err(e) => return Err(e),
    };
    match state.global_client_registry.get(client_id.as_str()) {
        Ok(Some(_)) => {},
        _ => return Err(ApiError::new(STATUS_UNAUTHORIZED, string_of("Client not registered"))),
    }
    let mut game = Game::new();
    let new_game_id = game.id();
    let created_at = game.created_at_string();
    let _ = game.set_owner(client_id.as_str());
    let _ = game.add_client(client_id.clone());
    let _ = game.set_client_type(client_id.as_str(), "board");
    proof {
        reveal_strlit("board");
    }
    let (_, ids) = game.assign_client_cards(client_id.as_str(), 1, Some("board"));
    let ghost g = game;
    assert(g.manager().client_cards.value_of(client_id@)@ == ids@);
    match state.game_registry.add_game(game) {
        Ok(_) => {},
        Err(e) => {
            let mut msg = string_of("Failed to register new game: ");
            msg.append(e.as_str());
            assert(old(state).game_registry.has_game(new_game_id@));
            assert(msg@ =~= "Failed to register new game: "@ + "Game with ID '"@ + new_game_id@
                + "' already exists in registry"@);
            return Err(ApiError::new(STATUS_INTERNAL_SERVER_ERROR, msg));
        },
    }
    Ok(
        NewGameResponse {
            success: true,
            message: string_of("New game created successfully. You are now the board owner."),
            game_id: new_game_id,
            created_at,
            board_owner: client_id,
            note: string_of("New game created and registered. Access it via /gameslist endpoint."),
        },
    )
}

/// What a dump request asks the server to save and answer.
#[derive(Debug, Clone)]
pub struct DumpPlan {
    /// The snapshot to save.
    pub state: SerializableGameState,
    /// Where to save it.
    pub path: String,
    pub game_id: String,
    pub game_ended: bool,
    pub bingo_reached: bool,
    pub pouch_empty: bool,
}

/// The snapshot of a game for its board owner to save: 401 without a client
/// id header, 400 for an unreadable one, 404 for an unknown game, 403 for a
/// client that does not hold the board card.
pub fn handle_dumpgame(state: &AppState, game_id: &str, h: &ClientHeader) -> (r: Result<DumpPlan, ApiError>)
    requires
        state.wf(),
    ensures
        *h is Missing ==> (r matches Err(e) && e.status == STATUS_UNAUTHORIZED && e.message@
            == "Missing X-Client-ID header"@),
        *h is Unreadable ==> (r matches Err(e) && e.status == STATUS_BAD_REQUEST && e.message@
            == "Invalid X-Client-ID header"@),
        *h matches ClientHeader::Id(id) ==> ({
            let g = state.game_registry.entry_of(game_id@).game;
            &&& !state.game_registry.has_game(game_id@) ==> (r matches Err(e) && e.status == STATUS_NOT_FOUND
                && e.message@ == game_not_found_message(game_id@))
            &&& state.game_registry.has_game(game_id@) && !board_owner(g, id@) ==> (r matches Err(e) && e.status
                == STATUS_FORBIDDEN && e.message@ == "Unauthorized: Only the board owner can dump the game"@)
            &&& state.game_registry.has_game(game_id@) && board_owner(g, id@) ==> (r matches Ok(plan)
                && snapshot_of(plan.state, g) && plan.path@ == "data/games/"@ + g.id_view() + ".json"@ && plan.game_id@
                == g.id_view() && plan.bingo_reached == (g.scorecard_state().published_score >= 15)
                && plan.pouch_empty == (g.pouch_state().len() == 0) && plan.game_ended == (plan.bingo_reached
                || plan.pouch_empty))
        }),
{
    let client_id = match h {
        ClientHeader::Missing => {
            return Err(ApiError::new(STATUS_UNAUTHORIZED, string_of("Missing X-Client-ID header")));
        },
        ClientHeader::Unreadable => {
            return Err(ApiError::new(STATUS_BAD_REQUEST, string_of("Invalid X-Client-ID header")));
        },
        ClientHeader::Id(id) => id,
    };
    let g = match state.game_registry.get_game(game_id) {
        Ok(Some(g)) => g,
        _ => return Err(game_not_found(game_id)),
    };
    proof {
        let idx = index_of(state.game_registry.entries(), game_id@);
        assert(0 <= idx < state.game_registry.entries().len());
        assert(state.game_registry.entries()[idx].1.game.wf());
    }
    if !holds_board_card(g, client_id.as_str()) {
        return Err(
            ApiError::new(STATUS_FORBIDDEN, string_of("Unauthorized: Only the board owner can dump the game")),
        );
    }
    let snapshot = match g.create_serializable_state() {
        Ok(st) => st,
        Err(e) => return Err(ApiError::new(STATUS_INTERNAL_SERVER_ERROR, e)),
    };
    Ok(
        DumpPlan {
            state: snapshot,
            path: g.dump_file_path(),
            game_id: g.id(),
            game_ended: g.is_game_ended(),
            bingo_reached: g.is_bingo_reached(),
            pouch_empty: g.is_pouch_empty(),
        },
    )
}

/// One game of the games list.
#[derive(Debug, Clone)]
pub struct GameListItem {
    pub game_id: String,
    /// "New", "Active" or "Closed".
    pub status: String,
    pub start_date: String,
    pub close_date: Option<String>,
    pub owner: Option<String>,
}

/// The games list and the counts of games by status.
#[derive(Debug, Clone)]
pub struct GamesListResponse {
    pub success: bool,
    pub total_games: usize,
    pub new_games: usize,
    pub active_games: usize,
    pub closed_games: usize,
    pub games: Vec<GameListItem>,
}

/// `item` lists `e`: same id, the status name, the creation date, the
/// closing date when the entry has one, and the owner.
pub open spec fn lists_entry(item: GameListItem, e: (String, GameEntry)) -> bool {
    &&& item.game_id == e.0
    &&& item.status@ == status_name(entry_status(e.1))
    &&& time_text_of(e.1.game.created(), item.start_date@)
    &&& (item.close_date is Some <==> e.1.closed_at is Some)
    &&& item.close_date matches Some(t) ==> time_text_of(e.1.closed_at->0, t@)
    &&& item.owner == e.1.game.owner_state()
}

/// Every game, in order of id, with the counts of games by status; closing
/// times are set as `GameEntry::update_closed_at` does.
pub fn handle_global_gameslist(state: &mut AppState) -> (r: Result<GamesListResponse, ApiError>)
    requires
        old(state).wf(),
    ensures
        final(state).wf(),
        final(state).config == old(state).config,
        final(state).global_client_registry == old(state).global_client_registry,
        final(state).game_registry.entries().len() == old(state).game_registry.entries().len(),
        forall|i: int|
            0 <= i < old(state).game_registry.entries().len() ==> (#[trigger] final(state).game_registry.entries()[i]).0
                == old(state).game_registry.entries()[i].0 && closed_at_updated(
                old(state).game_registry.entries()[i].1,
                final(state).game_registry.entries()[i].1,
            ),
        r matches Ok(resp) && ({
            let e = final(state).game_registry.entries();
            &&& resp.success
            &&& resp.total_games == e.len()
            &&& resp.new_games == ids_with_status(e, GameStatus::New).len()
            &&& resp.active_games == ids_with_status(e, GameStatus::Active).len()
            &&& resp.closed_games == ids_with_status(e, GameStatus::Closed).len()
            &&& resp.games@.len() == e.len()
            &&& forall|a: int, b: int|
                0 <= a <= b < resp.games@.len() ==> seq_le(
                    #[trigger] resp.games@[a].game_id@,
                    #[trigger] resp.games@[b].game_id@,
                )
            &&& forall|j: int|
                0 <= j < resp.games@.len() ==> exists|k: int|
                    0 <= k < e.len() && lists_entry(#[trigger] resp.games@[j], #[trigger] e[k])
        }),
{
    let n_summary = match state.game_registry.status_summary() {
        Ok(c) => c,
        Err(_) => (0, 0, 0),
    };
    let ghost mid = state.game_registry.entries();
    let rows = match state.game_registry.games_list() {
        Ok(v) => v,
        Err(e) => {
            let mut msg = string_of("Failed to get games list: ");
            msg.append(e.as_str());
            return Err(ApiError::new(STATUS_INTERNAL_SERVER_ERROR, msg));
        },
    };
    let ghost e = state.game_registry.entries();
    proof {
        lemma_ids_with_status_same_games(mid, e, GameStatus::New);
        lemma_ids_with_status_same_games(mid, e, GameStatus::Active);
        lemma_ids_with_status_same_games(mid, e, GameStatus::Closed);
        vstd::seq_lib::to_multiset_len(rows@.map_values(row_key()));
        vstd::seq_lib::to_multiset_len(e.map_values(entry_key()));
    }
    let mut games: Vec<GameListItem> = Vec::new();
    let mut i: usize = 0;
    while i < rows.len()
        invariant
            state.game_registry.wf(),
            state.game_registry.entries() == e,
            rows_described(rows@, e),
            rows@.map_values(row_key()).to_multiset() == e.map_values(entry_key()).to_multiset(),
            i <= rows@.len(),
            games@.len() == i,
            forall|j: int| 0 <= j < i ==> (#[trigger] games@[j]).game_id == rows@[j].0,
            forall|j: int|
                0 <= j < i ==> exists|k: int|
                    0 <= k < e.len() && lists_entry(#[trigger] games@[j], #[trigger] e[k]),
        decreases rows@.len() - i,
    {
        let ghost k = choose|k: int|
            0 <= k < e.len() && (#[trigger] rows@[i as int]).0 == (#[trigger] e[k]).0 && describes(
                e[k].1,
                rows@[i as int].2@,
            );
        proof {
            crate::strmap::lemma_index_of(e, k);
        }
        let entry = match state.game_registry.get_entry(rows[i].0.as_str()) {
            Some(entry) => entry,
            None => {
                assert(false);
                return Err(game_not_found(rows[i].0.as_str()));
            },
        };
        assert(*entry == e[k].1);
        assert(rows@[i as int].1 == entry_status(e[k].1)) by {
            broadcast use vstd::seq_lib::group_to_multiset_ensures;

            let rk = row_key()(rows@[i as int]);
            assert(rows@.map_values(row_key())[i as int] == rk);
            assert(rows@.map_values(row_key()).to_multiset().count(rk) > 0);
            assert(e.map_values(entry_key()).to_multiset().count(rk) > 0);
            assert(e.map_values(entry_key()).contains(rk));
            let m = choose|m: int| 0 <= m < e.len() && e.map_values(entry_key())[m] == rk;
            assert(e[m].0@ == e[k].0@);
            assert(m == k);
        }
        let item = GameListItem {
            game_id: rows[i].0.clone(),
            status: string_of(rows[i].1.as_str()),
            start_date: entry.game.created_at_string(),
            close_date: entry.closed_at_string(),
            owner: entry.game.owner(),
        };
        assert(lists_entry(item, e[k]));
        games.push(item);
        proof {
            assert(games@[i as int] == item);
        }
        i = i + 1;
    }
    proof {
        assert forall|a: int, b: int| 0 <= a <= b < games@.len() implies seq_le(
            #[trigger] games@[a].game_id@,
            #[trigger] games@[b].game_id@,
        ) by {
            assert(games@[a].game_id == rows@[a].0);
            assert(games@[b].game_id == rows@[b].0);
        }
    }
    let total = match state.game_registry.total_games() {
        Ok(t) => t,
        Err(_) => 0,
    };
    Ok(
        GamesListResponse {
            success: true,
            total_games: total,
            new_games: n_summary.0,
            active_games: n_summary.1,
            closed_games: n_summary.2,
            games,
        },
    )
}

/// One player of a game, with the number of its cards other than the board card.
#[derive(Debug, Clone)]
pub struct PlayerInfo {
    pub client_id: String,
    pub client_type: String,
    pub card_count: usize,
}

/// The players of a game.
#[derive(Debug, Clone)]
pub struct PlayersResponse {
    pub game_id: String,
    pub total_players: usize,
    pub total_cards: usize,
    pub players: Vec<PlayerInfo>,
}

/// How many of the card ids are not the board card's.
pub open spec fn non_board_count(ids: Seq<String>) -> nat
    decreases ids.len(),
{
    if ids.len() == 0 {
        0
    } else {
        non_board_count(ids.drop_last()) + if ids.last()@ != board_id() {
            1nat
        } else {
            0nat
        }
    }
}

/// The cards, other than the board card, a client holds in game `g`.
pub open spec fn player_cards(g: Game, id: Seq<char>) -> nat {
    if g.manager().client_cards.has(id) {
        non_board_count(g.manager().client_cards.value_of(id)@)
    } else {
        0
    }
}

/// A player row as plain values.
pub open spec fn player_view() -> spec_fn(PlayerInfo) -> (Seq<char>, Seq<char>, nat) {
    |p: PlayerInfo| (p.client_id@, p.client_type@, p.card_count as nat)
}

/// The row a client type entry gives in game `g`.
pub open spec fn type_row(g: Game) -> spec_fn((String, String)) -> (Seq<char>, Seq<char>, nat) {
    |e: (String, String)| (e.0@, e.1@, player_cards(g, e.0@))
}

/// The card total of the clients of some type entries.
pub open spec fn cards_total(g: Game, entries: Seq<(String, String)>) -> nat
    decreases entries.len(),
{
    if entries.len() == 0 {
        0
    } else {
        cards_total(g, entries.drop_last()) + player_cards(g, entries.last().0@)
    }
}

/// Player `a` is listed no later than `b`: board clients first, then by id.
pub open spec fn player_before(a: PlayerInfo, b: PlayerInfo) -> bool {
    let ab = a.client_type@ == "board"@;
    let bb = b.client_type@ == "board"@;
    (ab && !bb) || (ab == bb && seq_le(a.client_id@, b.client_id@))
}

proof fn lemma_player_before_total(a: PlayerInfo, b: PlayerInfo)
    ensures
        player_before(a, b) || player_before(b, a),
{
    crate::text::lemma_seq_le_total(a.client_id@, b.client_id@);
}

proof fn lemma_player_before_trans(a: PlayerInfo, b: PlayerInfo, c: PlayerInfo)
    requires
        player_before(a, b),
        player_before(b, c),
    ensures
        player_before(a, c),
{
    if a.client_type@ == "board"@ && b.client_type@ == "board"@ && c.client_type@ == "board"@ {
        lemma_seq_le_trans(a.client_id@, b.client_id@, c.client_id@);
    } else if a.client_type@ != "board"@ && b.client_type@ != "board"@ && c.client_type@ != "board"@ {
        lemma_seq_le_trans(a.client_id@, b.client_id@, c.client_id@);
    }
}

fn player_before_exec(a: &PlayerInfo, b: &PlayerInfo) -> (r: bool)
    ensures
        r == player_before(*a, *b),
{
    let ab = str_eq(a.client_type.as_str(), "board");
    let bb = str_eq(b.client_type.as_str(), "board");
    if ab && !bb {
        true
    } else if ab == bb {
        str_le(a.client_id.as_str(), b.client_id.as_str())
    } else {
        false
    }
}

/// How many of the ids are not the board card's.
fn count_non_board(ids: &Vec<String>) -> (n: usize)
    ensures
        n == non_board_count(ids@),
{
    proof {
        lemma_board_id();
    }
    let mut n: usize = 0;
    let mut i: usize = 0;
    assert(ids@.take(0) =~= Seq::<String>::empty());
    while i < ids.len()
        invariant
            i <= ids@.len(),
            BOARD_ID@ == board_id(),
            n == non_board_count(ids@.take(i as int)),
            n <= i,
        decreases ids@.len() - i,
    {
        assert(ids@.take(i + 1).drop_last() =~= ids@.take(i as int));
        if !str_eq(ids[i].as_str(), BOARD_ID) {
            n = n + 1;
        }
        i = i + 1;
    }
    assert(ids@.take(ids@.len() as int) =~= ids@);
    n
}

/// The players of a game for a client registered to it: each client with
/// a type, its type and its card count (board card aside), board clients
/// first and then by id; the total card count saturates at `usize::MAX`.
/// 400 for a missing or unreadable client id header, 404 for an unknown
/// game, 403 for a client not registered to it.
pub fn handle_players(state: &AppState, game_id: &str, h: &ClientHeader) -> (r: Result<PlayersResponse, ApiError>)
    requires
        state.wf(),
    ensures
        *h is Missing ==> (r matches Err(e) && e.status == STATUS_BAD_REQUEST && e.message@
            == "Client ID header (X-Client-ID) is required"@),
        *h is Unreadable ==> (r matches Err(e) && e.status == STATUS_BAD_REQUEST && e.message@
            == "Invalid Client ID header format"@),
        *h matches ClientHeader::Id(id) ==> ({
            let g = state.game_registry.entry_of(game_id@).game;
            let types = g.types().client_types.entries();
            &&& !state.game_registry.has_game(game_id@) ==> (r matches Err(e) && e.status == STATUS_NOT_FOUND
                && e.message@ == "Game '"@ + game_id@ + "' not found"@)
            &&& state.game_registry.has_game(game_id@) && !has_string(g.clients(), id@) ==> (r matches Err(e)
                && e.status == STATUS_FORBIDDEN && e.message@ == "Client '"@ + id@ + "' is not registered in game '"@
                + game_id@ + "'"@)
            &&& state.game_registry.has_game(game_id@) && has_string(g.clients(), id@) ==> (r matches Ok(resp)
                && resp.game_id@ == game_id@ && resp.total_players == resp.players@.len()
                && resp.players@.len() == types.len() && (forall|a: int, b: int|
                0 <= a <= b < resp.players@.len() ==> player_before(
                    #[trigger] resp.players@[a],
                    #[trigger] resp.players@[b],
                )) && resp.players@.map_values(player_view()).to_multiset() == types.map_values(
                type_row(g),
            ).to_multiset() && resp.total_cards == (if cards_total(g, types) <= usize::MAX {
                cards_total(g, types)
            } else {
                usize::MAX as nat
            }))
        }),
{
    let client_id = match h {
        ClientHeader::Missing => {
            return Err(ApiError::new(STATUS_BAD_REQUEST, string_of("Client ID header (X-Client-ID) is required")));
        },
        ClientHeader::Unreadable => {
            return Err(ApiError::new(STATUS_BAD_REQUEST, string_of("Invalid Client ID header format")));
        },
        ClientHeader::Id(id) => id,
    };
    let g = match state.game_registry.get_game(game_id) {
        Ok(Some(g)) => g,
        _ => {
            let mut msg = string_of("Game '");
            msg.append(game_id);
            msg.append("' not found");
            return Err(ApiError::new(STATUS_NOT_FOUND, msg));
        },
    };
    proof {
        let idx = index_of(state.game_registry.entries(), game_id@);
        assert(0 <= idx < state.game_registry.entries().len());
        assert(state.game_registry.entries()[idx].1.game.wf());
        g.lemma_wf();
    }
    if !g.contains_client(client_id.as_str()) {
        let mut msg = string_of("Client '");
        msg.append(client_id.as_str());
        msg.append("' is not registered in game '");
        msg.append(game_id);
        msg.append("'");
        return Err(ApiError::new(STATUS_FORBIDDEN, msg));
    }
    let types = match g.get_all_client_types() {
        Ok(v) => v,
        Err(e) => return Err(ApiError::new(STATUS_INTERNAL_SERVER_ERROR, e)),
    };
    let ghost te = g.types().client_types.entries();
    let ghost gg = *g;
    let mut players: Vec<PlayerInfo> = Vec::new();
    let mut total_cards: usize = 0;
    let mut i: usize = 0;
    assert(players@.map_values(player_view()) =~= Seq::empty());
    assert(te.take(0).map_values(type_row(gg)) =~= Seq::empty());
    while i < types.len()
        invariant
            gg == *g,
            gg.wf(),
            gg.manager().wf(),
            te == gg.types().client_types.entries(),
            types@.len() == te.len(),
            forall|j: int|
                0 <= j < types@.len() ==> (#[trigger] types@[j]).client_id@ == te[j].0@ && types@[j].client_type@
                    == te[j].1@,
            i <= types@.len(),
            forall|a: int, b: int|
                0 <= a <= b < players@.len() ==> player_before(#[trigger] players@[a], #[trigger] players@[b]),
            players@.map_values(player_view()).to_multiset() == te.take(i as int).map_values(
                type_row(gg),
            ).to_multiset(),
            total_cards == (if cards_total(gg, te.take(i as int)) <= usize::MAX {
                cards_total(gg, te.take(i as int))
            } else {
                usize::MAX as nat
            }),
        decreases types@.len() - i,
    {
        broadcast use vstd::seq_lib::group_seq_properties;

        let t = &types[i];
        let count = match g.card_manager().get_client_cards(t.client_id.as_str()) {
            Some(ids) => count_non_board(ids),
            None => 0,
        };
        let item = PlayerInfo { client_id: t.client_id.clone(), client_type: t.client_type.clone(), card_count: count };
        assert(player_view()(item) == type_row(gg)(te[i as int]));
        let mut p: usize = 0;
        while p < players.len() && player_before_exec(&players[p], &item)
            invariant
                p <= players@.len(),
                forall|j: int| 0 <= j < p ==> player_before(#[trigger] players@[j], item),
            decreases players@.len() - p,
        {
            p = p + 1;
        }
        let ghost unsorted = players@;
        players.insert(p, item);
        proof {
            assert forall|a: int, b: int| 0 <= a <= b < players@.len() implies player_before(
                #[trigger] players@[a],
                #[trigger] players@[b],
            ) by {
                if a < p && b > p {
                    assert(players@[a] == unsorted[a]);
                    assert(players@[b] == unsorted[b - 1]);
                } else if a < p && b == p {
                    assert(players@[a] == unsorted[a]);
                } else if a == p && b > p {
                    assert(players@[b] == unsorted[b - 1]);
                    lemma_player_before_total(unsorted[p as int], item);
                    lemma_player_before_trans(item, unsorted[p as int], unsorted[b - 1]);
                } else if a > p {
                    assert(players@[a] == unsorted[a - 1]);
                    assert(players@[b] == unsorted[b - 1]);
                } else {
                    lemma_player_before_total(item, item);
                }
            }
            assert(players@.map_values(player_view()) =~= unsorted.map_values(player_view()).insert(
                p as int,
                player_view()(item),
            ));
            lemma_insert_to_multiset(unsorted.map_values(player_view()), p as int, player_view()(item));
            assert(te.take(i + 1) =~= te.take(i as int).push(te[i as int]));
            assert(te.take(i + 1).map_values(type_row(gg)) =~= te.take(i as int).map_values(type_row(gg)).push(
                type_row(gg)(te[i as int]),
            ));
            vstd::seq_lib::to_multiset_build(te.take(i as int).map_values(type_row(gg)), type_row(gg)(te[i as int]));
            assert(te.take(i + 1).drop_last() =~= te.take(i as int));
        }
        total_cards = total_cards.saturating_add(count);
        i = i + 1;
    }
    proof {
        assert(te.take(te.len() as int) =~= te);
        vstd::seq_lib::to_multiset_len(players@.map_values(player_view()));
        vstd::seq_lib::to_multiset_len(te.map_values(type_row(gg)));
    }
    let total_players = players.len();
    Ok(PlayersResponse { game_id: string_of(game_id), total_players, total_cards, players })
}

} // verus!
