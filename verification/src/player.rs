//! A player client's session with the server: its name and server, the game
//! it plays, whether it has registered, and the requests that follow.

use vstd::prelude::*;
use crate::client::RegisterRequest;
use crate::text::string_of;
use vstd::string::StringExecFns;

verus! {

/// A player client's session.
#[derive(Debug, Clone)]
pub struct TombolaClient {
    pub client_id: Option<String>,
    pub client_name: String,
    pub server_url: String,
    pub registered: bool,
    /// Number of cards to ask for when registering.
    pub nocard: Option<u32>,
    /// The game to play.
    pub game_id: Option<String>,
}

/// The address of `path` in game `game` on the server at `url`.
pub open spec fn game_url(url: Seq<char>, game: Seq<char>, path: Seq<char>) -> Seq<char> {
    url + "/"@ + game + "/"@ + path
}

impl TombolaClient {
    /// A session not yet registered, with no game chosen.
    pub fn new(name: &str, server_url: &str) -> (c: Self)
        ensures
            c.client_id is None,
            c.client_name@ == name@,
            c.server_url@ == server_url@,
            !c.registered,
            c.nocard is None,
            c.game_id is None,
    {
        TombolaClient {
            client_id: None,
            client_name: string_of(name),
            server_url: string_of(server_url),
            registered: false,
            nocard: None,
            game_id: None,
        }
    }

    /// Asks for `count` cards when registering.
    pub fn set_nocard(&mut self, count: u32)
        ensures
            *final(self) == (TombolaClient { nocard: Some(count), ..*old(self) }),
    {
        self.nocard = Some(count);
    }

    /// Asks for no cards when registering.
    pub fn clear_nocard(&mut self)
        ensures
            *final(self) == (TombolaClient { nocard: None, ..*old(self) }),
    {
        self.nocard = None;
    }

    /// Chooses the game to play.
    pub fn set_game_id(&mut self, game_id: String)
        ensures
            *final(self) == (TombolaClient { game_id: Some(game_id), ..*old(self) }),
    {
        self.game_id = Some(game_id);
    }

    /// The game chosen, if any.
    pub fn current_game_id(&self) -> (r: Option<&String>)
        ensures
            r matches Some(g) ==> self.game_id == Some(*g),
            r is None <==> self.game_id is None,
    {
        self.game_id.as_ref()
    }

    /// The game chosen; an error when there is none.
    fn ensure_game_id(&self) -> (r: Result<&String, String>)
        ensures
            r is Ok <==> self.game_id is Some,
            r matches Ok(g) ==> self.game_id == Some(*g),
            self.game_id is None ==> (r matches Err(e) && e@ == "Game ID not set. Use set_game_id() first."@),
    {
        match &self.game_id {
            Some(g) => Ok(g),
            None => Err(string_of("Game ID not set. Use set_game_id() first.")),
        }
    }

    /// The id the server gave at registration, if any.
    pub fn get_client_id(&self) -> (r: Option<&String>)
        ensures
            r matches Some(i) ==> self.client_id == Some(*i),
            r is None <==> self.client_id is None,
    {
        self.client_id.as_ref()
    }

    /// Whether the session has registered.
    pub fn is_registered(&self) -> (b: bool)
        ensures
            b == self.registered,
    {
        self.registered
    }

    /// Nothing; an error when the session has not registered.
    fn ensure_registered(&self) -> (r: Result<(), String>)
        ensures
            r is Ok <==> self.registered,
            r matches Err(e) ==> e@ == "Client not registered. Call register() first."@,
    {
        if !self.registered {
            Err(string_of("Client not registered. Call register() first."))
        } else {
            Ok(())
        }
    }

    /// What registering sends: nothing when the session has registered
    /// already; else the address of the game's registration and the request
    /// (this client's name, type "tombola_client", the cards to ask for). An
    /// error when no game is chosen.
    pub fn registration(&self) -> (r: Result<Option<(String, RegisterRequest)>, String>)
        ensures
            self.registered ==> r == Ok::<Option<(String, RegisterRequest)>, String>(None),
            !self.registered && self.game_id is None ==> (r matches Err(e) && e@ == "Game ID not set"@),
            !self.registered && self.game_id is Some ==> (r matches Ok(Some(p)) && p.0@ == game_url(
                self.server_url@,
                self.game_id->0@,
                "register"@,
            ) && p.1.name@ == self.client_name@ && p.1.client_type@ == "tombola_client"@ && p.1.nocard
                == self.nocard && p.1.email is None),
    {
        if self.registered {
            return Ok(None);
        }
        match &self.game_id {
            None => Err(string_of("Game ID not set")),
            Some(game) => {
                let mut url = self.server_url.clone();
                url.append("/");
                url.append(game.as_str());
                url.append("/register");
                proof {
                    reveal_strlit("/register");
                    reveal_strlit("/");
                    reveal_strlit("register");
                    assert(url@ =~= game_url(self.server_url@, game@, "register"@));
                }
                let request = RegisterRequest {
                    name: self.client_name.clone(),
                    client_type: string_of("tombola_client"),
                    nocard: self.nocard,
                    email: None,
                };
                Ok(Some((url, request)))
            },
        }
    }

    /// Records the id the server gave at registration.
    pub fn record_registration(&mut self, client_id: String)
        ensures
            *final(self) == (TombolaClient { client_id: Some(client_id), registered: true, ..*old(self) }),
    {
        self.client_id = Some(client_id);
        self.registered = true;
    }

    /// The address of `path` in the chosen game and the id to send with it;
    /// an error when the session has not registered or no game is chosen.
    /// A registered session holds the id it was given.
    pub fn game_request(&self, path: &str) -> (r: Result<(String, String), String>)
        requires
            self.registered ==> self.client_id is Some,
        ensures
            !self.registered ==> (r matches Err(e) && e@ == "Client not registered. Call register() first."@),
            self.registered && self.game_id is None ==> (r matches Err(e) && e@
                == "Game ID not set. Use set_game_id() first."@),
            self.registered && self.game_id is Some ==> (r matches Ok(p) && p.0@ == game_url(
                self.server_url@,
                self.game_id->0@,
                path@,
            ) && p.1@ == self.client_id->0@),
    {
        self.ensure_registered()?;
        let game = self.ensure_game_id()?;
        let id = self.client_id.as_ref().unwrap();
        let mut url = self.server_url.clone();
        url.append("/");
        url.append(game.as_str());
        url.append("/");
        url.append(path);
        assert(url@ =~= game_url(self.server_url@, game@, path@));
        Ok((url, id.clone()))
    }
}

} // verus!
