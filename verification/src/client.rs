//! Clients: registration requests and responses, client records with
//! generated ids, and the global client registry.

use std::collections::hash_map::DefaultHasher;
use std::hash::Hasher;
use std::time::SystemTime;
use vstd::prelude::*;
use vstd::std_specs::hash::DefaultHasherAdditionalSpecFns;
use vstd::string::StringSliceAdditionalSpecFns;
use crate::board::{board_id, lemma_board_id, BOARD_ID};
use crate::clock::{now, since_epoch};
use crate::strmap::{has_key, index_of, keys_distinct, lemma_index_of, StrMap};
use crate::text::{append_hex_fixed, hex_fixed, is_upper_hex_digit, lemma_hex_fixed_upper, str_eq, string_of};

verus! {

broadcast use vstd::seq_lib::group_seq_properties;

pub assume_specification[ <SystemTime as Clone>::clone ](t: &SystemTime) -> (r: SystemTime)
    ensures
        r == *t,
;

/// Client registration request.
#[derive(Debug, Clone)]
pub struct RegisterRequest {
    pub name: String,
    pub client_type: String,
    /// Number of cards to generate during registration.
    pub nocard: Option<u32>,
    /// Optional email for registration.
    pub email: Option<String>,
}

/// Client registration response.
#[derive(Debug, Clone)]
pub struct RegisterResponse {
    pub client_id: String,
    pub message: String,
}

/// Client information as reported by the API.
#[derive(Debug, Clone)]
pub struct ClientInfoResponse {
    pub client_id: String,
    pub name: String,
    pub client_type: String,
    pub registered_at: String,
}

/// A registered client.
#[derive(Debug)]
pub struct ClientInfo {
    pub id: String,
    pub name: String,
    pub client_type: String,
    pub registered_at: SystemTime,
    /// Internal field, not exposed through the API.
    pub email: String,
}

impl Clone for ClientInfo {
    fn clone(&self) -> (c: Self)
        ensures
            c == *self,
    {
        ClientInfo {
            id: self.id.clone(),
            name: self.name.clone(),
            client_type: self.client_type.clone(),
            registered_at: self.registered_at.clone(),
            email: self.email.clone(),
        }
    }
}

/// The `k` little-endian bytes of `n`.
pub open spec fn le_bytes(n: nat, k: nat) -> Seq<u8>
    decreases k,
{
    if k == 0 {
        Seq::empty()
    } else {
        seq![(n % 256) as u8] + le_bytes(n / 256, (k - 1) as nat)
    }
}

/// What a client id is hashed from: the name, the type, and the time of
/// registration in nanoseconds when the clock is past the epoch.
pub open spec fn client_hash_input(name: &str, client_type: &str, nanos: Option<u128>) -> Seq<Seq<u8>> {
    let base = seq![name.spec_bytes(), client_type.spec_bytes()];
    match nanos {
        Some(n) => base.push(le_bytes(n as nat, 16)),
        None => base,
    }
}

/// The sixteen little-endian bytes of `n`.
fn le_bytes_u128(n: u128) -> (v: Vec<u8>)
    ensures
        v@ == le_bytes(n as nat, 16),
{
    let mut v: Vec<u8> = Vec::new();
    let mut x: u128 = n;
    let mut i: usize = 0;
    while i < 16
        invariant
            i <= 16,
            v@ + le_bytes(x as nat, (16 - i) as nat) == le_bytes(n as nat, 16),
        decreases 16 - i,
    {
        let ghost before = v@;
        v.push((x % 256) as u8);
        proof {
            assert(le_bytes(x as nat, (16 - i) as nat) == seq![(x % 256) as u8] + le_bytes(
                (x / 256) as nat,
                (16 - i - 1) as nat,
            ));
            assert(v@ + le_bytes((x / 256) as nat, (16 - i - 1) as nat) =~= before + le_bytes(
                x as nat,
                (16 - i) as nat,
            ));
        }
        x = x / 256;
        i = i + 1;
    }
    assert(v@ =~= v@ + le_bytes(x as nat, 0));
    v
}

impl ClientInfo {
    /// A new client record. Its id is the `DefaultHasher` digest of the name,
    /// the type and the registration time in nanoseconds, as 16 upper-case
    /// hex digits.
    pub fn new(name: &str, client_type: &str, email: &str) -> (c: Self)
        ensures
            c.name@ == name@,
            c.client_type@ == client_type@,
            c.email@ == email@,
            exists|t: Option<u128>|
                c.id@ == hex_fixed(
                    DefaultHasher::spec_finish(#[trigger] client_hash_input(name, client_type, t)) as nat,
                    16,
                    true,
                ),
            c.id@.len() == 16,
            forall|i: int| 0 <= i < 16 ==> is_upper_hex_digit(#[trigger] c.id@[i]),
    {
        let mut hasher = DefaultHasher::new();
        hasher.write(name.as_bytes());
        hasher.write(client_type.as_bytes());
        let clock = now();
        let nanos: Option<u128> = match since_epoch(&clock) {
            Some((_, n)) => {
                let bytes = le_bytes_u128(n);
                hasher.write(bytes.as_slice());
                Some(n)
            },
            None => None,
        };
        assert(hasher@ =~= client_hash_input(name, client_type, nanos));
        let hash = hasher.finish();
        let mut client_id = String::new();
        append_hex_fixed(&mut client_id, hash, 16, true);
        proof {
            lemma_hex_fixed_upper(hash as nat, 16);
            assert(client_id@ =~= hex_fixed(hash as nat, 16, true));
        }
        ClientInfo {
            id: client_id,
            name: string_of(name),
            client_type: string_of(client_type),
            registered_at: now(),
            email: string_of(email),
        }
    }

    /// The client's id.
    pub fn client_id(&self) -> (s: &str)
        ensures
            s@ == self.id@,
    {
        self.id.as_str()
    }
}

/// The first client, in registration order, with the given name.
pub open spec fn first_with_name(entries: Seq<(String, ClientInfo)>, name: Seq<char>) -> int {
    choose|i: int|
        0 <= i < entries.len() && entries[i].1.name@ == name && forall|j: int|
            0 <= j < i ==> entries[j].1.name@ != name
}

/// The global registry of clients, by client id.
#[derive(Debug, Clone)]
pub struct ClientRegistry {
    pub clients: StrMap<ClientInfo>,
}

impl ClientRegistry {
    /// Distinct ids, each client filed under its own id.
    pub open spec fn wf(&self) -> bool {
        &&& self.clients.wf()
        &&& forall|i: int|
            0 <= i < self.clients.entries().len() ==> (#[trigger] self.clients.entries()[i]).0@
                == self.clients.entries()[i].1.id@
    }

    pub fn new() -> (r: Self)
        ensures
            r.wf(),
            r.clients.entries().len() == 0,
    {
        ClientRegistry { clients: StrMap::new() }
    }

    /// Files a client under its id; returns the client it replaces.
    pub fn insert(&mut self, client: ClientInfo) -> (r: Result<Option<ClientInfo>, String>)
        requires
            old(self).wf(),
        ensures
            final(self).wf(),
            r is Ok,
            final(self).clients.has(client.id@),
            final(self).clients.value_of(client.id@) == client,
            forall|k: Seq<char>|
                k != client.id@ ==> (final(self).clients.has(k) == old(self).clients.has(k)) && (
                old(self).clients.has(k) ==> final(self).clients.value_of(k)
                    == old(self).clients.value_of(k)),
            r matches Ok(prev) ==> (prev is Some <==> old(self).clients.has(client.id@)),
            r matches Ok(Some(p)) ==> p == old(self).clients.value_of(client.id@),
            !old(self).clients.has(client.id@) ==> final(self).clients.entries() == old(self).clients.entries().push(
                (client.id, client),
            ),
            old(self).clients.has(client.id@) ==> final(self).clients.entries().len()
                == old(self).clients.entries().len(),
    {
        let key = client.id.clone();
        let ghost c = client;
        let prev = self.clients.insert(key, client);
        proof {
            let e = self.clients.entries();
            let be = old(self).clients.entries();
            assert forall|i: int| 0 <= i < e.len() implies (#[trigger] e[i]).0@ == e[i].1.id@ by {
                if has_key(be, c.id@) {
                    if i != index_of(be, c.id@) {
                        assert(e[i] == be[i]);
                    }
                } else if i < be.len() {
                    assert(e[i] == be[i]);
                }
            }
        }
        Ok(prev)
    }

    /// The first client (in registration order) with the given name.
    pub fn get_by_name(&self, client_name: &str) -> (r: Result<Option<ClientInfo>, String>)
        requires
            self.wf(),
        ensures
            r is Ok,
            r matches Ok(None) ==> forall|i: int|
                0 <= i < self.clients.entries().len() ==> (#[trigger] self.clients.entries()[i]).1.name@
                    != client_name@,
            r matches Ok(Some(c)) ==> exists|i: int|
                0 <= i < self.clients.entries().len() && c == (#[trigger] self.clients.entries()[i]).1
                    && c.name@ == client_name@ && forall|j: int|
                    0 <= j < i ==> self.clients.entries()[j].1.name@ != client_name@,
    {
        let mut i: usize = 0;
        while i < self.clients.len()
            invariant
                i <= self.clients.entries().len(),
                forall|j: int| 0 <= j < i ==> (#[trigger] self.clients.entries()[j]).1.name@ != client_name@,
            decreases self.clients.entries().len() - i,
        {
            let client = self.clients.value_at(i);
            if str_eq(client.name.as_str(), client_name) {
                return Ok(Some(client.clone()));
            }
            i = i + 1;
        }
        Ok(None)
    }

    /// The client with the given id.
    pub fn get(&self, client_id: &str) -> (r: Result<Option<ClientInfo>, String>)
        requires
            self.wf(),
        ensures
            r is Ok,
            r matches Ok(None) ==> !self.clients.has(client_id@),
            r matches Ok(Some(c)) ==> self.clients.has(client_id@) && c == self.clients.value_of(client_id@),
    {
        match self.clients.get(client_id) {
            Some(c) => Ok(Some(c.clone())),
            None => Ok(None),
        }
    }

    /// The client with the given id.
    pub fn get_by_client_id(&self, client_id: &str) -> (r: Result<Option<ClientInfo>, String>)
        requires
            self.wf(),
        ensures
            r is Ok,
            r matches Ok(None) ==> !self.clients.has(client_id@),
            r matches Ok(Some(c)) ==> self.clients.has(client_id@) && c == self.clients.value_of(client_id@),
    {
        self.get(client_id)
    }

    /// The client with the given id.
    pub fn get_client_info_by_id(&self, client_id: &str) -> (r: Result<Option<ClientInfo>, String>)
        requires
            self.wf(),
        ensures
            r is Ok,
            r matches Ok(None) ==> !self.clients.has(client_id@),
            r matches Ok(Some(c)) ==> self.clients.has(client_id@) && c == self.clients.value_of(client_id@),
    {
        self.get(client_id)
    }

    /// All clients, in registration order.
    pub fn get_all_clients(&self) -> (r: Result<Vec<ClientInfo>, String>)
        ensures
            r matches Ok(v) && v@.len() == self.clients.entries().len() && forall|i: int|
                0 <= i < v@.len() ==> #[trigger] v@[i] == self.clients.entries()[i].1,
    {
        let mut v: Vec<ClientInfo> = Vec::new();
        let mut i: usize = 0;
        while i < self.clients.len()
            invariant
                i <= self.clients.entries().len(),
                v@.len() == i,
                forall|j: int| 0 <= j < i ==> #[trigger] v@[j] == self.clients.entries()[j].1,
            decreases self.clients.entries().len() - i,
        {
            v.push(self.clients.value_at(i).clone());
            i = i + 1;
        }
        Ok(v)
    }

    pub fn is_empty(&self) -> (r: Result<bool, String>)
        ensures
            r == Ok::<bool, String>(self.clients.entries().len() == 0),
    {
        Ok(self.clients.is_empty())
    }

    pub fn len(&self) -> (r: Result<usize, String>)
        ensures
            r matches Ok(n) && n == self.clients.entries().len(),
    {
        Ok(self.clients.len())
    }

    /// Whether a client with the given id is registered.
    pub fn contains_client(&self, client_id: &str) -> (r: Result<bool, String>)
        requires
            self.wf(),
        ensures
            r == Ok::<bool, String>(self.clients.has(client_id@)),
    {
        Ok(self.clients.contains_key(client_id))
    }

    /// The name of a client: "Board" for the board's id.
    pub fn get_client_name_by_id(&self, client_id: &str) -> (r: Result<Option<String>, String>)
        requires
            self.wf(),
        ensures
            r is Ok,
            client_id@ == board_id() ==> (r matches Ok(Some(n)) && n@ == "Board"@),
            client_id@ != board_id() ==> (r matches Ok(None) <==> !self.clients.has(client_id@)),
            client_id@ != board_id() ==> (r matches Ok(Some(n)) ==> n@ == self.clients.value_of(
                client_id@,
            ).name@),
    {
        proof {
            lemma_board_id();
        }
        if str_eq(client_id, BOARD_ID) {
            return Ok(Some(string_of("Board")));
        }
        match self.clients.get(client_id) {
            Some(c) => Ok(Some(c.name.clone())),
            None => Ok(None),
        }
    }

    /// Removes a client by id, returning it.
    pub fn remove(&mut self, client_id: &str) -> (r: Result<Option<ClientInfo>, String>)
        requires
            old(self).wf(),
        ensures
            final(self).wf(),
            r is Ok,
            !final(self).clients.has(client_id@),
            r matches Ok(prev) ==> (prev is Some <==> old(self).clients.has(client_id@)),
            r matches Ok(Some(p)) ==> p == old(self).clients.value_of(client_id@),
            forall|k: Seq<char>|
                k != client_id@ ==> (final(self).clients.has(k) == old(self).clients.has(k)) && (
                old(self).clients.has(k) ==> final(self).clients.value_of(k)
                    == old(self).clients.value_of(k)),
            old(self).clients.has(client_id@) ==> final(self).clients.entries() == old(self).clients.entries().remove(
                index_of(old(self).clients.entries(), client_id@),
            ),
            !old(self).clients.has(client_id@) ==> final(self).clients.entries() == old(self).clients.entries(),
    {
        let prev = self.clients.remove(client_id);
        proof {
            let e = self.clients.entries();
            let be = old(self).clients.entries();
            if has_key(be, client_id@) {
                let p = index_of(be, client_id@);
                assert forall|i: int| 0 <= i < e.len() implies (#[trigger] e[i]).0@ == e[i].1.id@ by {
                    if i < p {
                        assert(e[i] == be[i]);
                    } else {
                        assert(e[i] == be[i + 1]);
                    }
                }
            }
        }
        Ok(prev)
    }

    /// Removes a client by id, returning it.
    pub fn remove_by_client_id(&mut self, client_id: &str) -> (r: Result<Option<ClientInfo>, String>)
        requires
            old(self).wf(),
        ensures
            final(self).wf(),
            r is Ok,
            !final(self).clients.has(client_id@),
            r matches Ok(prev) ==> (prev is Some <==> old(self).clients.has(client_id@)),
            r matches Ok(Some(p)) ==> p == old(self).clients.value_of(client_id@),
            forall|k: Seq<char>|
                k != client_id@ ==> (final(self).clients.has(k) == old(self).clients.has(k)) && (
                old(self).clients.has(k) ==> final(self).clients.value_of(k)
                    == old(self).clients.value_of(k)),
    {
        self.remove(client_id)
    }

    /// Removes every client; returns how many there were.
    pub fn clear(&mut self) -> (r: Result<usize, String>)
        ensures
            final(self).wf(),
            final(self).clients.entries().len() == 0,
            r matches Ok(n) && n == old(self).clients.entries().len(),
    {
        let count = self.clients.len();
        self.clients.clear();
        Ok(count)
    }
}

/// Removing a client just filed undoes the filing: a registry without the
/// client's id, after the client is inserted and then removed by its id,
/// holds exactly the clients it held before (so as many), and the removal
/// hands back the client.
pub proof fn law_remove_undoes_insert(
    before: &ClientRegistry,
    inserted: &ClientRegistry,
    removed: &ClientRegistry,
    c: ClientInfo,
)
    requires
        before.wf(),
        !before.clients.has(c.id@),
        inserted.clients.entries() == before.clients.entries().push((c.id, c)),
        removed.clients.entries() == inserted.clients.entries().remove(
            index_of(inserted.clients.entries(), c.id@),
        ),
    ensures
        removed.clients.entries() == before.clients.entries(),
        removed.clients.entries().len() == before.clients.entries().len(),
        inserted.clients.has(c.id@),
        inserted.clients.value_of(c.id@) == c,
        !removed.clients.has(c.id@),
{
    let b = before.clients.entries();
    let m = inserted.clients.entries();
    let n = b.len() as int;
    assert(m[n] == (c.id, c));
    assert(keys_distinct(m)) by {
        assert forall|i: int, j: int| 0 <= i < m.len() && 0 <= j < m.len() && i != j implies #[trigger] m[i].0@
            != #[trigger] m[j].0@ by {
            if i < n && j < n {
                assert(m[i] == b[i] && m[j] == b[j]);
            } else if i < n {
                assert(m[i] == b[i]);
                assert(b[i].0@ != c.id@);
            } else {
                assert(m[j] == b[j]);
                assert(b[j].0@ != c.id@);
            }
        }
    }
    lemma_index_of(m, n);
    assert(m.remove(n) =~= b);
}

impl Default for ClientRegistry {
    fn default() -> (r: Self)
        ensures
            r.wf(),
            r.clients.entries().len() == 0,
    {
        Self::new()
    }
}

} // verus!
