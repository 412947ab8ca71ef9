use std::collections::HashMap;
use vstd::prelude::*;
use vstd::string::StringExecFns;

use crate::text::{decimal, u64_to_decimal};

verus! {

broadcast use vstd::std_specs::hash::group_hash_axioms;

/// Identity of one live connection, handed out once and never reused.
#[derive(Debug, Clone, Copy, PartialEq, Eq, Hash, Structural)]
pub struct ClientId(pub u64);

/// Name of one of the provisioned rooms.
#[derive(Debug)]
pub struct RoomId(pub String);

impl View for RoomId {
    type V = Seq<char>;

    open spec fn view(&self) -> Seq<char> {
        self.0@
    }
}

impl PartialEq for RoomId {
    fn eq(&self, o: &RoomId) -> (r: bool) {
        self.0 == o.0
    }
}

impl vstd::std_specs::cmp::PartialEqSpecImpl for RoomId {
    open spec fn obeys_eq_spec() -> bool {
        true
    }

    open spec fn eq_spec(&self, o: &RoomId) -> bool {
        self@ == o@
    }
}

impl RoomId {
    pub fn from_str(s: &str) -> (r: RoomId)
        ensures
            r@ == s@,
    {
        RoomId(<String as StringExecFns>::from_str(s))
    }

    pub fn copy(&self) -> (r: RoomId)
        ensures
            r@ == self@,
    {
        RoomId(self.0.clone())
    }
}

/// Name of the room that every client starts in and returns to after a leave.
pub open spec fn lobby() -> Seq<char> {
    seq!['0']
}

/// Number of rooms that a new server provisions: "0" (the lobby) up to "9".
pub const ROOM_COUNT: u64 = 10;

/// Why a registry operation was refused.
#[derive(Debug, Clone, Copy, PartialEq, Eq, Structural)]
pub enum Errors {
    RoomNotFound,
    ClientInRoom,
    RoomFull,
    ClientNotInRoom,
    SendFailed,
    UnknownClient,
    ClientInOtherRoom,
}

impl Errors {
    pub open spec fn name_spec(self) -> Seq<char> {
        match self {
            Errors::RoomNotFound => "RoomNotFound"@,
            Errors::ClientInRoom => "ClientInRoom"@,
            Errors::RoomFull => "RoomFull"@,
            Errors::ClientNotInRoom => "ClientNotInRoom"@,
            Errors::SendFailed => "SendFailed"@,
            Errors::UnknownClient => "UnknownClient"@,
            Errors::ClientInOtherRoom => "ClientInOtherRoom"@,
        }
    }

    /// The variant's name, as it appears in replies to the user.
    pub fn name(&self) -> (r: String)
        ensures
            r@ == self.name_spec(),
    {
        let s = match self {
            Errors::RoomNotFound => "RoomNotFound",
            Errors::ClientInRoom => "ClientInRoom",
            Errors::RoomFull => "RoomFull",
            Errors::ClientNotInRoom => "ClientNotInRoom",
            Errors::SendFailed => "SendFailed",
            Errors::UnknownClient => "UnknownClient",
            Errors::ClientInOtherRoom => "ClientInOtherRoom",
        };
        <String as StringExecFns>::from_str(s)
    }
}

/// A room and the set of clients in it, kept as a list without repeats.
pub struct ChatRoom {
    pub id: RoomId,
    pub members: Vec<ClientId>,
}

impl ChatRoom {
    pub open spec fn member_ids(&self) -> Seq<u64> {
        self.members@.map_values(|m: ClientId| m.0)
    }

    pub open spec fn member_set(&self) -> Set<u64> {
        self.member_ids().to_set()
    }

    pub open spec fn wf(&self) -> bool {
        self.member_ids().no_duplicates()
    }

    pub fn new(id: String) -> (r: Self)
        ensures
            r.id@ == id@,
            r.members@.len() == 0,
            r.member_set() == Set::<u64>::empty(),
            r.wf(),
    {
        let r = ChatRoom { id: RoomId(id), members: Vec::new() };
        assert(r.member_set() =~= Set::<u64>::empty());
        r
    }

    pub fn contains(&self, c: ClientId) -> (r: bool)
        ensures
            r == self.member_set().contains(c.0),
    {
        let mut i: usize = 0;
        while i < self.members.len()
            invariant
                0 <= i <= self.members@.len(),
                forall|j: int| 0 <= j < i ==> self.members@[j].0 != c.0,
            decreases self.members@.len() - i,
        {
            if self.members[i].0 == c.0 {
                assert(self.member_ids()[i as int] == c.0);
                return true;
            }
            i += 1;
        }
        assert(!self.member_ids().contains(c.0));
        false
    }

    /// The same room with every entry of `c` taken out.
    pub fn without(&self, c: ClientId) -> (r: ChatRoom)
        ensures
            r.id@ == self.id@,
            r.member_set() == self.member_set().remove(c.0),
            self.wf() ==> r.wf(),
    {
        let mut kept: Vec<ClientId> = Vec::new();
        let mut i: usize = 0;
        let ghost ids = self.member_ids();
        while i < self.members.len()
            invariant
                0 <= i <= self.members@.len(),
                ids == self.member_ids(),
                forall|k: int|
                    0 <= k < kept@.len() ==> #[trigger] kept@[k].0 != c.0 && ids.subrange(
                        0,
                        i as int,
                    ).contains(kept@[k].0),
                forall|j: int|
                    0 <= j < i && #[trigger] ids[j] != c.0 ==> kept@.map_values(
                        |m: ClientId| m.0,
                    ).contains(ids[j]),
                self.wf() ==> kept@.map_values(|m: ClientId| m.0).no_duplicates(),
            decreases self.members@.len() - i,
        {
            let m = self.members[i];
            assert(ids[i as int] == m.0);
            if m.0 != c.0 {
                let ghost prev = kept@;
                proof {
                    if self.wf() {
                        assert forall|k: int| 0 <= k < prev.len() implies #[trigger] prev[k].0
                            != m.0 by {
                            let w = ids.subrange(0, i as int);
                            let j = w.index_of(prev[k].0);
                            assert(ids[j] == prev[k].0);
                        }
                    }
                }
                kept.push(m);
                proof {
                    let pids = prev.map_values(|x: ClientId| x.0);
                    let kids = kept@.map_values(|x: ClientId| x.0);
                    assert(kept@ == prev.push(m));
                    assert(kids =~= pids.push(m.0));
                    assert forall|k: int| 0 <= k < kept@.len() implies #[trigger] kept@[k].0
                        != c.0 && ids.subrange(0, i + 1).contains(kept@[k].0) by {
                        if k < prev.len() {
                            let w = ids.subrange(0, i as int);
                            let j = w.index_of(prev[k].0);
                            assert(ids.subrange(0, i + 1)[j] == kept@[k].0);
                        } else {
                            assert(ids.subrange(0, i + 1)[i as int] == m.0);
                        }
                    }
                    assert forall|j: int| 0 <= j < i + 1 && #[trigger] ids[j] != c.0 implies kids.contains(
                        ids[j],
                    ) by {
                        if j < i {
                            let q = pids.index_of(ids[j]);
                            assert(kids[q] == pids[q]);
                        } else {
                            assert(kids[kids.len() - 1] == m.0);
                        }
                    }
                }
            }
            i += 1;
        }
        let r = ChatRoom { id: self.id.copy(), members: kept };
        proof {
            assert forall|x: u64| r.member_set().contains(x) == self.member_set().remove(c.0).contains(x) by {
                if r.member_set().contains(x) {
                    let k = r.member_ids().index_of(x);
                    assert(kept@[k].0 == x);
                }
                if self.member_set().remove(c.0).contains(x) {
                    let j = self.member_ids().index_of(x);
                    assert(self.members@[j].0 == x);
                }
            }
            assert(r.member_set() =~= self.member_set().remove(c.0));
        }
        r
    }
}

/// One client's session: its id and the room it is in, if any.
pub struct Client {
    pub id: ClientId,
    pub current_room: Option<RoomId>,
}

impl Client {
    pub open spec fn room_view(&self) -> Option<Seq<char>> {
        match self.current_room {
            Some(r) => Some(r@),
            None => None,
        }
    }
}

/// One line for one client's outbound queue.
pub struct Delivery {
    pub to: ClientId,
    pub line: String,
}

/// The clients that a list of deliveries goes to, in order.
pub open spec fn targets(d: Seq<Delivery>) -> Seq<u64> {
    d.map_values(|x: Delivery| x.to.0)
}

/// A chat line as relayed to the other members: `[<from>] <text>`.
pub open spec fn relay_line(from: u64, text: Seq<char>) -> Seq<char> {
    "["@ + decimal(from as nat) + "] "@ + text
}

/// `d` hands `relay_line(from, text)` once to each client of `to` but `from`,
/// and to no one else.
pub open spec fn relayed(d: Seq<Delivery>, from: u64, to: Set<u64>, text: Seq<char>) -> bool {
    &&& targets(d).no_duplicates()
    &&& targets(d).to_set() == to.remove(from)
    &&& forall|i: int| 0 <= i < d.len() ==> (#[trigger] d[i]).line@ == relay_line(from, text)
}

/// Every room of `rooms` with `c` taken out.
fn rooms_without(rooms: &Vec<ChatRoom>, c: ClientId) -> (r: Vec<ChatRoom>)
    ensures
        r@.len() == rooms@.len(),
        forall|k: int|
            0 <= k < rooms@.len() ==> (#[trigger] r@[k]).id@ == rooms@[k].id@
                && r@[k].member_set() == rooms@[k].member_set().remove(c.0) && (rooms@[k].wf()
                ==> r@[k].wf()),
{
    let mut out: Vec<ChatRoom> = Vec::new();
    let mut i: usize = 0;
    while i < rooms.len()
        invariant
            0 <= i <= rooms@.len(),
            out@.len() == i,
            forall|k: int|
                0 <= k < i ==> (#[trigger] out@[k]).id@ == rooms@[k].id@ && out@[k].member_set()
                    == rooms@[k].member_set().remove(c.0) && (rooms@[k].wf() ==> out@[k].wf()),
        decreases rooms@.len() - i,
    {
        out.push(rooms[i].without(c));
        i += 1;
    }
    out
}

/// The registry: provisioned rooms, live sessions keyed by client id, and the
/// next id to hand out.
pub struct Server {
    pub rooms: Vec<ChatRoom>,
    pub clients: HashMap<u64, Client>,
    pub next_client_id: u64,
}

impl Server {
    pub open spec fn room_keys(&self) -> Seq<Seq<char>> {
        self.rooms@.map_values(|r: ChatRoom| r.id@)
    }

    pub open spec fn has_room(&self, r: Seq<char>) -> bool {
        self.room_keys().contains(r)
    }

    /// Position of room `r` in the room list.
    pub open spec fn room_pos(&self, r: Seq<char>) -> int {
        self.room_keys().index_of(r)
    }

    /// Members of room `r` (empty for a name that is not a room).
    pub open spec fn members(&self, r: Seq<char>) -> Set<u64> {
        if self.has_room(r) {
            self.rooms@[self.room_pos(r)].member_set()
        } else {
            Set::empty()
        }
    }

    /// Each room's name mapped to its members.
    pub open spec fn room_members(&self) -> Map<Seq<char>, Set<u64>> {
        Map::new(|r: Seq<char>| self.has_room(r), |r: Seq<char>| self.members(r))
    }

    /// Each live client mapped to the room it is in.
    pub open spec fn sessions(&self) -> Map<u64, Option<Seq<char>>> {
        self.clients@.map_values(|c: Client| c.room_view())
    }

    pub open spec fn rooms_wf(&self) -> bool {
        &&& self.room_keys().no_duplicates()
        &&& forall|i: int| 0 <= i < self.rooms@.len() ==> #[trigger] self.rooms@[i].wf()
    }

    /// The registry's invariant: room names are distinct, the lobby is one of
    /// them, ids are below the counter, and a session names room R exactly
    /// when R lists the client, so that no client is listed by two rooms.
    pub open spec fn wf(&self) -> bool {
        &&& self.rooms_wf()
        &&& self.has_room(lobby())
        &&& forall|c: u64| #[trigger]
            self.clients@.contains_key(c) ==> self.clients@[c].id.0 == c && c
                < self.next_client_id
        &&& forall|c: u64, r: Seq<char>|
            #[trigger] self.sessions().contains_key(c) && self.sessions()[c] == Some(r)
                ==> #[trigger] self.has_room(r) && self.members(r).contains(c)
        &&& forall|i: int, c: u64|
            0 <= i < self.rooms@.len() && #[trigger] self.rooms@[i].member_set().contains(c)
                ==> self.sessions().contains_key(c) && self.sessions()[c] == Some(
                self.room_keys()[i],
            )
    }

    /// A registry with the rooms "0" to "9", no clients, and ids starting at 0.
    pub fn new() -> (r: Self)
        ensures
            r.wf(),
            r.next_client_id == 0,
            r.sessions() == Map::<u64, Option<Seq<char>>>::empty(),
            r.rooms@.len() == ROOM_COUNT,
            forall|i: int| 0 <= i < ROOM_COUNT ==> #[trigger] r.room_keys()[i] == decimal(i as nat),
            forall|i: int| 0 <= i < ROOM_COUNT ==> #[trigger] r.rooms@[i].members@.len() == 0,
            r.has_room(lobby()),
    {
        let mut rooms: Vec<ChatRoom> = Vec::new();
        let mut i: u64 = 0;
        while i < ROOM_COUNT
            invariant
                0 <= i <= ROOM_COUNT,
                rooms@.len() == i,
                forall|k: int| 0 <= k < i ==> #[trigger] rooms@[k].id@ == decimal(k as nat),
                forall|k: int| 0 <= k < i ==> #[trigger] rooms@[k].members@.len() == 0,
            decreases ROOM_COUNT - i,
        {
            rooms.push(ChatRoom::new(u64_to_decimal(i)));
            i += 1;
        }
        let r = Server { rooms, clients: HashMap::new(), next_client_id: 0 };
        proof {
            assert forall|k: int| 0 <= k < ROOM_COUNT implies #[trigger] r.room_keys()[k] == decimal(
                k as nat,
            ) && r.rooms@[k].member_set() == Set::<u64>::empty() by {
                assert(r.rooms@[k].member_ids() =~= Seq::<u64>::empty());
                assert(r.rooms@[k].member_set() =~= Set::<u64>::empty());
            }
            assert forall|a: int, b: int|
                0 <= a < b < r.room_keys().len() implies r.room_keys()[a] != r.room_keys()[b] by {
                assert(r.room_keys()[a][0] != r.room_keys()[b][0]);
            }
            assert(r.room_keys()[0] == lobby());
            assert(r.sessions() =~= Map::<u64, Option<Seq<char>>>::empty());
        }
        r
    }

    /// Room `r` is at the position that names it.
    pub proof fn lemma_room_at(&self, i: int)
        requires
            self.room_keys().no_duplicates(),
            0 <= i < self.rooms@.len(),
        ensures
            self.has_room(self.room_keys()[i]),
            self.room_pos(self.room_keys()[i]) == i,
            self.members(self.room_keys()[i]) == self.rooms@[i].member_set(),
    {
        assert(self.room_keys()[i] == self.rooms@[i].id@);
        let k = self.room_keys()[i];
        assert(self.has_room(k));
        let p = self.room_pos(k);
        assert(self.room_keys()[p] == k);
    }

    /// Outcome of `add_client_to_room(c, r)`.
    pub open spec fn join_result(&self, c: u64, r: Seq<char>) -> Result<(), Errors> {
        if !self.has_room(r) {
            Err(Errors::RoomNotFound)
        } else if self.members(r).contains(c) {
            Err(Errors::ClientInRoom)
        } else if !self.clients@.contains_key(c) {
            Err(Errors::UnknownClient)
        } else if self.sessions()[c] is Some {
            Err(Errors::ClientInOtherRoom)
        } else {
            Ok(())
        }
    }

    /// `after` is `self` with client `c` entered into room `r`.
    pub open spec fn entered(&self, after: Server, c: u64, r: Seq<char>) -> bool {
        &&& after.sessions() == self.sessions().insert(c, Some(r))
        &&& after.room_members() == self.room_members().insert(r, self.members(r).insert(c))
        &&& after.room_keys() == self.room_keys()
        &&& after.next_client_id == self.next_client_id
    }

    /// Outcome of `remove_client_from_room(c, r)` and of a broadcast from `c`
    /// to `r`: the room must exist and list `c`.
    pub open spec fn member_check(&self, c: u64, r: Seq<char>) -> Result<(), Errors> {
        if !self.has_room(r) {
            Err(Errors::RoomNotFound)
        } else if !self.members(r).contains(c) {
            Err(Errors::ClientNotInRoom)
        } else {
            Ok(())
        }
    }

    /// `after` is `self` with client `c` gone out of room `r` and in no room.
    pub open spec fn exited(&self, after: Server, c: u64, r: Seq<char>) -> bool {
        &&& after.sessions() == self.sessions().insert(c, None)
        &&& after.room_members() == self.room_members().insert(r, self.members(r).remove(c))
        &&& after.room_keys() == self.room_keys()
        &&& after.next_client_id == self.next_client_id
    }

    /// The room view with `c` taken out of every room.
    pub open spec fn vacated(&self, c: u64) -> Map<Seq<char>, Set<u64>> {
        self.room_members().map_values(|m: Set<u64>| m.remove(c))
    }

    /// Under the invariant, a client that a room lists has a session naming
    /// that room.
    pub proof fn lemma_member_session(&self, i: int, c: u64)
        requires
            self.wf(),
            0 <= i < self.rooms@.len(),
            self.rooms@[i].member_set().contains(c),
        ensures
            self.sessions().contains_key(c),
            self.sessions()[c] == Some(self.room_keys()[i]),
    {
        assert(self.sessions().contains_key(c) || !self.sessions().contains_key(c));
    }

    /// Under the invariant, the room that a session names lists the client.
    pub proof fn lemma_session_member(&self, c: u64, r: Seq<char>)
        requires
            self.wf(),
            self.sessions().contains_key(c),
            self.sessions()[c] == Some(r),
        ensures
            self.has_room(r),
            self.members(r).contains(c),
    {
        assert(self.has_room(r) || !self.has_room(r));
    }

    /// Under the invariant, taking a client out of the one room it is in
    /// (or out of none) is taking it out of every room.
    pub proof fn lemma_vacate(&self, c: u64)
        requires
            self.wf(),
        ensures
            self.sessions().contains_key(c) && self.sessions()[c] is Some ==> self.room_members().insert(
                self.sessions()[c].unwrap(),
                self.members(self.sessions()[c].unwrap()).remove(c),
            ) == self.vacated(c),
            !(self.sessions().contains_key(c) && self.sessions()[c] is Some) ==> self.room_members()
                == self.vacated(c),
    {
        assert forall|r: Seq<char>| #[trigger] self.has_room(r) && !(self.sessions().contains_key(c)
            && self.sessions()[c] == Some(r)) implies !self.members(r).contains(c) by {
            if self.members(r).contains(c) {
                let q = self.room_pos(r);
                assert(0 <= q < self.rooms@.len() && self.room_keys()[q] == r);
                assert(self.rooms@[q].member_set().contains(c));
                self.lemma_member_session(q, c);
            }
        }
        assert forall|r: Seq<char>| #[trigger] self.has_room(r) implies self.vacated(c)[r]
            == self.members(r).remove(c) && (!(self.sessions().contains_key(c) && self.sessions()[c]
            == Some(r)) ==> self.vacated(c)[r] == self.members(r)) by {
            assert(self.room_members()[r] == self.members(r));
            if !(self.sessions().contains_key(c) && self.sessions()[c] == Some(r)) {
                assert(self.members(r).remove(c) =~= self.members(r));
            }
        }
        if self.sessions().contains_key(c) && self.sessions()[c] is Some {
            let r0 = self.sessions()[c].unwrap();
            assert(self.has_room(r0));
            assert(self.room_members().insert(r0, self.members(r0).remove(c)) =~= self.vacated(c));
        } else {
            assert(self.room_members() =~= self.vacated(c));
        }
    }

    /// `after` is `self` without client `c`: no session, and no room lists it.
    pub open spec fn dropped(&self, after: Server, c: u64) -> bool {
        &&& after.clients@ == self.clients@.remove(c)
        &&& after.room_keys() == self.room_keys()
        &&& after.room_members() == self.vacated(c)
        &&& after.next_client_id == self.next_client_id
    }

    /// Position of the room named `room_id`.
    pub fn find_room(&self, room_id: &RoomId) -> (r: Option<usize>)
        ensures
            match r {
                Some(i) => i < self.rooms@.len() && self.room_keys()[i as int] == room_id@ && (
                self.room_keys().no_duplicates() ==> i == self.room_pos(room_id@)),
                None => !self.has_room(room_id@),
            },
    {
        let mut i: usize = 0;
        while i < self.rooms.len()
            invariant
                0 <= i <= self.rooms@.len(),
                forall|j: int| 0 <= j < i ==> self.room_keys()[j] != room_id@,
            decreases self.rooms@.len() - i,
        {
            if self.rooms[i].id == *room_id {
                proof {
                    assert(self.room_keys()[i as int] == room_id@);
                    if self.room_keys().no_duplicates() {
                        self.lemma_room_at(i as int);
                    }
                }
                return Some(i);
            }
            i += 1;
        }
        None
    }

    /// Registers a new client in no room, with the next unused id. Fails only
    /// when the id space is used up.
    pub fn add_client(&mut self) -> (r: Option<ClientId>)
        requires
            old(self).wf(),
        ensures
            final(self).wf(),
            old(self).next_client_id == u64::MAX ==> r is None && *final(self) == *old(self),
            old(self).next_client_id < u64::MAX ==> {
                &&& r == Some(ClientId(old(self).next_client_id))
                &&& !old(self).clients@.contains_key(old(self).next_client_id)
                &&& final(self).next_client_id == old(self).next_client_id + 1
                &&& final(self).sessions() == old(self).sessions().insert(
                    old(self).next_client_id,
                    None,
                )
                &&& final(self).rooms@ == old(self).rooms@
                &&& final(self).room_members() == old(self).room_members()
            },
    {
        if self.next_client_id == u64::MAX {
            return None;
        }
        let id = ClientId(self.next_client_id);
        self.next_client_id = self.next_client_id + 1;
        self.clients.insert(id.0, Client { id, current_room: None });
        proof {
            assert(final(self).sessions() =~= old(self).sessions().insert(id.0, None));
            assert(final(self).room_members() =~= old(self).room_members());
            assert forall|i: int, c: u64|
                0 <= i < final(self).rooms@.len() && #[trigger] final(self).rooms@[i].member_set().contains(c)
                implies #[trigger] final(self).sessions().contains_key(c)
                && final(self).sessions()[c] == Some(final(self).room_keys()[i]) by {
                assert(old(self).sessions().contains_key(c));
                assert(c != id.0);
            }
            assert forall|c: u64, r: Seq<char>|
                #[trigger] final(self).sessions().contains_key(c) && final(self).sessions()[c] == Some(r)
                implies #[trigger] final(self).has_room(r) && final(self).members(r).contains(c) by {
                assert(c != id.0);
                assert(old(self).sessions().contains_key(c));
                assert(old(self).sessions()[c] == Some(r));
                assert(final(self).room_keys() == old(self).room_keys());
                assert(final(self).members(r) == old(self).members(r));
            }
        }
        Some(id)
    }

    /// The session of `client_id`, if it is live.
    pub fn get_client(&self, client_id: &ClientId) -> (r: Option<&Client>)
        ensures
            match r {
                Some(cl) => self.clients@.contains_key(client_id.0) && *cl
                    == self.clients@[client_id.0],
                None => !self.clients@.contains_key(client_id.0),
            },
    {
        self.clients.get(&client_id.0)
    }

    /// Changing only the room at position `p`, and not its name, changes only
    /// that room's entry in the view.
    pub proof fn lemma_one_room_changed(a: Server, b: Server, p: int)
        requires
            a.room_keys().no_duplicates(),
            0 <= p < a.rooms@.len(),
            b.rooms@.len() == a.rooms@.len(),
            forall|i: int| 0 <= i < a.rooms@.len() && i != p ==> b.rooms@[i] == a.rooms@[i],
            b.rooms@[p].id@ == a.rooms@[p].id@,
        ensures
            b.room_keys() == a.room_keys(),
            b.room_members() == a.room_members().insert(
                a.room_keys()[p],
                b.rooms@[p].member_set(),
            ),
    {
        assert forall|i: int| 0 <= i < a.rooms@.len() implies #[trigger] b.room_keys()[i]
            == a.room_keys()[i] by {
            if i != p {
                assert(b.rooms@[i] == a.rooms@[i]);
            }
        }
        assert(b.room_keys() =~= a.room_keys());
        a.lemma_room_at(p);
        b.lemma_room_at(p);
        assert forall|r: Seq<char>| #[trigger] b.room_members().contains_key(r)
            <==> a.room_members().insert(a.room_keys()[p], b.rooms@[p].member_set()).contains_key(r) by {
            if r == a.room_keys()[p] {
                assert(a.has_room(r));
            }
        }
        assert forall|r: Seq<char>| b.room_members().contains_key(r) implies #[trigger] b.room_members()[r]
            == a.room_members().insert(a.room_keys()[p], b.rooms@[p].member_set())[r] by {
            if r != a.room_keys()[p] {
                let q = a.room_pos(r);
                assert(a.room_keys()[q] == r);
                assert(q != p);
                assert(b.room_pos(r) == q);
            }
        }
        assert(b.room_members() =~= a.room_members().insert(
            a.room_keys()[p],
            b.rooms@[p].member_set(),
        ));
    }

    /// Puts `client_id` into room `room_id`. Refused, with nothing changed,
    /// when the room does not exist, already lists the client
    /// (`ClientInRoom`), the client is not registered, or the client is in
    /// another room (`ClientInOtherRoom`: a switch must leave first).
    pub fn add_client_to_room(&mut self, client_id: ClientId, room_id: &RoomId) -> (r: Result<
        (),
        Errors,
    >)
        requires
            old(self).wf(),
        ensures
            final(self).wf(),
            r == old(self).join_result(client_id.0, room_id@),
            r is Err ==> *final(self) == *old(self),
            r is Ok ==> old(self).entered(*final(self), client_id.0, room_id@),
    {
        let p = match self.find_room(room_id) {
            None => return Err(Errors::RoomNotFound),
            Some(p) => p,
        };
        proof {
            self.lemma_room_at(p as int);
        }
        if self.rooms[p].contains(client_id) {
            return Err(Errors::ClientInRoom);
        }
        match self.clients.get(&client_id.0) {
            None => return Err(Errors::UnknownClient),
            Some(cl) => {
                if cl.current_room.is_some() {
                    return Err(Errors::ClientInOtherRoom);
                }
            },
        }
        let ghost a = *self;
        let ghost c = client_id.0;
        proof {
            assert forall|i: int| 0 <= i < a.rooms@.len() implies !(
            #[trigger] a.rooms@[i].member_set()).contains(c) by {
                if a.rooms@[i].member_set().contains(c) {
                    assert(a.sessions().contains_key(c));
                }
            }
            assert(!a.rooms@[p as int].member_set().contains(c));
            assert(!a.rooms@[p as int].member_ids().contains(c));
        }
        self.rooms[p].members.push(client_id);
        self.clients.insert(client_id.0, Client { id: client_id, current_room: Some(room_id.copy()) });
        proof {
            let b = *final(self);
            let old_ids = a.rooms@[p as int].member_ids();
            let new_ids = b.rooms@[p as int].member_ids();
            assert(new_ids =~= old_ids.push(c));
            assert forall|x: u64| #[trigger] new_ids.contains(x) <==> old_ids.contains(x) || x == c by {
                if new_ids.contains(x) {
                    let k = new_ids.index_of(x);
                    if k < old_ids.len() {
                        assert(old_ids[k] == x);
                    }
                }
                if old_ids.contains(x) {
                    let k = old_ids.index_of(x);
                    assert(new_ids[k] == x);
                }
                if x == c {
                    assert(new_ids[old_ids.len() as int] == x);
                }
            }
            assert(b.rooms@[p as int].member_set() =~= a.rooms@[p as int].member_set().insert(c));
            Server::lemma_one_room_changed(a, b, p as int);
            a.lemma_room_at(p as int);
            assert(b.sessions() =~= a.sessions().insert(c, Some(room_id@)));
            assert(b.rooms_wf()) by {
                assert forall|i: int| 0 <= i < b.rooms@.len() implies #[trigger] b.rooms@[i].wf() by {
                    if i == p {
                        assert forall|x: int, y: int|
                            0 <= x < y < old_ids.len() + 1 implies b.rooms@[i].member_ids()[x]
                            != b.rooms@[i].member_ids()[y] by {
                            if y == old_ids.len() {
                                assert(old_ids[x] == b.rooms@[i].member_ids()[x]);
                            } else {
                                assert(a.rooms@[i].wf());
                            }
                        }
                    } else {
                        assert(a.rooms@[i].wf());
                    }
                }
            }
            assert forall|i: int, x: u64|
                0 <= i < b.rooms@.len() && #[trigger] b.rooms@[i].member_set().contains(x) implies
                #[trigger] b.sessions().contains_key(x) && b.sessions()[x] == Some(b.room_keys()[i]) by {
                if i != p || x != c {
                    assert(a.rooms@[i].member_set().contains(x));
                    assert(a.sessions().contains_key(x));
                    assert(x != c);
                }
            }
            assert forall|x: u64, r: Seq<char>|
                #[trigger] b.sessions().contains_key(x) && b.sessions()[x] == Some(r) implies
                #[trigger] b.has_room(r) && b.members(r).contains(x) by {
                if x != c {
                    assert(a.sessions()[x] == Some(r));
                    assert(a.has_room(r) && a.members(r).contains(x));
                    assert(b.room_members()[r] == b.members(r));
                    assert(a.room_members()[r] == a.members(r));
                }
                else {
                    assert(b.room_members()[r] == b.members(r));
                }
            }
        }
        Ok(())
    }

    /// Takes `client_id` out of room `room_id`, leaving it in no room.
    /// Refused, with nothing changed, when the room does not exist or does
    /// not list the client.
    pub fn remove_client_from_room(&mut self, client_id: ClientId, room_id: &RoomId) -> (r: Result<
        (),
        Errors,
    >)
        requires
            old(self).wf(),
        ensures
            final(self).wf(),
            r == old(self).member_check(client_id.0, room_id@),
            r is Err ==> *final(self) == *old(self),
            r is Ok ==> old(self).exited(*final(self), client_id.0, room_id@),
    {
        let p = match self.find_room(room_id) {
            None => return Err(Errors::RoomNotFound),
            Some(p) => p,
        };
        proof {
            self.lemma_room_at(p as int);
        }
        if !self.rooms[p].contains(client_id) {
            return Err(Errors::ClientNotInRoom);
        }
        let ghost a = *self;
        let ghost c = client_id.0;
        proof {
            assert(a.sessions().contains_key(c));
            assert(a.rooms@[p as int].wf());
        }
        let room = self.rooms[p].without(client_id);
        self.rooms[p] = room;
        self.clients.insert(client_id.0, Client { id: client_id, current_room: None });
        proof {
            let b = *final(self);
            Server::lemma_one_room_changed(a, b, p as int);
            assert(b.sessions() =~= a.sessions().insert(c, None));
            assert forall|i: int| 0 <= i < b.rooms@.len() implies #[trigger] b.rooms@[i].wf() by {
                assert(a.rooms@[i].wf());
            }
            assert forall|i: int, x: u64|
                0 <= i < b.rooms@.len() && #[trigger] b.rooms@[i].member_set().contains(x) implies
                #[trigger] b.sessions().contains_key(x) && b.sessions()[x] == Some(b.room_keys()[i]) by {
                assert(a.rooms@[i].member_set().contains(x));
                assert(x != c);
            }
            assert forall|x: u64, r: Seq<char>|
                #[trigger] b.sessions().contains_key(x) && b.sessions()[x] == Some(r) implies
                #[trigger] b.has_room(r) && b.members(r).contains(x) by {
                assert(x != c);
                assert(a.sessions()[x] == Some(r));
                assert(a.has_room(r) && a.members(r).contains(x));
                assert(b.room_members()[r] == b.members(r));
                assert(a.room_members()[r] == a.members(r));
                if r == room_id@ {
                    assert(a.sessions()[x] == Some(a.room_keys()[p as int]));
                }
            }
        }
        Ok(())
    }

    /// Removes `client_id` entirely: its session goes, and every room drops
    /// it, whether or not the room agreed with the session. Removing an absent
    /// id changes nothing.
    pub fn remove_client(&mut self, client_id: ClientId)
        ensures
            old(self).dropped(*final(self), client_id.0),
            forall|i: int|
                0 <= i < final(self).rooms@.len() ==> !(#[trigger] final(self).rooms@[i].member_set()).contains(
                    client_id.0,
                ),
            old(self).wf() ==> final(self).wf(),
    {
        let ghost a = *self;
        let ghost c = client_id.0;
        let rooms = rooms_without(&self.rooms, client_id);
        self.rooms = rooms;
        self.clients.remove(&client_id.0);
        proof {
            let b = *final(self);
            assert forall|i: int| 0 <= i < a.rooms@.len() implies #[trigger] b.room_keys()[i]
                == a.room_keys()[i] by {
                assert(b.rooms@[i].id@ == a.rooms@[i].id@);
            }
            assert(b.room_keys() =~= a.room_keys());
            let want = a.room_members().map_values(|m: Set<u64>| m.remove(c));
            assert forall|r: Seq<char>| #[trigger] b.room_members().contains_key(r) <==> want.contains_key(r) by {}
            assert forall|r: Seq<char>| b.room_members().contains_key(r) implies #[trigger] b.room_members()[r]
                == want[r] by {
                let q = a.room_pos(r);
                assert(b.room_pos(r) == q);
                assert(a.room_keys()[q] == r);
            }
            assert(b.room_members() =~= want);
            assert(b.sessions() =~= a.sessions().remove(c));
            assert forall|i: int| 0 <= i < b.rooms@.len() implies !(#[trigger] b.rooms@[i].member_set()).contains(c) by {
                assert(b.rooms@[i].member_set() == a.rooms@[i].member_set().remove(c));
            }
            if a.wf() {
                assert forall|i: int| 0 <= i < b.rooms@.len() implies #[trigger] b.rooms@[i].wf() by {
                    assert(a.rooms@[i].wf());
                }
                assert forall|i: int, x: u64|
                    0 <= i < b.rooms@.len() && #[trigger] b.rooms@[i].member_set().contains(x) implies
                    #[trigger] b.sessions().contains_key(x) && b.sessions()[x] == Some(b.room_keys()[i]) by {
                    assert(b.rooms@[i].member_set() == a.rooms@[i].member_set().remove(c));
                    assert(a.rooms@[i].member_set().contains(x));
                    assert(a.sessions().contains_key(x) || !a.sessions().contains_key(x));
                    assert(a.sessions()[x] == Some(a.room_keys()[i]));
                }
                assert forall|x: u64, r: Seq<char>|
                    #[trigger] b.sessions().contains_key(x) && b.sessions()[x] == Some(r) implies
                    #[trigger] b.has_room(r) && b.members(r).contains(x) by {
                    assert(a.sessions()[x] == Some(r));
                    assert(a.has_room(r) && a.members(r).contains(x));
                    assert(b.room_members()[r] == want[r]);
                    assert(a.room_members()[r] == a.members(r));
                }
            }
        }
    }

    /// Relays `message` from `from` to the other members of `room_id`: one
    /// delivery of `[<from>] <message>` for each. Refused when the room does
    /// not exist or `from` is not in it.
    pub fn send_room_message(&self, from: ClientId, room_id: &RoomId, message: &str) -> (r: Result<
        Vec<Delivery>,
        Errors,
    >)
        requires
            self.wf(),
        ensures
            match r {
                Ok(d) => self.member_check(from.0, room_id@) is Ok && relayed(
                    d@,
                    from.0,
                    self.members(room_id@),
                    message@,
                ),
                Err(e) => self.member_check(from.0, room_id@) == Err::<(), Errors>(e),
            },
    {
        let p = match self.find_room(room_id) {
            None => return Err(Errors::RoomNotFound),
            Some(p) => p,
        };
        proof {
            self.lemma_room_at(p as int);
        }
        if !self.rooms[p].contains(from) {
            return Err(Errors::ClientNotInRoom);
        }
        let mut line = <String as StringExecFns>::from_str("[");
        let num = u64_to_decimal(from.0);
        line.append(num.as_str());
        line.append("] ");
        line.append(message);
        let others = self.rooms[p].without(from);
        proof {
            assert(self.rooms@[p as int].wf());
        }
        let mut out: Vec<Delivery> = Vec::new();
        let mut i: usize = 0;
        while i < others.members.len()
            invariant
                0 <= i <= others.members@.len(),
                out@.len() == i,
                line@ == relay_line(from.0, message@),
                forall|k: int| 0 <= k < i ==> (#[trigger] out@[k]).to == others.members@[k],
                forall|k: int| 0 <= k < i ==> (#[trigger] out@[k]).line@ == line@,
            decreases others.members@.len() - i,
        {
            out.push(Delivery { to: others.members[i], line: line.clone() });
            i += 1;
        }
        proof {
            assert(targets(out@) =~= others.member_ids());
        }
        Ok(out)
    }

    /// The names of the provisioned rooms.
    pub fn list_rooms(&self) -> (r: Vec<RoomId>)
        ensures
            r@.map_values(|x: RoomId| x@) == self.room_keys(),
    {
        let mut out: Vec<RoomId> = Vec::new();
        let mut i: usize = 0;
        while i < self.rooms.len()
            invariant
                0 <= i <= self.rooms@.len(),
                out@.len() == i,
                out@.map_values(|x: RoomId| x@) == self.room_keys().subrange(0, i as int),
            decreases self.rooms@.len() - i,
        {
            let ghost prev = out@;
            let id = self.rooms[i].id.copy();
            out.push(id);
            proof {
                assert(out@ == prev.push(id));
                assert(id@ == self.room_keys()[i as int]);
                let v = out@.map_values(|x: RoomId| x@);
                assert forall|k: int| 0 <= k <= i implies #[trigger] v[k]
                    == self.room_keys().subrange(0, i + 1)[k] by {
                    if k < i {
                        assert(prev.map_values(|x: RoomId| x@)[k] == self.room_keys().subrange(
                            0,
                            i as int,
                        )[k]);
                    }
                }
                assert(out@.map_values(|x: RoomId| x@) =~= self.room_keys().subrange(0, i + 1));
            }
            i += 1;
        }
        proof {
            assert(self.room_keys().subrange(0, i as int) =~= self.room_keys());
        }
        out
    }
}

} // verus!
