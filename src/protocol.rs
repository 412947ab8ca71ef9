use vstd::prelude::*;
use vstd::string::{StrSliceExecFns, StringExecFns};

use crate::registry::{
    lobby, relayed, ClientId, Delivery, Errors, RoomId, Server,
};
use crate::text::{all_digits, decimal, digits_value, parse_decimal, u64_to_decimal};

verus! {

/// `s` begins with `p`.
pub open spec fn starts_with(s: Seq<char>, p: Seq<char>) -> bool {
    p.len() <= s.len() && s.subrange(0, p.len() as int) == p
}

/// Whether `s` begins with `p`.
pub fn has_prefix(s: &str, p: &str) -> (r: bool)
    ensures
        r == starts_with(s@, p@),
{
    let n = s.unicode_len();
    let m = p.unicode_len();
    if m > n {
        return false;
    }
    let mut i: usize = 0;
    while i < m
        invariant
            m == p@.len(),
            n == s@.len(),
            m <= n,
            0 <= i <= m,
            forall|k: int| 0 <= k < i ==> s@[k] == p@[k],
        decreases m - i,
    {
        if s.get_char(i) != p.get_char(i) {
            assert(s@.subrange(0, m as int)[i as int] != p@[i as int]);
            return false;
        }
        i += 1;
    }
    assert(s@.subrange(0, m as int) =~= p@);
    true
}

/// Whether `s` and `p` are the same text.
pub fn same_text(s: &str, p: &str) -> (r: bool)
    ensures
        r == (s@ == p@),
{
    proof {
        if s@ == p@ {
            assert(s@.subrange(0, p@.len() as int) =~= s@);
        }
    }
    let eq = s.unicode_len() == p.unicode_len() && has_prefix(s, p);
    proof {
        if eq {
            assert(s@ =~= s@.subrange(0, p@.len() as int));
        }
    }
    eq
}

/// One line from a client, read as a command.
pub enum Command {
    Quit,
    Join(String),
    Leave,
    Help,
    Chat(String),
}

/// Reads a line (without its terminator) as a command. The forms are tried
/// in order: `/quit`, `/join <room>`, `/leave`, `/help`; anything else is chat.
pub fn parse_command(msg: &str) -> (r: Command)
    ensures
        match r {
            Command::Quit => msg@ == "/quit"@,
            Command::Join(room) => msg@ != "/quit"@ && starts_with(msg@, "/join "@) && room@
                == msg@.skip("/join "@.len() as int),
            Command::Leave => msg@ != "/quit"@ && !starts_with(msg@, "/join "@) && msg@
                == "/leave"@,
            Command::Help => msg@ != "/quit"@ && !starts_with(msg@, "/join "@) && msg@
                != "/leave"@ && msg@ == "/help"@,
            Command::Chat(t) => msg@ != "/quit"@ && !starts_with(msg@, "/join "@) && msg@
                != "/leave"@ && msg@ != "/help"@ && t@ == msg@,
        },
{
    if same_text(msg, "/quit") {
        Command::Quit
    } else if has_prefix(msg, "/join ") {
        let from = "/join ".unicode_len();
        let to = msg.unicode_len();
        let room = msg.substring_char(from, to);
        proof {
            assert(msg@.subrange(from as int, to as int) =~= msg@.skip(from as int));
        }
        Command::Join(<String as StringExecFns>::from_str(room))
    } else if same_text(msg, "/leave") {
        Command::Leave
    } else if same_text(msg, "/help") {
        Command::Help
    } else {
        Command::Chat(<String as StringExecFns>::from_str(msg))
    }
}

/// `raw` without its line terminator: a final `"\n"` or `"\r\n"`.
pub open spec fn without_terminator(raw: Seq<char>) -> Seq<char> {
    if raw.len() >= 2 && raw[raw.len() - 2] == '\r' && raw[raw.len() - 1] == '\n' {
        raw.subrange(0, raw.len() - 2)
    } else if raw.len() >= 1 && raw[raw.len() - 1] == '\n' {
        raw.subrange(0, raw.len() - 1)
    } else {
        raw
    }
}

/// Strips the line terminator from a line as read from the peer.
pub fn strip_terminator(raw: &str) -> (r: String)
    ensures
        r@ == without_terminator(raw@),
{
    let n = raw.unicode_len();
    let mut end = n;
    if n >= 1 && raw.get_char(n - 1) == '\n' {
        end = n - 1;
        if n >= 2 && raw.get_char(n - 2) == '\r' {
            end = n - 2;
        }
    }
    let r = <String as StringExecFns>::from_str(raw.substring_char(0, end));
    proof {
        if end == n {
            assert(raw@.subrange(0, n as int) =~= raw@);
        }
    }
    r
}

/// The identity announcement, sent before any other line: `CLIENT_ID:<id>`.
pub open spec fn id_announcement(id: u64) -> Seq<char> {
    "CLIENT_ID:"@ + decimal(id as nat)
}

pub fn client_id_line(id: ClientId) -> (r: String)
    ensures
        r@ == id_announcement(id.0),
{
    let mut line = <String as StringExecFns>::from_str("CLIENT_ID:");
    let num = u64_to_decimal(id.0);
    line.append(num.as_str());
    line
}

/// Reads the identity announcement (without its terminator): `CLIENT_ID:`
/// followed by the id in decimal. `None` for any other line.
pub fn parse_client_id(line: &str) -> (r: Option<ClientId>)
    ensures
        match r {
            Some(id) => starts_with(line@, "CLIENT_ID:"@) && {
                let rest = line@.skip("CLIENT_ID:"@.len() as int);
                rest.len() > 0 && all_digits(rest) && id.0 as nat == digits_value(rest)
            },
            None => !(starts_with(line@, "CLIENT_ID:"@) && {
                let rest = line@.skip("CLIENT_ID:"@.len() as int);
                rest.len() > 0 && all_digits(rest) && digits_value(rest) <= u64::MAX
            }),
        },
{
    if !has_prefix(line, "CLIENT_ID:") {
        return None;
    }
    let from = "CLIENT_ID:".unicode_len();
    let to = line.unicode_len();
    let rest = line.substring_char(from, to);
    proof {
        assert(line@.subrange(from as int, to as int) =~= line@.skip(from as int));
    }
    match parse_decimal(rest) {
        Some(v) => Some(ClientId(v)),
        None => None,
    }
}

pub open spec fn goodbye() -> Seq<char> {
    "Goodbye!"@
}

pub open spec fn joined_reply(room: Seq<char>) -> Seq<char> {
    "You joined room '"@ + room + "'"@
}

pub open spec fn join_failed_reply(e: Errors) -> Seq<char> {
    "Failed to join room: "@ + e.name_spec()
}

pub open spec fn left_reply(room: Seq<char>) -> Seq<char> {
    "You left room "@ + room
}

pub open spec fn lobby_reply() -> Seq<char> {
    "You joined the lobby"@
}

pub open spec fn no_room_reply() -> Seq<char> {
    "You're not in any room"@
}

pub open spec fn help_reply() -> Seq<char> {
    "Commands: /join 1-10 (Joins a room), /leave (Leaves the current room), /quit (quits the program), /help (Lists the commands)"@
}

pub open spec fn lobby_hint() -> Seq<char> {
    "You are in the lobby. Use '/help' for commands or '/join 1-10' to join a room"@
}

pub open spec fn no_room_hint() -> Seq<char> {
    "You're not in any room. Use '/help' for a list of commands"@
}

pub open spec fn id_reply(id: u64) -> Seq<char> {
    "Your client ID is "@ + decimal(id as nat)
}

pub open spec fn welcome_reply() -> Seq<char> {
    "Welcome to the lobby! Use '/help' for commands"@
}

/// `d` holds exactly the lines `texts`, in order, all for client `c`.
pub open spec fn replies(d: Seq<Delivery>, c: u64, texts: Seq<Seq<char>>) -> bool {
    &&& d.len() == texts.len()
    &&& forall|i: int| 0 <= i < d.len() ==> (#[trigger] d[i]).to.0 == c && d[i].line@ == texts[i]
}

/// What a line from a client produced: the lines to hand to outbound queues,
/// and whether the connection stays open.
pub struct Outcome {
    pub deliveries: Vec<Delivery>,
    pub keep_going: bool,
}

fn reply_to(c: ClientId, text: String) -> (r: Vec<Delivery>)
    ensures
        replies(r@, c.0, seq![text@]),
{
    let mut d: Vec<Delivery> = Vec::new();
    d.push(Delivery { to: c, line: text });
    d
}

fn text_of(s: &str) -> (r: String)
    ensures
        r@ == s@,
{
    <String as StringExecFns>::from_str(s)
}

fn lobby_id() -> (r: RoomId)
    ensures
        r@ == lobby(),
{
    let r = RoomId::from_str("0");
    proof {
        reveal_strlit("0");
    }
    r
}

/// `after` is `before` with client `c` taken out of its room and put into
/// `room`, or into no room when `room` is not one of the rooms.
pub open spec fn relocated(before: Server, after: Server, c: u64, room: Seq<char>) -> bool {
    let w = before.vacated(c);
    &&& after.sessions() == before.sessions().insert(
        c,
        if before.has_room(room) {
            Some(room)
        } else {
            None
        },
    )
    &&& after.room_members() == if before.has_room(room) {
        w.insert(room, w[room].insert(c))
    } else {
        w
    }
    &&& after.room_keys() == before.room_keys()
    &&& after.next_client_id == before.next_client_id
}

/// What `handle_client_message` does with line `msg` from client `c`, in
/// registry `before`: the registry it leaves, the deliveries, and whether
/// the connection stays open.
pub open spec fn dispatched(
    before: Server,
    after: Server,
    c: u64,
    msg: Seq<char>,
    d: Seq<Delivery>,
    keep: bool,
) -> bool {
    if msg.len() == 0 {
        after == before && d.len() == 0 && keep
    } else if !before.clients@.contains_key(c) {
        after == before && d.len() == 0 && keep == (msg != "/quit"@)
    } else if msg == "/quit"@ {
        after == before && replies(d, c, seq![goodbye()]) && !keep
    } else if starts_with(msg, "/join "@) {
        let room = msg.skip("/join "@.len() as int);
        &&& keep
        &&& relocated(before, after, c, room)
        &&& replies(
            d,
            c,
            seq![
                if before.has_room(room) {
                    joined_reply(room)
                } else {
                    join_failed_reply(Errors::RoomNotFound)
                },
            ],
        )
    } else if msg == "/leave"@ {
        &&& keep
        &&& match before.sessions()[c] {
            None => after == before && replies(d, c, seq![no_room_reply()]),
            Some(r) => relocated(before, after, c, lobby()) && replies(
                d,
                c,
                seq![left_reply(r), lobby_reply()],
            ),
        }
    } else if msg == "/help"@ {
        keep && after == before && replies(d, c, seq![help_reply()])
    } else {
        &&& keep
        &&& after == before
        &&& match before.sessions()[c] {
            Some(r) => if r == lobby() {
                replies(d, c, seq![lobby_hint()])
            } else {
                relayed(d, c, before.members(r), msg)
            },
            None => replies(d, c, seq![no_room_hint()]),
        }
    }
}

/// Takes client `c` out of its current room, if any, and into `target`.
fn relocate(server: &mut Server, c: ClientId, current: Option<RoomId>, target: &RoomId) -> (r:
    Result<(), Errors>)
    requires
        old(server).wf(),
        old(server).clients@.contains_key(c.0),
        old(server).sessions()[c.0] == match current {
            Some(x) => Some(x@),
            None => None::<Seq<char>>,
        },
    ensures
        final(server).wf(),
        relocated(*old(server), *final(server), c.0, target@),
        r is Ok <==> old(server).has_room(target@),
        r is Err ==> r == Err::<(), Errors>(Errors::RoomNotFound),
{
    let ghost a = *server;
    proof {
        a.lemma_vacate(c.0);
    }
    if let Some(cur) = current {
        let left = server.remove_client_from_room(c, &cur);
        proof {
            assert(a.sessions()[c.0] == Some(cur@));
            assert(left is Ok);
        }
    }
    let ghost m = *server;
    proof {
        assert(m.sessions() =~= a.sessions().insert(c.0, None));
        assert(m.room_members() =~= a.vacated(c.0));
    }
    let r = server.add_client_to_room(c, target);
    proof {
        let b = *final(server);
        assert(m.has_room(target@) == a.has_room(target@));
        if a.has_room(target@) {
            assert(b.sessions() =~= a.sessions().insert(c.0, Some(target@)));
            assert(m.room_members()[target@] == m.members(target@));
        }
    }
    r
}

/// Reply lines that name a room or an error.
fn joined_text(room: &RoomId) -> (r: String)
    ensures
        r@ == joined_reply(room@),
{
    let mut t = text_of("You joined room '");
    t.append(room.0.as_str());
    t.append("'");
    t
}

fn join_failed_text(e: Errors) -> (r: String)
    ensures
        r@ == join_failed_reply(e),
{
    let mut t = text_of("Failed to join room: ");
    let name = e.name();
    t.append(name.as_str());
    t
}

fn left_text(room: &RoomId) -> (r: String)
    ensures
        r@ == left_reply(room@),
{
    let mut t = text_of("You left room ");
    t.append(room.0.as_str());
    t
}

/// Acts on one line from client `client_id`: runs the command it names
/// against the registry and returns the lines to deliver. Lines from a client
/// that is no longer registered are dropped.
pub fn handle_client_message(server: &mut Server, client_id: ClientId, msg: &str) -> (r: Outcome)
    requires
        old(server).wf(),
    ensures
        final(server).wf(),
        dispatched(
            *old(server),
            *final(server),
            client_id.0,
            msg@,
            r.deliveries@,
            r.keep_going,
        ),
{
    let c = client_id;
    if msg.unicode_len() == 0 {
        return Outcome { deliveries: Vec::new(), keep_going: true };
    }
    let current: Option<RoomId> = match server.get_client(&c) {
        None => {
            let quit = same_text(msg, "/quit");
            return Outcome { deliveries: Vec::new(), keep_going: !quit };
        },
        Some(cl) => match &cl.current_room {
            Some(x) => Some(x.copy()),
            None => None,
        },
    };
    let ghost a = *server;
    proof {
        assert(a.sessions()[c.0] == a.clients@[c.0].room_view());
    }
    match parse_command(msg) {
        Command::Quit => Outcome { deliveries: reply_to(c, text_of("Goodbye!")), keep_going: false },
        Command::Join(room) => {
            let target = RoomId(room);
            let text = match relocate(server, c, current, &target) {
                Ok(()) => joined_text(&target),
                Err(e) => join_failed_text(e),
            };
            Outcome { deliveries: reply_to(c, text), keep_going: true }
        },
        Command::Leave => match current {
            None => Outcome { deliveries: reply_to(c, text_of("You're not in any room")), keep_going: true },
            Some(cur) => {
                let mut d = reply_to(c, left_text(&cur));
                let home = lobby_id();
                let ghost r0 = cur@;
                let moved = relocate(server, c, Some(cur), &home);
                if moved.is_ok() {
                    d.push(Delivery { to: c, line: text_of("You joined the lobby") });
                    proof {
                        assert(replies(d@, c.0, seq![left_reply(r0), lobby_reply()]));
                    }
                }
                Outcome { deliveries: d, keep_going: true }
            },
        },
        Command::Help => Outcome {
            deliveries: reply_to(
                c,
                text_of(
                    "Commands: /join 1-10 (Joins a room), /leave (Leaves the current room), /quit (quits the program), /help (Lists the commands)",
                ),
            ),
            keep_going: true,
        },
        Command::Chat(_) => {
            let d = match current {
                None => reply_to(c, text_of("You're not in any room. Use '/help' for a list of commands")),
                Some(cur) => {
                    if cur == lobby_id() {
                        reply_to(
                            c,
                            text_of(
                                "You are in the lobby. Use '/help' for commands or '/join 1-10' to join a room",
                            ),
                        )
                    } else {
                        proof {
                            a.lemma_session_member(c.0, cur@);
                        }
                        match server.send_room_message(c, &cur, msg) {
                            Ok(d) => d,
                            Err(_) => Vec::new(),
                        }
                    }
                },
            };
            Outcome { deliveries: d, keep_going: true }
        },
    }
}

/// Registers a newly connected client and puts it into the lobby. Returns
/// its id and the lines for its queue, or `None` when the id space is used up.
pub fn register_client(server: &mut Server) -> (r: Option<(ClientId, Vec<Delivery>)>)
    requires
        old(server).wf(),
    ensures
        final(server).wf(),
        old(server).next_client_id == u64::MAX ==> r is None && *final(server) == *old(server),
        old(server).next_client_id < u64::MAX ==> (r matches Some((id, d)) && {
            let a = *old(server);
            let b = *final(server);
            let n = a.next_client_id;
            &&& id == ClientId(n)
            &&& !a.clients@.contains_key(n)
            &&& b.next_client_id == n + 1
            &&& b.room_keys() == a.room_keys()
            &&& b.sessions() == a.sessions().insert(n, Some(lobby()))
            &&& b.room_members() == a.room_members().insert(
                lobby(),
                a.members(lobby()).insert(n),
            )
            &&& replies(d@, n, seq![id_reply(n), welcome_reply()])
        }),
{
    let id = match server.add_client() {
        None => return None,
        Some(id) => id,
    };
    let ghost m = *server;
    let mut first = text_of("Your client ID is ");
    let num = u64_to_decimal(id.0);
    first.append(num.as_str());
    let mut d = reply_to(id, first);
    let home = lobby_id();
    let joined = server.add_client_to_room(id, &home);
    if joined.is_ok() {
        d.push(Delivery { to: id, line: text_of("Welcome to the lobby! Use '/help' for commands") });
    }
    proof {
        let b = *final(server);
        assert(m.sessions().contains_key(id.0));
        assert(m.sessions()[id.0] == None::<Seq<char>>);
        assert(m.sessions().dom() == m.clients@.dom());
        assert(m.clients@.contains_key(id.0));
        if m.members(lobby()).contains(id.0) {
            let q = m.room_pos(lobby());
            assert(0 <= q < m.rooms@.len() && m.room_keys()[q] == lobby());
            m.lemma_member_session(q, id.0);
        }
        assert(joined is Ok);
        assert(b.sessions() =~= old(server).sessions().insert(id.0, Some(lobby())));
    }
    Some((id, d))
}

} // verus!
