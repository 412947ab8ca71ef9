use vstd::prelude::*;

use crate::protocol::{id_announcement, starts_with};
use crate::registry::{relayed, targets, ClientId, Delivery, Errors, Server};
use crate::text::{all_digits, decimal, digits_value, lemma_decimal_reads_back};

verus! {

broadcast use vstd::seq_lib::seq_to_set_is_finite;

/// `id` was handed out by `add_client` in `before`, which left `after`.
pub open spec fn allocated(before: Server, after: Server, id: ClientId) -> bool {
    &&& id.0 == before.next_client_id
    &&& after.next_client_id == before.next_client_id + 1
}

/// Ids are never handed out twice: an allocation returns the counter and
/// advances it, and no later operation moves it back, so a second allocation
/// made at or after the first one's end returns a different id.
pub proof fn law_ids_unique(
    s0: Server,
    s1: Server,
    s2: Server,
    s3: Server,
    a: ClientId,
    b: ClientId,
)
    requires
        allocated(s0, s1, a),
        s1.next_client_id <= s2.next_client_id,
        allocated(s2, s3, b),
    ensures
        a != b,
{
}

/// In a registry that keeps its invariant, a session names room R exactly
/// when R lists the client, and no client is listed by two rooms.
pub proof fn law_mirrored_membership(s: Server, c: u64, r: Seq<char>, other: Seq<char>)
    requires
        s.wf(),
    ensures
        (s.sessions().contains_key(c) && s.sessions()[c] == Some(r)) <==> (s.has_room(r)
            && s.members(r).contains(c)),
        other != r && s.members(r).contains(c) ==> !s.members(other).contains(c),
{
    if s.sessions().contains_key(c) && s.sessions()[c] == Some(r) {
        s.lemma_session_member(c, r);
    }
    if s.has_room(r) && s.members(r).contains(c) {
        lemma_listed_session(s, c, r);
    }
    if other != r && s.members(r).contains(c) && s.members(other).contains(c) {
        lemma_listed_session(s, c, r);
        lemma_listed_session(s, c, other);
    }
}

/// A client that room `r` lists has a session naming `r`.
proof fn lemma_listed_session(s: Server, c: u64, r: Seq<char>)
    requires
        s.wf(),
        s.members(r).contains(c),
    ensures
        s.has_room(r),
        s.sessions().contains_key(c),
        s.sessions()[c] == Some(r),
{
    let q = s.room_pos(r);
    assert(0 <= q < s.rooms@.len() && s.room_keys()[q] == r);
    s.lemma_member_session(q, c);
}

/// Joining room `r` and then leaving it brings the registry back to where it
/// was: the client is in no room and `r` no longer lists it. The leave
/// succeeds, and a second leave is refused with `ClientNotInRoom`.
pub proof fn law_join_leave_round_trip(s0: Server, s1: Server, s2: Server, c: u64, r: Seq<char>)
    requires
        s0.wf(),
        s0.join_result(c, r) is Ok,
        s0.entered(s1, c, r),
        s1.exited(s2, c, r),
    ensures
        s1.member_check(c, r) is Ok,
        s2.sessions()[c] == None::<Seq<char>>,
        !s2.members(r).contains(c),
        s2.sessions() == s0.sessions(),
        s2.room_members() == s0.room_members(),
        s2.member_check(c, r) == Err::<(), Errors>(Errors::ClientNotInRoom),
{
    assert(s0.sessions().contains_key(c));
    if s0.members(r).contains(c) {
        lemma_listed_session(s0, c, r);
    }
    assert(s1.room_members()[r] == s1.members(r));
    assert(s1.members(r) == s0.members(r).insert(c));
    assert(s2.sessions() =~= s0.sessions());
    assert(s0.members(r).insert(c).remove(c) =~= s0.members(r));
    assert(s2.room_members() =~= s0.room_members());
    assert(s2.room_members()[r] == s2.members(r));
}

/// Joining the same room twice in a row is refused the second time with
/// `ClientInRoom`, and the room gains exactly one member.
pub proof fn law_double_join(s0: Server, s1: Server, c: u64, r: Seq<char>)
    requires
        s0.wf(),
        s0.join_result(c, r) is Ok,
        s0.entered(s1, c, r),
    ensures
        s1.join_result(c, r) == Err::<(), Errors>(Errors::ClientInRoom),
        s1.members(r).len() == s0.members(r).len() + 1,
{
    assert(s0.sessions().contains_key(c));
    if s0.members(r).contains(c) {
        lemma_listed_session(s0, c, r);
    }
    assert(s1.sessions().contains_key(c));
    assert(s1.room_keys() == s0.room_keys());
    assert(s1.room_members()[r] == s1.members(r));
    assert(s1.members(r) == s0.members(r).insert(c));
    let q = s0.room_pos(r);
    assert(s0.members(r) == s0.rooms@[q].member_ids().to_set());
}

/// A broadcast to room `r` reaches every other member of `r` and no member
/// of any other room.
pub proof fn law_broadcast_stays_in_room(
    s: Server,
    from: u64,
    r: Seq<char>,
    text: Seq<char>,
    d: Seq<Delivery>,
    m: u64,
    other: Seq<char>,
)
    requires
        s.wf(),
        relayed(d, from, s.members(r), text),
    ensures
        s.members(r).contains(m) && m != from ==> targets(d).contains(m),
        other != r && s.members(other).contains(m) ==> !targets(d).contains(m),
{
    assert(targets(d).contains(m) == targets(d).to_set().contains(m));
    if other != r && s.members(other).contains(m) && s.members(r).contains(m) {
        lemma_listed_session(s, m, r);
        lemma_listed_session(s, m, other);
    }
}

/// After a client is removed it has no session and no room lists it, even
/// where rooms disagreed with its session before.
pub proof fn law_disconnect_cleanup(s0: Server, s1: Server, c: u64, r: Seq<char>)
    requires
        s0.dropped(s1, c),
    ensures
        !s1.sessions().contains_key(c),
        !s1.members(r).contains(c),
{
    if s1.has_room(r) {
        assert(s1.room_members()[r] == s1.members(r));
        assert(s0.has_room(r));
    }
}

/// The identity announcement reads back as the id it announces: it starts
/// with `CLIENT_ID:` and the rest is the id in digits, so `parse_client_id`
/// returns that id.
pub proof fn law_announcement_reads_back(id: u64)
    ensures
        starts_with(id_announcement(id), "CLIENT_ID:"@),
        ({
            let rest = id_announcement(id).skip("CLIENT_ID:"@.len() as int);
            rest.len() > 0 && all_digits(rest) && digits_value(rest) == id as nat
        }),
{
    let p = "CLIENT_ID:"@;
    let a = id_announcement(id);
    assert(a.subrange(0, p.len() as int) =~= p);
    assert(a.skip(p.len() as int) =~= decimal(id as nat));
    lemma_decimal_reads_back(id as nat);
}

} // verus!
