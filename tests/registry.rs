use chat_relay::{ChatRoom, ClientId, Errors, RoomId, Server};

fn room(name: &str) -> RoomId {
    RoomId(name.to_string())
}

#[test]
fn add_client_assigns_unique_ids() {
    let mut server = Server::new();

    let c1 = server.add_client().unwrap();
    let c2 = server.add_client().unwrap();

    assert_ne!(c1, c2);
}

#[test]
fn client_can_join_room() {
    let mut server = Server::new();

    let client_id = server.add_client().unwrap();
    let room_id = RoomId("0".to_string());

    assert!(server.add_client_to_room(client_id, &room_id).is_ok());
}

#[test]
fn ids_count_up_from_zero() {
    let mut server = Server::new();
    let ids: Vec<u64> = (0..5).map(|_| server.add_client().unwrap().0).collect();
    assert_eq!(ids, vec![0, 1, 2, 3, 4]);
}

#[test]
fn ids_are_not_reused_after_removal() {
    let mut server = Server::new();
    let a = server.add_client().unwrap();
    server.remove_client(a);
    let b = server.add_client().unwrap();
    assert_ne!(a, b);
    assert_eq!(b, ClientId(1));
}

#[test]
fn id_space_exhausted_gives_none() {
    let mut server = Server::new();
    server.next_client_id = u64::MAX;
    assert!(server.add_client().is_none());
    assert_eq!(server.next_client_id, u64::MAX);
    assert!(server.clients.is_empty());
}

#[test]
fn new_server_has_ten_rooms() {
    let server = Server::new();
    let names: Vec<String> = server.list_rooms().into_iter().map(|r| r.0).collect();
    let want: Vec<String> = (0..10).map(|i: u32| i.to_string()).collect();
    assert_eq!(names, want);
    assert!(server.rooms.iter().all(|r| r.members.is_empty()));
}

#[test]
fn join_unknown_room_is_refused() {
    let mut server = Server::new();
    let c = server.add_client().unwrap();
    assert_eq!(server.add_client_to_room(c, &room("10")), Err(Errors::RoomNotFound));
    assert!(server.get_client(&c).unwrap().current_room.is_none());
}

#[test]
fn join_by_unregistered_client_is_refused() {
    let mut server = Server::new();
    assert_eq!(server.add_client_to_room(ClientId(7), &room("1")), Err(Errors::UnknownClient));
    assert!(server.rooms[1].members.is_empty());
}

#[test]
fn join_sets_both_sides() {
    let mut server = Server::new();
    let c = server.add_client().unwrap();
    server.add_client_to_room(c, &room("4")).unwrap();
    assert_eq!(server.get_client(&c).unwrap().current_room, Some(room("4")));
    assert_eq!(server.rooms[4].members, vec![c]);
    for (i, r) in server.rooms.iter().enumerate() {
        if i != 4 {
            assert!(!r.contains(c));
        }
    }
}

#[test]
fn double_join_is_refused_and_counts_once() {
    let mut server = Server::new();
    let c = server.add_client().unwrap();
    assert!(server.add_client_to_room(c, &room("2")).is_ok());
    assert_eq!(server.add_client_to_room(c, &room("2")), Err(Errors::ClientInRoom));
    assert_eq!(server.rooms[2].members.len(), 1);
}

#[test]
fn join_while_in_another_room_is_refused() {
    let mut server = Server::new();
    let c = server.add_client().unwrap();
    server.add_client_to_room(c, &room("2")).unwrap();
    assert_eq!(server.add_client_to_room(c, &room("3")), Err(Errors::ClientInOtherRoom));
    assert!(server.rooms[3].members.is_empty());
    assert_eq!(server.get_client(&c).unwrap().current_room, Some(room("2")));
}

#[test]
fn join_a_room_that_lists_the_client_reports_client_in_room() {
    let mut server = Server::new();
    let a = server.add_client().unwrap();
    let b = server.add_client().unwrap();
    server.add_client_to_room(a, &room("2")).unwrap();
    server.add_client_to_room(b, &room("3")).unwrap();
    assert_eq!(server.add_client_to_room(a, &room("2")), Err(Errors::ClientInRoom));
    assert_eq!(server.add_client_to_room(b, &room("2")), Err(Errors::ClientInOtherRoom));
    assert_eq!(server.rooms[2].members, vec![a]);
    assert_eq!(server.rooms[3].members, vec![b]);
}

#[test]
fn join_then_leave_round_trip() {
    let mut server = Server::new();
    let c = server.add_client().unwrap();
    server.add_client_to_room(c, &room("5")).unwrap();
    assert!(server.remove_client_from_room(c, &room("5")).is_ok());
    assert!(server.get_client(&c).unwrap().current_room.is_none());
    assert!(!server.rooms[5].contains(c));
    assert_eq!(server.remove_client_from_room(c, &room("5")), Err(Errors::ClientNotInRoom));
}

#[test]
fn leave_unknown_room_is_refused() {
    let mut server = Server::new();
    let c = server.add_client().unwrap();
    assert_eq!(server.remove_client_from_room(c, &room("lounge")), Err(Errors::RoomNotFound));
}

#[test]
fn remove_client_clears_session_and_rooms() {
    let mut server = Server::new();
    let a = server.add_client().unwrap();
    let b = server.add_client().unwrap();
    server.add_client_to_room(a, &room("1")).unwrap();
    server.add_client_to_room(b, &room("1")).unwrap();
    server.remove_client(a);
    assert!(server.get_client(&a).is_none());
    assert_eq!(server.rooms[1].members, vec![b]);
}

#[test]
fn remove_client_scans_every_room() {
    let mut server = Server::new();
    let c = server.add_client().unwrap();
    server.add_client_to_room(c, &room("1")).unwrap();
    // a listing that bypassed the registry's own operations
    server.rooms[6].members.push(c);
    server.rooms[6].members.push(c);
    server.remove_client(c);
    assert!(server.get_client(&c).is_none());
    assert!(server.rooms.iter().all(|r| !r.contains(c)));
}

#[test]
fn remove_absent_client_is_a_no_op() {
    let mut server = Server::new();
    let a = server.add_client().unwrap();
    server.add_client_to_room(a, &room("0")).unwrap();
    server.remove_client(ClientId(99));
    assert_eq!(server.rooms[0].members, vec![a]);
    assert!(server.get_client(&a).is_some());
}

#[test]
fn broadcast_reaches_other_members_only() {
    let mut server = Server::new();
    let a = server.add_client().unwrap();
    let b = server.add_client().unwrap();
    let c = server.add_client().unwrap();
    let d = server.add_client().unwrap();
    server.add_client_to_room(a, &room("3")).unwrap();
    server.add_client_to_room(b, &room("3")).unwrap();
    server.add_client_to_room(c, &room("3")).unwrap();
    server.add_client_to_room(d, &room("7")).unwrap();
    let out = server.send_room_message(a, &room("3"), "hi all").unwrap();
    let mut to: Vec<u64> = out.iter().map(|x| x.to.0).collect();
    to.sort();
    assert_eq!(to, vec![1, 2]);
    assert!(out.iter().all(|x| x.line == "[0] hi all"));
}

#[test]
fn broadcast_line_spells_sender_in_decimal() {
    let mut server = Server::new();
    server.next_client_id = 1234;
    let a = server.add_client().unwrap();
    let b = server.add_client().unwrap();
    server.add_client_to_room(a, &room("9")).unwrap();
    server.add_client_to_room(b, &room("9")).unwrap();
    let out = server.send_room_message(a, &room("9"), "x").unwrap();
    assert_eq!(out.len(), 1);
    assert_eq!(out[0].to, b);
    assert_eq!(out[0].line, "[1234] x");
}

#[test]
fn broadcast_from_non_member_is_refused() {
    let mut server = Server::new();
    let a = server.add_client().unwrap();
    let b = server.add_client().unwrap();
    server.add_client_to_room(b, &room("3")).unwrap();
    assert_eq!(server.send_room_message(a, &room("3"), "spoof").err(), Some(Errors::ClientNotInRoom));
    assert_eq!(server.send_room_message(a, &room("nope"), "x").err(), Some(Errors::RoomNotFound));
}

#[test]
fn broadcast_alone_in_room_delivers_nothing() {
    let mut server = Server::new();
    let a = server.add_client().unwrap();
    server.add_client_to_room(a, &room("8")).unwrap();
    assert!(server.send_room_message(a, &room("8"), "echo?").unwrap().is_empty());
}

#[test]
fn chat_room_without_drops_every_entry() {
    let mut r = ChatRoom::new("5".to_string());
    r.members = vec![ClientId(1), ClientId(2), ClientId(1)];
    let w = r.without(ClientId(1));
    assert_eq!(w.members, vec![ClientId(2)]);
    assert_eq!(w.id, room("5"));
}

#[test]
fn error_names() {
    assert_eq!(Errors::RoomNotFound.name(), "RoomNotFound");
    assert_eq!(Errors::ClientInRoom.name(), "ClientInRoom");
    assert_eq!(Errors::RoomFull.name(), "RoomFull");
    assert_eq!(Errors::ClientNotInRoom.name(), "ClientNotInRoom");
    assert_eq!(Errors::SendFailed.name(), "SendFailed");
    assert_eq!(Errors::UnknownClient.name(), "UnknownClient");
    assert_eq!(Errors::ClientInOtherRoom.name(), "ClientInOtherRoom");
}
