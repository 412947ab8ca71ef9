use chat_relay::{
    client_id_line, handle_client_message, parse_client_id, parse_command, parse_decimal,
    register_client, strip_terminator, ClientId, Command, Delivery, RoomId, Server,
};

fn lines_for(d: &[Delivery], id: u64) -> Vec<String> {
    d.iter().filter(|x| x.to.0 == id).map(|x| x.line.clone()).collect()
}

fn room_of(server: &Server, id: u64) -> Option<String> {
    server.get_client(&ClientId(id)).unwrap().current_room.as_ref().map(|r| r.0.clone())
}

#[test]
fn end_to_end_two_clients() {
    let mut server = Server::new();

    let a = server.add_client().unwrap();
    assert_eq!(a, ClientId(0));
    let out = handle_client_message(&mut server, a, "/join 0");
    assert!(out.keep_going);
    assert_eq!(lines_for(&out.deliveries, 0), vec!["You joined room '0'".to_string()]);

    let b = server.add_client().unwrap();
    assert_eq!(b, ClientId(1));
    assert!(server.add_client_to_room(b, &RoomId("0".to_string())).is_ok());

    let sent = server.send_room_message(a, &RoomId("0".to_string()), "hello").unwrap();
    assert_eq!(lines_for(&sent, 1), vec!["[0] hello".to_string()]);
    assert!(lines_for(&sent, 0).is_empty());

    let out = handle_client_message(&mut server, b, "/leave");
    assert!(out.keep_going);
    assert_eq!(
        lines_for(&out.deliveries, 1),
        vec!["You left room 0".to_string(), "You joined the lobby".to_string()]
    );
    assert_eq!(room_of(&server, 1), Some("0".to_string()));

    let out = handle_client_message(&mut server, a, "/quit");
    assert!(!out.keep_going);
    assert_eq!(lines_for(&out.deliveries, 0), vec!["Goodbye!".to_string()]);

    server.remove_client(a);
    assert!(server.get_client(&a).is_none());
    assert_eq!(server.rooms[0].members, vec![b]);
}

#[test]
fn chat_in_room_is_relayed_to_others() {
    let mut server = Server::new();
    let a = server.add_client().unwrap();
    let b = server.add_client().unwrap();
    let c = server.add_client().unwrap();
    handle_client_message(&mut server, a, "/join 2");
    handle_client_message(&mut server, b, "/join 2");
    handle_client_message(&mut server, c, "/join 3");
    let out = handle_client_message(&mut server, a, "good morning");
    assert!(out.keep_going);
    assert_eq!(out.deliveries.len(), 1);
    assert_eq!(out.deliveries[0].to, b);
    assert_eq!(out.deliveries[0].line, "[0] good morning");
}

#[test]
fn chat_in_lobby_gets_a_hint() {
    let mut server = Server::new();
    let (a, _) = register_client(&mut server).unwrap();
    let (b, _) = register_client(&mut server).unwrap();
    let out = handle_client_message(&mut server, a, "anyone?");
    assert_eq!(
        lines_for(&out.deliveries, a.0),
        vec!["You are in the lobby. Use '/help' for commands or '/join 1-10' to join a room".to_string()]
    );
    assert!(lines_for(&out.deliveries, b.0).is_empty());
}

#[test]
fn chat_outside_any_room_gets_a_hint() {
    let mut server = Server::new();
    let a = server.add_client().unwrap();
    let out = handle_client_message(&mut server, a, "hello?");
    assert_eq!(
        lines_for(&out.deliveries, 0),
        vec!["You're not in any room. Use '/help' for a list of commands".to_string()]
    );
}

#[test]
fn join_switches_rooms() {
    let mut server = Server::new();
    let a = server.add_client().unwrap();
    handle_client_message(&mut server, a, "/join 1");
    let out = handle_client_message(&mut server, a, "/join 6");
    assert_eq!(lines_for(&out.deliveries, 0), vec!["You joined room '6'".to_string()]);
    assert_eq!(room_of(&server, 0), Some("6".to_string()));
    assert!(server.rooms[1].members.is_empty());
    assert_eq!(server.rooms[6].members, vec![a]);
}

#[test]
fn join_missing_room_reports_and_leaves_old_room() {
    let mut server = Server::new();
    let a = server.add_client().unwrap();
    handle_client_message(&mut server, a, "/join 1");
    let out = handle_client_message(&mut server, a, "/join 10");
    assert_eq!(lines_for(&out.deliveries, 0), vec!["Failed to join room: RoomNotFound".to_string()]);
    assert_eq!(room_of(&server, 0), None);
    assert!(server.rooms[1].members.is_empty());
}

#[test]
fn leave_outside_any_room() {
    let mut server = Server::new();
    let a = server.add_client().unwrap();
    let out = handle_client_message(&mut server, a, "/leave");
    assert_eq!(lines_for(&out.deliveries, 0), vec!["You're not in any room".to_string()]);
}

#[test]
fn help_lists_commands() {
    let mut server = Server::new();
    let a = server.add_client().unwrap();
    let out = handle_client_message(&mut server, a, "/help");
    assert_eq!(
        lines_for(&out.deliveries, 0),
        vec!["Commands: /join 1-10 (Joins a room), /leave (Leaves the current room), /quit (quits the program), /help (Lists the commands)".to_string()]
    );
}

#[test]
fn empty_line_does_nothing() {
    let mut server = Server::new();
    let a = server.add_client().unwrap();
    let out = handle_client_message(&mut server, a, "");
    assert!(out.keep_going);
    assert!(out.deliveries.is_empty());
}

#[test]
fn lines_from_removed_client_are_dropped() {
    let mut server = Server::new();
    let a = server.add_client().unwrap();
    server.remove_client(a);
    let out = handle_client_message(&mut server, a, "/join 1");
    assert!(out.keep_going);
    assert!(out.deliveries.is_empty());
    assert!(server.rooms[1].members.is_empty());
    let out = handle_client_message(&mut server, a, "/quit");
    assert!(!out.keep_going);
}

#[test]
fn register_puts_client_in_lobby() {
    let mut server = Server::new();
    let (id, d) = register_client(&mut server).unwrap();
    assert_eq!(id, ClientId(0));
    assert_eq!(
        lines_for(&d, 0),
        vec![
            "Your client ID is 0".to_string(),
            "Welcome to the lobby! Use '/help' for commands".to_string()
        ]
    );
    assert_eq!(room_of(&server, 0), Some("0".to_string()));
}

#[test]
fn register_with_ids_used_up() {
    let mut server = Server::new();
    server.next_client_id = u64::MAX;
    assert!(register_client(&mut server).is_none());
}

#[test]
fn parse_command_forms() {
    assert!(matches!(parse_command("/quit"), Command::Quit));
    assert!(matches!(parse_command("/join 4"), Command::Join(r) if r == "4"));
    assert!(matches!(parse_command("/join "), Command::Join(r) if r.is_empty()));
    assert!(matches!(parse_command("/leave"), Command::Leave));
    assert!(matches!(parse_command("/help"), Command::Help));
    assert!(matches!(parse_command("/quit now"), Command::Chat(t) if t == "/quit now"));
    assert!(matches!(parse_command("/join"), Command::Chat(t) if t == "/join"));
    assert!(matches!(parse_command("/leave 3"), Command::Chat(t) if t == "/leave 3"));
    assert!(matches!(parse_command("héllo"), Command::Chat(t) if t == "héllo"));
}

#[test]
fn strip_terminator_forms() {
    assert_eq!(strip_terminator("abc\n"), "abc");
    assert_eq!(strip_terminator("abc\r\n"), "abc");
    assert_eq!(strip_terminator("abc"), "abc");
    assert_eq!(strip_terminator("\n"), "");
    assert_eq!(strip_terminator(""), "");
}

#[test]
fn id_announcement_round_trip() {
    assert_eq!(client_id_line(ClientId(0)), "CLIENT_ID:0");
    assert_eq!(client_id_line(ClientId(907)), "CLIENT_ID:907");
    assert_eq!(parse_client_id("CLIENT_ID:907"), Some(ClientId(907)));
    let max = client_id_line(ClientId(u64::MAX));
    assert_eq!(max, "CLIENT_ID:18446744073709551615");
    assert_eq!(parse_client_id(&max), Some(ClientId(u64::MAX)));
}

#[test]
fn parse_client_id_rejects_other_lines() {
    assert_eq!(parse_client_id("[0] hello"), None);
    assert_eq!(parse_client_id("CLIENT_ID:"), None);
    assert_eq!(parse_client_id("CLIENT_ID:12a"), None);
    assert_eq!(parse_client_id("CLIENT_ID:18446744073709551616"), None);
}

#[test]
fn parse_decimal_values() {
    assert_eq!(parse_decimal("0"), Some(0));
    assert_eq!(parse_decimal("0042"), Some(42));
    assert_eq!(parse_decimal(""), None);
    assert_eq!(parse_decimal("-1"), None);
    assert_eq!(parse_decimal("99999999999999999999"), None);
}
