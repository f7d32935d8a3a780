use evolve_backend::codec::{
    decode_envelope, encode_envelope, format_update_session, is_system_payload_exec,
    starts_with_str, MessageContent,
};
use evolve_backend::hub::{MessageForHub, RoomChangeType};
use evolve_backend::model::Pagination;
use evolve_backend::rooms::Snapshot;
use evolve_backend::server::{list_frame, notify_all_rooms_of, notify_room, ChatServer};
use evolve_backend::session::{
    parse_command, Command, CommandEffect, SessionEvent, SessionState, StepOutcome,
    CLIENT_TIMEOUT_MS,
};

#[test]
fn commands_parse() {
    assert!(matches!(parse_command("/list"), Command::List));
    assert!(matches!(parse_command("  /list  "), Command::List));
    assert!(matches!(parse_command("/list extra"), Command::List));
    assert!(matches!(parse_command("/join team1"), Command::Join(r) if r == "team1"));
    assert!(matches!(parse_command("/join"), Command::MissingRoomArg));
    // trailing whitespace is trimmed before the split, so a lone
    // keyword with a space still misses its argument
    assert!(matches!(parse_command("/join "), Command::MissingRoomArg));
    assert!(matches!(parse_command("/join  x"), Command::Join(r) if r == " x"));
    assert!(matches!(parse_command("/quit team1"), Command::Quit(r) if r == "team1"));
    assert!(matches!(parse_command("/quit"), Command::MissingRoomArg));
    assert!(matches!(parse_command("/name Bob Jr"), Command::Name(n) if n == "Bob Jr"));
    assert!(matches!(parse_command("/name"), Command::MissingNameArg));
    assert!(matches!(parse_command("/frobnicate x"), Command::Unknown(m) if m == "/frobnicate x"));
    assert!(matches!(parse_command("hello there"), Command::Chat(m) if m == "hello there"));
    assert!(matches!(parse_command("  hi \n"), Command::Chat(m) if m == "hi"));
    assert!(matches!(parse_command(""), Command::Chat(m) if m.is_empty()));
}

#[test]
fn quit_default_room_is_refused() {
    let mut session = SessionState::new(
        "a".to_string(),
        "Ada".to_string(),
        "lobby".to_string(),
        0,
    );
    // join some other room first, as a client would
    let out = session.on_event(SessionEvent::ClientText("/join team1".to_string()), 1);
    assert!(matches!(out, StepOutcome::Command(CommandEffect::DoJoin { room }) if room == "team1"));
    session.commit_join("team1".to_string());
    assert_eq!(session.room, "team1");

    // quitting the default room is answered with an error and nothing else
    let out = session.on_event(SessionEvent::ClientText("/quit lobby".to_string()), 2);
    match out {
        StepOutcome::Command(CommandEffect::ErrorReply { msg }) => {
            assert_eq!(msg, "!!! you can not quit default room: lobby");
        },
        _ => panic!("expected an error reply"),
    }
    // the session state is untouched
    assert_eq!(session.room, "team1");
    assert_eq!(session.name, "Ada");

    // quitting another room is allowed
    let out = session.on_event(SessionEvent::ClientText("/quit team1".to_string()), 3);
    assert!(matches!(out, StepOutcome::Command(CommandEffect::DoQuit { room }) if room == "team1"));
    session.commit_quit();
    assert_eq!(session.room, "lobby");
}

#[test]
fn silent_client_is_disconnected() {
    let mut session =
        SessionState::new("a".to_string(), "Ada".to_string(), "main".to_string(), 0);
    // within the window the tick just pings
    let out = session.on_event(SessionEvent::Tick, CLIENT_TIMEOUT_MS);
    assert!(matches!(out, StepOutcome::Ping));
    // a pong refreshes the clock
    let out = session.on_event(SessionEvent::ClientPong, 4000);
    assert!(matches!(out, StepOutcome::HeartbeatNoted));
    let out = session.on_event(SessionEvent::Tick, 4000 + CLIENT_TIMEOUT_MS);
    assert!(matches!(out, StepOutcome::Ping));
    // silence past the window terminates even without a close frame
    let out = session.on_event(SessionEvent::Tick, 4001 + CLIENT_TIMEOUT_MS);
    assert!(matches!(out, StepOutcome::Terminate(None)));
}

#[test]
fn relayed_events_forward_verbatim() {
    let mut session =
        SessionState::new("a".to_string(), "Ada".to_string(), "main".to_string(), 0);
    let payload = "message:{\"room\":\"main\"}".to_string();
    let out = session.on_event(SessionEvent::Relayed(payload.clone()), 1);
    assert!(matches!(out, StepOutcome::Forward(f) if f == payload));
    let out = session.on_event(SessionEvent::ClientPing(vec![1, 2]), 5);
    assert!(matches!(out, StepOutcome::Pong(p) if p == vec![1, 2]));
    let out = session.on_event(
        SessionEvent::ClientClose(Some("bye".to_string())),
        6,
    );
    assert!(matches!(out, StepOutcome::Terminate(Some(r)) if r == "bye"));
}

#[test]
fn envelope_round_trip_exact() {
    let cases = vec![
        ("team1", "a", "message:{\"content\":\"hello\"}"),
        ("room\nwith\nnewlines", "id\\with\\slashes", "text\nwith\\both\nkinds"),
        ("", "", ""),
        ("unicode µ≈", "сид", "内容 \n \\ end"),
    ];
    for (room, id, content) in cases {
        let m = MessageForHub {
            room: room.to_string(),
            id: id.to_string(),
            content: content.to_string(),
        };
        let wire = encode_envelope(&m);
        let back = decode_envelope(&wire).expect("an encoded envelope decodes");
        assert_eq!(back.room, room);
        assert_eq!(back.id, id);
        assert_eq!(back.content, content);
    }
}

#[test]
fn envelope_decode_rejects_garbage() {
    assert!(decode_envelope("no separators at all").is_none());
    assert!(decode_envelope("one\nseparator").is_none());
    assert!(decode_envelope("bad\\escape\na\nb").is_none());
}

#[test]
fn frames_render_as_json() {
    let frame = format_update_session("team\"1", "A\\da");
    assert_eq!(frame, "update_session:{\"room\":\"team\\\"1\",\"name\":\"A\\\\da\"}");
    let v: serde_json::Value =
        serde_json::from_str(&frame["update_session:".len()..]).expect("body parses as JSON");
    assert_eq!(v["room"].as_str(), Some("team\"1"));
    assert_eq!(v["name"].as_str(), Some("A\\da"));

    let frame = MessageContent::format_with(
        12345678901234567890,
        "team1",
        "a",
        "Ada",
        "hi \"all\"\n",
        "2020-01-02 03:04:05",
    );
    assert!(starts_with_str(&frame, "message:"));
    let v: serde_json::Value =
        serde_json::from_str(&frame["message:".len()..]).expect("body parses as JSON");
    assert_eq!(v["id"].as_u64(), Some(12345678901234567890));
    assert_eq!(v["room"].as_str(), Some("team1"));
    assert_eq!(v["from_id"].as_str(), Some("a"));
    assert_eq!(v["from_name"].as_str(), Some("Ada"));
    assert_eq!(v["content"].as_str(), Some("hi \"all\"\n"));
    assert_eq!(v["time"].as_str(), Some("2020-01-02 03:04:05"));

    // a control character is escaped the JSON way
    let frame = format_update_session("a\u{1}b", "n");
    assert!(frame.contains("\\u0001"));
    let v: serde_json::Value = serde_json::from_str(&frame["update_session:".len()..]).unwrap();
    assert_eq!(v["room"].as_str(), Some("a\u{1}b"));
}

#[test]
fn stamped_message_carries_fields() {
    let frame = MessageContent::format("team1", "a", "Ada", "hello");
    assert!(starts_with_str(&frame, "message:"));
    let v: serde_json::Value = serde_json::from_str(&frame["message:".len()..]).unwrap();
    assert_eq!(v["room"].as_str(), Some("team1"));
    assert_eq!(v["from_id"].as_str(), Some("a"));
    assert_eq!(v["from_name"].as_str(), Some("Ada"));
    assert_eq!(v["content"].as_str(), Some("hello"));
    // two messages get distinct identifiers
    let frame2 = MessageContent::format("team1", "a", "Ada", "hello");
    let v2: serde_json::Value = serde_json::from_str(&frame2["message:".len()..]).unwrap();
    assert_ne!(v["id"].to_string(), v2["id"].to_string());
}

#[test]
fn routing_splits_chat_and_system() {
    let mut server = ChatServer::new();
    let (conn_a, _) = server.connect("a".to_string(), "Ada".to_string(), &"main".to_string());
    let (conn_b, _) = server.connect("b".to_string(), "Bob".to_string(), &"main".to_string());
    server.join_room(&"b".to_string(), &"team1".to_string());

    // chat goes to every local connection in the room
    let chat = MessageForHub {
        room: "main".to_string(),
        id: "a".to_string(),
        content: "message:{}".to_string(),
    };
    assert_eq!(server.deliver_targets(&chat), vec![conn_a, conn_b]);
    let chat = MessageForHub {
        room: "team1".to_string(),
        id: "a".to_string(),
        content: "message:{}".to_string(),
    };
    assert_eq!(server.deliver_targets(&chat), vec![conn_b]);

    // a membership notification goes to the session it names
    let system = MessageForHub {
        room: "main".to_string(),
        id: "b".to_string(),
        content: "update_rooms:{}".to_string(),
    };
    assert_eq!(server.deliver_targets(&system), vec![conn_b]);
    assert!(is_system_payload_exec("update_rooms:{}"));
    assert!(is_system_payload_exec("update_session:{}"));
    assert!(!is_system_payload_exec("message:{}"));
}

#[test]
fn pagination_arithmetic() {
    let page = Pagination { index: 3, size: 10 };
    assert_eq!(page.skip(), 20);
    assert_eq!(page.take(), 10);
    let page = Pagination { index: 1, size: 25 };
    assert_eq!(page.skip(), 0);
    let page = Pagination { index: 2, size: -5 };
    assert_eq!(page.skip(), -5);
    assert_eq!(page.take(), 0);
}

#[test]
fn default_change_is_addition() {
    assert!(matches!(RoomChangeType::default(), RoomChangeType::Add));
}

/// Session A connects, joins a team room and says hello; session B,
/// already in that room, first sees the membership update and then the
/// chat message.
#[test]
fn join_then_chat_observed_in_order() {
    let default_room = "main".to_string();
    let mut snap = Snapshot::new();
    let mut server = ChatServer::new();

    // B is connected and already in team1
    let (conn_b, rec) = server.connect("b".to_string(), "Bob".to_string(), &default_room);
    assert_eq!(snap.apply_change(&rec).status, 0);
    let rec = server.join_room(&"b".to_string(), &"team1".to_string());
    assert_eq!(snap.apply_change(&rec).status, 0);
    let mut frames_b: Vec<String> = Vec::new();

    // A connects and is assigned the default room
    let mut session_a = SessionState::new("a".to_string(), "Ada".to_string(), default_room.clone(), 0);
    let (_conn_a, rec) = server.connect("a".to_string(), "Ada".to_string(), &default_room);
    assert_eq!(snap.apply_change(&rec).status, 0);
    assert_eq!(session_a.room, "main");

    // A sends "/join team1"
    let out = session_a.on_event(SessionEvent::ClientText("/join team1".to_string()), 1);
    let room = match out {
        StepOutcome::Command(CommandEffect::DoJoin { room }) => room,
        _ => panic!("expected a join"),
    };
    let rec = server.join_room(&"a".to_string(), &room);
    assert_eq!(snap.apply_change(&rec).status, 0);
    session_a.commit_join(room.clone());
    // membership notifications fan out to every member of the room
    for env in notify_room(&snap, &room) {
        let wire = encode_envelope(&env);
        let env = decode_envelope(&wire).unwrap();
        for conn in server.deliver_targets(&env) {
            if conn == conn_b {
                frames_b.push(env.content.clone());
            }
        }
    }

    // A sends "hello"
    let out = session_a.on_event(SessionEvent::ClientText("hello".to_string()), 2);
    let (room, content) = match out {
        StepOutcome::Command(CommandEffect::PublishChat { room, content }) => (room, content),
        _ => panic!("expected chat"),
    };
    assert_eq!(room, "team1");
    let payload = MessageContent::format(&room, &session_a.session_id, &session_a.name, &content);
    let env = server.send_message(&room, &session_a.session_id, payload);
    let wire = encode_envelope(&env);
    let env = decode_envelope(&wire).unwrap();
    for conn in server.deliver_targets(&env) {
        if conn == conn_b {
            frames_b.push(env.content.clone());
        }
    }

    // B observed the join first, then the message
    assert_eq!(frames_b.len(), 2);
    assert!(starts_with_str(&frames_b[0], "update_rooms:"));
    let v: serde_json::Value =
        serde_json::from_str(&frames_b[0]["update_rooms:".len()..]).unwrap();
    let team1 = v["team1"].as_object().expect("the join shows up in team1");
    assert_eq!(team1.get("a").and_then(|n| n.as_str()), Some("Ada"));
    assert_eq!(team1.get("b").and_then(|n| n.as_str()), Some("Bob"));

    assert!(starts_with_str(&frames_b[1], "message:"));
    let v: serde_json::Value = serde_json::from_str(&frames_b[1]["message:".len()..]).unwrap();
    assert_eq!(v["room"].as_str(), Some("team1"));
    assert_eq!(v["from_id"].as_str(), Some("a"));
    assert_eq!(v["content"].as_str(), Some("hello"));
}

#[test]
fn list_frame_shows_own_rooms() {
    let mut snap = Snapshot::new();
    let mut server = ChatServer::new();
    let (_, rec) = server.connect("a".to_string(), "Ada".to_string(), &"main".to_string());
    assert_eq!(snap.apply_change(&rec).status, 0);
    let rec = server.join_room(&"a".to_string(), &"team1".to_string());
    assert_eq!(snap.apply_change(&rec).status, 0);

    let frame = list_frame(&snap, &"a".to_string());
    assert!(starts_with_str(&frame, "update_rooms:"));
    let v: serde_json::Value = serde_json::from_str(&frame["update_rooms:".len()..]).unwrap();
    assert!(v.get("main").is_some());
    assert!(v.get("team1").is_some());
    assert_eq!(v["main"]["a"].as_str(), Some("Ada"));

    // a rename is broadcast to every room the session is in
    let notifications = notify_all_rooms_of(&snap, &"a".to_string());
    assert_eq!(notifications.len(), 2);
    assert!(notifications.iter().any(|m| m.room == "main"));
    assert!(notifications.iter().any(|m| m.room == "team1"));
    assert!(notifications.iter().all(|m| m.id == "a"));
}
