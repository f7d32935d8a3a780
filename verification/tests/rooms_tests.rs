use evolve_backend::hub::{
    ChangeRoomReq, RetrieveRroomsReq, RetrieveRroomsReqType, RoomChangeType, SubscriptionTable,
    UpdateRooms,
};
use evolve_backend::rooms::{clean_records, GroupEntry, Snapshot};
use evolve_backend::server::ChatServer;

fn add(id: &str, name: Option<&str>, room: &str) -> ChangeRoomReq {
    ChangeRoomReq {
        id: id.to_string(),
        name: name.map(|n| n.to_string()),
        room: room.to_string(),
        change_type: RoomChangeType::Add,
    }
}

fn del(id: &str, room: &str) -> ChangeRoomReq {
    ChangeRoomReq {
        id: id.to_string(),
        name: None,
        room: room.to_string(),
        change_type: RoomChangeType::Del,
    }
}

fn rename(id: &str, name: &str) -> ChangeRoomReq {
    ChangeRoomReq {
        id: id.to_string(),
        name: Some(name.to_string()),
        room: String::new(),
        change_type: RoomChangeType::NameChange,
    }
}

fn members_of(snap: &Snapshot, room: &str) -> Vec<(String, String)> {
    let req = RetrieveRroomsReq::new(RetrieveRroomsReqType::RoomID, room.to_string());
    let UpdateRooms(views) = snap.retrieve_rooms(&req);
    if views.is_empty() {
        return Vec::new();
    }
    assert_eq!(views.len(), 1);
    views[0]
        .members
        .iter()
        .map(|m| (m.id.clone(), m.name.clone()))
        .collect()
}

fn rooms_of(snap: &Snapshot, sid: &str) -> Vec<String> {
    let req = RetrieveRroomsReq::new(RetrieveRroomsReqType::SessionID, sid.to_string());
    let UpdateRooms(views) = snap.retrieve_rooms(&req);
    views.iter().map(|v| v.room.clone()).collect()
}

/// The two grouping indices agree: a session is listed as a member of a
/// room exactly when the room is listed among the session's rooms.
fn check_consistent(snap: &Snapshot, sessions: &[&str], rooms: &[&str]) {
    for sid in sessions {
        let srooms = rooms_of(snap, sid);
        for room in rooms {
            let member = members_of(snap, room).iter().any(|(id, _)| id == sid);
            let listed = srooms.iter().any(|r| r == room);
            assert_eq!(member, listed, "indices disagree for {sid} in {room}");
        }
    }
}

#[test]
fn consistency_kept_after_every_step() {
    let sessions = ["a", "b", "c"];
    let rooms = ["main", "team1", "team2"];
    let steps = vec![
        add("a", Some("Ada"), "main"),
        add("b", Some("Bob"), "main"),
        add("a", None, "team1"),
        add("c", Some("Cyd"), "team2"),
        rename("a", "Ada2"),
        del("a", "team1"),
        add("b", None, "team1"),
        del("b", "main"),
        del("a", "main"),
        del("c", "team2"),
        del("b", "team1"),
    ];
    let mut snap = Snapshot::new();
    check_consistent(&snap, &sessions, &rooms);
    for step in steps {
        let resp = snap.apply_change(&step);
        assert_eq!(resp.status, 0, "{}", resp.msg);
        check_consistent(&snap, &sessions, &rooms);
    }
    for room in rooms {
        assert!(members_of(&snap, room).is_empty());
    }
}

#[test]
fn concurrent_adds_none_lost() {
    // Additions racing from different processes are serialized by the
    // store; whatever the order, every one of them lands.
    let ids = ["s1", "s2", "s3", "s4", "s5"];
    let orders: [[usize; 5]; 3] = [[0, 1, 2, 3, 4], [4, 3, 2, 1, 0], [2, 0, 4, 1, 3]];
    for order in orders {
        let mut snap = Snapshot::new();
        for i in order {
            let resp = snap.apply_change(&add(ids[i], Some(ids[i]), "room"));
            assert_eq!(resp.status, 0);
        }
        let members = members_of(&snap, "room");
        assert_eq!(members.len(), 5);
        for id in ids {
            assert!(members.iter().any(|(m, _)| m == id));
        }
    }
}

#[test]
fn disconnect_removes_from_every_room() {
    let mut snap = Snapshot::new();
    let mut server = ChatServer::new();
    let (conn_id, rec) = server.connect("a".to_string(), "Ada".to_string(), &"main".to_string());
    assert_eq!(snap.apply_change(&rec).status, 0);
    let rec = server.join_room(&"a".to_string(), &"team1".to_string());
    assert_eq!(snap.apply_change(&rec).status, 0);
    let rec = server.join_room(&"a".to_string(), &"team2".to_string());
    assert_eq!(snap.apply_change(&rec).status, 0);
    // another session keeps the rooms alive
    let (_, rec) = server.connect("b".to_string(), "Bob".to_string(), &"main".to_string());
    assert_eq!(snap.apply_change(&rec).status, 0);

    assert_eq!(rooms_of(&snap, "a").len(), 3);

    // the stream dies without any quit command
    let (sid, rooms, records) = server.disconnect(conn_id).expect("connection known");
    assert_eq!(sid, "a");
    assert_eq!(rooms.len(), 3);
    assert_eq!(records.len(), 3);
    for rec in &records {
        assert_eq!(snap.apply_change(rec).status, 0);
    }
    assert!(rooms_of(&snap, "a").is_empty());
    for room in ["main", "team1", "team2"] {
        assert!(!members_of(&snap, room).iter().any(|(id, _)| id == "a"));
    }
    // the survivor is untouched
    assert_eq!(rooms_of(&snap, "b"), vec!["main".to_string()]);
}

#[test]
fn clean_records_cover_all_pairs() {
    let local = vec![
        GroupEntry {
            key: "main".to_string(),
            elems: vec!["a".to_string(), "b".to_string()],
        },
        GroupEntry { key: "team1".to_string(), elems: vec!["a".to_string()] },
    ];
    let recs = clean_records(&local);
    assert_eq!(recs.len(), 3);
    assert_eq!(recs[0].room, "main");
    assert_eq!(recs[0].id, "a");
    assert_eq!(recs[1].room, "main");
    assert_eq!(recs[1].id, "b");
    assert_eq!(recs[2].room, "team1");
    assert_eq!(recs[2].id, "a");
    assert!(recs.iter().all(|r| matches!(r.change_type, RoomChangeType::Del)));

    let mut snap = Snapshot::new();
    assert_eq!(snap.apply_change(&add("a", Some("Ada"), "main")).status, 0);
    assert_eq!(snap.apply_change(&add("b", Some("Bob"), "main")).status, 0);
    assert_eq!(snap.apply_change(&add("a", None, "team1")).status, 0);
    for rec in &recs {
        assert_eq!(snap.apply_change(rec).status, 0);
    }
    assert!(members_of(&snap, "main").is_empty());
    assert!(members_of(&snap, "team1").is_empty());
}

#[test]
fn repeated_add_changes_nothing() {
    let mut snap = Snapshot::new();
    assert_eq!(snap.apply_change(&add("a", Some("Ada"), "main")).status, 0);
    assert_eq!(snap.apply_change(&add("a", Some("Ada"), "main")).status, 0);
    let members = members_of(&snap, "main");
    assert_eq!(members, vec![("a".to_string(), "Ada".to_string())]);
    assert_eq!(rooms_of(&snap, "a"), vec!["main".to_string()]);
}

#[test]
fn removal_of_non_member_is_rejected() {
    let mut snap = Snapshot::new();
    assert_eq!(snap.apply_change(&add("a", Some("Ada"), "main")).status, 0);
    let resp = snap.apply_change(&del("b", "main"));
    assert_eq!(resp.status, 1);
    assert_eq!(resp.msg, "session is not a member of the room");
    let resp = snap.apply_change(&del("a", "nowhere"));
    assert_eq!(resp.status, 1);
    assert_eq!(resp.msg, "session is not a member of the room");
    // nothing changed
    assert_eq!(members_of(&snap, "main").len(), 1);
}

#[test]
fn rename_needs_name_and_known_session() {
    let mut snap = Snapshot::new();
    let resp = snap.apply_change(&ChangeRoomReq {
        id: "a".to_string(),
        name: None,
        room: String::new(),
        change_type: RoomChangeType::NameChange,
    });
    assert_eq!(resp.status, 1);
    assert_eq!(resp.msg, "name is required");
    let resp = snap.apply_change(&rename("ghostly", "G"));
    assert_eq!(resp.status, 1);
    assert_eq!(resp.msg, "unknown session");

    assert_eq!(snap.apply_change(&add("a", Some("Ada"), "main")).status, 0);
    assert_eq!(snap.apply_change(&rename("a", "Ada2")).status, 0);
    let members = members_of(&snap, "main");
    assert_eq!(members, vec![("a".to_string(), "Ada2".to_string())]);
}

#[test]
fn display_name_defaults_and_sticks() {
    let mut snap = Snapshot::new();
    // no name given: the session id doubles as the display name
    assert_eq!(snap.apply_change(&add("a", None, "main")).status, 0);
    assert_eq!(members_of(&snap, "main"), vec![("a".to_string(), "a".to_string())]);
    // a later nameless addition keeps the recorded name
    assert_eq!(snap.apply_change(&rename("a", "Ada")).status, 0);
    assert_eq!(snap.apply_change(&add("a", None, "team1")).status, 0);
    assert_eq!(members_of(&snap, "team1"), vec![("a".to_string(), "Ada".to_string())]);
}

#[test]
fn subscription_table_tracks_interest() {
    let mut table = SubscriptionTable::new();
    assert!(!table.is_subscribed(&"main".to_string()));
    assert!(table.subscribe_room(&"main".to_string()));
    assert!(!table.subscribe_room(&"main".to_string()));
    assert!(table.subscribe_room(&"team1".to_string()));
    assert!(table.is_subscribed(&"main".to_string()));
    assert!(table.unsubscribe_room(&"main".to_string()));
    assert!(!table.unsubscribe_room(&"main".to_string()));
    assert!(!table.is_subscribed(&"main".to_string()));
    assert!(table.is_subscribed(&"team1".to_string()));
}
