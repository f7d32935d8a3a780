//! The process-local coordinator.
//!
//! One coordinator per process owns the mapping from connection
//! identifiers to the sessions behind them and the rooms each one cares
//! about.  The runtime drives it as a single serialized task: every
//! operation below is one atomic step of that task, and each returns
//! the membership records or envelopes the runtime must then hand to
//! the hub.  Connection identifiers never leave the process.

use vstd::prelude::*;

use crate::codec::{format_update_rooms, is_system_payload, is_system_payload_exec, update_rooms_frame};
use crate::hub::{ChangeRoomReq, EnvelopeModel, MessageForHub, RecordModel, RetrieveRroomsReq, RetrieveRroomsReqType, RoomChangeType, RoomView};
use crate::rooms::{del_records, members_match, Snapshot};

verus! {

/// One local connection: its process-local handle, the session behind
/// it, and the rooms it currently cares about.
pub struct Conn {
    pub conn_id: u64,
    pub session_id: String,
    pub rooms: Vec<String>,
}

/// The mathematical shape of one local connection.
pub ghost struct ConnModel {
    pub conn_id: u64,
    pub session_id: Seq<char>,
    pub rooms: Seq<Seq<char>>,
}

impl View for Conn {
    type V = ConnModel;

    open spec fn view(&self) -> ConnModel {
        ConnModel {
            conn_id: self.conn_id,
            session_id: self.session_id@,
            rooms: self.rooms.deep_view(),
        }
    }
}

/// The mathematical shape of the coordinator's state.
pub ghost struct ServerModel {
    pub next_conn_id: u64,
    pub conns: Seq<ConnModel>,
}

/// The process-local coordinator's state: a counter for fresh
/// connection handles and the live connections.
pub struct ChatServer {
    pub next_conn_id: u64,
    pub conns: Vec<Conn>,
}

impl View for ChatServer {
    type V = ServerModel;

    open spec fn view(&self) -> ServerModel {
        ServerModel {
            next_conn_id: self.next_conn_id,
            conns: Seq::new(self.conns@.len(), |i: int| self.conns@[i]@),
        }
    }
}

impl ChatServer {
    /// Connection handles are distinct and below the counter, and no
    /// connection lists a room twice.
    pub open spec fn wf(&self) -> bool {
        &&& forall|i: int, j: int|
            0 <= i < self@.conns.len() && 0 <= j < self@.conns.len() && i != j
                ==> self@.conns[i].conn_id != self@.conns[j].conn_id
        &&& forall|i: int| 0 <= i < self@.conns.len() ==> self@.conns[i].conn_id < self@.next_conn_id
        &&& forall|i: int|
            0 <= i < self@.conns.len() ==> (#[trigger] self@.conns[i].rooms).no_duplicates()
    }

    /// A coordinator with no connections.
    pub fn new() -> (s: Self)
        ensures
            s.wf(),
            s@.conns.len() == 0,
            s@.next_conn_id == 0,
    {
        ChatServer { next_conn_id: 0, conns: Vec::new() }
    }

    /// Register a fresh connection: it gets the next handle and starts
    /// caring about the default room alone.  The returned record adds
    /// the session, under its display name, to the default room of the
    /// shared snapshot; the runtime must subscribe the room and apply
    /// the record through the hub.
    pub fn connect(&mut self, session_id: String, name: String, default_room: &String) -> (r: (
        u64,
        ChangeRoomReq,
    ))
        requires
            old(self).wf(),
            old(self)@.next_conn_id < u64::MAX,
        ensures
            final(self).wf(),
            r.0 == old(self)@.next_conn_id,
            final(self)@.next_conn_id == old(self)@.next_conn_id + 1,
            final(self)@.conns =~= old(self)@.conns.push(
                ConnModel { conn_id: r.0, session_id: session_id@, rooms: seq![default_room@] },
            ),
            r.1@ == (RecordModel {
                id: session_id@,
                name: Some(name@),
                room: default_room@,
                change_type: RoomChangeType::Add,
            }),
    {
        let conn_id = self.next_conn_id;
        let rec = ChangeRoomReq {
            id: session_id.clone(),
            name: Some(name),
            room: default_room.clone(),
            change_type: RoomChangeType::Add,
        };
        let mut rooms: Vec<String> = Vec::new();
        rooms.push(default_room.clone());
        proof {
            assert(rooms.deep_view() =~= seq![default_room@]);
        }
        let ghost sid = session_id@;
        self.conns.push(Conn { conn_id, session_id, rooms });
        self.next_conn_id = self.next_conn_id + 1;
        proof {
            assert(self@.conns =~= old(self)@.conns.push(
                ConnModel { conn_id, session_id: sid, rooms: seq![default_room@] },
            ));
            assert forall|i: int, j: int|
                0 <= i < self@.conns.len() && 0 <= j < self@.conns.len() && i
                    != j implies self@.conns[i].conn_id != self@.conns[j].conn_id by {
                let n = old(self)@.conns.len() as int;
                if i < n && j < n {
                    assert(self@.conns[i] == old(self)@.conns[i]);
                    assert(self@.conns[j] == old(self)@.conns[j]);
                } else if i == n {
                    assert(self@.conns[j].conn_id < conn_id);
                } else if j == n {
                    assert(self@.conns[i].conn_id < conn_id);
                }
            }
        }
        (conn_id, rec)
    }

    /// Deregister a connection by its handle.  The caller gets the
    /// session behind it, the rooms it cared about, and one removal
    /// record per such room; the runtime must apply them through the
    /// hub so the session vanishes from the shared snapshot.  An
    /// unknown handle changes nothing.
    pub fn disconnect(&mut self, conn_id: u64) -> (r: Option<(String, Vec<String>, Vec<ChangeRoomReq>)>)
        requires
            old(self).wf(),
        ensures
            final(self).wf(),
            final(self)@.next_conn_id == old(self)@.next_conn_id,
            (match r {
                Some(t) => exists|i: int|
                    0 <= i < old(self)@.conns.len() && (#[trigger] old(self)@.conns[i]).conn_id
                        == conn_id && t.0@ == old(self)@.conns[i].session_id && t.1.deep_view()
                        == old(self)@.conns[i].rooms && t.1.deep_view().no_duplicates()
                        && final(self)@.conns =~= old(self)@.conns.remove(i) && t.2@.map_values(
                        |c: ChangeRoomReq| c@,
                    ) == del_records(t.0@, t.1.deep_view()),
                None => final(self)@.conns == old(self)@.conns && (forall|i: int|
                    0 <= i < old(self)@.conns.len() ==> (#[trigger] old(
                        self,
                    )@.conns[i]).conn_id != conn_id),
            }),
    {
        let mut i: usize = 0;
        while i < self.conns.len()
            invariant
                self@ == old(self)@,
                old(self).wf(),
                i <= self@.conns.len(),
                forall|j: int| 0 <= j < i ==> (#[trigger] self@.conns[j]).conn_id != conn_id,
            decreases self@.conns.len() - i,
        {
            if self.conns[i].conn_id == conn_id {
                let ghost oldview = self@;
                proof {
                    assert(oldview.conns[i as int].conn_id == conn_id);
                }
                let c = self.conns.remove(i);
                let ghost cm = oldview.conns[i as int];
                proof {
                    assert(self@.conns =~= oldview.conns.remove(i as int));
                    assert(c@ == cm);
                    assert forall|w: int, x: int|
                        0 <= w < self@.conns.len() && 0 <= x < self@.conns.len() && w
                            != x implies self@.conns[w].conn_id != self@.conns[x].conn_id by {
                        let ow: int = if w < i {
                            w
                        } else {
                            w + 1
                        };
                        let ox: int = if x < i {
                            x
                        } else {
                            x + 1
                        };
                        assert(self@.conns[w] == oldview.conns[ow]);
                        assert(self@.conns[x] == oldview.conns[ox]);
                    }
                    assert forall|w: int| 0 <= w < self@.conns.len() implies self@.conns[w].conn_id
                        < self@.next_conn_id && (#[trigger] self@.conns[w].rooms).no_duplicates() by {
                        let ow: int = if w < i {
                            w
                        } else {
                            w + 1
                        };
                        assert(self@.conns[w] == oldview.conns[ow]);
                    }
                }
                let sid = c.session_id;
                let rooms = c.rooms;
                proof {
                    assert(sid@ == cm.session_id);
                    assert(rooms.deep_view() == cm.rooms);
                    assert(cm.rooms.no_duplicates());
                }
                let mut recs: Vec<ChangeRoomReq> = Vec::new();
                let mut j: usize = 0;
                proof {
                    assert(recs@.map_values(|cr: ChangeRoomReq| cr@) =~= del_records(
                        sid@,
                        rooms.deep_view().take(0),
                    ));
                }
                while j < rooms.len()
                    invariant
                        j <= rooms@.len(),
                        recs@.map_values(|cr: ChangeRoomReq| cr@) =~= del_records(
                            sid@,
                            rooms.deep_view().take(j as int),
                        ),
                    decreases rooms@.len() - j,
                {
                    let rec = ChangeRoomReq {
                        id: sid.clone(),
                        name: None,
                        room: rooms[j].clone(),
                        change_type: RoomChangeType::Del,
                    };
                    proof {
                        assert(rec@ == del_records(sid@, rooms.deep_view())[j as int]);
                        assert(recs@.push(rec).map_values(|cr: ChangeRoomReq| cr@)
                            =~= recs@.map_values(|cr: ChangeRoomReq| cr@).push(rec@));
                        assert(del_records(sid@, rooms.deep_view().take(j + 1)) =~= del_records(
                            sid@,
                            rooms.deep_view().take(j as int),
                        ).push(rec@));
                    }
                    recs.push(rec);
                    j += 1;
                }
                proof {
                    assert(rooms.deep_view().take(rooms@.len() as int) =~= rooms.deep_view());
                    assert(del_records(sid@, rooms.deep_view().take(rooms@.len() as int))
                        == del_records(sid@, rooms.deep_view()));
                }
                return Some((sid, rooms, recs));
            }
            i += 1;
        }
        None
    }

    /// Note that a session's connections now care about one more room,
    /// and build the record that adds the session to that room in the
    /// shared snapshot.  The runtime must subscribe the room and apply
    /// the record through the hub; the session's display name is not
    /// touched.
    pub fn join_room(&mut self, session_id: &String, room: &String) -> (rec: ChangeRoomReq)
        requires
            old(self).wf(),
        ensures
            final(self).wf(),
            final(self)@.next_conn_id == old(self)@.next_conn_id,
            final(self)@.conns.len() == old(self)@.conns.len(),
            forall|i: int|
                0 <= i < old(self)@.conns.len() ==> {
                    let oc = #[trigger] old(self)@.conns[i];
                    let nc = final(self)@.conns[i];
                    nc.conn_id == oc.conn_id && nc.session_id == oc.session_id && (if oc.session_id
                        == session_id@ {
                        nc.rooms.to_set() == oc.rooms.to_set().insert(room@)
                    } else {
                        nc.rooms == oc.rooms
                    })
                },
            rec@ == (RecordModel {
                id: session_id@,
                name: None,
                room: room@,
                change_type: RoomChangeType::Add,
            }),
    {
        let n = self.conns.len();
        let mut i: usize = 0;
        while i < n
            invariant
                old(self).wf(),
                n == self@.conns.len(),
                n == old(self)@.conns.len(),
                i <= n,
                self@.next_conn_id == old(self)@.next_conn_id,
                forall|k: int|
                    0 <= k < n ==> {
                        let oc = #[trigger] old(self)@.conns[k];
                        let nc = self@.conns[k];
                        nc.conn_id == oc.conn_id && nc.session_id == oc.session_id && (if k < i
                            && oc.session_id == session_id@ {
                            nc.rooms.to_set() == oc.rooms.to_set().insert(room@)
                                && nc.rooms.no_duplicates()
                        } else {
                            nc.rooms == oc.rooms
                        })
                    },
            decreases n - i,
        {
            let ghost prev = self@;
            if self.conns[i].session_id == *session_id {
                let mut present = false;
                let mut w: usize = 0;
                let m = self.conns[i].rooms.len();
                while w < m
                    invariant
                        i < self@.conns.len(),
                        m == self@.conns[i as int].rooms.len(),
                        w <= m,
                        present == exists|x: int|
                            0 <= x < w && self@.conns[i as int].rooms[x] == room@,
                    decreases m - w,
                {
                    if self.conns[i].rooms[w] == *room {
                        proof {
                            assert(self@.conns[i as int].rooms[w as int] == room@);
                        }
                        present = true;
                    }
                    w += 1;
                }
                if !present {
                    self.conns[i].rooms.push(room.clone());
                    proof {
                        let oc = prev.conns[i as int];
                        let nc = self@.conns[i as int];
                        assert(oc.rooms == old(self)@.conns[i as int].rooms);
                        assert(old(self)@.conns[i as int].rooms.no_duplicates());
                        assert(nc.rooms =~= oc.rooms.push(room@));
                        crate::rooms::lemma_push_to_set(oc.rooms, room@);
                        assert(!oc.rooms.contains(room@));
                        assert forall|w2: int, x2: int|
                            0 <= w2 < nc.rooms.len() && 0 <= x2 < nc.rooms.len() && w2
                                != x2 implies nc.rooms[w2] != nc.rooms[x2] by {
                            if w2 < oc.rooms.len() && x2 < oc.rooms.len() {
                            } else if w2 == oc.rooms.len() {
                                assert(oc.rooms.contains(nc.rooms[x2]) == (exists|y: int|
                                    0 <= y < oc.rooms.len() && oc.rooms[y] == nc.rooms[x2]));
                                assert(oc.rooms[x2] == nc.rooms[x2]);
                            } else if x2 == oc.rooms.len() {
                                assert(oc.rooms[w2] == nc.rooms[w2]);
                            }
                        }
                        assert(forall|k: int|
                            0 <= k < n && k != i ==> self@.conns[k] == prev.conns[k]);
                    }
                } else {
                    proof {
                        let oc = prev.conns[i as int];
                        assert(oc.rooms.to_set().contains(room@));
                        assert(oc.rooms.to_set().insert(room@) =~= oc.rooms.to_set());
                    }
                }
            }
            i += 1;
        }
        proof {
            assert forall|w: int, x: int|
                0 <= w < self@.conns.len() && 0 <= x < self@.conns.len() && w
                    != x implies self@.conns[w].conn_id != self@.conns[x].conn_id by {
                assert(self@.conns[w].conn_id == old(self)@.conns[w].conn_id);
                assert(self@.conns[x].conn_id == old(self)@.conns[x].conn_id);
            }
            assert forall|w: int| 0 <= w < self@.conns.len() implies self@.conns[w].conn_id
                < self@.next_conn_id by {
                assert(self@.conns[w].conn_id == old(self)@.conns[w].conn_id);
                assert(old(self)@.conns[w].conn_id < old(self)@.next_conn_id);
            }
            assert forall|w: int| 0 <= w < self@.conns.len() implies (#[trigger] self@.conns[w].rooms).no_duplicates() by {
                assert(self@.conns[w].conn_id == old(self)@.conns[w].conn_id);
                assert(old(self)@.conns[w].rooms.no_duplicates());
            }
        }
        ChangeRoomReq {
            id: session_id.clone(),
            name: None,
            room: room.clone(),
            change_type: RoomChangeType::Add,
        }
    }

    /// Note that a session's connections no longer care about a room,
    /// and build the record that removes the session from that room in
    /// the shared snapshot.  The runtime must apply the record through
    /// the hub, and may unsubscribe the room once no local connection
    /// cares about it (see [`ChatServer::has_local_interest`]).
    pub fn quit_room(&mut self, session_id: &String, room: &String) -> (rec: ChangeRoomReq)
        requires
            old(self).wf(),
        ensures
            final(self).wf(),
            final(self)@.next_conn_id == old(self)@.next_conn_id,
            final(self)@.conns.len() == old(self)@.conns.len(),
            forall|i: int|
                0 <= i < old(self)@.conns.len() ==> {
                    let oc = #[trigger] old(self)@.conns[i];
                    let nc = final(self)@.conns[i];
                    nc.conn_id == oc.conn_id && nc.session_id == oc.session_id && (if oc.session_id
                        == session_id@ {
                        nc.rooms.to_set() == oc.rooms.to_set().remove(room@)
                    } else {
                        nc.rooms == oc.rooms
                    })
                },
            rec@ == (RecordModel {
                id: session_id@,
                name: None,
                room: room@,
                change_type: RoomChangeType::Del,
            }),
    {
        let n = self.conns.len();
        let mut i: usize = 0;
        while i < n
            invariant
                old(self).wf(),
                n == self@.conns.len(),
                n == old(self)@.conns.len(),
                i <= n,
                self@.next_conn_id == old(self)@.next_conn_id,
                forall|k: int|
                    0 <= k < n ==> {
                        let oc = #[trigger] old(self)@.conns[k];
                        let nc = self@.conns[k];
                        nc.conn_id == oc.conn_id && nc.session_id == oc.session_id && (if k < i
                            && oc.session_id == session_id@ {
                            nc.rooms.to_set() == oc.rooms.to_set().remove(room@)
                                && nc.rooms.no_duplicates()
                        } else {
                            nc.rooms == oc.rooms
                        })
                    },
            decreases n - i,
        {
            let ghost prev = self@;
            if self.conns[i].session_id == *session_id {
                let mut found: Option<usize> = None;
                let mut w: usize = 0;
                let m = self.conns[i].rooms.len();
                while w < m
                    invariant
                        i < self@.conns.len(),
                        m == self@.conns[i as int].rooms.len(),
                        w <= m,
                        (match found {
                            Some(x) => x < m && self@.conns[i as int].rooms[x as int] == room@,
                            None => forall|x: int|
                                0 <= x < w ==> self@.conns[i as int].rooms[x] != room@,
                        }),
                    decreases m - w,
                {
                    if self.conns[i].rooms[w] == *room {
                        proof {
                            assert(self@.conns[i as int].rooms[w as int] == room@);
                        }
                        found = Some(w);
                    }
                    w += 1;
                }
                match found {
                    Some(x) => {
                        self.conns[i].rooms.remove(x);
                        proof {
                            let oc = prev.conns[i as int];
                            let nc = self@.conns[i as int];
                            assert(oc.rooms == old(self)@.conns[i as int].rooms);
                            assert(old(self)@.conns[i as int].rooms.no_duplicates());
                            assert(nc.rooms =~= oc.rooms.remove(x as int));
                            assert(oc.rooms[x as int] == room@);
                            crate::rooms::lemma_remove_to_set(oc.rooms, x as int);
                            let nr = oc.rooms.remove(x as int);
                            oc.rooms.remove_ensures(x as int);
                            assert forall|w2: int, x2: int|
                                0 <= w2 < nr.len() && 0 <= x2 < nr.len() && w2 != x2 implies nr[w2]
                                != nr[x2] by {
                                let ow: int = if w2 < x {
                                    w2
                                } else {
                                    w2 + 1
                                };
                                let ox: int = if x2 < x {
                                    x2
                                } else {
                                    x2 + 1
                                };
                                assert(nr[w2] == oc.rooms[ow]);
                                assert(nr[x2] == oc.rooms[ox]);
                            }
                            assert(forall|k: int|
                                0 <= k < n && k != i ==> self@.conns[k] == prev.conns[k]);
                        }
                    },
                    None => {
                        proof {
                            let oc = prev.conns[i as int];
                            assert(!oc.rooms.to_set().contains(room@));
                            assert(oc.rooms.to_set().remove(room@) =~= oc.rooms.to_set());
                        }
                    },
                }
            }
            i += 1;
        }
        proof {
            assert forall|w: int, x: int|
                0 <= w < self@.conns.len() && 0 <= x < self@.conns.len() && w
                    != x implies self@.conns[w].conn_id != self@.conns[x].conn_id by {
                assert(self@.conns[w].conn_id == old(self)@.conns[w].conn_id);
                assert(self@.conns[x].conn_id == old(self)@.conns[x].conn_id);
            }
            assert forall|w: int| 0 <= w < self@.conns.len() implies self@.conns[w].conn_id
                < self@.next_conn_id by {
                assert(self@.conns[w].conn_id == old(self)@.conns[w].conn_id);
                assert(old(self)@.conns[w].conn_id < old(self)@.next_conn_id);
            }
            assert forall|w: int| 0 <= w < self@.conns.len() implies (#[trigger] self@.conns[w].rooms).no_duplicates() by {
                assert(self@.conns[w].conn_id == old(self)@.conns[w].conn_id);
                assert(old(self)@.conns[w].rooms.no_duplicates());
            }
        }
        ChangeRoomReq {
            id: session_id.clone(),
            name: None,
            room: room.clone(),
            change_type: RoomChangeType::Del,
        }
    }

    /// Whether any local connection still cares about a room.  The
    /// runtime keeps exactly one hub subscription per room with local
    /// interest, so this answers when the last interest is gone.
    pub fn has_local_interest(&self, room: &String) -> (r: bool)
        ensures
            r == exists|i: int|
                0 <= i < self@.conns.len() && (#[trigger] self@.conns[i]).rooms.contains(room@),
    {
        let mut i: usize = 0;
        while i < self.conns.len()
            invariant
                i <= self@.conns.len(),
                forall|j: int| 0 <= j < i ==> !(#[trigger] self@.conns[j]).rooms.contains(room@),
            decreases self@.conns.len() - i,
        {
            let m = self.conns[i].rooms.len();
            let mut w: usize = 0;
            while w < m
                invariant
                    i < self@.conns.len(),
                    m == self@.conns[i as int].rooms.len(),
                    w <= m,
                    forall|x: int| 0 <= x < w ==> self@.conns[i as int].rooms[x] != room@,
                decreases m - w,
            {
                if self.conns[i].rooms[w] == *room {
                    proof {
                        assert(self@.conns[i as int].rooms[w as int] == room@);
                        assert(self@.conns[i as int].rooms.contains(room@));
                    }
                    return true;
                }
                w += 1;
            }
            proof {
                assert(!self@.conns[i as int].rooms.contains(room@));
            }
            i += 1;
        }
        false
    }

    /// Build the record that renames a session everywhere in the
    /// shared snapshot; the coordinator keeps no names locally.
    pub fn change_name(&self, session_id: &String, new_name: &String) -> (rec: ChangeRoomReq)
        ensures
            rec@ == (RecordModel {
                id: session_id@,
                name: Some(new_name@),
                room: Seq::<char>::empty(),
                change_type: RoomChangeType::NameChange,
            }),
    {
        ChangeRoomReq {
            id: session_id.clone(),
            name: Some(new_name.clone()),
            room: String::new(),
            change_type: RoomChangeType::NameChange,
        }
    }

    /// Wrap one chat payload for the room's channel; the envelope names
    /// the sender.
    pub fn send_message(&self, room: &String, session_id: &String, content: String) -> (m: MessageForHub)
        ensures
            m@ == (EnvelopeModel { room: room@, id: session_id@, content: content@ }),
    {
        MessageForHub { room: room.clone(), id: session_id.clone(), content }
    }

    /// Wrap one membership notification for the room's channel; the
    /// envelope names the session it is meant for.
    pub fn send_system_message(&self, room: &String, target_session_id: &String, content: String) -> (m: MessageForHub)
        ensures
            m@ == (EnvelopeModel { room: room@, id: target_session_id@, content: content@ }),
    {
        MessageForHub { room: room.clone(), id: target_session_id.clone(), content }
    }
}

/// Whether one local connection is to receive an envelope: a
/// membership notification goes to the connections of the session it
/// names; chat goes to every connection that cares about its room.
pub open spec fn conn_matches(c: ConnModel, m: EnvelopeModel) -> bool {
    if is_system_payload(m.content) {
        c.session_id == m.id
    } else {
        c.rooms.contains(m.room)
    }
}

/// The connection handles an envelope is delivered to, in table order.
pub open spec fn targets_of(conns: Seq<ConnModel>, m: EnvelopeModel) -> Seq<u64>
    decreases conns.len(),
{
    if conns.len() == 0 {
        Seq::empty()
    } else {
        let rest = targets_of(conns.drop_first(), m);
        if conn_matches(conns[0], m) {
            seq![conns[0].conn_id] + rest
        } else {
            rest
        }
    }
}

/// One more connection lands at the end of the delivery list.
proof fn lemma_targets_of_push(conns: Seq<ConnModel>, c: ConnModel, m: EnvelopeModel)
    ensures
        targets_of(conns.push(c), m) == if conn_matches(c, m) {
            targets_of(conns, m).push(c.conn_id)
        } else {
            targets_of(conns, m)
        },
    decreases conns.len(),
{
    if conns.len() == 0 {
        assert(conns.push(c)[0] == c);
        assert(conns.push(c).drop_first() =~= Seq::<ConnModel>::empty());
        assert(targets_of(conns.push(c), m) == (if conn_matches(c, m) {
            seq![c.conn_id] + targets_of(Seq::<ConnModel>::empty(), m)
        } else {
            targets_of(Seq::<ConnModel>::empty(), m)
        }));
        assert(targets_of(Seq::<ConnModel>::empty(), m) == Seq::<u64>::empty());
        assert(targets_of(conns, m) == Seq::<u64>::empty());
        if conn_matches(c, m) {
            assert(seq![c.conn_id] + Seq::<u64>::empty() =~= Seq::<u64>::empty().push(c.conn_id));
        }
    } else {
        assert(conns.push(c)[0] == conns[0]);
        assert(conns.push(c).drop_first() =~= conns.drop_first().push(c));
        lemma_targets_of_push(conns.drop_first(), c, m);
        assert(targets_of(conns.push(c), m) == (if conn_matches(conns[0], m) {
            seq![conns[0].conn_id] + targets_of(conns.drop_first().push(c), m)
        } else {
            targets_of(conns.drop_first().push(c), m)
        }));
        assert(targets_of(conns, m) == (if conn_matches(conns[0], m) {
            seq![conns[0].conn_id] + targets_of(conns.drop_first(), m)
        } else {
            targets_of(conns.drop_first(), m)
        }));
        if conn_matches(conns[0], m) && conn_matches(c, m) {
            assert(seq![conns[0].conn_id] + targets_of(conns.drop_first(), m).push(c.conn_id)
                =~= (seq![conns[0].conn_id] + targets_of(conns.drop_first(), m)).push(c.conn_id));
        }
    }
}

impl ChatServer {
    /// The local connections an inbound envelope is delivered to.
    pub fn deliver_targets(&self, msg: &MessageForHub) -> (out: Vec<u64>)
        ensures
            out@ == targets_of(self@.conns, msg@),
    {
        let system = is_system_payload_exec(msg.content.as_str());
        let mut out: Vec<u64> = Vec::new();
        let mut i: usize = 0;
        proof {
            assert(self@.conns.take(0) =~= Seq::<ConnModel>::empty());
        }
        while i < self.conns.len()
            invariant
                i <= self@.conns.len(),
                system == is_system_payload(msg@.content),
                out@ == targets_of(self@.conns.take(i as int), msg@),
            decreases self@.conns.len() - i,
        {
            let deliver: bool;
            if system {
                deliver = self.conns[i].session_id == msg.id;
            } else {
                let mut found = false;
                let m = self.conns[i].rooms.len();
                let mut w: usize = 0;
                while w < m
                    invariant
                        i < self@.conns.len(),
                        m == self@.conns[i as int].rooms.len(),
                        w <= m,
                        found == exists|x: int|
                            0 <= x < w && self@.conns[i as int].rooms[x] == msg@.room,
                    decreases m - w,
                {
                    if self.conns[i].rooms[w] == msg.room {
                        proof {
                            assert(self@.conns[i as int].rooms[w as int] == msg@.room);
                        }
                        found = true;
                    }
                    w += 1;
                }
                deliver = found;
            }
            proof {
                assert(deliver == conn_matches(self@.conns[i as int], msg@));
                lemma_targets_of_push(self@.conns.take(i as int), self@.conns[i as int], msg@);
                assert(self@.conns.take(i + 1) =~= self@.conns.take(i as int).push(
                    self@.conns[i as int],
                ));
            }
            if deliver {
                out.push(self.conns[i].conn_id);
            }
            i += 1;
        }
        proof {
            assert(self@.conns.take(self@.conns.len() as int) =~= self@.conns);
        }
        out
    }
}

/// Whether `content` renders a membership projection for session
/// `sid`: it is the frame of some listing whose rooms are exactly the
/// session's rooms and whose members match the snapshot.
#[verifier::opaque]
pub open spec fn projection_frame_ok(
    m: crate::rooms::SnapshotModel,
    sid: Seq<char>,
    content: Seq<char>,
) -> bool {
    exists|rs: Seq<RoomView>|
        content == #[trigger] update_rooms_frame(rs) && (forall|j: int|
            0 <= j < rs.len() ==> m.session_rooms[sid].contains((#[trigger] rs[j]).room@)
                && members_match(m, rs[j])) && (forall|r: Seq<char>| #[trigger]
            m.session_rooms[sid].contains(r) ==> exists|j: int|
                0 <= j < rs.len() && rs[j].room@ == r)
}

/// Render the membership projection one session is shown: every room
/// it is in, with the members and their display names.
pub fn list_frame(snap: &Snapshot, session_id: &String) -> (r: String)
    requires
        snap.wf(),
    ensures
        is_system_payload(r@),
        snap@.session_rooms.dom().contains(session_id@) ==> projection_frame_ok(
            snap@,
            session_id@,
            r@,
        ),
        !snap@.session_rooms.dom().contains(session_id@) ==> r@ == update_rooms_frame(
            Seq::<RoomView>::empty(),
        ),
{
    let req = RetrieveRroomsReq::new(RetrieveRroomsReqType::SessionID, session_id.clone());
    let u = snap.retrieve_rooms(&req);
    let r = format_update_rooms(&u);
    proof {
        crate::codec::lemma_update_rooms_frame_is_system(u.0@);
        if snap@.session_rooms.dom().contains(session_id@) {
            reveal(projection_frame_ok);
            assert(r@ == update_rooms_frame(u.0@));
        } else {
            assert(u.0@ =~= Seq::<RoomView>::empty());
        }
    }
    r
}

/// The notifications that follow a membership change in one room: one
/// envelope per member of the room, each naming its recipient and
/// carrying that recipient's own projection of the snapshot.  An
/// unknown room yields none.
#[verifier::loop_isolation(false)]
pub fn notify_room(snap: &Snapshot, tr: &String) -> (out: Vec<MessageForHub>)
    requires
        snap.wf(),
    ensures
        forall|k: int|
            0 <= k < out@.len() ==> {
                let m = #[trigger] out@[k];
                &&& m.room@ == tr@
                &&& snap@.rooms.dom().contains(tr@)
                &&& snap@.rooms[tr@].contains(m.id@)
                &&& is_system_payload(m.content@)
                &&& projection_frame_ok(snap@, m.id@, m.content@)
            },
        snap@.rooms.dom().contains(tr@) ==> forall|s: Seq<char>| #[trigger] snap@.rooms[
            tr@
        ].contains(s) ==> exists|k: int| 0 <= k < out@.len() && out@[k].id@ == s,
        !snap@.rooms.dom().contains(tr@) ==> out@.len() == 0,
{
    let req = RetrieveRroomsReq::new(RetrieveRroomsReqType::RoomID, tr.clone());
    let u = snap.retrieve_rooms(&req);
    let mut out: Vec<MessageForHub> = Vec::new();
    if u.0.len() == 0 {
        proof {
            assert(!snap@.rooms.dom().contains(tr@));
        }
        return out;
    }
    proof {
        if !snap@.rooms.dom().contains(tr@) {
            assert(u.0@.len() == 0);
        }
        assert(u.0@[0].room@ == tr@);
        assert(members_match(snap@, u.0@[0]));
    }
    let members = &u.0[0].members;
    let mut w: usize = 0;
    while w < members.len()
        invariant
            w <= members@.len(),
            out@.len() == w,
            forall|k: int|
                0 <= k < out@.len() ==> {
                    let m = #[trigger] out@[k];
                    &&& m.room@ == tr@
                    &&& m.id@ == members@[k].id@
                    &&& snap@.rooms[tr@].contains(m.id@)
                    &&& is_system_payload(m.content@)
                    &&& projection_frame_ok(snap@, m.id@, m.content@)
                },
        decreases members@.len() - w,
    {
        let to_id = members[w].id.clone();
        proof {
            assert(snap@.rooms[tr@].contains(to_id@));
            assert(snap@.session_rooms.dom().contains(to_id@));
        }
        let content = list_frame(snap, &to_id);
        out.push(MessageForHub { room: tr.clone(), id: to_id, content });
        w += 1;
    }
    proof {
        assert forall|s: Seq<char>| #[trigger] snap@.rooms[tr@].contains(s) implies exists|k: int|
            0 <= k < out@.len() && out@[k].id@ == s by {
            let j = choose|j: int|
                0 <= j < u.0@[0].members@.len() && u.0@[0].members@[j].id@ == s;
            assert(out@[j].id@ == s);
        }
    }
    out
}

/// The notifications that follow a change touching every room of one
/// session (a rename): one envelope per member of each room the
/// session is in, each carrying that member's own projection of the
/// snapshot.
#[verifier::rlimit(100)]
#[verifier::loop_isolation(false)]
pub fn notify_all_rooms_of(snap: &Snapshot, session_id: &String) -> (out: Vec<MessageForHub>)
    requires
        snap.wf(),
    ensures
        forall|k: int|
            0 <= k < out@.len() ==> {
                let m = #[trigger] out@[k];
                &&& crate::rooms::set_or_empty(snap@.session_rooms, session_id@).contains(
                    m.room@,
                )
                &&& snap@.rooms.dom().contains(m.room@)
                &&& snap@.rooms[m.room@].contains(m.id@)
                &&& is_system_payload(m.content@)
                &&& projection_frame_ok(snap@, m.id@, m.content@)
            },
        snap@.session_rooms.dom().contains(session_id@) ==> forall|rm: Seq<char>, s: Seq<char>|
            #![trigger snap@.session_rooms[session_id@].contains(rm), snap@.rooms[rm].contains(s)]
            snap@.session_rooms[session_id@].contains(rm) && snap@.rooms[rm].contains(s)
                ==> exists|k: int| 0 <= k < out@.len() && out@[k].room@ == rm && out@[k].id@ == s,
{
    let req = RetrieveRroomsReq::new(RetrieveRroomsReqType::SessionID, session_id.clone());
    let u = snap.retrieve_rooms(&req);
    proof {
        assert(req.query_type is SessionID);
        assert(req.id@ == session_id@);
    }
    let mut out: Vec<MessageForHub> = Vec::new();
    let mut j: usize = 0;
    while j < u.0.len()
        invariant
            j <= u.0@.len(),
            forall|k: int|
                0 <= k < out@.len() ==> {
                    let m = #[trigger] out@[k];
                    &&& crate::rooms::set_or_empty(snap@.session_rooms, session_id@).contains(
                        m.room@,
                    )
                    &&& snap@.rooms.dom().contains(m.room@)
                    &&& snap@.rooms[m.room@].contains(m.id@)
                    &&& is_system_payload(m.content@)
                    &&& projection_frame_ok(snap@, m.id@, m.content@)
                },
            forall|t: int|
                0 <= t < j ==> (forall|s: Seq<char>| #[trigger] snap@.rooms[
                    (#[trigger] u.0@[t]).room@
                ].contains(s) ==> exists|k: int|
                    0 <= k < out@.len() && out@[k].room@ == u.0@[t].room@ && out@[k].id@ == s),
        decreases u.0@.len() - j,
    {
        let tr = u.0[j].room.clone();
        proof {
            assert(snap@.session_rooms.dom().contains(session_id@));
            assert(snap@.session_rooms[session_id@].contains(u.0@[j as int].room@));
            assert(snap@.rooms.dom().contains(tr@));
        }
        let ghost out_before = out@;
        let mut add = notify_room(snap, &tr);
        let ghost addv = add@;
        out.append(&mut add);
        proof {
            assert(out@ == out_before + addv);
            assert forall|k: int| 0 <= k < out@.len() implies {
                let m = #[trigger] out@[k];
                &&& crate::rooms::set_or_empty(snap@.session_rooms, session_id@).contains(
                    m.room@,
                )
                &&& snap@.rooms.dom().contains(m.room@)
                &&& snap@.rooms[m.room@].contains(m.id@)
                &&& is_system_payload(m.content@)
                &&& projection_frame_ok(snap@, m.id@, m.content@)
            } by {
                if k < out_before.len() {
                    assert(out@[k] == out_before[k]);
                } else {
                    assert(out@[k] == addv[k - out_before.len()]);
                    assert(out@[k].room@ == tr@);
                }
            }
            assert forall|t: int|
                0 <= t < j + 1 implies (forall|s: Seq<char>| #[trigger] snap@.rooms[
                    (#[trigger] u.0@[t]).room@
                ].contains(s) ==> exists|k: int|
                    0 <= k < out@.len() && out@[k].room@ == u.0@[t].room@ && out@[k].id@
                        == s) by {
                assert forall|s: Seq<char>| #[trigger] snap@.rooms[u.0@[t].room@].contains(
                    s,
                ) implies exists|k: int|
                    0 <= k < out@.len() && out@[k].room@ == u.0@[t].room@ && out@[k].id@ == s by {
                    if t < j {
                        let k = choose|k: int|
                            0 <= k < out_before.len() && out_before[k].room@ == u.0@[t].room@
                                && out_before[k].id@ == s;
                        assert(out@[k] == out_before[k]);
                    } else {
                        let k = choose|k: int| 0 <= k < addv.len() && addv[k].id@ == s;
                        assert(out@[out_before.len() + k] == addv[k]);
                        assert(out@[out_before.len() + k].room@ == tr@);
                    }
                }
            }
        }
        j += 1;
    }
    proof {
        if snap@.session_rooms.dom().contains(session_id@) {
            assert forall|rm: Seq<char>, s: Seq<char>|
                #![trigger snap@.session_rooms[session_id@].contains(rm), snap@.rooms[rm].contains(s)]
                snap@.session_rooms[session_id@].contains(rm) && snap@.rooms[rm].contains(
                    s,
                ) implies exists|k: int|
                0 <= k < out@.len() && out@[k].room@ == rm && out@[k].id@ == s by {
                let x = choose|x: int| 0 <= x < u.0@.len() && u.0@[x].room@ == rm;
                assert(snap@.rooms[u.0@[x].room@].contains(s));
            }
        }
    }
    out
}

} // verus!
