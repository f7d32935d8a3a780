//! Data carried between processes through the shared state store.
//!
//! A membership change travels as a [`ChangeRoomReq`] and is answered by a
//! [`RoomChangeForHubResponse`]; chat payloads travel as a
//! [`MessageForHub`]; read-only projections of the shared snapshot are
//! requested with a [`RetrieveRroomsReq`] and come back as an
//! [`UpdateRooms`].  The store itself and the transport around these
//! values live outside the library.

use vstd::prelude::*;

verus! {

/// The three kinds of membership mutation the shared snapshot accepts.
pub enum RoomChangeType {
    Add,
    Del,
    NameChange,
}

impl Clone for RoomChangeType {
    fn clone(&self) -> (r: Self)
        ensures
            r == self,
    {
        match self {
            RoomChangeType::Add => RoomChangeType::Add,
            RoomChangeType::Del => RoomChangeType::Del,
            RoomChangeType::NameChange => RoomChangeType::NameChange,
        }
    }
}

impl Default for RoomChangeType {
    fn default() -> (r: Self)
        ensures
            r is Add,
    {
        RoomChangeType::Add
    }
}

/// A membership change record: the sole input of the room mutation.
pub struct ChangeRoomReq {
    pub id: String,
    pub name: Option<String>,
    pub room: String,
    pub change_type: RoomChangeType,
}

/// The mathematical shape of a membership change record.
pub ghost struct RecordModel {
    pub id: Seq<char>,
    pub name: Option<Seq<char>>,
    pub room: Seq<char>,
    pub change_type: RoomChangeType,
}

impl View for ChangeRoomReq {
    type V = RecordModel;

    open spec fn view(&self) -> RecordModel {
        RecordModel {
            id: self.id@,
            name: match self.name {
                Some(n) => Some(n@),
                None => None,
            },
            room: self.room@,
            change_type: self.change_type,
        }
    }
}

/// Status returned by the room mutation: zero on success, nonzero with a
/// message on rejection.
pub struct RoomChangeForHubResponse {
    pub status: i8,
    pub msg: String,
}

/// A message envelope as it crosses processes: the room it belongs to,
/// the session it concerns, and the rendered payload.
pub struct MessageForHub {
    pub room: String,
    pub id: String,
    pub content: String,
}

/// The mathematical shape of a cross-process envelope.
pub ghost struct EnvelopeModel {
    pub room: Seq<char>,
    pub id: Seq<char>,
    pub content: Seq<char>,
}

impl View for MessageForHub {
    type V = EnvelopeModel;

    open spec fn view(&self) -> EnvelopeModel {
        EnvelopeModel { room: self.room@, id: self.id@, content: self.content@ }
    }
}

/// The two read-only projections of the shared snapshot.
pub enum RetrieveRroomsReqType {
    RoomID,
    SessionID,
}

/// A request for a read-only projection of the shared snapshot: either
/// every session in a given room, or every room a given session is in.
pub struct RetrieveRroomsReq {
    pub query_type: RetrieveRroomsReqType,
    pub id: String,
}

impl RetrieveRroomsReq {
    pub fn new(query_type: RetrieveRroomsReqType, id: String) -> (r: Self)
        ensures
            r.query_type == query_type,
            r.id@ == id@,
    {
        Self { query_type, id }
    }
}

/// The rooms a process currently holds one fan-out subscription for.
/// The runtime keeps exactly one listener task per entry, opened
/// lazily on first interest and torn down, with a confirmed close
/// handshake, on last interest; entries never repeat.
pub struct SubscriptionTable {
    pub rooms: Vec<String>,
}

impl SubscriptionTable {
    /// No room is listed twice.
    pub open spec fn wf(&self) -> bool {
        self.rooms.deep_view().no_duplicates()
    }

    /// The set of rooms currently subscribed.
    pub open spec fn subscribed(&self) -> Set<Seq<char>> {
        self.rooms.deep_view().to_set()
    }

    /// A table with no subscriptions.
    pub fn new() -> (t: Self)
        ensures
            t.wf(),
            t.subscribed() =~= Set::<Seq<char>>::empty(),
    {
        let t = SubscriptionTable { rooms: Vec::new() };
        proof {
            assert(t.rooms.deep_view() =~= Seq::<Seq<char>>::empty());
        }
        t
    }

    /// Note interest in a room.  The answer says whether a fresh
    /// subscription must be opened: a room already subscribed is left
    /// alone.
    pub fn subscribe_room(&mut self, room: &String) -> (added: bool)
        requires
            old(self).wf(),
        ensures
            final(self).wf(),
            added == !old(self).subscribed().contains(room@),
            final(self).subscribed() =~= old(self).subscribed().insert(room@),
    {
        let found = crate::rooms::str_vec_find(&self.rooms, room);
        match found {
            Some(_) => {
                proof {
                    assert(self.subscribed().contains(room@));
                    assert(self.subscribed().insert(room@) =~= self.subscribed());
                }
                false
            },
            None => {
                let ghost oldv = self.rooms.deep_view();
                self.rooms.push(room.clone());
                proof {
                    assert(self.rooms.deep_view() =~= oldv.push(room@));
                    crate::rooms::lemma_push_to_set(oldv, room@);
                    assert forall|w: int, x: int|
                        0 <= w < self.rooms.deep_view().len() && 0 <= x
                            < self.rooms.deep_view().len() && w != x implies self.rooms.deep_view()[w]
                        != self.rooms.deep_view()[x] by {
                        if w < oldv.len() && x < oldv.len() {
                        } else if w == oldv.len() {
                            assert(oldv[x] == self.rooms.deep_view()[x]);
                        } else if x == oldv.len() {
                            assert(oldv[w] == self.rooms.deep_view()[w]);
                        }
                    }
                }
                true
            },
        }
    }

    /// Drop interest in a room.  The answer says whether a
    /// subscription must be closed; the close is confirmed by the
    /// listener before the room may be treated as unsubscribed, which
    /// is the runtime's part.
    pub fn unsubscribe_room(&mut self, room: &String) -> (removed: bool)
        requires
            old(self).wf(),
        ensures
            final(self).wf(),
            removed == old(self).subscribed().contains(room@),
            final(self).subscribed() =~= old(self).subscribed().remove(room@),
    {
        let found = crate::rooms::str_vec_find(&self.rooms, room);
        match found {
            Some(j) => {
                let ghost oldv = self.rooms.deep_view();
                self.rooms.remove(j);
                proof {
                    assert(self.rooms.deep_view() =~= oldv.remove(j as int));
                    assert(oldv[j as int] == room@);
                    crate::rooms::lemma_remove_to_set(oldv, j as int);
                    oldv.remove_ensures(j as int);
                    assert forall|w: int, x: int|
                        0 <= w < self.rooms.deep_view().len() && 0 <= x
                            < self.rooms.deep_view().len() && w != x implies self.rooms.deep_view()[w]
                        != self.rooms.deep_view()[x] by {
                        let ow: int = if w < j {
                            w
                        } else {
                            w + 1
                        };
                        let ox: int = if x < j {
                            x
                        } else {
                            x + 1
                        };
                        assert(self.rooms.deep_view()[w] == oldv[ow]);
                        assert(self.rooms.deep_view()[x] == oldv[ox]);
                    }
                }
                true
            },
            None => {
                proof {
                    assert(!self.subscribed().contains(room@));
                    assert(self.subscribed().remove(room@) =~= self.subscribed());
                }
                false
            },
        }
    }

    /// Whether a room is currently subscribed.
    pub fn is_subscribed(&self, room: &String) -> (r: bool)
        ensures
            r == self.subscribed().contains(room@),
    {
        let found = crate::rooms::str_vec_find(&self.rooms, room);
        match found {
            Some(_) => true,
            None => false,
        }
    }
}

/// One room of a projection: its name and its members with their
/// display names.
pub struct RoomView {
    pub room: String,
    pub members: Vec<crate::rooms::SessionEntry>,
}

/// A projection of the shared snapshot: rooms, each with the sessions it
/// holds and their display names.
pub struct UpdateRooms(pub Vec<RoomView>);

} // verus!
