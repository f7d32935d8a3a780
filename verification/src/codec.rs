//! Rendering of the frames sent to clients, and the codec for the
//! envelope that crosses processes.
//!
//! Every text frame a client receives opens with a fixed tag the client
//! dispatches on, followed by a rendered body; the body's strings are
//! escaped the way JSON asks.  Between processes a chat payload travels
//! as a [`MessageForHub`], encoded by [`encode_envelope`] and read back
//! by [`decode_envelope`]; decoding an encoded envelope gives back the
//! room, session and payload exactly.

use vstd::prelude::*;
use vstd::string::StrSliceExecFns;
use vstd::string::StringExecFns;

use crate::hub::{EnvelopeModel, MessageForHub, RoomView, UpdateRooms};
use crate::rooms::SessionEntry;

verus! {

/// Relies on String::push: appends exactly the one given character.
#[verifier::external_body]
fn push_char(s: &mut String, c: char)
    ensures
        final(s)@ == old(s)@.push(c),
{
    s.push(c);
}

/// The hexadecimal digit of a value below sixteen, lower case.
pub open spec fn hex_digit(n: int) -> char {
    if n == 0 {
        '0'
    } else if n == 1 {
        '1'
    } else if n == 2 {
        '2'
    } else if n == 3 {
        '3'
    } else if n == 4 {
        '4'
    } else if n == 5 {
        '5'
    } else if n == 6 {
        '6'
    } else if n == 7 {
        '7'
    } else if n == 8 {
        '8'
    } else if n == 9 {
        '9'
    } else if n == 10 {
        'a'
    } else if n == 11 {
        'b'
    } else if n == 12 {
        'c'
    } else if n == 13 {
        'd'
    } else if n == 14 {
        'e'
    } else {
        'f'
    }
}

fn hex_digit_exec(n: u32) -> (r: char)
    requires
        n < 16,
    ensures
        r == hex_digit(n as int),
{
    if n == 0 {
        '0'
    } else if n == 1 {
        '1'
    } else if n == 2 {
        '2'
    } else if n == 3 {
        '3'
    } else if n == 4 {
        '4'
    } else if n == 5 {
        '5'
    } else if n == 6 {
        '6'
    } else if n == 7 {
        '7'
    } else if n == 8 {
        '8'
    } else if n == 9 {
        '9'
    } else if n == 10 {
        'a'
    } else if n == 11 {
        'b'
    } else if n == 12 {
        'c'
    } else if n == 13 {
        'd'
    } else if n == 14 {
        'e'
    } else {
        'f'
    }
}

/// How one character is written inside a JSON string.
pub open spec fn escape_char(c: char) -> Seq<char> {
    if c == '"' {
        seq!['\\', '"']
    } else if c == '\\' {
        seq!['\\', '\\']
    } else if c == '\n' {
        seq!['\\', 'n']
    } else if c == '\r' {
        seq!['\\', 'r']
    } else if c == '\t' {
        seq!['\\', 't']
    } else if (c as u32) < 0x20 {
        seq!['\\', 'u', '0', '0', hex_digit((c as u32) as int / 16), hex_digit((c as u32) as int % 16)]
    } else {
        seq![c]
    }
}

/// A string written inside a JSON string, character by character.
pub open spec fn json_escaped(s: Seq<char>) -> Seq<char>
    decreases s.len(),
{
    if s.len() == 0 {
        Seq::empty()
    } else {
        escape_char(s[0]) + json_escaped(s.drop_first())
    }
}

/// Escaping one more character appends its escape.
proof fn lemma_json_escaped_push(s: Seq<char>, c: char)
    ensures
        json_escaped(s.push(c)) == json_escaped(s) + escape_char(c),
    decreases s.len(),
{
    if s.len() == 0 {
        assert(s.push(c)[0] == c);
        assert(s.push(c).drop_first() =~= Seq::<char>::empty());
        assert(json_escaped(s.push(c)) == escape_char(c) + json_escaped(Seq::<char>::empty()));
        assert(escape_char(c) + Seq::<char>::empty() =~= escape_char(c));
        assert(json_escaped(s) + escape_char(c) =~= escape_char(c));
    } else {
        assert(s.push(c)[0] == s[0]);
        assert(s.push(c).drop_first() =~= s.drop_first().push(c));
        lemma_json_escaped_push(s.drop_first(), c);
        assert(escape_char(s[0]) + (json_escaped(s.drop_first()) + escape_char(c)) =~= (escape_char(
            s[0],
        ) + json_escaped(s.drop_first())) + escape_char(c));
    }
}

/// Append the JSON escaping of `s` to `out`.
fn push_escaped(out: &mut String, s: &str)
    ensures
        final(out)@ == old(out)@ + json_escaped(s@),
{
    let n = s.unicode_len();
    let mut i: usize = 0;
    proof {
        assert(s@.take(0) =~= Seq::<char>::empty());
        assert(old(out)@ + json_escaped(s@.take(0)) =~= old(out)@);
    }
    while i < n
        invariant
            n == s@.len(),
            i <= n,
            out@ == old(out)@ + json_escaped(s@.take(i as int)),
        decreases n - i,
    {
        let c = s.get_char(i);
        if c == '"' {
            push_char(out, '\\');
            push_char(out, '"');
        } else if c == '\\' {
            push_char(out, '\\');
            push_char(out, '\\');
        } else if c == '\n' {
            push_char(out, '\\');
            push_char(out, 'n');
        } else if c == '\r' {
            push_char(out, '\\');
            push_char(out, 'r');
        } else if c == '\t' {
            push_char(out, '\\');
            push_char(out, 't');
        } else {
            let u = c as u32;
            if u < 0x20 {
                push_char(out, '\\');
                push_char(out, 'u');
                push_char(out, '0');
                push_char(out, '0');
                push_char(out, hex_digit_exec(u / 16));
                push_char(out, hex_digit_exec(u % 16));
            } else {
                push_char(out, c);
            }
        }
        proof {
            lemma_json_escaped_push(s@.take(i as int), c);
            assert(s@.take(i + 1) =~= s@.take(i as int).push(c));
            assert(out@ =~= old(out)@ + json_escaped(s@.take(i + 1)));
        }
        i += 1;
    }
    proof {
        assert(s@.take(n as int) =~= s@);
    }
}

/// The decimal digit of a value below ten.
pub open spec fn digit_char(n: int) -> char {
    if n == 0 {
        '0'
    } else if n == 1 {
        '1'
    } else if n == 2 {
        '2'
    } else if n == 3 {
        '3'
    } else if n == 4 {
        '4'
    } else if n == 5 {
        '5'
    } else if n == 6 {
        '6'
    } else if n == 7 {
        '7'
    } else if n == 8 {
        '8'
    } else {
        '9'
    }
}

/// A number written in decimal, most significant digit first.
pub open spec fn dec_digits(n: nat) -> Seq<char>
    decreases n,
{
    if n < 10 {
        seq![digit_char(n as int)]
    } else {
        dec_digits(n / 10) + seq![digit_char((n % 10) as int)]
    }
}

fn digit_char_exec(n: u128) -> (r: char)
    requires
        n < 10,
    ensures
        r == digit_char(n as int),
{
    if n == 0 {
        '0'
    } else if n == 1 {
        '1'
    } else if n == 2 {
        '2'
    } else if n == 3 {
        '3'
    } else if n == 4 {
        '4'
    } else if n == 5 {
        '5'
    } else if n == 6 {
        '6'
    } else if n == 7 {
        '7'
    } else if n == 8 {
        '8'
    } else {
        '9'
    }
}

/// Append the decimal rendering of `n` to `out`.
fn push_dec(out: &mut String, n: u128)
    ensures
        final(out)@ == old(out)@ + dec_digits(n as nat),
    decreases n,
{
    if n >= 10 {
        push_dec(out, n / 10);
        push_char(out, digit_char_exec(n % 10));
        proof {
            assert((old(out)@ + dec_digits((n / 10) as nat)).push(digit_char((n % 10) as int))
                =~= old(out)@ + (dec_digits((n / 10) as nat) + seq![digit_char((n % 10) as int)]));
        }
    } else {
        push_char(out, digit_char_exec(n));
        proof {
            assert(old(out)@.push(digit_char(n as int)) =~= old(out)@ + seq![
                digit_char(n as int),
            ]);
        }
    }
}

/// The frame telling a client its assigned room and name.
pub open spec fn update_session_frame(room: Seq<char>, name: Seq<char>) -> Seq<char> {
    "update_session:{\"room\":\""@ + json_escaped(room) + "\",\"name\":\""@ + json_escaped(name)
        + "\"}"@
}

/// Render the frame telling a client its assigned room and name.
pub fn format_update_session(room: &str, name: &str) -> (r: String)
    ensures
        r@ == update_session_frame(room@, name@),
{
    let mut out = String::from_str("update_session:{\"room\":\"");
    push_escaped(&mut out, room);
    out.append("\",\"name\":\"");
    push_escaped(&mut out, name);
    out.append("\"}");
    proof {
        assert(out@ =~= update_session_frame(room@, name@));
    }
    out
}

/// The frame carrying one chat message to a client.
pub open spec fn message_frame(
    id: nat,
    room: Seq<char>,
    from_id: Seq<char>,
    from_name: Seq<char>,
    content: Seq<char>,
    time: Seq<char>,
) -> Seq<char> {
    "message:{\"id\":"@ + dec_digits(id) + ",\"room\":\""@ + json_escaped(room)
        + "\",\"from_id\":\""@ + json_escaped(from_id) + "\",\"from_name\":\""@ + json_escaped(
        from_name,
    ) + "\",\"content\":\""@ + json_escaped(content) + "\",\"time\":\""@ + json_escaped(time)
        + "\"}"@
}

/// One chat message as shown to clients: a fresh identifier, where it
/// was said, by whom, the text, and when.
pub struct MessageContent {
    pub id: u128,
    pub room: String,
    pub from_id: String,
    pub from_name: String,
    pub content: String,
    pub time: String,
}

/// Relies on uuid::Uuid::new_v4 and Uuid::as_u128: a fresh random
/// message identifier; nothing is promised of its value.
#[verifier::external_body]
fn fresh_message_id() -> u128 {
    uuid::Uuid::new_v4().as_u128()
}

/// Relies on chrono::Utc::now and DateTime::format: the current wall
/// clock rendered as text; nothing is promised of its value.
#[verifier::external_body]
fn now_string() -> String {
    chrono::Utc::now().format("%Y-%m-%d %H:%M:%S").to_string()
}

impl MessageContent {
    /// Render one chat message as its client frame from the given
    /// identifier and time stamp.
    pub fn format_with(
        id: u128,
        room: &str,
        from_id: &str,
        from_name: &str,
        content: &str,
        time: &str,
    ) -> (r: String)
        ensures
            r@ == message_frame(id as nat, room@, from_id@, from_name@, content@, time@),
    {
        let mut out = String::from_str("message:{\"id\":");
        push_dec(&mut out, id);
        out.append(",\"room\":\"");
        push_escaped(&mut out, room);
        out.append("\",\"from_id\":\"");
        push_escaped(&mut out, from_id);
        out.append("\",\"from_name\":\"");
        push_escaped(&mut out, from_name);
        out.append("\",\"content\":\"");
        push_escaped(&mut out, content);
        out.append("\",\"time\":\"");
        push_escaped(&mut out, time);
        out.append("\"}");
        proof {
            assert(out@ =~= message_frame(
                id as nat,
                room@,
                from_id@,
                from_name@,
                content@,
                time@,
            ));
        }
        out
    }

    /// Render one chat message as its client frame, stamped with a
    /// fresh random identifier and the current time.
    pub fn format(room: &str, from_id: &str, from_name: &str, content: &str) -> (r: String)
        ensures
            exists|id: nat, time: Seq<char>|
                r@ == message_frame(id, room@, from_id@, from_name@, content@, time),
    {
        let id = fresh_message_id();
        let time = now_string();
        let r = Self::format_with(id, room, from_id, from_name, content, time.as_str());
        proof {
            assert(r@ == message_frame(id as nat, room@, from_id@, from_name@, content@, time@));
        }
        r
    }
}

/// The members of one room as a JSON object body: session ids as keys,
/// display names as values, comma separated.
pub open spec fn members_json(ms: Seq<SessionEntry>) -> Seq<char>
    decreases ms.len(),
{
    if ms.len() == 0 {
        Seq::empty()
    } else {
        let one = "\""@ + json_escaped(ms[0].id@) + "\":\""@ + json_escaped(ms[0].name@) + "\""@;
        if ms.len() == 1 {
            one
        } else {
            one + ","@ + members_json(ms.drop_first())
        }
    }
}

/// Rooms as a JSON object body: room names as keys, member objects as
/// values, comma separated.
pub open spec fn rooms_json(rs: Seq<RoomView>) -> Seq<char>
    decreases rs.len(),
{
    if rs.len() == 0 {
        Seq::empty()
    } else {
        let one = "\""@ + json_escaped(rs[0].room@) + "\":{"@ + members_json(rs[0].members@)
            + "}"@;
        if rs.len() == 1 {
            one
        } else {
            one + ","@ + rooms_json(rs.drop_first())
        }
    }
}

/// The frame carrying a membership snapshot projection to a client.
pub open spec fn update_rooms_frame(rs: Seq<RoomView>) -> Seq<char> {
    "update_rooms:{"@ + rooms_json(rs) + "}"@
}

/// Listing one more member appends its pair after a comma.
proof fn lemma_members_json_push(ms: Seq<SessionEntry>, e: SessionEntry)
    ensures
        members_json(ms.push(e)) == if ms.len() == 0 {
            "\""@ + json_escaped(e.id@) + "\":\""@ + json_escaped(e.name@) + "\""@
        } else {
            members_json(ms) + ","@ + ("\""@ + json_escaped(e.id@) + "\":\""@ + json_escaped(
                e.name@,
            ) + "\""@)
        },
    decreases ms.len(),
{
    let one = "\""@ + json_escaped(e.id@) + "\":\""@ + json_escaped(e.name@) + "\""@;
    if ms.len() == 0 {
        assert(ms.push(e)[0] == e);
        assert(ms.push(e).len() == 1);
    } else {
        assert(ms.push(e)[0] == ms[0]);
        assert(ms.push(e).drop_first() =~= ms.drop_first().push(e));
        lemma_members_json_push(ms.drop_first(), e);
        let head = "\""@ + json_escaped(ms[0].id@) + "\":\""@ + json_escaped(ms[0].name@) + "\""@;
        if ms.len() == 1 {
            assert(ms.drop_first().len() == 0);
            assert(members_json(ms.push(e)) == head + ","@ + members_json(
                ms.drop_first().push(e),
            ));
            assert(members_json(ms.drop_first().push(e)) == one);
            assert(members_json(ms) == head);
        } else {
            assert(head + ","@ + (members_json(ms.drop_first()) + ","@ + one) =~= (head + ","@
                + members_json(ms.drop_first())) + ","@ + one);
        }
    }
}

/// Listing one more room appends its object after a comma.
proof fn lemma_rooms_json_push(rs: Seq<RoomView>, rv: RoomView)
    ensures
        rooms_json(rs.push(rv)) == if rs.len() == 0 {
            "\""@ + json_escaped(rv.room@) + "\":{"@ + members_json(rv.members@) + "}"@
        } else {
            rooms_json(rs) + ","@ + ("\""@ + json_escaped(rv.room@) + "\":{"@ + members_json(
                rv.members@,
            ) + "}"@)
        },
    decreases rs.len(),
{
    let one = "\""@ + json_escaped(rv.room@) + "\":{"@ + members_json(rv.members@) + "}"@;
    if rs.len() == 0 {
        assert(rs.push(rv)[0] == rv);
        assert(rs.push(rv).len() == 1);
    } else {
        assert(rs.push(rv)[0] == rs[0]);
        assert(rs.push(rv).drop_first() =~= rs.drop_first().push(rv));
        lemma_rooms_json_push(rs.drop_first(), rv);
        let head = "\""@ + json_escaped(rs[0].room@) + "\":{"@ + members_json(rs[0].members@)
            + "}"@;
        if rs.len() == 1 {
            assert(rs.drop_first().len() == 0);
            assert(rooms_json(rs.push(rv)) == head + ","@ + rooms_json(rs.drop_first().push(rv)));
            assert(rooms_json(rs.drop_first().push(rv)) == one);
            assert(rooms_json(rs) == head);
        } else {
            assert(head + ","@ + (rooms_json(rs.drop_first()) + ","@ + one) =~= (head + ","@
                + rooms_json(rs.drop_first())) + ","@ + one);
        }
    }
}

/// Render the frame carrying a membership snapshot projection.
pub fn format_update_rooms(u: &UpdateRooms) -> (r: String)
    ensures
        r@ == update_rooms_frame(u.0@),
{
    let mut out = String::from_str("update_rooms:{");
    let mut i: usize = 0;
    proof {
        assert(u.0@.take(0) =~= Seq::<RoomView>::empty());
        assert("update_rooms:{"@ + rooms_json(u.0@.take(0)) =~= "update_rooms:{"@);
    }
    while i < u.0.len()
        invariant
            i <= u.0@.len(),
            out@ == "update_rooms:{"@ + rooms_json(u.0@.take(i as int)),
        decreases u.0@.len() - i,
    {
        if i > 0 {
            out.append(",");
        }
        out.append("\"");
        push_escaped(&mut out, u.0[i].room.as_str());
        out.append("\":{");
        let ms = &u.0[i].members;
        let mut j: usize = 0;
        proof {
            assert(ms@.take(0) =~= Seq::<SessionEntry>::empty());
            assert(members_json(ms@.take(0)) =~= Seq::<char>::empty());
            assert(out@ + members_json(ms@.take(0)) =~= out@);
        }
        let ghost mid = out@;
        while j < ms.len()
            invariant
                j <= ms@.len(),
                ms@ == u.0@[i as int].members@,
                out@ == mid + members_json(ms@.take(j as int)),
            decreases ms@.len() - j,
        {
            if j > 0 {
                out.append(",");
            }
            out.append("\"");
            push_escaped(&mut out, ms[j].id.as_str());
            out.append("\":\"");
            push_escaped(&mut out, ms[j].name.as_str());
            out.append("\"");
            proof {
                lemma_members_json_push(ms@.take(j as int), ms@[j as int]);
                assert(ms@.take(j + 1) =~= ms@.take(j as int).push(ms@[j as int]));
                assert(out@ =~= mid + members_json(ms@.take(j + 1)));
            }
            j += 1;
        }
        out.append("}");
        proof {
            assert(ms@.take(ms@.len() as int) =~= ms@);
            lemma_rooms_json_push(u.0@.take(i as int), u.0@[i as int]);
            assert(u.0@.take(i + 1) =~= u.0@.take(i as int).push(u.0@[i as int]));
            assert(out@ =~= "update_rooms:{"@ + rooms_json(u.0@.take(i + 1)));
        }
        i += 1;
    }
    out.append("}");
    proof {
        assert(u.0@.take(u.0@.len() as int) =~= u.0@);
        assert(out@ =~= update_rooms_frame(u.0@));
    }
    out
}

/// Whether a string opens with the given prefix.
pub fn starts_with_str(s: &str, p: &str) -> (r: bool)
    ensures
        r == (s@.len() >= p@.len() && s@.take(p@.len() as int) == p@),
{
    let np = p.unicode_len();
    let ns = s.unicode_len();
    if ns < np {
        return false;
    }
    let mut i: usize = 0;
    while i < np
        invariant
            np == p@.len(),
            ns == s@.len(),
            np <= ns,
            i <= np,
            forall|j: int| 0 <= j < i ==> s@[j] == p@[j],
        decreases np - i,
    {
        if s.get_char(i) != p.get_char(i) {
            proof {
                assert(s@.take(np as int)[i as int] != p@[i as int]);
            }
            return false;
        }
        i += 1;
    }
    proof {
        assert(s@.take(np as int) =~= p@);
    }
    true
}

/// Whether a payload is a membership notification rather than chat: it
/// opens with one of the membership tags the clients dispatch on.
pub open spec fn is_system_payload(content: Seq<char>) -> bool {
    (content.len() >= "update_rooms:"@.len() && content.take("update_rooms:"@.len() as int)
        == "update_rooms:"@) || (content.len() >= "update_session:"@.len() && content.take(
        "update_session:"@.len() as int,
    ) == "update_session:"@)
}

/// Whether a payload is a membership notification rather than chat.
pub fn is_system_payload_exec(content: &str) -> (r: bool)
    ensures
        r == is_system_payload(content@),
{
    starts_with_str(content, "update_rooms:") || starts_with_str(content, "update_session:")
}

/// A rendered membership projection frame is a membership notification.
pub proof fn lemma_update_rooms_frame_is_system(rs: Seq<RoomView>)
    ensures
        is_system_payload(update_rooms_frame(rs)),
{
    reveal_strlit("update_rooms:");
    reveal_strlit("update_rooms:{");
    let f = update_rooms_frame(rs);
    assert(f.take("update_rooms:"@.len() as int) =~= "update_rooms:"@);
}

/// How one character of an envelope field travels: the separator and
/// the escape character themselves travel escaped.
pub open spec fn env_escape_char(c: char) -> Seq<char> {
    if c == '\\' {
        seq!['\\', '\\']
    } else if c == '\n' {
        seq!['\\', 'n']
    } else {
        seq![c]
    }
}

/// An envelope field as it travels, character by character.
pub open spec fn env_escaped(s: Seq<char>) -> Seq<char>
    decreases s.len(),
{
    if s.len() == 0 {
        Seq::empty()
    } else {
        env_escape_char(s[0]) + env_escaped(s.drop_first())
    }
}

/// An envelope on the wire: its three fields escaped and joined by
/// line feeds.
pub open spec fn envelope_encoded(m: EnvelopeModel) -> Seq<char> {
    env_escaped(m.room) + seq!['\n'] + env_escaped(m.id) + seq!['\n'] + env_escaped(m.content)
}

/// An escaped field read back; a malformed escape or a bare separator
/// reads as nothing.
pub open spec fn env_unescaped(s: Seq<char>) -> Option<Seq<char>>
    decreases s.len(),
{
    if s.len() == 0 {
        Some(Seq::empty())
    } else if s[0] == '\\' {
        if s.len() == 1 {
            None
        } else if s[1] == '\\' {
            match env_unescaped(s.skip(2)) {
                Some(t) => Some(seq!['\\'] + t),
                None => None,
            }
        } else if s[1] == 'n' {
            match env_unescaped(s.skip(2)) {
                Some(t) => Some(seq!['\n'] + t),
                None => None,
            }
        } else {
            None
        }
    } else if s[0] == '\n' {
        None
    } else {
        match env_unescaped(s.drop_first()) {
            Some(t) => Some(seq![s[0]] + t),
            None => None,
        }
    }
}

/// No bare line feed survives escaping.
proof fn lemma_env_escaped_no_newline(s: Seq<char>)
    ensures
        forall|i: int| 0 <= i < env_escaped(s).len() ==> env_escaped(s)[i] != '\n',
    decreases s.len(),
{
    if s.len() > 0 {
        lemma_env_escaped_no_newline(s.drop_first());
        assert forall|i: int| 0 <= i < env_escaped(s).len() implies env_escaped(s)[i]
            != '\n' by {
            let h = env_escape_char(s[0]);
            if i < h.len() {
                assert(h[i] != '\n');
            } else {
                assert(env_escaped(s)[i] == env_escaped(s.drop_first())[i - h.len()]);
            }
        }
    }
}

/// Escaping one more character appends its escape.
proof fn lemma_env_escaped_push(s: Seq<char>, c: char)
    ensures
        env_escaped(s.push(c)) == env_escaped(s) + env_escape_char(c),
    decreases s.len(),
{
    if s.len() == 0 {
        assert(s.push(c)[0] == c);
        assert(s.push(c).drop_first() =~= Seq::<char>::empty());
        assert(env_escaped(s.push(c)) == env_escape_char(c) + env_escaped(Seq::<char>::empty()));
        assert(env_escape_char(c) + Seq::<char>::empty() =~= env_escape_char(c));
        assert(env_escaped(s) + env_escape_char(c) =~= env_escape_char(c));
    } else {
        assert(s.push(c)[0] == s[0]);
        assert(s.push(c).drop_first() =~= s.drop_first().push(c));
        lemma_env_escaped_push(s.drop_first(), c);
        assert(env_escape_char(s[0]) + (env_escaped(s.drop_first()) + env_escape_char(c)) =~= (
        env_escape_char(s[0]) + env_escaped(s.drop_first())) + env_escape_char(c));
    }
}

/// Escaping then reading back gives the field.
proof fn lemma_env_unescape_escape(s: Seq<char>)
    ensures
        env_unescaped(env_escaped(s)) == Some(s),
    decreases s.len(),
{
    if s.len() > 0 {
        lemma_env_unescape_escape(s.drop_first());
        let e = env_escaped(s);
        let rest = env_escaped(s.drop_first());
        if s[0] == '\\' {
            assert(e[0] == '\\' && e[1] == '\\');
            assert(e.skip(2) =~= rest);
            assert(seq!['\\'] + s.drop_first() =~= s);
        } else if s[0] == '\n' {
            assert(e[0] == '\\' && e[1] == 'n');
            assert(e.skip(2) =~= rest);
            assert(seq!['\n'] + s.drop_first() =~= s);
        } else {
            assert(e[0] == s[0]);
            assert(e.drop_first() =~= rest);
            assert(seq![s[0]] + s.drop_first() =~= s);
        }
    }
}

/// Reading back succeeds only on exactly the escaped text.
proof fn lemma_env_escape_unescape(x: Seq<char>)
    ensures
        env_unescaped(x) matches Some(t) ==> env_escaped(t) == x,
    decreases x.len(),
{
    if x.len() == 0 {
        assert(env_escaped(Seq::<char>::empty()) =~= x);
    } else if x[0] == '\\' {
        if x.len() == 1 {
        } else if x[1] == '\\' {
            lemma_env_escape_unescape(x.skip(2));
            match env_unescaped(x.skip(2)) {
                Some(t2) => {
                    let t = seq!['\\'] + t2;
                    assert(t[0] == '\\');
                    assert(t.drop_first() =~= t2);
                    assert(env_escaped(t) == seq!['\\', '\\'] + env_escaped(t2));
                    assert(seq!['\\', '\\'] + x.skip(2) =~= x);
                },
                None => {},
            }
        } else if x[1] == 'n' {
            lemma_env_escape_unescape(x.skip(2));
            match env_unescaped(x.skip(2)) {
                Some(t2) => {
                    let t = seq!['\n'] + t2;
                    assert(t[0] == '\n');
                    assert(t.drop_first() =~= t2);
                    assert(env_escaped(t) == seq!['\\', 'n'] + env_escaped(t2));
                    assert(seq!['\\', 'n'] + x.skip(2) =~= x);
                },
                None => {},
            }
        }
    } else if x[0] == '\n' {
    } else {
        lemma_env_escape_unescape(x.drop_first());
        match env_unescaped(x.drop_first()) {
            Some(t2) => {
                let t = seq![x[0]] + t2;
                assert(t[0] == x[0]);
                assert(t.drop_first() =~= t2);
                assert(env_escaped(t) == env_escape_char(x[0]) + env_escaped(t2));
                assert(env_escape_char(x[0]) =~= seq![x[0]]);
                assert(seq![x[0]] + x.drop_first() =~= x);
            },
            None => {},
        }
    }
}

/// Two texts joined by a line feed split the same way when neither
/// left part holds one.
proof fn lemma_split_at_newline(a1: Seq<char>, a2: Seq<char>, b1: Seq<char>, b2: Seq<char>)
    requires
        a1 + seq!['\n'] + a2 == b1 + seq!['\n'] + b2,
        forall|i: int| 0 <= i < a1.len() ==> a1[i] != '\n',
        forall|i: int| 0 <= i < b1.len() ==> b1[i] != '\n',
    ensures
        a1 == b1,
        a2 == b2,
{
    let s = a1 + seq!['\n'] + a2;
    if a1.len() < b1.len() {
        assert(s[a1.len() as int] == '\n');
        assert((b1 + seq!['\n'] + b2)[a1.len() as int] == b1[a1.len() as int]);
        assert(false);
    }
    if b1.len() < a1.len() {
        assert(s[b1.len() as int] == a1[b1.len() as int]);
        assert((b1 + seq!['\n'] + b2)[b1.len() as int] == '\n');
        assert(false);
    }
    assert forall|i: int| 0 <= i < a1.len() implies a1[i] == b1[i] by {
        assert(s[i] == a1[i]);
        assert((b1 + seq!['\n'] + b2)[i] == b1[i]);
    }
    assert(a1 =~= b1);
    assert((a1 + seq!['\n'] + a2).len() == a1.len() + 1 + a2.len());
    assert((b1 + seq!['\n'] + b2).len() == b1.len() + 1 + b2.len());
    assert(a2.len() == b2.len());
    assert forall|i: int| 0 <= i < a2.len() implies a2[i] == b2[i] by {
        assert(s[a1.len() + 1 + i] == a2[i]);
        assert((b1 + seq!['\n'] + b2)[b1.len() + 1 + i] == b2[i]);
    }
    assert(a2 =~= b2);
}

/// The wire form pins the envelope: two envelopes that encode alike
/// carry the same room, the same session and the same payload.
pub proof fn lemma_envelope_encoding_injective(a: EnvelopeModel, b: EnvelopeModel)
    requires
        envelope_encoded(a) == envelope_encoded(b),
    ensures
        a.room == b.room,
        a.id == b.id,
        a.content == b.content,
{
    lemma_env_escaped_no_newline(a.room);
    lemma_env_escaped_no_newline(b.room);
    lemma_env_escaped_no_newline(a.id);
    lemma_env_escaped_no_newline(b.id);
    let atail = env_escaped(a.id) + seq!['\n'] + env_escaped(a.content);
    let btail = env_escaped(b.id) + seq!['\n'] + env_escaped(b.content);
    assert(envelope_encoded(a) =~= env_escaped(a.room) + seq!['\n'] + atail);
    assert(envelope_encoded(b) =~= env_escaped(b.room) + seq!['\n'] + btail);
    lemma_split_at_newline(env_escaped(a.room), atail, env_escaped(b.room), btail);
    lemma_split_at_newline(
        env_escaped(a.id),
        env_escaped(a.content),
        env_escaped(b.id),
        env_escaped(b.content),
    );
    lemma_env_unescape_escape(a.room);
    lemma_env_unescape_escape(b.room);
    lemma_env_unescape_escape(a.id);
    lemma_env_unescape_escape(b.id);
    lemma_env_unescape_escape(a.content);
    lemma_env_unescape_escape(b.content);
}

/// Append the envelope escaping of `s` to `out`.
fn push_env_escaped(out: &mut String, s: &str)
    ensures
        final(out)@ == old(out)@ + env_escaped(s@),
{
    let n = s.unicode_len();
    let mut i: usize = 0;
    proof {
        assert(s@.take(0) =~= Seq::<char>::empty());
        assert(old(out)@ + env_escaped(s@.take(0)) =~= old(out)@);
    }
    while i < n
        invariant
            n == s@.len(),
            i <= n,
            out@ == old(out)@ + env_escaped(s@.take(i as int)),
        decreases n - i,
    {
        let c = s.get_char(i);
        if c == '\\' {
            push_char(out, '\\');
            push_char(out, '\\');
        } else if c == '\n' {
            push_char(out, '\\');
            push_char(out, 'n');
        } else {
            push_char(out, c);
        }
        proof {
            lemma_env_escaped_push(s@.take(i as int), c);
            assert(s@.take(i + 1) =~= s@.take(i as int).push(c));
            assert(out@ =~= old(out)@ + env_escaped(s@.take(i + 1)));
        }
        i += 1;
    }
    proof {
        assert(s@.take(n as int) =~= s@);
    }
}

/// Encode one envelope for the wire.
pub fn encode_envelope(m: &MessageForHub) -> (r: String)
    ensures
        r@ == envelope_encoded(m@),
{
    let mut out = String::new();
    push_env_escaped(&mut out, m.room.as_str());
    push_char(&mut out, '\n');
    push_env_escaped(&mut out, m.id.as_str());
    push_char(&mut out, '\n');
    push_env_escaped(&mut out, m.content.as_str());
    proof {
        assert(out@ =~= envelope_encoded(m@));
    }
    out
}

/// Find the first line feed at or after `from`.
fn find_newline(s: &str, from: usize) -> (r: Option<usize>)
    requires
        from <= s@.len(),
    ensures
        (match r {
            Some(p) => from <= p < s@.len() && s@[p as int] == '\n' && (forall|j: int|
                from <= j < p ==> s@[j] != '\n'),
            None => forall|j: int| from <= j < s@.len() ==> s@[j] != '\n',
        }),
{
    let n = s.unicode_len();
    let mut i: usize = from;
    while i < n
        invariant
            from <= i <= n,
            n == s@.len(),
            forall|j: int| from <= j < i ==> s@[j] != '\n',
        decreases n - i,
    {
        if s.get_char(i) == '\n' {
            return Some(i);
        }
        i += 1;
    }
    None
}

/// Read one escaped envelope field back.
fn env_unescape(part: &str) -> (r: Option<String>)
    ensures
        (match r {
            Some(t) => env_unescaped(part@) == Some(t@),
            None => env_unescaped(part@) is None,
        }),
{
    let n = part.unicode_len();
    let mut out = String::new();
    let mut i: usize = 0;
    proof {
        assert(part@.skip(0) =~= part@);
    }
    while i < n
        invariant
            i <= n,
            n == part@.len(),
            (match env_unescaped(part@.skip(i as int)) {
                Some(t) => env_unescaped(part@) == Some(out@ + t),
                None => env_unescaped(part@) is None,
            }),
        decreases n - i,
    {
        let ghost u = part@.skip(i as int);
        proof {
            assert(u[0] == part@[i as int]);
        }
        let c = part.get_char(i);
        if c == '\\' {
            if i + 1 >= n {
                proof {
                    assert(u.len() == 1);
                }
                return None;
            }
            let c2 = part.get_char(i + 1);
            proof {
                assert(u[1] == part@[i + 1]);
                assert(u.skip(2) =~= part@.skip(i + 2));
            }
            if c2 == '\\' {
                push_char(&mut out, '\\');
                proof {
                    match env_unescaped(part@.skip(i + 2)) {
                        Some(t1) => {
                            assert(env_unescaped(u) == Some(seq!['\\'] + t1));
                            assert(out@ + t1 =~= (out@.drop_last()) + (seq!['\\'] + t1));
                        },
                        None => {},
                    }
                }
                i += 2;
            } else if c2 == 'n' {
                push_char(&mut out, '\n');
                proof {
                    match env_unescaped(part@.skip(i + 2)) {
                        Some(t1) => {
                            assert(env_unescaped(u) == Some(seq!['\n'] + t1));
                            assert(out@ + t1 =~= (out@.drop_last()) + (seq!['\n'] + t1));
                        },
                        None => {},
                    }
                }
                i += 2;
            } else {
                proof {
                    assert(env_unescaped(u) is None);
                }
                return None;
            }
        } else if c == '\n' {
            proof {
                assert(env_unescaped(u) is None);
            }
            return None;
        } else {
            push_char(&mut out, c);
            proof {
                assert(u.drop_first() =~= part@.skip(i + 1));
                match env_unescaped(part@.skip(i + 1)) {
                    Some(t1) => {
                        assert(env_unescaped(u) == Some(seq![c] + t1));
                        assert(out@ + t1 =~= (out@.drop_last()) + (seq![c] + t1));
                    },
                    None => {},
                }
            }
            i += 1;
        }
    }
    proof {
        assert(part@.skip(n as int) =~= Seq::<char>::empty());
        assert(env_unescaped(part@.skip(n as int)) == Some(Seq::<char>::empty()));
        assert(out@ + Seq::<char>::empty() =~= out@);
    }
    Some(out)
}

/// Decode one envelope from the wire.  Whatever some process encoded
/// decodes, and whatever decodes is exactly the encoding of what came
/// back: published and received envelopes agree on room, session and
/// payload.
pub fn decode_envelope(s: &str) -> (r: Option<MessageForHub>)
    ensures
        (r matches Some(m) ==> s@ == envelope_encoded(m@)),
        forall|em: EnvelopeModel| s@ == envelope_encoded(em) ==> r is Some,
{
    let n = s.unicode_len();
    let p1 = match find_newline(s, 0) {
        Some(p) => p,
        None => {
            proof {
                assert forall|em: EnvelopeModel| s@ != envelope_encoded(em) by {
                    if s@ == envelope_encoded(em) {
                        assert(s@[env_escaped(em.room).len() as int] == '\n');
                    }
                }
            }
            return None;
        },
    };
    let p2 = match find_newline(s, p1 + 1) {
        Some(p) => p,
        None => {
            proof {
                assert forall|em: EnvelopeModel| s@ != envelope_encoded(em) by {
                    if s@ == envelope_encoded(em) {
                        lemma_env_escaped_no_newline(em.room);
                        let la = env_escaped(em.room).len() as int;
                        let lb = env_escaped(em.id).len() as int;
                        assert(s@[la] == '\n');
                        assert(p1 == la);
                        assert(s@[la + 1 + lb] == '\n');
                    }
                }
            }
            return None;
        },
    };
    let a = s.substring_char(0, p1);
    let b = s.substring_char(p1 + 1, p2);
    let c = s.substring_char(p2 + 1, n);
    proof {
        assert forall|em: EnvelopeModel| s@ == envelope_encoded(em) implies a@ == env_escaped(
            em.room,
        ) && b@ == env_escaped(em.id) && c@ == env_escaped(em.content) by {
            lemma_env_escaped_no_newline(em.room);
            lemma_env_escaped_no_newline(em.id);
            let la = env_escaped(em.room).len() as int;
            let lb = env_escaped(em.id).len() as int;
            assert(s@[la] == '\n');
            assert(p1 == la);
            assert(s@[la + 1 + lb] == '\n');
            assert(p2 == la + 1 + lb);
            assert(a@ =~= env_escaped(em.room));
            assert(b@ =~= env_escaped(em.id));
            assert(c@ =~= env_escaped(em.content));
        }
    }
    let room = match env_unescape(a) {
        Some(t) => t,
        None => {
            proof {
                assert forall|em: EnvelopeModel| s@ != envelope_encoded(em) by {
                    if s@ == envelope_encoded(em) {
                        lemma_env_unescape_escape(em.room);
                    }
                }
            }
            return None;
        },
    };
    let id = match env_unescape(b) {
        Some(t) => t,
        None => {
            proof {
                assert forall|em: EnvelopeModel| s@ != envelope_encoded(em) by {
                    if s@ == envelope_encoded(em) {
                        lemma_env_unescape_escape(em.id);
                    }
                }
            }
            return None;
        },
    };
    let content = match env_unescape(c) {
        Some(t) => t,
        None => {
            proof {
                assert forall|em: EnvelopeModel| s@ != envelope_encoded(em) by {
                    if s@ == envelope_encoded(em) {
                        lemma_env_unescape_escape(em.content);
                    }
                }
            }
            return None;
        },
    };
    let m = MessageForHub { room, id, content };
    proof {
        lemma_env_escape_unescape(a@);
        lemma_env_escape_unescape(b@);
        lemma_env_escape_unescape(c@);
        assert(s@ =~= a@ + seq!['\n'] + b@ + seq!['\n'] + c@);
        assert(s@ =~= envelope_encoded(m@));
    }
    Some(m)
}

} // verus!
