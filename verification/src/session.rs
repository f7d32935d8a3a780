//! The per-connection protocol state machine.
//!
//! A connection session owns one bidirectional stream, a display name,
//! a current room and a heartbeat clock.  The runtime loop around it
//! waits on its event sources and hands whatever arrives first to
//! [`SessionState::on_event`]; the state machine decides what to answer,
//! what to ask of the coordinator, and when the connection must die.
//! Client text is parsed by [`parse_command`] into the command grammar.

use vstd::prelude::*;
use vstd::string::StrSliceExecFns;
use vstd::string::StringExecFns;

verus! {

/// How often heartbeat pings are sent, in milliseconds.
pub const HEARTBEAT_INTERVAL_MS: u64 = 5000;

/// How long a silent client is tolerated before the connection is
/// closed, in milliseconds.
pub const CLIENT_TIMEOUT_MS: u64 = 10000;

/// The whitespace stripped from client text before parsing.
pub open spec fn is_space_char(c: char) -> bool {
    c == ' ' || c == '\t' || c == '\n' || c == '\r'
}

/// A sequence with its leading whitespace dropped.
pub open spec fn trim_front(s: Seq<char>) -> Seq<char>
    decreases s.len(),
{
    if s.len() == 0 {
        s
    } else if is_space_char(s[0]) {
        trim_front(s.drop_first())
    } else {
        s
    }
}

/// A sequence with its trailing whitespace dropped.
pub open spec fn trim_back(s: Seq<char>) -> Seq<char>
    decreases s.len(),
{
    if s.len() == 0 {
        s
    } else if is_space_char(s[s.len() - 1]) {
        trim_back(s.drop_last())
    } else {
        s
    }
}

/// A sequence with whitespace dropped at both ends.
pub open spec fn trimmed(s: Seq<char>) -> Seq<char> {
    trim_back(trim_front(s))
}

fn is_space(c: char) -> (r: bool)
    ensures
        r == is_space_char(c),
{
    c == ' ' || c == '\t' || c == '\n' || c == '\r'
}

/// Character-by-character equality of two string slices.
fn str_eq(a: &str, b: &str) -> (r: bool)
    ensures
        r == (a@ == b@),
{
    let na = a.unicode_len();
    let nb = b.unicode_len();
    if na != nb {
        return false;
    }
    let mut i: usize = 0;
    while i < na
        invariant
            na == a@.len(),
            nb == b@.len(),
            na == nb,
            i <= na,
            forall|j: int| 0 <= j < i ==> a@[j] == b@[j],
        decreases na - i,
    {
        if a.get_char(i) != b.get_char(i) {
            return false;
        }
        i += 1;
    }
    proof {
        assert(a@ =~= b@);
    }
    true
}

/// Strip leading and trailing whitespace.
fn trim_str<'a>(s: &'a str) -> (r: &'a str)
    ensures
        r@ == trimmed(s@),
{
    let n = s.unicode_len();
    let mut start: usize = 0;
    proof {
        assert(s@.skip(0) =~= s@);
    }
    while start < n && is_space(s.get_char(start))
        invariant
            n == s@.len(),
            start <= n,
            trim_front(s@) == trim_front(s@.skip(start as int)),
        decreases n - start,
    {
        proof {
            let t = s@.skip(start as int);
            assert(t[0] == s@[start as int]);
            assert(t.drop_first() =~= s@.skip(start as int + 1));
        }
        start += 1;
    }
    proof {
        if start < n {
            let t = s@.skip(start as int);
            assert(t[0] == s@[start as int]);
            assert(!is_space_char(t[0]));
            assert(trim_front(t) == t);
        } else {
            assert(s@.skip(n as int) =~= Seq::<char>::empty());
        }
    }
    let mut end: usize = n;
    while end > start && is_space(s.get_char(end - 1))
        invariant
            n == s@.len(),
            start <= end <= n,
            trim_front(s@) == s@.skip(start as int),
            trim_back(s@.skip(start as int)) == trim_back(
                s@.subrange(start as int, end as int),
            ),
        decreases end,
    {
        proof {
            let t = s@.subrange(start as int, end as int);
            assert(t.len() > 0);
            assert(t[t.len() - 1] == s@[end - 1]);
            assert(t.drop_last() =~= s@.subrange(start as int, end as int - 1));
        }
        end -= 1;
    }
    proof {
        let t = s@.subrange(start as int, end as int);
        if end > start {
            assert(t[t.len() - 1] == s@[end - 1]);
            assert(!is_space_char(t[t.len() - 1]));
            assert(trim_back(t) == t);
        } else {
            assert(t =~= Seq::<char>::empty());
        }
        assert(trimmed(s@) == s@.subrange(start as int, end as int));
    }
    s.substring_char(start, end)
}

/// The index of the first space of a sequence, or its length.
pub open spec fn first_space(s: Seq<char>) -> int
    decreases s.len(),
{
    if s.len() == 0 {
        0
    } else if s[0] == ' ' {
        0
    } else {
        1 + first_space(s.drop_first())
    }
}

/// `first_space` is the first index holding a space.
proof fn lemma_first_space(s: Seq<char>, i: int)
    requires
        0 <= i <= s.len(),
        forall|j: int| 0 <= j < i ==> s[j] != ' ',
        i < s.len() ==> s[i] == ' ',
    ensures
        first_space(s) == i,
    decreases s.len(),
{
    if s.len() == 0 {
    } else if i == 0 {
    } else {
        assert(s[0] != ' ');
        assert(s.drop_first().len() == s.len() - 1);
        lemma_first_space(s.drop_first(), i - 1);
    }
}

/// One parsed line of client text: the command grammar, in its
/// mathematical shape.  Text that does not start a command is chat for
/// the current room; a command keyword missing its argument is
/// answered with an error, and so is an unknown keyword.
pub ghost enum CommandModel {
    List,
    Join(Seq<char>),
    Quit(Seq<char>),
    Name(Seq<char>),
    Chat(Seq<char>),
    MissingRoomArg,
    MissingNameArg,
    Unknown(Seq<char>),
}

/// One parsed line of client text.
pub enum Command {
    List,
    Join(String),
    Quit(String),
    Name(String),
    Chat(String),
    MissingRoomArg,
    MissingNameArg,
    Unknown(String),
}

impl View for Command {
    type V = CommandModel;

    open spec fn view(&self) -> CommandModel {
        match self {
            Command::List => CommandModel::List,
            Command::Join(r) => CommandModel::Join(r@),
            Command::Quit(r) => CommandModel::Quit(r@),
            Command::Name(n) => CommandModel::Name(n@),
            Command::Chat(m) => CommandModel::Chat(m@),
            Command::MissingRoomArg => CommandModel::MissingRoomArg,
            Command::MissingNameArg => CommandModel::MissingNameArg,
            Command::Unknown(m) => CommandModel::Unknown(m@),
        }
    }
}

/// What a line of client text means: trim it; text not opening with a
/// slash is chat; otherwise the word up to the first space picks the
/// command and the rest of the line is its argument.
pub open spec fn spec_parse(text: Seq<char>) -> CommandModel {
    let m = trimmed(text);
    if m.len() == 0 || m[0] != '/' {
        CommandModel::Chat(m)
    } else {
        let sp = first_space(m);
        let head = m.take(sp);
        if sp == m.len() {
            if head == "/list"@ {
                CommandModel::List
            } else if head == "/join"@ || head == "/quit"@ {
                CommandModel::MissingRoomArg
            } else if head == "/name"@ {
                CommandModel::MissingNameArg
            } else {
                CommandModel::Unknown(m)
            }
        } else {
            let arg = m.skip(sp + 1);
            if head == "/list"@ {
                CommandModel::List
            } else if head == "/join"@ {
                CommandModel::Join(arg)
            } else if head == "/quit"@ {
                CommandModel::Quit(arg)
            } else if head == "/name"@ {
                CommandModel::Name(arg)
            } else {
                CommandModel::Unknown(m)
            }
        }
    }
}

/// Parse one line of client text into the command grammar.
pub fn parse_command(text: &str) -> (c: Command)
    ensures
        c@ == spec_parse(text@),
{
    let t = trim_str(text);
    let n = t.unicode_len();
    if n == 0 {
        return Command::Chat(t.to_owned());
    }
    if t.get_char(0) != '/' {
        return Command::Chat(t.to_owned());
    }
    let mut sp: usize = 0;
    while sp < n && t.get_char(sp) != ' '
        invariant
            n == t@.len(),
            sp <= n,
            forall|j: int| 0 <= j < sp ==> t@[j] != ' ',
        decreases n - sp,
    {
        sp += 1;
    }
    proof {
        lemma_first_space(t@, sp as int);
    }
    let head = t.substring_char(0, sp);
    proof {
        assert(head@ == t@.take(sp as int));
    }
    if sp == n {
        if str_eq(head, "/list") {
            Command::List
        } else if str_eq(head, "/join") || str_eq(head, "/quit") {
            Command::MissingRoomArg
        } else if str_eq(head, "/name") {
            Command::MissingNameArg
        } else {
            Command::Unknown(t.to_owned())
        }
    } else {
        let arg = t.substring_char(sp + 1, n).to_owned();
        proof {
            assert(arg@ == t@.skip(sp as int + 1));
        }
        if str_eq(head, "/list") {
            Command::List
        } else if str_eq(head, "/join") {
            Command::Join(arg)
        } else if str_eq(head, "/quit") {
            Command::Quit(arg)
        } else if str_eq(head, "/name") {
            Command::Name(arg)
        } else {
            Command::Unknown(t.to_owned())
        }
    }
}

/// The life of a session: normal operation, then the close handshake,
/// then done; a session never re-enters an earlier phase.
pub enum Phase {
    Active,
    Closing,
    Terminated,
}

/// The mathematical shape of a session's state.
pub ghost struct SessionModel {
    pub session_id: Seq<char>,
    pub name: Seq<char>,
    pub room: Seq<char>,
    pub default_room: Seq<char>,
    pub last_heartbeat: u64,
    pub phase: Phase,
}

/// What a parsed command asks the runtime to do.  An error reply
/// carries no membership change and leaves every piece of state alone.
pub enum CommandEffect {
    ListSelf,
    DoJoin { room: String },
    DoQuit { room: String },
    DoRename { name: String },
    PublishChat { room: String, content: String },
    ErrorReply { msg: String },
}

/// The mathematical shape of a command effect.
pub ghost enum EffectModel {
    ListSelf,
    DoJoin { room: Seq<char> },
    DoQuit { room: Seq<char> },
    DoRename { name: Seq<char> },
    PublishChat { room: Seq<char>, content: Seq<char> },
    ErrorReply { msg: Seq<char> },
}

impl View for CommandEffect {
    type V = EffectModel;

    open spec fn view(&self) -> EffectModel {
        match self {
            CommandEffect::ListSelf => EffectModel::ListSelf,
            CommandEffect::DoJoin { room } => EffectModel::DoJoin { room: room@ },
            CommandEffect::DoQuit { room } => EffectModel::DoQuit { room: room@ },
            CommandEffect::DoRename { name } => EffectModel::DoRename { name: name@ },
            CommandEffect::PublishChat { room, content } => EffectModel::PublishChat {
                room: room@,
                content: content@,
            },
            CommandEffect::ErrorReply { msg } => EffectModel::ErrorReply { msg: msg@ },
        }
    }
}

/// What each command means for a session in state `st`: chat goes to
/// the current room, quitting the room every session always belongs to
/// is refused with an error, and malformed commands are answered with
/// errors.
pub open spec fn spec_effect(st: SessionModel, c: CommandModel) -> EffectModel {
    match c {
        CommandModel::List => EffectModel::ListSelf,
        CommandModel::Join(r) => EffectModel::DoJoin { room: r },
        CommandModel::Quit(r) => if r == st.default_room {
            EffectModel::ErrorReply { msg: "!!! you can not quit default room: "@ + r }
        } else {
            EffectModel::DoQuit { room: r }
        },
        CommandModel::Name(n) => EffectModel::DoRename { name: n },
        CommandModel::Chat(m) => EffectModel::PublishChat { room: st.room, content: m },
        CommandModel::MissingRoomArg => EffectModel::ErrorReply {
            msg: "!!! room name is required"@,
        },
        CommandModel::MissingNameArg => EffectModel::ErrorReply { msg: "!!! name is required"@ },
        CommandModel::Unknown(m) => EffectModel::ErrorReply { msg: "!!! unknown command: "@ + m },
    }
}

/// Quitting the default room is refused: the command's whole effect is
/// an error reply to the issuing client; no membership change is
/// requested and the session's state is untouched.
pub proof fn lemma_quit_default_room_refused(st: SessionModel, r: Seq<char>)
    requires
        r == st.default_room,
    ensures
        spec_effect(st, CommandModel::Quit(r)) is ErrorReply,
{
}

/// One thing a session may be woken by: its heartbeat timer, a relayed
/// chat event from the coordinator, or a frame from the client stream.
pub enum SessionEvent {
    Tick,
    Relayed(String),
    ClientPing(Vec<u8>),
    ClientPong,
    ClientText(String),
    ClientBinary,
    ClientClose(Option<String>),
    StreamEnd,
    StreamError,
}

/// What the state machine answers to one event.
pub enum StepOutcome {
    /// Answer the client's ping with this payload.
    Pong(Vec<u8>),
    /// The client answered a ping; nothing to send.
    HeartbeatNoted,
    /// Client text parsed; run this effect.
    Command(CommandEffect),
    /// Forward a relayed chat event to the client, verbatim.
    Forward(String),
    /// An unexpected binary frame; drop it.
    Ignored,
    /// Send a heartbeat ping to the client.
    Ping,
    /// Stop the session, with the close reason to hand back, if any.
    Terminate(Option<String>),
}

/// Whether the quiet time since the last heartbeat exceeds the window.
pub open spec fn spec_timed_out(last: u64, now: u64) -> bool {
    now > last && now - last > CLIENT_TIMEOUT_MS
}

/// Per-connection protocol state: one stream, a display name, a current
/// room pointer and the heartbeat clock.
pub struct SessionState {
    pub session_id: String,
    pub name: String,
    pub room: String,
    pub default_room: String,
    pub last_heartbeat: u64,
    pub phase: Phase,
}

impl View for SessionState {
    type V = SessionModel;

    open spec fn view(&self) -> SessionModel {
        SessionModel {
            session_id: self.session_id@,
            name: self.name@,
            room: self.room@,
            default_room: self.default_room@,
            last_heartbeat: self.last_heartbeat,
            phase: self.phase,
        }
    }
}

impl SessionState {
    /// A fresh session: it starts in its default room, alive as of
    /// `now`.
    pub fn new(session_id: String, name: String, default_room: String, now: u64) -> (s: Self)
        ensures
            s@.session_id == session_id@,
            s@.name == name@,
            s@.room == default_room@,
            s@.default_room == default_room@,
            s@.last_heartbeat == now,
            s@.phase is Active,
    {
        let room = default_room.clone();
        SessionState { session_id, name, room, default_room, last_heartbeat: now, phase: Phase::Active }
    }

    /// Handle whichever event source fired, at clock reading `now`:
    /// ping and pong refresh the heartbeat, text becomes a command
    /// effect, relayed events are forwarded verbatim, close and stream
    /// failures terminate, and a tick terminates a session whose client
    /// has been silent beyond the timeout window and pings it
    /// otherwise.
    pub fn on_event(&mut self, ev: SessionEvent, now: u64) -> (out: StepOutcome)
        requires
            old(self)@.phase is Active,
        ensures
            final(self)@.session_id == old(self)@.session_id,
            final(self)@.name == old(self)@.name,
            final(self)@.room == old(self)@.room,
            final(self)@.default_room == old(self)@.default_room,
            match ev {
                SessionEvent::ClientPing(b) => out matches StepOutcome::Pong(p) && p@ == b@
                    && final(self)@.last_heartbeat == now && final(self)@.phase is Active,
                SessionEvent::ClientPong => out is HeartbeatNoted && final(self)@.last_heartbeat
                    == now && final(self)@.phase is Active,
                SessionEvent::ClientText(t) => out matches StepOutcome::Command(eff) && eff@
                    == spec_effect(old(self)@, spec_parse(t@)) && final(self)@ == old(self)@,
                SessionEvent::Relayed(m) => out matches StepOutcome::Forward(f) && f@ == m@
                    && final(self)@ == old(self)@,
                SessionEvent::ClientBinary => out is Ignored && final(self)@ == old(self)@,
                SessionEvent::ClientClose(reason) => (out matches StepOutcome::Terminate(r)
                    && match (r, reason) {
                    (Some(a), Some(b)) => a@ == b@,
                    (None, None) => true,
                    _ => false,
                }) && final(self)@.phase is Closing && final(self)@.last_heartbeat == old(
                    self,
                )@.last_heartbeat,
                SessionEvent::StreamEnd => out matches StepOutcome::Terminate(r) && r is None
                    && final(self)@.phase is Closing && final(self)@.last_heartbeat == old(
                    self,
                )@.last_heartbeat,
                SessionEvent::StreamError => out matches StepOutcome::Terminate(r) && r is None
                    && final(self)@.phase is Closing && final(self)@.last_heartbeat == old(
                    self,
                )@.last_heartbeat,
                SessionEvent::Tick => if spec_timed_out(old(self)@.last_heartbeat, now) {
                    (out matches StepOutcome::Terminate(r) && r is None)
                        && final(self)@.phase is Closing
                        && final(self)@.last_heartbeat == old(self)@.last_heartbeat
                } else {
                    out is Ping && final(self)@ == old(self)@
                },
            },
    {
        match ev {
            SessionEvent::ClientPing(b) => {
                self.last_heartbeat = now;
                StepOutcome::Pong(b)
            },
            SessionEvent::ClientPong => {
                self.last_heartbeat = now;
                StepOutcome::HeartbeatNoted
            },
            SessionEvent::ClientText(t) => {
                let cmd = parse_command(t.as_str());
                let eff = self.effect_of(&cmd);
                StepOutcome::Command(eff)
            },
            SessionEvent::Relayed(m) => StepOutcome::Forward(m),
            SessionEvent::ClientBinary => StepOutcome::Ignored,
            SessionEvent::ClientClose(reason) => {
                self.phase = Phase::Closing;
                StepOutcome::Terminate(reason)
            },
            SessionEvent::StreamEnd => {
                self.phase = Phase::Closing;
                StepOutcome::Terminate(None)
            },
            SessionEvent::StreamError => {
                self.phase = Phase::Closing;
                StepOutcome::Terminate(None)
            },
            SessionEvent::Tick => {
                if now > self.last_heartbeat && now - self.last_heartbeat > CLIENT_TIMEOUT_MS {
                    self.phase = Phase::Closing;
                    StepOutcome::Terminate(None)
                } else {
                    StepOutcome::Ping
                }
            },
        }
    }

    /// The effect of one parsed command for this session.
    pub fn effect_of(&self, cmd: &Command) -> (eff: CommandEffect)
        ensures
            eff@ == spec_effect(self@, cmd@),
    {
        match cmd {
            Command::List => CommandEffect::ListSelf,
            Command::Join(r) => CommandEffect::DoJoin { room: r.clone() },
            Command::Quit(r) => {
                if str_eq(r.as_str(), self.default_room.as_str()) {
                    let msg = String::from_str("!!! you can not quit default room: ").concat(
                        r.as_str(),
                    );
                    CommandEffect::ErrorReply { msg }
                } else {
                    CommandEffect::DoQuit { room: r.clone() }
                }
            },
            Command::Name(n) => CommandEffect::DoRename { name: n.clone() },
            Command::Chat(m) => CommandEffect::PublishChat {
                room: self.room.clone(),
                content: m.clone(),
            },
            Command::MissingRoomArg => CommandEffect::ErrorReply {
                msg: String::from_str("!!! room name is required"),
            },
            Command::MissingNameArg => CommandEffect::ErrorReply {
                msg: String::from_str("!!! name is required"),
            },
            Command::Unknown(m) => CommandEffect::ErrorReply {
                msg: String::from_str("!!! unknown command: ").concat(m.as_str()),
            },
        }
    }

    /// Commit a join the coordinator acknowledged: the room pointer
    /// moves to the joined room.
    pub fn commit_join(&mut self, room: String)
        ensures
            final(self)@ == (SessionModel { room: room@, ..old(self)@ }),
    {
        self.room = room;
    }

    /// Commit a quit the coordinator acknowledged: the room pointer
    /// falls back to the default room.
    pub fn commit_quit(&mut self)
        ensures
            final(self)@ == (SessionModel { room: old(self)@.default_room, ..old(self)@ }),
    {
        self.room = self.default_room.clone();
    }

    /// Commit a rename the coordinator acknowledged.
    pub fn commit_rename(&mut self, name: String)
        ensures
            final(self)@ == (SessionModel { name: name@, ..old(self)@ }),
    {
        self.name = name;
    }

    /// Release the session: the closing handshake is over and the
    /// session is terminated for good.
    pub fn finish(&mut self)
        requires
            old(self)@.phase is Closing,
        ensures
            final(self)@ == (SessionModel { phase: Phase::Terminated, ..old(self)@ }),
    {
        self.phase = Phase::Terminated;
    }
}

} // verus!
