//! What the desktop does on one phone connection: the authentication handshake, the
//! messages it answers, the heartbeat that drops a silent phone, and the acknowledgement
//! of each text it types. The WebSocket itself, the clock and the typing are the caller's:
//! it hands each event to a `Session` and performs the actions that come back.

use vstd::prelude::*;
use crate::json::{json_quote, json_quoted, json_string_members, read_string_members};
use crate::text::same_text;

verus! {

/// A frame received from the phone, as far as the protocol tells frames apart.
#[derive(Clone, Debug, PartialEq, Eq)]
pub enum Frame {
    /// A text frame.
    Text(String),
    /// A close frame.
    Close,
    /// The stream ended.
    Ended,
    /// Any other frame (binary, ping, pong), or a frame that could not be read.
    Other,
}

/// A frame as values.
pub enum FrameView {
    Text(Seq<char>),
    Close,
    Ended,
    Other,
}

impl View for Frame {
    type V = FrameView;

    open spec fn view(&self) -> FrameView {
        match self {
            Frame::Text(t) => FrameView::Text(t@),
            Frame::Close => FrameView::Close,
            Frame::Ended => FrameView::Ended,
            Frame::Other => FrameView::Other,
        }
    }
}

/// What the caller is to do, in order.
#[derive(Clone, Debug, PartialEq, Eq)]
pub enum Action {
    /// Send a text frame to the phone.
    Send(String),
    /// Send a close frame.
    SendClose,
    /// List the phone under this name as connected, and tell the window.
    Register(String),
    /// Tell the window that text arrived from the named phone.
    Received { name: String, text: String },
    /// Type `text` at the desktop cursor; report the outcome with `injection_reply`.
    Inject { text: String, session_id: String },
    /// Tell the window that typing the text of session `session_id` failed.
    SendError { session_id: String, error: String },
    /// Stop reading; the connection is over and its phone is to be marked disconnected.
    Leave,
}

/// An action as values.
pub enum ActionView {
    Send(Seq<char>),
    SendClose,
    Register(Seq<char>),
    Received { name: Seq<char>, text: Seq<char> },
    Inject { text: Seq<char>, session_id: Seq<char> },
    SendError { session_id: Seq<char>, error: Seq<char> },
    Leave,
}

impl View for Action {
    type V = ActionView;

    open spec fn view(&self) -> ActionView {
        match self {
            Action::Send(t) => ActionView::Send(t@),
            Action::SendClose => ActionView::SendClose,
            Action::Register(n) => ActionView::Register(n@),
            Action::Received { name, text } => ActionView::Received { name: name@, text: text@ },
            Action::Inject { text, session_id } => ActionView::Inject {
                text: text@,
                session_id: session_id@,
            },
            Action::SendError { session_id, error } => ActionView::SendError {
                session_id: session_id@,
                error: error@,
            },
            Action::Leave => ActionView::Leave,
        }
    }
}

/// The views of a list of actions.
pub open spec fn action_views(acts: Seq<Action>) -> Seq<ActionView> {
    acts.map_values(|a: Action| a@)
}

/// Where a connection stands.
#[derive(PartialEq, Eq, Structural, Clone, Copy, Debug)]
pub enum Phase {
    /// Waiting for the phone's first message, which must authenticate it.
    AwaitingAuth,
    /// Authenticated; messages are handled.
    Open,
    /// Over; nothing more is done.
    Closed,
}

/// Reply to a first message whose token (or type) is wrong.
pub const BAD_TOKEN_REPLY: &'static str = "{\"type\":\"ack\",\"ok\":false,\"error\":\"bad token\"}";

/// Reply to a ping.
pub const PONG: &'static str = "{\"type\":\"pong\"}";

/// Heartbeat sent to the phone.
pub const PING: &'static str = "{\"type\":\"ping\"}";

/// Seconds between two heartbeats (and two silence checks) on a connection.
pub const HEARTBEAT_INTERVAL_SECS: u64 = 10;

/// Acknowledgement of text that was typed.
pub const ACK_OK: &'static str = "{\"type\":\"ack\",\"ok\":true}";

/// Name of a phone that announced none.
pub const DEFAULT_PHONE_NAME: &'static str = "phone";

/// A phone silent for longer than this (in nanoseconds, 20 s) is dropped.
pub const HEARTBEAT_TIMEOUT_NANOS: u64 = 20_000_000_000;

/// Acknowledgement of text that could not be typed, with the reason.
pub open spec fn ack_error_of(error: Seq<char>) -> Seq<char> {
    "{\"type\":\"ack\",\"ok\":false,\"error\":"@ + json_quoted(error) + "}"@
}

/// The members read from the first message.
pub open spec fn auth_keys() -> Seq<Seq<char>> {
    seq!["type"@, "token"@, "name"@]
}

/// The members read from later messages.
pub open spec fn message_keys() -> Seq<Seq<char>> {
    seq!["type"@, "text"@, "sessionId"@]
}

/// A member's string, or `default` where there is none.
pub open spec fn member_or(m: Option<Seq<char>>, default: Seq<char>) -> Seq<char> {
    match m {
        Some(s) => s,
        None => default,
    }
}

/// A connection's state as values.
pub struct SessionView {
    pub phase: Phase,
    /// The token the phone must present.
    pub token: Seq<char>,
    /// The name the phone announced (once open).
    pub name: Seq<char>,
    /// When the last text frame arrived, in the caller's monotonic nanoseconds.
    pub last_recv: u64,
}

/// The connection after the frame `f` arrived at time `now`, and what to do.
pub open spec fn frame_step(v: SessionView, f: FrameView, now: u64) -> (SessionView, Seq<ActionView>) {
    let closed = SessionView { phase: Phase::Closed, ..v };
    match v.phase {
        Phase::AwaitingAuth => match f {
            FrameView::Text(t) => match json_string_members(t, auth_keys()) {
                None => (closed, seq![ActionView::SendClose]),
                Some(m) => if m.len() == 3 && m[0] == Some("auth"@) && m[1] == Some(v.token) {
                    let name = member_or(m[2], DEFAULT_PHONE_NAME@);
                    (
                        SessionView { phase: Phase::Open, name, last_recv: now, ..v },
                        seq![ActionView::Register(name)],
                    )
                } else {
                    (closed, seq![ActionView::Send(BAD_TOKEN_REPLY@), ActionView::SendClose])
                },
            },
            _ => (closed, seq![ActionView::SendClose]),
        },
        Phase::Open => match f {
            FrameView::Text(t) => {
                let live = SessionView { last_recv: now, ..v };
                match json_string_members(t, message_keys()) {
                    Some(m) => if m.len() == 3 && m[0] == Some("ping"@) {
                        (live, seq![ActionView::Send(PONG@)])
                    } else if m.len() == 3 && m[0] == Some("text"@) {
                        let text = member_or(m[1], Seq::empty());
                        (
                            live,
                            seq![
                                ActionView::Received { name: v.name, text },
                                ActionView::Inject {
                                    text,
                                    session_id: member_or(m[2], Seq::empty()),
                                },
                            ],
                        )
                    } else {
                        (live, Seq::empty())
                    },
                    None => (live, Seq::empty()),
                }
            },
            FrameView::Close | FrameView::Ended => (closed, seq![ActionView::Leave]),
            FrameView::Other => (v, Seq::empty()),
        },
        Phase::Closed => (v, Seq::empty()),
    }
}

/// The connection after a heartbeat tick at time `now`, and what to do: an open connection
/// pings the phone, and is left when the phone has been silent for more than 20 s.
pub open spec fn tick_step(v: SessionView, now: u64) -> (SessionView, Seq<ActionView>) {
    if v.phase == Phase::Open {
        if now > v.last_recv && now - v.last_recv > HEARTBEAT_TIMEOUT_NANOS {
            (
                SessionView { phase: Phase::Closed, ..v },
                seq![ActionView::Send(PING@), ActionView::Leave],
            )
        } else {
            (v, seq![ActionView::Send(PING@)])
        }
    } else {
        (v, Seq::empty())
    }
}

/// What follows an attempt to type the text of session `session_id`.
pub open spec fn injection_step(session_id: Seq<char>, outcome: Result<(), Seq<char>>) -> Seq<ActionView> {
    match outcome {
        Ok(()) => seq![ActionView::Send(ACK_OK@)],
        Err(e) => seq![
            ActionView::SendError { session_id, error: e },
            ActionView::Send(ack_error_of(e)),
        ],
    }
}

/// One phone connection.
pub struct Session {
    phase: Phase,
    token: String,
    name: String,
    last_recv: u64,
}

impl View for Session {
    type V = SessionView;

    closed spec fn view(&self) -> SessionView {
        SessionView {
            phase: self.phase,
            token: self.token@,
            name: self.name@,
            last_recv: self.last_recv,
        }
    }
}

impl Session {
    /// A connection that waits for the phone to authenticate with `expected_token`.
    pub fn new(expected_token: String) -> (s: Session)
        ensures
            s@.phase == Phase::AwaitingAuth,
            s@.token == expected_token@,
    {
        Session { phase: Phase::AwaitingAuth, token: expected_token, name: String::new(), last_recv: 0 }
    }

    /// Handles a frame that arrived at time `now` (the caller's monotonic nanoseconds), as
    /// `frame_step` says.
    pub fn on_frame(&mut self, frame: Frame, now: u64) -> (acts: Vec<Action>)
        ensures
            (final(self)@, action_views(acts@)) == frame_step(old(self)@, frame@, now),
    {
        match self.phase {
            Phase::AwaitingAuth => self.authenticate(frame, now),
            Phase::Open => self.handle_message(frame, now),
            Phase::Closed => Vec::new(),
        }
    }

    fn authenticate(&mut self, frame: Frame, now: u64) -> (acts: Vec<Action>)
        requires
            old(self)@.phase == Phase::AwaitingAuth,
        ensures
            (final(self)@, action_views(acts@)) == frame_step(old(self)@, frame@, now),
    {
        let text = match frame {
            Frame::Text(t) => t,
            _ => {
                self.phase = Phase::Closed;
                let acts = vec![Action::SendClose];
                assert(action_views(acts@) =~= seq![ActionView::SendClose]);
                return acts;
            },
        };
        let keys: Vec<&str> = vec!["type", "token", "name"];
        assert(keys.deep_view() =~= auth_keys());
        match read_string_members(text.as_str(), &keys) {
            None => {
                self.phase = Phase::Closed;
                let acts = vec![Action::SendClose];
                assert(action_views(acts@) =~= seq![ActionView::SendClose]);
                acts
            },
            Some(m) => {
                let ghost mv = m.deep_view();
                let type_ok = match &m[0] {
                    Some(t) => same_text(t.as_str(), "auth"),
                    None => false,
                };
                let token_ok = match &m[1] {
                    Some(t) => *t == self.token,
                    None => false,
                };
                assert(type_ok == (mv[0] == Some("auth"@)));
                assert(token_ok == (mv[1] == Some(self.token@)));
                if type_ok && token_ok {
                    let name = match &m[2] {
                        Some(n) => n.clone(),
                        None => String::from_str(DEFAULT_PHONE_NAME),
                    };
                    assert(name@ == member_or(mv[2], DEFAULT_PHONE_NAME@));
                    self.phase = Phase::Open;
                    self.name = name.clone();
                    self.last_recv = now;
                    let acts = vec![Action::Register(name)];
                    assert(action_views(acts@) =~= seq![ActionView::Register(self.name@)]);
                    acts
                } else {
                    self.phase = Phase::Closed;
                    let acts = vec![Action::Send(String::from_str(BAD_TOKEN_REPLY)), Action::SendClose];
                    assert(action_views(acts@) =~= seq![
                        ActionView::Send(BAD_TOKEN_REPLY@),
                        ActionView::SendClose,
                    ]);
                    acts
                }
            },
        }
    }

    fn handle_message(&mut self, frame: Frame, now: u64) -> (acts: Vec<Action>)
        requires
            old(self)@.phase == Phase::Open,
        ensures
            (final(self)@, action_views(acts@)) == frame_step(old(self)@, frame@, now),
    {
        match frame {
            Frame::Text(t) => {
                self.last_recv = now;
                let keys: Vec<&str> = vec!["type", "text", "sessionId"];
                assert(keys.deep_view() =~= message_keys());
                match read_string_members(t.as_str(), &keys) {
                    None => {
                        let acts: Vec<Action> = Vec::new();
                        assert(action_views(acts@) =~= Seq::<ActionView>::empty());
                        acts
                    },
                    Some(m) => {
                        let ghost mv = m.deep_view();
                        let is_ping = match &m[0] {
                            Some(k) => same_text(k.as_str(), "ping"),
                            None => false,
                        };
                        let is_text = match &m[0] {
                            Some(k) => same_text(k.as_str(), "text"),
                            None => false,
                        };
                        assert(is_ping == (mv[0] == Some("ping"@)));
                        assert(is_text == (mv[0] == Some("text"@)));
                        if is_ping {
                            let acts = vec![Action::Send(String::from_str(PONG))];
                            assert(action_views(acts@) =~= seq![ActionView::Send(PONG@)]);
                            acts
                        } else if is_text {
                            let text = match &m[1] {
                                Some(x) => x.clone(),
                                None => String::new(),
                            };
                            let session_id = match &m[2] {
                                Some(x) => x.clone(),
                                None => String::new(),
                            };
                            assert(text@ == member_or(mv[1], Seq::empty()));
                            assert(session_id@ == member_or(mv[2], Seq::empty()));
                            let acts = vec![
                                Action::Received { name: self.name.clone(), text: text.clone() },
                                Action::Inject { text, session_id },
                            ];
                            assert(action_views(acts@) =~= seq![
                                ActionView::Received { name: self.name@, text: member_or(mv[1], Seq::empty()) },
                                ActionView::Inject {
                                    text: member_or(mv[1], Seq::empty()),
                                    session_id: member_or(mv[2], Seq::empty()),
                                },
                            ]);
                            acts
                        } else {
                            let acts: Vec<Action> = Vec::new();
                            assert(action_views(acts@) =~= Seq::<ActionView>::empty());
                            acts
                        }
                    },
                }
            },
            Frame::Close | Frame::Ended => {
                self.phase = Phase::Closed;
                let acts = vec![Action::Leave];
                assert(action_views(acts@) =~= seq![ActionView::Leave]);
                acts
            },
            Frame::Other => {
                let acts: Vec<Action> = Vec::new();
                assert(action_views(acts@) =~= Seq::<ActionView>::empty());
                acts
            },
        }
    }

    /// Handles a heartbeat tick at time `now`, as `tick_step` says.
    pub fn on_tick(&mut self, now: u64) -> (acts: Vec<Action>)
        ensures
            (final(self)@, action_views(acts@)) == tick_step(old(self)@, now),
    {
        if self.phase != Phase::Open {
            let acts: Vec<Action> = Vec::new();
            assert(action_views(acts@) =~= Seq::<ActionView>::empty());
            return acts;
        }
        if now > self.last_recv && now - self.last_recv > HEARTBEAT_TIMEOUT_NANOS {
            self.phase = Phase::Closed;
            let acts = vec![Action::Send(String::from_str(PING)), Action::Leave];
            assert(action_views(acts@) =~= seq![ActionView::Send(PING@), ActionView::Leave]);
            acts
        } else {
            let acts = vec![Action::Send(String::from_str(PING))];
            assert(action_views(acts@) =~= seq![ActionView::Send(PING@)]);
            acts
        }
    }

    /// Where the connection stands.
    pub fn phase(&self) -> (p: Phase)
        ensures
            p == self@.phase,
    {
        self.phase
    }
}

/// What to do once the text of session `session_id` was typed, or failed to be: acknowledge
/// it, and on failure also tell the window.
pub fn injection_reply(session_id: String, outcome: Result<(), String>) -> (acts: Vec<Action>)
    ensures
        action_views(acts@) == injection_step(
            session_id@,
            match outcome {
                Ok(()) => Ok(()),
                Err(e) => Err(e@),
            },
        ),
{
    match outcome {
        Ok(()) => {
            let acts = vec![Action::Send(String::from_str(ACK_OK))];
            assert(action_views(acts@) =~= seq![ActionView::Send(ACK_OK@)]);
            acts
        },
        Err(e) => {
            let mut ack = String::from_str("{\"type\":\"ack\",\"ok\":false,\"error\":");
            ack.append(json_quote(e.as_str()).as_str());
            ack.append("}");
            let ghost ev = e@;
            let acts = vec![Action::SendError { session_id, error: e }, Action::Send(ack)];
            assert(action_views(acts@) =~= injection_step(session_id@, Err(ev)));
            acts
        },
    }
}

/// The first message `t` authenticates a phone holding `token`: it is a JSON object whose
/// `type` is `auth` and whose `token` is the expected one.
pub open spec fn auth_accepts(t: Seq<char>, token: Seq<char>) -> bool {
    match json_string_members(t, auth_keys()) {
        Some(m) => m.len() == 3 && m[0] == Some("auth"@) && m[1] == Some(token),
        None => false,
    }
}

/// A connection opens, and its phone is registered, exactly when the first frame is a text
/// message that carries the expected token; otherwise it is closed at once, after a
/// `bad token` reply when the message was JSON.
pub proof fn law_auth_required(v: SessionView, f: FrameView, now: u64)
    requires
        v.phase == Phase::AwaitingAuth,
    ensures
        (frame_step(v, f, now).0.phase == Phase::Open) == (f is Text && auth_accepts(f->Text_0, v.token)),
        (f is Text && auth_accepts(f->Text_0, v.token)) ==> frame_step(v, f, now).1.len() == 1
            && frame_step(v, f, now).1[0] is Register,
        !(f is Text && auth_accepts(f->Text_0, v.token)) ==> {
            let (next, acts) = frame_step(v, f, now);
            &&& next.phase == Phase::Closed
            &&& acts.len() >= 1
            &&& acts.last() == ActionView::SendClose
            &&& forall|i: int| 0 <= i < acts.len() ==> !(#[trigger] acts[i] is Register)
        },
        (f is Text && json_string_members(f->Text_0, auth_keys()) is Some && !auth_accepts(
            f->Text_0,
            v.token,
        )) ==> frame_step(v, f, now).1[0] == ActionView::Send(BAD_TOKEN_REPLY@),
{
}

/// Once a connection is closed, nothing that arrives makes it do anything.
pub proof fn law_closed_is_final(v: SessionView, f: FrameView, now: u64)
    requires
        v.phase == Phase::Closed,
    ensures
        frame_step(v, f, now) == (v, Seq::<ActionView>::empty()),
        tick_step(v, now) == (v, Seq::<ActionView>::empty()),
{
}

/// An open connection answers every ping with a pong, and stays open.
pub proof fn law_ping_answered(v: SessionView, t: Seq<char>, now: u64)
    requires
        v.phase == Phase::Open,
        json_string_members(t, message_keys()) matches Some(m) && m.len() == 3 && m[0] == Some(
            "ping"@,
        ),
    ensures
        frame_step(v, FrameView::Text(t), now).1 == seq![ActionView::Send(PONG@)],
        frame_step(v, FrameView::Text(t), now).0.phase == Phase::Open,
{
}

/// Each text message on an open connection is typed exactly once, and announced under the
/// phone's name.
pub proof fn law_text_typed_once(v: SessionView, t: Seq<char>, now: u64)
    requires
        v.phase == Phase::Open,
        json_string_members(t, message_keys()) matches Some(m) && m.len() == 3 && m[0] == Some(
            "text"@,
        ),
    ensures
        frame_step(v, FrameView::Text(t), now).1.len() == 2,
        frame_step(v, FrameView::Text(t), now).1[0] matches ActionView::Received { name, .. } && name
            == v.name,
        frame_step(v, FrameView::Text(t), now).1[1] is Inject,
        frame_step(v, FrameView::Text(t), now).0.phase == Phase::Open,
{
    reveal_strlit("ping");
    reveal_strlit("text");
    assert("ping"@ != "text"@) by {
        assert("ping"@[0] != "text"@[0]);
    }
}

/// A phone that presents the right token is registered under the name it announced, or as
/// `phone` when it announced none, and later texts are announced under that name.
pub proof fn law_auth_registers_announced_name(v: SessionView, t: Seq<char>, now: u64, name: Option<Seq<char>>)
    requires
        v.phase == Phase::AwaitingAuth,
        json_string_members(t, auth_keys()) == Some(seq![Some("auth"@), Some(v.token), name]),
    ensures
        ({
            let registered = match name {
                Some(n) => n,
                None => "phone"@,
            };
            &&& frame_step(v, FrameView::Text(t), now).1 == seq![ActionView::Register(registered)]
            &&& frame_step(v, FrameView::Text(t), now).0.name == registered
            &&& frame_step(v, FrameView::Text(t), now).0.phase == Phase::Open
        }),
{
    let m = seq![Some("auth"@), Some(v.token), name];
    assert(m.len() == 3 && m[0] == Some("auth"@) && m[1] == Some(v.token) && m[2] == name);
}

/// A text message on an open connection is announced and typed exactly as the phone sent
/// it: the `text` member's string, unchanged (white space and line breaks included), under
/// the message's `sessionId`.
pub proof fn law_text_typed_verbatim(
    v: SessionView,
    t: Seq<char>,
    now: u64,
    text: Seq<char>,
    session_id: Seq<char>,
)
    requires
        v.phase == Phase::Open,
        json_string_members(t, message_keys()) == Some(
            seq![Some("text"@), Some(text), Some(session_id)],
        ),
    ensures
        frame_step(v, FrameView::Text(t), now).1 == seq![
            ActionView::Received { name: v.name, text },
            ActionView::Inject { text, session_id },
        ],
{
    reveal_strlit("ping");
    reveal_strlit("text");
    assert("ping"@ != "text"@) by {
        assert("ping"@[0] != "text"@[0]);
    }
    let m = seq![Some("text"@), Some(text), Some(session_id)];
    assert(m.len() == 3 && m[0] == Some("text"@) && m[1] == Some(text) && m[2] == Some(session_id));
}

/// Every text frame on an open connection counts as a sign of life, and a phone is dropped
/// only after more than 20 s without one; every tick on an open connection sends a ping.
pub proof fn law_heartbeat(v: SessionView, t: Seq<char>, now: u64, later: u64)
    requires
        v.phase == Phase::Open,
    ensures
        frame_step(v, FrameView::Text(t), now).0.last_recv == now,
        tick_step(v, later).1[0] == ActionView::Send(PING@),
        (tick_step(v, later).0.phase == Phase::Closed) == (later > v.last_recv && later - v.last_recv
            > HEARTBEAT_TIMEOUT_NANOS),
        (frame_step(v, FrameView::Text(t), now).0.phase == Phase::Open && later <= now
            + HEARTBEAT_TIMEOUT_NANOS) ==> tick_step(frame_step(v, FrameView::Text(t), now).0, later).0.phase
            == Phase::Open,
{
}

/// The acknowledgement for an outcome of typing.
pub open spec fn ack_of(outcome: Result<(), Seq<char>>) -> Seq<char> {
    match outcome {
        Ok(()) => ACK_OK@,
        Err(e) => ack_error_of(e),
    }
}

/// The phone is always answered: one acknowledgement per typed text, positive exactly when
/// typing succeeded; a failure is also reported to the window, with its reason.
pub proof fn law_ack_reports_outcome(session_id: Seq<char>, outcome: Result<(), Seq<char>>)
    ensures
        injection_step(session_id, outcome).last() == ActionView::Send(ack_of(outcome)),
        outcome is Err ==> injection_step(session_id, outcome)[0] == (ActionView::SendError {
            session_id,
            error: outcome->Err_0,
        }),
{
}

/// `std::time::SystemTime`, carried through as it is.
#[verifier::external_type_specification]
#[verifier::external_body]
pub struct ExSystemTime(std::time::SystemTime);

/// `SystemTime::now`. Nothing is claimed: it reads the clock.
#[verifier::external_body]
fn system_now() -> std::time::SystemTime {
    std::time::SystemTime::now()
}

/// `SystemTime::duration_since(UNIX_EPOCH)`, `None` for a time before the epoch. Nothing is
/// claimed of the duration.
#[verifier::external_body]
fn since_unix_epoch(t: &std::time::SystemTime) -> Option<std::time::Duration> {
    t.duration_since(std::time::UNIX_EPOCH).ok()
}

/// `Duration::as_millis`. Nothing is claimed: `Duration` is not seen into here.
#[verifier::external_body]
fn duration_millis(d: &std::time::Duration) -> u128 {
    d.as_millis()
}

/// Milliseconds since the epoch, cut to 64 bits, or 0 for a clock set before the epoch.
pub fn millis_or_zero(ms: Option<u128>) -> (r: u64)
    ensures
        r == match ms {
            Some(m) => m as u64,
            None => 0,
        },
{
    match ms {
        Some(m) => m as u64,
        None => 0,
    }
}

/// The wall clock in milliseconds since the Unix epoch (0 if the clock is before it), the
/// time stamp of the text-received events.
pub fn now_millis() -> u64 {
    let now = system_now();
    let since = match since_unix_epoch(&now) {
        Some(d) => Some(duration_millis(&d)),
        None => None,
    };
    millis_or_zero(since)
}

/// The ports to try binding the WebSocket server to, in order: the preferred port unless it
/// is 0, then 0, which lets the OS pick a free one (so a taken port never stops the server).
pub fn bind_attempts(preferred: u16) -> (r: Vec<u16>)
    ensures
        r@ == if preferred != 0 {
            seq![preferred, 0u16]
        } else {
            seq![0u16]
        },
{
    let mut r: Vec<u16> = Vec::new();
    if preferred != 0 {
        r.push(preferred);
    }
    r.push(0);
    assert(r@ =~= if preferred != 0 {
        seq![preferred, 0u16]
    } else {
        seq![0u16]
    });
    r
}

} // verus!
