use aerodesk::session::{
    bind_attempts, injection_reply, millis_or_zero, now_millis, Action, Frame, Phase, Session, ACK_OK,
    BAD_TOKEN_REPLY, PING, PONG,
};

const SEC: u64 = 1_000_000_000;

fn open_session() -> Session {
    let mut s = Session::new("tok".to_string());
    let acts = s.on_frame(Frame::Text("{\"type\":\"auth\",\"token\":\"tok\",\"name\":\"Pixel\"}".into()), 5 * SEC);
    assert_eq!(acts, vec![Action::Register("Pixel".into())]);
    assert_eq!(s.phase(), Phase::Open);
    s
}

#[test]
fn auth_with_the_right_token_registers() {
    open_session();
}

#[test]
fn auth_without_name_is_called_phone() {
    let mut s = Session::new("tok".to_string());
    let acts = s.on_frame(Frame::Text("{\"type\":\"auth\",\"token\":\"tok\"}".into()), 0);
    assert_eq!(acts, vec![Action::Register("phone".into())]);
}

#[test]
fn bad_token_is_refused_and_closed() {
    let mut s = Session::new("tok".to_string());
    let acts = s.on_frame(Frame::Text("{\"type\":\"auth\",\"token\":\"nope\",\"name\":\"x\"}".into()), 0);
    assert_eq!(acts, vec![Action::Send(BAD_TOKEN_REPLY.into()), Action::SendClose]);
    assert_eq!(s.phase(), Phase::Closed);
    assert_eq!(BAD_TOKEN_REPLY, "{\"type\":\"ack\",\"ok\":false,\"error\":\"bad token\"}");
}

#[test]
fn wrong_type_is_refused() {
    let mut s = Session::new("tok".to_string());
    let acts = s.on_frame(Frame::Text("{\"type\":\"text\",\"token\":\"tok\"}".into()), 0);
    assert_eq!(acts, vec![Action::Send(BAD_TOKEN_REPLY.into()), Action::SendClose]);
}

#[test]
fn non_json_or_non_text_first_frame_is_closed() {
    let mut s = Session::new("tok".to_string());
    assert_eq!(s.on_frame(Frame::Text("hello".into()), 0), vec![Action::SendClose]);
    assert_eq!(s.phase(), Phase::Closed);
    let mut s = Session::new("tok".to_string());
    assert_eq!(s.on_frame(Frame::Other, 0), vec![Action::SendClose]);
    let mut s = Session::new("tok".to_string());
    assert_eq!(s.on_frame(Frame::Ended, 0), vec![Action::SendClose]);
}

#[test]
fn ping_gets_pong() {
    let mut s = open_session();
    assert_eq!(s.on_frame(Frame::Text("{\"type\":\"ping\"}".into()), 6 * SEC), vec![Action::Send(PONG.into())]);
    assert_eq!(PONG, "{\"type\":\"pong\"}");
    assert_eq!(s.on_frame(Frame::Text("{\"type\":\"pong\"}".into()), 6 * SEC), vec![]);
}

#[test]
fn text_is_announced_and_typed() {
    let mut s = open_session();
    let acts = s.on_frame(Frame::Text("{\"type\":\"text\",\"text\":\"你好\",\"sessionId\":\"s1\"}".into()), 6 * SEC);
    assert_eq!(
        acts,
        vec![
            Action::Received { name: "Pixel".into(), text: "你好".into() },
            Action::Inject { text: "你好".into(), session_id: "s1".into() },
        ]
    );
    let acts = s.on_frame(Frame::Text("{\"type\":\"text\"}".into()), 6 * SEC);
    assert_eq!(
        acts,
        vec![
            Action::Received { name: "Pixel".into(), text: "".into() },
            Action::Inject { text: "".into(), session_id: "".into() },
        ]
    );
}

#[test]
fn junk_is_ignored() {
    let mut s = open_session();
    assert_eq!(s.on_frame(Frame::Text("garbage".into()), 6 * SEC), vec![]);
    assert_eq!(s.on_frame(Frame::Text("{\"type\":\"other\"}".into()), 6 * SEC), vec![]);
    assert_eq!(s.on_frame(Frame::Other, 6 * SEC), vec![]);
    assert_eq!(s.phase(), Phase::Open);
}

#[test]
fn close_or_end_leaves() {
    let mut s = open_session();
    assert_eq!(s.on_frame(Frame::Close, 6 * SEC), vec![Action::Leave]);
    assert_eq!(s.phase(), Phase::Closed);
    assert_eq!(s.on_frame(Frame::Text("{\"type\":\"ping\"}".into()), 7 * SEC), vec![]);
    assert_eq!(s.on_tick(100 * SEC), vec![]);
    let mut s = open_session();
    assert_eq!(s.on_frame(Frame::Ended, 6 * SEC), vec![Action::Leave]);
}

#[test]
fn heartbeat_pings_and_times_out() {
    let mut s = open_session();
    assert_eq!(s.on_tick(10 * SEC), vec![Action::Send(PING.into())]);
    assert_eq!(s.on_tick(25 * SEC), vec![Action::Send(PING.into())]);
    assert_eq!(s.on_tick(25 * SEC + 1), vec![Action::Send(PING.into()), Action::Leave]);
    assert_eq!(s.phase(), Phase::Closed);
    assert_eq!(PING, "{\"type\":\"ping\"}");
}

#[test]
fn any_text_frame_keeps_the_phone_alive() {
    let mut s = open_session();
    s.on_frame(Frame::Text("not json".into()), 20 * SEC);
    assert_eq!(s.on_tick(39 * SEC), vec![Action::Send(PING.into())]);
    assert_eq!(s.on_tick(41 * SEC), vec![Action::Send(PING.into()), Action::Leave]);
}

#[test]
fn ticks_before_auth_do_nothing() {
    let mut s = Session::new("tok".into());
    assert_eq!(s.on_tick(100 * SEC), vec![]);
    assert_eq!(s.phase(), Phase::AwaitingAuth);
}

#[test]
fn injection_is_acknowledged() {
    assert_eq!(injection_reply("s1".into(), Ok(())), vec![Action::Send(ACK_OK.into())]);
    assert_eq!(ACK_OK, "{\"type\":\"ack\",\"ok\":true}");
    assert_eq!(
        injection_reply("s2".into(), Err("no \"focus\"".into())),
        vec![
            Action::SendError { session_id: "s2".into(), error: "no \"focus\"".into() },
            Action::Send("{\"type\":\"ack\",\"ok\":false,\"error\":\"no \\\"focus\\\"\"}".into()),
        ]
    );
}

#[test]
fn bind_order() {
    assert_eq!(bind_attempts(8765), vec![8765, 0]);
    assert_eq!(bind_attempts(0), vec![0]);
}

#[test]
fn clock() {
    assert_eq!(millis_or_zero(None), 0);
    assert_eq!(millis_or_zero(Some(1_700_000_000_000)), 1_700_000_000_000);
    assert_eq!(millis_or_zero(Some((1u128 << 64) + 5)), 5);
    assert!(now_millis() > 1_600_000_000_000);
}
