use aerodesk::platform::{
    finish_cli, finish_injection, has_editable_text, has_state, inject_cli, inject_text, insert_plan,
    is_accessibility_trusted, readback_verified, remaining_targets, AccessibleRef, CliRun, CliStep,
    InsertPlan, Injection, SearchAction, SearchEvent, TargetSearch, Walk, NO_EDITABLE_TARGET,
    NO_INJECTOR, STATE_ACTIVE, STATE_FOCUSED,
};

fn r(bus: &str, path: &str) -> AccessibleRef {
    AccessibleRef { bus: bus.into(), path: path.into() }
}

#[test]
fn state_bits() {
    assert!(has_state(&vec![1 << 12], STATE_FOCUSED));
    assert!(!has_state(&vec![1 << 12], STATE_ACTIVE));
    assert!(has_state(&vec![0b10], STATE_ACTIVE));
    assert!(has_state(&vec![0, 1 << 1], 33));
    assert!(!has_state(&vec![u32::MAX], 40));
    assert!(!has_state(&vec![], STATE_ACTIVE));
}

#[test]
fn editable_text_interface() {
    let yes = vec!["org.a11y.atspi.Accessible".to_string(), "org.a11y.atspi.EditableText".to_string()];
    let no = vec!["org.a11y.atspi.Text".to_string()];
    assert!(has_editable_text(&yes));
    assert!(!has_editable_text(&no));
    assert!(!has_editable_text(&vec![]));
}

#[test]
fn injection_steps() {
    assert_eq!(inject_text(Ok(())), Injection::Done(Ok(())));
    assert_eq!(inject_text(Err("bus down".into())), Injection::TryCli("bus down".into()));
    assert_eq!(finish_injection("bus down", Ok(())), Ok(()));
    assert_eq!(
        finish_injection("bus down", Err("no xdotool".into())),
        Err("AT-SPI: bus down; CLI: no xdotool".to_string())
    );
}

#[test]
fn cli_steps() {
    assert_eq!(inject_cli(CliRun::Finished { success: true, status: "exit status: 0".into() }), CliStep::Done(Ok(())));
    assert_eq!(
        inject_cli(CliRun::Finished { success: false, status: "exit status: 1".into() }),
        CliStep::Done(Err("xdotool type failed (status exit status: 1)".into()))
    );
    assert_eq!(inject_cli(CliRun::Unavailable), CliStep::TryWtype);
    assert_eq!(finish_cli(CliRun::Finished { success: true, status: String::new() }), Ok(()));
    assert_eq!(
        finish_cli(CliRun::Finished { success: false, status: "exit status: 2".into() }),
        Err("wtype failed (status exit status: 2)".into())
    );
    assert_eq!(finish_cli(CliRun::Unavailable), Err(NO_INJECTOR.to_string()));
    assert_eq!(
        NO_INJECTOR,
        "no clipboard-free Linux injector found: install xdotool (X11) or wtype (Wayland), and enable the AT-SPI accessibility bus"
    );
}

#[test]
fn trust() {
    assert!(is_accessibility_trusted(None));
    assert!(is_accessibility_trusted(Some(true)));
    assert!(!is_accessibility_trusted(Some(false)));
}

#[test]
fn readback() {
    assert!(readback_verified("", "hello", "hello"));
    assert!(readback_verified("abc", "xhellox", "hello"));
    assert!(!readback_verified("hello", "hello world", "hello"));
    assert!(!readback_verified("", "help", "hello"));
}

#[test]
fn insert_plans() {
    assert_eq!(insert_plan(-1, "abc"), None);
    assert_eq!(insert_plan(5, "中文"), Some(InsertPlan { end: 7, byte_len: 6 }));
    assert_eq!(insert_plan(0, ""), Some(InsertPlan { end: 0, byte_len: 0 }));
    assert_eq!(insert_plan(i32::MIN, "abc"), None);
    assert_eq!(insert_plan(i32::MAX - 3, "abc"), Some(InsertPlan { end: i32::MAX, byte_len: 3 }));
}

#[test]
fn remaining_targets_skip_tried_and_repeats() {
    let tried = vec![r(":1.2", "/a"), r(":1.3", "/b")];
    let found = vec![r(":1.3", "/b"), r(":1.4", "/c"), r(":1.4", "/c"), r(":1.2", "/z")];
    assert_eq!(remaining_targets(&tried, &found), vec![r(":1.4", "/c"), r(":1.2", "/z")]);
}

#[test]
fn walk_is_depth_first_and_visits_once() {
    // root -> [a, b]; a -> [c, b]; b -> [a]
    let mut w = Walk::new(r("bus", "/root"));
    let mut order = Vec::new();
    while let Some(n) = w.next() {
        order.push(n.path.clone());
        let children = match n.path.as_str() {
            "/root" => vec![r("bus", "/a"), r("bus", "/b")],
            "/a" => vec![r("bus", "/c"), r("bus", "/b")],
            "/b" => vec![r("bus", "/a")],
            _ => vec![],
        };
        w.descend(children);
    }
    assert_eq!(order, vec!["/root", "/a", "/c", "/b"]);
}

fn active() -> SearchEvent {
    SearchEvent::State(vec![1 << STATE_ACTIVE])
}

fn focused() -> SearchEvent {
    SearchEvent::State(vec![1 << STATE_FOCUSED])
}

fn plain() -> SearchEvent {
    SearchEvent::State(vec![0])
}

fn editable() -> SearchEvent {
    SearchEvent::Interfaces(vec!["org.a11y.atspi.Text".to_string(), "org.a11y.atspi.EditableText".to_string()])
}

fn children(list: &[&str]) -> SearchEvent {
    SearchEvent::Children(list.iter().map(|p| r("bus", p)).collect())
}

#[test]
fn search_types_into_the_focused_control_of_the_active_window() {
    // root -> [win]; win (active) -> [edit]; edit is focused and editable
    let mut s = TargetSearch::new(r("bus", "/root"));
    assert_eq!(s.request(), SearchAction::QueryState(r("bus", "/root")));
    assert_eq!(s.step(plain()), SearchAction::QueryChildren(r("bus", "/root")));
    assert_eq!(s.step(children(&["/win"])), SearchAction::QueryState(r("bus", "/win")));
    assert_eq!(s.step(active()), SearchAction::QueryState(r("bus", "/win")));
    assert_eq!(s.step(plain()), SearchAction::QueryChildren(r("bus", "/win")));
    assert_eq!(s.step(children(&["/edit"])), SearchAction::QueryState(r("bus", "/edit")));
    assert_eq!(s.step(focused()), SearchAction::QueryInterfaces(r("bus", "/edit")));
    assert_eq!(s.step(editable()), SearchAction::QueryChildren(r("bus", "/edit")));
    assert_eq!(s.step(children(&[])), SearchAction::TryInsert(r("bus", "/edit")));
    assert_eq!(s.step(SearchEvent::Inserted(Ok(true))), SearchAction::Finish(Ok(())));
    assert_eq!(s.step(plain()), SearchAction::Finish(Ok(())));
    assert_eq!(s.request(), SearchAction::Finish(Ok(())));
}

#[test]
fn search_falls_back_to_the_whole_tree_without_retrying() {
    // root -> [win, other]; win (active) -> [e1]; other -> [e2]; e1 and e2 focused editable
    let mut s = TargetSearch::new(r("bus", "/root"));
    assert_eq!(s.step(plain()), SearchAction::QueryChildren(r("bus", "/root")));
    assert_eq!(s.step(children(&["/win", "/other"])), SearchAction::QueryState(r("bus", "/win")));
    assert_eq!(s.step(active()), SearchAction::QueryState(r("bus", "/win")));
    assert_eq!(s.step(plain()), SearchAction::QueryChildren(r("bus", "/win")));
    assert_eq!(s.step(children(&["/e1"])), SearchAction::QueryState(r("bus", "/e1")));
    assert_eq!(s.step(focused()), SearchAction::QueryInterfaces(r("bus", "/e1")));
    assert_eq!(s.step(editable()), SearchAction::QueryChildren(r("bus", "/e1")));
    assert_eq!(s.step(children(&[])), SearchAction::TryInsert(r("bus", "/e1")));
    // e1 accepted the call but the read-back did not show the text: the whole tree is next
    assert_eq!(s.step(SearchEvent::Inserted(Ok(false))), SearchAction::QueryState(r("bus", "/root")));
    assert_eq!(s.step(plain()), SearchAction::QueryChildren(r("bus", "/root")));
    assert_eq!(s.step(children(&["/win", "/other"])), SearchAction::QueryState(r("bus", "/win")));
    assert_eq!(s.step(active()), SearchAction::QueryChildren(r("bus", "/win")));
    assert_eq!(s.step(children(&["/e1"])), SearchAction::QueryState(r("bus", "/e1")));
    assert_eq!(s.step(focused()), SearchAction::QueryInterfaces(r("bus", "/e1")));
    assert_eq!(s.step(editable()), SearchAction::QueryChildren(r("bus", "/e1")));
    assert_eq!(s.step(children(&[])), SearchAction::QueryState(r("bus", "/other")));
    assert_eq!(s.step(plain()), SearchAction::QueryChildren(r("bus", "/other")));
    assert_eq!(s.step(children(&["/e2", "/win"])), SearchAction::QueryState(r("bus", "/e2")));
    assert_eq!(s.step(focused()), SearchAction::QueryInterfaces(r("bus", "/e2")));
    assert_eq!(s.step(editable()), SearchAction::QueryChildren(r("bus", "/e2")));
    // win was visited already, so the walk is over; e1 was tried, so only e2 is left
    assert_eq!(s.step(children(&[])), SearchAction::TryInsert(r("bus", "/e2")));
    assert_eq!(s.step(SearchEvent::Inserted(Ok(false))), SearchAction::Finish(Err(NO_EDITABLE_TARGET.to_string())));
}

#[test]
fn search_stops_at_a_bus_error() {
    let mut s = TargetSearch::new(r("bus", "/root"));
    assert_eq!(s.step(active()), SearchAction::QueryState(r("bus", "/root")));
    assert_eq!(s.step(focused()), SearchAction::QueryInterfaces(r("bus", "/root")));
    assert_eq!(s.step(editable()), SearchAction::QueryChildren(r("bus", "/root")));
    assert_eq!(s.step(children(&[])), SearchAction::TryInsert(r("bus", "/root")));
    assert_eq!(
        s.step(SearchEvent::Inserted(Err("org.freedesktop.DBus.Error.NoReply".to_string()))),
        SearchAction::Finish(Err("org.freedesktop.DBus.Error.NoReply".to_string()))
    );
}

#[test]
fn search_without_any_editable_control_fails() {
    let mut s = TargetSearch::new(r("bus", "/root"));
    assert_eq!(s.step(plain()), SearchAction::QueryChildren(r("bus", "/root")));
    // no window is active: the whole tree is searched
    assert_eq!(s.step(children(&[])), SearchAction::QueryState(r("bus", "/root")));
    assert_eq!(s.step(focused()), SearchAction::QueryInterfaces(r("bus", "/root")));
    // focused, but its text is not editable
    assert_eq!(
        s.step(SearchEvent::Interfaces(vec!["org.a11y.atspi.Text".to_string()])),
        SearchAction::QueryChildren(r("bus", "/root"))
    );
    assert_eq!(s.step(children(&[])), SearchAction::Finish(Err(NO_EDITABLE_TARGET.to_string())));
    assert_eq!(
        NO_EDITABLE_TARGET,
        "no focused editable control accepted the text; click into a text field first"
    );
}

#[test]
fn search_repeats_its_request_on_an_unasked_event() {
    let mut s = TargetSearch::new(r("bus", "/root"));
    assert_eq!(s.step(children(&["/a"])), SearchAction::QueryState(r("bus", "/root")));
    assert_eq!(s.step(SearchEvent::Inserted(Ok(true))), SearchAction::QueryState(r("bus", "/root")));
    assert_eq!(s.step(plain()), SearchAction::QueryChildren(r("bus", "/root")));
    assert_eq!(s.step(editable()), SearchAction::QueryChildren(r("bus", "/root")));
}

#[test]
fn search_over_a_cyclic_tree_ends() {
    // root -> [a, b]; a -> [root, b]; b -> [a]; no window is active, b is focused but not
    // editable: every object is asked about once per pass and the search ends.
    let mut s = TargetSearch::new(r("bus", "/root"));
    let mut action = s.request();
    let mut asked = Vec::new();
    for _ in 0..100 {
        let event = match action {
            SearchAction::QueryState(t) => {
                asked.push(format!("state {}", t.path));
                if t.path == "/b" { focused() } else { plain() }
            }
            SearchAction::QueryInterfaces(t) => {
                asked.push(format!("interfaces {}", t.path));
                SearchEvent::Interfaces(vec!["org.a11y.atspi.Text".to_string()])
            }
            SearchAction::QueryChildren(t) => {
                asked.push(format!("children {}", t.path));
                match t.path.as_str() {
                    "/root" => children(&["/a", "/b"]),
                    "/a" => children(&["/root", "/b"]),
                    _ => children(&["/a"]),
                }
            }
            SearchAction::TryInsert(_) => panic!("nothing is editable"),
            SearchAction::Finish(outcome) => {
                assert_eq!(outcome, Err(NO_EDITABLE_TARGET.to_string()));
                let pass = vec!["state /root", "children /root", "state /a", "children /a", "state /b"];
                assert_eq!(&asked[..5], &pass[..]);
                assert_eq!(asked.len(), 6 + 7);
                return;
            }
        };
        action = s.step(event);
    }
    panic!("the search did not end");
}
