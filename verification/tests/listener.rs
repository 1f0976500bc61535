use hypr_workspaces::monitor::{
    check_script, default_socket_path, get_hyprland_socket, listen, parse_event,
    runtime_socket_path, Listener, ListenerState, Reaction, ReconciliationAction, ScriptProbe,
    ScriptVerdict, StreamRead,
};

fn line(text: &str) -> StreamRead {
    StreamRead::Line(text.to_string())
}

fn scripts(attached: &str, detached: Option<&str>) -> Listener {
    Listener::new(ReconciliationAction::Script {
        attached: attached.to_string(),
        detached: detached.map(|d| d.to_string()),
    })
}

#[test]
fn a_monitor_added_line_calls_the_handler_once() {
    let mut listener = Listener::new(ReconciliationAction::Callback);
    let mut calls: Vec<(String, bool)> = Vec::new();
    match listen(&mut listener, &line("monitoradded>>DP-2")) {
        Reaction::Callback { monitor, added } => calls.push((monitor, added)),
        other => panic!("unexpected reaction {:?}", other),
    }
    assert_eq!(calls, vec![("DP-2".to_string(), true)]);
    assert_eq!(listener.state, ListenerState::Connected);
}

#[test]
fn a_line_without_separator_is_ignored() {
    let mut listener = Listener::new(ReconciliationAction::Callback);
    for text in ["", "\n", "monitoradded", "monitoradded>DP-2", "monitoradded DP-2", "> >", "workspace"] {
        assert!(matches!(listen(&mut listener, &line(text)), Reaction::Ignore), "line {:?}", text);
        assert_eq!(listener.state, ListenerState::Connected);
        assert!(matches!(listener.action, ReconciliationAction::Callback));
    }
    let mut listener = scripts("/bin/on", Some("/bin/off"));
    assert!(matches!(listen(&mut listener, &line("monitorremoved")), Reaction::Ignore));
    assert_eq!(listener.state, ListenerState::Connected);
    match &listener.action {
        ReconciliationAction::Script { attached, detached } => {
            assert_eq!(attached, "/bin/on");
            assert_eq!(detached.as_deref(), Some("/bin/off"));
        }
        other => panic!("unexpected action {:?}", other),
    }
}

#[test]
fn a_monitor_removed_line_calls_the_handler_with_false() {
    let mut listener = Listener::new(ReconciliationAction::Callback);
    match listen(&mut listener, &line("monitorremoved>>HDMI-A-1\n")) {
        Reaction::Callback { monitor, added } => {
            assert_eq!(monitor, "HDMI-A-1");
            assert!(!added);
        }
        other => panic!("unexpected reaction {:?}", other),
    }
}

#[test]
fn other_events_are_ignored() {
    let mut listener = Listener::new(ReconciliationAction::Callback);
    for text in [
        "workspace>>3",
        "activewindow>>kitty,zsh",
        "monitoraddedv2>>1,DP-2,desc",
        "Monitoradded>>DP-2",
        "monitoradded >>DP-2",
        ">>DP-2",
        ">>monitoradded>>DP-2",
        "focusedmon>>DP-1,2",
    ] {
        assert!(matches!(listen(&mut listener, &line(text)), Reaction::Ignore), "line {:?}", text);
        assert_eq!(listener.state, ListenerState::Connected);
    }
}

#[test]
fn events_are_parsed_field_by_field() {
    let event = parse_event("monitoradded>>DP-2").unwrap();
    assert_eq!((event.monitor.as_str(), event.added), ("DP-2", true));
    let event = parse_event("  monitoradded>>DP-2 \r\n").unwrap();
    assert_eq!((event.monitor.as_str(), event.added), ("DP-2", true));
    let event = parse_event("monitorremoved>>DP-2>>more>>fields").unwrap();
    assert_eq!((event.monitor.as_str(), event.added), ("DP-2", false));
    let event = parse_event("monitoradded>>").unwrap();
    assert_eq!((event.monitor.as_str(), event.added), ("", true));
    let event = parse_event("monitoradded>>>DP-2").unwrap();
    assert_eq!((event.monitor.as_str(), event.added), (">DP-2", true));
    let event = parse_event("monitoradded>> DP 2 >>x").unwrap();
    assert_eq!((event.monitor.as_str(), event.added), (" DP 2 ", true));
    assert!(parse_event("monitoradded").is_none());
    assert!(parse_event("").is_none());
    assert!(parse_event("openwindow>>a>>b").is_none());
}

#[test]
fn events_split_as_std_splits() {
    for text in [
        "monitoradded>>DP-2",
        "monitoradded>>>DP-2",
        "monitoradded>>>>DP-2",
        "monitorremoved>>a>>b",
        " monitorremoved>>a b \n",
        "monitoradded>>",
        "monitoradded",
        ">>",
        "",
    ] {
        let trimmed = text.trim();
        let parts: Vec<&str> = trimmed.split(">>").collect();
        let expected = if parts.len() < 2 {
            None
        } else if parts[0] == "monitoradded" {
            Some((parts[1].to_string(), true))
        } else if parts[0] == "monitorremoved" {
            Some((parts[1].to_string(), false))
        } else {
            None
        };
        assert_eq!(parse_event(text).map(|e| (e.monitor, e.added)), expected, "line {:?}", text);
    }
}

#[test]
fn a_script_is_asked_for_on_each_change() {
    let mut listener = scripts("/bin/on", Some("/bin/off"));
    match listen(&mut listener, &line("monitoradded>>DP-2")) {
        Reaction::Script { path, monitor } => {
            assert_eq!(path, "/bin/on");
            assert_eq!(monitor, "DP-2");
        }
        other => panic!("unexpected reaction {:?}", other),
    }
    match listen(&mut listener, &line("monitorremoved>>DP-2")) {
        Reaction::Script { path, monitor } => {
            assert_eq!(path, "/bin/off");
            assert_eq!(monitor, "DP-2");
        }
        other => panic!("unexpected reaction {:?}", other),
    }
}

#[test]
fn without_a_detached_script_a_removal_asks_for_nothing() {
    let mut listener = scripts("/bin/on", None);
    assert!(matches!(listen(&mut listener, &line("monitorremoved>>DP-2")), Reaction::Ignore));
    assert!(matches!(listen(&mut listener, &line("monitoradded>>DP-2")), Reaction::Script { .. }));
}

#[test]
fn the_end_of_the_stream_terminates_the_listener() {
    let mut listener = Listener::new(ReconciliationAction::Callback);
    assert_eq!(listener.state, ListenerState::Connected);
    assert!(matches!(listen(&mut listener, &StreamRead::Closed), Reaction::Stop));
    assert_eq!(listener.state, ListenerState::Terminated);
    let mut listener = scripts("/bin/on", None);
    assert!(matches!(listen(&mut listener, &StreamRead::Failed), Reaction::Stop));
    assert_eq!(listener.state, ListenerState::Terminated);
}

#[test]
fn a_terminated_listener_stays_terminated() {
    let mut listener = Listener::new(ReconciliationAction::Callback);
    listen(&mut listener, &StreamRead::Failed);
    assert!(matches!(listen(&mut listener, &line("monitoradded>>DP-2")), Reaction::Stop));
    assert!(matches!(listen(&mut listener, &StreamRead::Closed), Reaction::Stop));
    assert_eq!(listener.state, ListenerState::Terminated);
}

#[test]
fn a_script_is_spawned_when_its_owner_may_execute_it() {
    assert_eq!(check_script(ScriptProbe::Missing), ScriptVerdict::NotFound);
    assert_eq!(check_script(ScriptProbe::Found { mode: 0o100755 }), ScriptVerdict::Spawn);
    assert_eq!(check_script(ScriptProbe::Found { mode: 0o100 }), ScriptVerdict::Spawn);
    assert_eq!(check_script(ScriptProbe::Found { mode: 0o100644 }), ScriptVerdict::NotExecutable);
    assert_eq!(check_script(ScriptProbe::Found { mode: 0o100011 }), ScriptVerdict::NotExecutable);
    assert_eq!(check_script(ScriptProbe::Found { mode: 0 }), ScriptVerdict::NotExecutable);
}

#[test]
fn the_socket_below_the_runtime_directory_is_preferred() {
    assert_eq!(
        get_hyprland_socket(Ok("abc_123"), Some("/run/user/1000"), true),
        Ok("/run/user/1000/hypr/abc_123/.socket2.sock".to_string())
    );
    assert_eq!(
        get_hyprland_socket(Ok("abc_123"), Some("/run/user/1000"), false),
        Ok("/tmp/hypr/abc_123/.socket2.sock".to_string())
    );
    assert_eq!(
        get_hyprland_socket(Ok("abc_123"), None, false),
        Ok("/tmp/hypr/abc_123/.socket2.sock".to_string())
    );
    assert_eq!(
        get_hyprland_socket(Ok("abc_123"), None, true),
        Ok("/tmp/hypr/abc_123/.socket2.sock".to_string())
    );
    assert_eq!(runtime_socket_path("/run/user/1", "sig"), "/run/user/1/hypr/sig/.socket2.sock");
    assert_eq!(default_socket_path("sig"), "/tmp/hypr/sig/.socket2.sock");
}

#[test]
fn without_an_instance_there_is_no_socket() {
    assert_eq!(
        get_hyprland_socket(Err("environment variable not found"), Some("/run/user/1000"), true),
        Err("Fatal Error: Hyprland is not running. environment variable not found".to_string())
    );
    assert_eq!(
        get_hyprland_socket(Err(""), None, false),
        Err("Fatal Error: Hyprland is not running. ".to_string())
    );
}
