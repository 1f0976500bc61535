//! The monitor-change listener: the grammar of the notification stream, the
//! two-state listener that turns each thing read from the stream into what has
//! to be done about it, the check on a script before it is spawned, and the
//! choice of the notification socket.
//!
//! Reading the socket, spawning a script and calling the handler are left to
//! the caller, which feeds `listen` what it read and carries out the reaction.

use crate::text::{
    find_in_range, first_match, lemma_first_match_from, lemma_trim_is_tight, matches_at,
    range_equals, to_chars, trim, trim_range,
};
use vstd::prelude::*;
use vstd::string::*;

verus! {

/// A monitor was connected or disconnected.
#[derive(Debug)]
pub struct MonitorEvent {
    /// Identity of the monitor.
    pub monitor: String,
    /// `true` for a connection, `false` for a disconnection.
    pub added: bool,
}

/// A monitor change as the contracts speak of it: the monitor as its text.
pub ghost struct MonitorEventView {
    pub monitor: Seq<char>,
    pub added: bool,
}

impl View for MonitorEvent {
    type V = MonitorEventView;

    open spec fn view(&self) -> MonitorEventView {
        MonitorEventView { monitor: self.monitor@, added: self.added }
    }
}

/// How a monitor change is acted on; fixed when the listener is made.
#[derive(Debug)]
pub enum ReconciliationAction {
    /// Run `attached` when a monitor appears and `detached`, where there is
    /// one, when a monitor goes away.
    Script { attached: String, detached: Option<String> },
    /// Call the handler that the caller holds.
    Callback,
}

/// An action as the contracts speak of it: the paths as their texts.
pub ghost enum ReconciliationActionView {
    Script { attached: Seq<char>, detached: Option<Seq<char>> },
    Callback,
}

impl View for ReconciliationAction {
    type V = ReconciliationActionView;

    open spec fn view(&self) -> ReconciliationActionView {
        match self {
            ReconciliationAction::Script { attached, detached } => ReconciliationActionView::Script {
                attached: attached@,
                detached: match detached {
                    Some(path) => Some(path@),
                    None => None,
                },
            },
            ReconciliationAction::Callback => ReconciliationActionView::Callback,
        }
    }
}

/// Whether the listener still holds its stream.
#[derive(Clone, Copy, Debug, PartialEq, Eq, Structural)]
pub enum ListenerState {
    Connected,
    Terminated,
}

/// The listener: its state and the action it was configured with.
#[derive(Debug)]
pub struct Listener {
    pub state: ListenerState,
    pub action: ReconciliationAction,
}

/// A listener as the contracts speak of it.
pub ghost struct ListenerView {
    pub state: ListenerState,
    pub action: ReconciliationActionView,
}

impl View for Listener {
    type V = ListenerView;

    open spec fn view(&self) -> ListenerView {
        ListenerView { state: self.state, action: self.action@ }
    }
}

/// What one read of the notification stream gave.
#[derive(Debug)]
pub enum StreamRead {
    /// One line, with or without its line ending.
    Line(String),
    /// The stream has ended.
    Closed,
    /// The read failed.
    Failed,
}

/// A read as the contracts speak of it: the line as its text.
pub ghost enum StreamReadView {
    Line(Seq<char>),
    Closed,
    Failed,
}

impl View for StreamRead {
    type V = StreamReadView;

    open spec fn view(&self) -> StreamReadView {
        match self {
            StreamRead::Line(line) => StreamReadView::Line(line@),
            StreamRead::Closed => StreamReadView::Closed,
            StreamRead::Failed => StreamReadView::Failed,
        }
    }
}

/// What the caller has to do after one read.
#[derive(Debug)]
pub enum Reaction {
    /// Nothing: go on reading.
    Ignore,
    /// Call the handler with the monitor's identity and the direction of the
    /// change.
    Callback { monitor: String, added: bool },
    /// Check the script at `path` and spawn it with the monitor's identity as
    /// its only argument.
    Script { path: String, monitor: String },
    /// Stop reading: the listener has terminated.
    Stop,
}

/// A reaction as the contracts speak of it: paths and monitors as their texts.
pub ghost enum ReactionView {
    Ignore,
    Callback { monitor: Seq<char>, added: bool },
    Script { path: Seq<char>, monitor: Seq<char> },
    Stop,
}

impl View for Reaction {
    type V = ReactionView;

    open spec fn view(&self) -> ReactionView {
        match self {
            Reaction::Ignore => ReactionView::Ignore,
            Reaction::Callback { monitor, added } => ReactionView::Callback {
                monitor: monitor@,
                added: *added,
            },
            Reaction::Script { path, monitor } => ReactionView::Script {
                path: path@,
                monitor: monitor@,
            },
            Reaction::Stop => ReactionView::Stop,
        }
    }
}

/// The separator between the fields of an event line.
pub open spec fn separator() -> Seq<char> {
    seq!['>', '>']
}

/// The first two fields of an event line: the line is trimmed and split at the
/// separator; a line with fewer than two fields has none.
pub open spec fn event_fields(line: Seq<char>) -> Option<(Seq<char>, Seq<char>)> {
    let t = trim(line);
    match first_match(t, separator()) {
        None => None,
        Some(p) => {
            let rest = t.skip(p + 2);
            let payload = match first_match(rest, separator()) {
                Some(q) => rest.take(q),
                None => rest,
            };
            Some((t.take(p), payload))
        },
    }
}

/// The monitor change that an event line reports, if it reports one.
pub open spec fn hotplug_event(line: Seq<char>) -> Option<MonitorEventView> {
    match event_fields(line) {
        None => None,
        Some((name, payload)) => if name == "monitoradded"@ {
            Some(MonitorEventView { monitor: payload, added: true })
        } else if name == "monitorremoved"@ {
            Some(MonitorEventView { monitor: payload, added: false })
        } else {
            None
        },
    }
}

/// What the configured action asks for on a monitor change.
pub open spec fn reaction_to(action: ReconciliationActionView, event: MonitorEventView)
    -> ReactionView {
    match action {
        ReconciliationActionView::Callback => ReactionView::Callback {
            monitor: event.monitor,
            added: event.added,
        },
        ReconciliationActionView::Script { attached, detached } => if event.added {
            ReactionView::Script { path: attached, monitor: event.monitor }
        } else {
            match detached {
                Some(path) => ReactionView::Script { path, monitor: event.monitor },
                None => ReactionView::Ignore,
            }
        },
    }
}

/// One step of the listener: the state after the read and the reaction to it.
///
/// A terminated listener stays terminated. A connected one terminates when the
/// stream has ended or failed, and otherwise reacts to the line: to a monitor
/// change as it was configured, to anything else not at all.
pub open spec fn listen_step(listener: ListenerView, read: StreamReadView) -> (
    ListenerView,
    ReactionView,
) {
    if listener.state == ListenerState::Terminated {
        (listener, ReactionView::Stop)
    } else {
        match read {
            StreamReadView::Line(line) => match hotplug_event(line) {
                Some(event) => (listener, reaction_to(listener.action, event)),
                None => (listener, ReactionView::Ignore),
            },
            _ => (
                ListenerView { state: ListenerState::Terminated, action: listener.action },
                ReactionView::Stop,
            ),
        }
    }
}

/// A pattern that does not occur in a line does not occur in the trimmed line.
proof fn lemma_trim_keeps_no_match(line: Seq<char>, pat: Seq<char>)
    requires
        first_match(line, pat) is None,
    ensures
        first_match(trim(line), pat) is None,
{
    let t = trim(line);
    lemma_first_match_from(line, pat, 0);
    lemma_first_match_from(t, pat, 0);
    lemma_trim_is_tight(line);
    if let Some(p) = first_match(t, pat) {
        let a = crate::text::leading_whitespace(line) as int;
        assert(line.subrange(a + p, a + p + pat.len()) =~= t.subrange(p, p + pat.len()));
        assert(matches_at(line, pat, a + p));
    }
}

/// A line without the separator is ignored by a connected listener, which
/// stays as it was.
pub proof fn lemma_line_without_separator_is_ignored(listener: ListenerView, line: Seq<char>)
    requires
        listener.state == ListenerState::Connected,
        first_match(line, separator()) is None,
    ensures
        listen_step(listener, StreamReadView::Line(line)) == (listener, ReactionView::Ignore),
{
    lemma_trim_keeps_no_match(line, separator());
}

/// Only a stream that has ended or failed changes a listener's state, and only
/// from connected to terminated.
pub proof fn lemma_listener_transitions(listener: ListenerView, read: StreamReadView)
    ensures
        listen_step(listener, read).0.action == listener.action,
        listen_step(listener, read).0.state != listener.state ==> {
            &&& listener.state == ListenerState::Connected
            &&& listen_step(listener, read).0.state == ListenerState::Terminated
            &&& !(read is Line)
            &&& listen_step(listener, read).1 == ReactionView::Stop
        },
        listener.state == ListenerState::Terminated ==> listen_step(listener, read) == (
            listener,
            ReactionView::Stop,
        ),
{
}

fn separator_chars() -> (sep: Vec<char>)
    ensures
        sep@ == separator(),
{
    let sep = vec!['>', '>'];
    assert(sep@ =~= separator());
    sep
}

/// Reads one line of the notification stream as a monitor change.
///
/// The line is trimmed and split at `>>`. It reports a change when it has at
/// least two fields and the first is `monitoradded` or `monitorremoved`; the
/// second field is then the monitor's identity. Further fields are not read.
pub fn parse_event(line: &str) -> (event: Option<MonitorEvent>)
    ensures
        match event {
            Some(e) => hotplug_event(line@) == Some(e@),
            None => hotplug_event(line@) is None,
        },
{
    let chars = to_chars(line);
    let sep = separator_chars();
    assert(chars@.subrange(0, chars@.len() as int) =~= chars@);
    let (a, b) = trim_range(&chars, 0, chars.len());
    let ghost t = trim(line@);
    match find_in_range(&chars, a, b, &sep) {
        None => None,
        Some(p) => {
            let start: usize = p + 2;
            let ghost rest = t.skip(p - a + 2);
            assert(rest =~= chars@.subrange(start as int, b as int));
            assert(t.take(p - a) =~= chars@.subrange(a as int, p as int));
            let end: usize = match find_in_range(&chars, start, b, &sep) {
                Some(q) => {
                    assert(rest.take(q - start) =~= chars@.subrange(start as int, q as int));
                    q
                },
                None => b,
            };
            let added_name = to_chars("monitoradded");
            let removed_name = to_chars("monitorremoved");
            let added: bool = if range_equals(&chars, a, p, &added_name) {
                true
            } else if range_equals(&chars, a, p, &removed_name) {
                false
            } else {
                return None;
            };
            let payload = line.substring_char(start, end);
            Some(MonitorEvent { monitor: String::from_str(payload), added })
        },
    }
}

impl Listener {
    /// A connected listener with the given action.
    pub fn new(action: ReconciliationAction) -> (listener: Listener)
        ensures
            listener@ == (ListenerView { state: ListenerState::Connected, action: action@ }),
    {
        Listener { state: ListenerState::Connected, action }
    }
}

fn react(action: &ReconciliationAction, event: MonitorEvent) -> (reaction: Reaction)
    ensures
        reaction@ == reaction_to(action@, event@),
{
    match action {
        ReconciliationAction::Callback => Reaction::Callback {
            monitor: event.monitor,
            added: event.added,
        },
        ReconciliationAction::Script { attached, detached } => {
            if event.added {
                Reaction::Script { path: attached.clone(), monitor: event.monitor }
            } else {
                match detached {
                    Some(path) => Reaction::Script { path: path.clone(), monitor: event.monitor },
                    None => Reaction::Ignore,
                }
            }
        },
    }
}

/// Takes what was read from the notification stream and says what to do.
///
/// The listener's state and the reaction are those of `listen_step`: a line
/// that reports a monitor change asks for the handler or the script that the
/// listener was configured with, any other line is ignored, and the end or a
/// failure of the stream terminates the listener.
pub fn listen(listener: &mut Listener, read: &StreamRead) -> (reaction: Reaction)
    ensures
        (final(listener)@, reaction@) == listen_step(old(listener)@, read@),
{
    match listener.state {
        ListenerState::Terminated => Reaction::Stop,
        ListenerState::Connected => match read {
            StreamRead::Line(line) => match parse_event(line.as_str()) {
                Some(event) => react(&listener.action, event),
                None => Reaction::Ignore,
            },
            _ => {
                listener.state = ListenerState::Terminated;
                Reaction::Stop
            },
        },
    }
}

/// What was found at a script's path.
#[derive(Clone, Copy, Debug, PartialEq, Eq, Structural)]
pub enum ScriptProbe {
    /// The file could not be opened.
    Missing,
    /// The file is there, with these permission bits.
    Found { mode: u32 },
}

/// Whether a script may be spawned.
#[derive(Clone, Copy, Debug, PartialEq, Eq, Structural)]
pub enum ScriptVerdict {
    NotFound,
    NotExecutable,
    Spawn,
}

/// The permission bit that lets a file's owner execute it.
pub const OWNER_EXECUTE: u32 = 0x40;

/// A script is spawned when its file is there and its owner may execute it.
pub open spec fn script_verdict(probe: ScriptProbe) -> ScriptVerdict {
    match probe {
        ScriptProbe::Missing => ScriptVerdict::NotFound,
        ScriptProbe::Found { mode } => if mode & OWNER_EXECUTE != 0 {
            ScriptVerdict::Spawn
        } else {
            ScriptVerdict::NotExecutable
        },
    }
}

/// Decides from what was found at a script's path whether to spawn it.
pub fn check_script(probe: ScriptProbe) -> (verdict: ScriptVerdict)
    ensures
        verdict == script_verdict(probe),
{
    match probe {
        ScriptProbe::Missing => ScriptVerdict::NotFound,
        ScriptProbe::Found { mode } => {
            if mode & OWNER_EXECUTE != 0 {
                ScriptVerdict::Spawn
            } else {
                ScriptVerdict::NotExecutable
            }
        },
    }
}

/// The socket below the runtime directory.
pub open spec fn runtime_socket(runtime_dir: Seq<char>, instance: Seq<char>) -> Seq<char> {
    runtime_dir + "/hypr/"@ + instance + "/.socket2.sock"@
}

/// The socket at its default place.
pub open spec fn default_socket(instance: Seq<char>) -> Seq<char> {
    "/tmp/hypr/"@ + instance + "/.socket2.sock"@
}

/// Path of the notification socket below the runtime directory.
pub fn runtime_socket_path(runtime_dir: &str, instance: &str) -> (path: String)
    ensures
        path@ == runtime_socket(runtime_dir@, instance@),
{
    let mut path = String::from_str(runtime_dir);
    path.append("/hypr/");
    path.append(instance);
    path.append("/.socket2.sock");
    path
}

/// Path of the notification socket at its default place.
pub fn default_socket_path(instance: &str) -> (path: String)
    ensures
        path@ == default_socket(instance@),
{
    let mut path = String::from_str("/tmp/hypr/");
    path.append(instance);
    path.append("/.socket2.sock");
    path
}

/// Chooses the notification socket.
///
/// `instance` is the window manager's instance signature, or the reason why it
/// is not known; without it there is no socket, and the error says so and
/// gives the reason. `runtime_dir` is the runtime directory, if one is set, and
/// `runtime_socket_found` says whether the socket below it is there: if so it
/// is chosen, else the socket at its default place.
pub fn get_hyprland_socket(
    instance: Result<&str, &str>,
    runtime_dir: Option<&str>,
    runtime_socket_found: bool,
) -> (socket: Result<String, String>)
    ensures
        match instance {
            Ok(signature) => socket matches Ok(path) && path@ == (match runtime_dir {
                Some(dir) if runtime_socket_found => runtime_socket(dir@, signature@),
                _ => default_socket(signature@),
            }),
            Err(reason) => socket matches Err(message) && message@
                == "Fatal Error: Hyprland is not running. "@ + reason@,
        },
{
    match instance {
        Err(reason) => {
            let mut message = String::from_str("Fatal Error: Hyprland is not running. ");
            message.append(reason);
            Err(message)
        },
        Ok(signature) => match runtime_dir {
            Some(dir) => {
                if runtime_socket_found {
                    Ok(runtime_socket_path(dir, signature))
                } else {
                    Ok(default_socket_path(signature))
                }
            },
            None => Ok(default_socket_path(signature)),
        },
    }
}

} // verus!
