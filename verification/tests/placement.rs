use hypr_workspaces::assignment::{assign_workspaces_to_monitors, WorkspaceMonitorMap};
use hypr_workspaces::placement::{
    following_monitor, get_current_monitor, get_current_workspace, get_monitor_count,
    least_populated, move_silent_workspace, move_workspace, placement_group, read_answer,
    switch_workspace, window_count, windows_of, Dispatch, Outcome, WindowCount,
};

fn table_for(names: &[&str]) -> Vec<WorkspaceMonitorMap> {
    let monitors: Vec<String> = names.iter().map(|n| n.to_string()).collect();
    assign_workspaces_to_monitors(&monitors)
}

fn rows(numbers: &[i32]) -> Vec<WorkspaceMonitorMap> {
    numbers.iter().map(|&n| WorkspaceMonitorMap { workspace: n, monitor: "M".to_string() }).collect()
}

fn sent(outcome: Outcome) -> Vec<Dispatch> {
    match outcome {
        Outcome::Dispatch(commands) => commands,
        other => panic!("nothing was sent: {:?}", other),
    }
}

fn counts(pairs: &[(i32, i32)]) -> Vec<WindowCount> {
    pairs.iter().map(|&(workspace, windows)| WindowCount { workspace, windows }).collect()
}

#[test]
fn switch_to_eleven_on_two_monitors_shows_the_whole_group() {
    let table = table_for(&["DP-1", "HDMI-1"]);
    assert_eq!(placement_group(11, &table), vec![1, 11]);
    let commands = sent(switch_workspace(11, &table, 5, 2, 0));
    assert_eq!(commands, vec![Dispatch::Workspace(1), Dispatch::Workspace(11)]);
}

#[test]
fn move_to_three_on_three_monitors_picks_the_emptiest_then_shows_all() {
    let table = table_for(&["DP-1", "DP-2", "DP-3"]);
    let windows = counts(&[(3, 2), (13, 5), (23, 1)]);
    let commands = sent(move_workspace(3, &table, &windows));
    assert_eq!(
        commands,
        vec![
            Dispatch::MoveToWorkspaceSilent(23),
            Dispatch::Workspace(3),
            Dispatch::Workspace(13),
            Dispatch::Workspace(23),
        ]
    );
    let silent = sent(move_silent_workspace(3, &table, &windows));
    assert_eq!(silent, vec![Dispatch::MoveToWorkspaceSilent(23)]);
}

#[test]
fn an_empty_group_sends_nothing() {
    let empty: Vec<WorkspaceMonitorMap> = Vec::new();
    assert!(matches!(switch_workspace(3, &empty, 1, 2, 0), Outcome::NoMatch));
    assert!(matches!(move_workspace(3, &empty, &Vec::new()), Outcome::NoMatch));
    assert!(matches!(move_silent_workspace(3, &empty, &Vec::new()), Outcome::NoMatch));
    let sparse = rows(&[1, 2, 11, 12]);
    assert!(placement_group(3, &sparse).is_empty());
    assert!(matches!(switch_workspace(3, &sparse, 1, 2, 0), Outcome::NoMatch));
    assert!(matches!(move_workspace(3, &sparse, &counts(&[(1, 0)])), Outcome::NoMatch));
    assert!(matches!(move_silent_workspace(13, &sparse, &Vec::new()), Outcome::NoMatch));
}

#[test]
fn a_request_that_is_not_positive_sends_nothing() {
    let table = table_for(&["DP-1", "HDMI-1"]);
    for w in [0, -1, -10, i32::MIN] {
        assert!(matches!(switch_workspace(w, &table, 1, 2, 0), Outcome::InvalidWorkspace));
        assert!(matches!(move_workspace(w, &table, &Vec::new()), Outcome::InvalidWorkspace));
        assert!(matches!(move_silent_workspace(w, &table, &Vec::new()), Outcome::InvalidWorkspace));
    }
}

#[test]
fn the_group_holds_the_workspaces_with_the_same_remainder() {
    let table = table_for(&["A", "B", "C"]);
    assert_eq!(placement_group(1, &table), vec![1, 11, 21]);
    assert_eq!(placement_group(21, &table), vec![1, 11, 21]);
    assert_eq!(placement_group(10, &table), vec![10, 20, 30]);
    assert_eq!(placement_group(30, &table), vec![10, 20, 30]);
    assert_eq!(placement_group(45, &table), vec![5, 15, 25]);
    assert_eq!(placement_group(7, &table_for(&["A"])), vec![7]);
}

#[test]
fn the_group_is_ascending_and_holds_each_workspace_once() {
    let table = rows(&[23, 3, 13, 3, 4, 23, 33]);
    assert_eq!(placement_group(3, &table), vec![3, 13, 23, 33]);
    let commands = sent(switch_workspace(13, &table, 4, 1, 0));
    assert_eq!(
        commands,
        vec![
            Dispatch::Workspace(3),
            Dispatch::Workspace(13),
            Dispatch::Workspace(23),
            Dispatch::Workspace(33),
        ]
    );
}

#[test]
fn workspaces_below_zero_go_by_the_signed_remainder() {
    let table = rows(&[-5, 5, -10, 0, 10, -15, 15]);
    assert_eq!(placement_group(5, &table), vec![5, 15]);
    assert_eq!(placement_group(10, &table), vec![-10, 0, 10]);
    assert_eq!(placement_group(-5, &table), vec![-15, -5]);
}

#[test]
fn an_active_member_of_the_group_moves_the_focus_to_the_next_monitor() {
    let table = table_for(&["DP-1", "HDMI-1", "DP-2"]);
    assert_eq!(sent(switch_workspace(11, &table, 1, 3, 0)), vec![Dispatch::FocusMonitor(1)]);
    assert_eq!(sent(switch_workspace(1, &table, 11, 3, 1)), vec![Dispatch::FocusMonitor(2)]);
    assert_eq!(sent(switch_workspace(1, &table, 21, 3, 2)), vec![Dispatch::FocusMonitor(0)]);
    assert_eq!(sent(switch_workspace(1, &table, 1, 1, 0)), vec![Dispatch::FocusMonitor(0)]);
}

#[test]
fn without_a_monitor_to_go_to_nothing_is_sent() {
    let table = table_for(&["DP-1", "HDMI-1"]);
    assert!(matches!(switch_workspace(1, &table, 11, 0, 0), Outcome::Unavailable));
    assert!(matches!(switch_workspace(1, &table, 11, -2, 0), Outcome::Unavailable));
    assert_eq!(
        sent(switch_workspace(1, &table, 5, 0, 0)),
        vec![Dispatch::Workspace(1), Dispatch::Workspace(11)]
    );
}

#[test]
fn the_next_monitor_is_taken_in_cyclic_order() {
    assert_eq!(following_monitor(0, 2), Some(1));
    assert_eq!(following_monitor(1, 2), Some(0));
    assert_eq!(following_monitor(0, 1), Some(0));
    assert_eq!(following_monitor(7, 3), Some(2));
    assert_eq!(following_monitor(-1, 3), Some(0));
    assert_eq!(following_monitor(-2, 3), Some(2));
    assert_eq!(following_monitor(-5, 3), Some(2));
    assert_eq!(following_monitor(i32::MAX, 2), Some(0));
    assert_eq!(following_monitor(i32::MAX, i32::MAX), Some(1));
    assert_eq!(following_monitor(i32::MIN, 7), Some((((i32::MIN as i64 + 1) % 7 + 7) % 7) as i32));
    assert_eq!(following_monitor(0, 0), None);
    assert_eq!(following_monitor(3, -1), None);
}

#[test]
fn ties_go_to_the_smallest_workspace() {
    let table = table_for(&["A", "B", "C"]);
    let windows = counts(&[(4, 2), (14, 2), (24, 2)]);
    assert_eq!(sent(move_silent_workspace(4, &table, &windows)), vec![Dispatch::MoveToWorkspaceSilent(4)]);
    let windows = counts(&[(4, 3), (14, 1), (24, 1)]);
    assert_eq!(sent(move_silent_workspace(24, &table, &windows)), vec![Dispatch::MoveToWorkspaceSilent(14)]);
    let unordered = rows(&[24, 14, 4]);
    let windows = counts(&[(24, 0), (14, 0), (4, 0)]);
    assert_eq!(sent(move_silent_workspace(4, &unordered, &windows)), vec![Dispatch::MoveToWorkspaceSilent(4)]);
}

#[test]
fn a_workspace_without_a_count_has_no_windows() {
    let table = table_for(&["A", "B"]);
    let windows = counts(&[(2, 1)]);
    assert_eq!(sent(move_silent_workspace(2, &table, &windows)), vec![Dispatch::MoveToWorkspaceSilent(12)]);
    assert_eq!(sent(move_silent_workspace(2, &table, &Vec::new())), vec![Dispatch::MoveToWorkspaceSilent(2)]);
    assert_eq!(windows_of(&windows, 2), 1);
    assert_eq!(windows_of(&windows, 12), 0);
    assert_eq!(windows_of(&counts(&[(2, 5), (2, 9)]), 2), 5);
}

#[test]
fn the_least_populated_member_is_found() {
    assert_eq!(least_populated(&Vec::new(), &Vec::new()), None);
    assert_eq!(least_populated(&vec![3, 13, 23], &counts(&[(3, 2), (13, 5), (23, 1)])), Some(23));
    assert_eq!(least_populated(&vec![3, 13, 23], &counts(&[(3, 1), (13, 5), (23, 1)])), Some(3));
    assert_eq!(least_populated(&vec![23, 13, 3], &counts(&[(3, 1), (13, 5), (23, 1)])), Some(3));
    assert_eq!(least_populated(&vec![3, 13], &counts(&[(3, 0), (13, -1)])), Some(13));
    assert_eq!(
        least_populated(&vec![9, 19], &counts(&[(9, i32::MAX), (19, i32::MAX)])),
        Some(9)
    );
}

#[test]
fn answers_are_read_as_numbers() {
    assert_eq!(get_current_workspace("5\n"), 5);
    assert_eq!(get_current_workspace(""), 0);
    assert_eq!(get_current_workspace("null"), 0);
    assert_eq!(get_current_workspace("  -3 "), -3);
    assert_eq!(get_monitor_count("2\n"), 2);
    assert_eq!(get_monitor_count(""), 1);
    assert_eq!(get_monitor_count("two"), 1);
    assert_eq!(get_monitor_count("0"), 0);
    assert_eq!(get_current_monitor("1\n"), 1);
    assert_eq!(get_current_monitor("x"), 0);
    assert_eq!(get_current_monitor("99999999999"), 0);
    assert_eq!(read_answer(" 42\r\n", 7), 42);
    assert_eq!(read_answer("4 2", 7), 7);
    assert_eq!(window_count(13, "5\n"), WindowCount { workspace: 13, windows: 5 });
    assert_eq!(window_count(13, "jq: error"), WindowCount { workspace: 13, windows: 0 });
}
