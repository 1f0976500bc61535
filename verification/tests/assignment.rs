use hypr_workspaces::assignment::{
    assign_workspaces_to_monitors, parse_workspace_file, parse_workspace_line, render_line,
    render_table, table_file, unassigned_monitors, WorkspaceMonitorMap,
};
use hypr_workspaces::{MAX_MONITORS, MAX_WORKSPACES, WORKSPACES_PER_MONITOR};

fn names(count: usize) -> Vec<String> {
    (0..count).map(|i| format!("MON-{}", i)).collect()
}

fn pairs(table: &[WorkspaceMonitorMap]) -> Vec<(i32, String)> {
    table.iter().map(|row| (row.workspace, row.monitor.clone())).collect()
}

#[test]
fn limits_have_their_values() {
    assert_eq!(MAX_WORKSPACES, 100);
    assert_eq!(MAX_MONITORS, 10);
    assert_eq!(WORKSPACES_PER_MONITOR, 10);
}

#[test]
fn every_monitor_count_up_to_the_limit_gets_ten_workspaces_each() {
    for m in 1..=MAX_MONITORS {
        let monitors = names(m);
        let table = assign_workspaces_to_monitors(&monitors);
        assert_eq!(table.len(), m.min(MAX_WORKSPACES / 10) * 10);
        for (i, row) in table.iter().enumerate() {
            assert_eq!(row.workspace, i as i32 + 1);
            assert_eq!(row.monitor, monitors[i / 10]);
        }
        for (k, name) in monitors.iter().enumerate() {
            let owned: Vec<i32> =
                table.iter().filter(|r| &r.monitor == name).map(|r| r.workspace).collect();
            let expected: Vec<i32> = ((k as i32) * 10 + 1..=(k as i32) * 10 + 10).collect();
            assert_eq!(owned, expected);
        }
    }
}

#[test]
fn no_monitor_gives_an_empty_table() {
    let table = assign_workspaces_to_monitors(&Vec::new());
    assert!(table.is_empty());
    assert_eq!(render_table(&table), "");
}

#[test]
fn two_monitors_get_one_to_ten_and_eleven_to_twenty() {
    let table = assign_workspaces_to_monitors(&vec!["DP-1".to_string(), "HDMI-1".to_string()]);
    assert_eq!(table.len(), 20);
    for row in &table[..10] {
        assert_eq!(row.monitor, "DP-1");
    }
    for row in &table[10..] {
        assert_eq!(row.monitor, "HDMI-1");
    }
    assert_eq!(table[0].workspace, 1);
    assert_eq!(table[9].workspace, 10);
    assert_eq!(table[10].workspace, 11);
    assert_eq!(table[19].workspace, 20);
}

#[test]
fn an_eleventh_monitor_gets_no_workspaces() {
    let monitors = names(11);
    let table = assign_workspaces_to_monitors(&monitors);
    assert_eq!(table.len(), 100);
    assert_eq!(table[99].workspace, 100);
    assert_eq!(table[99].monitor, "MON-9");
    for k in 0..10 {
        assert_eq!(table.iter().filter(|r| r.monitor == monitors[k]).count(), 10);
    }
    assert_eq!(table.iter().filter(|r| r.monitor == "MON-10").count(), 0);
    assert_eq!(unassigned_monitors(11), 1);
}

#[test]
fn unassigned_monitors_counts_those_beyond_the_limit() {
    assert_eq!(unassigned_monitors(0), 0);
    assert_eq!(unassigned_monitors(1), 0);
    assert_eq!(unassigned_monitors(10), 0);
    assert_eq!(unassigned_monitors(11), 1);
    assert_eq!(unassigned_monitors(25), 15);
}

#[test]
fn a_line_has_the_exact_literal_form() {
    let row = WorkspaceMonitorMap { workspace: 11, monitor: "HDMI-1".to_string() };
    assert_eq!(render_line(&row), "workspace = 11, monitor:HDMI-1");
    let row = WorkspaceMonitorMap { workspace: -3, monitor: String::new() };
    assert_eq!(render_line(&row), "workspace = -3, monitor:");
}

#[test]
fn the_text_has_one_line_per_row() {
    let table = assign_workspaces_to_monitors(&vec!["DP-1".to_string()]);
    let text = render_table(&table);
    let mut expected = String::new();
    for n in 1..=10 {
        expected.push_str(&format!("workspace = {}, monitor:DP-1\n", n));
    }
    assert_eq!(text, expected);
}

#[test]
fn a_line_is_read_as_its_row() {
    let row = parse_workspace_line("workspace = 11, monitor:HDMI-1").unwrap();
    assert_eq!((row.workspace, row.monitor.as_str()), (11, "HDMI-1"));
    let row = parse_workspace_line("workspace =   7  , monitor:  eDP-1  ").unwrap();
    assert_eq!((row.workspace, row.monitor.as_str()), (7, "eDP-1"));
    let row = parse_workspace_line("workspace = -4, monitor:a, monitor:b").unwrap();
    assert_eq!((row.workspace, row.monitor.as_str()), (-4, "a, monitor:b"));
    let row = parse_workspace_line("workspace = +9, monitor:").unwrap();
    assert_eq!((row.workspace, row.monitor.as_str()), (9, ""));
}

#[test]
fn a_line_of_another_form_holds_no_row() {
    for line in [
        "",
        "workspace",
        "workspace = 1",
        "workspace = 1, monitor",
        " workspace = 1, monitor:DP-1",
        "Workspace = 1, monitor:DP-1",
        "workspace=1, monitor:DP-1",
        "workspace = one, monitor:DP-1",
        "workspace = , monitor:DP-1",
        "workspace = 1,monitor:DP-1",
        "workspace = 2147483648, monitor:DP-1",
        "workspace = 1 2, monitor:DP-1",
        "# workspace = 1, monitor:DP-1",
    ] {
        assert!(parse_workspace_line(line).is_none(), "line {:?}", line);
    }
}

#[test]
fn a_file_is_read_line_by_line() {
    let text = "workspace = 1, monitor:DP-1\n\nnoise\nworkspace = 2, monitor:DP-1\r\nworkspace = x, monitor:DP-1\nworkspace = 11, monitor:HDMI-1";
    let table = parse_workspace_file(text);
    assert_eq!(
        pairs(&table),
        vec![(1, "DP-1".to_string()), (2, "DP-1".to_string()), (11, "HDMI-1".to_string())]
    );
    assert!(parse_workspace_file("").is_empty());
    assert!(parse_workspace_file("\n\n").is_empty());
}

#[test]
fn reading_the_text_of_a_table_gives_the_table_back() {
    for m in 0..=11 {
        let table = assign_workspaces_to_monitors(&names(m));
        let back = parse_workspace_file(&render_table(&table));
        assert_eq!(pairs(&back), pairs(&table));
    }
    let odd = vec![
        WorkspaceMonitorMap { workspace: -2147483648, monitor: "a b".to_string() },
        WorkspaceMonitorMap { workspace: 0, monitor: String::new() },
        WorkspaceMonitorMap { workspace: 2147483647, monitor: "x, monitor:y".to_string() },
    ];
    assert_eq!(pairs(&parse_workspace_file(&render_table(&odd))), pairs(&odd));
}

#[test]
fn a_name_with_whitespace_around_it_does_not_come_back_as_it_was() {
    let table = vec![WorkspaceMonitorMap { workspace: 1, monitor: " DP-1 ".to_string() }];
    let back = parse_workspace_file(&render_table(&table));
    assert_eq!(pairs(&back), vec![(1, "DP-1".to_string())]);
}

#[test]
fn the_table_file_lies_below_the_home_directory() {
    assert_eq!(table_file("/home/u"), "/home/u/.config/hypr/ws.conf");
    assert_eq!(table_file(""), "/.config/hypr/ws.conf");
}
