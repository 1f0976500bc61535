//! The workspace assignment table: the round-robin scheme that gives each
//! monitor its block of workspaces, and the table's text form.

use crate::decimal::{
    decimal, lemma_decimal_chars, lemma_parse_decimal_of_decimal, parse_i32_range,
    parse_i32_text, push_decimal,
};
use crate::text::{
    find_in_range, first_match, is_line, is_whitespace, joined, lemma_first_match_is,
    lemma_lines_of_joined, lemma_trim_of_tight, lines, matches_at, range_equals, split_lines,
    to_chars, trim, trim_range,
};
use crate::{MAX_WORKSPACES, WORKSPACES_PER_MONITOR};
use vstd::prelude::*;
use vstd::string::*;

verus! {

/// One row of the table: a workspace number and the monitor it lives on.
#[derive(Clone, Debug)]
pub struct WorkspaceMonitorMap {
    pub workspace: i32,
    pub monitor: String,
}

/// A row as the contracts speak of it: the monitor as its text.
pub ghost struct WorkspaceMonitorMapView {
    pub workspace: i32,
    pub monitor: Seq<char>,
}

impl View for WorkspaceMonitorMap {
    type V = WorkspaceMonitorMapView;

    open spec fn view(&self) -> WorkspaceMonitorMapView {
        WorkspaceMonitorMapView { workspace: self.workspace, monitor: self.monitor@ }
    }
}

impl DeepView for WorkspaceMonitorMap {
    type V = WorkspaceMonitorMapView;

    open spec fn deep_view(&self) -> WorkspaceMonitorMapView {
        self@
    }
}

/// Number of monitors that receive workspaces when `count` are known: all of
/// them, as long as their blocks fit below the limit on workspaces.
pub open spec fn assigned_monitors(count: nat) -> nat {
    if count <= MAX_WORKSPACES / WORKSPACES_PER_MONITOR {
        count
    } else {
        (MAX_WORKSPACES / WORKSPACES_PER_MONITOR) as nat
    }
}

/// Position in the monitor list of the monitor that owns row `i`.
pub open spec fn block_of(i: int) -> int {
    i / WORKSPACES_PER_MONITOR as int
}

/// Row of the `j`-th workspace of the monitor at position `k`.
pub open spec fn row_index(k: int, j: int) -> int {
    k * WORKSPACES_PER_MONITOR + j
}

/// The table for the monitors in the given order: workspaces are numbered from
/// 1, and each monitor in turn receives the next block of consecutive numbers.
pub open spec fn placement_scheme(monitors: Seq<Seq<char>>) -> Seq<WorkspaceMonitorMapView> {
    Seq::new(
        assigned_monitors(monitors.len()) * WORKSPACES_PER_MONITOR as nat,
        |i: int| WorkspaceMonitorMapView { workspace: (i + 1) as i32, monitor: monitors[block_of(i)] },
    )
}

/// The text of one row.
pub open spec fn line_text(row: WorkspaceMonitorMapView) -> Seq<char> {
    "workspace = "@ + decimal(row.workspace as int) + ", monitor:"@ + row.monitor
}

/// The text of a table: its rows in order, each ended by a newline.
pub open spec fn table_text(rows: Seq<WorkspaceMonitorMapView>) -> Seq<char>
    decreases rows.len(),
{
    if rows.len() == 0 {
        Seq::empty()
    } else {
        table_text(rows.drop_last()) + line_text(rows.last()) + seq!['\n']
    }
}

/// The row that a line of the table's text holds.
///
/// The line starts with `workspace = `. What follows is split at the first
/// `, monitor:`: before it stands the workspace number and after it the
/// monitor, both with whitespace around them that does not count. A line of
/// another form, or with a number that is none, holds no row.
pub open spec fn parse_line(line: Seq<char>) -> Option<WorkspaceMonitorMapView> {
    let prefix = "workspace = "@;
    let marker = ", monitor:"@;
    if line.len() >= prefix.len() && line.take(prefix.len() as int) == prefix {
        let rest = line.skip(prefix.len() as int);
        match first_match(rest, marker) {
            Some(p) => match parse_i32_text(trim(rest.take(p))) {
                Some(workspace) => Some(
                    WorkspaceMonitorMapView {
                        workspace,
                        monitor: trim(rest.skip(p + marker.len())),
                    },
                ),
                None => None,
            },
            None => None,
        }
    } else {
        None
    }
}

/// The rows that a line contributes: its row, if it holds one.
pub open spec fn row_of(line: Seq<char>) -> Seq<WorkspaceMonitorMapView> {
    match parse_line(line) {
        Some(row) => seq![row],
        None => Seq::empty(),
    }
}

/// The rows that lines contribute, in the lines' order.
pub open spec fn rows_of(lines: Seq<Seq<char>>) -> Seq<WorkspaceMonitorMapView>
    decreases lines.len(),
{
    if lines.len() == 0 {
        Seq::empty()
    } else {
        rows_of(lines.drop_last()) + row_of(lines.last())
    }
}

/// The table that a text holds: the rows of its lines, in order.
pub open spec fn parse_table(text: Seq<char>) -> Seq<WorkspaceMonitorMapView> {
    rows_of(lines(text))
}

/// The scheme assigns `min(m, MAX_WORKSPACES / WORKSPACES_PER_MONITOR)` blocks
/// of `WORKSPACES_PER_MONITOR` workspaces, numbered without a gap from 1. The
/// monitor at position `k` owns exactly the rows of block `k`, in the order of
/// the monitor list, and a monitor beyond the assigned ones owns no row.
pub proof fn lemma_placement_scheme(monitors: Seq<Seq<char>>)
    ensures
        placement_scheme(monitors).len() == assigned_monitors(monitors.len())
            * WORKSPACES_PER_MONITOR,
        placement_scheme(monitors).len() <= MAX_WORKSPACES,
        forall|i: int|
            0 <= i < placement_scheme(monitors).len() ==> {
                &&& (#[trigger] placement_scheme(monitors)[i]).workspace == i + 1
                &&& placement_scheme(monitors)[i].monitor == monitors[block_of(i)]
                &&& 0 <= block_of(i) < assigned_monitors(monitors.len())
                &&& row_index(block_of(i), 0) <= i < row_index(block_of(i) + 1, 0)
            },
        forall|k: int, j: int|
            0 <= k < assigned_monitors(monitors.len()) && 0 <= j < WORKSPACES_PER_MONITOR ==> {
                &&& 0 <= #[trigger] row_index(k, j) < placement_scheme(monitors).len()
                &&& placement_scheme(monitors)[row_index(k, j)] == (WorkspaceMonitorMapView {
                    workspace: (row_index(k, j) + 1) as i32,
                    monitor: monitors[k],
                })
            },
{
    assert forall|k: int, j: int|
        0 <= k < assigned_monitors(monitors.len()) && 0 <= j < WORKSPACES_PER_MONITOR implies {
        &&& 0 <= #[trigger] row_index(k, j) < placement_scheme(monitors).len()
        &&& placement_scheme(monitors)[row_index(k, j)] == (WorkspaceMonitorMapView {
            workspace: (row_index(k, j) + 1) as i32,
            monitor: monitors[k],
        })
    } by {
        assert(block_of(row_index(k, j)) == k);
    }
}

/// A monitor's name that the table's text gives back as it is: it neither
/// starts nor ends with whitespace and holds no newline.
pub open spec fn is_plain_name(name: Seq<char>) -> bool {
    &&& trim(name) == name
    &&& forall|i: int| 0 <= i < name.len() ==> name[i] != '\n'
}

/// The texts of the rows of a table.
pub open spec fn line_texts(rows: Seq<WorkspaceMonitorMapView>) -> Seq<Seq<char>> {
    Seq::new(rows.len(), |i: int| line_text(rows[i]))
}

/// The text of a row with a plain name is a line, and reading it gives the
/// row back.
pub proof fn lemma_line_round_trip(row: WorkspaceMonitorMapView)
    requires
        is_plain_name(row.monitor),
    ensures
        is_line(line_text(row)),
        parse_line(line_text(row)) == Some(row),
{
    reveal_strlit("workspace = ");
    reveal_strlit(", monitor:");
    let prefix = "workspace = "@;
    let marker = ", monitor:"@;
    let number = decimal(row.workspace as int);
    let name = row.monitor;
    let line = line_text(row);
    let d = number.len() as int;
    lemma_decimal_chars(row.workspace as int);
    crate::text::lemma_trim_is_tight(name);
    assert(name.len() > 0 ==> !is_whitespace(name.last()));

    assert(line.take(prefix.len() as int) =~= prefix);
    let rest = line.skip(prefix.len() as int);
    assert(rest =~= number + marker + name);
    assert forall|j: int| 0 <= j < d implies !matches_at(rest, marker, j) by {
        if matches_at(rest, marker, j) {
            assert(rest.subrange(j, j + marker.len())[0] == marker[0]);
            assert(rest[j] == number[j]);
        }
    }
    assert(rest.subrange(d, d + marker.len()) =~= marker);
    lemma_first_match_is(rest, marker, d);
    assert(rest.take(d) =~= number);
    assert(rest.skip(d + marker.len()) =~= name);
    assert(!is_whitespace(number[0]) && !is_whitespace(number.last()));
    lemma_trim_of_tight(number);
    lemma_parse_decimal_of_decimal(row.workspace as int);

    assert forall|i: int| 0 <= i < line.len() implies line[i] != '\n' by {
        if i < prefix.len() {
            assert(line[i] == prefix[i]);
        } else if i < prefix.len() + d {
            assert(line[i] == number[i - prefix.len()]);
        } else if i < prefix.len() + d + marker.len() {
            assert(line[i] == marker[i - prefix.len() - d]);
        } else {
            assert(line[i] == name[i - prefix.len() - d - marker.len()]);
        }
    }
    if name.len() > 0 {
        assert(line.last() == name.last());
    } else {
        assert(line.last() == marker.last());
    }
}

/// The rows of the texts of rows with plain names are those rows.
proof fn lemma_rows_of_line_texts(rows: Seq<WorkspaceMonitorMapView>)
    requires
        forall|i: int| 0 <= i < rows.len() ==> is_plain_name((#[trigger] rows[i]).monitor),
    ensures
        rows_of(line_texts(rows)) == rows,
        joined(line_texts(rows)) == table_text(rows),
    decreases rows.len(),
{
    if rows.len() == 0 {
        assert(rows_of(line_texts(rows)) =~= rows);
    } else {
        let init = rows.drop_last();
        assert forall|i: int| 0 <= i < init.len() implies is_plain_name(
            (#[trigger] init[i]).monitor,
        ) by {
            assert(init[i] == rows[i]);
        }
        lemma_rows_of_line_texts(init);
        assert(line_texts(rows).drop_last() =~= line_texts(init));
        assert(is_plain_name(rows[rows.len() - 1].monitor));
        lemma_line_round_trip(rows.last());
        assert(init + seq![rows.last()] =~= rows);
    }
}

/// Reading the text of a table gives the table back, provided that the
/// monitors' names are plain.
pub proof fn lemma_table_round_trip(rows: Seq<WorkspaceMonitorMapView>)
    requires
        forall|i: int| 0 <= i < rows.len() ==> is_plain_name((#[trigger] rows[i]).monitor),
    ensures
        parse_table(table_text(rows)) == rows,
{
    lemma_rows_of_line_texts(rows);
    assert forall|i: int| 0 <= i < line_texts(rows).len() implies is_line(
        #[trigger] line_texts(rows)[i],
    ) by {
        lemma_line_round_trip(rows[i]);
    }
    lemma_lines_of_joined(line_texts(rows));
}

/// How many of `count` monitors are left without workspaces.
pub fn unassigned_monitors(count: usize) -> (left: usize)
    ensures
        left == count - assigned_monitors(count as nat),
{
    if count <= MAX_WORKSPACES / WORKSPACES_PER_MONITOR {
        0
    } else {
        count - MAX_WORKSPACES / WORKSPACES_PER_MONITOR
    }
}

/// Computes the table for the monitors in the given order.
///
/// The workspace counter starts at 1. Each monitor in turn receives
/// `WORKSPACES_PER_MONITOR` consecutive workspaces; monitors beyond the first
/// `MAX_WORKSPACES / WORKSPACES_PER_MONITOR` receive none.
pub fn assign_workspaces_to_monitors(monitors: &Vec<String>) -> (table: Vec<WorkspaceMonitorMap>)
    ensures
        table.deep_view() == placement_scheme(monitors.deep_view()),
        table.len() == assigned_monitors(monitors.len() as nat) * WORKSPACES_PER_MONITOR,
        forall|i: int|
            0 <= i < table.len() ==> (#[trigger] table[i]).workspace == i + 1 && table[i].monitor@
                == monitors[block_of(i)]@,
{
    let ghost names = monitors.deep_view();
    let ghost scheme = placement_scheme(names);
    let used: usize = if monitors.len() <= MAX_WORKSPACES / WORKSPACES_PER_MONITOR {
        monitors.len()
    } else {
        MAX_WORKSPACES / WORKSPACES_PER_MONITOR
    };
    let mut table: Vec<WorkspaceMonitorMap> = Vec::new();
    let mut workspace: i32 = 1;
    let mut m: usize = 0;
    while m < used
        invariant
            m <= used <= monitors.len(),
            used == assigned_monitors(monitors.len() as nat),
            names == monitors.deep_view(),
            scheme == placement_scheme(names),
            workspace == m * WORKSPACES_PER_MONITOR + 1,
            table.len() == m * WORKSPACES_PER_MONITOR,
            forall|i: int| 0 <= i < table.len() ==> (#[trigger] table[i])@ == scheme[i],
        decreases used - m,
    {
        let mut k: usize = 0;
        while k < WORKSPACES_PER_MONITOR
            invariant
                m < used <= monitors.len(),
                used == assigned_monitors(monitors.len() as nat),
                names == monitors.deep_view(),
                scheme == placement_scheme(names),
                k <= WORKSPACES_PER_MONITOR,
                workspace == m * WORKSPACES_PER_MONITOR + k + 1,
                table.len() == m * WORKSPACES_PER_MONITOR + k,
                forall|i: int| 0 <= i < table.len() ==> (#[trigger] table[i])@ == scheme[i],
            decreases WORKSPACES_PER_MONITOR - k,
        {
            let row = WorkspaceMonitorMap { workspace, monitor: monitors[m].clone() };
            proof {
                let i = table.len() as int;
                assert(block_of(i) == m);
                assert(names[m as int] == monitors[m as int]@);
                assert(row@ == scheme[i]);
            }
            table.push(row);
            workspace += 1;
            k += 1;
        }
        m += 1;
    }
    assert(table.deep_view() =~= scheme);
    assert forall|i: int| 0 <= i < table.len() implies (#[trigger] table[i]).workspace == i + 1
        && table[i].monitor@ == monitors[block_of(i)]@ by {
        assert(table[i]@ == scheme[i]);
        assert(names[block_of(i)] == monitors[block_of(i)]@);
    }
    table
}

/// Where the table's text is kept below a home directory.
pub open spec fn table_path(home: Seq<char>) -> Seq<char> {
    home + "/.config/hypr/ws.conf"@
}

/// Path of the file that holds the table's text.
pub fn table_file(home: &str) -> (path: String)
    ensures
        path@ == table_path(home@),
{
    let mut path = String::from_str(home);
    path.append("/.config/hypr/ws.conf");
    path
}

/// Writes one row as text, without a line ending.
pub fn render_line(row: &WorkspaceMonitorMap) -> (text: String)
    ensures
        text@ == line_text(row@),
{
    let mut text = String::from_str("workspace = ");
    push_decimal(&mut text, row.workspace as i64);
    text.append(", monitor:");
    text.append(row.monitor.as_str());
    text
}

/// Writes a table as text: one line per row, in the table's order.
pub fn render_table(table: &Vec<WorkspaceMonitorMap>) -> (text: String)
    ensures
        text@ == table_text(table.deep_view()),
{
    let ghost rows = table.deep_view();
    let mut text = String::new();
    let mut i: usize = 0;
    proof {
        assert(rows.take(0) =~= Seq::<WorkspaceMonitorMapView>::empty());
    }
    while i < table.len()
        invariant
            i <= table.len(),
            rows == table.deep_view(),
            text@ == table_text(rows.take(i as int)),
        decreases table.len() - i,
    {
        let line = render_line(&table[i]);
        proof {
            reveal_strlit("\n");
            let next = rows.take(i + 1);
            assert(next.drop_last() =~= rows.take(i as int));
            assert(next.last() == table[i as int]@);
            assert("\n"@ =~= seq!['\n']);
        }
        text.append(line.as_str());
        text.append("\n");
        i += 1;
    }
    proof {
        assert(rows.take(table.len() as int) =~= rows);
    }
    text
}

/// Reads `chars[from..to]`, a line of `text`, as a row.
fn parse_line_range(text: &str, chars: &Vec<char>, from: usize, to: usize) -> (row: Option<
    WorkspaceMonitorMap,
>)
    requires
        chars@ == text@,
        from <= to <= chars.len(),
    ensures
        match row {
            Some(r) => parse_line(chars@.subrange(from as int, to as int)) == Some(r@),
            None => parse_line(chars@.subrange(from as int, to as int)) is None,
        },
{
    let ghost line = chars@.subrange(from as int, to as int);
    let prefix = to_chars("workspace = ");
    let marker = to_chars(", monitor:");
    if to - from < prefix.len() {
        return None;
    }
    let body: usize = from + prefix.len();
    proof {
        assert(line.take(prefix@.len() as int) =~= chars@.subrange(from as int, body as int));
    }
    if !range_equals(chars, from, body, &prefix) {
        return None;
    }
    let ghost rest = line.skip(prefix@.len() as int);
    assert(rest =~= chars@.subrange(body as int, to as int));
    match find_in_range(chars, body, to, &marker) {
        None => None,
        Some(p) => {
            assert(rest.take(p - body) =~= chars@.subrange(body as int, p as int));
            assert(rest.skip(p - body + marker@.len()) =~= chars@.subrange(
                p + marker@.len(),
                to as int,
            ));
            let (a, b) = trim_range(chars, body, p);
            match parse_i32_range(chars, a, b) {
                None => None,
                Some(workspace) => {
                    let (c, d) = trim_range(chars, p + marker.len(), to);
                    let name = text.substring_char(c, d);
                    Some(WorkspaceMonitorMap { workspace, monitor: String::from_str(name) })
                },
            }
        },
    }
}

/// Reads one line of the table's text as a row.
pub fn parse_workspace_line(line: &str) -> (row: Option<WorkspaceMonitorMap>)
    ensures
        match row {
            Some(r) => parse_line(line@) == Some(r@),
            None => parse_line(line@) is None,
        },
{
    let chars = to_chars(line);
    assert(chars@.subrange(0, chars@.len() as int) =~= chars@);
    parse_line_range(line, &chars, 0, chars.len())
}

/// Reads the table's text: the rows of its lines, in order; a line that holds
/// no row is passed over.
pub fn parse_workspace_file(text: &str) -> (table: Vec<WorkspaceMonitorMap>)
    ensures
        table.deep_view() == parse_table(text@),
{
    let all = split_lines(text);
    let ghost found = all.deep_view();
    let mut table: Vec<WorkspaceMonitorMap> = Vec::new();
    let mut i: usize = 0;
    assert(table.deep_view() =~= rows_of(found.take(0)));
    while i < all.len()
        invariant
            i <= all.len(),
            found == all.deep_view(),
            table.deep_view() == rows_of(found.take(i as int)),
        decreases all.len() - i,
    {
        let ghost rows = table.deep_view();
        proof {
            assert(found.take(i + 1).drop_last() =~= found.take(i as int));
            assert(found.take(i + 1).last() == all[i as int]@);
        }
        match parse_workspace_line(all[i].as_str()) {
            Some(row) => {
                table.push(row);
                assert(table.deep_view() =~= rows + seq![row@]);
            },
            None => {
                assert(rows + Seq::<WorkspaceMonitorMapView>::empty() =~= rows);
            },
        }
        i += 1;
    }
    assert(found.take(all.len() as int) =~= found);
    table
}

} // verus!
