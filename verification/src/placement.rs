//! Placement and load balancing: the placement group of a requested workspace,
//! the choice of its least populated member, and the commands that a switch or
//! a move comes to.
//!
//! The functions here decide; the caller asks the window manager what is
//! active and how many windows each workspace holds, and sends the commands.

use crate::assignment::{WorkspaceMonitorMap, WorkspaceMonitorMapView};
use crate::decimal::{parse_i32_range, parse_i32_text};
use crate::text::{to_chars, trim, trim_range};
use crate::WORKSPACES_PER_MONITOR;
use vstd::arithmetic::div_mod::{lemma_fundamental_div_mod, lemma_fundamental_div_mod_converse};
use vstd::prelude::*;

verus! {

/// A command for the window manager.
#[derive(Clone, Copy, Debug, PartialEq, Eq, Structural)]
pub enum Dispatch {
    /// Show this workspace.
    Workspace(i32),
    /// Move the active window to this workspace without following it.
    MoveToWorkspaceSilent(i32),
    /// Give the focus to this monitor.
    FocusMonitor(i32),
}

/// How many windows a workspace holds.
#[derive(Clone, Copy, Debug, PartialEq, Eq, Structural)]
pub struct WindowCount {
    pub workspace: i32,
    pub windows: i32,
}

/// What a switch or a move comes to.
#[derive(Debug)]
pub enum Outcome {
    /// The requested workspace is not positive: nothing is sent.
    InvalidWorkspace,
    /// No workspace of the table matches the request: nothing is sent.
    NoMatch,
    /// The window manager reported no monitor to go to: nothing is sent.
    Unavailable,
    /// These commands are sent, in this order.
    Dispatch(Vec<Dispatch>),
}

/// An outcome as the contracts speak of it: the commands as a sequence.
pub ghost enum OutcomeView {
    InvalidWorkspace,
    NoMatch,
    Unavailable,
    Dispatch(Seq<Dispatch>),
}

impl View for Outcome {
    type V = OutcomeView;

    open spec fn view(&self) -> OutcomeView {
        match self {
            Outcome::InvalidWorkspace => OutcomeView::InvalidWorkspace,
            Outcome::NoMatch => OutcomeView::NoMatch,
            Outcome::Unavailable => OutcomeView::Unavailable,
            Outcome::Dispatch(commands) => OutcomeView::Dispatch(commands@),
        }
    }
}

/// The commands that an outcome sends.
pub open spec fn dispatches(outcome: OutcomeView) -> Seq<Dispatch> {
    match outcome {
        OutcomeView::Dispatch(commands) => commands,
        _ => Seq::empty(),
    }
}

/// The logical workspace that `w` is an instance of: its remainder by the
/// number of workspaces per monitor, with the sign of `w`.
pub open spec fn slot(w: int) -> int {
    if w >= 0 {
        w % WORKSPACES_PER_MONITOR as int
    } else {
        -((-w) % WORKSPACES_PER_MONITOR as int)
    }
}

/// `w` is a workspace of the table and an instance of the same logical
/// workspace as `requested`.
pub open spec fn in_group(rows: Seq<WorkspaceMonitorMapView>, requested: i32, w: i32) -> bool {
    &&& slot(w as int) == slot(requested as int)
    &&& exists|i: int| 0 <= i < rows.len() && (#[trigger] rows[i]).workspace == w
}

/// Each element is smaller than the next.
pub open spec fn strictly_ascending(s: Seq<i32>) -> bool {
    forall|a: int, b: int| 0 <= a < b < s.len() ==> s[a] < s[b]
}

/// `group` lists, in ascending order and each once, the workspaces of the
/// table that are instances of the same logical workspace as `requested`.
pub open spec fn is_placement_group(
    rows: Seq<WorkspaceMonitorMapView>,
    requested: i32,
    group: Seq<i32>,
) -> bool {
    &&& strictly_ascending(group)
    &&& forall|w: i32| #[trigger] group.contains(w) <==> in_group(rows, requested, w)
}

/// The placement group of `requested` in the table.
pub open spec fn placement_group_of(rows: Seq<WorkspaceMonitorMapView>, requested: i32) -> Seq<
    i32,
> {
    choose|group: Seq<i32>| is_placement_group(rows, requested, group)
}

/// Number of windows that the counts give for workspace `w`: that of the
/// first count for it, and 0 where there is none.
pub open spec fn windows_on(counts: Seq<WindowCount>, w: i32) -> i32
    decreases counts.len(),
{
    if counts.len() == 0 {
        0
    } else if counts[0].workspace == w {
        counts[0].windows
    } else {
        windows_on(counts.drop_first(), w)
    }
}

/// `target` is the member of `group` with the fewest windows, and among
/// several with the fewest the one with the smallest number.
pub open spec fn is_least_populated(group: Seq<i32>, counts: Seq<WindowCount>, target: i32)
    -> bool {
    &&& group.contains(target)
    &&& forall|i: int|
        0 <= i < group.len() ==> {
            ||| windows_on(counts, target) < windows_on(counts, #[trigger] group[i])
            ||| windows_on(counts, target) == windows_on(counts, group[i]) && target <= group[i]
        }
}

/// The least populated member of `group`.
pub open spec fn least_populated_of(group: Seq<i32>, counts: Seq<WindowCount>) -> i32 {
    choose|target: i32| is_least_populated(group, counts, target)
}

/// The monitor after `current` in cyclic order, among `count` monitors.
pub open spec fn next_monitor(current: i32, count: i32) -> i32 {
    ((current + 1) % count as int) as i32
}

/// A switch command for each member of the group, in the group's order.
pub open spec fn switch_commands(group: Seq<i32>) -> Seq<Dispatch> {
    Seq::new(group.len(), |i: int| Dispatch::Workspace(group[i]))
}

/// What a switch to `requested` comes to.
///
/// A request that is not positive is invalid, and one whose placement group is
/// empty matches nothing. If the active workspace is in the group, the focus
/// goes to the next monitor in cyclic order; else every member of the group is
/// shown, in ascending order.
pub open spec fn switch_outcome(
    rows: Seq<WorkspaceMonitorMapView>,
    requested: i32,
    current_workspace: i32,
    monitor_count: i32,
    current_monitor: i32,
) -> OutcomeView {
    let group = placement_group_of(rows, requested);
    if requested <= 0 {
        OutcomeView::InvalidWorkspace
    } else if group.len() == 0 {
        OutcomeView::NoMatch
    } else if group.contains(current_workspace) {
        if monitor_count <= 0 {
            OutcomeView::Unavailable
        } else {
            OutcomeView::Dispatch(
                seq![Dispatch::FocusMonitor(next_monitor(current_monitor, monitor_count))],
            )
        }
    } else {
        OutcomeView::Dispatch(switch_commands(group))
    }
}

/// What a move of the active window to `requested` comes to.
///
/// A request that is not positive is invalid, and one whose placement group is
/// empty matches nothing. Else the window moves silently to the least
/// populated member of the group; unless `silent`, every member of the group
/// is then shown, in ascending order.
pub open spec fn move_outcome(
    rows: Seq<WorkspaceMonitorMapView>,
    requested: i32,
    silent: bool,
    counts: Seq<WindowCount>,
) -> OutcomeView {
    let group = placement_group_of(rows, requested);
    if requested <= 0 {
        OutcomeView::InvalidWorkspace
    } else if group.len() == 0 {
        OutcomeView::NoMatch
    } else {
        let target = Dispatch::MoveToWorkspaceSilent(least_populated_of(group, counts));
        if silent {
            OutcomeView::Dispatch(seq![target])
        } else {
            OutcomeView::Dispatch(seq![target] + switch_commands(group))
        }
    }
}

/// The number that a query's answer holds, or `default` where it holds none.
pub open spec fn answer_or(answer: Seq<char>, default: i32) -> i32 {
    match parse_i32_text(trim(answer)) {
        Some(n) => n,
        None => default,
    }
}

/// In an ascending sequence every element is at most the last, and dropping
/// the last leaves the elements that differ from it.
proof fn lemma_ascending_last(s: Seq<i32>)
    requires
        strictly_ascending(s),
        s.len() > 0,
    ensures
        strictly_ascending(s.drop_last()),
        forall|w: i32| #[trigger] s.contains(w) ==> w <= s.last(),
        forall|w: i32| #[trigger]
            s.drop_last().contains(w) <==> s.contains(w) && w != s.last(),
{
    let init = s.drop_last();
    assert forall|w: i32| #[trigger] s.contains(w) implies w <= s.last() by {
        let i = choose|i: int| 0 <= i < s.len() && s[i] == w;
        assert(i == s.len() - 1 || s[i] < s[s.len() - 1]);
    }
    assert forall|w: i32| #[trigger] init.contains(w) <==> s.contains(w) && w != s.last() by {
        if init.contains(w) {
            let i = choose|i: int| 0 <= i < init.len() && init[i] == w;
            assert(s[i] == w);
            assert(s[i] < s[s.len() - 1]);
        }
        if s.contains(w) && w != s.last() {
            let i = choose|i: int| 0 <= i < s.len() && s[i] == w;
            assert(init[i] == w);
        }
    }
}

/// Two ascending sequences with the same elements are the same sequence.
pub proof fn lemma_ascending_unique(s: Seq<i32>, t: Seq<i32>)
    requires
        strictly_ascending(s),
        strictly_ascending(t),
        forall|w: i32| s.contains(w) <==> t.contains(w),
    ensures
        s == t,
    decreases s.len(),
{
    if s.len() == 0 {
        if t.len() > 0 {
            assert(t.contains(t[0]));
        }
        assert(s =~= t);
    } else {
        assert(s.contains(s.last()));
        assert(t.contains(s.last()));
        assert(t.len() > 0);
        assert(t.contains(t.last()));
        lemma_ascending_last(s);
        lemma_ascending_last(t);
        assert(s.last() == t.last());
        lemma_ascending_unique(s.drop_last(), t.drop_last());
        assert(s =~= s.drop_last().push(s.last()));
        assert(t =~= t.drop_last().push(t.last()));
    }
}

/// A table has one placement group for a request: whatever meets the
/// description is the group.
pub proof fn lemma_placement_group_unique(
    rows: Seq<WorkspaceMonitorMapView>,
    requested: i32,
    group: Seq<i32>,
)
    requires
        is_placement_group(rows, requested, group),
    ensures
        group == placement_group_of(rows, requested),
{
    let chosen = placement_group_of(rows, requested);
    assert(is_placement_group(rows, requested, chosen));
    assert forall|w: i32| group.contains(w) <==> chosen.contains(w) by {
        assert(group.contains(w) <==> in_group(rows, requested, w));
        assert(chosen.contains(w) <==> in_group(rows, requested, w));
    }
    lemma_ascending_unique(group, chosen);
}

/// An ascending sequence with `w` put at its place, unless it is there.
proof fn lemma_insert_ascending(g: Seq<i32>, w: i32) -> (r: Seq<i32>)
    requires
        strictly_ascending(g),
    ensures
        strictly_ascending(r),
        forall|x: i32| #[trigger] r.contains(x) <==> g.contains(x) || x == w,
    decreases g.len(),
{
    if g.len() == 0 {
        let r = seq![w];
        assert(r[0] == w);
        assert forall|x: i32| #[trigger] r.contains(x) <==> g.contains(x) || x == w by {
            if r.contains(x) {
                let k = choose|k: int| 0 <= k < r.len() && r[k] == x;
            }
            if g.contains(x) {
                let k = choose|k: int| 0 <= k < g.len() && g[k] == x;
            }
        }
        r
    } else if g.last() == w {
        assert(g[g.len() - 1] == w);
        g
    } else {
        lemma_ascending_last(g);
        let (inner, r) = if g.last() < w {
            (g, g.push(w))
        } else {
            let inner = lemma_insert_ascending(g.drop_last(), w);
            (inner, inner.push(g.last()))
        };
        let top = r.last();
        assert forall|a: int, b: int| 0 <= a < b < r.len() implies r[a] < r[b] by {
            assert(r[a] == inner[a]);
            if b < inner.len() {
                assert(r[b] == inner[b]);
            } else {
                assert(inner.contains(inner[a]));
                if g.last() < w {
                    assert(g.contains(inner[a]));
                } else if inner[a] != w {
                    assert(g.drop_last().contains(inner[a]));
                }
            }
        }
        assert forall|x: i32| #[trigger] r.contains(x) <==> g.contains(x) || x == w by {
            if r.contains(x) {
                let k = choose|k: int| 0 <= k < r.len() && r[k] == x;
                if k < inner.len() {
                    assert(inner[k] == x);
                    assert(inner.contains(x));
                } else {
                    assert(x == top);
                    assert(g[g.len() - 1] == g.last());
                }
            }
            if g.contains(x) || x == w {
                if inner.contains(x) {
                    let k = choose|k: int| 0 <= k < inner.len() && inner[k] == x;
                    assert(r[k] == x);
                } else {
                    assert(r[r.len() - 1] == top);
                }
            }
        }
        r
    }
}

/// The first `n` rows of a table have a placement group.
proof fn lemma_group_of_prefix(rows: Seq<WorkspaceMonitorMapView>, requested: i32, n: int) -> (g:
    Seq<i32>)
    requires
        0 <= n <= rows.len(),
    ensures
        is_placement_group(rows.take(n), requested, g),
    decreases n,
{
    if n == 0 {
        let g = Seq::<i32>::empty();
        assert forall|w: i32| #[trigger] g.contains(w) <==> in_group(rows.take(0), requested, w) by {
            if g.contains(w) {
                let k = choose|k: int| 0 <= k < g.len() && g[k] == w;
            }
        }
        g
    } else {
        let before = lemma_group_of_prefix(rows, requested, n - 1);
        let w = rows[n - 1].workspace;
        let g = if slot(w as int) == slot(requested as int) {
            lemma_insert_ascending(before, w)
        } else {
            before
        };
        assert forall|x: i32| #[trigger] g.contains(x) <==> in_group(rows.take(n), requested, x) by {
            lemma_in_group_step(rows, n - 1, requested, x);
            assert(before.contains(x) <==> in_group(rows.take(n - 1), requested, x));
        }
        g
    }
}

/// Every table has a placement group for every request: what
/// `placement_group_of` names is one.
pub proof fn lemma_placement_group_exists(rows: Seq<WorkspaceMonitorMapView>, requested: i32)
    ensures
        is_placement_group(rows, requested, placement_group_of(rows, requested)),
{
    let g = lemma_group_of_prefix(rows, requested, rows.len() as int);
    assert(rows.take(rows.len() as int) =~= rows);
}

/// The first `n` members of a group have a least populated one.
proof fn lemma_least_of_prefix(group: Seq<i32>, counts: Seq<WindowCount>, n: int) -> (t: i32)
    requires
        1 <= n <= group.len(),
    ensures
        is_least_populated(group.take(n), counts, t),
    decreases n,
{
    let part = group.take(n);
    if n == 1 {
        assert(part[0] == group[0]);
        group[0]
    } else {
        let before = lemma_least_of_prefix(group, counts, n - 1);
        let shorter = group.take(n - 1);
        let c = group[n - 1];
        let t = if windows_on(counts, c) < windows_on(counts, before) || (windows_on(counts, c)
            == windows_on(counts, before) && c < before) {
            c
        } else {
            before
        };
        let k = choose|k: int| 0 <= k < shorter.len() && shorter[k] == before;
        assert(part[k] == before);
        assert(part[n - 1] == c);
        assert forall|i: int| 0 <= i < part.len() implies {
            ||| windows_on(counts, t) < windows_on(counts, #[trigger] part[i])
            ||| windows_on(counts, t) == windows_on(counts, part[i]) && t <= part[i]
        } by {
            if i < n - 1 {
                assert(shorter[i] == part[i]);
            }
        }
        t
    }
}

/// A group that is not empty has a least populated member: what
/// `least_populated_of` names is one.
pub proof fn lemma_least_populated_exists(group: Seq<i32>, counts: Seq<WindowCount>)
    requires
        group.len() > 0,
    ensures
        is_least_populated(group, counts, least_populated_of(group, counts)),
{
    let t = lemma_least_of_prefix(group, counts, group.len() as int);
    assert(group.take(group.len() as int) =~= group);
}

/// A group has at most one least populated member.
pub proof fn lemma_least_populated_unique(group: Seq<i32>, counts: Seq<WindowCount>, target: i32)
    requires
        is_least_populated(group, counts, target),
    ensures
        target == least_populated_of(group, counts),
{
    let chosen = least_populated_of(group, counts);
    assert(is_least_populated(group, counts, chosen));
    let i = choose|i: int| 0 <= i < group.len() && group[i] == target;
    let j = choose|j: int| 0 <= j < group.len() && group[j] == chosen;
    assert(group[i] == target && group[j] == chosen);
}

/// With an empty placement group a switch and a move send nothing.
pub proof fn lemma_empty_group_sends_nothing(
    rows: Seq<WorkspaceMonitorMapView>,
    requested: i32,
    current_workspace: i32,
    monitor_count: i32,
    current_monitor: i32,
    silent: bool,
    counts: Seq<WindowCount>,
)
    requires
        placement_group_of(rows, requested).len() == 0,
    ensures
        dispatches(
            switch_outcome(rows, requested, current_workspace, monitor_count, current_monitor),
        ) == Seq::<Dispatch>::empty(),
        dispatches(move_outcome(rows, requested, silent, counts)) == Seq::<Dispatch>::empty(),
{
}

/// A request that is not positive sends nothing.
pub proof fn lemma_invalid_request_sends_nothing(
    rows: Seq<WorkspaceMonitorMapView>,
    requested: i32,
    current_workspace: i32,
    monitor_count: i32,
    current_monitor: i32,
    silent: bool,
    counts: Seq<WindowCount>,
)
    requires
        requested <= 0,
    ensures
        switch_outcome(rows, requested, current_workspace, monitor_count, current_monitor)
            == OutcomeView::InvalidWorkspace,
        move_outcome(rows, requested, silent, counts) == OutcomeView::InvalidWorkspace,
{
}

/// The workspaces of the first `n + 1` rows that are in the group are those of
/// the first `n` rows and, if it is an instance of the request, that of row `n`.
proof fn lemma_in_group_step(
    rows: Seq<WorkspaceMonitorMapView>,
    n: int,
    requested: i32,
    w: i32,
)
    requires
        0 <= n < rows.len(),
    ensures
        in_group(rows.take(n + 1), requested, w) <==> in_group(rows.take(n), requested, w) || (w
            == rows[n].workspace && slot(w as int) == slot(requested as int)),
{
    let shorter = rows.take(n);
    let longer = rows.take(n + 1);
    if in_group(longer, requested, w) {
        let i = choose|i: int| 0 <= i < longer.len() && (#[trigger] longer[i]).workspace == w;
        if i < n {
            assert(shorter[i].workspace == w);
        }
    }
    if in_group(shorter, requested, w) {
        let i = choose|i: int| 0 <= i < shorter.len() && (#[trigger] shorter[i]).workspace == w;
        assert(longer[i].workspace == w);
    }
    if w == rows[n].workspace {
        assert(longer[n].workspace == w);
    }
}

/// Puts `w` at its place in an ascending vector, unless it is there already.
fn insert_ascending(group: &mut Vec<i32>, w: i32)
    requires
        strictly_ascending(old(group)@),
    ensures
        strictly_ascending(final(group)@),
        forall|x: i32| #[trigger] final(group)@.contains(x) <==> old(group)@.contains(x) || x == w,
{
    let mut p: usize = 0;
    while p < group.len() && group[p] < w
        invariant
            p <= group.len(),
            group@ == old(group)@,
            forall|j: int| 0 <= j < p ==> group@[j] < w,
        decreases group.len() - p,
    {
        p += 1;
    }
    if p < group.len() && group[p] == w {
        assert(group@.contains(w));
        return ;
    }
    let ghost before = group@;
    group.insert(p, w);
    proof {
        let after = group@;
        assert(after.len() == before.len() + 1);
        assert(after[p as int] == w);
        assert forall|j: int| 0 <= j < p implies after[j] == before[j] by {}
        assert forall|j: int| p < j < after.len() implies after[j] == before[j - 1] by {}
        assert forall|a: int, b: int| 0 <= a < b < after.len() implies after[a] < after[b] by {
            if a < p && b > p {
                assert(before[a] < w);
                assert(before[b - 1] >= w);
            } else if a < p && b < p {
                assert(before[a] < before[b]);
            } else if a > p {
                assert(before[a - 1] < before[b - 1]);
            } else if a == p {
                assert(before[b - 1] > w);
            }
        }
        assert forall|x: i32| #[trigger] after.contains(x) <==> before.contains(x) || x == w by {
            if after.contains(x) {
                let j = choose|j: int| 0 <= j < after.len() && after[j] == x;
                if j < p {
                    assert(before[j] == x);
                } else if j > p {
                    assert(before[j - 1] == x);
                }
            }
            if before.contains(x) {
                let j = choose|j: int| 0 <= j < before.len() && before[j] == x;
                if j < p {
                    assert(after[j] == x);
                } else {
                    assert(after[j + 1] == x);
                }
            }
        }
    }
}

/// The machine remainder of `w` by the number of workspaces per monitor.
fn slot_of(w: i32) -> (s: i32)
    ensures
        s == slot(w as int),
{
    w % (WORKSPACES_PER_MONITOR as i32)
}

/// Computes the placement group of `requested`: the workspaces of the table
/// with the same remainder by the number of workspaces per monitor, in
/// ascending order and each once.
pub fn placement_group(requested: i32, maps: &Vec<WorkspaceMonitorMap>) -> (group: Vec<i32>)
    ensures
        is_placement_group(maps.deep_view(), requested, group@),
        group@ == placement_group_of(maps.deep_view(), requested),
{
    let ghost rows = maps.deep_view();
    let wanted = slot_of(requested);
    let mut group: Vec<i32> = Vec::new();
    let mut n: usize = 0;
    proof {
        assert forall|w: i32| #[trigger] group@.contains(w) <==> in_group(
            rows.take(0),
            requested,
            w,
        ) by {}
    }
    while n < maps.len()
        invariant
            n <= maps.len(),
            rows == maps.deep_view(),
            wanted == slot(requested as int),
            is_placement_group(rows.take(n as int), requested, group@),
        decreases maps.len() - n,
    {
        let w = maps[n].workspace;
        let ghost before = group@;
        assert(rows[n as int].workspace == w);
        if slot_of(w) == wanted {
            insert_ascending(&mut group, w);
        }
        proof {
            assert forall|x: i32| #[trigger] group@.contains(x) <==> in_group(
                rows.take(n + 1),
                requested,
                x,
            ) by {
                lemma_in_group_step(rows, n as int, requested, x);
                assert(before.contains(x) <==> in_group(rows.take(n as int), requested, x));
            }
        }
        n += 1;
    }
    proof {
        assert(rows.take(maps.len() as int) =~= rows);
        lemma_placement_group_unique(rows, requested, group@);
    }
    group
}

/// Looks up the number of windows on workspace `w`.
pub fn windows_of(counts: &Vec<WindowCount>, w: i32) -> (n: i32)
    ensures
        n == windows_on(counts@, w),
{
    let mut i: usize = 0;
    assert(counts@.skip(0) =~= counts@);
    while i < counts.len()
        invariant
            i <= counts.len(),
            windows_on(counts@, w) == windows_on(counts@.skip(i as int), w),
        decreases counts.len() - i,
    {
        let ghost rest = counts@.skip(i as int);
        proof {
            assert(rest[0] == counts@[i as int]);
            assert(rest.drop_first() =~= counts@.skip(i + 1));
        }
        if counts[i].workspace == w {
            return counts[i].windows;
        }
        i += 1;
    }
    0
}

/// Picks the member of `group` with the fewest windows; among several with the
/// fewest, the one with the smallest number. An empty group has none.
pub fn least_populated(group: &Vec<i32>, counts: &Vec<WindowCount>) -> (target: Option<i32>)
    ensures
        group@.len() == 0 <==> target is None,
        target matches Some(t) ==> is_least_populated(group@, counts@, t) && t
            == least_populated_of(group@, counts@),
{
    if group.len() == 0 {
        return None;
    }
    let mut best: i32 = group[0];
    let mut fewest: i32 = windows_of(counts, best);
    let mut i: usize = 1;
    while i < group.len()
        invariant
            1 <= i <= group.len(),
            fewest == windows_on(counts@, best),
            exists|k: int| 0 <= k < i && group@[k] == best,
            forall|j: int|
                0 <= j < i ==> {
                    ||| fewest < windows_on(counts@, #[trigger] group@[j])
                    ||| fewest == windows_on(counts@, group@[j]) && best <= group@[j]
                },
        decreases group.len() - i,
    {
        let n = windows_of(counts, group[i]);
        if n < fewest || (n == fewest && group[i] < best) {
            fewest = n;
            best = group[i];
        }
        i += 1;
    }
    proof {
        let k = choose|k: int| 0 <= k < group@.len() && group@[k] == best;
        assert(group@.contains(best));
        lemma_least_populated_unique(group@, counts@, best);
    }
    Some(best)
}

fn switch_all(group: &Vec<i32>) -> (commands: Vec<Dispatch>)
    ensures
        commands@ == switch_commands(group@),
{
    let mut commands: Vec<Dispatch> = Vec::new();
    let mut i: usize = 0;
    while i < group.len()
        invariant
            i <= group.len(),
            commands@.len() == i,
            forall|j: int| 0 <= j < i ==> commands@[j] == Dispatch::Workspace(group@[j]),
        decreases group.len() - i,
    {
        commands.push(Dispatch::Workspace(group[i]));
        i += 1;
    }
    assert(commands@ =~= switch_commands(group@));
    commands
}

fn contains_workspace(group: &Vec<i32>, w: i32) -> (found: bool)
    ensures
        found == group@.contains(w),
{
    let mut i: usize = 0;
    while i < group.len()
        invariant
            i <= group.len(),
            forall|j: int| 0 <= j < i ==> group@[j] != w,
        decreases group.len() - i,
    {
        if group[i] == w {
            return true;
        }
        i += 1;
    }
    false
}

/// The monitor after `current` in cyclic order, among `count` monitors; none
/// where there is no monitor.
pub fn following_monitor(current: i32, count: i32) -> (next: Option<i32>)
    ensures
        count <= 0 <==> next is None,
        next matches Some(n) ==> n == next_monitor(current, count) && 0 <= n < count,
{
    if count <= 0 {
        return None;
    }
    let step: i64 = current as i64 + 1;
    let size: i64 = count as i64;
    if step >= 0 {
        Some((step % size) as i32)
    } else {
        let back: i64 = (-step) % size;
        proof {
            let a: int = -(step as int);
            let m: int = size as int;
            let q: int = a / m;
            lemma_fundamental_div_mod(a, m);
            if back == 0 {
                assert(-a == (-q) * m + 0) by (nonlinear_arith)
                    requires
                        a == m * q + 0,
                ;
                lemma_fundamental_div_mod_converse(-a, m, -q, 0);
            } else {
                assert(-a == (-q - 1) * m + (m - back)) by (nonlinear_arith)
                    requires
                        a == m * q + back,
                ;
                lemma_fundamental_div_mod_converse(-a, m, -q - 1, m - back);
            }
        }
        if back == 0 {
            Some(0)
        } else {
            Some((size - back) as i32)
        }
    }
}

/// Decides what a switch to workspace `workspace` sends.
///
/// `current_workspace` is the active workspace, `monitor_count` the number of
/// monitors and `current_monitor` the monitor that has the focus, as the
/// window manager reports them.
pub fn switch_workspace(
    workspace: i32,
    maps: &Vec<WorkspaceMonitorMap>,
    current_workspace: i32,
    monitor_count: i32,
    current_monitor: i32,
) -> (outcome: Outcome)
    ensures
        outcome@ == switch_outcome(
            maps.deep_view(),
            workspace,
            current_workspace,
            monitor_count,
            current_monitor,
        ),
{
    if workspace <= 0 {
        return Outcome::InvalidWorkspace;
    }
    let group = placement_group(workspace, maps);
    if group.len() == 0 {
        return Outcome::NoMatch;
    }
    if contains_workspace(&group, current_workspace) {
        return match following_monitor(current_monitor, monitor_count) {
            Some(next) => {
                let commands = vec![Dispatch::FocusMonitor(next)];
                assert(commands@ =~= seq![Dispatch::FocusMonitor(next)]);
                Outcome::Dispatch(commands)
            },
            None => Outcome::Unavailable,
        };
    }
    Outcome::Dispatch(switch_all(&group))
}

fn move_to(workspace: i32, silent: bool, maps: &Vec<WorkspaceMonitorMap>, counts: &Vec<WindowCount>)
    -> (outcome: Outcome)
    ensures
        outcome@ == move_outcome(maps.deep_view(), workspace, silent, counts@),
{
    if workspace <= 0 {
        return Outcome::InvalidWorkspace;
    }
    let group = placement_group(workspace, maps);
    match least_populated(&group, counts) {
        None => Outcome::NoMatch,
        Some(target) => {
            let mut commands = vec![Dispatch::MoveToWorkspaceSilent(target)];
            assert(commands@ =~= seq![Dispatch::MoveToWorkspaceSilent(target)]);
            if !silent {
                let mut shown = switch_all(&group);
                commands.append(&mut shown);
            }
            Outcome::Dispatch(commands)
        },
    }
}

/// Decides what a silent move of the active window to workspace `workspace`
/// sends: one command, to the least populated member of the placement group.
///
/// `counts` holds the number of windows on each member of the group, as the
/// window manager reports it; a member without a count has no windows.
pub fn move_silent_workspace(
    workspace: i32,
    maps: &Vec<WorkspaceMonitorMap>,
    counts: &Vec<WindowCount>,
) -> (outcome: Outcome)
    ensures
        outcome@ == move_outcome(maps.deep_view(), workspace, true, counts@),
{
    move_to(workspace, true, maps, counts)
}

/// Decides what a move of the active window to workspace `workspace` sends:
/// the silent move, then a switch to every member of the placement group so
/// that the window is seen where it went.
pub fn move_workspace(workspace: i32, maps: &Vec<WorkspaceMonitorMap>, counts: &Vec<WindowCount>)
    -> (outcome: Outcome)
    ensures
        outcome@ == move_outcome(maps.deep_view(), workspace, false, counts@),
{
    move_to(workspace, false, maps, counts)
}

/// Reads the answer to a query for a number; `default` where it holds none.
pub fn read_answer(answer: &str, default: i32) -> (n: i32)
    ensures
        n == answer_or(answer@, default),
{
    let chars = to_chars(answer);
    assert(chars@.subrange(0, chars@.len() as int) =~= chars@);
    let (a, b) = trim_range(&chars, 0, chars.len());
    match parse_i32_range(&chars, a, b) {
        Some(n) => n,
        None => default,
    }
}

/// The active workspace that the window manager's answer names; 0 where the
/// answer holds no number.
pub fn get_current_workspace(answer: &str) -> (workspace: i32)
    ensures
        workspace == answer_or(answer@, 0),
{
    read_answer(answer, 0)
}

/// The number of monitors that the window manager's answer gives; 1 where the
/// answer holds no number.
pub fn get_monitor_count(answer: &str) -> (count: i32)
    ensures
        count == answer_or(answer@, 1),
{
    read_answer(answer, 1)
}

/// The focused monitor that the window manager's answer names; 0 where the
/// answer holds no number.
pub fn get_current_monitor(answer: &str) -> (monitor: i32)
    ensures
        monitor == answer_or(answer@, 0),
{
    read_answer(answer, 0)
}

/// The count of windows on `workspace` that the window manager's answer
/// gives; 0 where the answer holds no number.
pub fn window_count(workspace: i32, answer: &str) -> (count: WindowCount)
    ensures
        count == (WindowCount { workspace, windows: answer_or(answer@, 0) }),
{
    WindowCount { workspace, windows: read_answer(answer, 0) }
}

} // verus!
