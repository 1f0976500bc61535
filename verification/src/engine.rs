//! The assignment engine: from what the window manager reports to the
//! registry that is kept and the table that is written.
//!
//! The caller asks the window manager, hands the report over, and carries out
//! what comes back: it saves the registry where it is told to, writes the
//! table's text and has the window manager reload it.

use crate::assignment::{
    assign_workspaces_to_monitors, assigned_monitors, placement_scheme, render_table, table_text,
    unassigned_monitors, WorkspaceMonitorMap,
};
use crate::registry::{
    first_monitors, ids_distinct, lemma_sorted_by_id_ignores_order, names_of, refreshed,
    same_monitors, sorted_by_id, CacheRead, Monitor, MonitorConfig, MonitorView, RegistryError,
};
use crate::text::{lines, split_lines, trim, trimmed};
use vstd::prelude::*;

verus! {

/// What the window manager reported of its monitors.
#[derive(Debug)]
pub enum MonitorReport {
    /// The full list of monitors.
    Snapshot(Vec<Monitor>),
    /// The full list could not be had; this is the answer to the query for the
    /// bare names, one name per line.
    NamesOnly(String),
}

/// A report as the contracts speak of it.
pub ghost enum MonitorReportView {
    Snapshot(Seq<MonitorView>),
    NamesOnly(Seq<char>),
}

impl View for MonitorReport {
    type V = MonitorReportView;

    open spec fn view(&self) -> MonitorReportView {
        match self {
            MonitorReport::Snapshot(list) => MonitorReportView::Snapshot(list.deep_view()),
            MonitorReport::NamesOnly(answer) => MonitorReportView::NamesOnly(answer@),
        }
    }
}

/// What an assignment comes to.
#[derive(Debug)]
pub struct Assignment {
    /// The table.
    pub table: Vec<WorkspaceMonitorMap>,
    /// The table's text, as it is written.
    pub text: String,
    /// Whether the registry was refreshed and is to be saved.
    pub save_registry: bool,
    /// Number of monitors of the snapshot that the registry left out.
    pub ignored: usize,
    /// Number of monitors that received no workspaces.
    pub unassigned: usize,
}

/// Whether the cache gave a registry.
#[derive(Debug)]
pub enum CachedConfig {
    /// The registry that the cache holds.
    Ready(MonitorConfig),
    /// There is no cache: the registry is rebuilt from the window manager's
    /// list of monitors, and saved.
    Rebuild,
}

/// The registry after an assignment: a snapshot replaces it, and without one
/// it stays as it was.
pub open spec fn registry_after(registry: Seq<MonitorView>, report: MonitorReportView) -> Seq<
    MonitorView,
> {
    match report {
        MonitorReportView::Snapshot(list) => refreshed(list),
        MonitorReportView::NamesOnly(_) => registry,
    }
}

/// The monitors that an assignment gives workspaces to, in their order: those
/// of the registry it leaves behind, by ascending id, or without a snapshot the
/// names that were reported.
pub open spec fn monitors_to_assign(registry_left: Seq<MonitorView>, report: MonitorReportView)
    -> Seq<Seq<char>> {
    match report {
        MonitorReportView::Snapshot(_) => names_of(sorted_by_id(registry_left)),
        MonitorReportView::NamesOnly(answer) => lines(trim(answer)),
    }
}

/// Number of monitors of a report that the registry leaves out: those of a
/// snapshot beyond the ones that are tracked.
pub open spec fn monitors_ignored(report: MonitorReportView) -> int {
    match report {
        MonitorReportView::Snapshot(list) => list.len() - first_monitors(list).len(),
        MonitorReportView::NamesOnly(_) => 0,
    }
}

/// The text of the table that an assignment writes.
pub open spec fn assignment_text(registry_left: Seq<MonitorView>, report: MonitorReportView)
    -> Seq<char> {
    table_text(placement_scheme(monitors_to_assign(registry_left, report)))
}

/// A second assignment on the same report leaves the registry as the first
/// left it and writes the same text.
pub proof fn lemma_assignment_is_idempotent(registry: Seq<MonitorView>, report: MonitorReportView)
    ensures
        registry_after(registry_after(registry, report), report) == registry_after(
            registry,
            report,
        ),
        assignment_text(registry_after(registry_after(registry, report), report), report)
            == assignment_text(registry_after(registry, report), report),
{
}

/// After a snapshot the text that is written is that of the registry left
/// behind: it does not depend on anything else in the snapshot.
pub proof fn lemma_same_registry_same_text(
    registry_left: Seq<MonitorView>,
    list: Seq<MonitorView>,
    again: Seq<MonitorView>,
)
    ensures
        assignment_text(registry_left, MonitorReportView::Snapshot(list)) == assignment_text(
            registry_left,
            MonitorReportView::Snapshot(again),
        ),
{
}

/// Where ids are distinct, two registries that hold the same monitors have the
/// same text written after a snapshot, in whatever order the monitors were
/// listed.
pub proof fn lemma_same_monitors_same_text(
    left: Seq<MonitorView>,
    list: Seq<MonitorView>,
    left_again: Seq<MonitorView>,
    again: Seq<MonitorView>,
)
    requires
        ids_distinct(left),
        ids_distinct(left_again),
        same_monitors(left, left_again),
    ensures
        assignment_text(left, MonitorReportView::Snapshot(list)) == assignment_text(
            left_again,
            MonitorReportView::Snapshot(again),
        ),
{
    lemma_sorted_by_id_ignores_order(left, left_again);
}

/// Looks at what reading the cache gave: a document is the registry, and
/// anything else means that the registry has to be rebuilt.
pub fn get_monitor_config(read: CacheRead) -> (cached: CachedConfig)
    ensures
        match cached {
            CachedConfig::Ready(config) => config.wf() && crate::registry::load_result(read@)
                == Ok::<Seq<MonitorView>, RegistryError>(config@),
            CachedConfig::Rebuild => !(read@ is Document),
        },
{
    match MonitorConfig::load(read) {
        Ok(config) => CachedConfig::Ready(config),
        Err(_) => CachedConfig::Rebuild,
    }
}

/// Builds the registry anew where there is no cache: from the window
/// manager's list of monitors, or empty where there is no list.
pub fn rebuild_monitor_config(snapshot: Option<Vec<Monitor>>) -> (config: MonitorConfig)
    ensures
        config.wf(),
        config@ == (match snapshot {
            Some(list) => refreshed(list.deep_view()),
            None => Seq::<MonitorView>::empty(),
        }),
{
    let mut config = MonitorConfig::new();
    let _ = config.update_from_hyprland(snapshot);
    config
}

/// The names that the answer to the query for bare names holds: its lines,
/// once the whitespace around the answer is taken away.
pub fn reported_names(answer: &str) -> (names: Vec<String>)
    ensures
        names.deep_view() == lines(trim(answer@)),
{
    let core = trimmed(answer);
    split_lines(core.as_str())
}

/// Computes the assignment for what the window manager reported.
///
/// A snapshot replaces the registry, which is then to be saved, and the
/// monitors receive their workspaces by ascending id. Without a snapshot the
/// registry stays as it is and is not saved, and the monitors receive their
/// workspaces in the order in which their names were reported.
pub fn assign_workspaces(config: &mut MonitorConfig, report: MonitorReport) -> (assignment:
    Assignment)
    ensures
        old(config).wf() || report@ is Snapshot ==> final(config).wf(),
        final(config)@ == registry_after(old(config)@, report@),
        assignment.save_registry == (report@ is Snapshot),
        assignment.ignored == monitors_ignored(report@),
        assignment.table.deep_view() == placement_scheme(
            monitors_to_assign(final(config)@, report@),
        ),
        assignment.text@ == assignment_text(final(config)@, report@),
        assignment.unassigned == monitors_to_assign(final(config)@, report@).len()
            - assigned_monitors(monitors_to_assign(final(config)@, report@).len()),
{
    let (names, save_registry, ignored) = match report {
        MonitorReport::Snapshot(list) => {
            let ignored = match config.update_from_hyprland(Some(list)) {
                Ok(n) => n,
                Err(_) => 0,
            };
            (config.get_sorted_monitor_names(), true, ignored)
        },
        MonitorReport::NamesOnly(answer) => (reported_names(answer.as_str()), false, 0),
    };
    let table = assign_workspaces_to_monitors(&names);
    let text = render_table(&table);
    let unassigned = unassigned_monitors(names.len());
    Assignment { table, text, save_registry, ignored, unassigned }
}

} // verus!
