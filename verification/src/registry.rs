//! The monitor registry: the monitors last known, one per identity, at most
//! `MAX_MONITORS` of them; how a snapshot from the window manager replaces
//! them, how they are laid out in the cache document and read back from it,
//! and the list of identities in the order of the numeric ids.

use crate::decimal::{decimal, format_u32, lemma_parse_decimal_of_decimal, parse_decimal};
use crate::MAX_MONITORS;
use vstd::prelude::*;
use vstd::string::*;

verus! {

/// A monitor as the window manager describes it.
#[derive(Clone, Debug)]
pub struct Monitor {
    /// Identity: the stable name of the display.
    pub name: String,
    /// Numeric id; the window manager may hand it out anew when it restarts.
    pub id: u32,
    pub height: u32,
    pub width: u32,
    /// Refresh rate in hertz, held as the bit pattern of its single-precision
    /// value. The registry carries it along and never reads it.
    pub refresh_rate_bits: u32,
}

/// A monitor as the contracts speak of it: the name as its text.
pub ghost struct MonitorView {
    pub name: Seq<char>,
    pub id: u32,
    pub height: u32,
    pub width: u32,
    pub refresh_rate_bits: u32,
}

impl View for Monitor {
    type V = MonitorView;

    open spec fn view(&self) -> MonitorView {
        MonitorView {
            name: self.name@,
            id: self.id,
            height: self.height,
            width: self.width,
            refresh_rate_bits: self.refresh_rate_bits,
        }
    }
}

impl DeepView for Monitor {
    type V = MonitorView;

    open spec fn deep_view(&self) -> MonitorView {
        self@
    }
}

/// Why a registry operation failed.
#[derive(Clone, Copy, Debug, PartialEq, Eq, Structural)]
pub enum RegistryError {
    /// There is no cache.
    NotFound,
    /// The cache cannot be read as a registry.
    Malformed,
    /// The window manager gave no usable list of monitors.
    QueryUnavailable,
    /// The cache could not be written.
    IOError,
}

/// One slot of the cache document: a monitor under its key.
#[derive(Clone, Debug)]
pub struct CacheEntry {
    pub key: String,
    pub monitor: Monitor,
}

/// A slot as the contracts speak of it.
pub ghost struct CacheEntryView {
    pub key: Seq<char>,
    pub monitor: MonitorView,
}

impl View for CacheEntry {
    type V = CacheEntryView;

    open spec fn view(&self) -> CacheEntryView {
        CacheEntryView { key: self.key@, monitor: self.monitor@ }
    }
}

impl DeepView for CacheEntry {
    type V = CacheEntryView;

    open spec fn deep_view(&self) -> CacheEntryView {
        self@
    }
}

/// What reading the cache gave.
#[derive(Debug)]
pub enum CacheRead {
    /// There is no cache file.
    Missing,
    /// The file is there and does not hold a registry.
    Corrupt,
    /// The slots of the document that the file holds.
    Document(Vec<CacheEntry>),
}

/// What was read as the contracts speak of it.
pub ghost enum CacheReadView {
    Missing,
    Corrupt,
    Document(Seq<CacheEntryView>),
}

impl View for CacheRead {
    type V = CacheReadView;

    open spec fn view(&self) -> CacheReadView {
        match self {
            CacheRead::Missing => CacheReadView::Missing,
            CacheRead::Corrupt => CacheReadView::Corrupt,
            CacheRead::Document(entries) => CacheReadView::Document(entries.deep_view()),
        }
    }
}

/// The registry: the monitors last known.
#[derive(Debug)]
pub struct MonitorConfig {
    monitors: Vec<Monitor>,
}

impl View for MonitorConfig {
    type V = Seq<MonitorView>;

    closed spec fn view(&self) -> Seq<MonitorView> {
        self.monitors.deep_view()
    }
}

/// No two monitors of `s` have the same identity.
pub open spec fn names_distinct(s: Seq<MonitorView>) -> bool {
    forall|i: int, j: int| 0 <= i < j < s.len() ==> (#[trigger] s[i]).name != (#[trigger] s[j]).name
}

/// `s` can be what a registry holds: one monitor per identity, and no more
/// monitors than are tracked.
pub open spec fn well_formed(s: Seq<MonitorView>) -> bool {
    &&& names_distinct(s)
    &&& s.len() <= MAX_MONITORS
}

/// `s` without the monitors named `name`.
pub open spec fn without_name(s: Seq<MonitorView>, name: Seq<char>) -> Seq<MonitorView>
    decreases s.len(),
{
    if s.len() == 0 {
        s
    } else if s.last().name == name {
        without_name(s.drop_last(), name)
    } else {
        without_name(s.drop_last(), name).push(s.last())
    }
}

/// `s` after `m` was entered: `m` takes the place of a monitor of its name and
/// stands last.
pub open spec fn upsert(s: Seq<MonitorView>, m: MonitorView) -> Seq<MonitorView> {
    without_name(s, m.name).push(m)
}

/// The registry that entering the monitors of `list` one after the other into
/// an empty registry gives.
pub open spec fn registry_of(list: Seq<MonitorView>) -> Seq<MonitorView>
    decreases list.len(),
{
    if list.len() == 0 {
        Seq::empty()
    } else {
        upsert(registry_of(list.drop_last()), list.last())
    }
}

/// The monitors of a snapshot that are tracked: the first `MAX_MONITORS`.
pub open spec fn first_monitors(list: Seq<MonitorView>) -> Seq<MonitorView> {
    if list.len() <= MAX_MONITORS {
        list
    } else {
        list.take(MAX_MONITORS as int)
    }
}

/// The registry after a refresh from the snapshot `list`: nothing of the old
/// registry stays, and the tracked monitors of the snapshot are entered.
pub open spec fn refreshed(list: Seq<MonitorView>) -> Seq<MonitorView> {
    registry_of(first_monitors(list))
}

/// `sorted` with `m` put behind the last monitor whose id is not greater.
pub open spec fn insert_by_id(sorted: Seq<MonitorView>, m: MonitorView) -> Seq<MonitorView>
    decreases sorted.len(),
{
    if sorted.len() == 0 {
        seq![m]
    } else if sorted.last().id <= m.id {
        sorted.push(m)
    } else {
        insert_by_id(sorted.drop_last(), m).push(sorted.last())
    }
}

/// The monitors of `s` by ascending id; monitors with the same id stay in the
/// order they have in `s`.
pub open spec fn sorted_by_id(s: Seq<MonitorView>) -> Seq<MonitorView>
    decreases s.len(),
{
    if s.len() == 0 {
        Seq::empty()
    } else {
        insert_by_id(sorted_by_id(s.drop_last()), s.last())
    }
}

/// The identities of the monitors of `s`, in order.
pub open spec fn names_of(s: Seq<MonitorView>) -> Seq<Seq<char>> {
    Seq::new(s.len(), |i: int| s[i].name)
}

/// The ids of `s` do not descend.
pub open spec fn ascending_ids(s: Seq<MonitorView>) -> bool {
    forall|i: int, j: int| 0 <= i < j < s.len() ==> (#[trigger] s[i]).id <= (#[trigger] s[j]).id
}

/// No two monitors of `s` have the same id.
pub open spec fn ids_distinct(s: Seq<MonitorView>) -> bool {
    forall|i: int, j: int| 0 <= i < j < s.len() ==> (#[trigger] s[i]).id != (#[trigger] s[j]).id
}

/// The ids of `s` ascend.
pub open spec fn strictly_ascending_ids(s: Seq<MonitorView>) -> bool {
    forall|i: int, j: int| 0 <= i < j < s.len() ==> (#[trigger] s[i]).id < (#[trigger] s[j]).id
}

/// `s` and `t` hold the same monitors.
pub open spec fn same_monitors(s: Seq<MonitorView>, t: Seq<MonitorView>) -> bool {
    forall|x: MonitorView| s.contains(x) <==> t.contains(x)
}

/// The cache document of a registry: one slot per monitor, under the monitor's
/// id in decimal notation.
pub open spec fn cache_document(s: Seq<MonitorView>) -> Seq<CacheEntryView> {
    Seq::new(s.len(), |i: int| CacheEntryView { key: decimal(s[i].id as int), monitor: s[i] })
}

/// The monitors that the slots of a document hold, in the slots' order.
pub open spec fn document_monitors(entries: Seq<CacheEntryView>) -> Seq<MonitorView> {
    Seq::new(entries.len(), |i: int| entries[i].monitor)
}

/// What loading gives for what was read: a missing file is not found, a file
/// that holds no registry is malformed, and the monitors of a document are
/// entered as those of a snapshot are.
pub open spec fn load_result(read: CacheReadView) -> Result<Seq<MonitorView>, RegistryError> {
    match read {
        CacheReadView::Missing => Err(RegistryError::NotFound),
        CacheReadView::Corrupt => Err(RegistryError::Malformed),
        CacheReadView::Document(entries) => Ok(refreshed(document_monitors(entries))),
    }
}

/// Taking the monitors of a name out of `s` leaves the others, in their order.
pub proof fn lemma_without_name(s: Seq<MonitorView>, name: Seq<char>)
    ensures
        without_name(s, name).len() <= s.len(),
        forall|i: int|
            0 <= i < without_name(s, name).len() ==> {
                &&& (#[trigger] without_name(s, name)[i]).name != name
                &&& s.contains(without_name(s, name)[i])
            },
        forall|i: int|
            0 <= i < s.len() && (#[trigger] s[i]).name != name ==> without_name(s, name).contains(
                s[i],
            ),
        names_distinct(s) ==> names_distinct(without_name(s, name)),
    decreases s.len(),
{
    let out = without_name(s, name);
    if s.len() > 0 {
        let init = s.drop_last();
        let inner = without_name(init, name);
        lemma_without_name(init, name);
        assert forall|i: int| 0 <= i < out.len() implies {
            &&& (#[trigger] out[i]).name != name
            &&& s.contains(out[i])
        } by {
            if i < inner.len() {
                assert(out[i] == inner[i]);
                let j = choose|j: int| 0 <= j < init.len() && init[j] == inner[i];
                assert(s[j] == out[i]);
            } else {
                assert(s[s.len() - 1] == out[i]);
            }
        }
        assert forall|i: int| 0 <= i < s.len() && (#[trigger] s[i]).name != name implies out.contains(
            s[i],
        ) by {
            if i < init.len() {
                assert(init[i] == s[i]);
                let j = choose|j: int| 0 <= j < inner.len() && inner[j] == s[i];
                assert(out[j] == s[i]);
            } else {
                assert(out[out.len() - 1] == s[i]);
            }
        }
        if names_distinct(s) {
            assert(names_distinct(init)) by {
                assert forall|i: int, j: int| 0 <= i < j < init.len() implies (
                #[trigger] init[i]).name != (#[trigger] init[j]).name by {
                    assert(init[i] == s[i] && init[j] == s[j]);
                }
            }
            assert forall|i: int, j: int| 0 <= i < j < out.len() implies (#[trigger] out[i]).name
                != (#[trigger] out[j]).name by {
                if j < inner.len() {
                    assert(out[i] == inner[i] && out[j] == inner[j]);
                } else {
                    assert(out[i] == inner[i]);
                    let k = choose|k: int| 0 <= k < init.len() && init[k] == inner[i];
                    assert(s[k].name != s[s.len() - 1].name);
                }
            }
        }
    }
}

/// Where no monitor has the name, nothing is taken out.
pub proof fn lemma_without_name_absent(s: Seq<MonitorView>, name: Seq<char>)
    requires
        forall|i: int| 0 <= i < s.len() ==> (#[trigger] s[i]).name != name,
    ensures
        without_name(s, name) == s,
    decreases s.len(),
{
    if s.len() > 0 {
        let init = s.drop_last();
        assert forall|i: int| 0 <= i < init.len() implies (#[trigger] init[i]).name != name by {
            assert(init[i] == s[i]);
        }
        lemma_without_name_absent(init, name);
        assert(s[s.len() - 1].name != name);
        assert(init.push(s.last()) =~= s);
    }
}

/// Where exactly the monitor at `k` has the name, it is the one taken out.
pub proof fn lemma_without_name_at(s: Seq<MonitorView>, name: Seq<char>, k: int)
    requires
        0 <= k < s.len(),
        s[k].name == name,
        forall|i: int| 0 <= i < s.len() && i != k ==> (#[trigger] s[i]).name != name,
    ensures
        without_name(s, name) == s.remove(k),
    decreases s.len(),
{
    let init = s.drop_last();
    if k == s.len() - 1 {
        assert forall|i: int| 0 <= i < init.len() implies (#[trigger] init[i]).name != name by {
            assert(init[i] == s[i]);
        }
        lemma_without_name_absent(init, name);
        assert(s.remove(k) =~= init);
    } else {
        assert forall|i: int| 0 <= i < init.len() && i != k implies (#[trigger] init[i]).name
            != name by {
            assert(init[i] == s[i]);
        }
        assert(init[k] == s[k]);
        lemma_without_name_at(init, name, k);
        assert(s[s.len() - 1].name != name);
        assert(init.remove(k).push(s.last()) =~= s.remove(k));
    }
}

/// Entering a monitor keeps the identities distinct and adds at most one
/// monitor.
pub proof fn lemma_upsert(s: Seq<MonitorView>, m: MonitorView)
    requires
        names_distinct(s),
    ensures
        names_distinct(upsert(s, m)),
        upsert(s, m).len() <= s.len() + 1,
{
    lemma_without_name(s, m.name);
    let inner = without_name(s, m.name);
    let out = upsert(s, m);
    assert forall|i: int, j: int| 0 <= i < j < out.len() implies (#[trigger] out[i]).name != (
    #[trigger] out[j]).name by {
        assert(out[i] == inner[i]);
        if j < inner.len() {
            assert(out[j] == inner[j]);
        }
    }
}

/// What `registry_of` gives is a registry: its identities are distinct and it
/// holds no more monitors than the list.
pub proof fn lemma_registry_of(list: Seq<MonitorView>)
    ensures
        names_distinct(registry_of(list)),
        registry_of(list).len() <= list.len(),
    decreases list.len(),
{
    if list.len() > 0 {
        lemma_registry_of(list.drop_last());
        lemma_upsert(registry_of(list.drop_last()), list.last());
    }
}

/// The registry of a list holds, for each identity that occurs in the list,
/// the last monitor of that identity, and nothing else.
pub proof fn lemma_registry_holds_last(list: Seq<MonitorView>, m: MonitorView)
    ensures
        registry_of(list).contains(m) <==> exists|i: int|
            0 <= i < list.len() && #[trigger] list[i] == m && forall|j: int|
                i < j < list.len() ==> (#[trigger] list[j]).name != m.name,
    decreases list.len(),
{
    if list.len() > 0 {
        let init = list.drop_last();
        let last = list.last();
        let before = registry_of(init);
        let inner = without_name(before, last.name);
        let out = registry_of(list);
        lemma_registry_holds_last(init, m);
        lemma_without_name(before, last.name);
        if out.contains(m) {
            let k = choose|k: int| 0 <= k < out.len() && out[k] == m;
            if k < inner.len() {
                assert(inner[k] == m);
                assert(before.contains(m));
                let i = choose|i: int|
                    0 <= i < init.len() && #[trigger] init[i] == m && forall|j: int|
                        i < j < init.len() ==> (#[trigger] init[j]).name != m.name;
                assert(list[i] == m);
                assert forall|j: int| i < j < list.len() implies (#[trigger] list[j]).name
                    != m.name by {
                    if j < init.len() {
                        assert(init[j] == list[j]);
                    }
                }
            } else {
                assert(list[list.len() - 1] == m);
            }
        }
        if exists|i: int|
            0 <= i < list.len() && #[trigger] list[i] == m && forall|j: int|
                i < j < list.len() ==> (#[trigger] list[j]).name != m.name {
            let i = choose|i: int|
                0 <= i < list.len() && #[trigger] list[i] == m && forall|j: int|
                    i < j < list.len() ==> (#[trigger] list[j]).name != m.name;
            if i == list.len() - 1 {
                assert(out[out.len() - 1] == m);
            } else {
                assert(init[i] == m);
                assert forall|j: int| i < j < init.len() implies (#[trigger] init[j]).name
                    != m.name by {
                    assert(init[j] == list[j]);
                }
                assert(before.contains(m));
                assert(list[list.len() - 1].name != m.name);
                let b = choose|b: int| 0 <= b < before.len() && before[b] == m;
                assert(inner.contains(before[b]));
                let c = choose|c: int| 0 <= c < inner.len() && inner[c] == m;
                assert(out[c] == m);
            }
        }
    }
}

/// A list with distinct identities is its own registry.
pub proof fn lemma_registry_of_distinct(list: Seq<MonitorView>)
    requires
        names_distinct(list),
    ensures
        registry_of(list) == list,
    decreases list.len(),
{
    if list.len() > 0 {
        let init = list.drop_last();
        assert forall|i: int, j: int| 0 <= i < j < init.len() implies (#[trigger] init[i]).name != (
        #[trigger] init[j]).name by {
            assert(init[i] == list[i] && init[j] == list[j]);
        }
        lemma_registry_of_distinct(init);
        assert forall|i: int| 0 <= i < init.len() implies (#[trigger] init[i]).name
            != list.last().name by {
            assert(init[i] == list[i]);
            assert(list[i].name != list[list.len() - 1].name);
        }
        lemma_without_name_absent(init, list.last().name);
        assert(init.push(list.last()) =~= list);
    } else {
        assert(registry_of(list) =~= list);
    }
}

/// Saving a registry and loading what was saved gives the registry back.
pub proof fn lemma_save_load_round_trip(s: Seq<MonitorView>)
    requires
        well_formed(s),
    ensures
        load_result(CacheReadView::Document(cache_document(s))) == Ok::<
            Seq<MonitorView>,
            RegistryError,
        >(s),
{
    assert(document_monitors(cache_document(s)) =~= s);
    lemma_registry_of_distinct(s);
}

/// Two monitors of a registry share a slot of the cache document only if they
/// share their id.
pub proof fn lemma_cache_keys(s: Seq<MonitorView>, i: int, j: int)
    requires
        0 <= i < s.len(),
        0 <= j < s.len(),
    ensures
        cache_document(s)[i].key == cache_document(s)[j].key <==> s[i].id == s[j].id,
{
    lemma_parse_decimal_of_decimal(s[i].id as int);
    lemma_parse_decimal_of_decimal(s[j].id as int);
    if cache_document(s)[i].key == cache_document(s)[j].key {
        assert(parse_decimal(decimal(s[i].id as int)) == parse_decimal(decimal(s[j].id as int)));
    }
}

/// Putting a monitor into a list with ascending ids keeps them ascending, and
/// the list holds what it held and the monitor.
pub proof fn lemma_insert_by_id(sorted: Seq<MonitorView>, m: MonitorView)
    requires
        ascending_ids(sorted),
    ensures
        ascending_ids(insert_by_id(sorted, m)),
        insert_by_id(sorted, m).len() == sorted.len() + 1,
        forall|x: MonitorView| #[trigger]
            insert_by_id(sorted, m).contains(x) <==> sorted.contains(x) || x == m,
    decreases sorted.len(),
{
    let out = insert_by_id(sorted, m);
    if sorted.len() == 0 {
        assert(out[0] == m);
        assert forall|x: MonitorView| #[trigger] out.contains(x) <==> sorted.contains(x) || x
            == m by {
            if out.contains(x) {
                let k = choose|k: int| 0 <= k < out.len() && out[k] == x;
            }
        }
    } else if sorted.last().id <= m.id {
        assert forall|i: int, j: int| 0 <= i < j < out.len() implies (#[trigger] out[i]).id <= (
        #[trigger] out[j]).id by {
            assert(out[i] == sorted[i]);
            if j < sorted.len() {
                assert(out[j] == sorted[j]);
            } else {
                assert(sorted[i].id <= sorted[sorted.len() - 1].id);
            }
        }
        assert forall|x: MonitorView| #[trigger] out.contains(x) <==> sorted.contains(x) || x
            == m by {
            if out.contains(x) {
                let k = choose|k: int| 0 <= k < out.len() && out[k] == x;
                if k < sorted.len() {
                    assert(sorted[k] == x);
                }
            }
            if sorted.contains(x) {
                let k = choose|k: int| 0 <= k < sorted.len() && sorted[k] == x;
                assert(out[k] == x);
            }
            if x == m {
                assert(out[out.len() - 1] == x);
            }
        }
    } else {
        let init = sorted.drop_last();
        let last = sorted.last();
        assert(ascending_ids(init)) by {
            assert forall|i: int, j: int| 0 <= i < j < init.len() implies (#[trigger] init[i]).id
                <= (#[trigger] init[j]).id by {
                assert(init[i] == sorted[i] && init[j] == sorted[j]);
            }
        }
        lemma_insert_by_id(init, m);
        let inner = insert_by_id(init, m);
        assert forall|i: int, j: int| 0 <= i < j < out.len() implies (#[trigger] out[i]).id <= (
        #[trigger] out[j]).id by {
            assert(out[i] == inner[i]);
            if j < inner.len() {
                assert(out[j] == inner[j]);
            } else {
                assert(inner.contains(inner[i]));
                if inner[i] != m {
                    let k = choose|k: int| 0 <= k < init.len() && init[k] == inner[i];
                    assert(sorted[k].id <= sorted[sorted.len() - 1].id);
                }
            }
        }
        assert forall|x: MonitorView| #[trigger] out.contains(x) <==> sorted.contains(x) || x
            == m by {
            if out.contains(x) {
                let k = choose|k: int| 0 <= k < out.len() && out[k] == x;
                if k < inner.len() {
                    assert(inner.contains(inner[k]));
                    if x != m {
                        let a = choose|a: int| 0 <= a < init.len() && init[a] == x;
                        assert(sorted[a] == x);
                    }
                } else {
                    assert(sorted[sorted.len() - 1] == x);
                }
            }
            if sorted.contains(x) {
                let k = choose|k: int| 0 <= k < sorted.len() && sorted[k] == x;
                if k < init.len() {
                    assert(init[k] == x);
                    assert(inner.contains(x));
                    let a = choose|a: int| 0 <= a < inner.len() && inner[a] == x;
                    assert(out[a] == x);
                } else {
                    assert(out[out.len() - 1] == x);
                }
            }
            if x == m {
                assert(inner.contains(m));
                let a = choose|a: int| 0 <= a < inner.len() && inner[a] == x;
                assert(out[a] == x);
            }
        }
    }
}

/// Sorting by id gives the same monitors with ids that do not descend.
pub proof fn lemma_sorted_by_id(s: Seq<MonitorView>)
    ensures
        ascending_ids(sorted_by_id(s)),
        sorted_by_id(s).len() == s.len(),
        forall|x: MonitorView| #[trigger] sorted_by_id(s).contains(x) <==> s.contains(x),
    decreases s.len(),
{
    let out = sorted_by_id(s);
    if s.len() > 0 {
        let init = s.drop_last();
        lemma_sorted_by_id(init);
        lemma_insert_by_id(sorted_by_id(init), s.last());
        assert forall|x: MonitorView| #[trigger] out.contains(x) <==> s.contains(x) by {
            if s.contains(x) {
                let k = choose|k: int| 0 <= k < s.len() && s[k] == x;
                if k < init.len() {
                    assert(init[k] == x);
                    assert(init.contains(x));
                }
            }
            if init.contains(x) {
                let k = choose|k: int| 0 <= k < init.len() && init[k] == x;
                assert(s[k] == x);
            }
            if x == s.last() {
                assert(s[s.len() - 1] == x);
            }
        }
    } else {
        assert forall|x: MonitorView| #[trigger] out.contains(x) <==> s.contains(x) by {
            if out.contains(x) {
                let k = choose|k: int| 0 <= k < out.len() && out[k] == x;
            }
            if s.contains(x) {
                let k = choose|k: int| 0 <= k < s.len() && s[k] == x;
            }
        }
    }
}

/// Putting a monitor with a new id into a list with ascending ids keeps them
/// ascending.
proof fn lemma_insert_by_id_strict(sorted: Seq<MonitorView>, m: MonitorView)
    requires
        strictly_ascending_ids(sorted),
        forall|i: int| 0 <= i < sorted.len() ==> (#[trigger] sorted[i]).id != m.id,
    ensures
        strictly_ascending_ids(insert_by_id(sorted, m)),
    decreases sorted.len(),
{
    let out = insert_by_id(sorted, m);
    if sorted.len() == 0 {
    } else if sorted.last().id <= m.id {
        assert(sorted[sorted.len() - 1].id != m.id);
        assert forall|i: int, j: int| 0 <= i < j < out.len() implies (#[trigger] out[i]).id < (
        #[trigger] out[j]).id by {
            assert(out[i] == sorted[i]);
            if j < sorted.len() {
                assert(out[j] == sorted[j]);
            } else if i < sorted.len() - 1 {
                assert(sorted[i].id < sorted[sorted.len() - 1].id);
            }
        }
    } else {
        let init = sorted.drop_last();
        assert forall|i: int, j: int| 0 <= i < j < init.len() implies (#[trigger] init[i]).id < (
        #[trigger] init[j]).id by {
            assert(init[i] == sorted[i] && init[j] == sorted[j]);
        }
        assert forall|i: int| 0 <= i < init.len() implies (#[trigger] init[i]).id != m.id by {
            assert(init[i] == sorted[i]);
        }
        lemma_insert_by_id_strict(init, m);
        lemma_insert_by_id(init, m);
        let inner = insert_by_id(init, m);
        assert forall|i: int, j: int| 0 <= i < j < out.len() implies (#[trigger] out[i]).id < (
        #[trigger] out[j]).id by {
            assert(out[i] == inner[i]);
            if j < inner.len() {
                assert(out[j] == inner[j]);
            } else {
                assert(inner.contains(inner[i]));
                if inner[i] != m {
                    let k = choose|k: int| 0 <= k < init.len() && init[k] == inner[i];
                    assert(sorted[k].id < sorted[sorted.len() - 1].id);
                }
            }
        }
    }
}

/// Monitors with distinct ids come out of the sorting with ascending ids.
pub proof fn lemma_sorted_by_id_strict(s: Seq<MonitorView>)
    requires
        ids_distinct(s),
    ensures
        strictly_ascending_ids(sorted_by_id(s)),
    decreases s.len(),
{
    if s.len() > 0 {
        let init = s.drop_last();
        assert forall|i: int, j: int| 0 <= i < j < init.len() implies (#[trigger] init[i]).id != (
        #[trigger] init[j]).id by {
            assert(init[i] == s[i] && init[j] == s[j]);
        }
        lemma_sorted_by_id_strict(init);
        lemma_sorted_by_id(init);
        let sorted = sorted_by_id(init);
        assert forall|i: int| 0 <= i < sorted.len() implies (#[trigger] sorted[i]).id
            != s.last().id by {
            assert(sorted.contains(sorted[i]));
            let k = choose|k: int| 0 <= k < init.len() && init[k] == sorted[i];
            assert(s[k].id != s[s.len() - 1].id);
        }
        lemma_insert_by_id_strict(sorted, s.last());
    }
}

/// Two lists with ascending ids that hold the same monitors are the same list.
proof fn lemma_strict_ids_unique(a: Seq<MonitorView>, b: Seq<MonitorView>)
    requires
        strictly_ascending_ids(a),
        strictly_ascending_ids(b),
        same_monitors(a, b),
    ensures
        a == b,
    decreases a.len(),
{
    if a.len() == 0 {
        if b.len() > 0 {
            assert(b.contains(b[0]));
            assert(a.contains(b[0]));
        }
        assert(a =~= b);
    } else {
        let x = a.last();
        assert(a[a.len() - 1] == x);
        assert(a.contains(x));
        assert(b.contains(x));
        let kb = choose|k: int| 0 <= k < b.len() && b[k] == x;
        let y = b.last();
        assert(b[b.len() - 1] == y);
        assert(b.contains(y));
        assert(a.contains(y));
        let ka = choose|k: int| 0 <= k < a.len() && a[k] == y;
        assert(ka == a.len() - 1 || a[ka].id < a[a.len() - 1].id);
        assert(kb == b.len() - 1 || b[kb].id < b[b.len() - 1].id);
        assert(x == y);
        let a0 = a.drop_last();
        let b0 = b.drop_last();
        assert forall|i: int, j: int| 0 <= i < j < a0.len() implies (#[trigger] a0[i]).id < (
        #[trigger] a0[j]).id by {
            assert(a0[i] == a[i] && a0[j] == a[j]);
        }
        assert forall|i: int, j: int| 0 <= i < j < b0.len() implies (#[trigger] b0[i]).id < (
        #[trigger] b0[j]).id by {
            assert(b0[i] == b[i] && b0[j] == b[j]);
        }
        assert forall|z: MonitorView| a0.contains(z) <==> b0.contains(z) by {
            if a0.contains(z) {
                let i = choose|i: int| 0 <= i < a0.len() && a0[i] == z;
                assert(a[i] == z);
                assert(a[i].id < a[a.len() - 1].id);
                assert(a.contains(z));
                assert(b.contains(z));
                let j = choose|j: int| 0 <= j < b.len() && b[j] == z;
                assert(j < b.len() - 1);
                assert(b0[j] == z);
            }
            if b0.contains(z) {
                let i = choose|i: int| 0 <= i < b0.len() && b0[i] == z;
                assert(b[i] == z);
                assert(b[i].id < b[b.len() - 1].id);
                assert(b.contains(z));
                assert(a.contains(z));
                let j = choose|j: int| 0 <= j < a.len() && a[j] == z;
                assert(j < a.len() - 1);
                assert(a0[j] == z);
            }
        }
        lemma_strict_ids_unique(a0, b0);
        assert(a =~= a0.push(x));
        assert(b =~= b0.push(y));
    }
}

/// Where ids are distinct, the order by id does not depend on the order in
/// which the monitors stand: two lists that hold the same monitors are sorted
/// alike.
pub proof fn lemma_sorted_by_id_ignores_order(s: Seq<MonitorView>, t: Seq<MonitorView>)
    requires
        ids_distinct(s),
        ids_distinct(t),
        same_monitors(s, t),
    ensures
        sorted_by_id(s) == sorted_by_id(t),
{
    lemma_sorted_by_id_strict(s);
    lemma_sorted_by_id_strict(t);
    lemma_sorted_by_id(s);
    lemma_sorted_by_id(t);
    let a = sorted_by_id(s);
    let b = sorted_by_id(t);
    assert forall|x: MonitorView| a.contains(x) <==> b.contains(x) by {
        assert(a.contains(x) <==> s.contains(x));
        assert(b.contains(x) <==> t.contains(x));
    }
    lemma_strict_ids_unique(a, b);
}

/// Where `p` is the place behind the last monitor whose id is not greater,
/// `insert_by_id` puts the monitor at `p`.
proof fn lemma_insert_by_id_at(sorted: Seq<MonitorView>, m: MonitorView, p: int)
    requires
        0 <= p <= sorted.len(),
        forall|j: int| p <= j < sorted.len() ==> (#[trigger] sorted[j]).id > m.id,
        p > 0 ==> sorted[p - 1].id <= m.id,
    ensures
        insert_by_id(sorted, m) == sorted.insert(p, m),
    decreases sorted.len(),
{
    if sorted.len() == 0 {
        assert(sorted.insert(p, m) =~= seq![m]);
    } else if p == sorted.len() {
        assert(sorted.insert(p, m) =~= sorted.push(m));
    } else {
        let init = sorted.drop_last();
        assert(sorted[sorted.len() - 1].id > m.id);
        assert forall|j: int| p <= j < init.len() implies (#[trigger] init[j]).id > m.id by {
            assert(init[j] == sorted[j]);
        }
        if p > 0 {
            assert(init[p - 1] == sorted[p - 1]);
        }
        lemma_insert_by_id_at(init, m, p);
        assert(init.insert(p, m).push(sorted.last()) =~= sorted.insert(p, m));
    }
}

/// The directory of the cache below a home directory.
pub open spec fn cache_dir_path(home: Seq<char>) -> Seq<char> {
    home + "/.cache"@
}

/// Where the cache document is kept below a home directory.
pub open spec fn cache_file_path(home: Seq<char>) -> Seq<char> {
    cache_dir_path(home) + "/monitors.json"@
}

/// Path of the directory that holds the cache.
pub fn cache_dir(home: &str) -> (path: String)
    ensures
        path@ == cache_dir_path(home@),
{
    let mut path = String::from_str(home);
    path.append("/.cache");
    path
}

/// Path of the file that holds the cache document.
pub fn cache_file(home: &str) -> (path: String)
    ensures
        path@ == cache_file_path(home@),
{
    let mut path = cache_dir(home);
    path.append("/monitors.json");
    path
}

/// A copy of a monitor.
pub fn copy_monitor(monitor: &Monitor) -> (copy: Monitor)
    ensures
        copy == *monitor,
{
    Monitor {
        name: monitor.name.clone(),
        id: monitor.id,
        height: monitor.height,
        width: monitor.width,
        refresh_rate_bits: monitor.refresh_rate_bits,
    }
}

/// Index of the monitor named `name`, if there is one.
fn position_of(monitors: &Vec<Monitor>, name: &String) -> (r: Option<usize>)
    ensures
        match r {
            Some(k) => k < monitors.len() && monitors[k as int].name@ == name@,
            None => forall|i: int| 0 <= i < monitors.len() ==> (#[trigger] monitors[i]).name@
                != name@,
        },
{
    let mut i: usize = 0;
    while i < monitors.len()
        invariant
            i <= monitors.len(),
            forall|j: int| 0 <= j < i ==> (#[trigger] monitors[j]).name@ != name@,
        decreases monitors.len() - i,
    {
        if monitors[i].name == *name {
            return Some(i);
        }
        i += 1;
    }
    None
}

/// Enters a monitor: it takes the place of a monitor of its name and stands
/// last.
fn enter(monitors: &mut Vec<Monitor>, monitor: Monitor)
    requires
        names_distinct(old(monitors).deep_view()),
    ensures
        final(monitors).deep_view() == upsert(old(monitors).deep_view(), monitor@),
{
    let ghost s = monitors.deep_view();
    match position_of(monitors, &monitor.name) {
        Some(k) => {
            proof {
                assert(s[k as int].name == monitor@.name);
                assert forall|i: int| 0 <= i < s.len() && i != k implies (#[trigger] s[i]).name
                    != monitor@.name by {
                    if i < k {
                        assert(s[i].name != s[k as int].name);
                    } else {
                        assert(s[k as int].name != s[i].name);
                    }
                }
                lemma_without_name_at(s, monitor@.name, k as int);
            }
            monitors.remove(k);
            assert(monitors.deep_view() =~= s.remove(k as int));
        },
        None => {
            proof {
                assert forall|i: int| 0 <= i < s.len() implies (#[trigger] s[i]).name
                    != monitor@.name by {
                    assert(s[i] == monitors[i]@);
                }
                lemma_without_name_absent(s, monitor@.name);
            }
        },
    }
    let ghost inner = monitors.deep_view();
    monitors.push(monitor);
    assert(monitors.deep_view() =~= inner.push(monitor@));
}

/// The registry of the tracked monitors of `list`.
fn collect(list: &Vec<Monitor>) -> (monitors: Vec<Monitor>)
    ensures
        monitors.deep_view() == refreshed(list.deep_view()),
        well_formed(monitors.deep_view()),
{
    let ghost all = list.deep_view();
    let ghost first = first_monitors(all);
    let count: usize = if list.len() <= MAX_MONITORS {
        list.len()
    } else {
        MAX_MONITORS
    };
    let mut monitors: Vec<Monitor> = Vec::new();
    let mut i: usize = 0;
    assert(monitors.deep_view() =~= registry_of(first.take(0)));
    while i < count
        invariant
            i <= count <= list.len(),
            count == first.len(),
            all == list.deep_view(),
            first == first_monitors(all),
            monitors.deep_view() == registry_of(first.take(i as int)),
        decreases count - i,
    {
        proof {
            lemma_registry_of(first.take(i as int));
            assert(first.take(i + 1).drop_last() =~= first.take(i as int));
            assert(first.take(i + 1).last() == list[i as int]@);
        }
        enter(&mut monitors, copy_monitor(&list[i]));
        i += 1;
    }
    proof {
        assert(first.take(count as int) =~= first);
        lemma_registry_of(first);
    }
    monitors
}

impl MonitorConfig {
    /// The registry holds one monitor per identity and no more than
    /// `MAX_MONITORS` monitors.
    pub open spec fn wf(&self) -> bool {
        well_formed(self@)
    }

    /// An empty registry.
    pub fn new() -> (config: MonitorConfig)
        ensures
            config.wf(),
            config@ == Seq::<MonitorView>::empty(),
    {
        let config = MonitorConfig { monitors: Vec::new() };
        assert(config@ =~= Seq::<MonitorView>::empty());
        config
    }

    /// The monitors that the registry holds.
    pub fn monitors(&self) -> (monitors: &Vec<Monitor>)
        ensures
            monitors.deep_view() == self@,
            monitors.len() == self@.len(),
            forall|i: int| 0 <= i < monitors.len() ==> (#[trigger] monitors[i])@ == self@[i],
    {
        &self.monitors
    }

    /// Makes a registry of what reading the cache gave.
    ///
    /// Without a cache file the registry is not found, and a file that holds
    /// no registry is malformed: either way there is no cache. The monitors of
    /// a document are entered in the document's order, as those of a snapshot
    /// are.
    pub fn load(read: CacheRead) -> (loaded: Result<MonitorConfig, RegistryError>)
        ensures
            match loaded {
                Ok(config) => config.wf() && load_result(read@) == Ok::<
                    Seq<MonitorView>,
                    RegistryError,
                >(config@),
                Err(e) => load_result(read@) == Err::<Seq<MonitorView>, RegistryError>(e),
            },
    {
        match read {
            CacheRead::Missing => Err(RegistryError::NotFound),
            CacheRead::Corrupt => Err(RegistryError::Malformed),
            CacheRead::Document(entries) => {
                let mut list: Vec<Monitor> = Vec::new();
                let mut i: usize = 0;
                while i < entries.len()
                    invariant
                        i <= entries.len(),
                        list.len() == i,
                        forall|j: int| 0 <= j < i ==> (#[trigger] list[j])@ == entries[j]@.monitor,
                    decreases entries.len() - i,
                {
                    list.push(copy_monitor(&entries[i].monitor));
                    i += 1;
                }
                assert(list.deep_view() =~= document_monitors(entries.deep_view()));
                Ok(MonitorConfig { monitors: collect(&list) })
            },
        }
    }

    /// Lays the registry out as the cache document: one slot per monitor, in
    /// the registry's order, under the monitor's id in decimal notation.
    pub fn save(&self) -> (entries: Vec<CacheEntry>)
        ensures
            entries.deep_view() == cache_document(self@),
    {
        let mut entries: Vec<CacheEntry> = Vec::new();
        let mut i: usize = 0;
        while i < self.monitors.len()
            invariant
                i <= self.monitors.len(),
                entries.len() == i,
                forall|j: int|
                    0 <= j < i ==> (#[trigger] entries[j])@ == cache_document(self@)[j],
            decreases self.monitors.len() - i,
        {
            let monitor = copy_monitor(&self.monitors[i]);
            entries.push(CacheEntry { key: format_u32(monitor.id), monitor });
            i += 1;
        }
        assert(entries.deep_view() =~= cache_document(self@));
        entries
    }

    /// Refreshes the registry from the window manager's list of monitors.
    ///
    /// `snapshot` is the list, or nothing where the window manager gave none
    /// that could be used; the registry then stays as it is and the query is
    /// reported unavailable. Else the registry is emptied and the first
    /// `MAX_MONITORS` monitors of the list are entered; the result is the
    /// number of monitors that were left out.
    pub fn update_from_hyprland(&mut self, snapshot: Option<Vec<Monitor>>) -> (r: Result<
        usize,
        RegistryError,
    >)
        ensures
            match snapshot {
                Some(list) => final(self).wf() && final(self)@ == refreshed(list.deep_view()) && r
                    == Ok::<usize, RegistryError>(
                    (list.len() - first_monitors(list.deep_view()).len()) as usize,
                ),
                None => final(self)@ == old(self)@ && r == Err::<usize, RegistryError>(
                    RegistryError::QueryUnavailable,
                ),
            },
    {
        match snapshot {
            None => Err(RegistryError::QueryUnavailable),
            Some(list) => {
                let ignored: usize = if list.len() <= MAX_MONITORS {
                    0
                } else {
                    list.len() - MAX_MONITORS
                };
                self.monitors = collect(&list);
                Ok(ignored)
            },
        }
    }

    /// The identities of the monitors by ascending numeric id; monitors with
    /// the same id come in the registry's order.
    pub fn get_sorted_monitor_names(&self) -> (names: Vec<String>)
        ensures
            names.deep_view() == names_of(sorted_by_id(self@)),
            names.len() == self@.len(),
            forall|i: int| 0 <= i < names.len() ==> (#[trigger] names[i])@ == sorted_by_id(
                self@,
            )[i].name,
    {
        let ghost s = self@;
        let mut order: Vec<usize> = Vec::new();
        let mut n: usize = 0;
        assert(Seq::new(order@.len(), |k: int| s[order@[k] as int]) =~= sorted_by_id(s.take(0)));
        while n < self.monitors.len()
            invariant
                n <= self.monitors.len(),
                s == self@,
                order@.len() == n,
                forall|k: int| 0 <= k < order@.len() ==> (#[trigger] order@[k]) < n,
                Seq::new(order@.len(), |k: int| s[order@[k] as int]) == sorted_by_id(
                    s.take(n as int),
                ),
            decreases self.monitors.len() - n,
        {
            let id = self.monitors[n].id;
            let ghost sorted = Seq::new(order@.len(), |k: int| s[order@[k] as int]);
            let mut p: usize = order.len();
            while p > 0 && self.monitors[order[p - 1]].id > id
                invariant
                    p <= order@.len(),
                    n < self.monitors.len(),
                    s == self@,
                    id == s[n as int].id,
                    sorted == Seq::new(order@.len(), |k: int| s[order@[k] as int]),
                    forall|k: int| 0 <= k < order@.len() ==> (#[trigger] order@[k]) < n,
                    forall|j: int| p <= j < sorted.len() ==> (#[trigger] sorted[j]).id > id,
                decreases p,
            {
                assert(sorted[p - 1] == s[order@[p - 1] as int]);
                p -= 1;
            }
            proof {
                if p > 0 {
                    assert(sorted[p - 1] == s[order@[p - 1] as int]);
                }
                lemma_insert_by_id_at(sorted, s[n as int], p as int);
                assert(s.take(n + 1).drop_last() =~= s.take(n as int));
                assert(s.take(n + 1).last() == s[n as int]);
            }
            let ghost before = order@;
            order.insert(p, n);
            proof {
                assert(Seq::new(order@.len(), |k: int| s[order@[k] as int]) =~= sorted.insert(
                    p as int,
                    s[n as int],
                ));
            }
            n += 1;
        }
        assert(s.take(self.monitors.len() as int) =~= s);
        let ghost sorted = sorted_by_id(s);
        let mut names: Vec<String> = Vec::new();
        let mut k: usize = 0;
        while k < order.len()
            invariant
                k <= order@.len(),
                order@.len() == self.monitors.len(),
                s == self@,
                names.len() == k,
                forall|j: int| 0 <= j < order@.len() ==> (#[trigger] order@[j]) < self.monitors.len(),
                sorted == Seq::new(order@.len(), |j: int| s[order@[j] as int]),
                forall|j: int| 0 <= j < k ==> (#[trigger] names[j])@ == sorted[j].name,
            decreases order@.len() - k,
        {
            let i = order[k];
            assert(sorted[k as int] == s[order@[k as int] as int]);
            names.push(self.monitors[i].name.clone());
            k += 1;
        }
        assert(names.deep_view() =~= names_of(sorted));
        proof {
            lemma_sorted_by_id(s);
        }
        names
    }
}

} // verus!
