//! The saved state of the client, as far as running downloads change it.

use crate::context::TorrentCtx;

use vstd::prelude::*;

verus! {

/// What a download in the saved state is doing.
#[derive(Clone, Copy, Debug, PartialEq, Eq, Structural)]
pub enum DownloadState {
    Downloading,
    Seeding,
    /// Any other state, by number; a running download leaves it alone.
    Other(u32),
}

/// One download in the saved state.
#[derive(Debug)]
pub struct StateEntry {
    pub id: String,
    pub name: String,
    pub downloaded: u64,
    pub peers: usize,
    pub state: DownloadState,
}

/// How a running download stands.
#[derive(Clone, Copy, Debug, PartialEq, Eq, Structural)]
pub struct FlowStatus {
    pub downloaded: u64,
    pub peers: usize,
    pub complete: bool,
}

/// A running download: its id and how it stands.
#[derive(Debug)]
pub struct Flow {
    pub id: String,
    pub status: FlowStatus,
}

/// A [`StateEntry`] as mathematical values.
pub struct EntryView {
    pub id: Seq<char>,
    pub name: Seq<char>,
    pub downloaded: u64,
    pub peers: usize,
    pub state: DownloadState,
}

impl View for StateEntry {
    type V = EntryView;

    open spec fn view(&self) -> EntryView {
        EntryView {
            id: self.id@,
            name: self.name@,
            downloaded: self.downloaded,
            peers: self.peers,
            state: self.state,
        }
    }
}

impl EntryView {
    /// The entry with the figures of `status`; a download that is complete turns to seeding.
    pub open spec fn updated(self, status: FlowStatus) -> EntryView {
        EntryView {
            downloaded: status.downloaded,
            peers: status.peers,
            state: if self.finishes(status) {
                DownloadState::Seeding
            } else {
                self.state
            },
            ..self
        }
    }

    /// The entry is downloading and `status` says that it is complete.
    pub open spec fn finishes(self, status: FlowStatus) -> bool {
        status.complete && self.state is Downloading
    }
}

/// The saved entries, as mathematical values.
pub open spec fn entries_view(entries: Seq<StateEntry>) -> Seq<EntryView> {
    entries.map_values(|e: StateEntry| e@)
}

/// Position of the first entry, from `from` on, with id `id`.
pub open spec fn first_with(entries: Seq<EntryView>, id: Seq<char>, from: int) -> Option<int>
    decreases entries.len() - from,
{
    if from >= entries.len() {
        None
    } else if entries[from].id == id {
        Some(from)
    } else {
        first_with(entries, id, from + 1)
    }
}

/// The entries once the first `n` running downloads are recorded in them.
pub open spec fn recorded(entries: Seq<EntryView>, flows: Seq<Flow>, n: int) -> Seq<EntryView>
    decreases n,
{
    if n <= 0 {
        entries
    } else {
        let prev = recorded(entries, flows, n - 1);
        match first_with(prev, flows[n - 1].id@, 0) {
            Some(i) => prev.update(i, prev[i].updated(flows[n - 1].status)),
            None => prev,
        }
    }
}

/// Positions of the entries that turn to seeding as the first `n` running downloads are recorded.
pub open spec fn finished(entries: Seq<EntryView>, flows: Seq<Flow>, n: int) -> Seq<usize>
    decreases n,
{
    if n <= 0 {
        seq![]
    } else {
        let prev = recorded(entries, flows, n - 1);
        match first_with(prev, flows[n - 1].id@, 0) {
            Some(i) if prev[i].finishes(flows[n - 1].status) => finished(
                entries,
                flows,
                n - 1,
            ).push(i as usize),
            _ => finished(entries, flows, n - 1),
        }
    }
}

impl TorrentCtx {
    /// How the download stands.
    pub fn status(&self) -> (s: FlowStatus)
        requires
            self.wf(),
        ensures
            s.downloaded == self@.downloaded,
            s.peers == self@.peer_count,
            s.complete == self@.complete(),
    {
        FlowStatus {
            downloaded: self.downloaded,
            peers: self.peer_count,
            complete: self.is_complete(),
        }
    }
}

/// Position of the first entry with id `id`.
fn find_entry(entries: &Vec<StateEntry>, id: &String) -> (r: Option<usize>)
    ensures
        r is Some <==> first_with(entries_view(entries@), id@, 0) is Some,
        r matches Some(i) ==> i < entries@.len() && first_with(entries_view(entries@), id@, 0)
            == Some(i as int),
{
    let ghost view = entries_view(entries@);
    let mut i: usize = 0;
    while i < entries.len()
        invariant
            i <= entries@.len(),
            view == entries_view(entries@),
            first_with(view, id@, 0) == first_with(view, id@, i as int),
        decreases entries@.len() - i,
    {
        if entries[i].id == *id {
            assert(view[i as int].id == id@);
            return Some(i);
        }
        assert(view[i as int].id != id@);
        i = i + 1;
    }
    None
}

/// Records how the running downloads stand in the saved entries; a flow without an entry is
/// passed over. Returns the positions of the entries that turned to seeding.
pub fn record_flows(entries: &mut Vec<StateEntry>, flows: &[Flow]) -> (done: Vec<usize>)
    ensures
        entries_view(final(entries)@) == recorded(
            entries_view(old(entries)@),
            flows@,
            flows@.len() as int,
        ),
        done@ == finished(entries_view(old(entries)@), flows@, flows@.len() as int),
{
    let ghost before = entries_view(entries@);
    let mut done: Vec<usize> = Vec::new();
    let mut n: usize = 0;
    while n < flows.len()
        invariant
            n <= flows@.len(),
            before == entries_view(old(entries)@),
            entries_view(entries@) == recorded(before, flows@, n as int),
            done@ == finished(before, flows@, n as int),
        decreases flows@.len() - n,
    {
        let ghost prev = entries_view(entries@);
        let status: FlowStatus = flows[n].status;
        match find_entry(entries, &flows[n].id) {
            Some(i) => {
                entries[i].downloaded = status.downloaded;
                entries[i].peers = status.peers;
                if status.complete && entries[i].state == DownloadState::Downloading {
                    entries[i].state = DownloadState::Seeding;
                    done.push(i);
                }
                assert(entries_view(entries@) =~= prev.update(
                    i as int,
                    prev[i as int].updated(status),
                ));
            },
            None => {},
        }
        n = n + 1;
    }
    done
}

/// Recording adds, drops and renames no entry.
proof fn lemma_recorded_shape(entries: Seq<EntryView>, flows: Seq<Flow>, n: int)
    ensures
        recorded(entries, flows, n).len() == entries.len(),
        forall|i: int|
            0 <= i < entries.len() ==> (#[trigger] recorded(entries, flows, n)[i]).id
                == entries[i].id && recorded(entries, flows, n)[i].name == entries[i].name,
    decreases n,
{
    if n > 0 {
        lemma_recorded_shape(entries, flows, n - 1);
        let prev = recorded(entries, flows, n - 1);
        lemma_first_with(prev, flows[n - 1].id@, 0);
    }
}

/// What [`first_with`] finds.
proof fn lemma_first_with(entries: Seq<EntryView>, id: Seq<char>, from: int)
    requires
        0 <= from,
    ensures
        first_with(entries, id, from) matches Some(i) ==> from <= i < entries.len()
            && entries[i].id == id,
    decreases entries.len() - from,
{
    if from < entries.len() && entries[from].id != id {
        lemma_first_with(entries, id, from + 1);
    }
}

/// Only a download turns to seeding, and only when a running download with its id is complete;
/// no state changes otherwise. No entry is added, dropped or renamed.
pub proof fn law_seeding_means_complete(entries: Seq<EntryView>, flows: Seq<Flow>, n: int, i: int)
    requires
        0 <= n <= flows.len(),
        0 <= i < entries.len(),
    ensures
        recorded(entries, flows, n).len() == entries.len(),
        recorded(entries, flows, n)[i].id == entries[i].id,
        recorded(entries, flows, n)[i].name == entries[i].name,
        recorded(entries, flows, n)[i].state != entries[i].state ==> {
            &&& entries[i].state is Downloading
            &&& recorded(entries, flows, n)[i].state is Seeding
            &&& exists|k: int|
                0 <= k < n && #[trigger] flows[k].id@ == entries[i].id && flows[k].status.complete
        },
    decreases n,
{
    lemma_recorded_shape(entries, flows, n);
    if n > 0 {
        law_seeding_means_complete(entries, flows, n - 1, i);
        let prev = recorded(entries, flows, n - 1);
        lemma_first_with(prev, flows[n - 1].id@, 0);
        if prev[i].state != entries[i].state {
            let k = choose|k: int|
                0 <= k < n - 1 && #[trigger] flows[k].id@ == entries[i].id
                    && flows[k].status.complete;
            assert(flows[k].id@ == entries[i].id);
        }
    }
}

/// An entry that no running download has the id of is left as it is.
pub proof fn law_others_untouched(entries: Seq<EntryView>, flows: Seq<Flow>, n: int, i: int)
    requires
        0 <= n <= flows.len(),
        0 <= i < entries.len(),
        forall|k: int| 0 <= k < n ==> (#[trigger] flows[k]).id@ != entries[i].id,
    ensures
        recorded(entries, flows, n)[i] == entries[i],
    decreases n,
{
    if n > 0 {
        law_others_untouched(entries, flows, n - 1, i);
        lemma_recorded_shape(entries, flows, n - 1);
        lemma_first_with(recorded(entries, flows, n - 1), flows[n - 1].id@, 0);
        assert(flows[n - 1].id@ != entries[i].id);
    }
}

/// An entry shows the figures of the running download that was recorded last for it.
pub proof fn law_last_figures_stand(entries: Seq<EntryView>, flows: Seq<Flow>, n: int, i: int)
    requires
        0 < n <= flows.len(),
        first_with(entries, flows[n - 1].id@, 0) == Some(i),
    ensures
        recorded(entries, flows, n)[i].downloaded == flows[n - 1].status.downloaded,
        recorded(entries, flows, n)[i].peers == flows[n - 1].status.peers,
{
    let prev = recorded(entries, flows, n - 1);
    lemma_recorded_shape(entries, flows, n - 1);
    lemma_first_with(entries, flows[n - 1].id@, 0);
    lemma_same_ids(entries, prev, flows[n - 1].id@, 0);
}

proof fn lemma_same_ids(a: Seq<EntryView>, b: Seq<EntryView>, id: Seq<char>, from: int)
    requires
        0 <= from,
        a.len() == b.len(),
        forall|i: int| 0 <= i < a.len() ==> (#[trigger] b[i]).id == a[i].id,
    ensures
        first_with(a, id, from) == first_with(b, id, from),
    decreases a.len() - from,
{
    if from < a.len() {
        assert(b[from].id == a[from].id);
        lemma_same_ids(a, b, id, from + 1);
    }
}

/// The entry of an id is the first one that has it; an id that no entry has, has none.
pub proof fn law_first_entry(entries: Seq<EntryView>, id: Seq<char>)
    ensures
        match first_with(entries, id, 0) {
            Some(i) => {
                &&& 0 <= i < entries.len()
                &&& entries[i].id == id
                &&& forall|j: int| 0 <= j < i ==> (#[trigger] entries[j]).id != id
            },
            None => forall|j: int| 0 <= j < entries.len() ==> (#[trigger] entries[j]).id != id,
        },
{
    lemma_first_is_first(entries, id, 0);
}

proof fn lemma_first_is_first(entries: Seq<EntryView>, id: Seq<char>, from: int)
    requires
        0 <= from <= entries.len(),
    ensures
        match first_with(entries, id, from) {
            Some(i) => {
                &&& from <= i < entries.len()
                &&& entries[i].id == id
                &&& forall|j: int| from <= j < i ==> (#[trigger] entries[j]).id != id
            },
            None => forall|j: int| from <= j < entries.len() ==> (#[trigger] entries[j]).id != id,
        },
    decreases entries.len() - from,
{
    if from < entries.len() && entries[from].id != id {
        lemma_first_is_first(entries, id, from + 1);
    }
}

/// Entry `i` is the first with its id.
pub open spec fn leads(entries: Seq<EntryView>, i: int) -> bool {
    &&& 0 <= i < entries.len()
    &&& forall|j: int| 0 <= j < i ==> (#[trigger] entries[j]).id != entries[i].id
}

/// The first entry with an id is found, also once other flows were recorded.
proof fn lemma_leader_found(entries: Seq<EntryView>, flows: Seq<Flow>, n: int, i: int)
    requires
        leads(entries, i),
    ensures
        first_with(recorded(entries, flows, n), entries[i].id, 0) == Some(i),
{
    let now = recorded(entries, flows, n);
    lemma_recorded_shape(entries, flows, n);
    lemma_first_is_first(now, entries[i].id, 0);
    assert(now[i].id == entries[i].id);
    match first_with(now, entries[i].id, 0) {
        Some(k) => {
            assert(now[k].id == entries[k].id);
        },
        None => {},
    }
}

/// A download that is complete turns to seeding: the first entry with the id of a running download
/// that is complete, if it was downloading, is seeding afterwards, whatever its other figures, and
/// its position is returned.
pub proof fn law_complete_turns_to_seeding(
    entries: Seq<EntryView>,
    flows: Seq<Flow>,
    n: int,
    k: int,
    i: int,
)
    requires
        0 <= k < n <= flows.len(),
        leads(entries, i),
        entries.len() <= usize::MAX,
        flows[k].id@ == entries[i].id,
        flows[k].status.complete,
        entries[i].state is Downloading,
    ensures
        recorded(entries, flows, n)[i].state is Seeding,
        finished(entries, flows, n).contains(i as usize),
    decreases n,
{
    let prev = recorded(entries, flows, n - 1);
    lemma_recorded_shape(entries, flows, n - 1);
    lemma_recorded_shape(entries, flows, n);
    lemma_first_is_first(prev, flows[n - 1].id@, 0);
    law_seeding_means_complete(entries, flows, n - 1, i);
    let list = finished(entries, flows, n - 1);
    let after = finished(entries, flows, n);
    if k < n - 1 {
        law_complete_turns_to_seeding(entries, flows, n - 1, k, i);
        let at = choose|at: int| 0 <= at < list.len() && list[at] == i as usize;
        assert(after[at] == i as usize);
    } else {
        lemma_leader_found(entries, flows, n - 1, i);
        if prev[i].state is Downloading {
            assert(prev[i].finishes(flows[k].status));
            assert(after.last() == i as usize);
            assert(after[after.len() - 1] == i as usize);
        } else {
            lemma_seeding_is_listed(entries, flows, n - 1, i);
            let at = choose|at: int| 0 <= at < list.len() && list[at] == i as usize;
            assert(after =~= list);
        }
    }
}

/// What turned to seeding is listed.
proof fn lemma_seeding_is_listed(entries: Seq<EntryView>, flows: Seq<Flow>, n: int, i: int)
    requires
        0 <= n <= flows.len(),
        0 <= i < entries.len(),
        entries[i].state is Downloading,
        !(recorded(entries, flows, n)[i].state is Downloading),
    ensures
        finished(entries, flows, n).contains(i as usize),
    decreases n,
{
    if n > 0 {
        let prev = recorded(entries, flows, n - 1);
        let list = finished(entries, flows, n - 1);
        let after = finished(entries, flows, n);
        lemma_recorded_shape(entries, flows, n - 1);
        lemma_first_is_first(prev, flows[n - 1].id@, 0);
        if prev[i].state is Downloading {
            assert(after.last() == i as usize);
            assert(after[after.len() - 1] == i as usize);
        } else {
            lemma_seeding_is_listed(entries, flows, n - 1, i);
            let at = choose|at: int| 0 <= at < list.len() && list[at] == i as usize;
            assert(after[at] == i as usize);
        }
    }
}

/// Only what turned from downloading to seeding is listed, and nothing twice.
pub proof fn law_listed_turned_to_seeding(
    entries: Seq<EntryView>,
    flows: Seq<Flow>,
    n: int,
    at: int,
)
    requires
        0 <= n <= flows.len(),
        entries.len() <= usize::MAX,
        0 <= at < finished(entries, flows, n).len(),
    ensures
        ({
            let i = finished(entries, flows, n)[at] as int;
            &&& 0 <= i < entries.len()
            &&& entries[i].state is Downloading
            &&& recorded(entries, flows, n)[i].state is Seeding
            &&& forall|other: int|
                0 <= other < finished(entries, flows, n).len() && other != at
                    ==> #[trigger] finished(entries, flows, n)[other] != i
        }),
    decreases n,
{
    if n > 0 {
        let prev = recorded(entries, flows, n - 1);
        let list = finished(entries, flows, n - 1);
        let after = finished(entries, flows, n);
        lemma_recorded_shape(entries, flows, n - 1);
        lemma_first_is_first(prev, flows[n - 1].id@, 0);
        let i = after[at] as int;
        if at < list.len() {
            law_listed_turned_to_seeding(entries, flows, n - 1, at);
            assert(list[at] == after[at]);
            assert forall|other: int| 0 <= other < after.len() && other != at implies #[trigger]
            after[other] != i by {
                if other < list.len() {
                    assert(list[other] == after[other]);
                }
            }
        } else {
            law_seeding_means_complete(entries, flows, n - 1, i);
            assert forall|other: int| 0 <= other < after.len() && other != at implies #[trigger]
            after[other] != i by {
                law_listed_turned_to_seeding(entries, flows, n - 1, other);
                assert(list[other] == after[other]);
            }
        }
    }
}

/// An entry that is not the first with its id is left as it is.
pub proof fn law_only_the_first_is_recorded(
    entries: Seq<EntryView>,
    flows: Seq<Flow>,
    n: int,
    i: int,
)
    requires
        0 <= n <= flows.len(),
        0 <= i < entries.len(),
        !leads(entries, i),
    ensures
        recorded(entries, flows, n)[i] == entries[i],
    decreases n,
{
    if n > 0 {
        law_only_the_first_is_recorded(entries, flows, n - 1, i);
        let prev = recorded(entries, flows, n - 1);
        lemma_recorded_shape(entries, flows, n - 1);
        lemma_first_is_first(prev, flows[n - 1].id@, 0);
        let j = choose|j: int| 0 <= j < i && (#[trigger] entries[j]).id == entries[i].id;
        assert(prev[j].id == entries[j].id);
    }
}

/// The figures of the first entry with an id are those of the running download with that id that
/// comes last, whatever other downloads follow it.
pub proof fn law_figures_of_the_last_flow(
    entries: Seq<EntryView>,
    flows: Seq<Flow>,
    n: int,
    k: int,
    i: int,
)
    requires
        0 <= k < n <= flows.len(),
        leads(entries, i),
        flows[k].id@ == entries[i].id,
        forall|j: int| k < j < n ==> (#[trigger] flows[j]).id@ != entries[i].id,
    ensures
        recorded(entries, flows, n)[i].downloaded == flows[k].status.downloaded,
        recorded(entries, flows, n)[i].peers == flows[k].status.peers,
    decreases n,
{
    lemma_recorded_shape(entries, flows, n - 1);
    if k < n - 1 {
        law_figures_of_the_last_flow(entries, flows, n - 1, k, i);
        lemma_first_is_first(recorded(entries, flows, n - 1), flows[n - 1].id@, 0);
        assert(flows[n - 1].id@ != entries[i].id);
    } else {
        lemma_leader_found(entries, flows, n - 1, i);
    }
}

} // verus!
