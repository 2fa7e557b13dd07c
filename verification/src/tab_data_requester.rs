//! The tab data that the browser extension sends, and how a message of the
//! extension becomes the next snapshot of the [`Status`].
use crate::keys::{lemma_greatest_exists, lemma_last_exists, sorted_keys, strictly_ascending};
use crate::process::{Pid, ProcessInfo, ProcessTable};
use crate::process_identifier::{scan_renderers, scanned};
use crate::status::{replaced, Status, StatusView};
use std::collections::{HashMap, HashSet};
use vstd::prelude::*;

verus! {

/// The identifier that the browser itself gives to the process of a tab.
pub type BrowserInnerPid = u64;

/// A point in time on the extension's clock, in milliseconds.
pub type Timestamp = u64;

#[derive(Clone, Debug)]
pub struct MutedInfo {
    pub muted: bool,
}

/// One tab as the extension reports it.
#[derive(Clone, Debug)]
pub struct TabInfo {
    pub active: bool,
    pub audible: bool,
    pub auto_discardable: bool,
    pub discarded: bool,
    pub fav_icon_url: Option<String>,
    pub group_id: i32,
    pub height: u32,
    pub highlighted: bool,
    pub id: u64,
    pub incognito: bool,
    pub index: u32,
    pub last_accessed: Timestamp,
    pub muted_info: MutedInfo,
    pub pinned: bool,
    pub selected: bool,
    pub status: String,
    pub title: String,
    pub url: String,
    pub width: u32,
    pub window_id: usize,
    pub browser_inner_pid: BrowserInnerPid,
}

/// One message of the extension: its clock and all tabs it knows.
#[derive(Clone, Debug)]
pub struct TabData {
    pub timestamp: Timestamp,
    pub tab_infos: Vec<TabInfo>,
}

/// The tab that runs in `pid` reports the renderer `id`.
pub open spec fn tab_hosts(tabs: Map<Pid, TabInfo>, pid: Pid, id: BrowserInnerPid) -> bool {
    tabs.contains_key(pid) && tabs[pid].browser_inner_pid == id
}

/// The renderers that the tabs of a snapshot report.
pub open spec fn inner_pids_of(tabs: Map<Pid, TabInfo>) -> Set<BrowserInnerPid> {
    Set::new(|id: BrowserInnerPid| exists|pid: Pid| tab_hosts(tabs, pid, id))
}

/// The received tabs run in the renderers of the snapshot `tabs`: each of
/// them reports a renderer of the snapshot, and they are as many as the
/// snapshot has renderers.
pub open spec fn same_tabs(tabs: Map<Pid, TabInfo>, received: Seq<TabInfo>) -> bool {
    &&& forall|i: int|
        0 <= i < received.len() ==> inner_pids_of(tabs).contains(
            #[trigger] received[i].browser_inner_pid,
        )
    &&& received.len() == inner_pids_of(tabs).len()
}

/// `pid` holds a tab of the renderer `id`, and no greater process does.
pub open spec fn is_greatest_tab_host(
    tabs: Map<Pid, TabInfo>,
    pid: Pid,
    id: BrowserInnerPid,
) -> bool {
    &&& tab_hosts(tabs, pid, id)
    &&& forall|other: Pid| tab_hosts(tabs, other, id) ==> other <= pid
}

/// The process of each renderer as the snapshot `tabs` has it.
pub open spec fn carried(tabs: Map<Pid, TabInfo>) -> Map<BrowserInnerPid, Pid> {
    Map::new(
        |id: BrowserInnerPid| exists|pid: Pid| tab_hosts(tabs, pid, id),
        |id: BrowserInnerPid| choose|pid: Pid| is_greatest_tab_host(tabs, pid, id),
    )
}

/// `tab` runs in the live process `pid`, going by the renderers in `pids`.
pub open spec fn resolves_to(
    tab: TabInfo,
    pids: Map<BrowserInnerPid, Pid>,
    system: Map<Pid, ProcessInfo>,
    pid: Pid,
) -> bool {
    &&& pids.contains_key(tab.browser_inner_pid)
    &&& pids[tab.browser_inner_pid] == pid
    &&& system.contains_key(pid)
}

/// `i` is the last of the received tabs that runs in `pid`.
pub open spec fn is_last_in(
    received: Seq<TabInfo>,
    pids: Map<BrowserInnerPid, Pid>,
    system: Map<Pid, ProcessInfo>,
    pid: Pid,
    i: int,
) -> bool {
    &&& 0 <= i < received.len()
    &&& resolves_to(received[i], pids, system, pid)
    &&& forall|j: int| i < j < received.len() ==> !resolves_to(received[j], pids, system, pid)
}

/// The snapshot that the received tabs make: each live process that a
/// received tab runs in, with the last such tab. Tabs of unknown renderers
/// and of dead processes are left out.
pub open spec fn joined(
    received: Seq<TabInfo>,
    pids: Map<BrowserInnerPid, Pid>,
    system: Map<Pid, ProcessInfo>,
) -> Map<Pid, TabInfo> {
    Map::new(
        |pid: Pid|
            exists|i: int| 0 <= i < received.len() && resolves_to(received[i], pids, system, pid),
        |pid: Pid| received[choose|i: int| is_last_in(received, pids, system, pid, i)],
    )
}

/// The renderers to go by when `received` arrives: those of the snapshot
/// while the tabs are the same, else those that a scan of `system` finds.
pub open spec fn renderers_for(
    tabs: Map<Pid, TabInfo>,
    received: Seq<TabInfo>,
    system: Map<Pid, ProcessInfo>,
    browser_name: Seq<char>,
) -> Map<BrowserInnerPid, Pid> {
    if same_tabs(tabs, received) {
        carried(tabs)
    } else {
        scanned(system, browser_name)
    }
}

/// The status after the tabs `received`, sent at `timestamp`, have been
/// taken in, with `system` as the processes alive at that moment.
pub open spec fn taken_in(
    before: StatusView,
    received: Seq<TabInfo>,
    timestamp: Timestamp,
    system: Map<Pid, ProcessInfo>,
    browser_name: Seq<char>,
) -> StatusView {
    let pids = renderers_for(before.tab_infos, received, system, browser_name);
    replaced(
        StatusView { system, ..before },
        joined(received, pids, system),
        timestamp,
        browser_name,
    )
}

/// The process that a snapshot carries for a renderer holds a tab of that
/// renderer, and no greater process does.
pub proof fn lemma_carried_is_greatest_tab_host(tabs: Map<Pid, TabInfo>, id: BrowserInnerPid)
    requires
        carried(tabs).contains_key(id),
    ensures
        is_greatest_tab_host(tabs, carried(tabs)[id], id),
{
    let holds = |pid: Pid| tab_hosts(tabs, pid, id);
    let some = choose|pid: Pid| tab_hosts(tabs, pid, id);
    assert(some <= u32::MAX && holds(some));
    lemma_greatest_exists(holds, u32::MAX);
    let g = choose|g: Pid|
        g <= u32::MAX && #[trigger] holds(g) && forall|other: Pid|
            other <= u32::MAX && #[trigger] holds(other) ==> other <= g;
    assert forall|other: Pid| tab_hosts(tabs, other, id) implies other <= g by {
        assert(other <= u32::MAX && holds(other));
    }
    assert(is_greatest_tab_host(tabs, g, id));
}

/// The tab that a join files under a process is the last received tab that
/// runs in it.
pub proof fn lemma_joined_is_last(
    received: Seq<TabInfo>,
    pids: Map<BrowserInnerPid, Pid>,
    system: Map<Pid, ProcessInfo>,
    pid: Pid,
)
    requires
        joined(received, pids, system).contains_key(pid),
    ensures
        exists|last: int|
            is_last_in(received, pids, system, pid, last) && joined(received, pids, system)[pid]
                == received[last],
{
    let holds = |i: int| resolves_to(received[i], pids, system, pid);
    let some = choose|i: int| 0 <= i < received.len() && resolves_to(received[i], pids, system, pid);
    assert(0 <= some < received.len() && holds(some));
    lemma_last_exists(holds, received.len() as int);
    let last = choose|last: int|
        0 <= last < received.len() && #[trigger] holds(last) && forall|j: int|
            last < j < received.len() ==> !#[trigger] holds(j);
    assert forall|j: int| last < j < received.len() implies !resolves_to(
        received[j],
        pids,
        system,
        pid,
    ) by {
        assert(!holds(j));
    }
    assert(is_last_in(received, pids, system, pid, last));
    let chosen = choose|i: int| is_last_in(received, pids, system, pid, i);
    assert(is_last_in(received, pids, system, pid, chosen));
}

/// Whether the received tabs run in the renderers of the snapshot `tabs`.
pub fn has_same_tabs(tabs: &HashMap<Pid, TabInfo>, received: &Vec<TabInfo>) -> (same: bool)
    ensures
        same == same_tabs(tabs@, received@),
{
    broadcast use vstd::std_specs::hash::group_hash_axioms;

    let pids = sorted_keys(tabs);
    let mut known: HashSet<BrowserInnerPid> = HashSet::new();
    let mut i: usize = 0;
    while i < pids.len()
        invariant
            i <= pids.len(),
            forall|k: Pid| pids@.contains(k) <==> tabs@.contains_key(k),
            forall|id: BrowserInnerPid|
                known@.contains(id) <==> exists|j: int|
                    0 <= j < i && tab_hosts(tabs@, pids@[j], id),
        decreases pids.len() - i,
    {
        let pid = pids[i];
        assert(pids@.contains(pid));
        let ghost before = known@;
        match tabs.get(&pid) {
            Some(tab) => {
                known.insert(tab.browser_inner_pid);
            },
            None => {},
        }
        proof {
            assert forall|id: BrowserInnerPid|
                known@.contains(id) <==> exists|j: int|
                    0 <= j < i + 1 && tab_hosts(tabs@, pids@[j], id) by {
                if before.contains(id) {
                    let j = choose|j: int| 0 <= j < i && tab_hosts(tabs@, pids@[j], id);
                    assert(0 <= j < i + 1 && tab_hosts(tabs@, pids@[j], id));
                }
                if tabs@[pid].browser_inner_pid == id {
                    assert(tab_hosts(tabs@, pids@[i as int], id));
                }
                if exists|j: int| 0 <= j < i + 1 && tab_hosts(tabs@, pids@[j], id) {
                    let j = choose|j: int| 0 <= j < i + 1 && tab_hosts(tabs@, pids@[j], id);
                    if j < i {
                        assert(before.contains(id));
                    }
                }
            }
        }
        i += 1;
    }
    proof {
        assert forall|id: BrowserInnerPid| known@.contains(id) <==> inner_pids_of(tabs@).contains(
            id,
        ) by {
            if inner_pids_of(tabs@).contains(id) {
                let pid = choose|pid: Pid| tab_hosts(tabs@, pid, id);
                assert(pids@.contains(pid));
                let j = choose|j: int| 0 <= j < pids@.len() && pids@[j] == pid;
                assert(tab_hosts(tabs@, pids@[j], id));
            }
        }
        assert(known@ =~= inner_pids_of(tabs@));
    }
    if received.len() != known.len() {
        return false;
    }
    let mut n: usize = 0;
    while n < received.len()
        invariant
            n <= received.len(),
            known@ == inner_pids_of(tabs@),
            forall|j: int|
                0 <= j < n ==> inner_pids_of(tabs@).contains(
                    #[trigger] received@[j].browser_inner_pid,
                ),
        decreases received.len() - n,
    {
        if !known.contains(&received[n].browser_inner_pid) {
            return false;
        }
        n += 1;
    }
    true
}

/// Maps the renderer of each tab of a snapshot to the process of the tab.
pub fn carry_renderers(tabs: &HashMap<Pid, TabInfo>) -> (found: HashMap<BrowserInnerPid, Pid>)
    ensures
        found@ == carried(tabs@),
{
    broadcast use vstd::std_specs::hash::group_hash_axioms;

    let pids = sorted_keys(tabs);
    let mut found: HashMap<BrowserInnerPid, Pid> = HashMap::new();
    let mut i: usize = 0;
    while i < pids.len()
        invariant
            i <= pids.len(),
            strictly_ascending(pids@),
            forall|k: Pid| pids@.contains(k) <==> tabs@.contains_key(k),
            forall|id: BrowserInnerPid| #[trigger]
                found@.contains_key(id) <==> exists|j: int|
                    0 <= j < i && tab_hosts(tabs@, pids@[j], id),
            forall|id: BrowserInnerPid| #[trigger]
                found@.contains_key(id) ==> exists|j: int|
                    0 <= j < i && pids@[j] == found@[id] && tab_hosts(tabs@, pids@[j], id)
                        && forall|l: int| j < l < i ==> !tab_hosts(tabs@, pids@[l], id),
        decreases pids.len() - i,
    {
        let pid = pids[i];
        assert(pids@.contains(pid));
        let ghost before = found@;
        match tabs.get(&pid) {
            Some(tab) => {
                found.insert(tab.browser_inner_pid, pid);
            },
            None => {},
        }
        let ghost renderer = tabs@[pid].browser_inner_pid;
        proof {
            assert forall|id: BrowserInnerPid| #[trigger]
                found@.contains_key(id) <==> exists|j: int|
                    0 <= j < i + 1 && tab_hosts(tabs@, pids@[j], id) by {
                if before.contains_key(id) {
                    let j = choose|j: int| 0 <= j < i && tab_hosts(tabs@, pids@[j], id);
                    assert(0 <= j < i + 1 && tab_hosts(tabs@, pids@[j], id));
                }
                if renderer == id {
                    assert(tab_hosts(tabs@, pids@[i as int], id));
                }
                if exists|j: int| 0 <= j < i + 1 && tab_hosts(tabs@, pids@[j], id) {
                    let j = choose|j: int| 0 <= j < i + 1 && tab_hosts(tabs@, pids@[j], id);
                    if j < i {
                        assert(before.contains_key(id));
                    }
                }
            }
            assert forall|id: BrowserInnerPid| #[trigger] found@.contains_key(id) implies exists|
                j: int,
            |
                0 <= j < i + 1 && pids@[j] == found@[id] && tab_hosts(tabs@, pids@[j], id)
                    && forall|l: int| j < l < i + 1 ==> !tab_hosts(tabs@, pids@[l], id) by {
                if renderer == id {
                    let j = i as int;
                    assert(0 <= j < i + 1 && pids@[j] == found@[id] && tab_hosts(
                        tabs@,
                        pids@[j],
                        id,
                    ) && forall|l: int| j < l < i + 1 ==> !tab_hosts(tabs@, pids@[l], id));
                } else {
                    assert(before.contains_key(id));
                    let j = choose|j: int|
                        0 <= j < i && pids@[j] == before[id] && tab_hosts(tabs@, pids@[j], id)
                            && forall|l: int| j < l < i ==> !tab_hosts(tabs@, pids@[l], id);
                    assert(0 <= j < i + 1 && pids@[j] == found@[id] && tab_hosts(
                        tabs@,
                        pids@[j],
                        id,
                    ) && forall|l: int| j < l < i + 1 ==> !tab_hosts(tabs@, pids@[l], id));
                }
            }
        }
        i += 1;
    }
    proof {
        let want = carried(tabs@);
        assert forall|id: BrowserInnerPid| found@.contains_key(id) <==> want.contains_key(id) by {
            if want.contains_key(id) {
                let pid = choose|pid: Pid| tab_hosts(tabs@, pid, id);
                assert(pids@.contains(pid));
                let j = choose|j: int| 0 <= j < pids@.len() && pids@[j] == pid;
                assert(tab_hosts(tabs@, pids@[j], id));
            }
        }
        assert forall|id: BrowserInnerPid| found@.contains_key(id) implies found@[id] == want[id] by {
            let j = choose|j: int|
                0 <= j < i && pids@[j] == found@[id] && tab_hosts(tabs@, pids@[j], id)
                    && forall|l: int| j < l < i ==> !tab_hosts(tabs@, pids@[l], id);
            let top = pids@[j];
            assert forall|other: Pid| tab_hosts(tabs@, other, id) implies other <= top by {
                assert(pids@.contains(other));
                let l = choose|l: int| 0 <= l < pids@.len() && pids@[l] == other;
                if l > j {
                    assert(!tab_hosts(tabs@, pids@[l], id));
                }
            }
            assert(is_greatest_tab_host(tabs@, top, id));
            let chosen = choose|pid: Pid| is_greatest_tab_host(tabs@, pid, id);
            assert(is_greatest_tab_host(tabs@, chosen, id));
            assert(chosen <= top && top <= chosen);
        }
        assert(found@ =~= want);
    }
    found
}

/// Files each received tab under the live process it runs in.
pub fn join_tabs(
    received: Vec<TabInfo>,
    pids: &HashMap<BrowserInnerPid, Pid>,
    system: &ProcessTable,
) -> (tabs: HashMap<Pid, TabInfo>)
    ensures
        tabs@ == joined(received@, pids@, system@),
{
    broadcast use vstd::std_specs::hash::group_hash_axioms;

    let ghost all = received@;
    let mut tabs: HashMap<Pid, TabInfo> = HashMap::new();
    for tab in it: received.into_iter()
        invariant
            it.seq() == all,
            forall|pid: Pid| #[trigger]
                tabs@.contains_key(pid) <==> exists|j: int|
                    0 <= j < it.index() && resolves_to(all[j], pids@, system@, pid),
            forall|pid: Pid| #[trigger]
                tabs@.contains_key(pid) ==> exists|j: int|
                    0 <= j < it.index() && tabs@[pid] == all[j] && resolves_to(
                        all[j],
                        pids@,
                        system@,
                        pid,
                    ) && forall|l: int|
                        j < l < it.index() ==> !resolves_to(all[l], pids@, system@, pid),
    {
        let ghost before = tabs@;
        let ghost n = it.index();
        let mut target: Option<Pid> = None;
        match pids.get(&tab.browser_inner_pid) {
            Some(pid) => {
                if system.contains(*pid) {
                    target = Some(*pid);
                }
            },
            None => {},
        }
        assert(forall|pid: Pid| resolves_to(tab, pids@, system@, pid) <==> target == Some(pid));
        match target {
            Some(pid) => {
                tabs.insert(pid, tab);
            },
            None => {},
        }
        proof {
            assert forall|pid: Pid| #[trigger]
                tabs@.contains_key(pid) <==> exists|j: int|
                    0 <= j < n + 1 && resolves_to(all[j], pids@, system@, pid) by {
                if before.contains_key(pid) {
                    let j = choose|j: int| 0 <= j < n && resolves_to(all[j], pids@, system@, pid);
                    assert(0 <= j < n + 1 && resolves_to(all[j], pids@, system@, pid));
                }
                if target == Some(pid) {
                    assert(resolves_to(all[n], pids@, system@, pid));
                }
                if exists|j: int| 0 <= j < n + 1 && resolves_to(all[j], pids@, system@, pid) {
                    let j = choose|j: int|
                        0 <= j < n + 1 && resolves_to(all[j], pids@, system@, pid);
                    if j < n {
                        assert(before.contains_key(pid));
                    }
                }
            }
            assert forall|pid: Pid| #[trigger] tabs@.contains_key(pid) implies exists|j: int|
                0 <= j < n + 1 && tabs@[pid] == all[j] && resolves_to(all[j], pids@, system@, pid)
                    && forall|l: int|
                    j < l < n + 1 ==> !resolves_to(all[l], pids@, system@, pid) by {
                if target == Some(pid) {
                    let j = n;
                    assert(0 <= j < n + 1 && tabs@[pid] == all[j] && resolves_to(
                        all[j],
                        pids@,
                        system@,
                        pid,
                    ) && forall|l: int|
                        j < l < n + 1 ==> !resolves_to(all[l], pids@, system@, pid));
                } else {
                    assert(before.contains_key(pid));
                    let j = choose|j: int|
                        0 <= j < n && before[pid] == all[j] && resolves_to(
                            all[j],
                            pids@,
                            system@,
                            pid,
                        ) && forall|l: int|
                            j < l < n ==> !resolves_to(all[l], pids@, system@, pid);
                    assert(0 <= j < n + 1 && tabs@[pid] == all[j] && resolves_to(
                        all[j],
                        pids@,
                        system@,
                        pid,
                    ) && forall|l: int|
                        j < l < n + 1 ==> !resolves_to(all[l], pids@, system@, pid));
                }
            }
        }
    }
    proof {
        let want = joined(all, pids@, system@);
        assert forall|pid: Pid| tabs@.contains_key(pid) implies tabs@[pid] == want[pid] by {
            let j = choose|j: int|
                0 <= j < all.len() && tabs@[pid] == all[j] && resolves_to(
                    all[j],
                    pids@,
                    system@,
                    pid,
                ) && forall|l: int|
                    j < l < all.len() ==> !resolves_to(all[l], pids@, system@, pid);
            assert(is_last_in(all, pids@, system@, pid, j));
            let chosen = choose|i: int| is_last_in(all, pids@, system@, pid, i);
            assert(is_last_in(all, pids@, system@, pid, chosen));
            assert(chosen == j) by {
                if chosen < j {
                    assert(!resolves_to(all[j], pids@, system@, pid));
                } else if chosen > j {
                    assert(!resolves_to(all[chosen], pids@, system@, pid));
                }
            }
        }
        assert(tabs@ =~= want);
    }
    tabs
}

impl Status {
    /// Takes in one message of the extension: stores `system` as the processes
    /// alive now, finds the process of each tab, and replaces the snapshot by
    /// the tabs whose process is alive.
    pub fn take_in(&mut self, data: TabData, system: ProcessTable, browser_name: &str)
        ensures
            final(self)@ == taken_in(
                old(self)@,
                data.tab_infos@,
                data.timestamp,
                system@,
                browser_name@,
            ),
            final(self)@.wf(),
    {
        self.system = system;
        let pids = if has_same_tabs(&self.tab_infos, &data.tab_infos) {
            carry_renderers(&self.tab_infos)
        } else {
            scan_renderers(&self.system, browser_name)
        };
        let tabs = join_tabs(data.tab_infos, &pids, &self.system);
        self.update(tabs, data.timestamp, browser_name);
    }
}

/// What arrives on the connection to the extension.
#[derive(Debug)]
pub enum Incoming {
    /// A text frame that holds tab data, with the processes that were alive
    /// when it arrived.
    Payload { data: TabData, system: ProcessTable },
    /// A text frame that does not hold tab data, with the reason why not.
    Malformed { reason: String },
    /// A binary frame, which the extension never sends.
    Binary,
}

impl Status {
    /// Handles one frame of the extension and says what to report to the one
    /// who asked for the refresh: success after tab data has been taken in;
    /// the reason after a frame that holds none, which changes nothing; and
    /// nothing at all after a binary frame, which changes nothing either.
    pub fn receive(&mut self, message: Incoming, browser_name: &str) -> (reply: Option<
        Result<(), String>,
    >)
        ensures
            match message {
                Incoming::Payload { data, system } => {
                    &&& reply == Some(Ok::<(), String>(()))
                    &&& final(self)@ == taken_in(
                        old(self)@,
                        data.tab_infos@,
                        data.timestamp,
                        system@,
                        browser_name@,
                    )
                    &&& final(self)@.wf()
                },
                Incoming::Malformed { reason } => {
                    &&& reply == Some(Err::<(), String>(reason))
                    &&& *final(self) == *old(self)
                },
                Incoming::Binary => {
                    &&& reply is None
                    &&& *final(self) == *old(self)
                },
            },
    {
        match message {
            Incoming::Payload { data, system } => {
                self.take_in(data, system, browser_name);
                Some(Ok(()))
            },
            Incoming::Malformed { reason } => Some(Err(reason)),
            Incoming::Binary => None,
        }
    }
}

} // verus!
