//! The shared record of the latest tab snapshot and the timers derived from it.
use crate::keys::sorted_keys;
use crate::process::{
    browser_is_running, lemma_memory_sum_empty, lemma_memory_sum_insert, memory_sum, Pid,
    ProcessInfo, ProcessTable, Rss,
};
use crate::tab_data_requester::{TabInfo, Timestamp};
use std::collections::HashMap;
use vstd::prelude::*;

verus! {

broadcast use vstd::std_specs::hash::group_hash_axioms;

/// What the policies read: the processes, the tabs by process, and for each
/// tab since when it has been in the background and since when idle.
#[derive(Debug)]
pub struct Status {
    pub system: ProcessTable,
    pub timestamp: Timestamp,
    pub tab_infos: HashMap<Pid, TabInfo>,
    pub begin_background_timestamps: HashMap<Pid, Timestamp>,
    pub begin_cpu_idle_timestamps: HashMap<Pid, Timestamp>,
}

/// The mathematical content of a [`Status`].
pub struct StatusView {
    pub system: Map<Pid, ProcessInfo>,
    pub timestamp: Timestamp,
    pub tab_infos: Map<Pid, TabInfo>,
    pub begin_background_timestamps: Map<Pid, Timestamp>,
    pub begin_cpu_idle_timestamps: Map<Pid, Timestamp>,
}

impl View for Status {
    type V = StatusView;

    open spec fn view(&self) -> StatusView {
        StatusView {
            system: self.system@,
            timestamp: self.timestamp,
            tab_infos: self.tab_infos@,
            begin_background_timestamps: self.begin_background_timestamps@,
            begin_cpu_idle_timestamps: self.begin_cpu_idle_timestamps@,
        }
    }
}

/// The browser's empty page: its last access time means nothing, so it never
/// gets a background timer.
pub open spec fn is_placeholder(tab: TabInfo) -> bool {
    tab.title@ == "New Tab"@
}

/// When `tab` was last in the foreground, as far as a snapshot taken at
/// `timestamp` tells.
pub open spec fn last_active(tab: TabInfo, timestamp: Timestamp) -> Timestamp {
    if tab.active {
        timestamp
    } else {
        tab.last_accessed
    }
}

/// The tabs that a replacement stores: the new ones, or none when the browser
/// is not running.
pub open spec fn stored_tabs(
    system: Map<Pid, ProcessInfo>,
    new_tabs: Map<Pid, TabInfo>,
    browser_name: Seq<char>,
) -> Map<Pid, TabInfo> {
    if browser_is_running(system, browser_name) {
        new_tabs
    } else {
        Map::empty()
    }
}

/// The background timers after a replacement: one for every tab but the
/// placeholder, never earlier than the timer the tab had before.
pub open spec fn background_after(
    previous: Map<Pid, Timestamp>,
    tabs: Map<Pid, TabInfo>,
    timestamp: Timestamp,
) -> Map<Pid, Timestamp> {
    Map::new(
        |pid: Pid| tabs.contains_key(pid) && !is_placeholder(tabs[pid]),
        |pid: Pid|
            {
                let seen = last_active(tabs[pid], timestamp);
                if previous.contains_key(pid) && previous[pid] > seen {
                    previous[pid]
                } else {
                    seen
                }
            },
    )
}

/// The idle timers after a replacement. A tab that had none starts at
/// `timestamp`. A tab that had one keeps it while its process reports no CPU
/// use, restarts at `timestamp` when the process was busy, and loses it when
/// the process is gone.
pub open spec fn cpu_idle_after(
    previous: Map<Pid, Timestamp>,
    tabs: Map<Pid, TabInfo>,
    system: Map<Pid, ProcessInfo>,
    timestamp: Timestamp,
) -> Map<Pid, Timestamp> {
    Map::new(
        |pid: Pid| tabs.contains_key(pid) && (previous.contains_key(pid) ==> system.contains_key(pid)),
        |pid: Pid|
            if previous.contains_key(pid) && !system[pid].cpu_busy {
                previous[pid]
            } else {
                timestamp
            },
    )
}

/// The status after replacing the snapshot of `before` by `new_tabs`, taken
/// at `timestamp`.
pub open spec fn replaced(
    before: StatusView,
    new_tabs: Map<Pid, TabInfo>,
    timestamp: Timestamp,
    browser_name: Seq<char>,
) -> StatusView {
    let tabs = stored_tabs(before.system, new_tabs, browser_name);
    StatusView {
        system: before.system,
        timestamp,
        tab_infos: tabs,
        begin_background_timestamps: background_after(
            before.begin_background_timestamps,
            tabs,
            timestamp,
        ),
        begin_cpu_idle_timestamps: cpu_idle_after(
            before.begin_cpu_idle_timestamps,
            tabs,
            before.system,
            timestamp,
        ),
    }
}

/// The memory that the processes of all tabs hold together.
pub open spec fn total_rss_of(status: StatusView) -> int {
    memory_sum(status.system, status.tab_infos.dom())
}

/// `pid` is alive and holds a tab that is not the active one.
pub open spec fn is_background_process(status: StatusView, pid: Pid) -> bool {
    &&& status.tab_infos.contains_key(pid)
    &&& !status.tab_infos[pid].active
    &&& status.system.contains_key(pid)
}

/// `a` holds less memory than `b` or, with the same memory, is the lesser
/// process.
pub open spec fn ranks_below(a: (Pid, Rss), b: (Pid, Rss)) -> bool {
    a.1 < b.1 || (a.1 == b.1 && a.0 < b.0)
}

/// `q` lists the background processes of `status`, each once and with its
/// memory, from the least memory to the most.
pub open spec fn lists_background_by_memory(status: StatusView, q: Seq<(Pid, Rss)>) -> bool {
    &&& forall|i: int, j: int| 0 <= i < j < q.len() ==> ranks_below(q[i], q[j])
    &&& forall|pid: Pid, rss: Rss|
        q.contains((pid, rss)) <==> is_background_process(status, pid) && rss
            == status.system[pid].memory
}

/// Puts `entry` into `ranked` at its rank.
fn insert_ranked(ranked: &mut Vec<(Pid, Rss)>, entry: (Pid, Rss))
    requires
        forall|i: int, j: int|
            0 <= i < j < old(ranked)@.len() ==> ranks_below(old(ranked)@[i], old(ranked)@[j]),
        forall|i: int| 0 <= i < old(ranked)@.len() ==> (#[trigger] old(ranked)@[i]).0 != entry.0,
    ensures
        forall|i: int, j: int|
            0 <= i < j < final(ranked)@.len() ==> ranks_below(final(ranked)@[i], final(ranked)@[j]),
        forall|e: (Pid, Rss)| final(ranked)@.contains(e) <==> old(ranked)@.contains(e) || e == entry,
{
    let mut at: usize = 0;
    while at < ranked.len() && (ranked[at].1 < entry.1 || (ranked[at].1 == entry.1 && ranked[at].0
        < entry.0))
        invariant
            at <= ranked.len(),
            *ranked == *old(ranked),
            forall|i: int| 0 <= i < at ==> ranks_below(ranked@[i], entry),
        decreases ranked.len() - at,
    {
        at += 1;
    }
    let ghost before = ranked@;
    ranked.insert(at, entry);
    proof {
        let after = ranked@;
        assert(after == before.insert(at as int, entry));
        assert forall|i: int, j: int| 0 <= i < j < after.len() implies ranks_below(
            after[i],
            after[j],
        ) by {
            if j == at {
            } else if i == at {
                assert(before[at as int].0 != entry.0);
                assert(!ranks_below(before[at as int], entry));
                if j - 1 > at {
                    assert(ranks_below(before[at as int], before[j - 1]));
                }
            } else if i < at && j > at {
                assert(ranks_below(before[i], before[j - 1]));
            } else if i < at && j < at {
                assert(ranks_below(before[i], before[j]));
            } else {
                assert(ranks_below(before[i - 1], before[j - 1]));
            }
        }
        assert forall|e: (Pid, Rss)| after.contains(e) <==> before.contains(e) || e == entry by {
            if after.contains(e) {
                let i = choose|i: int| 0 <= i < after.len() && after[i] == e;
                if i < at {
                    assert(before[i] == e);
                } else if i > at {
                    assert(before[i - 1] == e);
                }
            }
            if before.contains(e) {
                let i = choose|i: int| 0 <= i < before.len() && before[i] == e;
                if i < at {
                    assert(after[i] == e);
                } else {
                    assert(after[i + 1] == e);
                }
            }
            if e == entry {
                assert(after[at as int] == e);
            }
        }
    }
}

impl StatusView {
    /// Every timer belongs to a tab of the snapshot, and the placeholder has
    /// no background timer.
    pub open spec fn wf(self) -> bool {
        &&& forall|pid: Pid| #[trigger]
            self.begin_background_timestamps.contains_key(pid) ==> self.tab_infos.contains_key(pid)
                && !is_placeholder(self.tab_infos[pid])
        &&& forall|pid: Pid| #[trigger]
            self.begin_cpu_idle_timestamps.contains_key(pid) ==> self.tab_infos.contains_key(pid)
    }
}

impl Default for Status {
    /// A status without processes, tabs or timers, at time zero.
    fn default() -> (status: Status)
        ensures
            status@.system == Map::<Pid, ProcessInfo>::empty(),
            status@.timestamp == 0,
            status@.tab_infos == Map::<Pid, TabInfo>::empty(),
            status@.begin_background_timestamps == Map::<Pid, Timestamp>::empty(),
            status@.begin_cpu_idle_timestamps == Map::<Pid, Timestamp>::empty(),
            status@.wf(),
    {
        Status::new()
    }
}

impl Status {
    /// A status without processes, tabs or timers, at time zero.
    pub fn new() -> (status: Status)
        ensures
            status@.system == Map::<Pid, ProcessInfo>::empty(),
            status@.timestamp == 0,
            status@.tab_infos == Map::<Pid, TabInfo>::empty(),
            status@.begin_background_timestamps == Map::<Pid, Timestamp>::empty(),
            status@.begin_cpu_idle_timestamps == Map::<Pid, Timestamp>::empty(),
            status@.wf(),
    {
        Status {
            system: ProcessTable::new(),
            timestamp: 0,
            tab_infos: HashMap::new(),
            begin_background_timestamps: HashMap::new(),
            begin_cpu_idle_timestamps: HashMap::new(),
        }
    }

    /// Replaces the snapshot by `new_tab_infos`, taken at `timestamp`, and
    /// derives the timers anew from the old ones. The processes are read from
    /// `self.system` as it stands.
    pub fn update(
        &mut self,
        new_tab_infos: HashMap<Pid, TabInfo>,
        timestamp: Timestamp,
        browser_name: &str,
    )
        ensures
            final(self)@ == replaced(old(self)@, new_tab_infos@, timestamp, browser_name@),
            final(self)@.wf(),
    {
        self.tab_infos = new_tab_infos;
        self.timestamp = timestamp;
        if !self.system.has_process_named(browser_name) {
            self.tab_infos.clear();
        }
        let ghost tabs = self.tab_infos@;
        let ghost system = self.system@;
        let ghost old_background = self.begin_background_timestamps@;
        let ghost old_cpu_idle = self.begin_cpu_idle_timestamps@;
        let ghost want_background = background_after(old_background, tabs, timestamp);
        let ghost want_cpu_idle = cpu_idle_after(old_cpu_idle, tabs, system, timestamp);
        assert(tabs == stored_tabs(old(self)@.system, new_tab_infos@, browser_name@));

        let placeholder = "New Tab".to_owned();
        let pids = sorted_keys(&self.tab_infos);
        let mut background: HashMap<Pid, Timestamp> = HashMap::new();
        let mut cpu_idle: HashMap<Pid, Timestamp> = HashMap::new();
        let mut i: usize = 0;
        while i < pids.len()
            invariant
                i <= pids.len(),
                placeholder@ == "New Tab"@,
                self.tab_infos@ == tabs,
                self.system@ == system,
                self.begin_background_timestamps@ == old_background,
                self.begin_cpu_idle_timestamps@ == old_cpu_idle,
                self.timestamp == timestamp,
                want_background == background_after(old_background, tabs, timestamp),
                want_cpu_idle == cpu_idle_after(old_cpu_idle, tabs, system, timestamp),
                forall|k: Pid| pids@.contains(k) <==> tabs.contains_key(k),
                forall|k: Pid| #[trigger]
                    background@.contains_key(k) <==> want_background.contains_key(k) && exists|j: int|
                        0 <= j < i && pids@[j] == k,
                forall|k: Pid| #[trigger]
                    background@.contains_key(k) ==> background@[k] == want_background[k],
                forall|k: Pid| #[trigger]
                    cpu_idle@.contains_key(k) <==> want_cpu_idle.contains_key(k) && exists|j: int|
                        0 <= j < i && pids@[j] == k,
                forall|k: Pid| #[trigger]
                    cpu_idle@.contains_key(k) ==> cpu_idle@[k] == want_cpu_idle[k],
            decreases pids.len() - i,
        {
            let pid = pids[i];
            assert(pids@.contains(pid));
            let ghost background_before = background@;
            let ghost cpu_idle_before = cpu_idle@;
            match self.tab_infos.get(&pid) {
                Some(tab) => {
                    if !(tab.title == placeholder) {
                        let seen = if tab.active {
                            timestamp
                        } else {
                            tab.last_accessed
                        };
                        let begun = match self.begin_background_timestamps.get(&pid) {
                            Some(previous) => if *previous > seen {
                                *previous
                            } else {
                                seen
                            },
                            None => seen,
                        };
                        background.insert(pid, begun);
                    }
                },
                None => {},
            }
            match self.begin_cpu_idle_timestamps.get(&pid) {
                Some(previous) => {
                    match self.system.process(pid) {
                        Some(info) => {
                            if info.cpu_busy {
                                cpu_idle.insert(pid, timestamp);
                            } else {
                                cpu_idle.insert(pid, *previous);
                            }
                        },
                        None => {},
                    }
                },
                None => {
                    cpu_idle.insert(pid, timestamp);
                },
            }
            proof {
                assert forall|k: Pid| #[trigger]
                    background@.contains_key(k) <==> want_background.contains_key(k) && exists|j: int|
                        0 <= j < i + 1 && pids@[j] == k by {
                    if background_before.contains_key(k) {
                        let j = choose|j: int| 0 <= j < i && pids@[j] == k;
                        assert(0 <= j < i + 1 && pids@[j] == k);
                    }
                    if want_background.contains_key(k) && exists|j: int|
                        0 <= j < i + 1 && pids@[j] == k {
                        let j = choose|j: int| 0 <= j < i + 1 && pids@[j] == k;
                        if j < i {
                            assert(background_before.contains_key(k));
                        }
                    }
                }
                assert forall|k: Pid| #[trigger]
                    cpu_idle@.contains_key(k) <==> want_cpu_idle.contains_key(k) && exists|j: int|
                        0 <= j < i + 1 && pids@[j] == k by {
                    if cpu_idle_before.contains_key(k) {
                        let j = choose|j: int| 0 <= j < i && pids@[j] == k;
                        assert(0 <= j < i + 1 && pids@[j] == k);
                    }
                    if want_cpu_idle.contains_key(k) && exists|j: int|
                        0 <= j < i + 1 && pids@[j] == k {
                        let j = choose|j: int| 0 <= j < i + 1 && pids@[j] == k;
                        if j < i {
                            assert(cpu_idle_before.contains_key(k));
                        }
                    }
                }
            }
            i += 1;
        }
        proof {
            assert forall|k: Pid| want_background.contains_key(k) implies background@.contains_key(
                k,
            ) by {
                assert(pids@.contains(k));
            }
            assert forall|k: Pid| want_cpu_idle.contains_key(k) implies cpu_idle@.contains_key(
                k,
            ) by {
                assert(pids@.contains(k));
            }
            assert(background@ =~= want_background);
            assert(cpu_idle@ =~= want_cpu_idle);
        }
        self.begin_background_timestamps = background;
        self.begin_cpu_idle_timestamps = cpu_idle;
    }

    /// The memory that the processes of all tabs hold together, in bytes; the
    /// greatest number of the type where the sum exceeds it.
    pub fn total_rss(&self) -> (total: Rss)
        ensures
            total == if total_rss_of(self@) <= u64::MAX {
                total_rss_of(self@)
            } else {
                u64::MAX as int
            },
    {
        let pids = sorted_keys(&self.tab_infos);
        let ghost system = self.system@;
        let ghost mut seen: Set<Pid> = Set::empty();
        let mut sum: u128 = 0;
        let mut i: usize = 0;
        proof {
            lemma_memory_sum_empty(system);
        }
        while i < pids.len()
            invariant
                i <= pids.len(),
                system == self.system@,
                crate::keys::strictly_ascending(pids@),
                forall|k: Pid| pids@.contains(k) <==> self.tab_infos@.contains_key(k),
                seen.finite(),
                forall|k: Pid| seen.contains(k) <==> exists|j: int| 0 <= j < i && pids@[j] == k,
                sum == memory_sum(system, seen),
                sum <= i * u64::MAX,
            decreases pids.len() - i,
        {
            let pid = pids[i];
            let bytes = self.system.memory(pid);
            proof {
                if seen.contains(pid) {
                    let j = choose|j: int| 0 <= j < i && pids@[j] == pid;
                    assert(pids@[j] < pids@[i as int]);
                }
                lemma_memory_sum_insert(system, seen, pid);
                let ghost grown = seen.insert(pid);
                assert forall|k: Pid| grown.contains(k) <==> exists|j: int|
                    0 <= j < i + 1 && pids@[j] == k by {
                    if seen.contains(k) {
                        let j = choose|j: int| 0 <= j < i && pids@[j] == k;
                        assert(0 <= j < i + 1 && pids@[j] == k);
                    }
                    if k == pid {
                        assert(pids@[i as int] == k);
                    }
                    if exists|j: int| 0 <= j < i + 1 && pids@[j] == k {
                        let j = choose|j: int| 0 <= j < i + 1 && pids@[j] == k;
                        if j < i {
                            assert(seen.contains(k));
                        }
                    }
                }
                seen = grown;
                assert((i + 1) * u64::MAX == i * u64::MAX + u64::MAX) by (nonlinear_arith);
                assert(i * u64::MAX <= usize::MAX * u64::MAX) by (nonlinear_arith)
                    requires
                        i <= usize::MAX,
                ;
            }
            sum = sum + bytes as u128;
            i += 1;
        }
        proof {
            assert forall|k: Pid| seen.contains(k) <==> self.tab_infos@.dom().contains(k) by {
                if seen.contains(k) {
                    let j = choose|j: int| 0 <= j < i && pids@[j] == k;
                    assert(pids@.contains(pids@[j]));
                }
                if self.tab_infos@.contains_key(k) {
                    assert(pids@.contains(k));
                    let j = choose|j: int| 0 <= j < pids@.len() && pids@[j] == k;
                    assert(0 <= j < i && pids@[j] == k);
                }
            }
            assert(seen =~= self.tab_infos@.dom());
        }
        if sum > u64::MAX as u128 {
            u64::MAX
        } else {
            sum as u64
        }
    }

    /// The background processes with their memory, from the least memory to
    /// the most; among equals the lesser process first.
    pub fn get_sorted_pid_rss(&self) -> (ranked: Vec<(Pid, Rss)>)
        ensures
            lists_background_by_memory(self@, ranked@),
    {
        let pids = sorted_keys(&self.tab_infos);
        let mut ranked: Vec<(Pid, Rss)> = Vec::new();
        let ghost mut limit: int = 0;
        let mut i: usize = 0;
        while i < pids.len()
            invariant
                i <= pids.len(),
                crate::keys::strictly_ascending(pids@),
                forall|k: Pid| pids@.contains(k) <==> self.tab_infos@.contains_key(k),
                forall|j: int| 0 <= j < i ==> pids@[j] < limit,
                forall|j: int| i <= j < pids@.len() ==> limit <= pids@[j],
                forall|a: int, b: int|
                    0 <= a < b < ranked@.len() ==> ranks_below(ranked@[a], ranked@[b]),
                forall|pid: Pid, rss: Rss|
                    ranked@.contains((pid, rss)) <==> pid < limit && is_background_process(
                        self@,
                        pid,
                    ) && rss == self@.system[pid].memory,
            decreases pids.len() - i,
        {
            let pid = pids[i];
            assert(pids@.contains(pid));
            let ghost before = ranked@;
            let mut entry: Option<(Pid, Rss)> = None;
            match self.tab_infos.get(&pid) {
                Some(tab) => {
                    if !tab.active {
                        match self.system.process(pid) {
                            Some(info) => {
                                entry = Some((pid, info.memory));
                            },
                            None => {},
                        }
                    }
                },
                None => {},
            }
            assert(entry is Some <==> is_background_process(self@, pid));
            assert(entry is Some ==> entry->0 == (pid, self@.system[pid].memory));
            match entry {
                Some(pair) => {
                    proof {
                        assert forall|a: int| 0 <= a < before.len() implies (#[trigger] before[a]).0
                            != pid by {
                            assert(before.contains((before[a].0, before[a].1)));
                        }
                    }
                    insert_ranked(&mut ranked, pair);
                },
                None => {},
            }
            proof {
                let ghost old_limit = limit;
                limit = pid + 1;
                assert forall|j: int| 0 <= j < i + 1 implies pids@[j] < limit by {
                    if j < i {
                        assert(pids@[j] < pids@[i as int]);
                    }
                }
                assert forall|j: int| i + 1 <= j < pids@.len() implies limit <= pids@[j] by {
                    assert(pids@[i as int] < pids@[j]);
                }
                assert forall|p: Pid, rss: Rss|
                    ranked@.contains((p, rss)) <==> p < limit && is_background_process(self@, p)
                        && rss == self@.system[p].memory by {
                    if p < limit && is_background_process(self@, p) && rss
                        == self@.system[p].memory {
                        if p != pid {
                            assert(pids@.contains(p));
                            let j = choose|j: int| 0 <= j < pids@.len() && pids@[j] == p;
                            if j >= i {
                                assert(old_limit <= pids@[j]);
                                assert(pids@[i as int] <= pids@[j]);
                            }
                            assert(p < old_limit);
                            assert(before.contains((p, rss)));
                        }
                    }
                    if ranked@.contains((p, rss)) {
                        if before.contains((p, rss)) {
                            assert(p < old_limit);
                            assert(old_limit <= pids@[i as int]);
                        }
                    }
                }
            }
            i += 1;
        }
        proof {
            assert forall|pid: Pid, rss: Rss|
                ranked@.contains((pid, rss)) <==> is_background_process(self@, pid) && rss
                    == self@.system[pid].memory by {
                if is_background_process(self@, pid) {
                    assert(pids@.contains(pid));
                    let j = choose|j: int| 0 <= j < pids@.len() && pids@[j] == pid;
                    assert(pids@[j] < limit);
                }
            }
        }
        ranked
    }
}

} // verus!
