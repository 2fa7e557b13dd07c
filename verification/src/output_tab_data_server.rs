//! The status as it is shown to a front end.
use crate::config::Millis;
use crate::keys::{ascending, lemma_ascending_is, sorted_keys, strictly_ascending};
use crate::process::{Pid, Rss};
use crate::status::{Status, StatusView};
use crate::tab_data_requester::Timestamp;
use vstd::prelude::*;

verus! {

broadcast use vstd::std_specs::hash::group_hash_axioms;

/// One tab of the report.
#[derive(Debug)]
pub struct OutputTabInfo {
    pub title: String,
    pub pid: Pid,
    /// Resident memory of the tab's process, in bytes.
    pub rss: Rss,
    pub foreground: bool,
    /// How long the tab has been in the background.
    pub background_time: Millis,
    /// Whether the process used any CPU at the last measurement.
    pub cpu_busy: bool,
    /// How long the process has not used the CPU.
    pub cpu_idle_time: Millis,
}

/// The report: the time of the status and its tabs.
#[derive(Debug)]
pub struct OutputTabData {
    pub timestamp: Timestamp,
    pub tab_infos: Vec<OutputTabInfo>,
}

/// The time from `since` to `now`; zero where `since` lies after `now`.
pub open spec fn time_since(now: Timestamp, since: Timestamp) -> Millis {
    if now >= since {
        (now - since) as u64
    } else {
        0
    }
}

/// The report shows `pid`: a tab with a live process and both timers.
pub open spec fn is_reported(status: StatusView, pid: Pid) -> bool {
    &&& status.tab_infos.contains_key(pid)
    &&& status.system.contains_key(pid)
    &&& status.begin_background_timestamps.contains_key(pid)
    &&& status.begin_cpu_idle_timestamps.contains_key(pid)
}

/// The processes that the report shows.
pub open spec fn reported_pids(status: StatusView) -> Set<Pid> {
    Set::new(|pid: Pid| is_reported(status, pid))
}

/// What the report says of `pid`.
pub open spec fn report_of(status: StatusView, pid: Pid) -> OutputTabInfo {
    OutputTabInfo {
        title: status.tab_infos[pid].title,
        pid,
        rss: status.system[pid].memory,
        foreground: status.tab_infos[pid].active,
        background_time: time_since(status.timestamp, status.begin_background_timestamps[pid]),
        cpu_busy: status.system[pid].cpu_busy,
        cpu_idle_time: time_since(status.timestamp, status.begin_cpu_idle_timestamps[pid]),
    }
}

/// The tabs of the report, by ascending process.
pub open spec fn reports(status: StatusView) -> Seq<OutputTabInfo> {
    let pids = ascending(reported_pids(status));
    Seq::new(pids.len(), |i: int| report_of(status, pids[i]))
}

fn elapsed(now: Timestamp, since: Timestamp) -> (time: Millis)
    ensures
        time == time_since(now, since),
{
    if now >= since {
        now - since
    } else {
        0
    }
}

/// Lists every tab that has a live process and both timers, by ascending
/// process.
pub fn generate_output_tab_infos(status: &Status) -> (rows: Vec<OutputTabInfo>)
    ensures
        rows@ == reports(status@),
{
    let pids = sorted_keys(&status.tab_infos);
    let mut rows: Vec<OutputTabInfo> = Vec::new();
    let ghost mut shown: Seq<Pid> = Seq::empty();
    let mut i: usize = 0;
    while i < pids.len()
        invariant
            i <= pids.len(),
            strictly_ascending(pids@),
            forall|k: Pid| pids@.contains(k) <==> status@.tab_infos.contains_key(k),
            strictly_ascending(shown),
            forall|pid: Pid|
                shown.contains(pid) <==> is_reported(status@, pid) && exists|j: int|
                    0 <= j < i && pids@[j] == pid,
            rows@ == Seq::new(shown.len(), |n: int| report_of(status@, shown[n])),
        decreases pids.len() - i,
    {
        let pid = pids[i];
        assert(pids@.contains(pid));
        let ghost shown_before = shown;
        let ghost rows_before = rows@;
        let mut row: Option<OutputTabInfo> = None;
        match status.tab_infos.get(&pid) {
            Some(tab) => match status.system.process(pid) {
                Some(info) => match status.begin_background_timestamps.get(&pid) {
                    Some(background) => match status.begin_cpu_idle_timestamps.get(&pid) {
                        Some(idle) => {
                            row = Some(
                                OutputTabInfo {
                                    title: tab.title.clone(),
                                    pid,
                                    rss: info.memory,
                                    foreground: tab.active,
                                    background_time: elapsed(status.timestamp, *background),
                                    cpu_busy: info.cpu_busy,
                                    cpu_idle_time: elapsed(status.timestamp, *idle),
                                },
                            );
                        },
                        None => {},
                    },
                    None => {},
                },
                None => {},
            },
            None => {},
        }
        assert(row is Some <==> is_reported(status@, pid));
        match row {
            Some(row) => {
                assert(row == report_of(status@, pid));
                rows.push(row);
                proof {
                    assert forall|a: int| 0 <= a < shown_before.len() implies shown_before[a]
                        < pid by {
                        assert(shown_before.contains(shown_before[a]));
                        let j = choose|j: int| 0 <= j < i && pids@[j] == shown_before[a];
                        assert(pids@[j] < pids@[i as int]);
                    }
                    shown = shown_before.push(pid);
                    assert(rows@ =~= Seq::new(shown.len(), |n: int| report_of(status@, shown[n])));
                }
            },
            None => {},
        }
        proof {
            assert forall|p: Pid|
                shown.contains(p) <==> is_reported(status@, p) && exists|j: int|
                    0 <= j < i + 1 && pids@[j] == p by {
                if shown_before.contains(p) {
                    let j = choose|j: int| 0 <= j < i && pids@[j] == p;
                    assert(0 <= j < i + 1 && pids@[j] == p);
                    let a = choose|a: int| 0 <= a < shown_before.len() && shown_before[a] == p;
                    assert(shown[a] == p);
                }
                if shown.contains(p) && !shown_before.contains(p) {
                    let a = choose|a: int| 0 <= a < shown.len() && shown[a] == p;
                    if a < shown_before.len() {
                        assert(shown_before[a] == p);
                    }
                    assert(pids@[i as int] == p);
                }
                if is_reported(status@, p) && exists|j: int| 0 <= j < i + 1 && pids@[j] == p {
                    let j = choose|j: int| 0 <= j < i + 1 && pids@[j] == p;
                    if j < i {
                        assert(shown_before.contains(p));
                    } else {
                        assert(shown[shown_before.len() as int] == p);
                    }
                }
            }
        }
        i += 1;
    }
    proof {
        assert forall|pid: Pid| shown.contains(pid) <==> reported_pids(status@).contains(pid) by {
            if is_reported(status@, pid) {
                assert(pids@.contains(pid));
                let j = choose|j: int| 0 <= j < pids@.len() && pids@[j] == pid;
                assert(0 <= j < i && pids@[j] == pid);
            }
        }
        lemma_ascending_is(reported_pids(status@), shown);
        assert(rows@ =~= reports(status@));
    }
    rows
}

/// The report of `status`.
pub fn generate_output_tab_data(status: &Status) -> (report: OutputTabData)
    ensures
        report.timestamp == status@.timestamp,
        report.tab_infos@ == reports(status@),
{
    OutputTabData { timestamp: status.timestamp, tab_infos: generate_output_tab_infos(status) }
}

} // verus!
