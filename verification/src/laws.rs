//! What holds of the status over any run of replacements.
use crate::process::{browser_is_running, Pid, ProcessInfo};
use crate::process_identifier::{lemma_scanned_is_greatest_host, scanned};
use crate::status::{replaced, StatusView};
use crate::tab_data_requester::{
    carried, is_last_in, joined, lemma_carried_is_greatest_tab_host, lemma_joined_is_last,
    renderers_for, resolves_to, same_tabs, tab_hosts, taken_in, BrowserInnerPid, TabInfo,
    Timestamp,
};
use vstd::prelude::*;

verus! {

/// One replacement of the snapshot: the processes alive at that moment, the
/// new tabs, and the time on the extension's clock.
pub struct Replacement {
    pub system: Map<Pid, ProcessInfo>,
    pub tabs: Map<Pid, TabInfo>,
    pub timestamp: Timestamp,
}

/// The status after `start` went through the replacements `steps`, in order.
pub open spec fn replayed(
    start: StatusView,
    steps: Seq<Replacement>,
    browser_name: Seq<char>,
) -> StatusView
    decreases steps.len(),
{
    if steps.len() == 0 {
        start
    } else {
        let before = replayed(start, steps.drop_last(), browser_name);
        let step = steps.last();
        replaced(
            StatusView { system: step.system, ..before },
            step.tabs,
            step.timestamp,
            browser_name,
        )
    }
}

/// A replacement establishes the invariant of the status, whatever the status
/// was before.
pub proof fn law_replacement_is_well_formed(
    before: StatusView,
    tabs: Map<Pid, TabInfo>,
    timestamp: Timestamp,
    browser_name: Seq<char>,
)
    ensures
        replaced(before, tabs, timestamp, browser_name).wf(),
{
}

/// The background timer of a process never goes back: over any run of
/// replacements after each of which the process has such a timer, the timer
/// at the end is no earlier than the timer at the start.
pub proof fn law_background_timer_never_decreases(
    start: StatusView,
    steps: Seq<Replacement>,
    browser_name: Seq<char>,
    pid: Pid,
)
    requires
        forall|n: int|
            0 <= n <= steps.len() ==> (#[trigger] replayed(
                start,
                steps.take(n),
                browser_name,
            )).begin_background_timestamps.contains_key(pid),
    ensures
        replayed(start, steps, browser_name).begin_background_timestamps[pid]
            >= start.begin_background_timestamps[pid],
    decreases steps.len(),
{
    assert(steps.take(0) =~= Seq::<Replacement>::empty());
    assert(replayed(start, steps.take(0), browser_name) == start);
    if steps.len() > 0 {
        let earlier = steps.drop_last();
        assert forall|n: int| 0 <= n <= earlier.len() implies (#[trigger] replayed(
            start,
            earlier.take(n),
            browser_name,
        )).begin_background_timestamps.contains_key(pid) by {
            assert(earlier.take(n) =~= steps.take(n));
        }
        law_background_timer_never_decreases(start, earlier, browser_name, pid);
        assert(steps.take(steps.len() as int) =~= steps);
        assert(earlier.take(earlier.len() as int) =~= earlier);
    }
}

/// The process `pid` runs a tab of the step, is alive, and used no CPU.
pub open spec fn is_idle_in(step: Replacement, browser_name: Seq<char>, pid: Pid) -> bool {
    &&& browser_is_running(step.system, browser_name)
    &&& step.tabs.contains_key(pid)
    &&& step.system.contains_key(pid)
    &&& !step.system[pid].cpu_busy
}

/// The idle timer is carried through readings of no CPU use: after a run of
/// replacements in each of which the process is idle, the timer is the one the
/// process had before the run or, if it had none, the time of the first
/// replacement of the run.
pub proof fn law_cpu_idle_timer_is_carried(
    start: StatusView,
    steps: Seq<Replacement>,
    browser_name: Seq<char>,
    pid: Pid,
)
    requires
        steps.len() > 0,
        forall|n: int| 0 <= n < steps.len() ==> is_idle_in(#[trigger] steps[n], browser_name, pid),
    ensures
        replayed(start, steps, browser_name).begin_cpu_idle_timestamps.contains_key(pid),
        replayed(start, steps, browser_name).begin_cpu_idle_timestamps[pid] == if start.begin_cpu_idle_timestamps.contains_key(
            pid,
        ) {
            start.begin_cpu_idle_timestamps[pid]
        } else {
            steps[0].timestamp
        },
    decreases steps.len(),
{
    let earlier = steps.drop_last();
    assert(is_idle_in(steps[steps.len() - 1], browser_name, pid));
    if earlier.len() == 0 {
        assert(replayed(start, earlier, browser_name) == start);
    } else {
        assert forall|n: int| 0 <= n < earlier.len() implies is_idle_in(
            #[trigger] earlier[n],
            browser_name,
            pid,
        ) by {
            assert(earlier[n] == steps[n]);
        }
        law_cpu_idle_timer_is_carried(start, earlier, browser_name, pid);
        assert(earlier[0] == steps[0]);
    }
}

/// A process that had no idle timer and is idle in every replacement of a run
/// has, after the run, the time of the first replacement as its idle timer.
pub proof fn law_cpu_idle_timer_starts_with_the_run(
    start: StatusView,
    steps: Seq<Replacement>,
    browser_name: Seq<char>,
    pid: Pid,
)
    requires
        steps.len() > 0,
        forall|n: int| 0 <= n < steps.len() ==> is_idle_in(#[trigger] steps[n], browser_name, pid),
        !start.begin_cpu_idle_timestamps.contains_key(pid),
    ensures
        replayed(start, steps, browser_name).begin_cpu_idle_timestamps.contains_key(pid),
        replayed(start, steps, browser_name).begin_cpu_idle_timestamps[pid] == steps[0].timestamp,
{
    law_cpu_idle_timer_is_carried(start, steps, browser_name, pid);
}

/// One reading of CPU use restarts the idle timer at the time of that reading.
pub proof fn law_cpu_use_restarts_idle_timer(
    before: StatusView,
    tabs: Map<Pid, TabInfo>,
    timestamp: Timestamp,
    browser_name: Seq<char>,
    pid: Pid,
)
    requires
        browser_is_running(before.system, browser_name),
        tabs.contains_key(pid),
        before.system.contains_key(pid),
        before.system[pid].cpu_busy,
    ensures
        replaced(before, tabs, timestamp, browser_name).begin_cpu_idle_timestamps.contains_key(pid),
        replaced(before, tabs, timestamp, browser_name).begin_cpu_idle_timestamps[pid]
            == timestamp,
{
}

/// While no process of the browser is alive, a replacement leaves no tab and
/// no timer, whatever tabs it was given.
pub proof fn law_closed_browser_leaves_nothing(
    before: StatusView,
    tabs: Map<Pid, TabInfo>,
    timestamp: Timestamp,
    browser_name: Seq<char>,
)
    requires
        !browser_is_running(before.system, browser_name),
    ensures
        replaced(before, tabs, timestamp, browser_name).tab_infos == Map::<Pid, TabInfo>::empty(),
        replaced(before, tabs, timestamp, browser_name).begin_background_timestamps == Map::<
            Pid,
            Timestamp,
        >::empty(),
        replaced(before, tabs, timestamp, browser_name).begin_cpu_idle_timestamps == Map::<
            Pid,
            Timestamp,
        >::empty(),
{
    let after = replaced(before, tabs, timestamp, browser_name);
    assert(after.begin_background_timestamps =~= Map::<Pid, Timestamp>::empty());
    assert(after.begin_cpu_idle_timestamps =~= Map::<Pid, Timestamp>::empty());
}

/// Tab data without tabs, sent at `timestamp`, leaves a status without tabs
/// and timers whose time is `timestamp`.
pub proof fn law_empty_tab_data_empties_the_status(
    before: StatusView,
    timestamp: Timestamp,
    system: Map<Pid, ProcessInfo>,
    browser_name: Seq<char>,
)
    ensures
        taken_in(before, Seq::empty(), timestamp, system, browser_name).timestamp == timestamp,
        taken_in(before, Seq::empty(), timestamp, system, browser_name).tab_infos == Map::<
            Pid,
            TabInfo,
        >::empty(),
        taken_in(
            before,
            Seq::empty(),
            timestamp,
            system,
            browser_name,
        ).begin_background_timestamps == Map::<Pid, Timestamp>::empty(),
        taken_in(
            before,
            Seq::empty(),
            timestamp,
            system,
            browser_name,
        ).begin_cpu_idle_timestamps == Map::<Pid, Timestamp>::empty(),
{
    let received = Seq::<TabInfo>::empty();
    let pids = renderers_for(before.tab_infos, received, system, browser_name);
    assert(joined(received, pids, system) =~= Map::<Pid, TabInfo>::empty());
    let after = taken_in(before, received, timestamp, system, browser_name);
    assert(after.tab_infos =~= Map::<Pid, TabInfo>::empty());
    assert(after.begin_background_timestamps =~= Map::<Pid, Timestamp>::empty());
    assert(after.begin_cpu_idle_timestamps =~= Map::<Pid, Timestamp>::empty());
}

/// Replacing the snapshot a second time by the same tabs at the same time
/// changes nothing, as long as the process of every tab is alive.
pub proof fn law_replacing_twice_changes_nothing(
    before: StatusView,
    tabs: Map<Pid, TabInfo>,
    timestamp: Timestamp,
    browser_name: Seq<char>,
)
    requires
        browser_is_running(before.system, browser_name) ==> forall|pid: Pid|
            tabs.contains_key(pid) ==> before.system.contains_key(pid),
    ensures
        replaced(
            replaced(before, tabs, timestamp, browser_name),
            tabs,
            timestamp,
            browser_name,
        ) == replaced(before, tabs, timestamp, browser_name),
{
    let once = replaced(before, tabs, timestamp, browser_name);
    let twice = replaced(once, tabs, timestamp, browser_name);
    assert(twice.tab_infos =~= once.tab_infos);
    assert(twice.begin_background_timestamps =~= once.begin_background_timestamps);
    assert(twice.begin_cpu_idle_timestamps =~= once.begin_cpu_idle_timestamps);
}

/// Taking in the same tab data a second time, with the same processes alive,
/// changes nothing, as long as the tabs are filed under the same processes
/// both times.
pub proof fn law_taking_in_twice_changes_nothing(
    before: StatusView,
    received: Seq<TabInfo>,
    timestamp: Timestamp,
    system: Map<Pid, ProcessInfo>,
    browser_name: Seq<char>,
)
    requires
        joined(
            received,
            renderers_for(
                taken_in(before, received, timestamp, system, browser_name).tab_infos,
                received,
                system,
                browser_name,
            ),
            system,
        ) == joined(
            received,
            renderers_for(before.tab_infos, received, system, browser_name),
            system,
        ),
    ensures
        taken_in(
            taken_in(before, received, timestamp, system, browser_name),
            received,
            timestamp,
            system,
            browser_name,
        ) == taken_in(before, received, timestamp, system, browser_name),
{
    let once = taken_in(before, received, timestamp, system, browser_name);
    let tabs = joined(
        received,
        renderers_for(before.tab_infos, received, system, browser_name),
        system,
    );
    let fresh = StatusView { system, ..before };
    assert(once == replaced(fresh, tabs, timestamp, browser_name));
    assert(StatusView { system, ..once } == once);
    law_replacing_twice_changes_nothing(fresh, tabs, timestamp, browser_name);
}

/// The renderers that a snapshot made by a scan carries are those of the
/// scan: a received tab is filed under the same process by either.
proof fn lemma_carried_agrees_with_scan(
    received: Seq<TabInfo>,
    system: Map<Pid, ProcessInfo>,
    browser_name: Seq<char>,
    i: int,
    pid: Pid,
)
    requires
        0 <= i < received.len(),
    ensures
        resolves_to(
            received[i],
            carried(joined(received, scanned(system, browser_name), system)),
            system,
            pid,
        ) <==> resolves_to(received[i], scanned(system, browser_name), system, pid),
{
    let found = scanned(system, browser_name);
    let tabs = joined(received, found, system);
    let id = received[i].browser_inner_pid;
    // A process that holds a tab of a renderer is the process that the scan
    // found for that renderer.
    assert forall|p: Pid, x: BrowserInnerPid| tab_hosts(tabs, p, x) implies found.contains_key(x)
        && found[x] == p by {
        lemma_joined_is_last(received, found, system, p);
    }
    if resolves_to(received[i], found, system, pid) {
        assert(tabs.contains_key(pid));
        lemma_joined_is_last(received, found, system, pid);
        let last = choose|last: int|
            is_last_in(received, found, system, pid, last) && tabs[pid] == received[last];
        let other = received[last].browser_inner_pid;
        lemma_scanned_is_greatest_host(system, browser_name, id);
        lemma_scanned_is_greatest_host(system, browser_name, other);
        assert(other == id);
        assert(tab_hosts(tabs, pid, id));
        lemma_carried_is_greatest_tab_host(tabs, id);
        assert(tab_hosts(tabs, carried(tabs)[id], id));
    }
    if resolves_to(received[i], carried(tabs), system, pid) {
        lemma_carried_is_greatest_tab_host(tabs, id);
        assert(tab_hosts(tabs, pid, id));
    }
}

/// A join goes by what each received tab resolves to: renderers that resolve
/// every received tab alike give the same snapshot.
proof fn lemma_joined_alike(
    received: Seq<TabInfo>,
    first: Map<BrowserInnerPid, Pid>,
    second: Map<BrowserInnerPid, Pid>,
    system: Map<Pid, ProcessInfo>,
)
    requires
        forall|i: int, pid: Pid|
            0 <= i < received.len() ==> (resolves_to(received[i], first, system, pid)
                <==> resolves_to(received[i], second, system, pid)),
    ensures
        joined(received, first, system) == joined(received, second, system),
{
    let a = joined(received, first, system);
    let b = joined(received, second, system);
    assert forall|pid: Pid| a.contains_key(pid) <==> b.contains_key(pid) by {
        if a.contains_key(pid) {
            let i = choose|i: int|
                0 <= i < received.len() && resolves_to(received[i], first, system, pid);
            assert(resolves_to(received[i], second, system, pid));
        }
        if b.contains_key(pid) {
            let i = choose|i: int|
                0 <= i < received.len() && resolves_to(received[i], second, system, pid);
            assert(resolves_to(received[i], first, system, pid));
        }
    }
    assert forall|pid: Pid| a.contains_key(pid) implies a[pid] == b[pid] by {
        lemma_joined_is_last(received, first, system, pid);
        lemma_joined_is_last(received, second, system, pid);
        let la = choose|last: int|
            is_last_in(received, first, system, pid, last) && a[pid] == received[last];
        let lb = choose|last: int|
            is_last_in(received, second, system, pid, last) && b[pid] == received[last];
        if la < lb {
            assert(!resolves_to(received[lb], first, system, pid));
        } else if lb < la {
            assert(!resolves_to(received[la], second, system, pid));
        }
    }
    assert(a =~= b);
}

/// Taking in the same tab data a second time, with the same processes alive,
/// changes nothing, if the first time the processes were scanned for the
/// renderers.
pub proof fn law_taking_in_twice_after_scan_changes_nothing(
    before: StatusView,
    received: Seq<TabInfo>,
    timestamp: Timestamp,
    system: Map<Pid, ProcessInfo>,
    browser_name: Seq<char>,
)
    requires
        !same_tabs(before.tab_infos, received),
    ensures
        taken_in(
            taken_in(before, received, timestamp, system, browser_name),
            received,
            timestamp,
            system,
            browser_name,
        ) == taken_in(before, received, timestamp, system, browser_name),
{
    let found = scanned(system, browser_name);
    let tabs = joined(received, found, system);
    let once = taken_in(before, received, timestamp, system, browser_name);
    if !browser_is_running(system, browser_name) {
        assert forall|pid: Pid| !tabs.contains_key(pid) by {
            if tabs.contains_key(pid) {
                let i = choose|i: int|
                    0 <= i < received.len() && resolves_to(received[i], found, system, pid);
                lemma_scanned_is_greatest_host(system, browser_name, received[i].browser_inner_pid);
            }
        }
        assert(tabs =~= Map::<Pid, TabInfo>::empty());
    }
    assert(once.tab_infos == tabs);
    let again = renderers_for(once.tab_infos, received, system, browser_name);
    if same_tabs(tabs, received) {
        assert forall|i: int, pid: Pid| 0 <= i < received.len() implies (resolves_to(
            received[i],
            again,
            system,
            pid,
        ) <==> resolves_to(received[i], found, system, pid)) by {
            lemma_carried_agrees_with_scan(received, system, browser_name, i, pid);
        }
        lemma_joined_alike(received, again, found, system);
    }
    law_taking_in_twice_changes_nothing(before, received, timestamp, system, browser_name);
}

} // verus!
