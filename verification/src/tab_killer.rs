//! The strategies that choose which tabs to terminate.
use crate::config::{Config, KillTabStrategy};
use crate::keys::{
    ascending, is_asymmetric, is_sorted_by, lemma_ascending_is, lemma_sorted_is_unique,
    lists_ascending, sorted_keys, strictly_ascending,
};
use crate::process::{
    lemma_memory_sum_empty, lemma_memory_sum_insert, lemma_memory_sum_subset, memory_sum, Pid,
    ProcessInfo, Rss,
};
use crate::status::{
    is_background_process, is_placeholder, lists_background_by_memory, ranks_below, total_rss_of,
    Status, StatusView,
};
use crate::whitelist::{any_pattern_matches, is_whitelisted};
use vstd::prelude::*;

verus! {

broadcast use vstd::std_specs::hash::group_hash_axioms;

/// A process to terminate, and the strategy that chose it.
#[derive(Clone, Copy, Debug)]
pub struct KillCandidate {
    pub pid: Pid,
    pub strategy: KillTabStrategy,
}

/// The tab in `pid` plays sound, and the configuration spares such tabs.
pub open spec fn is_spared_for_sound(status: StatusView, config: Config, pid: Pid) -> bool {
    config.whitelist_audible && status.tab_infos[pid].audible
}

/// The memory limit may terminate `pid`: a live process whose tab is in the
/// background, is not spared for its sound, and has no whitelisted URL.
pub open spec fn rss_candidate(status: StatusView, config: Config, pid: Pid) -> bool {
    &&& is_background_process(status, pid)
    &&& !is_spared_for_sound(status, config, pid)
    &&& !any_pattern_matches(config.whitelist@, status.tab_infos[pid].url@)
}

/// `a` holds more memory than `b` or, with the same memory, is the greater
/// process.
pub open spec fn outranks(system: Map<Pid, ProcessInfo>, a: Pid, b: Pid) -> bool {
    ranks_below((b, system[b].memory), (a, system[a].memory))
}

/// The candidates that are terminated before `pid` would be.
pub open spec fn larger_candidates(status: StatusView, config: Config, pid: Pid) -> Set<Pid> {
    Set::new(|q: Pid| rss_candidate(status, config, q) && outranks(status.system, q, pid))
}

/// The memory limit terminates `pid`: the tabs hold `total_rss`, which is over
/// the limit, and terminating all larger candidates frees no more than the
/// excess.
pub open spec fn rss_selected(
    status: StatusView,
    config: Config,
    total_rss: Rss,
    pid: Pid,
) -> bool {
    &&& total_rss > config.strategy.rss_limit.max_bytes
    &&& rss_candidate(status, config, pid)
    &&& memory_sum(status.system, larger_candidates(status, config, pid)) <= total_rss
        - config.strategy.rss_limit.max_bytes
}

/// `q` lists the processes that the memory limit terminates, the largest
/// first.
pub open spec fn is_rss_selection(
    status: StatusView,
    config: Config,
    total_rss: Rss,
    q: Seq<Pid>,
) -> bool {
    &&& forall|i: int, j: int| 0 <= i < j < q.len() ==> outranks(status.system, q[i], q[j])
    &&& forall|pid: Pid| q.contains(pid) <==> rss_selected(status, config, total_rss, pid)
}

/// The processes that the memory limit terminates, the largest first.
pub open spec fn rss_selection(status: StatusView, config: Config, total_rss: Rss) -> Seq<Pid> {
    choose|q: Seq<Pid>| is_rss_selection(status, config, total_rss, q)
}

/// The background time limit terminates `pid`: a live process whose tab has
/// been in the background for longer than the limit, is not the placeholder,
/// and is not spared for its sound.
pub open spec fn background_expired(status: StatusView, config: Config, pid: Pid) -> bool {
    &&& status.begin_background_timestamps.contains_key(pid)
    &&& status.timestamp - status.begin_background_timestamps[pid]
        > config.strategy.background_time_limit.max_millis
    &&& status.tab_infos.contains_key(pid)
    &&& !is_placeholder(status.tab_infos[pid])
    &&& !is_spared_for_sound(status, config, pid)
    &&& status.system.contains_key(pid)
}

/// The idle time limit terminates `pid`: a live process that has not used the
/// CPU for longer than the limit, whose tab is in the background and is not
/// spared for its sound.
pub open spec fn cpu_idle_expired(status: StatusView, config: Config, pid: Pid) -> bool {
    &&& status.begin_cpu_idle_timestamps.contains_key(pid)
    &&& status.timestamp - status.begin_cpu_idle_timestamps[pid]
        > config.strategy.cpu_idle_time_limit.max_millis
    &&& is_background_process(status, pid)
    &&& !is_spared_for_sound(status, config, pid)
}

/// The processes that the background time limit terminates.
pub open spec fn background_expired_pids(status: StatusView, config: Config) -> Set<Pid> {
    Set::new(|pid: Pid| background_expired(status, config, pid))
}

/// The processes that the idle time limit terminates.
pub open spec fn cpu_idle_expired_pids(status: StatusView, config: Config) -> Set<Pid> {
    Set::new(|pid: Pid| cpu_idle_expired(status, config, pid))
}

/// A sequence that lists what the memory limit terminates, largest first, is
/// the one that [`rss_selection`] names.
pub proof fn lemma_rss_selection_is(
    status: StatusView,
    config: Config,
    total_rss: Rss,
    q: Seq<Pid>,
)
    requires
        is_rss_selection(status, config, total_rss, q),
    ensures
        q == rss_selection(status, config, total_rss),
{
    let other = rss_selection(status, config, total_rss);
    assert(is_rss_selection(status, config, total_rss, other));
    let before = |a: Pid, b: Pid| outranks(status.system, a, b);
    assert(is_asymmetric(before));
    assert(is_sorted_by(q, before));
    assert(is_sorted_by(other, before));
    lemma_sorted_is_unique(q, other, before);
}

/// Appending a value that is greater than all elements keeps the order.
proof fn lemma_push_ascending(q: Seq<Pid>, x: Pid)
    requires
        strictly_ascending(q),
        forall|i: int| 0 <= i < q.len() ==> q[i] < x,
    ensures
        strictly_ascending(q.push(x)),
        forall|k: Pid| q.push(x).contains(k) <==> q.contains(k) || k == x,
{
    let p = q.push(x);
    assert forall|k: Pid| p.contains(k) <==> q.contains(k) || k == x by {
        if p.contains(k) {
            let i = choose|i: int| 0 <= i < p.len() && p[i] == k;
            if i < q.len() {
                assert(q[i] == k);
            }
        }
        if q.contains(k) {
            let i = choose|i: int| 0 <= i < q.len() && q[i] == k;
            assert(p[i] == k);
        }
        if k == x {
            assert(p[q.len() as int] == k);
        }
    }
}

/// In a list of the background processes by memory, the candidates that
/// outrank the entry at `t` are the candidates that stand behind it.
proof fn lemma_larger_candidates_stand_behind(
    status: StatusView,
    config: Config,
    ranked: Seq<(Pid, Rss)>,
    t: int,
)
    requires
        lists_background_by_memory(status, ranked),
        0 <= t < ranked.len(),
    ensures
        forall|q: Pid|
            larger_candidates(status, config, ranked[t].0).contains(q) <==> rss_candidate(
                status,
                config,
                q,
            ) && exists|j: int| t < j < ranked.len() && ranked[j].0 == q,
{
    let pid = ranked[t].0;
    assert(ranked.contains((ranked[t].0, ranked[t].1)));
    assert forall|q: Pid|
        larger_candidates(status, config, pid).contains(q) <==> rss_candidate(status, config, q)
            && exists|j: int| t < j < ranked.len() && ranked[j].0 == q by {
        if rss_candidate(status, config, q) && outranks(status.system, q, pid) {
            assert(ranked.contains((q, status.system[q].memory)));
            let j = choose|j: int|
                0 <= j < ranked.len() && ranked[j] == (q, status.system[q].memory);
            if j < t {
                assert(ranks_below(ranked[j], ranked[t]));
            }
            assert(t < j < ranked.len() && ranked[j].0 == q);
        }
        if rss_candidate(status, config, q) && exists|j: int|
            t < j < ranked.len() && ranked[j].0 == q {
            let j = choose|j: int| t < j < ranked.len() && ranked[j].0 == q;
            assert(ranked.contains((ranked[j].0, ranked[j].1)));
            assert(ranks_below(ranked[t], ranked[j]));
        }
    }
}

/// Chooses the tabs to terminate for the memory limit, where `total_rss` is
/// the memory that all tabs hold: none while that is within the limit; else
/// the candidates from the largest down, until those chosen free more than
/// the excess.
pub fn kill_tabs_by_rss_limit(status: &Status, config: &Config, total_rss: Rss) -> (killing: Vec<
    Pid,
>)
    ensures
        is_rss_selection(status@, *config, total_rss, killing@),
        killing@ == rss_selection(status@, *config, total_rss),
        forall|i: int|
            0 <= i < killing@.len() ==> !any_pattern_matches(
                config.whitelist@,
                status@.tab_infos[#[trigger] killing@[i]].url@,
            ),
{
    let mut killing: Vec<Pid> = Vec::new();
    let max_bytes = config.strategy.rss_limit.max_bytes;
    if total_rss <= max_bytes {
        proof {
            assert(is_rss_selection(status@, *config, total_rss, killing@));
            lemma_rss_selection_is(status@, *config, total_rss, killing@);
        }
        return killing;
    }
    let ranked = status.get_sorted_pid_rss();
    let excess: u128 = (total_rss - max_bytes) as u128;
    let mut freed: u128 = 0;
    let ghost mut behind: Set<Pid> = Set::empty();
    let mut i: usize = ranked.len();
    proof {
        lemma_memory_sum_empty(status@.system);
    }
    while i > 0 && freed <= excess
        invariant
            i <= ranked.len(),
            total_rss > max_bytes,
            max_bytes == config.strategy.rss_limit.max_bytes,
            excess == total_rss - max_bytes,
            lists_background_by_memory(status@, ranked@),
            behind.finite(),
            forall|q: Pid|
                behind.contains(q) <==> rss_candidate(status@, *config, q) && exists|j: int|
                    i <= j < ranked@.len() && ranked@[j].0 == q,
            freed == memory_sum(status@.system, behind),
            forall|a: int, b: int|
                0 <= a < b < killing@.len() ==> outranks(status@.system, killing@[a], killing@[b]),
            forall|pid: Pid|
                killing@.contains(pid) <==> rss_selected(status@, *config, total_rss, pid)
                    && exists|j: int| i <= j < ranked@.len() && ranked@[j].0 == pid,
        decreases i,
    {
        let t = i - 1;
        let pid = ranked[t].0;
        let rss = ranked[t].1;
        let ghost chosen = killing@;
        let ghost was_behind = behind;
        proof {
            assert(ranked@.contains((ranked@[t as int].0, ranked@[t as int].1)));
            lemma_larger_candidates_stand_behind(status@, *config, ranked@, t as int);
            assert(larger_candidates(status@, *config, pid) =~= behind);
        }
        let mut candidate = false;
        match status.tab_infos.get(&pid) {
            Some(tab) => {
                let spared = config.whitelist_audible && tab.audible;
                if !spared && !is_whitelisted(&config.whitelist, tab.url.as_str()) {
                    candidate = true;
                }
            },
            None => {},
        }
        assert(candidate == rss_candidate(status@, *config, pid));
        if candidate {
            killing.push(pid);
            freed = freed + rss as u128;
            proof {
                if behind.contains(pid) {
                    let j = choose|j: int| i <= j < ranked@.len() && ranked@[j].0 == pid;
                    assert(ranks_below(ranked@[t as int], ranked@[j]));
                    assert(ranked@.contains((ranked@[j].0, ranked@[j].1)));
                }
                lemma_memory_sum_insert(status@.system, behind, pid);
                behind = behind.insert(pid);
                assert forall|a: int, b: int| 0 <= a < b < killing@.len() implies outranks(
                    status@.system,
                    killing@[a],
                    killing@[b],
                ) by {
                    if b == chosen.len() {
                        assert(chosen.contains(chosen[a]));
                        let j = choose|j: int|
                            i <= j < ranked@.len() && ranked@[j].0 == chosen[a];
                        assert(ranks_below(ranked@[t as int], ranked@[j]));
                        assert(ranked@.contains((ranked@[j].0, ranked@[j].1)));
                    } else {
                        assert(outranks(status@.system, chosen[a], chosen[b]));
                    }
                }
            }
        }
        proof {
            assert forall|q: Pid|
                behind.contains(q) <==> rss_candidate(status@, *config, q) && exists|j: int|
                    i - 1 <= j < ranked@.len() && ranked@[j].0 == q by {
                if was_behind.contains(q) {
                    let j = choose|j: int| i <= j < ranked@.len() && ranked@[j].0 == q;
                    assert(i - 1 <= j < ranked@.len() && ranked@[j].0 == q);
                }
                if q == pid {
                    assert(ranked@[t as int].0 == q);
                }
                if rss_candidate(status@, *config, q) && exists|j: int|
                    i - 1 <= j < ranked@.len() && ranked@[j].0 == q {
                    let j = choose|j: int| i - 1 <= j < ranked@.len() && ranked@[j].0 == q;
                    if j >= i {
                        assert(was_behind.contains(q));
                    }
                }
            }
            assert forall|p: Pid|
                killing@.contains(p) <==> rss_selected(status@, *config, total_rss, p)
                    && exists|j: int| i - 1 <= j < ranked@.len() && ranked@[j].0 == p by {
                if chosen.contains(p) {
                    let j = choose|j: int| i <= j < ranked@.len() && ranked@[j].0 == p;
                    assert(i - 1 <= j < ranked@.len() && ranked@[j].0 == p);
                }
                if killing@.contains(p) && !chosen.contains(p) {
                    let a = choose|a: int| 0 <= a < killing@.len() && killing@[a] == p;
                    if a < chosen.len() {
                        assert(chosen[a] == p);
                    }
                    assert(p == pid);
                    assert(ranked@[t as int].0 == p);
                }
                if rss_selected(status@, *config, total_rss, p) && exists|j: int|
                    i - 1 <= j < ranked@.len() && ranked@[j].0 == p {
                    let j = choose|j: int| i - 1 <= j < ranked@.len() && ranked@[j].0 == p;
                    if j >= i {
                        assert(chosen.contains(p));
                        let a = choose|a: int| 0 <= a < chosen.len() && chosen[a] == p;
                        assert(killing@[a] == p);
                    } else {
                        assert(p == pid);
                        assert(killing@[chosen.len() as int] == p);
                    }
                }
            }
        }
        i = i - 1;
    }
    proof {
        assert forall|pid: Pid| rss_selected(
            status@,
            *config,
            total_rss,
            pid,
        ) implies killing@.contains(pid) by {
            assert(ranked@.contains((pid, status@.system[pid].memory)));
            let j = choose|j: int|
                0 <= j < ranked@.len() && ranked@[j] == (pid, status@.system[pid].memory);
            if j < i {
                lemma_larger_candidates_stand_behind(status@, *config, ranked@, j);
                let larger = larger_candidates(status@, *config, pid);
                assert forall|q: Pid| behind.contains(q) implies larger.contains(q) by {
                    let l = choose|l: int| i <= l < ranked@.len() && ranked@[l].0 == q;
                    assert(j < l < ranked@.len() && ranked@[l].0 == q);
                }
                assert forall|q: Pid| larger.contains(q) implies status@.tab_infos.dom().contains(
                    q,
                ) by {}
                vstd::set_lib::lemma_set_subset_finite(status@.tab_infos.dom(), larger);
                lemma_memory_sum_subset(status@.system, behind, larger);
            }
        }
        assert(is_rss_selection(status@, *config, total_rss, killing@));
        lemma_rss_selection_is(status@, *config, total_rss, killing@);
        assert forall|i: int| 0 <= i < killing@.len() implies !any_pattern_matches(
            config.whitelist@,
            status@.tab_infos[#[trigger] killing@[i]].url@,
        ) by {
            assert(killing@.contains(killing@[i]));
        }
    }
    killing
}

/// Chooses the tabs to terminate for the background time limit: every live
/// process whose tab has been in the background for longer than the limit,
/// but never the placeholder, nor a tab spared for its sound.
pub fn kill_tabs_by_background_time_limit(status: &Status, config: &Config) -> (killing: Vec<Pid>)
    ensures
        lists_ascending(background_expired_pids(status@, *config), killing@),
        killing@ == ascending(background_expired_pids(status@, *config)),
        forall|i: int|
            0 <= i < killing@.len() ==> !is_placeholder(
                status@.tab_infos[#[trigger] killing@[i]],
            ),
{
    let placeholder = "New Tab".to_owned();
    let limit = config.strategy.background_time_limit.max_millis;
    let pids = sorted_keys(&status.begin_background_timestamps);
    let mut killing: Vec<Pid> = Vec::new();
    let mut i: usize = 0;
    while i < pids.len()
        invariant
            i <= pids.len(),
            placeholder@ == "New Tab"@,
            limit == config.strategy.background_time_limit.max_millis,
            strictly_ascending(pids@),
            forall|k: Pid|
                pids@.contains(k) <==> status@.begin_background_timestamps.contains_key(k),
            strictly_ascending(killing@),
            forall|pid: Pid|
                killing@.contains(pid) <==> background_expired(status@, *config, pid)
                    && exists|j: int| 0 <= j < i && pids@[j] == pid,
        decreases pids.len() - i,
    {
        let pid = pids[i];
        assert(pids@.contains(pid));
        let ghost chosen = killing@;
        let mut expired = false;
        match status.begin_background_timestamps.get(&pid) {
            Some(since) => {
                if status.timestamp > *since && status.timestamp - *since > limit {
                    match status.tab_infos.get(&pid) {
                        Some(tab) => {
                            let spared = config.whitelist_audible && tab.audible;
                            if !(tab.title == placeholder) && !spared && status.system.contains(
                                pid,
                            ) {
                                expired = true;
                            }
                        },
                        None => {},
                    }
                }
            },
            None => {},
        }
        assert(expired == background_expired(status@, *config, pid));
        if expired {
            proof {
                assert forall|a: int| 0 <= a < chosen.len() implies chosen[a] < pid by {
                    assert(chosen.contains(chosen[a]));
                    let j = choose|j: int| 0 <= j < i && pids@[j] == chosen[a];
                    assert(pids@[j] < pids@[i as int]);
                }
                lemma_push_ascending(chosen, pid);
            }
            killing.push(pid);
        }
        proof {
            assert forall|p: Pid|
                killing@.contains(p) <==> background_expired(status@, *config, p) && exists|j: int|
                    0 <= j < i + 1 && pids@[j] == p by {
                if chosen.contains(p) {
                    let j = choose|j: int| 0 <= j < i && pids@[j] == p;
                    assert(0 <= j < i + 1 && pids@[j] == p);
                }
                if p == pid {
                    assert(pids@[i as int] == p);
                }
                if background_expired(status@, *config, p) && exists|j: int|
                    0 <= j < i + 1 && pids@[j] == p {
                    let j = choose|j: int| 0 <= j < i + 1 && pids@[j] == p;
                    if j < i {
                        assert(chosen.contains(p));
                    }
                }
            }
        }
        i += 1;
    }
    proof {
        assert forall|pid: Pid| killing@.contains(pid) <==> background_expired_pids(
            status@,
            *config,
        ).contains(pid) by {
            if background_expired(status@, *config, pid) {
                assert(pids@.contains(pid));
                let j = choose|j: int| 0 <= j < pids@.len() && pids@[j] == pid;
                assert(0 <= j < i && pids@[j] == pid);
            }
        }
        lemma_ascending_is(background_expired_pids(status@, *config), killing@);
        assert forall|i: int| 0 <= i < killing@.len() implies !is_placeholder(
            status@.tab_infos[#[trigger] killing@[i]],
        ) by {
            assert(killing@.contains(killing@[i]));
        }
    }
    killing
}

/// Chooses the tabs to terminate for the idle time limit: every live process
/// that has not used the CPU for longer than the limit and whose tab is in the
/// background, but no tab spared for its sound.
pub fn kill_tabs_by_cpu_idle_time_limit(status: &Status, config: &Config) -> (killing: Vec<Pid>)
    ensures
        lists_ascending(cpu_idle_expired_pids(status@, *config), killing@),
        killing@ == ascending(cpu_idle_expired_pids(status@, *config)),
{
    let limit = config.strategy.cpu_idle_time_limit.max_millis;
    let pids = sorted_keys(&status.begin_cpu_idle_timestamps);
    let mut killing: Vec<Pid> = Vec::new();
    let mut i: usize = 0;
    while i < pids.len()
        invariant
            i <= pids.len(),
            limit == config.strategy.cpu_idle_time_limit.max_millis,
            strictly_ascending(pids@),
            forall|k: Pid| pids@.contains(k) <==> status@.begin_cpu_idle_timestamps.contains_key(k),
            strictly_ascending(killing@),
            forall|pid: Pid|
                killing@.contains(pid) <==> cpu_idle_expired(status@, *config, pid) && exists|
                    j: int,
                | 0 <= j < i && pids@[j] == pid,
        decreases pids.len() - i,
    {
        let pid = pids[i];
        assert(pids@.contains(pid));
        let ghost chosen = killing@;
        let mut expired = false;
        match status.begin_cpu_idle_timestamps.get(&pid) {
            Some(since) => {
                if status.timestamp > *since && status.timestamp - *since > limit {
                    match status.tab_infos.get(&pid) {
                        Some(tab) => {
                            let spared = config.whitelist_audible && tab.audible;
                            if !tab.active && !spared && status.system.contains(pid) {
                                expired = true;
                            }
                        },
                        None => {},
                    }
                }
            },
            None => {},
        }
        assert(expired == cpu_idle_expired(status@, *config, pid));
        if expired {
            proof {
                assert forall|a: int| 0 <= a < chosen.len() implies chosen[a] < pid by {
                    assert(chosen.contains(chosen[a]));
                    let j = choose|j: int| 0 <= j < i && pids@[j] == chosen[a];
                    assert(pids@[j] < pids@[i as int]);
                }
                lemma_push_ascending(chosen, pid);
            }
            killing.push(pid);
        }
        proof {
            assert forall|p: Pid|
                killing@.contains(p) <==> cpu_idle_expired(status@, *config, p) && exists|j: int|
                    0 <= j < i + 1 && pids@[j] == p by {
                if chosen.contains(p) {
                    let j = choose|j: int| 0 <= j < i && pids@[j] == p;
                    assert(0 <= j < i + 1 && pids@[j] == p);
                }
                if p == pid {
                    assert(pids@[i as int] == p);
                }
                if cpu_idle_expired(status@, *config, p) && exists|j: int|
                    0 <= j < i + 1 && pids@[j] == p {
                    let j = choose|j: int| 0 <= j < i + 1 && pids@[j] == p;
                    if j < i {
                        assert(chosen.contains(p));
                    }
                }
            }
        }
        i += 1;
    }
    proof {
        assert forall|pid: Pid| killing@.contains(pid) <==> cpu_idle_expired_pids(
            status@,
            *config,
        ).contains(pid) by {
            if cpu_idle_expired(status@, *config, pid) {
                assert(pids@.contains(pid));
                let j = choose|j: int| 0 <= j < pids@.len() && pids@[j] == pid;
                assert(0 <= j < i && pids@[j] == pid);
            }
        }
        lemma_ascending_is(cpu_idle_expired_pids(status@, *config), killing@);
    }
    killing
}

/// The processes that `strategy` terminates, in the order in which it does.
pub open spec fn selection(
    status: StatusView,
    config: Config,
    total_rss: Rss,
    strategy: KillTabStrategy,
) -> Seq<Pid> {
    match strategy {
        KillTabStrategy::RssLimit => rss_selection(status, config, total_rss),
        KillTabStrategy::BackgroundTimeLimit => ascending(
            background_expired_pids(status, config),
        ),
        KillTabStrategy::CpuIdleTimeLimit => ascending(cpu_idle_expired_pids(status, config)),
    }
}

/// The processes `pids`, each as a candidate of `strategy`.
pub open spec fn as_candidates(pids: Seq<Pid>, strategy: KillTabStrategy) -> Seq<KillCandidate> {
    Seq::new(pids.len(), |i: int| KillCandidate { pid: pids[i], strategy })
}

/// What the strategies `strategies` terminate when applied one after the
/// other, each to the same status.
pub open spec fn planned(
    status: StatusView,
    config: Config,
    total_rss: Rss,
    strategies: Seq<KillTabStrategy>,
) -> Seq<KillCandidate>
    decreases strategies.len(),
{
    if strategies.len() == 0 {
        Seq::empty()
    } else {
        planned(status, config, total_rss, strategies.drop_last()) + as_candidates(
            selection(status, config, total_rss, strategies.last()),
            strategies.last(),
        )
    }
}

/// The memory of all tabs as the strategies see it: the sum, or the greatest
/// number of its type where the sum exceeds that.
pub open spec fn measured_total_rss(status: StatusView) -> Rss {
    if total_rss_of(status) <= u64::MAX {
        total_rss_of(status) as u64
    } else {
        u64::MAX
    }
}

/// What one pass of the configured strategies terminates: nothing while no
/// tab is known, else what each strategy chooses, in the configured order.
pub open spec fn kill_plan(status: StatusView, config: Config) -> Seq<KillCandidate> {
    if status.tab_infos.dom().len() == 0 {
        Seq::empty()
    } else {
        planned(status, config, measured_total_rss(status), config.kill_tab_strategies@)
    }
}

/// Applies the configured strategies, in their order, to one status and
/// returns the processes to terminate with the strategy that chose each. A
/// process that several strategies choose is returned once for each.
pub fn kill_tabs_by_strategies(status: &Status, config: &Config) -> (plan: Vec<KillCandidate>)
    ensures
        plan@ == kill_plan(status@, *config),
{
    let mut plan: Vec<KillCandidate> = Vec::new();
    if status.tab_infos.len() == 0 {
        return plan;
    }
    let total_rss = status.total_rss();
    let ghost strategies = config.kill_tab_strategies@;
    let mut n: usize = 0;
    while n < config.kill_tab_strategies.len()
        invariant
            n <= strategies.len(),
            strategies == config.kill_tab_strategies@,
            total_rss == measured_total_rss(status@),
            plan@ == planned(status@, *config, total_rss, strategies.take(n as int)),
        decreases config.kill_tab_strategies.len() - n,
    {
        let strategy = config.kill_tab_strategies[n];
        let pids = match strategy {
            KillTabStrategy::RssLimit => kill_tabs_by_rss_limit(status, config, total_rss),
            KillTabStrategy::BackgroundTimeLimit => kill_tabs_by_background_time_limit(
                status,
                config,
            ),
            KillTabStrategy::CpuIdleTimeLimit => kill_tabs_by_cpu_idle_time_limit(status, config),
        };
        assert(pids@ == selection(status@, *config, total_rss, strategy));
        let ghost base = plan@;
        let mut k: usize = 0;
        while k < pids.len()
            invariant
                k <= pids.len(),
                plan@ == base + as_candidates(pids@.take(k as int), strategy),
            decreases pids.len() - k,
        {
            plan.push(KillCandidate { pid: pids[k], strategy });
            assert(as_candidates(pids@.take(k + 1), strategy) =~= as_candidates(
                pids@.take(k as int),
                strategy,
            ).push(KillCandidate { pid: pids@[k as int], strategy }));
            k += 1;
        }
        proof {
            assert(pids@.take(pids@.len() as int) =~= pids@);
            let upto = strategies.take(n + 1);
            assert(upto.drop_last() =~= strategies.take(n as int));
            assert(upto.last() == strategy);
        }
        n += 1;
    }
    assert(strategies.take(strategies.len() as int) =~= strategies);
    plan
}

} // verus!
