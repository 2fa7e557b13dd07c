//! What the operating system reports about its processes, as plain values.
use std::collections::HashMap;
use vstd::prelude::*;

verus! {

/// An operating-system process identifier.
pub type Pid = u32;

/// Resident set size of a process, in bytes.
pub type Rss = u64;

/// The first element of a process's launch command, as far as it could be read.
#[derive(Clone, Debug)]
pub enum CommandLine {
    /// The process reports no command at all.
    Missing,
    /// The command is not valid UTF-8.
    Undecodable,
    /// The command, decoded.
    Text(String),
}

/// One live process.
#[derive(Clone, Debug)]
pub struct ProcessInfo {
    /// Name of the executable image.
    pub name: String,
    pub command_line: CommandLine,
    /// Resident memory, in bytes.
    pub memory: Rss,
    /// Whether the process used any CPU since the previous measurement.
    pub cpu_busy: bool,
}

/// The processes that were alive when the table was captured, by identifier.
#[derive(Debug)]
pub struct ProcessTable {
    pub processes: HashMap<Pid, ProcessInfo>,
}

impl View for ProcessTable {
    type V = Map<Pid, ProcessInfo>;

    open spec fn view(&self) -> Map<Pid, ProcessInfo> {
        self.processes@
    }
}

/// Some live process runs the executable `browser_name`.
pub open spec fn browser_is_running(system: Map<Pid, ProcessInfo>, browser_name: Seq<char>) -> bool {
    exists|pid: Pid| #[trigger] system.contains_key(pid) && system[pid].name@ == browser_name
}

/// Memory of `pid`, or zero when the process is gone.
pub open spec fn memory_of(system: Map<Pid, ProcessInfo>, pid: Pid) -> nat {
    if system.contains_key(pid) {
        system[pid].memory as nat
    } else {
        0
    }
}

/// The memory that the processes `pids` hold together.
pub open spec fn memory_sum(system: Map<Pid, ProcessInfo>, pids: Set<Pid>) -> int {
    pids.fold(0int, |sum: int, pid: Pid| sum + memory_of(system, pid))
}

/// Without processes no memory is held.
pub proof fn lemma_memory_sum_empty(system: Map<Pid, ProcessInfo>)
    ensures
        memory_sum(system, Set::empty()) == 0,
{
    vstd::set::fold::lemma_fold_empty(0int, |sum: int, pid: Pid| sum + memory_of(system, pid));
}

/// One more process adds its memory to the sum.
pub proof fn lemma_memory_sum_insert(system: Map<Pid, ProcessInfo>, pids: Set<Pid>, pid: Pid)
    requires
        pids.finite(),
        !pids.contains(pid),
    ensures
        memory_sum(system, pids.insert(pid)) == memory_sum(system, pids) + memory_of(system, pid),
{
    let f = |sum: int, pid: Pid| sum + memory_of(system, pid);
    assert(vstd::set::fold::is_fun_commutative(f));
    vstd::set::fold::lemma_fold_insert(pids, 0int, f, pid);
}

/// A part holds no more memory than the whole.
pub proof fn lemma_memory_sum_subset(system: Map<Pid, ProcessInfo>, part: Set<Pid>, whole: Set<Pid>)
    requires
        whole.finite(),
        part.subset_of(whole),
    ensures
        0 <= memory_sum(system, part) <= memory_sum(system, whole),
    decreases whole.len(),
{
    if whole.len() == 0 {
        assert(whole =~= Set::empty());
        assert(part =~= Set::empty());
        lemma_memory_sum_empty(system);
    } else {
        let pid = whole.choose();
        let rest = whole.remove(pid);
        assert(whole =~= rest.insert(pid));
        lemma_memory_sum_insert(system, rest, pid);
        if part.contains(pid) {
            let part_rest = part.remove(pid);
            assert(part =~= part_rest.insert(pid));
            vstd::set_lib::lemma_set_subset_finite(whole, part);
            lemma_memory_sum_insert(system, part_rest, pid);
            lemma_memory_sum_subset(system, part_rest, rest);
        } else {
            lemma_memory_sum_subset(system, part, rest);
        }
    }
}

impl Default for ProcessTable {
    /// A table without processes.
    fn default() -> (table: ProcessTable)
        ensures
            table@ == Map::<Pid, ProcessInfo>::empty(),
    {
        ProcessTable::new()
    }
}

impl ProcessTable {
    /// A table without processes.
    pub fn new() -> (table: ProcessTable)
        ensures
            table@ == Map::<Pid, ProcessInfo>::empty(),
    {
        ProcessTable { processes: HashMap::new() }
    }

    /// Records `info` as the process `pid`, replacing an earlier entry.
    pub fn insert(&mut self, pid: Pid, info: ProcessInfo)
        ensures
            final(self)@ == old(self)@.insert(pid, info),
    {
        broadcast use vstd::std_specs::hash::group_hash_axioms;
        self.processes.insert(pid, info);
    }

    /// The process `pid`, if it is alive.
    pub fn process(&self, pid: Pid) -> (found: Option<&ProcessInfo>)
        ensures
            found is Some <==> self@.contains_key(pid),
            found is Some ==> *found->0 == self@[pid],
    {
        broadcast use vstd::std_specs::hash::group_hash_axioms;
        self.processes.get(&pid)
    }

    /// Whether `pid` is alive.
    pub fn contains(&self, pid: Pid) -> (alive: bool)
        ensures
            alive == self@.contains_key(pid),
    {
        broadcast use vstd::std_specs::hash::group_hash_axioms;
        self.processes.contains_key(&pid)
    }

    /// Memory of `pid`, or zero when the process is gone.
    pub fn memory(&self, pid: Pid) -> (bytes: Rss)
        ensures
            bytes == memory_of(self@, pid),
    {
        match self.process(pid) {
            Some(info) => info.memory,
            None => 0,
        }
    }

    /// Whether any live process runs the executable `browser_name`.
    pub fn has_process_named(&self, browser_name: &str) -> (found: bool)
        ensures
            found == browser_is_running(self@, browser_name@),
    {
        let wanted = browser_name.to_owned();
        let pids = crate::keys::sorted_keys(&self.processes);
        let mut i: usize = 0;
        while i < pids.len()
            invariant
                i <= pids.len(),
                wanted@ == browser_name@,
                forall|k: Pid| pids@.contains(k) <==> self@.contains_key(k),
                forall|j: int| 0 <= j < i ==> self@[#[trigger] pids@[j]].name@ != browser_name@,
            decreases pids.len() - i,
        {
            let pid = pids[i];
            assert(pids@.contains(pid));
            match self.process(pid) {
                Some(info) => {
                    if info.name == wanted {
                        return true;
                    }
                },
                None => {},
            }
            i += 1;
        }
        proof {
            assert forall|pid: Pid| self@.contains_key(pid) implies self@[pid].name@
                != browser_name@ by {
                assert(pids@.contains(pid));
                let j = choose|j: int| 0 <= j < pids@.len() && pids@[j] == pid;
                assert(self@[pids@[j]].name@ != browser_name@);
            }
        }
        false
    }
}

} // verus!
