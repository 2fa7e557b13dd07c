use std::collections::HashMap;
use tab_memory_manager::process::{CommandLine, ProcessInfo, ProcessTable};
use tab_memory_manager::status::Status;
use tab_memory_manager::tab_data_requester::{
    carry_renderers, has_same_tabs, join_tabs, Incoming, MutedInfo, TabData, TabInfo,
};

fn requester_tab(title: &str, browser_inner_pid: u64, active: bool, last_accessed: u64) -> TabInfo {
    TabInfo {
        active,
        audible: false,
        auto_discardable: true,
        discarded: false,
        fav_icon_url: Some("https://example.com/favicon.ico".to_string()),
        group_id: -1,
        height: 900,
        highlighted: active,
        id: browser_inner_pid * 10,
        incognito: false,
        index: 0,
        last_accessed,
        muted_info: MutedInfo { muted: false },
        pinned: false,
        selected: active,
        status: "complete".to_string(),
        title: title.to_string(),
        url: "https://example.com/".to_string(),
        width: 1600,
        window_id: 1,
        browser_inner_pid,
    }
}

fn requester_renderer(id: u64, memory: u64) -> ProcessInfo {
    ProcessInfo {
        name: "chrome".to_string(),
        command_line: CommandLine::Text(format!("chrome --type=renderer --renderer-client-id={id}")),
        memory,
        cpu_busy: false,
    }
}

fn requester_system(renderers: &[(u32, u64)]) -> ProcessTable {
    let mut table = ProcessTable::new();
    table.insert(
        1,
        ProcessInfo {
            name: "chrome".to_string(),
            command_line: CommandLine::Text("chrome".to_string()),
            memory: 1,
            cpu_busy: false,
        },
    );
    for &(pid, id) in renderers {
        table.insert(pid, requester_renderer(id, 100));
    }
    table
}

#[test]
fn same_tabs_compares_renderers_with_the_snapshot() {
    let mut tabs = HashMap::new();
    tabs.insert(11u32, requester_tab("A", 5, false, 1));
    tabs.insert(12u32, requester_tab("B", 6, false, 1));
    let same = vec![requester_tab("B2", 6, false, 1), requester_tab("A2", 5, true, 1)];
    assert!(has_same_tabs(&tabs, &same));
    let fewer = vec![requester_tab("A", 5, false, 1)];
    assert!(!has_same_tabs(&tabs, &fewer));
    let other = vec![requester_tab("A", 5, false, 1), requester_tab("C", 7, false, 1)];
    assert!(!has_same_tabs(&tabs, &other));
    let repeated = vec![requester_tab("A", 5, false, 1), requester_tab("A", 5, false, 1)];
    assert!(has_same_tabs(&tabs, &repeated));
    assert!(has_same_tabs(&HashMap::new(), &Vec::new()));
    assert!(!has_same_tabs(&HashMap::new(), &fewer));
}

#[test]
fn carried_renderers_come_from_the_snapshot() {
    let mut tabs = HashMap::new();
    tabs.insert(11u32, requester_tab("A", 5, false, 1));
    tabs.insert(12u32, requester_tab("B", 6, false, 1));
    tabs.insert(40u32, requester_tab("C", 5, false, 1));
    let carried = carry_renderers(&tabs);
    let mut expected = HashMap::new();
    expected.insert(5u64, 40u32);
    expected.insert(6u64, 12u32);
    assert_eq!(carried, expected);
}

#[test]
fn join_files_tabs_under_live_processes() {
    let system = requester_system(&[(11, 5), (12, 6)]);
    let mut pids = HashMap::new();
    pids.insert(5u64, 11u32);
    pids.insert(6u64, 12u32);
    pids.insert(7u64, 13u32);
    let received = vec![
        requester_tab("A", 5, false, 1),
        requester_tab("B", 6, false, 1),
        requester_tab("Dead", 7, false, 1),
        requester_tab("Unknown", 8, false, 1),
        requester_tab("A later", 5, false, 1),
    ];
    let tabs = join_tabs(received, &pids, &system);
    assert_eq!(tabs.len(), 2);
    assert_eq!(tabs[&11].title, "A later");
    assert_eq!(tabs[&12].title, "B");
}

#[test]
fn take_in_resolves_tabs_by_scanning() {
    let mut status = Status::new();
    let data = TabData {
        timestamp: 1000,
        tab_infos: vec![requester_tab("A", 5, true, 1), requester_tab("B", 6, false, 700)],
    };
    status.take_in(data, requester_system(&[(11, 5), (12, 6), (13, 7)]), "chrome");
    assert_eq!(status.timestamp, 1000);
    assert_eq!(status.tab_infos.len(), 2);
    assert_eq!(status.tab_infos[&11].title, "A");
    assert_eq!(status.tab_infos[&12].title, "B");
    assert_eq!(status.begin_background_timestamps[&11], 1000);
    assert_eq!(status.begin_background_timestamps[&12], 700);
    assert_eq!(status.system.processes.len(), 4);
}

#[test]
fn take_in_reuses_renderers_while_tabs_are_the_same() {
    let mut status = Status::new();
    let tabs = || vec![requester_tab("A", 5, true, 1), requester_tab("B", 6, false, 700)];
    status.take_in(
        TabData { timestamp: 1000, tab_infos: tabs() },
        requester_system(&[(11, 5), (12, 6)]),
        "chrome",
    );
    // The renderers now run elsewhere, but the tabs are the same: the old
    // processes are gone, so no tab is left.
    status.take_in(
        TabData { timestamp: 2000, tab_infos: tabs() },
        requester_system(&[(21, 5), (22, 6)]),
        "chrome",
    );
    assert!(status.tab_infos.is_empty());
    // The tabs differ from the empty snapshot: the processes are scanned again.
    status.take_in(
        TabData { timestamp: 3000, tab_infos: tabs() },
        requester_system(&[(21, 5), (22, 6)]),
        "chrome",
    );
    assert_eq!(status.tab_infos.len(), 2);
    assert_eq!(status.tab_infos[&21].title, "A");
    assert_eq!(status.tab_infos[&22].title, "B");
}

#[test]
fn take_in_scans_again_when_a_tab_opens() {
    let mut status = Status::new();
    status.take_in(
        TabData { timestamp: 1000, tab_infos: vec![requester_tab("A", 5, true, 1)] },
        requester_system(&[(11, 5)]),
        "chrome",
    );
    status.take_in(
        TabData {
            timestamp: 2000,
            tab_infos: vec![requester_tab("A", 5, false, 1500), requester_tab("B", 6, true, 1)],
        },
        requester_system(&[(11, 5), (12, 6)]),
        "chrome",
    );
    assert_eq!(status.tab_infos.len(), 2);
    assert_eq!(status.begin_background_timestamps[&11], 1500);
    assert_eq!(status.begin_background_timestamps[&12], 2000);
    assert_eq!(status.begin_cpu_idle_timestamps[&11], 1000);
    assert_eq!(status.begin_cpu_idle_timestamps[&12], 2000);
}

#[test]
fn empty_tab_data_empties_the_status() {
    let mut status = Status::new();
    status.take_in(
        TabData { timestamp: 1000, tab_infos: vec![requester_tab("A", 5, true, 1)] },
        requester_system(&[(11, 5)]),
        "chrome",
    );
    assert_eq!(status.tab_infos.len(), 1);
    let reply = status.receive(
        Incoming::Payload {
            data: TabData { timestamp: 4242, tab_infos: Vec::new() },
            system: requester_system(&[(11, 5)]),
        },
        "chrome",
    );
    assert_eq!(reply, Some(Ok(())));
    assert_eq!(status.timestamp, 4242);
    assert!(status.tab_infos.is_empty());
    assert!(status.begin_background_timestamps.is_empty());
    assert!(status.begin_cpu_idle_timestamps.is_empty());
}

#[test]
fn same_tab_data_twice_changes_nothing() {
    let mut status = Status::new();
    let tabs = || vec![requester_tab("A", 5, true, 1), requester_tab("B", 6, false, 700)];
    status.take_in(
        TabData { timestamp: 500, tab_infos: vec![requester_tab("B", 6, false, 800)] },
        requester_system(&[(11, 5), (12, 6)]),
        "chrome",
    );
    status.take_in(
        TabData { timestamp: 1000, tab_infos: tabs() },
        requester_system(&[(11, 5), (12, 6)]),
        "chrome",
    );
    let background = status.begin_background_timestamps.clone();
    let idle = status.begin_cpu_idle_timestamps.clone();
    status.take_in(
        TabData { timestamp: 1000, tab_infos: tabs() },
        requester_system(&[(11, 5), (12, 6)]),
        "chrome",
    );
    assert_eq!(status.begin_background_timestamps, background);
    assert_eq!(status.begin_cpu_idle_timestamps, idle);
    assert_eq!(background[&11], 1000);
    assert_eq!(background[&12], 800);
    assert_eq!(idle[&11], 1000);
    assert_eq!(idle[&12], 500);
}

#[test]
fn malformed_frame_is_reported_and_changes_nothing() {
    let mut status = Status::new();
    status.take_in(
        TabData { timestamp: 1000, tab_infos: vec![requester_tab("A", 5, true, 1)] },
        requester_system(&[(11, 5)]),
        "chrome",
    );
    let reply = status.receive(
        Incoming::Malformed { reason: "Failed to parse json: EOF".to_string() },
        "chrome",
    );
    assert_eq!(reply, Some(Err("Failed to parse json: EOF".to_string())));
    assert_eq!(status.timestamp, 1000);
    assert_eq!(status.tab_infos.len(), 1);
}

#[test]
fn binary_frame_is_ignored() {
    let mut status = Status::new();
    status.take_in(
        TabData { timestamp: 1000, tab_infos: vec![requester_tab("A", 5, true, 1)] },
        requester_system(&[(11, 5)]),
        "chrome",
    );
    assert_eq!(status.receive(Incoming::Binary, "chrome"), None);
    assert_eq!(status.timestamp, 1000);
    assert_eq!(status.tab_infos.len(), 1);
}

#[test]
fn tabs_are_dropped_while_the_browser_is_not_running() {
    let mut status = Status::new();
    let mut system = ProcessTable::new();
    system.insert(
        11,
        ProcessInfo {
            name: "chromium".to_string(),
            command_line: CommandLine::Text("chromium --renderer-client-id=5".to_string()),
            memory: 1,
            cpu_busy: false,
        },
    );
    status.take_in(
        TabData { timestamp: 1000, tab_infos: vec![requester_tab("A", 5, true, 1)] },
        system,
        "chrome",
    );
    assert!(status.tab_infos.is_empty());
    assert_eq!(status.timestamp, 1000);
}
