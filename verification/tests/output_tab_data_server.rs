use std::collections::HashMap;
use tab_memory_manager::output_tab_data_server::{generate_output_tab_data, generate_output_tab_infos};
use tab_memory_manager::process::{CommandLine, ProcessInfo, ProcessTable};
use tab_memory_manager::status::Status;
use tab_memory_manager::tab_data_requester::{MutedInfo, TabInfo};

fn report_tab(title: &str, active: bool, last_accessed: u64) -> TabInfo {
    TabInfo {
        active,
        audible: false,
        auto_discardable: true,
        discarded: false,
        fav_icon_url: None,
        group_id: -1,
        height: 900,
        highlighted: active,
        id: 1,
        incognito: false,
        index: 0,
        last_accessed,
        muted_info: MutedInfo { muted: false },
        pinned: false,
        selected: active,
        status: "complete".to_string(),
        title: title.to_string(),
        url: "https://example.com/".to_string(),
        width: 1600,
        window_id: 1,
        browser_inner_pid: 1,
    }
}

fn report_system(entries: &[(u32, u64, bool)]) -> ProcessTable {
    let mut table = ProcessTable::new();
    for &(pid, memory, cpu_busy) in entries {
        table.insert(
            pid,
            ProcessInfo {
                name: "chrome".to_string(),
                command_line: CommandLine::Missing,
                memory,
                cpu_busy,
            },
        );
    }
    table
}

#[test]
fn report_lists_tabs_with_process_and_timers() {
    let mut status = Status::new();
    status.system = report_system(&[(20, 300, true), (10, 200, false), (30, 50, false)]);
    let mut tabs = HashMap::new();
    tabs.insert(20u32, report_tab("Mail", true, 1));
    tabs.insert(10u32, report_tab("News", false, 400));
    tabs.insert(30u32, report_tab("New Tab", false, 1));
    tabs.insert(40u32, report_tab("Gone", false, 1));
    status.update(tabs, 1000, "chrome");
    let rows = generate_output_tab_infos(&status);
    assert_eq!(rows.len(), 2);
    assert_eq!(rows[0].pid, 10);
    assert_eq!(rows[0].title, "News");
    assert_eq!(rows[0].rss, 200);
    assert!(!rows[0].foreground);
    assert_eq!(rows[0].background_time, 600);
    assert!(!rows[0].cpu_busy);
    assert_eq!(rows[0].cpu_idle_time, 0);
    assert_eq!(rows[1].pid, 20);
    assert_eq!(rows[1].title, "Mail");
    assert_eq!(rows[1].rss, 300);
    assert!(rows[1].foreground);
    assert_eq!(rows[1].background_time, 0);
    assert!(rows[1].cpu_busy);
}

#[test]
fn report_carries_the_time_of_the_status() {
    let mut status = Status::new();
    status.system = report_system(&[(10, 200, false)]);
    let mut tabs = HashMap::new();
    tabs.insert(10u32, report_tab("News", false, 5000));
    status.update(tabs.clone(), 1000, "chrome");
    status.update(tabs, 3000, "chrome");
    let report = generate_output_tab_data(&status);
    assert_eq!(report.timestamp, 3000);
    assert_eq!(report.tab_infos.len(), 1);
    assert_eq!(report.tab_infos[0].background_time, 0);
    assert_eq!(report.tab_infos[0].cpu_idle_time, 2000);
}

#[test]
fn report_of_an_empty_status_is_empty() {
    let report = generate_output_tab_data(&Status::new());
    assert_eq!(report.timestamp, 0);
    assert!(report.tab_infos.is_empty());
}
