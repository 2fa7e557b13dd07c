use std::collections::HashMap;
use tab_memory_manager::config::{
    BackgroundTimeLimit, Config, CpuIdleTimeLimit, KillTabStrategy, RssLimit, Strategy,
};
use tab_memory_manager::process::{CommandLine, ProcessInfo, ProcessTable};
use tab_memory_manager::status::Status;
use tab_memory_manager::tab_data_requester::{MutedInfo, TabInfo};
use tab_memory_manager::tab_killer::{
    kill_tabs_by_background_time_limit, kill_tabs_by_cpu_idle_time_limit, kill_tabs_by_rss_limit,
    kill_tabs_by_strategies,
};
use tab_memory_manager::whitelist::UrlPattern;

fn killer_tab(title: &str, url: &str, active: bool, audible: bool, last_accessed: u64) -> TabInfo {
    TabInfo {
        active,
        audible,
        auto_discardable: true,
        discarded: false,
        fav_icon_url: None,
        group_id: -1,
        height: 900,
        highlighted: active,
        id: 1,
        incognito: false,
        index: 0,
        last_accessed,
        muted_info: MutedInfo { muted: false },
        pinned: false,
        selected: active,
        status: "complete".to_string(),
        title: title.to_string(),
        url: url.to_string(),
        width: 1600,
        window_id: 1,
        browser_inner_pid: 1,
    }
}

fn killer_config(max_bytes: u64, whitelist: &[&str], whitelist_audible: bool) -> Config {
    Config {
        browser_name: "chrome".to_string(),
        kill_tab_strategies: vec![KillTabStrategy::RssLimit],
        check_interval: 1000,
        whitelist_audible,
        whitelist: whitelist.iter().map(|source| UrlPattern::new(source).unwrap()).collect(),
        strategy: Strategy {
            rss_limit: RssLimit { max_bytes },
            background_time_limit: BackgroundTimeLimit { max_millis: 60_000 },
            cpu_idle_time_limit: CpuIdleTimeLimit { max_millis: 60_000 },
        },
    }
}

fn killer_status(timestamp: u64, entries: Vec<(u32, u64, bool, TabInfo)>) -> Status {
    let mut status = Status::new();
    let mut tabs = HashMap::new();
    for (pid, memory, cpu_busy, tab) in entries {
        status.system.insert(
            pid,
            ProcessInfo {
                name: "chrome".to_string(),
                command_line: CommandLine::Missing,
                memory,
                cpu_busy,
            },
        );
        tabs.insert(pid, tab);
    }
    status.update(tabs, timestamp, "chrome");
    status
}

fn killer_three_tabs() -> Status {
    killer_status(
        1000,
        vec![
            (1, 100, false, killer_tab("Active", "https://a.example/", true, false, 1)),
            (2, 100, false, killer_tab("Small", "https://small.example/", false, false, 1)),
            (3, 300, false, killer_tab("Medium", "https://medium.example/", false, false, 1)),
            (4, 500, false, killer_tab("Large", "https://large.example/", false, false, 1)),
        ],
    )
}

#[test]
fn rss_limit_frees_the_excess_with_the_largest_tabs() {
    let status = killer_three_tabs();
    assert_eq!(status.total_rss(), 1000);
    let config = killer_config(600, &[], false);
    assert_eq!(kill_tabs_by_rss_limit(&status, &config, 1000), vec![4]);
}

#[test]
fn rss_limit_goes_on_while_the_excess_is_not_exceeded() {
    let status = killer_three_tabs();
    assert_eq!(kill_tabs_by_rss_limit(&status, &killer_config(500, &[], false), 1000), vec![4, 3]);
    assert_eq!(kill_tabs_by_rss_limit(&status, &killer_config(501, &[], false), 1000), vec![4]);
    assert_eq!(kill_tabs_by_rss_limit(&status, &killer_config(200, &[], false), 1000), vec![4, 3, 2]);
    assert_eq!(kill_tabs_by_rss_limit(&status, &killer_config(0, &[], false), 1000), vec![4, 3, 2]);
}

#[test]
fn rss_limit_does_nothing_within_the_limit() {
    let status = killer_three_tabs();
    assert!(kill_tabs_by_rss_limit(&status, &killer_config(1000, &[], false), 1000).is_empty());
    assert!(kill_tabs_by_rss_limit(&status, &killer_config(5000, &[], false), 1000).is_empty());
    assert_eq!(kill_tabs_by_rss_limit(&status, &killer_config(999, &[], false), 1000), vec![4]);
}

#[test]
fn rss_limit_spares_whitelisted_urls() {
    let status = killer_three_tabs();
    let config = killer_config(600, &[r"^https://large\.example/"], false);
    assert_eq!(kill_tabs_by_rss_limit(&status, &config, 1000), vec![3, 2]);
    let config = killer_config(0, &["large", "small"], false);
    assert_eq!(kill_tabs_by_rss_limit(&status, &config, 1000), vec![3]);
    let config = killer_config(0, &["example"], false);
    assert!(kill_tabs_by_rss_limit(&status, &config, 1000).is_empty());
}

#[test]
fn rss_limit_spares_audible_tabs_when_configured() {
    let status = killer_status(
        1000,
        vec![
            (2, 100, false, killer_tab("Small", "https://s.example/", false, false, 1)),
            (4, 500, false, killer_tab("Large", "https://l.example/", false, true, 1)),
        ],
    );
    assert_eq!(kill_tabs_by_rss_limit(&status, &killer_config(100, &[], true), 600), vec![2]);
    assert_eq!(kill_tabs_by_rss_limit(&status, &killer_config(100, &[], false), 600), vec![4, 2]);
    assert_eq!(kill_tabs_by_rss_limit(&status, &killer_config(101, &[], false), 600), vec![4]);
}

#[test]
fn rss_limit_never_chooses_the_active_tab_or_a_dead_process() {
    let mut status = killer_status(
        1000,
        vec![
            (1, 900, false, killer_tab("Active", "https://a.example/", true, false, 1)),
            (2, 100, false, killer_tab("Small", "https://s.example/", false, false, 1)),
            (3, 700, false, killer_tab("Gone", "https://g.example/", false, false, 1)),
        ],
    );
    let mut system = ProcessTable::new();
    for pid in [1u32, 2] {
        system.insert(
            pid,
            ProcessInfo {
                name: "chrome".to_string(),
                command_line: CommandLine::Missing,
                memory: if pid == 1 { 900 } else { 100 },
                cpu_busy: false,
            },
        );
    }
    status.system = system;
    assert_eq!(status.total_rss(), 1000);
    assert_eq!(kill_tabs_by_rss_limit(&status, &killer_config(0, &[], false), 1000), vec![2]);
}

#[test]
fn rss_limit_breaks_ties_by_process() {
    let status = killer_status(
        1000,
        vec![
            (2, 300, false, killer_tab("A", "https://a.example/", false, false, 1)),
            (9, 300, false, killer_tab("B", "https://b.example/", false, false, 1)),
            (5, 300, false, killer_tab("C", "https://c.example/", false, false, 1)),
        ],
    );
    assert_eq!(kill_tabs_by_rss_limit(&status, &killer_config(500, &[], false), 900), vec![9, 5]);
}

#[test]
fn background_limit_chooses_tabs_that_are_over_it() {
    let status = killer_status(
        100_000,
        vec![
            (1, 10, false, killer_tab("Active", "https://a.example/", true, false, 1)),
            (2, 10, false, killer_tab("Old", "https://o.example/", false, false, 10_000)),
            (3, 10, false, killer_tab("Edge", "https://e.example/", false, false, 40_000)),
            (4, 10, false, killer_tab("Over", "https://v.example/", false, false, 39_999)),
            (5, 10, false, killer_tab("Recent", "https://r.example/", false, false, 90_000)),
        ],
    );
    let config = killer_config(0, &[], false);
    assert_eq!(kill_tabs_by_background_time_limit(&status, &config), vec![2, 4]);
}

#[test]
fn background_limit_never_chooses_the_placeholder() {
    let status = killer_status(
        100_000,
        vec![
            (2, 10, false, killer_tab("New Tab", "chrome://newtab/", false, false, 1)),
            (3, 10, false, killer_tab("Old", "https://o.example/", false, false, 1)),
        ],
    );
    let config = killer_config(0, &[], false);
    assert_eq!(kill_tabs_by_background_time_limit(&status, &config), vec![3]);
}

#[test]
fn background_limit_spares_audible_tabs_when_configured() {
    let status = killer_status(
        100_000,
        vec![
            (2, 10, false, killer_tab("Radio", "https://r.example/", false, true, 1)),
            (3, 10, false, killer_tab("Old", "https://o.example/", false, false, 1)),
        ],
    );
    assert_eq!(
        kill_tabs_by_background_time_limit(&status, &killer_config(0, &[], true)),
        vec![3]
    );
    assert_eq!(
        kill_tabs_by_background_time_limit(&status, &killer_config(0, &[], false)),
        vec![2, 3]
    );
}

#[test]
fn background_limit_ignores_the_url_whitelist() {
    let status = killer_status(
        100_000,
        vec![(3, 10, false, killer_tab("Old", "https://o.example/", false, false, 1))],
    );
    let config = killer_config(0, &["example"], false);
    assert_eq!(kill_tabs_by_background_time_limit(&status, &config), vec![3]);
}

#[test]
fn background_limit_tolerates_a_timer_ahead_of_the_clock() {
    let status = killer_status(
        1000,
        vec![(3, 10, false, killer_tab("Ahead", "https://o.example/", false, false, 5000))],
    );
    let mut config = killer_config(0, &[], false);
    config.strategy.background_time_limit.max_millis = 0;
    assert!(kill_tabs_by_background_time_limit(&status, &config).is_empty());
}

#[test]
fn cpu_idle_limit_chooses_idle_background_tabs() {
    let mut status = killer_status(
        10_000,
        vec![
            (1, 10, false, killer_tab("Active", "https://a.example/", true, false, 1)),
            (2, 10, false, killer_tab("Idle", "https://i.example/", false, false, 1)),
            (3, 10, true, killer_tab("Busy", "https://b.example/", false, false, 1)),
            (4, 10, false, killer_tab("New Tab", "chrome://newtab/", false, false, 1)),
            (5, 10, false, killer_tab("Radio", "https://r.example/", false, true, 1)),
        ],
    );
    let snapshot = status.tab_infos.clone();
    status.update(snapshot.clone(), 60_000, "chrome");
    status.update(snapshot, 80_000, "chrome");
    assert_eq!(status.begin_cpu_idle_timestamps[&2], 10_000);
    assert_eq!(status.begin_cpu_idle_timestamps[&3], 80_000);
    assert_eq!(
        kill_tabs_by_cpu_idle_time_limit(&status, &killer_config(0, &[], false)),
        vec![2, 4, 5]
    );
    assert_eq!(
        kill_tabs_by_cpu_idle_time_limit(&status, &killer_config(0, &[], true)),
        vec![2, 4]
    );
    let mut config = killer_config(0, &[], false);
    config.strategy.cpu_idle_time_limit.max_millis = 70_000;
    assert!(kill_tabs_by_cpu_idle_time_limit(&status, &config).is_empty());
    config.strategy.cpu_idle_time_limit.max_millis = 69_999;
    assert_eq!(kill_tabs_by_cpu_idle_time_limit(&status, &config), vec![2, 4, 5]);
}

#[test]
fn strategies_apply_in_configured_order() {
    let status = killer_status(
        100_000,
        vec![
            (1, 100, false, killer_tab("Active", "https://a.example/", true, false, 1)),
            (2, 100, false, killer_tab("Small", "https://s.example/", false, false, 10_000)),
            (3, 300, false, killer_tab("Medium", "https://m.example/", false, false, 90_000)),
            (4, 500, false, killer_tab("Large", "https://l.example/", false, false, 20_000)),
        ],
    );
    let mut config = killer_config(600, &[], false);
    config.kill_tab_strategies = vec![
        KillTabStrategy::BackgroundTimeLimit,
        KillTabStrategy::RssLimit,
        KillTabStrategy::CpuIdleTimeLimit,
    ];
    let plan: Vec<(u32, KillTabStrategy)> = kill_tabs_by_strategies(&status, &config)
        .iter()
        .map(|candidate| (candidate.pid, candidate.strategy))
        .collect();
    assert_eq!(
        plan,
        vec![
            (2, KillTabStrategy::BackgroundTimeLimit),
            (4, KillTabStrategy::BackgroundTimeLimit),
            (4, KillTabStrategy::RssLimit),
        ]
    );
}

#[test]
fn strategies_do_nothing_without_tabs_or_strategies() {
    let empty = Status::new();
    let config = killer_config(0, &[], false);
    assert!(kill_tabs_by_strategies(&empty, &config).is_empty());
    let status = killer_three_tabs();
    let mut config = killer_config(0, &[], false);
    config.kill_tab_strategies = Vec::new();
    assert!(kill_tabs_by_strategies(&status, &config).is_empty());
}

#[test]
fn strategies_measure_the_memory_themselves() {
    let status = killer_three_tabs();
    let plan = kill_tabs_by_strategies(&status, &killer_config(600, &[], false));
    assert_eq!(plan.len(), 1);
    assert_eq!(plan[0].pid, 4);
    assert_eq!(plan[0].strategy, KillTabStrategy::RssLimit);
}
