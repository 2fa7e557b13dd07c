use std::collections::HashMap;
use tab_memory_manager::process::{CommandLine, ProcessInfo, ProcessTable};
use tab_memory_manager::process_identifier::{
    identify, renderer_client_id, scan_renderers, Identification, RendererId,
};

fn scan_process(name: &str, command: CommandLine) -> ProcessInfo {
    ProcessInfo { name: name.to_string(), command_line: command, memory: 0, cpu_busy: false }
}

fn scan_text(line: &str) -> CommandLine {
    CommandLine::Text(line.to_string())
}

#[test]
fn finds_identifier_among_arguments() {
    let line = "/opt/chrome/chrome --type=renderer --renderer-client-id=42 --lang=en-US";
    assert_eq!(renderer_client_id(line), RendererId::Found(42));
}

#[test]
fn finds_identifier_at_start_and_end() {
    assert_eq!(renderer_client_id("--renderer-client-id=7"), RendererId::Found(7));
    assert_eq!(renderer_client_id("chrome --renderer-client-id=0"), RendererId::Found(0));
    assert_eq!(renderer_client_id("  --renderer-client-id=15  "), RendererId::Found(15));
}

#[test]
fn command_without_flag_is_no_renderer() {
    assert_eq!(renderer_client_id(""), RendererId::Absent);
    assert_eq!(renderer_client_id("   "), RendererId::Absent);
    assert_eq!(renderer_client_id("/opt/chrome/chrome --type=gpu-process"), RendererId::Absent);
    assert_eq!(renderer_client_id("chrome --renderer-client-id"), RendererId::Absent);
}

#[test]
fn flag_must_begin_an_argument() {
    assert_eq!(renderer_client_id("chrome x--renderer-client-id=5"), RendererId::Absent);
    assert_eq!(renderer_client_id("chrome --x=--renderer-client-id=5"), RendererId::Absent);
}

#[test]
fn first_flag_decides() {
    assert_eq!(
        renderer_client_id("chrome --renderer-client-id=3 --renderer-client-id=9"),
        RendererId::Found(3)
    );
    assert_eq!(
        renderer_client_id("chrome --renderer-client-id=x --renderer-client-id=9"),
        RendererId::Invalid
    );
}

#[test]
fn value_ends_at_second_equals_sign() {
    assert_eq!(renderer_client_id("chrome --renderer-client-id=12=34"), RendererId::Found(12));
    assert_eq!(renderer_client_id("chrome --renderer-client-id==34"), RendererId::Invalid);
}

#[test]
fn value_may_carry_a_plus_sign() {
    assert_eq!(renderer_client_id("chrome --renderer-client-id=+8"), RendererId::Found(8));
    assert_eq!(renderer_client_id("chrome --renderer-client-id=+"), RendererId::Invalid);
    assert_eq!(renderer_client_id("chrome --renderer-client-id=++8"), RendererId::Invalid);
}

#[test]
fn value_that_is_no_number_is_invalid() {
    assert_eq!(renderer_client_id("chrome --renderer-client-id="), RendererId::Invalid);
    assert_eq!(renderer_client_id("chrome --renderer-client-id= 5"), RendererId::Invalid);
    assert_eq!(renderer_client_id("chrome --renderer-client-id=-5"), RendererId::Invalid);
    assert_eq!(renderer_client_id("chrome --renderer-client-id=5a"), RendererId::Invalid);
    assert_eq!(renderer_client_id("chrome --renderer-client-id=0x10"), RendererId::Invalid);
}

#[test]
fn value_is_read_up_to_the_greatest_number() {
    assert_eq!(
        renderer_client_id("chrome --renderer-client-id=18446744073709551615"),
        RendererId::Found(u64::MAX)
    );
    assert_eq!(
        renderer_client_id("chrome --renderer-client-id=18446744073709551616"),
        RendererId::Invalid
    );
    assert_eq!(
        renderer_client_id("chrome --renderer-client-id=99999999999999999999999"),
        RendererId::Invalid
    );
    assert_eq!(renderer_client_id("chrome --renderer-client-id=000123"), RendererId::Found(123));
}

#[test]
fn arguments_are_split_at_any_white_space() {
    assert_eq!(renderer_client_id("chrome\t--renderer-client-id=4\n"), RendererId::Found(4));
    assert_eq!(
        renderer_client_id("chrome\u{a0}--renderer-client-id=6\u{3000}--x"),
        RendererId::Found(6)
    );
    assert_eq!(renderer_client_id("chrome\u{2003}--renderer-client-id=11"), RendererId::Found(11));
}

#[test]
fn identify_tells_the_cases_apart() {
    assert_eq!(identify(&scan_process("chrome", CommandLine::Missing)), Identification::CommandMissing);
    assert_eq!(
        identify(&scan_process("chrome", CommandLine::Undecodable)),
        Identification::CommandUndecodable
    );
    assert_eq!(
        identify(&scan_process("chrome", scan_text("chrome --type=gpu-process"))),
        Identification::NotRenderer
    );
    assert_eq!(
        identify(&scan_process("chrome", scan_text("chrome --renderer-client-id=abc"))),
        Identification::BadIdentifier
    );
    assert_eq!(
        identify(&scan_process("chrome", scan_text("chrome --renderer-client-id=21"))),
        Identification::Renderer(21)
    );
}

#[test]
fn scan_maps_renderers_of_the_browser_only() {
    let mut table = ProcessTable::new();
    table.insert(10, scan_process("chrome", scan_text("chrome --type=gpu-process")));
    table.insert(11, scan_process("chrome", scan_text("chrome --renderer-client-id=5")));
    table.insert(12, scan_process("chrome", scan_text("chrome --renderer-client-id=6")));
    table.insert(13, scan_process("firefox", scan_text("firefox --renderer-client-id=7")));
    table.insert(14, scan_process("chrome", CommandLine::Missing));
    table.insert(15, scan_process("chrome", CommandLine::Undecodable));
    table.insert(16, scan_process("chrome", scan_text("chrome --renderer-client-id=oops")));
    let found = scan_renderers(&table, "chrome");
    let mut expected = HashMap::new();
    expected.insert(5u64, 11u32);
    expected.insert(6u64, 12u32);
    assert_eq!(found, expected);
}

#[test]
fn scan_matches_the_executable_name_exactly() {
    let mut table = ProcessTable::new();
    table.insert(11, scan_process("chrome-sandbox", scan_text("x --renderer-client-id=5")));
    table.insert(12, scan_process("Chrome", scan_text("x --renderer-client-id=6")));
    assert!(scan_renderers(&table, "chrome").is_empty());
}

#[test]
fn scan_gives_a_claimed_identifier_to_the_greater_process() {
    let mut table = ProcessTable::new();
    table.insert(300, scan_process("chrome", scan_text("chrome --renderer-client-id=5")));
    table.insert(20, scan_process("chrome", scan_text("chrome --renderer-client-id=5")));
    table.insert(100, scan_process("chrome", scan_text("chrome --renderer-client-id=5")));
    let found = scan_renderers(&table, "chrome");
    assert_eq!(found.len(), 1);
    assert_eq!(found.get(&5), Some(&300));
}

#[test]
fn scan_of_no_processes_finds_nothing() {
    assert!(scan_renderers(&ProcessTable::new(), "chrome").is_empty());
}
