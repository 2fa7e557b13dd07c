//! Finds out which operating-system process hosts which tab.
//!
//! A renderer process of the browser carries, among the arguments of its
//! launch command, the flag `--renderer-client-id=<N>`, where `<N>` is the
//! identifier that the extension reports for the tabs of that process.
use crate::keys::{lemma_greatest_exists, sorted_keys, strictly_ascending};
use crate::process::{CommandLine, Pid, ProcessInfo, ProcessTable};
use crate::tab_data_requester::BrowserInnerPid;
use std::collections::HashMap;
use vstd::prelude::*;

verus! {

/// The characters with the Unicode property `White_Space`.
pub open spec fn is_whitespace(c: char) -> bool {
    let code = c as u32;
    ||| 0x09 <= code <= 0x0d
    ||| code == 0x20
    ||| code == 0x85
    ||| code == 0xa0
    ||| code == 0x1680
    ||| 0x2000 <= code <= 0x200a
    ||| code == 0x2028
    ||| code == 0x2029
    ||| code == 0x202f
    ||| code == 0x205f
    ||| code == 0x3000
}

/// The decimal digits `0` to `9`.
pub open spec fn is_digit(c: char) -> bool {
    0x30 <= c as u32 <= 0x39
}

/// The flag that names a renderer, up to and including its `=`.
pub open spec fn renderer_flag() -> Seq<char> {
    "--renderer-client-id="@
}

/// An argument begins at `i`: a character that is not white space, at the
/// start of the line or after white space.
pub open spec fn starts_argument(line: Seq<char>, i: int) -> bool {
    &&& 0 <= i < line.len()
    &&& !is_whitespace(line[i])
    &&& (i == 0 || is_whitespace(line[i - 1]))
}

/// The argument that begins at `i` begins with the renderer flag.
pub open spec fn has_flag_at(line: Seq<char>, i: int) -> bool {
    &&& starts_argument(line, i)
    &&& i + renderer_flag().len() <= line.len()
    &&& line.subrange(i, i + renderer_flag().len()) == renderer_flag()
}

/// `i` is where the first argument with the renderer flag begins.
pub open spec fn is_first_flag(line: Seq<char>, i: int) -> bool {
    &&& has_flag_at(line, i)
    &&& forall|j: int| 0 <= j < i ==> !has_flag_at(line, j)
}

/// `k` is where the value that begins at `from` ends: at the next `=`, at the
/// next white space, or with the line.
pub open spec fn is_value_end(line: Seq<char>, from: int, k: int) -> bool {
    &&& from <= k <= line.len()
    &&& forall|j: int| from <= j < k ==> !is_whitespace(line[j]) && line[j] != '='
    &&& (k == line.len() || is_whitespace(line[k]) || line[k] == '=')
}

/// The number that a sequence of decimal digits denotes.
pub open spec fn decimal_value(digits: Seq<char>) -> nat
    decreases digits.len(),
{
    if digits.len() == 0 {
        0
    } else {
        (decimal_value(digits.drop_last()) * 10 + (digits.last() as u32 - 0x30)) as nat
    }
}

/// The digits of `text`: all of it, or what follows one leading `+`.
pub open spec fn digits_of(text: Seq<char>) -> Seq<char> {
    if text.len() > 0 && text[0] == '+' {
        text.skip(1)
    } else {
        text
    }
}

/// The identifier that `text` denotes: an optional `+` and then one or more
/// decimal digits, whose value fits the type.
pub open spec fn parse_id(text: Seq<char>) -> Option<BrowserInnerPid> {
    let digits = digits_of(text);
    if digits.len() > 0 && (forall|i: int| 0 <= i < digits.len() ==> is_digit(digits[i]))
        && decimal_value(digits) <= u64::MAX {
        Some(decimal_value(digits) as u64)
    } else {
        None
    }
}

/// What a launch command tells about the renderer it starts.
#[derive(Clone, Copy, Debug, PartialEq, Eq, Structural)]
pub enum RendererId {
    /// No argument carries the flag: the process is no renderer.
    Absent,
    /// The flag is there, but what follows it is no identifier.
    Invalid,
    /// The identifier that follows the flag.
    Found(BrowserInnerPid),
}

/// What `line` tells: the value of the first argument that begins with the
/// renderer flag, read as an identifier.
pub open spec fn renderer_id_of(line: Seq<char>) -> RendererId {
    if exists|i: int| is_first_flag(line, i) {
        let i = choose|i: int| is_first_flag(line, i);
        let from = i + renderer_flag().len();
        let k = choose|k: int| is_value_end(line, from, k);
        match parse_id(line.subrange(from, k)) {
            Some(id) => RendererId::Found(id),
            None => RendererId::Invalid,
        }
    } else {
        RendererId::Absent
    }
}

fn is_blank(c: char) -> (blank: bool)
    ensures
        blank == is_whitespace(c),
{
    let code = c as u32;
    (0x09 <= code && code <= 0x0d) || code == 0x20 || code == 0x85 || code == 0xa0 || code
        == 0x1680 || (0x2000 <= code && code <= 0x200a) || code == 0x2028 || code == 0x2029 || code
        == 0x202f || code == 0x205f || code == 0x3000
}

fn chars_of(text: &str) -> (chars: Vec<char>)
    ensures
        chars@ == text@,
{
    let mut chars: Vec<char> = Vec::new();
    for c in it: text.chars()
        invariant
            it.seq() == text@,
            chars@ == text@.take(it.index()),
    {
        chars.push(c);
        assert(text@.take(it.index() + 1) =~= text@.take(it.index()).push(c));
    }
    assert(text@.take(text@.len() as int) =~= text@);
    chars
}

proof fn lemma_decimal_value_grows(digits: Seq<char>, n: int)
    requires
        0 <= n <= digits.len(),
        forall|i: int| 0 <= i < digits.len() ==> is_digit(digits[i]),
    ensures
        decimal_value(digits.take(n)) <= decimal_value(digits),
    decreases digits.len(),
{
    if n == digits.len() {
        assert(digits.take(n) =~= digits);
    } else {
        assert(digits.drop_last().take(n) =~= digits.take(n));
        lemma_decimal_value_grows(digits.drop_last(), n);
    }
}

/// Reads `text[from..to]` as an identifier.
fn parse_id_between(text: &Vec<char>, from: usize, to: usize) -> (id: Option<BrowserInnerPid>)
    requires
        from <= to <= text@.len(),
    ensures
        id == parse_id(text@.subrange(from as int, to as int)),
{
    let ghost whole = text@.subrange(from as int, to as int);
    let start = if from < to && text[from] == '+' {
        from + 1
    } else {
        from
    };
    let ghost digits = digits_of(whole);
    assert(digits =~= text@.subrange(start as int, to as int));
    if start == to {
        return None;
    }
    let mut value: u64 = 0;
    let mut i: usize = start;
    while i < to
        invariant
            from <= start <= i <= to <= text@.len(),
            digits == text@.subrange(start as int, to as int),
            digits == digits_of(whole),
            whole == text@.subrange(from as int, to as int),
            forall|j: int| 0 <= j < i - start ==> is_digit(digits[j]),
            value == decimal_value(digits.take(i - start)),
        decreases to - i,
    {
        let c = text[i];
        let code = c as u32;
        assert(digits[i - start] == c);
        if code < 0x30 || code > 0x39 {
            assert(!is_digit(digits[i - start]));
            return None;
        }
        let digit = (code - 0x30) as u64;
        proof {
            let upto = digits.take(i - start + 1);
            assert(upto.drop_last() =~= digits.take(i - start));
            assert(upto.last() == c);
            assert(decimal_value(upto) == value * 10 + digit);
            if value * 10 + digit > u64::MAX {
                if forall|j: int| 0 <= j < digits.len() ==> is_digit(digits[j]) {
                    lemma_decimal_value_grows(digits, i - start + 1);
                }
                assert(parse_id(whole) is None);
            }
        }
        let tenfold = match value.checked_mul(10) {
            Some(tenfold) => tenfold,
            None => {
                return None;
            },
        };
        value = match tenfold.checked_add(digit) {
            Some(sum) => sum,
            None => {
                return None;
            },
        };
        i += 1;
    }
    assert(digits.take(to - start) =~= digits);
    Some(value)
}

/// Whether the renderer flag stands in `line` at `i`.
fn flag_stands_at(line: &Vec<char>, flag: &Vec<char>, i: usize) -> (stands: bool)
    requires
        i <= line@.len(),
        flag@ == renderer_flag(),
    ensures
        stands == (i + renderer_flag().len() <= line@.len() && line@.subrange(
            i as int,
            i + renderer_flag().len(),
        ) == renderer_flag()),
{
    if flag.len() > line.len() - i {
        return false;
    }
    let mut n: usize = 0;
    while n < flag.len()
        invariant
            n <= flag.len(),
            i + flag.len() <= line.len(),
            flag@ == renderer_flag(),
            forall|j: int| 0 <= j < n ==> line@[i + j] == flag@[j],
        decreases flag.len() - n,
    {
        if line[i + n] != flag[n] {
            assert(line@.subrange(i as int, i + flag@.len())[n as int] != flag@[n as int]);
            return false;
        }
        n += 1;
    }
    assert(line@.subrange(i as int, i + flag@.len()) =~= flag@);
    true
}

/// Reads the renderer identifier off a launch command: the value of the first
/// argument that begins with `--renderer-client-id=`, up to its end or to a
/// second `=`, as a decimal number that may carry a `+`.
pub fn renderer_client_id(command_line: &str) -> (id: RendererId)
    ensures
        id == renderer_id_of(command_line@),
{
    let line = chars_of(command_line);
    let flag = chars_of("--renderer-client-id=");
    proof {
        reveal_strlit("--renderer-client-id=");
    }
    let mut i: usize = 0;
    while i < line.len()
        invariant
            i <= line@.len(),
            line@ == command_line@,
            flag@ == renderer_flag(),
            renderer_flag().len() == 21,
            forall|j: int| 0 <= j < renderer_flag().len() ==> !is_whitespace(#[trigger] renderer_flag()[j]),
            forall|j: int| 0 <= j < renderer_flag().len() - 1 ==> #[trigger] renderer_flag()[j] != '=',
            i == 0 || i == line@.len() || is_whitespace(line@[i - 1]) || is_whitespace(
                line@[i as int],
            ),
            forall|j: int| 0 <= j < i ==> !has_flag_at(line@, j),
        decreases line.len() - i,
    {
        if is_blank(line[i]) {
            i += 1;
        } else if flag_stands_at(&line, &flag, i) {
            let from = i + flag.len();
            let mut k: usize = from;
            while k < line.len() && !is_blank(line[k]) && line[k] != '='
                invariant
                    from <= k <= line@.len(),
                    forall|j: int| from <= j < k ==> !is_whitespace(line@[j]) && line@[j] != '=',
                decreases line.len() - k,
            {
                k += 1;
            }
            let parsed = parse_id_between(&line, from, k);
            proof {
                assert(is_first_flag(line@, i as int));
                let first = choose|first: int| is_first_flag(line@, first);
                assert(first == i) by {
                    if first < i {
                        assert(!has_flag_at(line@, first));
                    } else if first > i {
                        assert(has_flag_at(line@, i as int));
                    }
                }
                assert(is_value_end(line@, from as int, k as int));
                let end = choose|end: int| is_value_end(line@, from as int, end);
                assert(end == k) by {
                    if end < k {
                        assert(!is_whitespace(line@[end]) && line@[end] != '=');
                    } else if end > k {
                        assert(!is_whitespace(line@[k as int]) && line@[k as int] != '=');
                    }
                }
            }
            return match parsed {
                Some(id) => RendererId::Found(id),
                None => RendererId::Invalid,
            };
        } else {
            let ghost begin = i;
            i += 1;
            while i < line.len() && !is_blank(line[i])
                invariant
                    begin < i <= line@.len(),
                    forall|j: int| begin <= j < i ==> !is_whitespace(line@[j]),
                decreases line.len() - i,
            {
                i += 1;
            }
            proof {
                assert forall|j: int| 0 <= j < i implies !has_flag_at(line@, j) by {
                    if j > begin {
                        assert(!is_whitespace(line@[j - 1]));
                    }
                }
            }
        }
    }
    proof {
        assert forall|j: int| !is_first_flag(line@, j) by {
            if 0 <= j < line@.len() {
                assert(!has_flag_at(line@, j));
            }
        }
    }
    RendererId::Absent
}

/// What a process of the browser tells about the tabs it hosts.
#[derive(Clone, Copy, Debug, PartialEq, Eq, Structural)]
pub enum Identification {
    /// A renderer, with the identifier that the extension knows it by.
    Renderer(BrowserInnerPid),
    /// Some other process of the browser: its command has no renderer flag.
    NotRenderer,
    /// The process reports no launch command.
    CommandMissing,
    /// The launch command is not text.
    CommandUndecodable,
    /// The renderer flag is there, but no identifier follows it.
    BadIdentifier,
}

/// What `info` tells, by its launch command alone.
pub open spec fn identification_of(info: ProcessInfo) -> Identification {
    match info.command_line {
        CommandLine::Missing => Identification::CommandMissing,
        CommandLine::Undecodable => Identification::CommandUndecodable,
        CommandLine::Text(line) => match renderer_id_of(line@) {
            RendererId::Found(id) => Identification::Renderer(id),
            RendererId::Absent => Identification::NotRenderer,
            RendererId::Invalid => Identification::BadIdentifier,
        },
    }
}

/// The live process `pid` runs the browser and is the renderer `id`.
pub open spec fn hosts(
    system: Map<Pid, ProcessInfo>,
    browser_name: Seq<char>,
    pid: Pid,
    id: BrowserInnerPid,
) -> bool {
    &&& system.contains_key(pid)
    &&& system[pid].name@ == browser_name
    &&& identification_of(system[pid]) == Identification::Renderer(id)
}

/// `pid` is the renderer `id`, and no process with a greater identifier is.
pub open spec fn is_greatest_host(
    system: Map<Pid, ProcessInfo>,
    browser_name: Seq<char>,
    pid: Pid,
    id: BrowserInnerPid,
) -> bool {
    &&& hosts(system, browser_name, pid, id)
    &&& forall|other: Pid| hosts(system, browser_name, other, id) ==> other <= pid
}

/// The process of each renderer among the processes of the browser. Browser
/// processes that are no renderers, or whose command cannot be read, have no
/// part in it. Should two processes claim one identifier, the one with the
/// greater process identifier has it.
pub open spec fn scanned(system: Map<Pid, ProcessInfo>, browser_name: Seq<char>) -> Map<
    BrowserInnerPid,
    Pid,
> {
    Map::new(
        |id: BrowserInnerPid| exists|pid: Pid| hosts(system, browser_name, pid, id),
        |id: BrowserInnerPid| choose|pid: Pid| is_greatest_host(system, browser_name, pid, id),
    )
}

/// The process that a scan finds for a renderer is that renderer, and no
/// greater process is.
pub proof fn lemma_scanned_is_greatest_host(
    system: Map<Pid, ProcessInfo>,
    browser_name: Seq<char>,
    id: BrowserInnerPid,
)
    requires
        scanned(system, browser_name).contains_key(id),
    ensures
        is_greatest_host(system, browser_name, scanned(system, browser_name)[id], id),
{
    let holds = |pid: Pid| hosts(system, browser_name, pid, id);
    let some = choose|pid: Pid| hosts(system, browser_name, pid, id);
    assert(some <= u32::MAX && holds(some));
    lemma_greatest_exists(holds, u32::MAX);
    let g = choose|g: Pid|
        g <= u32::MAX && #[trigger] holds(g) && forall|other: Pid|
            other <= u32::MAX && #[trigger] holds(other) ==> other <= g;
    assert forall|other: Pid| hosts(system, browser_name, other, id) implies other <= g by {
        assert(other <= u32::MAX && holds(other));
    }
    assert(is_greatest_host(system, browser_name, g, id));
}

/// Says what the launch command of `info` tells about it.
pub fn identify(info: &ProcessInfo) -> (found: Identification)
    ensures
        found == identification_of(*info),
{
    match &info.command_line {
        CommandLine::Missing => Identification::CommandMissing,
        CommandLine::Undecodable => Identification::CommandUndecodable,
        CommandLine::Text(line) => match renderer_client_id(line.as_str()) {
            RendererId::Found(id) => Identification::Renderer(id),
            RendererId::Absent => Identification::NotRenderer,
            RendererId::Invalid => Identification::BadIdentifier,
        },
    }
}

/// Maps the identifier of each renderer to its process, by reading the launch
/// commands of all processes that run `browser_name`.
pub fn scan_renderers(system: &ProcessTable, browser_name: &str) -> (found: HashMap<
    BrowserInnerPid,
    Pid,
>)
    ensures
        found@ == scanned(system@, browser_name@),
{
    broadcast use vstd::std_specs::hash::group_hash_axioms;

    let wanted = browser_name.to_owned();
    let pids = sorted_keys(&system.processes);
    let mut found: HashMap<BrowserInnerPid, Pid> = HashMap::new();
    let mut i: usize = 0;
    while i < pids.len()
        invariant
            i <= pids.len(),
            wanted@ == browser_name@,
            strictly_ascending(pids@),
            forall|k: Pid| pids@.contains(k) <==> system@.contains_key(k),
            forall|id: BrowserInnerPid| #[trigger]
                found@.contains_key(id) <==> exists|j: int|
                    0 <= j < i && hosts(system@, browser_name@, pids@[j], id),
            forall|id: BrowserInnerPid| #[trigger]
                found@.contains_key(id) ==> exists|j: int|
                    0 <= j < i && pids@[j] == found@[id] && hosts(
                        system@,
                        browser_name@,
                        pids@[j],
                        id,
                    ) && forall|l: int|
                        j < l < i ==> !hosts(system@, browser_name@, pids@[l], id),
        decreases pids.len() - i,
    {
        let pid = pids[i];
        assert(pids@.contains(pid));
        let ghost before = found@;
        let mut renderer: Option<BrowserInnerPid> = None;
        match system.process(pid) {
            Some(info) => {
                if info.name == wanted {
                    match identify(info) {
                        Identification::Renderer(id) => {
                            renderer = Some(id);
                        },
                        _ => {},
                    }
                }
            },
            None => {},
        }
        assert(forall|id: BrowserInnerPid|
            hosts(system@, browser_name@, pid, id) <==> renderer == Some(id));
        match renderer {
            Some(id) => {
                found.insert(id, pid);
            },
            None => {},
        }
        proof {
            assert forall|id: BrowserInnerPid| #[trigger]
                found@.contains_key(id) <==> exists|j: int|
                    0 <= j < i + 1 && hosts(system@, browser_name@, pids@[j], id) by {
                if before.contains_key(id) {
                    let j = choose|j: int|
                        0 <= j < i && hosts(system@, browser_name@, pids@[j], id);
                    assert(0 <= j < i + 1 && hosts(system@, browser_name@, pids@[j], id));
                }
                if renderer == Some(id) {
                    assert(hosts(system@, browser_name@, pids@[i as int], id));
                }
                if exists|j: int| 0 <= j < i + 1 && hosts(system@, browser_name@, pids@[j], id) {
                    let j = choose|j: int|
                        0 <= j < i + 1 && hosts(system@, browser_name@, pids@[j], id);
                    if j < i {
                        assert(before.contains_key(id));
                    }
                }
            }
            assert forall|id: BrowserInnerPid| #[trigger] found@.contains_key(id) implies exists|
                j: int,
            |
                0 <= j < i + 1 && pids@[j] == found@[id] && hosts(
                    system@,
                    browser_name@,
                    pids@[j],
                    id,
                ) && forall|l: int|
                    j < l < i + 1 ==> !hosts(system@, browser_name@, pids@[l], id) by {
                if renderer == Some(id) {
                    let j = i as int;
                    assert(0 <= j < i + 1 && pids@[j] == found@[id] && hosts(
                        system@,
                        browser_name@,
                        pids@[j],
                        id,
                    ) && forall|l: int|
                        j < l < i + 1 ==> !hosts(system@, browser_name@, pids@[l], id));
                } else {
                    assert(before.contains_key(id));
                    let j = choose|j: int|
                        0 <= j < i && pids@[j] == before[id] && hosts(
                            system@,
                            browser_name@,
                            pids@[j],
                            id,
                        ) && forall|l: int|
                            j < l < i ==> !hosts(system@, browser_name@, pids@[l], id);
                    assert(0 <= j < i + 1 && pids@[j] == found@[id] && hosts(
                        system@,
                        browser_name@,
                        pids@[j],
                        id,
                    ) && forall|l: int|
                        j < l < i + 1 ==> !hosts(system@, browser_name@, pids@[l], id));
                }
            }
        }
        i += 1;
    }
    proof {
        let want = scanned(system@, browser_name@);
        assert forall|id: BrowserInnerPid| found@.contains_key(id) <==> want.contains_key(id) by {
            if want.contains_key(id) {
                let pid = choose|pid: Pid| hosts(system@, browser_name@, pid, id);
                assert(pids@.contains(pid));
                let j = choose|j: int| 0 <= j < pids@.len() && pids@[j] == pid;
                assert(hosts(system@, browser_name@, pids@[j], id));
            }
        }
        assert forall|id: BrowserInnerPid| found@.contains_key(id) implies found@[id] == want[id] by {
            let j = choose|j: int|
                0 <= j < i && pids@[j] == found@[id] && hosts(
                    system@,
                    browser_name@,
                    pids@[j],
                    id,
                ) && forall|l: int| j < l < i ==> !hosts(system@, browser_name@, pids@[l], id);
            let top = pids@[j];
            assert forall|other: Pid| hosts(system@, browser_name@, other, id) implies other
                <= top by {
                assert(pids@.contains(other));
                let l = choose|l: int| 0 <= l < pids@.len() && pids@[l] == other;
                if l > j {
                    assert(!hosts(system@, browser_name@, pids@[l], id));
                }
            }
            assert(is_greatest_host(system@, browser_name@, top, id));
            let chosen = choose|pid: Pid| is_greatest_host(system@, browser_name@, pid, id);
            assert(is_greatest_host(system@, browser_name@, chosen, id));
            assert(chosen <= top && top <= chosen);
        }
        assert(found@ =~= want);
    }
    found
}

} // verus!
