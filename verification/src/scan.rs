//! Scanning the listening ports: which command to run next, given the
//! outputs of the commands run so far, and the port table once they are
//! all in.
//!
//! On Windows the scan runs `netstat`, then `tasklist` for the process
//! names, then `wmic` for the executables of the pids found; on macOS it
//! runs `lsof` for the listening ports, then `lsof` again for the
//! executables. A failed first command, or one that shows no listening
//! port, ends the scan with an empty table; a later command that fails
//! leaves the names or directories out.
use vstd::prelude::*;
use crate::decode::{decode_output, decoded_text, utf8_lossy, utf8_text};
use crate::macos::{
    listeners_view, lsof_listener_entries, lsof_listeners, lsof_path_entries, lsof_path_scan, lsof_paths,
};
use crate::ports::{
    distinct_sorted_pids, entries_view, join_pids, joined, prefixed_pids, rows_fit, rows_of,
    sort_by_port, sorted_distinct, table_view, PortInfo, PortListing,
};
use crate::table::{
    directory_table, lemma_macos_rows_fit, lemma_windows_rows_fit, macos_listings,
    merge_macos, merge_windows, windows_listings,
};
use crate::text::{chars_of, lines_of, string_of};
use crate::windows::{
    netstat_entries, netstat_table, tasklist_names, tasklist_table, wmic_line, wmic_paths,
    wmic_table,
};
use std::collections::HashMap;

verus! {

/// The system whose tools the scan runs.
#[derive(Debug, Clone, Copy, PartialEq, Eq)]
pub enum Platform {
    Windows,
    MacOs,
    Other,
}

/// A command to run: the program, its arguments, and whether it is run
/// without a console window of its own.
#[derive(Debug, Clone, PartialEq, Eq)]
pub struct Command {
    pub program: String,
    pub args: Vec<String>,
    pub hide_window: bool,
}

/// The mathematical value of a `Command`.
pub struct CommandSpec {
    pub program: Seq<char>,
    pub args: Seq<Seq<char>>,
    pub hide_window: bool,
}

impl View for Command {
    type V = CommandSpec;

    open spec fn view(&self) -> CommandSpec {
        CommandSpec {
            program: self.program@,
            args: arg_views(self.args@),
            hide_window: self.hide_window,
        }
    }
}

/// Where a scan stands: the system, and the standard output of each
/// command run so far (`None` where the command could not be run).
pub struct ScanState {
    pub platform: Platform,
    pub outputs: Vec<Option<Vec<u8>>>,
}

/// What the scan does next: run a command, or end with the port table.
pub enum ScanAction {
    Run(Command),
    Finish(Vec<PortInfo>),
}

/// What the scan does next, in mathematical terms: run a command, or end
/// with what the listings say of each port (in order of port).
pub enum ScanPlan {
    Run(CommandSpec),
    Finish(Seq<PortListing>),
}

/// The values of the outputs.
pub open spec fn outputs_view(outputs: Seq<Option<Vec<u8>>>) -> Seq<Option<Seq<u8>>> {
    outputs.map_values(
        |o: Option<Vec<u8>>|
            match o {
                Some(v) => Some(v@),
                None => None,
            },
    )
}

/// `netstat -ano -p TCP`, without a window.
pub open spec fn netstat_command() -> CommandSpec {
    CommandSpec { program: "netstat"@, args: seq!["-ano"@, "-p"@, "TCP"@], hide_window: true }
}

/// `tasklist /FO CSV /NH`, without a window.
pub open spec fn tasklist_command() -> CommandSpec {
    CommandSpec { program: "tasklist"@, args: seq!["/FO"@, "CSV"@, "/NH"@], hide_window: true }
}

/// The `wmic` condition that selects the processes of `pids`:
/// `(ProcessId=1 OR ProcessId=2 ...)`.
pub open spec fn wmic_condition(pids: Seq<u32>) -> Seq<char> {
    seq!['('] + joined(prefixed_pids(pids, "ProcessId="@), " OR "@) + seq![')']
}

/// `wmic process where (...) get ProcessId,ExecutablePath /FORMAT:CSV`
/// for the processes of `pids`, without a window.
pub open spec fn wmic_command(pids: Seq<u32>) -> CommandSpec {
    CommandSpec {
        program: "wmic"@,
        args: seq![
            "process"@,
            "where"@,
            wmic_condition(pids),
            "get"@,
            "ProcessId,ExecutablePath"@,
            "/FORMAT:CSV"@,
        ],
        hide_window: true,
    }
}

/// `lsof -iTCP -sTCP:LISTEN -n -P`.
pub open spec fn lsof_listen_command() -> CommandSpec {
    CommandSpec {
        program: "lsof"@,
        args: seq!["-iTCP"@, "-sTCP:LISTEN"@, "-n"@, "-P"@],
        hide_window: false,
    }
}

/// `lsof -p PID,PID,... -Fn -a -d txt` for the processes of `pids`.
pub open spec fn lsof_paths_command(pids: Seq<u32>) -> CommandSpec {
    CommandSpec {
        program: "lsof"@,
        args: seq!["-p"@, joined(prefixed_pids(pids, seq![]), ","@), "-Fn"@, "-a"@, "-d"@, "txt"@],
        hide_window: false,
    }
}

/// The pids of the entries, in order.
pub open spec fn entry_pids(entries: Seq<(u16, u32)>) -> Seq<u32> {
    entries.map_values(|e: (u16, u32)| e.1)
}

/// The pids of the listeners, in order.
pub open spec fn listener_pids(entries: Seq<(u16, u32, Seq<char>)>) -> Seq<u32> {
    entries.map_values(|e: (u16, u32, Seq<char>)| e.1)
}

/// The scan on Windows.
pub open spec fn windows_plan(outputs: Seq<Option<Seq<u8>>>) -> ScanPlan {
    if outputs.len() == 0 {
        ScanPlan::Run(netstat_command())
    } else {
        match outputs[0] {
            None => ScanPlan::Finish(seq![]),
            Some(b) => {
                let entries = netstat_table(lines_of(decoded_text(b)));
                if entries.len() == 0 {
                    ScanPlan::Finish(seq![])
                } else if outputs.len() == 1 {
                    ScanPlan::Run(tasklist_command())
                } else {
                    let names = match outputs[1] {
                        Some(t) => tasklist_table(lines_of(decoded_text(t))),
                        None => Map::empty(),
                    };
                    if outputs.len() == 2 {
                        ScanPlan::Run(wmic_command(sorted_distinct(entry_pids(entries))))
                    } else {
                        let paths = match outputs[2] {
                            Some(w) => wmic_table(lines_of(decoded_text(w))),
                            None => seq![],
                        };
                        ScanPlan::Finish(sort_by_port(windows_listings(entries, names, paths)))
                    }
                }
            },
        }
    }
}

/// The scan on macOS.
pub open spec fn macos_plan(outputs: Seq<Option<Seq<u8>>>) -> ScanPlan {
    if outputs.len() == 0 {
        ScanPlan::Run(lsof_listen_command())
    } else {
        match outputs[0] {
            None => ScanPlan::Finish(seq![]),
            Some(b) => {
                let listeners = lsof_listeners(utf8_lossy(b));
                if listeners.len() == 0 {
                    ScanPlan::Finish(seq![])
                } else if outputs.len() == 1 {
                    ScanPlan::Run(lsof_paths_command(sorted_distinct(listener_pids(listeners))))
                } else {
                    let paths = match outputs[1] {
                        Some(t) => lsof_paths(utf8_lossy(t)),
                        None => seq![],
                    };
                    ScanPlan::Finish(sort_by_port(macos_listings(listeners, paths)))
                }
            },
        }
    }
}

/// What the scan does next on `platform`, given the outputs so far.
pub open spec fn scan_plan(platform: Platform, outputs: Seq<Option<Seq<u8>>>) -> ScanPlan {
    match platform {
        Platform::Windows => windows_plan(outputs),
        Platform::MacOs => macos_plan(outputs),
        Platform::Other => ScanPlan::Finish(seq![]),
    }
}

/// Whether an action is what the plan says: the same command, or rows
/// that are, one for one, what the listings say.
pub open spec fn action_follows(action: ScanAction, plan: ScanPlan) -> bool {
    match (action, plan) {
        (ScanAction::Run(c), ScanPlan::Run(cs)) => c@ == cs,
        (ScanAction::Finish(v), ScanPlan::Finish(ls)) => rows_fit(rows_of(v@), ls),
        _ => false,
    }
}

// ---------------------------------------------------------------------
// Paths are never empty
// ---------------------------------------------------------------------
pub proof fn lemma_wmic_paths_nonempty(lines: Seq<Seq<char>>)
    ensures
        forall|i: int| 0 <= i < wmic_table(lines).len() ==> (#[trigger] wmic_table(lines)[i]).1.len() > 0,
    decreases lines.len(),
{
    if lines.len() > 0 {
        let prev = wmic_table(lines.drop_last());
        lemma_wmic_paths_nonempty(lines.drop_last());
        let t = wmic_table(lines);
        assert forall|i: int| 0 <= i < t.len() implies (#[trigger] t[i]).1.len() > 0 by {
            if i < prev.len() {
                assert(t[i] == prev[i]);
            } else {
                assert(wmic_line(lines.last()) == Some(t[i]));
            }
        }
    }
}

pub proof fn lemma_lsof_paths_nonempty(lines: Seq<Seq<char>>)
    ensures
        forall|i: int|
            0 <= i < lsof_path_scan(lines).1.len() ==> (#[trigger] lsof_path_scan(lines).1[i]).1.len()
                > 0,
    decreases lines.len(),
{
    if lines.len() > 0 {
        let prev = lsof_path_scan(lines.drop_last()).1;
        lemma_lsof_paths_nonempty(lines.drop_last());
        let t = lsof_path_scan(lines).1;
        let l = lines.last();
        assert forall|i: int| 0 <= i < t.len() implies (#[trigger] t[i]).1.len() > 0 by {
            if i < prev.len() {
                assert(t[i] == prev[i]);
            } else {
                assert(t[i].1 == l.drop_first());
            }
        }
    }
}

// ---------------------------------------------------------------------
// Building commands
// ---------------------------------------------------------------------
/// The string of a literal.
pub fn text(s: &str) -> (res: String)
    ensures
        res@ == s@,
{
    s.to_string()
}

/// The views of the strings.
pub open spec fn arg_views(v: Seq<String>) -> Seq<Seq<char>> {
    v.map_values(|a: String| a@)
}

/// The command running `program` with `args`.
pub fn make_command(program: &str, args: Vec<String>, hide_window: bool) -> (res: Command)
    ensures
        res@ == (CommandSpec { program: program@, args: arg_views(args@), hide_window }),
{
    Command { program: text(program), args, hide_window }
}

fn netstat() -> (res: Command)
    ensures
        res@ == netstat_command(),
{
    let args = vec![text("-ano"), text("-p"), text("TCP")];
    let c = make_command("netstat", args, true);
    assert(arg_views(args@) =~= seq!["-ano"@, "-p"@, "TCP"@]);
    c
}

fn tasklist() -> (res: Command)
    ensures
        res@ == tasklist_command(),
{
    let args = vec![text("/FO"), text("CSV"), text("/NH")];
    let c = make_command("tasklist", args, true);
    assert(arg_views(args@) =~= seq!["/FO"@, "CSV"@, "/NH"@]);
    c
}

fn wmic(pids: &Vec<u32>) -> (res: Command)
    ensures
        res@ == wmic_command(pids@),
{
    let prefix = chars_of("ProcessId=");
    let sep = chars_of(" OR ");
    let inner = join_pids(pids, prefix.as_slice(), sep.as_slice());
    let mut cond: Vec<char> = vec!['('];
    cond.extend_from_slice(inner.as_slice());
    cond.push(')');
    assert(cond@ =~= wmic_condition(pids@));
    let args = vec![
        text("process"),
        text("where"),
        string_of(cond.as_slice()),
        text("get"),
        text("ProcessId,ExecutablePath"),
        text("/FORMAT:CSV"),
    ];
    let c = make_command("wmic", args, true);
    assert(arg_views(args@) =~= seq![
        "process"@,
        "where"@,
        wmic_condition(pids@),
        "get"@,
        "ProcessId,ExecutablePath"@,
        "/FORMAT:CSV"@,
    ]);
    c
}

fn lsof_listen() -> (res: Command)
    ensures
        res@ == lsof_listen_command(),
{
    let args = vec![text("-iTCP"), text("-sTCP:LISTEN"), text("-n"), text("-P")];
    let c = make_command("lsof", args, false);
    assert(arg_views(args@) =~= seq!["-iTCP"@, "-sTCP:LISTEN"@, "-n"@, "-P"@]);
    c
}

fn lsof_paths_of(pids: &Vec<u32>) -> (res: Command)
    ensures
        res@ == lsof_paths_command(pids@),
{
    let prefix: Vec<char> = Vec::new();
    let sep = chars_of(",");
    let list = join_pids(pids, prefix.as_slice(), sep.as_slice());
    let args = vec![
        text("-p"),
        string_of(list.as_slice()),
        text("-Fn"),
        text("-a"),
        text("-d"),
        text("txt"),
    ];
    let c = make_command("lsof", args, false);
    assert(arg_views(args@) =~= seq![
        "-p"@,
        joined(prefixed_pids(pids@, seq![]), ","@),
        "-Fn"@,
        "-a"@,
        "-d"@,
        "txt"@,
    ]);
    c
}

// ---------------------------------------------------------------------
// The scan
// ---------------------------------------------------------------------
impl ScanState {
    /// A scan on `platform` that has run nothing yet.
    pub fn new(platform: Platform) -> (res: ScanState)
        ensures
            res.platform == platform,
            res.outputs@.len() == 0,
    {
        ScanState { platform, outputs: Vec::new() }
    }

    /// Records the standard output of the command just run, or `None`
    /// where it could not be run.
    pub fn record(&mut self, output: Option<Vec<u8>>)
        ensures
            final(self).platform == old(self).platform,
            final(self).outputs@ == old(self).outputs@.push(output),
    {
        self.outputs.push(output);
    }
}

/// The text of a command's output on Windows, as characters.
fn windows_text(bytes: &Vec<u8>) -> (res: Vec<char>)
    ensures
        res@ == decoded_text(bytes@),
{
    let s = decode_output(bytes.as_slice());
    chars_of(s.as_str())
}

/// The text of a command's output on macOS, as characters.
fn macos_text(bytes: &Vec<u8>) -> (res: Vec<char>)
    ensures
        res@ == utf8_lossy(bytes@),
{
    let s = utf8_text(bytes.as_slice());
    chars_of(s.as_str())
}

fn windows_step(outputs: &Vec<Option<Vec<u8>>>) -> (res: ScanAction)
    ensures
        action_follows(res, windows_plan(outputs_view(outputs@))),
{
    let ghost ov = outputs_view(outputs@);
    if outputs.len() == 0 {
        return ScanAction::Run(netstat());
    }
    let first = match &outputs[0] {
        Some(b) => b,
        None => {
            return ScanAction::Finish(Vec::new());
        },
    };
    assert(ov[0] == Some(first@));
    let entries = netstat_entries(windows_text(first).as_slice());
    if entries.len() == 0 {
        return ScanAction::Finish(Vec::new());
    }
    if outputs.len() == 1 {
        return ScanAction::Run(tasklist());
    }
    let names = match &outputs[1] {
        Some(t) => {
            assert(ov[1] == Some(t@));
            tasklist_names(windows_text(t).as_slice())
        },
        None => {
            let empty: HashMap<u32, String> = HashMap::new();
            assert(table_view(empty@) =~= Map::<u32, Seq<char>>::empty());
            empty
        },
    };
    if outputs.len() == 2 {
        let mut pid_list: Vec<u32> = Vec::new();
        for i in 0..entries.len()
            invariant
                pid_list@ == entry_pids(entries@).take(i as int),
        {
            pid_list.push(entries[i].1);
            assert(entry_pids(entries@).take(i + 1) =~= pid_list@);
        }
        assert(entry_pids(entries@).take(entries@.len() as int) =~= entry_pids(entries@));
        let pids = distinct_sorted_pids(&pid_list);
        return ScanAction::Run(wmic(&pids));
    }
    let paths = match &outputs[2] {
        Some(w) => {
            assert(ov[2] == Some(w@));
            let p = wmic_paths(windows_text(w).as_slice());
            proof {
                lemma_wmic_paths_nonempty(lines_of(decoded_text(w@)));
            }
            p
        },
        None => {
            let none: Vec<(u32, Vec<char>)> = Vec::new();
            assert(entries_view(none@) =~= Seq::<(u32, Seq<char>)>::empty());
            none
        },
    };
    assert(entries_view(paths@) == match ov[2] {
        Some(w) => wmic_table(lines_of(decoded_text(w))),
        None => seq![],
    });
    assert forall|i: int| 0 <= i < paths@.len() implies (#[trigger] paths@[i]).1@.len() > 0 by {
        assert(entries_view(paths@)[i].1 == paths@[i].1@);
    }
    let dirs = directory_table(&paths, false);
    proof {
        lemma_windows_rows_fit(entries@, table_view(names@), table_view(dirs@), entries_view(paths@));
    }
    ScanAction::Finish(merge_windows(&entries, &names, &dirs))
}

fn macos_step(outputs: &Vec<Option<Vec<u8>>>) -> (res: ScanAction)
    ensures
        action_follows(res, macos_plan(outputs_view(outputs@))),
{
    let ghost ov = outputs_view(outputs@);
    if outputs.len() == 0 {
        return ScanAction::Run(lsof_listen());
    }
    let first = match &outputs[0] {
        Some(b) => b,
        None => {
            return ScanAction::Finish(Vec::new());
        },
    };
    assert(ov[0] == Some(first@));
    let listeners = lsof_listener_entries(macos_text(first).as_slice());
    if listeners.len() == 0 {
        return ScanAction::Finish(Vec::new());
    }
    let ghost ls = listeners_view(listeners@);
    let mut pid_list: Vec<u32> = Vec::new();
    for i in 0..listeners.len()
        invariant
            ls == listeners_view(listeners@),
            pid_list@ == listener_pids(ls).take(i as int),
    {
        pid_list.push(listeners[i].1);
        assert(listener_pids(ls).take(i + 1) =~= pid_list@);
    }
    assert(listener_pids(ls).take(listeners@.len() as int) =~= listener_pids(ls));
    if outputs.len() == 1 {
        let pids = distinct_sorted_pids(&pid_list);
        return ScanAction::Run(lsof_paths_of(&pids));
    }
    let paths = match &outputs[1] {
        Some(t) => {
            assert(ov[1] == Some(t@));
            let p = lsof_path_entries(macos_text(t).as_slice());
            proof {
                lemma_lsof_paths_nonempty(lines_of(utf8_lossy(t@)));
            }
            p
        },
        None => {
            let none: Vec<(u32, Vec<char>)> = Vec::new();
            assert(entries_view(none@) =~= Seq::<(u32, Seq<char>)>::empty());
            none
        },
    };
    assert forall|i: int| 0 <= i < paths@.len() implies (#[trigger] paths@[i]).1@.len() > 0 by {
        assert(entries_view(paths@)[i].1 == paths@[i].1@);
    }
    let dirs = directory_table(&paths, true);
    proof {
        lemma_macos_rows_fit(ls, table_view(dirs@), entries_view(paths@));
    }
    ScanAction::Finish(merge_macos(&listeners, &dirs))
}

/// What the scan does next: the command to run, or, once the outputs it
/// needs are in, the listening ports in increasing order, each with its
/// pid, the name of its process and the directory of its executable.
pub fn scan_ports(state: &ScanState) -> (res: ScanAction)
    ensures
        action_follows(res, scan_plan(state.platform, outputs_view(state.outputs@))),
{
    match state.platform {
        Platform::Windows => windows_step(&state.outputs),
        Platform::MacOs => macos_step(&state.outputs),
        Platform::Other => {
            let none: Vec<PortInfo> = Vec::new();
            assert(rows_of(none@) =~= Seq::empty());
            ScanAction::Finish(none)
        },
    }
}

} // verus!
