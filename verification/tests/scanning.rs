use portly::ports::PortInfo;
use portly::scan::{scan_ports, Command, Platform, ScanAction, ScanState};

fn expect_run(state: &ScanState) -> Command {
    match scan_ports(state) {
        ScanAction::Run(c) => c,
        ScanAction::Finish(_) => panic!("the scan ended early"),
    }
}

fn expect_finish(state: &ScanState) -> Vec<PortInfo> {
    match scan_ports(state) {
        ScanAction::Run(c) => panic!("the scan asked for {:?}", c),
        ScanAction::Finish(v) => v,
    }
}

fn row(port: u16, pid: u32, name: &str, dir: &str) -> PortInfo {
    PortInfo { port, pid, process_name: name.to_string(), directory: dir.to_string() }
}

const NETSTAT: &str = "\r\nActive Connections\r\n\r\n  Proto  Local Address  Foreign Address  State  PID\r\n  TCP    0.0.0.0:5432   0.0.0.0:0        LISTENING  6000\r\n  TCP    0.0.0.0:135    0.0.0.0:0        LISTENING  1100\r\n  TCP    0.0.0.0:445    0.0.0.0:0        LISTENING  4\r\n  TCP    127.0.0.1:3000 0.0.0.0:0        LISTENING  8120\r\n  TCP    [::]:135       [::]:0           LISTENING  1100\r\n";
const TASKLIST: &str = "\"System\",\"4\",\"Services\",\"0\",\"144 K\"\r\n\"svchost.exe\",\"1100\",\"Services\",\"0\",\"12,345 K\"\r\n\"node.exe\",\"8120\",\"Console\",\"1\",\"50,000 K\"\r\n";
const WMIC: &str = "\r\nNode,ExecutablePath,ProcessId\r\nMYPC,C:/Windows/system32/svchost.exe,1100\r\nMYPC,,4\r\nMYPC,C:/Program Files/nodejs/node.exe,8120\r\n";

fn utf16(text: &str) -> Vec<u8> {
    let mut bytes = vec![0xFF, 0xFE];
    for u in text.encode_utf16() {
        bytes.extend_from_slice(&u.to_le_bytes());
    }
    bytes
}

#[test]
fn windows_scan_runs_netstat_tasklist_and_wmic() {
    let mut state = ScanState::new(Platform::Windows);
    let c = expect_run(&state);
    assert_eq!(c.program, "netstat");
    assert_eq!(c.args, vec!["-ano", "-p", "TCP"]);
    assert!(c.hide_window);
    state.record(Some(NETSTAT.as_bytes().to_vec()));
    let c = expect_run(&state);
    assert_eq!(c.program, "tasklist");
    assert_eq!(c.args, vec!["/FO", "CSV", "/NH"]);
    state.record(Some(utf16(TASKLIST)));
    let c = expect_run(&state);
    assert_eq!(c.program, "wmic");
    assert_eq!(
        c.args,
        vec![
            "process",
            "where",
            "(ProcessId=4 OR ProcessId=1100 OR ProcessId=6000 OR ProcessId=8120)",
            "get",
            "ProcessId,ExecutablePath",
            "/FORMAT:CSV"
        ]
    );
    state.record(Some(WMIC.as_bytes().to_vec()));
    let table = expect_finish(&state);
    assert_eq!(
        table,
        vec![
            row(135, 1100, "svchost", "C:/Windows/system32"),
            row(445, 4, "System", ""),
            row(3000, 8120, "node", "C:/Program Files/nodejs"),
            row(5432, 6000, "pid_6000", ""),
        ]
    );
}

#[test]
fn windows_scan_without_netstat_is_empty() {
    let mut state = ScanState::new(Platform::Windows);
    state.record(None);
    assert!(expect_finish(&state).is_empty());
}

#[test]
fn windows_scan_with_no_listening_port_is_empty() {
    let mut state = ScanState::new(Platform::Windows);
    state.record(Some(b"  TCP  1.2.3.4:80  5.6.7.8:9  ESTABLISHED  7\r\n".to_vec()));
    assert!(expect_finish(&state).is_empty());
}

#[test]
fn windows_scan_without_names_or_paths_falls_back() {
    let mut state = ScanState::new(Platform::Windows);
    state.record(Some(NETSTAT.as_bytes().to_vec()));
    state.record(None);
    state.record(None);
    let table = expect_finish(&state);
    assert_eq!(
        table,
        vec![
            row(135, 1100, "pid_1100", ""),
            row(445, 4, "pid_4", ""),
            row(3000, 8120, "pid_8120", ""),
            row(5432, 6000, "pid_6000", ""),
        ]
    );
}

const LSOF: &str = "COMMAND   PID   USER   FD   TYPE  DEVICE SIZE/OFF NODE NAME\npostgres  880   me     7u   IPv4  0xdef0 0t0      TCP  127.0.0.1:5432 (LISTEN)\nnode      7001  me     23u  IPv6  0x5678 0t0      TCP  *:3000 (LISTEN)\nnode      7001  me     24u  IPv4  0x9abc 0t0      TCP  127.0.0.1:3000 (LISTEN)\nrapportd  512   me     4u   IPv4  0x1234 0t0      TCP  *:49152 (LISTEN)\n";
const LSOF_PATHS: &str = "p512\nn/usr/libexec/rapportd\np7001\nn/usr/local/bin/node\nn/usr/lib/dyld\n";

#[test]
fn macos_scan_runs_lsof_twice() {
    let mut state = ScanState::new(Platform::MacOs);
    let c = expect_run(&state);
    assert_eq!(c.program, "lsof");
    assert_eq!(c.args, vec!["-iTCP", "-sTCP:LISTEN", "-n", "-P"]);
    assert!(!c.hide_window);
    state.record(Some(LSOF.as_bytes().to_vec()));
    let c = expect_run(&state);
    assert_eq!(c.program, "lsof");
    assert_eq!(c.args, vec!["-p", "512,880,7001", "-Fn", "-a", "-d", "txt"]);
    state.record(Some(LSOF_PATHS.as_bytes().to_vec()));
    let table = expect_finish(&state);
    assert_eq!(
        table,
        vec![
            row(3000, 7001, "node", "/usr/local/bin"),
            row(5432, 880, "postgres", ""),
            row(49152, 512, "rapportd", "/usr/libexec"),
        ]
    );
}

#[test]
fn macos_scan_without_paths_keeps_names() {
    let mut state = ScanState::new(Platform::MacOs);
    state.record(Some(LSOF.as_bytes().to_vec()));
    state.record(None);
    let table = expect_finish(&state);
    assert_eq!(table.iter().map(|r| r.port).collect::<Vec<_>>(), vec![3000, 5432, 49152]);
    assert!(table.iter().all(|r| r.directory.is_empty()));
}

#[test]
fn macos_scan_with_only_a_header_is_empty() {
    let mut state = ScanState::new(Platform::MacOs);
    state.record(Some(b"COMMAND PID USER FD TYPE DEVICE SIZE/OFF NODE NAME\n".to_vec()));
    assert!(expect_finish(&state).is_empty());
}

#[test]
fn other_systems_list_nothing() {
    let state = ScanState::new(Platform::Other);
    assert!(expect_finish(&state).is_empty());
}

#[test]
fn scan_ends_after_three_outputs_with_increasing_ports() {
    for platform in [Platform::Windows, Platform::MacOs, Platform::Other] {
        let mut state = ScanState::new(platform);
        state.record(Some(NETSTAT.as_bytes().to_vec()));
        state.record(Some(LSOF.as_bytes().to_vec()));
        state.record(Some(WMIC.as_bytes().to_vec()));
        let table = expect_finish(&state);
        assert!(table.windows(2).all(|w| w[0].port < w[1].port));
        assert!(table.iter().all(|r| r.port != 0));
    }
}
