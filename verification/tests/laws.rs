use portly::actions::pid_text;
use portly::decode::decode_output;
use portly::ports::PortInfo;
use portly::table::parent_directory;
use portly::number::{parse_u16, parse_u32};
use portly::ports::distinct_sorted_pids;
use portly::scan::{scan_ports, Platform, ScanAction, ScanState};
use portly::windows::netstat_entries;

fn chars(s: &str) -> Vec<char> {
    s.chars().collect()
}

#[test]
fn decimal_reads_back() {
    for n in [0u32, 7, 10, 65535, 65536, 1234567, u32::MAX] {
        assert_eq!(parse_u32(&chars(&pid_text(n))), Some(n));
        assert_eq!(parse_u16(&chars(&pid_text(n))), u16::try_from(n).ok());
    }
}

#[test]
fn distinct_pids_are_increasing_and_complete() {
    let pids = vec![8120, 4, 1100, 4, 6000, 8120, 0];
    assert_eq!(distinct_sorted_pids(&pids), vec![0, 4, 1100, 6000, 8120]);
    assert!(distinct_sorted_pids(&Vec::new()).is_empty());
}

#[test]
fn every_listening_line_is_listed_once() {
    let text = "  TCP 0.0.0.0:80 0.0.0.0:0 LISTENING 10\n  TCP [::]:80 [::]:0 LISTENING 11\n  TCP 0.0.0.0:443 0.0.0.0:0 listening 12\n  TCP 0.0.0.0:8 0.0.0.0:0 LISTENING x\n";
    assert_eq!(netstat_entries(&chars(text)), vec![(80, 10), (443, 12)]);
}

#[test]
fn a_scan_asks_for_at_most_three_commands() {
    for platform in [Platform::Windows, Platform::MacOs, Platform::Other] {
        let mut state = ScanState::new(platform);
        let mut commands = 0;
        loop {
            match scan_ports(&state) {
                ScanAction::Run(_) => {
                    commands += 1;
                    state.record(Some(b"  TCP 0.0.0.0:22 0.0.0.0:0 LISTENING 1\nX 1 u fd TCP dev 0 TCP *:22 (LISTEN)\n".to_vec()));
                }
                ScanAction::Finish(_) => break,
            }
        }
        assert!(commands <= 3);
    }
}

#[test]
fn utf8_text_reads_back() {
    for s in ["", "port 3000 \u{2713}", "\u{65E5}\u{672C}\u{8A9E}\r\n", "\u{1F600} node"] {
        assert_eq!(decode_output(s.as_bytes()), s);
    }
}

fn utf16_with_mark(text: &str) -> Vec<u8> {
    let mut bytes = vec![0xFF, 0xFE];
    for u in text.encode_utf16() {
        bytes.extend_from_slice(&u.to_le_bytes());
    }
    bytes
}

#[test]
fn utf16_text_reads_back() {
    for s in ["", "Hi\r\n", "\u{1F600}\u{1F680} caf\u{E9}", "\u{10FFFF}\u{E000}\u{D7FF}"] {
        assert_eq!(decode_output(&utf16_with_mark(s)), s);
    }
}

#[test]
fn parents_drop_the_last_component() {
    assert_eq!(parent_directory(&chars("/usr/local/bin/node")), "/usr/local/bin");
    assert_eq!(parent_directory(&chars("/Applications/Docker.app/Contents/MacOS/com.docker.backend")), "/Applications/Docker.app/Contents/MacOS");
    assert_eq!(parent_directory(&chars("C:/Program Files/nodejs/node.exe")), "C:/Program Files/nodejs");
}

fn windows_scan(netstat: &str) -> Vec<PortInfo> {
    let outputs: [&[u8]; 3] = [
        netstat.as_bytes(),
        b"\"node.exe\",\"8120\",\"Console\",\"1\",\"50,000 K\"\r\n\"System\",\"4\",\"Services\",\"0\",\"144 K\"\r\n",
        b"Node,ExecutablePath,ProcessId\r\nPC,C:/nodejs/node.exe,8120\r\n",
    ];
    let mut state = ScanState::new(Platform::Windows);
    let mut next = 0;
    loop {
        match scan_ports(&state) {
            ScanAction::Run(_) => {
                state.record(Some(outputs[next].to_vec()));
                next += 1;
            }
            ScanAction::Finish(rows) => return rows,
        }
    }
}

#[test]
fn netstat_lines_that_do_not_count_change_nothing() {
    let plain = "  TCP 0.0.0.0:3000 0.0.0.0:0 LISTENING 8120\r\n  TCP 0.0.0.0:445 0.0.0.0:0 LISTENING 4\r\n";
    let noisy = "Active Connections\r\n\r\n  Proto Local Foreign State PID\r\n  TCP 0.0.0.0:3000 0.0.0.0:0 LISTENING 8120\r\n  TCP 10.0.0.2:50000 1.2.3.4:443 ESTABLISHED 8120\r\n  TCP 0.0.0.0:0 0.0.0.0:0 LISTENING 9\r\n  TCP 0.0.0.0:445 0.0.0.0:0 LISTENING 4\r\n  TCP 0.0.0.0:81 0.0.0.0:0 LISTENING pid\r\n";
    let expected = vec![
        PortInfo { port: 445, pid: 4, process_name: "System".to_string(), directory: String::new() },
        PortInfo { port: 3000, pid: 8120, process_name: "node".to_string(), directory: "C:/nodejs".to_string() },
    ];
    assert_eq!(windows_scan(plain), expected);
    assert_eq!(windows_scan(noisy), expected);
}

#[test]
fn netstat_order_does_not_matter() {
    let a = "  TCP 0.0.0.0:3000 0.0.0.0:0 LISTENING 8120\r\n  TCP 0.0.0.0:445 0.0.0.0:0 LISTENING 4\r\n  TCP 0.0.0.0:22 0.0.0.0:0 LISTENING 4\r\n";
    let b = "  TCP 0.0.0.0:22 0.0.0.0:0 LISTENING 4\r\n  TCP 0.0.0.0:3000 0.0.0.0:0 LISTENING 8120\r\n  TCP 0.0.0.0:445 0.0.0.0:0 LISTENING 4\r\n";
    assert_eq!(windows_scan(a), windows_scan(b));
    assert_eq!(windows_scan(a).len(), 3);
}

#[test]
fn unpaired_surrogates_become_replacement_characters() {
    let units: [u16; 8] = [0xD834, 0xDD1E, 0x006d, 0x0075, 0xD800, 0x0069, 0x0063, 0xD834];
    let mut bytes = vec![0xFF, 0xFE];
    for u in units {
        bytes.extend_from_slice(&u.to_le_bytes());
    }
    assert_eq!(decode_output(&bytes), "\u{1D11E}mu\u{FFFD}ic\u{FFFD}");
    let lone_low: [u8; 4] = [0xFF, 0xFE, 0x00, 0xDC];
    assert_eq!(decode_output(&lone_low), "\u{FFFD}");
}

#[test]
fn drive_paths_with_slashes_lose_their_last_component() {
    assert_eq!(parent_directory(&chars("C:/app/node.exe")), "C:/app");
    assert_eq!(parent_directory(&chars("d:/tools/bin/x.exe")), "d:/tools/bin");
}

#[test]
fn backslash_paths_give_a_prefix() {
    for path in ["C:\\Windows\\system32\\svchost.exe", "C:\\Program Files\\nodejs\\node.exe"] {
        let dir = parent_directory(&chars(path));
        assert!(path.starts_with(dir.as_str()));
        assert!(dir.len() < path.len());
    }
}
