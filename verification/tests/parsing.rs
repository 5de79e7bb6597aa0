use portly::ports::{sort_rows_by_port, PortInfo};
use portly::table::parent_directory;
use portly::decode::decode_output;
use portly::macos::{lsof_listener_entries, lsof_path_entries};
use portly::number::{parse_u16, parse_u32};
use portly::text::{last_piece, split_lines, split_words, trim, trim_char, trim_end_matches};
use portly::windows::{netstat_entries, parse_tasklist_line, parse_wmic_line, tasklist_names, wmic_paths};

fn chars(s: &str) -> Vec<char> {
    s.chars().collect()
}

fn strings(v: &[Vec<char>]) -> Vec<String> {
    v.iter().map(|c| c.iter().collect()).collect()
}

const NETSTAT: &str = "\r\nActive Connections\r\n\r\n  Proto  Local Address          Foreign Address        State           PID\r\n  TCP    0.0.0.0:135            0.0.0.0:0              LISTENING       1100\r\n  TCP    0.0.0.0:445            0.0.0.0:0              LISTENING       4\r\n  TCP    127.0.0.1:3000         0.0.0.0:0              LISTENING       8120\r\n  TCP    127.0.0.1:3000         127.0.0.1:52000        ESTABLISHED     8120\r\n  TCP    [::]:135               [::]:0                 LISTENING       1100\r\n  TCP    0.0.0.0:5432           0.0.0.0:0              Listening       6000\r\n  TCP    0.0.0.0:0              0.0.0.0:0              LISTENING       12\r\n";

#[test]
fn utf8_output_is_read_as_it_is() {
    assert_eq!(decode_output("héllo\n".as_bytes()), "héllo\n");
}

#[test]
fn invalid_utf8_becomes_replacement_characters() {
    assert_eq!(decode_output(&[b'a', 0xFF, b'b']), "a\u{FFFD}b");
}

#[test]
fn utf16_output_behind_its_mark_is_decoded() {
    // "Hi\n" in UTF-16 LE behind FF FE, with a stray odd byte at the end
    let bytes = [0xFF, 0xFE, b'H', 0, b'i', 0, b'\n', 0, 0x41];
    assert_eq!(decode_output(&bytes), "Hi\n");
}

#[test]
fn utf16_surrogate_pairs_and_lone_surrogates() {
    // U+1F600 as D83D DE00, then a lone D800
    let bytes = [0xFF, 0xFE, 0x3D, 0xD8, 0x00, 0xDE, 0x00, 0xD8];
    assert_eq!(decode_output(&bytes), "\u{1F600}\u{FFFD}");
}

#[test]
fn only_a_full_mark_switches_to_utf16() {
    assert_eq!(decode_output(&[0xFF]), "\u{FFFD}");
    assert_eq!(decode_output(&[]), "");
}

#[test]
fn lines_are_split_like_str_lines() {
    let text = "a\r\nb\n\nc\r";
    assert_eq!(strings(&split_lines(&chars(text))), text.lines().map(|l| l.to_string()).collect::<Vec<_>>());
    assert_eq!(strings(&split_lines(&chars("x\n"))), vec!["x"]);
    assert!(split_lines(&chars("")).is_empty());
    assert_eq!(strings(&split_lines(&chars("\n"))), vec![""]);
}

#[test]
fn words_are_split_like_split_whitespace() {
    let text = "  TCP\t0.0.0.0:135 \u{3000}x  ";
    assert_eq!(strings(&split_words(&chars(text))), text.split_whitespace().map(|l| l.to_string()).collect::<Vec<_>>());
    assert!(split_words(&chars(" \t ")).is_empty());
}

#[test]
fn trimming() {
    assert_eq!(trim(&chars("  a b \r\n")), chars("a b"));
    assert_eq!(trim_char(&chars("\"\"x\"\""), '"'), chars("x"));
    assert_eq!(trim_end_matches(&chars("app.exe.exe"), &chars(".exe")), chars("app"));
    assert_eq!(trim_end_matches(&chars("APP.EXE"), &chars(".exe")), chars("APP.EXE"));
    assert_eq!(last_piece(&chars("[::1]:8080"), ':'), chars("8080"));
    assert_eq!(last_piece(&chars("8080"), ':'), chars("8080"));
}

#[test]
fn numbers_read_like_str_parse() {
    assert_eq!(parse_u16(&chars("8080")), Some(8080));
    assert_eq!(parse_u16(&chars("+22")), Some(22));
    assert_eq!(parse_u16(&chars("0065535")), Some(65535));
    assert_eq!(parse_u16(&chars("65536")), None);
    assert_eq!(parse_u16(&chars("")), None);
    assert_eq!(parse_u16(&chars("+")), None);
    assert_eq!(parse_u16(&chars("-1")), None);
    assert_eq!(parse_u16(&chars("1 ")), None);
    assert_eq!(parse_u32(&chars("4294967295")), Some(4294967295));
    assert_eq!(parse_u32(&chars("4294967296")), None);
    assert_eq!(parse_u32(&chars("99999999999999999999999")), None);
}

#[test]
fn netstat_listening_ports_once_each() {
    let entries = netstat_entries(&chars(NETSTAT));
    assert_eq!(entries, vec![(135, 1100), (445, 4), (3000, 8120), (5432, 6000)]);
}

#[test]
fn tasklist_names_lose_quotes_and_extension() {
    let line = chars("\"node.exe\",\"8120\",\"Console\",\"1\",\"50,000 K\"");
    assert_eq!(parse_tasklist_line(&line), Some((8120, chars("node"))));
    let upper = chars("  \"SERVICES.EXE\",\"700\",\"Services\",\"0\",\"9,000 K\"  ");
    assert_eq!(parse_tasklist_line(&upper), Some((700, chars("SERVICES"))));
    assert_eq!(parse_tasklist_line(&chars("\"only one field\"")), None);
    assert_eq!(parse_tasklist_line(&chars("\"a\",\"x\"")), None);
    assert_eq!(parse_tasklist_line(&chars("   ")), None);
}

#[test]
fn tasklist_later_lines_win() {
    let text = "\"System\",\"4\",\"Services\",\"0\",\"144 K\"\r\n\"a.exe\",\"9\",\"C\",\"1\",\"1 K\"\r\n\"b.exe\",\"9\",\"C\",\"1\",\"1 K\"\r\n";
    let names = tasklist_names(&chars(text));
    assert_eq!(names.len(), 2);
    assert_eq!(names.get(&4).map(|s| s.as_str()), Some("System"));
    assert_eq!(names.get(&9).map(|s| s.as_str()), Some("b"));
}

#[test]
fn wmic_lines() {
    assert_eq!(parse_wmic_line(&chars("Node,ExecutablePath,ProcessId")), None);
    assert_eq!(parse_wmic_line(&chars("MYPC,,4")), None);
    assert_eq!(
        parse_wmic_line(&chars(" MYPC, C:/Program Files/nodejs/node.exe , 8120 ")),
        Some((8120, chars("C:/Program Files/nodejs/node.exe")))
    );
    assert_eq!(parse_wmic_line(&chars("MYPC,C:/x.exe")), None);
    assert_eq!(parse_wmic_line(&chars("MYPC,C:/x.exe,12,extra")), None);
    let paths = wmic_paths(&chars("\r\nNode,ExecutablePath,ProcessId\r\nMYPC,C:/a/b.exe,1\r\nMYPC,,4\r\n"));
    assert_eq!(paths, vec![(1, chars("C:/a/b.exe"))]);
}

#[test]
fn lsof_listeners_skip_header_and_repeated_ports() {
    let text = "COMMAND   PID   USER   FD   TYPE  DEVICE SIZE/OFF NODE NAME\nrapportd  512   me     4u   IPv4  0x1234 0t0      TCP  *:49152 (LISTEN)\nnode      7001  me     23u  IPv6  0x5678 0t0      TCP  *:3000 (LISTEN)\nnode      7001  me     24u  IPv4  0x9abc 0t0      TCP  127.0.0.1:3000 (LISTEN)\nshort line\n";
    let entries = lsof_listener_entries(&chars(text));
    assert_eq!(entries, vec![(49152, 512, chars("rapportd")), (3000, 7001, chars("node"))]);
}

#[test]
fn lsof_unreadable_pid_counts_as_zero() {
    let text = "HEADER\nodd  x  me  4u IPv4 0x1 0t0 TCP *:8000 (LISTEN)\n";
    assert_eq!(lsof_listener_entries(&chars(text)), vec![(8000, 0, chars("odd"))]);
}

#[test]
fn lsof_paths_follow_the_last_pid_line() {
    let text = "n/ignored/before/pid\np512\nn/usr/libexec/rapportd\np7001\nn/usr/local/bin/node\nn\nfcwd\np0\nn/orphan\n";
    let paths = lsof_path_entries(&chars(text));
    assert_eq!(paths, vec![(512, chars("/usr/libexec/rapportd")), (7001, chars("/usr/local/bin/node"))]);
}

#[test]
fn directories_are_parents_of_executables() {
    assert_eq!(parent_directory(&chars("/usr/local/bin/node")), "/usr/local/bin");
    assert_eq!(parent_directory(&chars("C:/Program Files/nodejs/node.exe")), "C:/Program Files/nodejs");
    assert_eq!(parent_directory(&chars("node")), "");
    assert_eq!(parent_directory(&chars("/")), "");
}

#[test]
fn rows_sort_by_port_keeping_ties_in_order() {
    let row = |port: u16, pid: u32| PortInfo { port, pid, process_name: String::new(), directory: String::new() };
    let sorted = sort_rows_by_port(vec![row(9, 1), row(3, 2), row(9, 3), row(1, 4), row(3, 5)]);
    let keys: Vec<(u16, u32)> = sorted.iter().map(|r| (r.port, r.pid)).collect();
    assert_eq!(keys, vec![(1, 4), (3, 2), (3, 5), (9, 1), (9, 3)]);
}
