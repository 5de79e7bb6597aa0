//! Reading the listings of Windows tools: `netstat -ano -p TCP` for the
//! listening ports, `tasklist /FO CSV /NH` for the process names, and
//! `wmic process ... get ProcessId,ExecutablePath /FORMAT:CSV` for the
//! executables' paths.
use vstd::prelude::*;
use std::collections::HashMap;
use std::collections::HashSet;
use crate::number::parse_unsigned;
use crate::number::parse_u16;
use crate::number::parse_u32;
use crate::ports::{entries_view, table_view};
use crate::text::{
    after_last, copy_range, eq_ignore_ascii_case, find_char, find_str, find_pattern, has_prefix,
    index_of, last_piece, lemma_find_pattern, lemma_index_of, lines_of, same_ignoring_ascii_case,
    split_lines, split_words, starts_with, string_of, trim, trim_char, trim_end_matches,
    trim_end_pattern, trimmed, trimmed_char, views, words_of,
};

verus! {

broadcast use vstd::std_specs::hash::group_hash_axioms;

/// The state that `netstat` gives a listening socket.
pub open spec fn listening() -> Seq<char> {
    seq!['L', 'I', 'S', 'T', 'E', 'N', 'I', 'N', 'G']
}

/// What a line of `netstat -ano -p TCP` says of a listening socket: its
/// port (after the last `:` of the local address, the second column) and
/// the pid (the fifth column), where the fourth column is `LISTENING` in
/// any case and both numbers read.
pub open spec fn netstat_line(line: Seq<char>) -> Option<(u16, u32)> {
    let cols = words_of(line);
    if cols.len() < 5 || !same_ignoring_ascii_case(cols[3], listening()) {
        None
    } else {
        match (
            parse_unsigned(after_last(cols[1], ':'), u16::MAX as nat),
            parse_unsigned(cols[4], u32::MAX as nat),
        ) {
            (Some(port), Some(pid)) => Some((port as u16, pid as u32)),
            _ => None,
        }
    }
}

/// Whether some entry is for `port`.
pub open spec fn has_port(entries: Seq<(u16, u32)>, port: u16) -> bool {
    exists|i: int| 0 <= i < entries.len() && (#[trigger] entries[i]).0 == port
}

/// The listening ports of `netstat`'s lines with their pids, in the order
/// of the lines: port 0 is left out, and of one port only the first line
/// counts.
pub open spec fn netstat_table(lines: Seq<Seq<char>>) -> Seq<(u16, u32)>
    decreases lines.len(),
{
    if lines.len() == 0 {
        seq![]
    } else {
        let prev = netstat_table(lines.drop_last());
        match netstat_line(lines.last()) {
            Some((port, pid)) => if port != 0 && !has_port(prev, port) {
                prev.push((port, pid))
            } else {
                prev
            },
            None => prev,
        }
    }
}

/// The port and pid of a `netstat` line about a listening socket.
pub fn parse_netstat_line(line: &[char]) -> (res: Option<(u16, u32)>)
    ensures
        res == netstat_line(line@),
{
    let cols = split_words(line);
    assert(cols@.len() == words_of(line@).len());
    if cols.len() < 5 {
        return None;
    }
    assert(cols@[3]@ == words_of(line@)[3]);
    assert(cols@[1]@ == words_of(line@)[1]);
    assert(cols@[4]@ == words_of(line@)[4]);
    let word = vec!['L', 'I', 'S', 'T', 'E', 'N', 'I', 'N', 'G'];
    assert(word@ == listening());
    if !eq_ignore_ascii_case(cols[3].as_slice(), word.as_slice()) {
        return None;
    }
    let port_text = last_piece(cols[1].as_slice(), ':');
    let port = match parse_u16(port_text.as_slice()) {
        Some(p) => p,
        None => return None,
    };
    let pid = match parse_u32(cols[4].as_slice()) {
        Some(p) => p,
        None => return None,
    };
    Some((port, pid))
}

/// The listening ports of `netstat -ano -p TCP` output with their pids:
/// port 0 left out, and of one port the first line only.
pub fn netstat_entries(text: &[char]) -> (res: Vec<(u16, u32)>)
    ensures
        res@ == netstat_table(lines_of(text@)),
{
    let lines = split_lines(text);
    let ghost ls = lines_of(text@);
    let mut out: Vec<(u16, u32)> = Vec::new();
    let mut seen: HashSet<u16> = HashSet::new();
    let n = lines.len();
    assert(ls.take(0) =~= Seq::<Seq<char>>::empty());
    for i in 0..n
        invariant
            n == lines@.len() == ls.len(),
            views(lines@) == ls,
            out@ == netstat_table(ls.take(i as int)),
            forall|p: u16| seen@.contains(p) <==> has_port(out@, p),
    {
        assert(lines@[i as int]@ == ls[i as int]);
        let entry = parse_netstat_line(lines[i].as_slice());
        proof {
            assert(ls.take(i + 1).drop_last() =~= ls.take(i as int));
            assert(ls.take(i + 1).last() == ls[i as int]);
        }
        match entry {
            Some((port, pid)) => {
                if port != 0 && !seen.contains(&port) {
                    let ghost before = out@;
                    seen.insert(port);
                    out.push((port, pid));
                    assert forall|p: u16| seen@.contains(p) <==> has_port(out@, p) by {
                        if has_port(out@, p) && p != port {
                            let j = choose|j: int| 0 <= j < out@.len() && (#[trigger] out@[j]).0 == p;
                            assert(before[j] == out@[j]);
                        }
                        if has_port(before, p) {
                            let j = choose|j: int| 0 <= j < before.len() && (#[trigger] before[j]).0 == p;
                            assert(out@[j] == before[j]);
                        }
                        if p == port {
                            assert(out@[before.len() as int].0 == port);
                        }
                    }
                }
            },
            None => {},
        }
    }
    assert(ls.take(n as int) =~= ls);
    out
}

// ---------------------------------------------------------------------
// tasklist
// ---------------------------------------------------------------------
/// The separator of the fields in `tasklist`'s CSV lines: `","`.
pub open spec fn csv_separator() -> Seq<char> {
    seq!['"', ',', '"']
}

/// The extension that `tasklist` names carry.
pub open spec fn exe_lower() -> Seq<char> {
    seq!['.', 'e', 'x', 'e']
}

/// The same extension in capitals.
pub open spec fn exe_upper() -> Seq<char> {
    seq!['.', 'E', 'X', 'E']
}

/// The name of a process as `tasklist` shows it, with the quotes and the
/// `.exe` (or `.EXE`) extensions taken off its end.
pub open spec fn process_name_of(field: Seq<char>) -> Seq<char> {
    trim_end_pattern(trim_end_pattern(trimmed_char(field, '"'), exe_lower()), exe_upper())
}

/// What a line of `tasklist /FO CSV /NH` says: the pid (second field) and
/// the name (first field) of a process. The line is trimmed of whitespace
/// and then of quotes; its fields are separated by `","`.
pub open spec fn tasklist_line(line: Seq<char>) -> Option<(u32, Seq<char>)> {
    let t = trimmed_char(trimmed(line), '"');
    let k = find_pattern(t, csv_separator());
    if t.len() == 0 || k + 3 > t.len() {
        None
    } else {
        let rest = t.skip(k + 3);
        let second = rest.take(find_pattern(rest, csv_separator()));
        match parse_unsigned(trimmed_char(second, '"'), u32::MAX as nat) {
            Some(pid) => Some((pid as u32, process_name_of(t.take(k)))),
            None => None,
        }
    }
}

/// The process names of `tasklist`'s lines by pid; where a pid comes
/// twice, the later line counts.
pub open spec fn tasklist_table(lines: Seq<Seq<char>>) -> Map<u32, Seq<char>>
    decreases lines.len(),
{
    if lines.len() == 0 {
        Map::empty()
    } else {
        let prev = tasklist_table(lines.drop_last());
        match tasklist_line(lines.last()) {
            Some((pid, name)) => prev.insert(pid, name),
            None => prev,
        }
    }
}

/// The pid and name of a process in a `tasklist` line.
pub fn parse_tasklist_line(line: &[char]) -> (res: Option<(u32, Vec<char>)>)
    ensures
        match res {
            Some((pid, name)) => tasklist_line(line@) == Some((pid, name@)),
            None => tasklist_line(line@) is None,
        },
{
    let trimmed_line = trim(line);
    let t = trim_char(trimmed_line.as_slice(), '"');
    let sep = vec!['"', ',', '"'];
    assert(sep@ == csv_separator());
    if t.len() == 0 {
        return None;
    }
    let k = find_str(t.as_slice(), sep.as_slice(), 0);
    assert(t@.skip(0) =~= t@);
    if t.len() < 3 || k > t.len() - 3 {
        return None;
    }
    let j = find_str(t.as_slice(), sep.as_slice(), k + 3);
    proof {
        lemma_find_pattern(t@.skip(k + 3), csv_separator());
    }
    let second = copy_range(t.as_slice(), k + 3, j);
    assert(second@ =~= t@.skip(k + 3).take(j - (k + 3)));
    let pid_text = trim_char(second.as_slice(), '"');
    let pid = match parse_u32(pid_text.as_slice()) {
        Some(p) => p,
        None => return None,
    };
    let first = copy_range(t.as_slice(), 0, k);
    assert(first@ =~= t@.take(k as int));
    let raw_name = trim_char(first.as_slice(), '"');
    let lower = vec!['.', 'e', 'x', 'e'];
    let upper = vec!['.', 'E', 'X', 'E'];
    assert(lower@ == exe_lower());
    assert(upper@ == exe_upper());
    let name1 = trim_end_matches(raw_name.as_slice(), lower.as_slice());
    let name = trim_end_matches(name1.as_slice(), upper.as_slice());
    Some((pid, name))
}

/// The process names of `tasklist /FO CSV /NH` output by pid, the later
/// line winning where a pid comes twice.
pub fn tasklist_names(text: &[char]) -> (res: HashMap<u32, String>)
    ensures
        table_view(res@) == tasklist_table(lines_of(text@)),
{
    let lines = split_lines(text);
    let ghost ls = lines_of(text@);
    let mut names: HashMap<u32, String> = HashMap::new();
    let n = lines.len();
    assert(ls.take(0) =~= Seq::<Seq<char>>::empty());
    assert(table_view(names@) =~= Map::<u32, Seq<char>>::empty());
    for i in 0..n
        invariant
            n == lines@.len() == ls.len(),
            views(lines@) == ls,
            table_view(names@) == tasklist_table(ls.take(i as int)),
    {
        assert(lines@[i as int]@ == ls[i as int]);
        let entry = parse_tasklist_line(lines[i].as_slice());
        proof {
            assert(ls.take(i + 1).drop_last() =~= ls.take(i as int));
            assert(ls.take(i + 1).last() == ls[i as int]);
        }
        match entry {
            Some((pid, name)) => {
                let ghost before = names@;
                let s = string_of(name.as_slice());
                names.insert(pid, s);
                assert(table_view(names@) =~= table_view(before).insert(pid, name@));
            },
            None => {},
        }
    }
    assert(ls.take(n as int) =~= ls);
    names
}

// ---------------------------------------------------------------------
// wmic
// ---------------------------------------------------------------------
/// The header line of `wmic`'s CSV output begins with this.
pub open spec fn node_word() -> Seq<char> {
    seq!['N', 'o', 'd', 'e']
}

/// What a line of `wmic`'s CSV output (`Node,ExecutablePath,ProcessId`)
/// says: the pid (third field) and the non-empty executable path (second
/// field) of a process. Fields are separated by commas, the last field
/// takes the rest of the line, and both are trimmed of whitespace.
pub open spec fn wmic_line(line: Seq<char>) -> Option<(u32, Seq<char>)> {
    let t = trimmed(line);
    let i = index_of(t, ',');
    let rest = t.skip(i + 1);
    let j = index_of(rest, ',');
    if t.len() == 0 || starts_with(t, node_word()) || i >= t.len() || j >= rest.len() {
        None
    } else {
        let exe = trimmed(rest.take(j));
        match parse_unsigned(trimmed(rest.skip(j + 1)), u32::MAX as nat) {
            Some(pid) => if exe.len() > 0 {
                Some((pid as u32, exe))
            } else {
                None
            },
            None => None,
        }
    }
}

/// The executable paths of `wmic`'s lines with their pids, in order.
pub open spec fn wmic_table(lines: Seq<Seq<char>>) -> Seq<(u32, Seq<char>)>
    decreases lines.len(),
{
    if lines.len() == 0 {
        seq![]
    } else {
        let prev = wmic_table(lines.drop_last());
        match wmic_line(lines.last()) {
            Some(e) => prev.push(e),
            None => prev,
        }
    }
}

/// The pid and executable path in a line of `wmic`'s CSV output.
pub fn parse_wmic_line(line: &[char]) -> (res: Option<(u32, Vec<char>)>)
    ensures
        match res {
            Some((pid, exe)) => wmic_line(line@) == Some((pid, exe@)),
            None => wmic_line(line@) is None,
        },
{
    let t = trim(line);
    let node = vec!['N', 'o', 'd', 'e'];
    assert(node@ == node_word());
    if t.len() == 0 || has_prefix(t.as_slice(), node.as_slice()) {
        return None;
    }
    let i = find_char(t.as_slice(), ',', 0);
    assert(t@.skip(0) =~= t@);
    proof {
        lemma_index_of(t@, ',');
    }
    if i >= t.len() {
        return None;
    }
    let j = find_char(t.as_slice(), ',', i + 1);
    let ghost rest = t@.skip(i + 1);
    proof {
        lemma_index_of(rest, ',');
    }
    if j >= t.len() {
        return None;
    }
    let exe_field = copy_range(t.as_slice(), i + 1, j);
    assert(exe_field@ =~= rest.take(j - (i + 1)));
    let pid_field = copy_range(t.as_slice(), j + 1, t.len());
    assert(pid_field@ =~= rest.skip(j - (i + 1) + 1));
    let exe = trim(exe_field.as_slice());
    let pid_text = trim(pid_field.as_slice());
    let pid = match parse_u32(pid_text.as_slice()) {
        Some(p) => p,
        None => return None,
    };
    if exe.len() == 0 {
        return None;
    }
    Some((pid, exe))
}

/// The pids and non-empty executable paths in `wmic`'s CSV output, in
/// the order of its lines.
pub fn wmic_paths(text: &[char]) -> (res: Vec<(u32, Vec<char>)>)
    ensures
        entries_view(res@) == wmic_table(lines_of(text@)),
{
    let lines = split_lines(text);
    let ghost ls = lines_of(text@);
    let mut out: Vec<(u32, Vec<char>)> = Vec::new();
    let n = lines.len();
    assert(ls.take(0) =~= Seq::<Seq<char>>::empty());
    assert(entries_view(out@) =~= Seq::<(u32, Seq<char>)>::empty());
    for i in 0..n
        invariant
            n == lines@.len() == ls.len(),
            views(lines@) == ls,
            entries_view(out@) == wmic_table(ls.take(i as int)),
    {
        assert(lines@[i as int]@ == ls[i as int]);
        let entry = parse_wmic_line(lines[i].as_slice());
        proof {
            assert(ls.take(i + 1).drop_last() =~= ls.take(i as int));
            assert(ls.take(i + 1).last() == ls[i as int]);
        }
        match entry {
            Some(e) => {
                let ghost before = out@;
                let ghost ev = (e.0, e.1@);
                out.push(e);
                assert(entries_view(out@) =~= entries_view(before).push(ev));
            },
            None => {},
        }
    }
    assert(ls.take(n as int) =~= ls);
    out
}

} // verus!
