//! Reading the listings of `lsof` on macOS: `lsof -iTCP -sTCP:LISTEN -n -P`
//! for the listening ports, and `lsof -p PIDS -Fn -a -d txt` for the
//! paths of the processes' executables.
use vstd::prelude::*;
use std::collections::HashSet;
use crate::number::parse_unsigned;
use crate::number::parse_u16;
use crate::number::parse_u32;
use crate::ports::entries_view;
use crate::text::{
    after_last, copy_range, last_piece, lines_of, split_lines, split_words, views, words_of,
};

verus! {

broadcast use vstd::std_specs::hash::group_hash_axioms;

/// The number read, or 0 where there is none (`unwrap_or(0)`).
pub open spec fn or_zero(v: Option<nat>) -> nat {
    match v {
        Some(n) => n,
        None => 0,
    }
}

/// What a line of `lsof -iTCP -sTCP:LISTEN -n -P` says: the port (after
/// the last `:` of the ninth column), the pid (second column) and the
/// command (first column), a number that does not read counting as 0.
/// Lines of fewer than nine columns say nothing.
pub open spec fn lsof_line(line: Seq<char>) -> Option<(u16, u32, Seq<char>)> {
    let parts = words_of(line);
    if parts.len() < 9 {
        None
    } else {
        Some(
            (
                or_zero(parse_unsigned(after_last(parts[8], ':'), u16::MAX as nat)) as u16,
                or_zero(parse_unsigned(parts[1], u32::MAX as nat)) as u32,
                parts[0],
            ),
        )
    }
}

/// Whether some listener is on `port`.
pub open spec fn has_listener_port(entries: Seq<(u16, u32, Seq<char>)>, port: u16) -> bool {
    exists|i: int| 0 <= i < entries.len() && (#[trigger] entries[i]).0 == port
}

/// The listeners of `lsof`'s lines in their order: port 0 is left out,
/// and of one port only the first line counts.
pub open spec fn lsof_table(lines: Seq<Seq<char>>) -> Seq<(u16, u32, Seq<char>)>
    decreases lines.len(),
{
    if lines.len() == 0 {
        seq![]
    } else {
        let prev = lsof_table(lines.drop_last());
        match lsof_line(lines.last()) {
            Some((port, pid, name)) => if port != 0 && !has_listener_port(prev, port) {
                prev.push((port, pid, name))
            } else {
                prev
            },
            None => prev,
        }
    }
}

/// The listeners in `lsof`'s output, whose first line is a header.
pub open spec fn lsof_listeners(text: Seq<char>) -> Seq<(u16, u32, Seq<char>)> {
    let ls = lines_of(text);
    if ls.len() == 0 {
        seq![]
    } else {
        lsof_table(ls.drop_first())
    }
}

/// The views of a list of listeners.
pub open spec fn listeners_view(v: Seq<(u16, u32, Vec<char>)>) -> Seq<(u16, u32, Seq<char>)> {
    v.map_values(|e: (u16, u32, Vec<char>)| (e.0, e.1, e.2@))
}

/// The port, pid and command in a line of `lsof`'s listing.
pub fn parse_lsof_line(line: &[char]) -> (res: Option<(u16, u32, Vec<char>)>)
    ensures
        match res {
            Some((port, pid, name)) => lsof_line(line@) == Some((port, pid, name@)),
            None => lsof_line(line@) is None,
        },
{
    let parts = split_words(line);
    assert(parts@.len() == words_of(line@).len());
    if parts.len() < 9 {
        return None;
    }
    assert(parts@[0]@ == words_of(line@)[0]);
    assert(parts@[1]@ == words_of(line@)[1]);
    assert(parts@[8]@ == words_of(line@)[8]);
    let pid: u32 = match parse_u32(parts[1].as_slice()) {
        Some(p) => p,
        None => 0,
    };
    let port_text = last_piece(parts[8].as_slice(), ':');
    let port: u16 = match parse_u16(port_text.as_slice()) {
        Some(p) => p,
        None => 0,
    };
    let name = copy_range(parts[0].as_slice(), 0, parts[0].len());
    assert(name@ =~= parts@[0]@);
    Some((port, pid, name))
}

/// The listeners in the output of `lsof -iTCP -sTCP:LISTEN -n -P`: the
/// header line skipped, port 0 left out, and of one port the first line
/// only.
pub fn lsof_listener_entries(text: &[char]) -> (res: Vec<(u16, u32, Vec<char>)>)
    ensures
        listeners_view(res@) == lsof_listeners(text@),
{
    let lines = split_lines(text);
    let ghost all = lines_of(text@);
    let mut out: Vec<(u16, u32, Vec<char>)> = Vec::new();
    if lines.len() == 0 {
        assert(listeners_view(out@) =~= Seq::<(u16, u32, Seq<char>)>::empty());
        return out;
    }
    let ghost ls = all.drop_first();
    let mut seen: HashSet<u16> = HashSet::new();
    let n = lines.len();
    assert(ls.take(0) =~= Seq::<Seq<char>>::empty());
    assert(listeners_view(out@) =~= Seq::<(u16, u32, Seq<char>)>::empty());
    for i in 1..n
        invariant
            n == lines@.len() == all.len(),
            n >= 1,
            ls == all.drop_first(),
            views(lines@) == all,
            listeners_view(out@) == lsof_table(ls.take(i - 1)),
            forall|p: u16| seen@.contains(p) <==> has_listener_port(listeners_view(out@), p),
    {
        assert(lines@[i as int]@ == all[i as int]);
        assert(ls[i - 1] == all[i as int]);
        let entry = parse_lsof_line(lines[i].as_slice());
        proof {
            assert(ls.take(i as int).drop_last() =~= ls.take(i - 1));
            assert(ls.take(i as int).last() == ls[i - 1]);
        }
        match entry {
            Some((port, pid, name)) => {
                if port != 0 && !seen.contains(&port) {
                    let ghost before = listeners_view(out@);
                    let ghost ev = (port, pid, name@);
                    seen.insert(port);
                    out.push((port, pid, name));
                    assert(listeners_view(out@) =~= before.push(ev));
                    let ghost after = listeners_view(out@);
                    assert forall|p: u16| seen@.contains(p) <==> has_listener_port(after, p) by {
                        if has_listener_port(after, p) && p != port {
                            let j = choose|j: int| 0 <= j < after.len() && (#[trigger] after[j]).0 == p;
                            assert(before[j] == after[j]);
                        }
                        if has_listener_port(before, p) {
                            let j = choose|j: int| 0 <= j < before.len() && (#[trigger] before[j]).0 == p;
                            assert(after[j] == before[j]);
                        }
                        if p == port {
                            assert(after[before.len() as int].0 == port);
                        }
                    }
                }
            },
            None => {},
        }
    }
    assert(ls.take(n - 1) =~= ls);
    out
}

// ---------------------------------------------------------------------
// Executable paths (`lsof -Fn`)
// ---------------------------------------------------------------------
/// The pid that a `p` line of `lsof -F` output sets, and the paths that
/// its `n` lines give for the pid set last (none while that pid is 0,
/// and no empty path), in order.
pub open spec fn lsof_path_scan(lines: Seq<Seq<char>>) -> (u32, Seq<(u32, Seq<char>)>)
    decreases lines.len(),
{
    if lines.len() == 0 {
        (0, seq![])
    } else {
        let (cur, es) = lsof_path_scan(lines.drop_last());
        let l = lines.last();
        if l.len() > 0 && l[0] == 'p' {
            (or_zero(parse_unsigned(l.drop_first(), u32::MAX as nat)) as u32, es)
        } else if l.len() > 0 && l[0] == 'n' {
            if cur != 0 && l.len() > 1 {
                (cur, es.push((cur, l.drop_first())))
            } else {
                (cur, es)
            }
        } else {
            (cur, es)
        }
    }
}

/// The pids and executable paths in `lsof -Fn` output, in order.
pub open spec fn lsof_paths(text: Seq<char>) -> Seq<(u32, Seq<char>)> {
    lsof_path_scan(lines_of(text)).1
}

/// The pids and executable paths in the output of
/// `lsof -p PIDS -Fn -a -d txt`, in the order of its lines.
pub fn lsof_path_entries(text: &[char]) -> (res: Vec<(u32, Vec<char>)>)
    ensures
        entries_view(res@) == lsof_paths(text@),
{
    let lines = split_lines(text);
    let ghost ls = lines_of(text@);
    let mut out: Vec<(u32, Vec<char>)> = Vec::new();
    let mut cur: u32 = 0;
    let n = lines.len();
    assert(ls.take(0) =~= Seq::<Seq<char>>::empty());
    assert(entries_view(out@) =~= Seq::<(u32, Seq<char>)>::empty());
    for i in 0..n
        invariant
            n == lines@.len() == ls.len(),
            views(lines@) == ls,
            lsof_path_scan(ls.take(i as int)) == (cur, entries_view(out@)),
    {
        let line = &lines[i];
        assert(line@ == ls[i as int]);
        proof {
            assert(ls.take(i + 1).drop_last() =~= ls.take(i as int));
            assert(ls.take(i + 1).last() == ls[i as int]);
        }
        if line.len() > 0 && line[0] == 'p' {
            let rest = copy_range(line.as_slice(), 1, line.len());
            assert(rest@ =~= line@.drop_first());
            cur = match parse_u32(rest.as_slice()) {
                Some(p) => p,
                None => 0,
            };
        } else if line.len() > 0 && line[0] == 'n' {
            if cur != 0 && line.len() > 1 {
                let path = copy_range(line.as_slice(), 1, line.len());
                assert(path@ =~= line@.drop_first());
                let ghost before = entries_view(out@);
                out.push((cur, path));
                assert(entries_view(out@) =~= before.push((cur, line@.drop_first())));
            }
        }
    }
    assert(ls.take(n as int) =~= ls);
    out
}

} // verus!
