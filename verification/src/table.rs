//! Putting the listings together: the directory of each executable, and
//! the rows of the port table in order of port.
use vstd::prelude::*;
use std::collections::HashMap;
use crate::macos::listeners_view;
use crate::number::decimal;
use crate::number::push_decimal;
use crate::ports::{
    directory_fits, directory_part, entries_view, plainly_nested, slash_nested, lemma_sort_pointwise, table_view, row_fits, rows_fit, rows_of, sort_by_port,
    sort_rows_by_port, PortInfo, PortListing, PortRow,
};
use crate::text::string_of;

verus! {

broadcast use vstd::std_specs::hash::group_hash_axioms;

/// `Path::parent`, as a string. The contract claims that a parent, where
/// there is one, is a proper prefix of the path (the path without its
/// last component), and that a plainly nested path, a leading drive such
/// as `C:/` allowed, has the part before its last `/` as its parent; and
/// that the parent of a path whose last part after its last `/` holds `\`
/// (a separator on some systems only) starts with all before that `/`.
/// Which separators and prefixes count otherwise depends on the system
/// the library runs on, so no clause says which prefix the parent of
/// another path is.
#[verifier::external_body]
fn path_parent(path: &str) -> (res: Option<String>)
    ensures
        res matches Some(d) ==> d@.len() < path@.len() && d@ == path@.take(d@.len() as int),
        plainly_nested(path@) ==> res is Some && res->Some_0@ == directory_part(path@),
        slash_nested(path@) ==> res is Some && res->Some_0@.len() >= directory_part(path@).len(),
{
    match std::path::Path::new(path).parent() {
        Some(p) => Some(p.to_string_lossy().to_string()),
        None => None,
    }
}

/// The directory of the executable at `path`: the path without its last
/// component, or empty where it has no parent. For a plainly nested path,
/// that is all before its last `/`; where only the last part holds `\`,
/// it starts with all before the last `/`.
pub fn parent_directory(path: &[char]) -> (res: String)
    ensures
        res@ == path@.take(res@.len() as int),
        res@.len() < path@.len() || res@.len() == 0,
        plainly_nested(path@) ==> res@ == directory_part(path@),
        slash_nested(path@) ==> res@.len() >= directory_part(path@).len(),
{
    let p = string_of(path);
    match path_parent(p.as_str()) {
        Some(d) => d,
        None => String::new(),
    }
}

// ---------------------------------------------------------------------
// Which path a pid gets
// ---------------------------------------------------------------------
/// The path of the last entry for `pid` (a map that each entry
/// overwrites).
pub open spec fn last_path(paths: Seq<(u32, Seq<char>)>, pid: u32) -> Option<Seq<char>>
    decreases paths.len(),
{
    if paths.len() == 0 {
        None
    } else if paths.last().0 == pid {
        Some(paths.last().1)
    } else {
        last_path(paths.drop_last(), pid)
    }
}

/// The path of the first entry for `pid` (a map that keeps what it has).
pub open spec fn first_path(paths: Seq<(u32, Seq<char>)>, pid: u32) -> Option<Seq<char>>
    decreases paths.len(),
{
    if paths.len() == 0 {
        None
    } else {
        match first_path(paths.drop_last(), pid) {
            Some(p) => Some(p),
            None => if paths.last().0 == pid {
                Some(paths.last().1)
            } else {
                None
            },
        }
    }
}

/// The path that `pid` gets: the first entry's where `keep_first`, the
/// last one's otherwise.
pub open spec fn chosen_path(paths: Seq<(u32, Seq<char>)>, pid: u32, keep_first: bool) -> Option<
    Seq<char>,
> {
    if keep_first {
        first_path(paths, pid)
    } else {
        last_path(paths, pid)
    }
}

/// Whether `dirs` holds, for each pid that has a path, a directory that
/// fits that path, and nothing for the other pids.
pub open spec fn directories_fit(
    dirs: Map<u32, Seq<char>>,
    paths: Seq<(u32, Seq<char>)>,
    keep_first: bool,
) -> bool {
    &&& forall|pid: u32| #[trigger]
        dirs.contains_key(pid) <==> chosen_path(paths, pid, keep_first) is Some
    &&& forall|pid: u32| #[trigger]
        dirs.contains_key(pid) ==> directory_fits(dirs[pid], chosen_path(paths, pid, keep_first))
}

/// The directory of each pid's executable: of its first path where
/// `keep_first`, of its last path otherwise.
pub fn directory_table(paths: &Vec<(u32, Vec<char>)>, keep_first: bool) -> (res: HashMap<
    u32,
    String,
>)
    requires
        forall|i: int| 0 <= i < paths@.len() ==> (#[trigger] paths@[i]).1@.len() > 0,
    ensures
        directories_fit(table_view(res@), entries_view(paths@), keep_first),
{
    let mut dirs: HashMap<u32, String> = HashMap::new();
    let n = paths.len();
    let ghost ps = entries_view(paths@);
    assert(ps.take(0) =~= Seq::<(u32, Seq<char>)>::empty());
    for i in 0..n
        invariant
            n == paths@.len() == ps.len(),
            ps == entries_view(paths@),
            forall|k: int| 0 <= k < paths@.len() ==> (#[trigger] paths@[k]).1@.len() > 0,
            directories_fit(table_view(dirs@), ps.take(i as int), keep_first),
    {
        let pid = paths[i].0;
        let path = &paths[i].1;
        let ghost prev = ps.take(i as int);
        let ghost cur = ps.take(i + 1);
        assert(cur.drop_last() =~= prev);
        assert(cur.last() == (pid, path@));
        assert(path@.len() > 0);
        let dir = parent_directory(path.as_slice());
        let ghost before = dirs@;
        if keep_first && dirs.contains_key(&pid) {
            assert forall|q: u32| #[trigger]
                table_view(dirs@).contains_key(q) <==> chosen_path(cur, q, keep_first) is Some by {
                assert(table_view(dirs@).contains_key(q) <==> dirs@.contains_key(q));
            }
            assert forall|q: u32| #[trigger] table_view(dirs@).contains_key(q) implies directory_fits(
                table_view(dirs@)[q],
                chosen_path(cur, q, keep_first),
            ) by {
                assert(table_view(dirs@).contains_key(q) <==> dirs@.contains_key(q));
            }
        } else {
            let ghost d = dir@;
            dirs.insert(pid, dir);
            assert(table_view(dirs@) =~= table_view(before).insert(pid, d));
            assert forall|q: u32| #[trigger]
                table_view(dirs@).contains_key(q) <==> chosen_path(cur, q, keep_first) is Some by {
                assert(table_view(before).contains_key(q) <==> before.contains_key(q));
            }
            assert forall|q: u32| #[trigger] table_view(dirs@).contains_key(q) implies directory_fits(
                table_view(dirs@)[q],
                chosen_path(cur, q, keep_first),
            ) by {
                if q != pid {
                    assert(table_view(before).contains_key(q));
                    assert(chosen_path(cur, q, keep_first) == chosen_path(prev, q, keep_first));
                } else {
                    if keep_first {
                        assert(!table_view(before).contains_key(pid));
                        assert(first_path(prev, pid) is None);
                    }
                    assert(chosen_path(cur, q, keep_first) == Some(path@));
                }
            }
        }
    }
    assert(ps.take(n as int) =~= ps);
    dirs
}

// ---------------------------------------------------------------------
// Rows
// ---------------------------------------------------------------------
/// The name of a process that has no name in the listing: `pid_` and its
/// pid.
pub open spec fn pid_label(pid: u32) -> Seq<char> {
    seq!['p', 'i', 'd', '_'] + decimal(pid as nat)
}

/// The text in `m` for `pid`, or `fallback`.
pub open spec fn lookup_or(m: Map<u32, Seq<char>>, pid: u32, fallback: Seq<char>) -> Seq<char> {
    if m.contains_key(pid) {
        m[pid]
    } else {
        fallback
    }
}

/// The row of a listening port on Windows: its name from `names` (or
/// `pid_` and the pid), its directory from `dirs` (or empty).
pub open spec fn windows_row(
    e: (u16, u32),
    names: Map<u32, Seq<char>>,
    dirs: Map<u32, Seq<char>>,
) -> PortRow {
    PortRow {
        port: e.0,
        pid: e.1,
        process_name: lookup_or(names, e.1, pid_label(e.1)),
        directory: lookup_or(dirs, e.1, seq![]),
    }
}

/// The rows of the listening ports on Windows, in the order of the ports.
pub open spec fn windows_rows(
    entries: Seq<(u16, u32)>,
    names: Map<u32, Seq<char>>,
    dirs: Map<u32, Seq<char>>,
) -> Seq<PortRow> {
    entries.map_values(|e: (u16, u32)| windows_row(e, names, dirs))
}

/// The text for `pid` in `m`, or the empty text.
fn text_or_empty(m: &HashMap<u32, String>, pid: u32) -> (res: String)
    ensures
        res@ == lookup_or(table_view(m@), pid, seq![]),
{
    match m.get(&pid) {
        Some(s) => s.clone(),
        None => String::new(),
    }
}

/// `pid_` and the pid in decimal.
pub fn pid_name(pid: u32) -> (res: String)
    ensures
        res@ == pid_label(pid),
{
    let mut chars = vec!['p', 'i', 'd', '_'];
    push_decimal(&mut chars, pid);
    string_of(chars.as_slice())
}

/// The port table on Windows: each listening port with the name of its
/// process from `names` (or `pid_` and the pid) and the directory from
/// `dirs` (or empty), in increasing order of port.
pub fn merge_windows(
    entries: &Vec<(u16, u32)>,
    names: &HashMap<u32, String>,
    dirs: &HashMap<u32, String>,
) -> (res: Vec<PortInfo>)
    ensures
        rows_of(res@) == sort_by_port(windows_rows(entries@, table_view(names@), table_view(dirs@))),
{
    let mut rows: Vec<PortInfo> = Vec::new();
    let n = entries.len();
    let ghost all = windows_rows(entries@, table_view(names@), table_view(dirs@));
    for i in 0..n
        invariant
            n == entries@.len() == all.len(),
            all == windows_rows(entries@, table_view(names@), table_view(dirs@)),
            rows_of(rows@) == all.take(i as int),
    {
        let (port, pid) = entries[i];
        let process_name = match names.get(&pid) {
            Some(s) => s.clone(),
            None => pid_name(pid),
        };
        let directory = text_or_empty(dirs, pid);
        let ghost before = rows_of(rows@);
        let row = PortInfo { port, pid, process_name, directory };
        assert(row@ == all[i as int]);
        rows.push(row);
        assert(rows_of(rows@) =~= before.push(all[i as int]));
        assert(all.take(i + 1) =~= all.take(i as int).push(all[i as int]));
    }
    assert(all.take(n as int) =~= all);
    sort_rows_by_port(rows)
}

/// The row of a listening port on macOS: the command from the listing,
/// the directory from `dirs` (or empty).
pub open spec fn macos_row(e: (u16, u32, Seq<char>), dirs: Map<u32, Seq<char>>) -> PortRow {
    PortRow { port: e.0, pid: e.1, process_name: e.2, directory: lookup_or(dirs, e.1, seq![]) }
}

/// The rows of the listening ports on macOS, in the order of the ports.
pub open spec fn macos_rows(entries: Seq<(u16, u32, Seq<char>)>, dirs: Map<u32, Seq<char>>) -> Seq<
    PortRow,
> {
    entries.map_values(|e: (u16, u32, Seq<char>)| macos_row(e, dirs))
}

/// The port table on macOS: each listener with the directory from `dirs`
/// (or empty), in increasing order of port.
pub fn merge_macos(entries: &Vec<(u16, u32, Vec<char>)>, dirs: &HashMap<u32, String>) -> (res: Vec<
    PortInfo,
>)
    ensures
        rows_of(res@) == sort_by_port(macos_rows(listeners_view(entries@), table_view(dirs@))),
{
    let mut rows: Vec<PortInfo> = Vec::new();
    let n = entries.len();
    let ghost all = macos_rows(listeners_view(entries@), table_view(dirs@));
    for i in 0..n
        invariant
            n == entries@.len() == all.len(),
            all == macos_rows(listeners_view(entries@), table_view(dirs@)),
            rows_of(rows@) == all.take(i as int),
    {
        let port = entries[i].0;
        let pid = entries[i].1;
        let process_name = string_of(entries[i].2.as_slice());
        let directory = text_or_empty(dirs, pid);
        let ghost before = rows_of(rows@);
        let row = PortInfo { port, pid, process_name, directory };
        assert(row@ == all[i as int]);
        rows.push(row);
        assert(rows_of(rows@) =~= before.push(all[i as int]));
        assert(all.take(i + 1) =~= all.take(i as int).push(all[i as int]));
    }
    assert(all.take(n as int) =~= all);
    sort_rows_by_port(rows)
}

// ---------------------------------------------------------------------
// Listings
// ---------------------------------------------------------------------
/// What is known of each listening port on Windows once the listings are
/// read: the name as in its row, and the last executable path of its pid.
pub open spec fn windows_listings(
    entries: Seq<(u16, u32)>,
    names: Map<u32, Seq<char>>,
    paths: Seq<(u32, Seq<char>)>,
) -> Seq<PortListing> {
    entries.map_values(
        |e: (u16, u32)|
            PortListing {
                port: e.0,
                pid: e.1,
                process_name: lookup_or(names, e.1, pid_label(e.1)),
                executable: last_path(paths, e.1),
            },
    )
}

/// What is known of each listening port on macOS once the listings are
/// read: the command, and the first executable path of its pid.
pub open spec fn macos_listings(
    entries: Seq<(u16, u32, Seq<char>)>,
    paths: Seq<(u32, Seq<char>)>,
) -> Seq<PortListing> {
    entries.map_values(
        |e: (u16, u32, Seq<char>)|
            PortListing {
                port: e.0,
                pid: e.1,
                process_name: e.2,
                executable: first_path(paths, e.1),
            },
    )
}

/// Rows made with directories that fit the paths are, once in order of
/// port, what the listings say in that order.
pub proof fn lemma_windows_rows_fit(
    entries: Seq<(u16, u32)>,
    names: Map<u32, Seq<char>>,
    dirs: Map<u32, Seq<char>>,
    paths: Seq<(u32, Seq<char>)>,
)
    requires
        directories_fit(dirs, paths, false),
    ensures
        rows_fit(
            sort_by_port(windows_rows(entries, names, dirs)),
            sort_by_port(windows_listings(entries, names, paths)),
        ),
{
    let rows = windows_rows(entries, names, dirs);
    let ls = windows_listings(entries, names, paths);
    let rel = |r: PortRow, l: PortListing| row_fits(r, l);
    assert forall|i: int| 0 <= i < rows.len() implies #[trigger] rel(rows[i], ls[i])
        && rows[i].port == ls[i].port by {
        let pid = entries[i].1;
        assert(dirs.contains_key(pid) <==> last_path(paths, pid) is Some);
    }
    lemma_sort_pointwise(rows, ls, rel);
    let a = sort_by_port(rows);
    let b = sort_by_port(ls);
    assert forall|i: int| 0 <= i < a.len() implies row_fits(#[trigger] a[i], b[i]) by {
        assert(rel(a[i], b[i]));
    }
}

/// The same for macOS, where the first path of a pid counts.
pub proof fn lemma_macos_rows_fit(
    entries: Seq<(u16, u32, Seq<char>)>,
    dirs: Map<u32, Seq<char>>,
    paths: Seq<(u32, Seq<char>)>,
)
    requires
        directories_fit(dirs, paths, true),
    ensures
        rows_fit(sort_by_port(macos_rows(entries, dirs)), sort_by_port(macos_listings(entries, paths))),
{
    let rows = macos_rows(entries, dirs);
    let ls = macos_listings(entries, paths);
    let rel = |r: PortRow, l: PortListing| row_fits(r, l);
    assert forall|i: int| 0 <= i < rows.len() implies #[trigger] rel(rows[i], ls[i])
        && rows[i].port == ls[i].port by {
        let pid = entries[i].1;
        assert(dirs.contains_key(pid) <==> first_path(paths, pid) is Some);
    }
    lemma_sort_pointwise(rows, ls, rel);
    let a = sort_by_port(rows);
    let b = sort_by_port(ls);
    assert forall|i: int| 0 <= i < a.len() implies row_fits(#[trigger] a[i], b[i]) by {
        assert(rel(a[i], b[i]));
    }
}

} // verus!
