//! What holds of every scan, and of the pieces it is made of.
use vstd::prelude::*;
use crate::macos::{has_listener_port, lsof_line, lsof_listeners, lsof_path_scan, lsof_table};
use crate::number::{all_digits, decimal, digit_char, digits_value, is_digit, parse_unsigned};
use crate::ports::{
    has_port_key, insert_unique, lemma_sort_by_port_order, lemma_sort_same_elements,
    ports_distinct, sort_by_port, sorted_distinct, ByPort, PortListing, plainly_nested, rows_fit,
    row_fits, rows_of, PortRow, directory_fits, directory_part, slash_nested,
};
use crate::scan::{action_follows, entry_pids, scan_plan, Platform, ScanAction};
use crate::table::{last_path, macos_listings, windows_listings};
use crate::text::{
    after_last, after_last_index, ends_with, find_pattern, same_ignoring_ascii_case, trim_end_pattern,
    trimmed, trimmed_char, words_of,
};
use crate::windows::{
    csv_separator, has_port, netstat_line, netstat_table, tasklist_line, tasklist_table, wmic_table,
};

verus! {

// ---------------------------------------------------------------------
// The scan ends
// ---------------------------------------------------------------------
/// A scan runs at most three commands: once three outputs are in, it
/// ends with the port table; on macOS two outputs suffice.
pub proof fn law_scan_ends(platform: Platform, outputs: Seq<Option<Seq<u8>>>)
    requires
        outputs.len() >= 3 || (platform == Platform::MacOs && outputs.len() >= 2),
    ensures
        scan_plan(platform, outputs) is Finish,
{
}

// ---------------------------------------------------------------------
// Each port once, in increasing order
// ---------------------------------------------------------------------
/// The ports of `netstat`'s table are distinct and none is 0.
pub proof fn lemma_netstat_ports(lines: Seq<Seq<char>>)
    ensures
        forall|i: int| 0 <= i < netstat_table(lines).len() ==> (#[trigger] netstat_table(lines)[i]).0 != 0,
        forall|i: int, j: int|
            0 <= i < j < netstat_table(lines).len() ==> (#[trigger] netstat_table(lines)[i]).0
                != (#[trigger] netstat_table(lines)[j]).0,
    decreases lines.len(),
{
    if lines.len() > 0 {
        let prev = netstat_table(lines.drop_last());
        lemma_netstat_ports(lines.drop_last());
        let t = netstat_table(lines);
        if t.len() > prev.len() {
            assert forall|i: int| 0 <= i < t.len() implies (#[trigger] t[i]).0 != 0 by {
                if i < prev.len() {
                    assert(t[i] == prev[i]);
                }
            }
            assert forall|i: int, j: int| 0 <= i < j < t.len() implies (#[trigger] t[i]).0
                != (#[trigger] t[j]).0 by {
                assert(t[i] == prev[i]);
                if j < prev.len() {
                    assert(t[j] == prev[j]);
                } else {
                    assert(!has_port(prev, t[j].0));
                }
            }
        }
    }
}

/// The ports of `lsof`'s table are distinct and none is 0.
pub proof fn lemma_lsof_ports(lines: Seq<Seq<char>>)
    ensures
        forall|i: int| 0 <= i < lsof_table(lines).len() ==> (#[trigger] lsof_table(lines)[i]).0 != 0,
        forall|i: int, j: int|
            0 <= i < j < lsof_table(lines).len() ==> (#[trigger] lsof_table(lines)[i]).0
                != (#[trigger] lsof_table(lines)[j]).0,
    decreases lines.len(),
{
    if lines.len() > 0 {
        let prev = lsof_table(lines.drop_last());
        lemma_lsof_ports(lines.drop_last());
        let t = lsof_table(lines);
        if t.len() > prev.len() {
            assert forall|i: int| 0 <= i < t.len() implies (#[trigger] t[i]).0 != 0 by {
                if i < prev.len() {
                    assert(t[i] == prev[i]);
                }
            }
            assert forall|i: int, j: int| 0 <= i < j < t.len() implies (#[trigger] t[i]).0
                != (#[trigger] t[j]).0 by {
                assert(t[i] == prev[i]);
                if j < prev.len() {
                    assert(t[j] == prev[j]);
                } else {
                    assert(!has_listener_port(prev, t[j].0));
                }
            }
        }
    }
}

/// Listings with distinct non-zero ports, once sorted, have increasing
/// non-zero ports.
proof fn lemma_sorted_listings(ls: Seq<PortListing>)
    requires
        forall|i: int| 0 <= i < ls.len() ==> (#[trigger] ls[i]).port != 0,
        ports_distinct(ls),
    ensures
        forall|i: int, j: int|
            0 <= i < j < sort_by_port(ls).len() ==> (#[trigger] sort_by_port(ls)[i]).port
                < (#[trigger] sort_by_port(ls)[j]).port,
        forall|i: int| 0 <= i < sort_by_port(ls).len() ==> (#[trigger] sort_by_port(ls)[i]).port != 0,
{
    lemma_sort_by_port_order(ls);
    let s = sort_by_port(ls);
    assert forall|i: int, j: int| 0 <= i < j < s.len() implies (#[trigger] s[i]).port
        < (#[trigger] s[j]).port by {
        assert(s[i].port <= s[j].port);
        assert(s[i].port != s[j].port);
    }
    assert forall|i: int| 0 <= i < s.len() implies (#[trigger] s[i]).port != 0 by {
        assert(has_port_key(s, s[i].port));
        assert(has_port_key(ls, s[i].port));
        let j = choose|j: int| 0 <= j < ls.len() && (#[trigger] ls[j]).port_key() == s[i].port;
        assert(ls[j].port != 0);
    }
}

/// The table that ends a scan lists each port once, in increasing order,
/// and never port 0.
pub proof fn law_ports_increasing(platform: Platform, outputs: Seq<Option<Seq<u8>>>)
    requires
        scan_plan(platform, outputs) is Finish,
    ensures
        ({
            let ls = scan_plan(platform, outputs)->Finish_0;
            &&& forall|i: int, j: int|
                0 <= i < j < ls.len() ==> (#[trigger] ls[i]).port < (#[trigger] ls[j]).port
            &&& forall|i: int| 0 <= i < ls.len() ==> (#[trigger] ls[i]).port != 0
        }),
{
    match platform {
        Platform::Windows => {
            if outputs.len() > 0 && outputs[0] is Some {
                let b = outputs[0]->Some_0;
                let lines = crate::text::lines_of(crate::decode::decoded_text(b));
                let entries = netstat_table(lines);
                lemma_netstat_ports(lines);
                if entries.len() > 0 && outputs.len() > 1 {
                    let names = match outputs[1] {
                        Some(t) => crate::windows::tasklist_table(
                            crate::text::lines_of(crate::decode::decoded_text(t)),
                        ),
                        None => Map::empty(),
                    };
                    let paths = if outputs.len() > 2 {
                        match outputs[2] {
                            Some(w) => crate::windows::wmic_table(
                                crate::text::lines_of(crate::decode::decoded_text(w)),
                            ),
                            None => seq![],
                        }
                    } else {
                        seq![]
                    };
                    let ls = windows_listings(entries, names, paths);
                    assert forall|i: int, j: int| 0 <= i < j < ls.len() implies ls[i].port_key()
                        != ls[j].port_key() by {
                        assert(ls[i].port == entries[i].0 && ls[j].port == entries[j].0);
                    }
                    assert forall|i: int| 0 <= i < ls.len() implies (#[trigger] ls[i]).port != 0 by {
                        assert(ls[i].port == entries[i].0);
                    }
                    lemma_sorted_listings(ls);
                }
            }
        },
        Platform::MacOs => {
            if outputs.len() > 1 && outputs[0] is Some {
                let b = outputs[0]->Some_0;
                let listeners = lsof_listeners(crate::decode::utf8_lossy(b));
                let all = crate::text::lines_of(crate::decode::utf8_lossy(b));
                if all.len() > 0 {
                    lemma_lsof_ports(all.drop_first());
                }
                let paths = match outputs[1] {
                    Some(t) => crate::macos::lsof_paths(crate::decode::utf8_lossy(t)),
                    None => seq![],
                };
                let ls = macos_listings(listeners, paths);
                assert forall|i: int, j: int| 0 <= i < j < ls.len() implies ls[i].port_key()
                    != ls[j].port_key() by {
                    assert(ls[i].port == listeners[i].0 && ls[j].port == listeners[j].0);
                }
                assert forall|i: int| 0 <= i < ls.len() implies (#[trigger] ls[i]).port != 0 by {
                    assert(ls[i].port == listeners[i].0);
                }
                lemma_sorted_listings(ls);
            }
        },
        Platform::Other => {},
    }
}

// ---------------------------------------------------------------------
// netstat: the listening ports, all of them, once each
// ---------------------------------------------------------------------
/// Each entry of `netstat`'s table is what some line says, and each port
/// that a line gives a listening socket other than 0 is in the table.
pub proof fn law_netstat_complete(lines: Seq<Seq<char>>)
    ensures
        forall|i: int|
            0 <= i < netstat_table(lines).len() ==> exists|j: int|
                0 <= j < lines.len() && netstat_line(#[trigger] lines[j]) == Some(
                    #[trigger] netstat_table(lines)[i],
                ),
        forall|j: int|
            0 <= j < lines.len() && (#[trigger] netstat_line(lines[j])) is Some
                && netstat_line(lines[j])->Some_0.0 != 0 ==> has_port(
                netstat_table(lines),
                netstat_line(lines[j])->Some_0.0,
            ),
    decreases lines.len(),
{
    if lines.len() > 0 {
        let pl = lines.drop_last();
        let prev = netstat_table(pl);
        law_netstat_complete(pl);
        let t = netstat_table(lines);
        assert forall|i: int| 0 <= i < t.len() implies exists|j: int|
            0 <= j < lines.len() && netstat_line(#[trigger] lines[j]) == Some(#[trigger] t[i]) by {
            if i < prev.len() {
                assert(t[i] == prev[i]);
                let j = choose|j: int|
                    0 <= j < pl.len() && netstat_line(#[trigger] pl[j]) == Some(prev[i]);
                assert(lines[j] == pl[j]);
            } else {
                assert(netstat_line(lines[lines.len() - 1]) == Some(t[i]));
            }
        }
        assert forall|j: int|
            0 <= j < lines.len() && (#[trigger] netstat_line(lines[j])) is Some
                && netstat_line(lines[j])->Some_0.0 != 0 implies has_port(
            t,
            netstat_line(lines[j])->Some_0.0,
        ) by {
            let p = netstat_line(lines[j])->Some_0.0;
            if j < pl.len() {
                assert(lines[j] == pl[j]);
                assert(netstat_line(pl[j]) is Some);
                assert(has_port(prev, p));
                let k = choose|k: int| 0 <= k < prev.len() && (#[trigger] prev[k]).0 == p;
                assert(t[k] == prev[k]);
            } else {
                if !has_port(prev, p) {
                    assert(t[prev.len() as int].0 == p);
                } else {
                    let k = choose|k: int| 0 <= k < prev.len() && (#[trigger] prev[k]).0 == p;
                    assert(t[k] == prev[k]);
                }
            }
        }
    }
}

/// Each entry of `lsof`'s table is what some line says, and each port
/// other than 0 that a line gives is in the table.
pub proof fn law_lsof_complete(lines: Seq<Seq<char>>)
    ensures
        forall|i: int|
            0 <= i < lsof_table(lines).len() ==> exists|j: int|
                0 <= j < lines.len() && lsof_line(#[trigger] lines[j]) == Some(
                    #[trigger] lsof_table(lines)[i],
                ),
        forall|j: int|
            0 <= j < lines.len() && (#[trigger] lsof_line(lines[j])) is Some
                && lsof_line(lines[j])->Some_0.0 != 0 ==> has_listener_port(
                lsof_table(lines),
                lsof_line(lines[j])->Some_0.0,
            ),
    decreases lines.len(),
{
    if lines.len() > 0 {
        let pl = lines.drop_last();
        let prev = lsof_table(pl);
        law_lsof_complete(pl);
        let t = lsof_table(lines);
        assert forall|i: int| 0 <= i < t.len() implies exists|j: int|
            0 <= j < lines.len() && lsof_line(#[trigger] lines[j]) == Some(#[trigger] t[i]) by {
            if i < prev.len() {
                assert(t[i] == prev[i]);
                let j = choose|j: int|
                    0 <= j < pl.len() && lsof_line(#[trigger] pl[j]) == Some(prev[i]);
                assert(lines[j] == pl[j]);
            } else {
                assert(lsof_line(lines[lines.len() - 1]) == Some(t[i]));
            }
        }
        assert forall|j: int|
            0 <= j < lines.len() && (#[trigger] lsof_line(lines[j])) is Some
                && lsof_line(lines[j])->Some_0.0 != 0 implies has_listener_port(
            t,
            lsof_line(lines[j])->Some_0.0,
        ) by {
            let p = lsof_line(lines[j])->Some_0.0;
            if j < pl.len() {
                assert(lines[j] == pl[j]);
                assert(lsof_line(pl[j]) is Some);
                assert(has_listener_port(prev, p));
                let k = choose|k: int| 0 <= k < prev.len() && (#[trigger] prev[k]).0 == p;
                assert(t[k] == prev[k]);
            } else {
                if !has_listener_port(prev, p) {
                    assert(t[prev.len() as int].0 == p);
                } else {
                    let k = choose|k: int| 0 <= k < prev.len() && (#[trigger] prev[k]).0 == p;
                    assert(t[k] == prev[k]);
                }
            }
        }
    }
}

// ---------------------------------------------------------------------
// netstat: which lines matter
// ---------------------------------------------------------------------
/// Whether a `netstat` line counts: it gives a listening socket on a port
/// other than 0.
pub open spec fn counts_in_netstat(line: Seq<char>) -> bool {
    netstat_line(line) is Some && netstat_line(line)->Some_0.0 != 0
}

/// The test of whether a `netstat` line counts.
pub open spec fn netstat_counts() -> spec_fn(Seq<char>) -> bool {
    |line: Seq<char>| counts_in_netstat(line)
}

/// Only the lines that count make `netstat`'s table: lines that do not
/// count, wherever they stand, change nothing.
pub proof fn law_netstat_only_counting_lines(lines: Seq<Seq<char>>)
    ensures
        netstat_table(lines) == netstat_table(lines.filter(netstat_counts())),
    decreases lines.len(),
{
    if lines.len() > 0 {
        let t = lines.drop_last();
        let x = lines.last();
        law_netstat_only_counting_lines(t);
        assert(lines =~= t.push(x));
        t.lemma_filter_push(x, netstat_counts());
        if counts_in_netstat(x) {
            let f = t.filter(netstat_counts()).push(x);
            assert(f.drop_last() =~= t.filter(netstat_counts()));
            assert(f.last() == x);
        }
    } else {
        reveal(Seq::filter);
    }
}

/// Whether the lines that count give one entry per port: two such lines
/// with the same port say the same.
pub open spec fn one_entry_per_port(lines: Seq<Seq<char>>) -> bool {
    forall|i: int, j: int|
        0 <= i < lines.len() && 0 <= j < lines.len() && counts_in_netstat(#[trigger] lines[i])
            && counts_in_netstat(#[trigger] lines[j]) && netstat_line(lines[i])->Some_0.0
            == netstat_line(lines[j])->Some_0.0 ==> netstat_line(lines[i]) == netstat_line(
            lines[j],
        )
}

/// With one entry per port, `netstat`'s table holds exactly the entries
/// of the lines that count.
proof fn lemma_netstat_table_elements(lines: Seq<Seq<char>>)
    requires
        one_entry_per_port(lines),
    ensures
        forall|e: (u16, u32)|
            netstat_table(lines).contains(e) <==> exists|j: int|
                0 <= j < lines.len() && counts_in_netstat(#[trigger] lines[j]) && netstat_line(
                    lines[j],
                ) == Some(e),
{
    let t = netstat_table(lines);
    law_netstat_complete(lines);
    lemma_netstat_ports(lines);
    assert forall|e: (u16, u32)|
        t.contains(e) <==> exists|j: int|
            0 <= j < lines.len() && counts_in_netstat(#[trigger] lines[j]) && netstat_line(lines[j])
                == Some(e) by {
        if t.contains(e) {
            let i = choose|i: int| 0 <= i < t.len() && t[i] == e;
            let j = choose|j: int|
                0 <= j < lines.len() && netstat_line(#[trigger] lines[j]) == Some(t[i]);
            assert(t[i].0 != 0);
            assert(counts_in_netstat(lines[j]));
        }
        if exists|j: int|
            0 <= j < lines.len() && counts_in_netstat(#[trigger] lines[j]) && netstat_line(lines[j])
                == Some(e) {
            let j = choose|j: int|
                0 <= j < lines.len() && counts_in_netstat(#[trigger] lines[j]) && netstat_line(
                    lines[j],
                ) == Some(e);
            assert(netstat_line(lines[j]) is Some);
            assert(has_port(t, e.0));
            let k = choose|k: int| 0 <= k < t.len() && (#[trigger] t[k]).0 == e.0;
            let m = choose|m: int|
                0 <= m < lines.len() && netstat_line(#[trigger] lines[m]) == Some(t[k]);
            assert(t[k].0 != 0);
            assert(counts_in_netstat(lines[m]));
            assert(netstat_line(lines[j]) == netstat_line(lines[m]));
            assert(t[k] == e);
        }
    }
}

/// Lines in another order, or repeated, give a table with the same
/// entries, where the lines that count give one entry per port.
pub proof fn law_netstat_order_free(a: Seq<Seq<char>>, b: Seq<Seq<char>>)
    requires
        one_entry_per_port(a),
        forall|x: Seq<char>| a.contains(x) <==> b.contains(x),
    ensures
        forall|e: (u16, u32)| netstat_table(a).contains(e) <==> netstat_table(b).contains(e),
{
    assert forall|i: int, j: int|
        0 <= i < b.len() && 0 <= j < b.len() && counts_in_netstat(#[trigger] b[i])
            && counts_in_netstat(#[trigger] b[j]) && netstat_line(b[i])->Some_0.0 == netstat_line(
            b[j],
        )->Some_0.0 implies netstat_line(b[i]) == netstat_line(b[j]) by {
        assert(b.contains(b[i]) && b.contains(b[j]));
        let p = choose|p: int| 0 <= p < a.len() && a[p] == b[i];
        let q = choose|q: int| 0 <= q < a.len() && a[q] == b[j];
        assert(counts_in_netstat(a[p]) && counts_in_netstat(a[q]));
    }
    lemma_netstat_table_elements(a);
    lemma_netstat_table_elements(b);
    assert forall|e: (u16, u32)| netstat_table(a).contains(e) <==> netstat_table(b).contains(e) by {
        if netstat_table(a).contains(e) {
            let j = choose|j: int|
                0 <= j < a.len() && counts_in_netstat(#[trigger] a[j]) && netstat_line(a[j]) == Some(e);
            assert(a.contains(a[j]));
            let k = choose|k: int| 0 <= k < b.len() && b[k] == a[j];
            assert(counts_in_netstat(b[k]));
        }
        if netstat_table(b).contains(e) {
            let j = choose|j: int|
                0 <= j < b.len() && counts_in_netstat(#[trigger] b[j]) && netstat_line(b[j]) == Some(e);
            assert(b.contains(b[j]));
            let k = choose|k: int| 0 <= k < a.len() && a[k] == b[j];
            assert(counts_in_netstat(a[k]));
        }
    }
}

/// Two strictly increasing lists of pids with the same elements are the
/// same list.
proof fn lemma_increasing_pids_unique(a: Seq<u32>, b: Seq<u32>)
    requires
        forall|i: int, j: int| 0 <= i < j < a.len() ==> a[i] < a[j],
        forall|i: int, j: int| 0 <= i < j < b.len() ==> b[i] < b[j],
        forall|x: u32| a.contains(x) <==> b.contains(x),
    ensures
        a == b,
    decreases a.len() + b.len(),
{
    if a.len() == 0 {
        if b.len() > 0 {
            assert(b.contains(b[0]));
        }
        assert(a =~= b);
    } else if b.len() == 0 {
        assert(a.contains(a[0]));
    } else {
        assert(a.contains(a[0]));
        assert(b.contains(b[0]));
        let j = choose|j: int| 0 <= j < b.len() && b[j] == a[0];
        let i = choose|i: int| 0 <= i < a.len() && a[i] == b[0];
        if i > 0 {
            assert(a[0] < a[i]);
            if j > 0 {
                assert(b[0] < b[j]);
            }
        }
        assert(a[0] == b[0]);
        let ta = a.drop_first();
        let tb = b.drop_first();
        assert forall|x: u32| ta.contains(x) <==> tb.contains(x) by {
            if ta.contains(x) {
                let k = choose|k: int| 0 <= k < ta.len() && ta[k] == x;
                assert(a[k + 1] == x);
                assert(a.contains(x));
                let m = choose|m: int| 0 <= m < b.len() && b[m] == x;
                assert(m > 0);
                assert(tb[m - 1] == x);
            }
            if tb.contains(x) {
                let k = choose|k: int| 0 <= k < tb.len() && tb[k] == x;
                assert(b[k + 1] == x);
                assert(b.contains(x));
                let m = choose|m: int| 0 <= m < a.len() && a[m] == x;
                assert(m > 0);
                assert(ta[m - 1] == x);
            }
        }
        lemma_increasing_pids_unique(ta, tb);
        assert(a =~= seq![a[0]] + ta);
        assert(b =~= seq![b[0]] + tb);
    }
}

/// The lines of a `netstat` output.
pub open spec fn netstat_lines_of(bytes: Seq<u8>) -> Seq<Seq<char>> {
    crate::text::lines_of(crate::decode::decoded_text(bytes))
}

/// On Windows, lines of `netstat`'s output that do not count change
/// nothing in a scan: outputs whose lines that count are the same, in the
/// same order, give the same scan where the later outputs are the same.
pub proof fn law_scan_counting_lines_only(o1: Seq<Option<Seq<u8>>>, o2: Seq<Option<Seq<u8>>>)
    requires
        o1.len() == o2.len(),
        o1.len() > 0,
        o1[0] is Some,
        o2[0] is Some,
        forall|k: int| 1 <= k < o1.len() ==> o1[k] == o2[k],
        netstat_lines_of(o1[0]->Some_0).filter(netstat_counts()) == netstat_lines_of(
            o2[0]->Some_0,
        ).filter(netstat_counts()),
    ensures
        scan_plan(Platform::Windows, o1) == scan_plan(Platform::Windows, o2),
{
    law_netstat_only_counting_lines(netstat_lines_of(o1[0]->Some_0));
    law_netstat_only_counting_lines(netstat_lines_of(o2[0]->Some_0));
    if o1.len() >= 2 {
        assert(o1[1] == o2[1]);
    }
    if o1.len() >= 3 {
        assert(o1[2] == o2[2]);
    }
}

/// On Windows, a scan is the same whatever the order of `netstat`'s lines
/// (or their repetition), where the lines that count give one entry per
/// port and the later outputs are the same.
pub proof fn law_scan_order_free(o1: Seq<Option<Seq<u8>>>, o2: Seq<Option<Seq<u8>>>)
    requires
        o1.len() == o2.len(),
        o1.len() > 0,
        o1[0] is Some,
        o2[0] is Some,
        forall|k: int| 1 <= k < o1.len() ==> o1[k] == o2[k],
        one_entry_per_port(netstat_lines_of(o1[0]->Some_0)),
        forall|x: Seq<char>|
            netstat_lines_of(o1[0]->Some_0).contains(x) <==> netstat_lines_of(o2[0]->Some_0).contains(x),
    ensures
        scan_plan(Platform::Windows, o1) == scan_plan(Platform::Windows, o2),
{
    let l1 = netstat_lines_of(o1[0]->Some_0);
    let l2 = netstat_lines_of(o2[0]->Some_0);
    law_netstat_order_free(l1, l2);
    let e1 = netstat_table(l1);
    let e2 = netstat_table(l2);
    if e1.len() == 0 && e2.len() > 0 {
        assert(e2.contains(e2[0]));
    }
    if e2.len() == 0 && e1.len() > 0 {
        assert(e1.contains(e1[0]));
    }
    if e1.len() > 0 && o1.len() >= 2 {
        let names = match o1[1] {
            Some(t) => crate::windows::tasklist_table(netstat_lines_of(t)),
            None => Map::empty(),
        };
        let p1 = entry_pids(e1);
        let p2 = entry_pids(e2);
        assert forall|x: u32| p1.contains(x) <==> p2.contains(x) by {
            if p1.contains(x) {
                let i = choose|i: int| 0 <= i < p1.len() && p1[i] == x;
                assert(e1.contains(e1[i]));
                let k = choose|k: int| 0 <= k < e2.len() && e2[k] == e1[i];
                assert(p2[k] == x);
            }
            if p2.contains(x) {
                let i = choose|i: int| 0 <= i < p2.len() && p2[i] == x;
                assert(e2.contains(e2[i]));
                let k = choose|k: int| 0 <= k < e1.len() && e1[k] == e2[i];
                assert(p1[k] == x);
            }
        }
        law_distinct_pids(p1);
        law_distinct_pids(p2);
        assert forall|x: u32| sorted_distinct(p1).contains(x) <==> sorted_distinct(p2).contains(x) by {
            assert(sorted_distinct(p1).contains(x) <==> p1.contains(x));
            assert(sorted_distinct(p2).contains(x) <==> p2.contains(x));
        }
        lemma_increasing_pids_unique(sorted_distinct(p1), sorted_distinct(p2));
        if o1.len() >= 3 {
            let paths = match o1[2] {
                Some(w) => crate::windows::wmic_table(netstat_lines_of(w)),
                None => seq![],
            };
            let a = windows_listings(e1, names, paths);
            let b = windows_listings(e2, names, paths);
            lemma_netstat_ports(l1);
            lemma_netstat_ports(l2);
            assert forall|i: int, j: int| 0 <= i < j < a.len() implies a[i].port_key()
                != a[j].port_key() by {
                assert(a[i].port == e1[i].0 && a[j].port == e1[j].0);
            }
            assert forall|i: int, j: int| 0 <= i < j < b.len() implies b[i].port_key()
                != b[j].port_key() by {
                assert(b[i].port == e2[i].0 && b[j].port == e2[j].0);
            }
            assert forall|x: PortListing| a.contains(x) <==> b.contains(x) by {
                if a.contains(x) {
                    let i = choose|i: int| 0 <= i < a.len() && a[i] == x;
                    assert(e1.contains(e1[i]));
                    let k = choose|k: int| 0 <= k < e2.len() && e2[k] == e1[i];
                    assert(b[k] == x);
                }
                if b.contains(x) {
                    let i = choose|i: int| 0 <= i < b.len() && b[i] == x;
                    assert(e2.contains(e2[i]));
                    let k = choose|k: int| 0 <= k < e1.len() && e1[k] == e2[i];
                    assert(a[k] == x);
                }
            }
            lemma_sort_same_elements(a, b);
        }
    }
}

// ---------------------------------------------------------------------
// Numbers
// ---------------------------------------------------------------------
proof fn lemma_decimal_digits(n: nat)
    ensures
        decimal(n).len() > 0,
        all_digits(decimal(n)),
        digits_value(decimal(n)) == n,
    decreases n,
{
    assert(digit_char(n % 10) as u32 == 48 + n % 10);
    if n >= 10 {
        lemma_decimal_digits(n / 10);
        let d = decimal(n);
        assert(d.drop_last() == decimal(n / 10));
        assert(d.last() == digit_char(n % 10));
        assert(('0' as u32) == 48);
        assert(crate::number::digit_value(d.last()) == n % 10);
        assert(digits_value(d) == digits_value(decimal(n / 10)) * 10 + n % 10);
        assert(n == (n / 10) * 10 + n % 10);
        assert(digits_value(decimal(n / 10)) == n / 10);
        assert(digits_value(d) == n);
        assert forall|i: int| 0 <= i < d.len() implies is_digit(d[i]) by {
            if i < d.len() - 1 {
                assert(d[i] == decimal(n / 10)[i]);
            }
        }
    } else {
        assert(digit_char(n) as u32 == 48 + n);
        assert(('0' as u32) == 48);
        let d = decimal(n);
        assert(d.drop_last() =~= Seq::<char>::empty());
        assert(crate::number::digit_value(d.last()) == n);
        assert(digits_value(d.drop_last()) == 0);
        assert(digits_value(d) == n);
    }
}

/// A number written in decimal reads back as itself.
pub proof fn law_decimal_reads_back(n: nat, max: nat)
    requires
        n <= max,
    ensures
        parse_unsigned(decimal(n), max) == Some(n),
{
    lemma_decimal_digits(n);
    let d = decimal(n);
    assert(is_digit(d[0]));
}

// ---------------------------------------------------------------------
// The pids asked about
// ---------------------------------------------------------------------
proof fn lemma_insert_unique_props(s: Seq<u32>, x: u32)
    requires
        forall|i: int, j: int| 0 <= i < j < s.len() ==> s[i] < s[j],
    ensures
        forall|i: int, j: int|
            0 <= i < j < insert_unique(s, x).len() ==> insert_unique(s, x)[i] < insert_unique(
                s,
                x,
            )[j],
        forall|y: u32| insert_unique(s, x).contains(y) <==> (s.contains(y) || y == x),
    decreases s.len(),
{
    if s.len() > 0 && x > s[0] {
        let t = s.drop_first();
        lemma_insert_unique_props(t, x);
        let r = insert_unique(s, x);
        let rt = insert_unique(t, x);
        assert(r =~= seq![s[0]] + rt);
        assert forall|y: u32| rt.contains(y) implies y > s[0] by {
            let k = choose|k: int| 0 <= k < rt.len() && rt[k] == y;
            if y != x {
                assert(t.contains(y));
                let m = choose|m: int| 0 <= m < t.len() && t[m] == y;
                assert(s[m + 1] == y);
            }
        }
        assert forall|i: int, j: int| 0 <= i < j < r.len() implies r[i] < r[j] by {
            if i == 0 {
                assert(rt.contains(r[j]));
            } else {
                assert(r[i] == rt[i - 1] && r[j] == rt[j - 1]);
            }
        }
        assert forall|y: u32| r.contains(y) <==> (s.contains(y) || y == x) by {
            if s.contains(y) && y != s[0] {
                let m = choose|m: int| 0 <= m < s.len() && s[m] == y;
                assert(t[m - 1] == y);
            }
            if t.contains(y) {
                let m = choose|m: int| 0 <= m < t.len() && t[m] == y;
                assert(s[m + 1] == y);
            }
            if r.contains(y) && y != s[0] {
                let m = choose|m: int| 0 <= m < r.len() && r[m] == y;
                assert(rt[m - 1] == y);
            }
            if y == s[0] {
                assert(r[0] == y);
            }
            if rt.contains(y) {
                let m = choose|m: int| 0 <= m < rt.len() && rt[m] == y;
                assert(r[m + 1] == y);
            }
        }
    } else if s.len() > 0 && x < s[0] {
        let r = insert_unique(s, x);
        assert(r =~= seq![x] + s);
        assert forall|y: u32| r.contains(y) <==> (s.contains(y) || y == x) by {
            if s.contains(y) {
                let m = choose|m: int| 0 <= m < s.len() && s[m] == y;
                assert(r[m + 1] == y);
                assert(r.contains(y));
            }
            if y == x {
                assert(r[0] == y);
                assert(r.contains(y));
            }
            if r.contains(y) && y != x {
                let m = choose|m: int| 0 <= m < r.len() && r[m] == y;
                assert(m > 0);
                assert(s[m - 1] == y);
                assert(s.contains(y));
            }
        }
        assert forall|i: int, j: int| 0 <= i < j < r.len() implies r[i] < r[j] by {
            if i == 0 {
                assert(s[0] <= s[j - 1]);
            } else {
                assert(r[i] == s[i - 1] && r[j] == s[j - 1]);
            }
        }
    } else if s.len() == 0 {
        assert(insert_unique(s, x) =~= seq![x]);
        assert(insert_unique(s, x).contains(x) ==> insert_unique(s, x)[0] == x);
    } else {
        assert(s.contains(x) ==> s[0] == x);
        assert(s[0] == x);
    }
}

/// The pids that the second and third commands ask about are the pids of
/// the listening ports, each once, in increasing order.
pub proof fn law_distinct_pids(pids: Seq<u32>)
    ensures
        forall|i: int, j: int|
            0 <= i < j < sorted_distinct(pids).len() ==> sorted_distinct(pids)[i]
                < sorted_distinct(pids)[j],
        forall|x: u32| sorted_distinct(pids).contains(x) <==> pids.contains(x),
    decreases pids.len(),
{
    if pids.len() > 0 {
        let t = pids.drop_last();
        law_distinct_pids(t);
        lemma_insert_unique_props(sorted_distinct(t), pids.last());
        assert forall|x: u32| sorted_distinct(pids).contains(x) <==> pids.contains(x) by {
            if t.contains(x) {
                let m = choose|m: int| 0 <= m < t.len() && t[m] == x;
                assert(pids[m] == x);
            }
            if pids.contains(x) && x != pids.last() {
                let m = choose|m: int| 0 <= m < pids.len() && pids[m] == x;
                assert(t[m] == x);
            }
            if x == pids.last() {
                assert(pids[pids.len() - 1] == x);
            }
        }
    }
}

// ---------------------------------------------------------------------
// Tables that the scan fixes
// ---------------------------------------------------------------------
/// Whether each path of a list of pids with paths is plainly nested.
pub open spec fn paths_plain(paths: Seq<(u32, Seq<char>)>) -> bool {
    forall|k: int| 0 <= k < paths.len() ==> plainly_nested(#[trigger] paths[k].1)
}

/// Whether the executable of each listing, where one is known, is plainly
/// nested.
pub open spec fn executables_plain(ls: Seq<PortListing>) -> bool {
    forall|i: int|
        0 <= i < ls.len() ==> ((#[trigger] ls[i]).executable matches Some(e) ==> plainly_nested(e))
}

proof fn lemma_last_path_plain(paths: Seq<(u32, Seq<char>)>, pid: u32)
    requires
        paths_plain(paths),
    ensures
        last_path(paths, pid) matches Some(e) ==> plainly_nested(e),
    decreases paths.len(),
{
    if paths.len() > 0 {
        assert(plainly_nested(paths[paths.len() - 1].1));
        let t = paths.drop_last();
        assert forall|k: int| 0 <= k < t.len() implies plainly_nested(#[trigger] t[k].1) by {
            assert(t[k] == paths[k]);
        }
        lemma_last_path_plain(t, pid);
    }
}

/// The rows that fit listings whose executables are all plainly nested
/// are fixed by the listings: two such tables are the same.
pub proof fn law_rows_fixed(r1: Seq<PortRow>, r2: Seq<PortRow>, ls: Seq<PortListing>)
    requires
        rows_fit(r1, ls),
        rows_fit(r2, ls),
        executables_plain(ls),
    ensures
        r1 == r2,
{
    assert forall|i: int| 0 <= i < r1.len() implies r1[i] == r2[i] by {
        assert(row_fits(r1[i], ls[i]));
        assert(row_fits(r2[i], ls[i]));
        assert(r1[i].directory =~= r2[i].directory);
    }
    assert(r1 =~= r2);
}

/// The paths that `wmic` gives in a Windows scan's outputs (none where
/// there is no third output or it failed).
pub open spec fn wmic_paths_of(outputs: Seq<Option<Seq<u8>>>) -> Seq<(u32, Seq<char>)> {
    if outputs.len() >= 3 {
        match outputs[2] {
            Some(w) => wmic_table(crate::text::lines_of(crate::decode::decoded_text(w))),
            None => seq![],
        }
    } else {
        seq![]
    }
}

/// Whether two scan actions are the same: the same command, or the same
/// table.
pub open spec fn same_action(a1: ScanAction, a2: ScanAction) -> bool {
    match (a1, a2) {
        (ScanAction::Run(c1), ScanAction::Run(c2)) => c1@ == c2@,
        (ScanAction::Finish(v1), ScanAction::Finish(v2)) => rows_of(v1@) == rows_of(v2@),
        _ => false,
    }
}

/// Where each path that `wmic` gives is plainly nested, a Windows scan's
/// plan fixes what it does.
proof fn lemma_windows_plan_fixes(o: Seq<Option<Seq<u8>>>, a1: ScanAction, a2: ScanAction)
    requires
        paths_plain(wmic_paths_of(o)),
        action_follows(a1, scan_plan(Platform::Windows, o)),
        action_follows(a2, scan_plan(Platform::Windows, o)),
    ensures
        same_action(a1, a2),
{
    match (a1, a2) {
        (ScanAction::Finish(v1), ScanAction::Finish(v2)) => {
            let plan = scan_plan(Platform::Windows, o);
            let ls = plan->Finish_0;
            if o.len() >= 3 && o[0] is Some {
                let b = o[0]->Some_0;
                let entries = netstat_table(crate::text::lines_of(crate::decode::decoded_text(b)));
                if entries.len() > 0 {
                    let names = match o[1] {
                        Some(t) => tasklist_table(crate::text::lines_of(crate::decode::decoded_text(t))),
                        None => Map::empty(),
                    };
                    let paths = wmic_paths_of(o);
                    let u = windows_listings(entries, names, paths);
                    assert(ls == sort_by_port(u));
                    crate::ports::lemma_sort_by_port_elements(u);
                    assert forall|i: int| 0 <= i < ls.len() implies ((#[trigger] ls[i]).executable matches Some(
                        e,
                    ) ==> plainly_nested(e)) by {
                        assert(ls.contains(ls[i]));
                        assert(u.contains(ls[i]));
                        let j = choose|j: int| 0 <= j < u.len() && u[j] == ls[i];
                        assert(u.len() == entries.len());
                        assert(u[j].executable == last_path(paths, entries[j].1));
                        lemma_last_path_plain(paths, entries[j].1);
                    }
                }
            }
            law_rows_fixed(rows_of(v1@), rows_of(v2@), ls);
        },
        _ => {},
    }
}

/// On Windows, lines of `netstat`'s output that do not count change
/// nothing in what a scan does, where the later outputs are the same and
/// each path that `wmic` gives is plainly nested: the same command, or the
/// same table.
pub proof fn law_scan_table_counting_lines_only(
    o1: Seq<Option<Seq<u8>>>,
    o2: Seq<Option<Seq<u8>>>,
    a1: ScanAction,
    a2: ScanAction,
)
    requires
        o1.len() == o2.len(),
        o1.len() > 0,
        o1[0] is Some,
        o2[0] is Some,
        forall|k: int| 1 <= k < o1.len() ==> o1[k] == o2[k],
        netstat_lines_of(o1[0]->Some_0).filter(netstat_counts()) == netstat_lines_of(
            o2[0]->Some_0,
        ).filter(netstat_counts()),
        paths_plain(wmic_paths_of(o1)),
        action_follows(a1, scan_plan(Platform::Windows, o1)),
        action_follows(a2, scan_plan(Platform::Windows, o2)),
    ensures
        same_action(a1, a2),
{
    law_scan_counting_lines_only(o1, o2);
    lemma_windows_plan_fixes(o1, a1, a2);
}

/// On Windows, a scan does the same whatever the order of `netstat`'s
/// lines (or their repetition), where the lines that count give one entry
/// per port, the later outputs are the same and each path that `wmic`
/// gives is plainly nested: the same command, or the same table.
pub proof fn law_scan_table_order_free(
    o1: Seq<Option<Seq<u8>>>,
    o2: Seq<Option<Seq<u8>>>,
    a1: ScanAction,
    a2: ScanAction,
)
    requires
        o1.len() == o2.len(),
        o1.len() > 0,
        o1[0] is Some,
        o2[0] is Some,
        forall|k: int| 1 <= k < o1.len() ==> o1[k] == o2[k],
        one_entry_per_port(netstat_lines_of(o1[0]->Some_0)),
        forall|x: Seq<char>|
            netstat_lines_of(o1[0]->Some_0).contains(x) <==> netstat_lines_of(o2[0]->Some_0).contains(x),
        paths_plain(wmic_paths_of(o1)),
        action_follows(a1, scan_plan(Platform::Windows, o1)),
        action_follows(a2, scan_plan(Platform::Windows, o2)),
    ensures
        same_action(a1, a2),
{
    law_scan_order_free(o1, o2);
    lemma_windows_plan_fixes(o1, a1, a2);
}

// ---------------------------------------------------------------------
// What the readers take from a line
// ---------------------------------------------------------------------
/// The state of a listening socket in `netstat`'s output.
pub open spec fn listening_state() -> Seq<char> {
    seq!['L', 'I', 'S', 'T', 'E', 'N', 'I', 'N', 'G']
}

/// Digits hold no `:`.
proof fn lemma_decimal_has_no_colon(n: nat)
    ensures
        forall|i: int| 0 <= i < decimal(n).len() ==> decimal(n)[i] != ':',
{
    lemma_decimal_digits(n);
    assert forall|i: int| 0 <= i < decimal(n).len() implies decimal(n)[i] != ':' by {
        assert(is_digit(decimal(n)[i]));
    }
}

/// The part after the last `:` of `a`, `:` and a text without `:` is
/// that text.
proof fn lemma_after_last_colon(a: Seq<char>, d: Seq<char>)
    requires
        forall|i: int| 0 <= i < d.len() ==> d[i] != ':',
    ensures
        after_last_index(a + seq![':'] + d, ':') == a.len() + 1,
        after_last(a + seq![':'] + d, ':') == d,
    decreases d.len(),
{
    let s = a + seq![':'] + d;
    if d.len() > 0 {
        let t = d.drop_last();
        assert(s.drop_last() =~= a + seq![':'] + t);
        assert(s.last() == d.last());
        lemma_after_last_colon(a, t);
    }
    assert(s.skip(a.len() + 1 as int) =~= d);
}

/// A `netstat` line gives an entry only where it has at least five
/// columns and the fourth is `LISTENING`, in any case: a line in another
/// state (`TIME_WAIT`, `ESTABLISHED`, `CLOSE_WAIT`, ...) gives none.
pub proof fn law_netstat_listening_only(line: Seq<char>)
    ensures
        netstat_line(line) is Some ==> words_of(line).len() >= 5 && same_ignoring_ascii_case(
            words_of(line)[3],
            listening_state(),
        ),
{
}

/// Every entry of `netstat`'s table comes from a line whose fourth column
/// is `LISTENING`, in any case.
pub proof fn law_netstat_table_listening_only(lines: Seq<Seq<char>>)
    ensures
        forall|i: int|
            0 <= i < netstat_table(lines).len() ==> exists|j: int|
                0 <= j < lines.len() && words_of(#[trigger] lines[j]).len() >= 5
                    && same_ignoring_ascii_case(words_of(lines[j])[3], listening_state())
                    && netstat_line(lines[j]) == Some(#[trigger] netstat_table(lines)[i]),
{
    law_netstat_complete(lines);
    assert forall|i: int| 0 <= i < netstat_table(lines).len() implies exists|j: int|
        0 <= j < lines.len() && words_of(#[trigger] lines[j]).len() >= 5 && same_ignoring_ascii_case(
            words_of(lines[j])[3],
            listening_state(),
        ) && netstat_line(lines[j]) == Some(#[trigger] netstat_table(lines)[i]) by {
        let j = choose|j: int|
            0 <= j < lines.len() && netstat_line(#[trigger] lines[j]) == Some(netstat_table(lines)[i]);
        law_netstat_listening_only(lines[j]);
        assert(words_of(lines[j]).len() >= 5);
        assert(same_ignoring_ascii_case(words_of(lines[j])[3], listening_state()));
    }
}

/// A `LISTENING` line gives the port after the last `:` of its second
/// column and the pid of its fifth: a local address `a:port` (such as
/// `[::]:135`) and pid `pid` give the entry `(port, pid)`.
pub proof fn law_netstat_reads_listening_line(line: Seq<char>, a: Seq<char>, port: nat, pid: nat)
    requires
        words_of(line).len() >= 5,
        same_ignoring_ascii_case(words_of(line)[3], listening_state()),
        words_of(line)[1] == a + seq![':'] + decimal(port),
        words_of(line)[4] == decimal(pid),
        port <= u16::MAX,
        pid <= u32::MAX,
    ensures
        netstat_line(line) == Some((port as u16, pid as u32)),
{
    lemma_decimal_has_no_colon(port);
    lemma_after_last_colon(a, decimal(port));
    law_decimal_reads_back(port, u16::MAX as nat);
    law_decimal_reads_back(pid, u32::MAX as nat);
}

/// A line of at least nine columns in `lsof`'s listing gives the port
/// after the last `:` of its ninth column, the pid of its second and the
/// command of its first: `[::1]:3000` gives port 3000.
pub proof fn law_lsof_reads_line(line: Seq<char>, a: Seq<char>, port: nat, pid: nat)
    requires
        words_of(line).len() >= 9,
        words_of(line)[8] == a + seq![':'] + decimal(port),
        words_of(line)[1] == decimal(pid),
        port <= u16::MAX,
        pid <= u32::MAX,
    ensures
        lsof_line(line) == Some((port as u16, pid as u32, words_of(line)[0])),
{
    lemma_decimal_has_no_colon(port);
    lemma_after_last_colon(a, decimal(port));
    law_decimal_reads_back(port, u16::MAX as nat);
    law_decimal_reads_back(pid, u32::MAX as nat);
}

/// The first field of a `tasklist` line without its quotes.
pub open spec fn tasklist_first_field(line: Seq<char>) -> Seq<char> {
    let t = trimmed_char(trimmed(line), '"');
    trimmed_char(t.take(find_pattern(t, csv_separator())), '"')
}

/// Taking copies of `p` off the end of `s` leaves a prefix of `s`.
proof fn lemma_trim_end_pattern_prefix(s: Seq<char>, p: Seq<char>)
    ensures
        trim_end_pattern(s, p).len() <= s.len(),
        trim_end_pattern(s, p) == s.take(trim_end_pattern(s, p).len() as int),
    decreases s.len(),
{
    if p.len() > 0 && ends_with(s, p) {
        let t = s.take(s.len() - p.len());
        lemma_trim_end_pattern_prefix(t, p);
        let r = trim_end_pattern(t, p);
        assert(r =~= s.take(r.len() as int));
    } else {
        assert(s.take(s.len() as int) =~= s);
    }
}

/// Taking one `p` off the end of `n + p`, where `n` does not end in `p`.
proof fn lemma_trim_end_pattern_once(n: Seq<char>, p: Seq<char>)
    requires
        p.len() > 0,
        !ends_with(n, p),
    ensures
        trim_end_pattern(n + p, p) == n,
{
    let s = n + p;
    assert(s.skip(s.len() - p.len()) =~= p);
    assert(s.take(s.len() - p.len()) =~= n);
    assert(trim_end_pattern(n, p) == n);
    assert(trim_end_pattern(s, p) == trim_end_pattern(s.take(s.len() - p.len()), p));
}

/// The name that a `tasklist` line gives is its first field without
/// quotes and with only a trailing `.exe` (or `.EXE`) taken off: it is a
/// prefix of the field; a field that ends in neither is the name as it
/// is, dots and all (`com.docker.backend` stays whole); and a field
/// `n.exe` or `n.EXE` gives `n`, where `n` ends in neither.
pub proof fn law_tasklist_name(line: Seq<char>)
    ensures
        tasklist_line(line) matches Some((pid, name)) ==> {
            let f = tasklist_first_field(line);
            &&& name.len() <= f.len()
            &&& name == f.take(name.len() as int)
            &&& (!ends_with(f, seq!['.', 'e', 'x', 'e']) && !ends_with(f, seq!['.', 'E', 'X', 'E'])
                ==> name == f)
            &&& forall|n: Seq<char>|
                !ends_with(n, seq!['.', 'e', 'x', 'e']) && !ends_with(n, seq!['.', 'E', 'X', 'E']) && (f
                    == n + seq!['.', 'e', 'x', 'e'] || f == n + seq!['.', 'E', 'X', 'E']) ==> name == n
        },
{
    if tasklist_line(line) is Some {
        let f = tasklist_first_field(line);
        let lower = seq!['.', 'e', 'x', 'e'];
        let upper = seq!['.', 'E', 'X', 'E'];
        assert(lower == crate::windows::exe_lower());
        assert(upper == crate::windows::exe_upper());
        let m = trim_end_pattern(f, lower);
        lemma_trim_end_pattern_prefix(f, lower);
        lemma_trim_end_pattern_prefix(m, upper);
        let name = trim_end_pattern(m, upper);
        assert(name =~= f.take(name.len() as int));
        assert forall|n: Seq<char>|
            !ends_with(n, lower) && !ends_with(n, upper) && (f == n + lower || f == n + upper)
                implies name == n by {
            if f == n + lower {
                lemma_trim_end_pattern_once(n, lower);
            } else {
                let s = n + upper;
                if ends_with(s, lower) {
                    assert(s.skip(s.len() - 4)[1] == lower[1]);
                }
                lemma_trim_end_pattern_once(n, upper);
            }
        }
    }
}

/// Whether no line of `lines` starts with `p` or `n`.
pub open spec fn no_pid_or_name_lines(lines: Seq<Seq<char>>) -> bool {
    forall|k: int|
        0 <= k < lines.len() ==> !((#[trigger] lines[k]).len() > 0 && (lines[k][0] == 'p'
            || lines[k][0] == 'n'))
}

/// A line of `lsof -F` output that starts with neither `p` nor `n` (the
/// `f` line before each path, say) changes nothing: the pid set last
/// stays, and no path is added.
pub proof fn law_lsof_other_line_ignored(lines: Seq<Seq<char>>, l: Seq<char>)
    requires
        !(l.len() > 0 && (l[0] == 'p' || l[0] == 'n')),
    ensures
        lsof_path_scan(lines.push(l)) == lsof_path_scan(lines),
{
    assert(lines.push(l).drop_last() =~= lines);
}

proof fn lemma_lsof_other_lines_ignored(lines: Seq<Seq<char>>, others: Seq<Seq<char>>)
    requires
        no_pid_or_name_lines(others),
    ensures
        lsof_path_scan(lines + others) == lsof_path_scan(lines),
    decreases others.len(),
{
    if others.len() > 0 {
        let t = others.drop_last();
        assert(no_pid_or_name_lines(t)) by {
            assert forall|k: int| 0 <= k < t.len() implies !((#[trigger] t[k]).len() > 0 && (t[k][0]
                == 'p' || t[k][0] == 'n')) by {
                assert(t[k] == others[k]);
            }
        }
        lemma_lsof_other_lines_ignored(lines, t);
        assert(lines + others =~= (lines + t).push(others.last()));
        let l = others.last();
        assert(l == others[others.len() - 1]);
        law_lsof_other_line_ignored(lines + t, l);
    } else {
        assert(lines + others =~= lines);
    }
}

/// In `lsof -F` output, a line `p` and a pid other than 0, then lines
/// that start with neither `p` nor `n` (such as `ftxt`), then a line `n`
/// and a path give that path for that pid: `p7001`, `ftxt`,
/// `n/usr/local/bin/node` add `(7001, "/usr/local/bin/node")`.
pub proof fn law_lsof_path_for_pid(
    lines: Seq<Seq<char>>,
    pid: nat,
    others: Seq<Seq<char>>,
    path: Seq<char>,
)
    requires
        0 < pid <= u32::MAX,
        no_pid_or_name_lines(others),
        path.len() > 0,
    ensures
        lsof_path_scan((lines.push(seq!['p'] + decimal(pid)) + others).push(seq!['n'] + path)).1
            == lsof_path_scan(lines).1.push((pid as u32, path)),
{
    let pl = seq!['p'] + decimal(pid);
    let nl = seq!['n'] + path;
    assert(lines.push(pl).drop_last() =~= lines);
    assert(pl.drop_first() =~= decimal(pid));
    law_decimal_reads_back(pid, u32::MAX as nat);
    lemma_lsof_other_lines_ignored(lines.push(pl), others);
    let all = (lines.push(pl) + others).push(nl);
    assert(all.drop_last() =~= lines.push(pl) + others);
    assert(nl.drop_first() =~= path);
}

/// A row's directory for an executable whose path, after its last `/`,
/// holds a `\` (such as `D:/tools/bin\app.exe`) is never empty: it starts
/// with all before that `/`, whichever system splits the rest.
pub proof fn law_directory_keeps_slash_part(dir: Seq<char>, exe: Seq<char>)
    requires
        directory_fits(dir, Some(exe)),
        slash_nested(exe),
    ensures
        dir.len() > 0,
        dir.take(directory_part(exe).len() as int) == directory_part(exe),
{
    crate::text::lemma_after_last_index(exe, '/');
    assert(dir.take(directory_part(exe).len() as int) =~= directory_part(exe));
}

} // verus!
