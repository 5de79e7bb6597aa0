//! The port table: its rows, their order, and the pids they name.
use vstd::prelude::*;
use crate::number::decimal;
use crate::number::push_decimal;
use crate::text::after_last_index;

verus! {

/// One listening TCP port: the port, the process that listens on it,
/// that process's name and the directory of its executable.
#[derive(Debug, Clone, PartialEq, Eq)]
pub struct PortInfo {
    pub port: u16,
    pub pid: u32,
    pub process_name: String,
    pub directory: String,
}

/// The mathematical value of a `PortInfo`.
pub struct PortRow {
    pub port: u16,
    pub pid: u32,
    pub process_name: Seq<char>,
    pub directory: Seq<char>,
}

impl View for PortInfo {
    type V = PortRow;

    open spec fn view(&self) -> PortRow {
        PortRow {
            port: self.port,
            pid: self.pid,
            process_name: self.process_name@,
            directory: self.directory@,
        }
    }
}

/// The views of a vector of rows.
pub open spec fn rows_of(v: Seq<PortInfo>) -> Seq<PortRow> {
    v.map_values(|p: PortInfo| p@)
}

/// What the listings say of one port before the directory of its
/// executable is known: the executable's path, where one was found.
pub struct PortListing {
    pub port: u16,
    pub pid: u32,
    pub process_name: Seq<char>,
    pub executable: Option<Seq<char>>,
}

/// Index just after the last `/` of `path`, or 0 where there is none.
pub open spec fn last_slash_end(path: Seq<char>) -> int {
    after_last_index(path, '/')
}

/// Whether `path` starts with a drive, a letter and `:`, followed by `/`.
pub open spec fn drive_rooted(path: Seq<char>) -> bool {
    &&& path.len() >= 3
    &&& ('a' <= path[0] <= 'z' || 'A' <= path[0] <= 'Z')
    &&& path[1] == ':'
    &&& path[2] == '/'
}

/// Whether every system splits `path` the same way into a directory and a
/// last component: the path holds no `\` and no `:` but in a leading drive
/// such as `C:/`, does not start with `//`, and is a non-empty directory
/// that ends neither in `/` nor in `.` and names more than the drive, one
/// `/`, and a non-empty last component that does not end in `.`.
pub open spec fn plainly_nested(path: Seq<char>) -> bool {
    let i = last_slash_end(path);
    &&& forall|j: int|
        0 <= j < path.len() ==> #[trigger] path[j] != '\\' && (path[j] == ':' ==> j == 1
            && drive_rooted(path))
    &&& !(path.len() >= 2 && path[0] == '/' && path[1] == '/')
    &&& i >= 2
    &&& drive_rooted(path) ==> i > 3
    &&& i < path.len()
    &&& path[i - 2] != '/'
    &&& path[i - 2] != '.'
    &&& path.last() != '.'
}

/// Whether every system reads all of `path` before its last `/` as the
/// same directory, with a last part after it that is not empty and ends
/// in neither `.` nor `\`: the directory is as in a plainly nested path,
/// while the last part may hold `\`, which some systems take for a
/// separator and others for a character.
pub open spec fn slash_nested(path: Seq<char>) -> bool {
    let i = last_slash_end(path);
    &&& forall|j: int|
        0 <= j < i ==> #[trigger] path[j] != '\\' && (path[j] == ':' ==> j == 1 && drive_rooted(
            path,
        ))
    &&& !(path.len() >= 2 && path[0] == '/' && path[1] == '/')
    &&& i >= 2
    &&& drive_rooted(path) ==> i > 3
    &&& i < path.len()
    &&& path[i - 2] != '/'
    &&& path[i - 2] != '.'
    &&& path.last() != '.'
    &&& path.last() != '\\'
}

/// The directory part of a plainly nested path: all before its last `/`.
pub open spec fn directory_part(path: Seq<char>) -> Seq<char> {
    path.take(last_slash_end(path) - 1)
}

/// Whether `dir` can be the directory of `exe`: empty where no executable
/// is known; otherwise a proper prefix of its path (or empty), for a
/// plainly nested path exactly all before its last `/`, and for a path
/// whose last part holds `\` at least all before its last `/`. Which
/// prefix a path of another form gets depends on how the system running
/// the scan splits paths, and is not fixed here.
pub open spec fn directory_fits(dir: Seq<char>, exe: Option<Seq<char>>) -> bool {
    match exe {
        None => dir.len() == 0,
        Some(e) => {
            &&& dir.len() < e.len()
            &&& dir == e.take(dir.len() as int)
            &&& plainly_nested(e) ==> dir == directory_part(e)
            &&& slash_nested(e) ==> dir.len() >= directory_part(e).len()
        },
    }
}

/// Whether a row is what a listing says, the directory aside.
pub open spec fn row_fits(r: PortRow, l: PortListing) -> bool {
    &&& r.port == l.port
    &&& r.pid == l.pid
    &&& r.process_name == l.process_name
    &&& directory_fits(r.directory, l.executable)
}

/// Whether the rows are, one for one, what the listings say.
pub open spec fn rows_fit(rows: Seq<PortRow>, ls: Seq<PortListing>) -> bool {
    &&& rows.len() == ls.len()
    &&& forall|i: int| 0 <= i < rows.len() ==> row_fits(#[trigger] rows[i], ls[i])
}

/// The views of a table of strings by pid.
pub open spec fn table_view(m: Map<u32, String>) -> Map<u32, Seq<char>> {
    m.map_values(|s: String| s@)
}

/// The views of a list of pids with paths.
pub open spec fn entries_view(v: Seq<(u32, Vec<char>)>) -> Seq<(u32, Seq<char>)> {
    v.map_values(|e: (u32, Vec<char>)| (e.0, e.1@))
}

// ---------------------------------------------------------------------
// Order by port (`sort_by_key(|p| p.port)`, a stable sort)
// ---------------------------------------------------------------------
/// Values that are ordered by a port number.
pub trait ByPort {
    spec fn port_key(&self) -> u16;
}

impl ByPort for PortRow {
    open spec fn port_key(&self) -> u16 {
        self.port
    }
}

impl ByPort for PortListing {
    open spec fn port_key(&self) -> u16 {
        self.port
    }
}

/// `s` with `x` put after every element whose port is not larger.
pub open spec fn insert_by_port<A: ByPort>(s: Seq<A>, x: A) -> Seq<A>
    decreases s.len(),
{
    if s.len() == 0 {
        seq![x]
    } else if x.port_key() < s[0].port_key() {
        seq![x] + s
    } else {
        seq![s[0]] + insert_by_port(s.drop_first(), x)
    }
}

/// `s` in increasing order of port, equal ports in their order in `s`.
pub open spec fn sort_by_port<A: ByPort>(s: Seq<A>) -> Seq<A>
    decreases s.len(),
{
    if s.len() == 0 {
        seq![]
    } else {
        insert_by_port(sort_by_port(s.drop_last()), s.last())
    }
}

/// Index of the first element of `s` whose port is larger than `k`.
pub open spec fn first_above<A: ByPort>(s: Seq<A>, k: u16) -> int
    decreases s.len(),
{
    if s.len() == 0 {
        0
    } else if k < s[0].port_key() {
        0
    } else {
        1 + first_above(s.drop_first(), k)
    }
}

pub proof fn lemma_insert_by_port<A: ByPort>(s: Seq<A>, x: A)
    ensures
        0 <= first_above(s, x.port_key()) <= s.len(),
        insert_by_port(s, x) == s.take(first_above(s, x.port_key())).push(x) + s.skip(
            first_above(s, x.port_key()),
        ),
    decreases s.len(),
{
    let p = first_above(s, x.port_key());
    if s.len() == 0 {
        assert(s.take(0).push(x) + s.skip(0) =~= seq![x]);
    } else if x.port_key() < s[0].port_key() {
        assert(s.take(0).push(x) + s.skip(0) =~= seq![x] + s);
    } else {
        lemma_insert_by_port(s.drop_first(), x);
        let t = s.drop_first();
        let q = first_above(t, x.port_key());
        assert(insert_by_port(s, x) =~= s.take(p).push(x) + s.skip(p)) by {
            assert(s.take(p) =~= seq![s[0]] + t.take(q));
            assert(s.skip(p) =~= t.skip(q));
        }
    }
}

/// Two lists that agree one for one, port included, still agree once
/// both are put in order.
pub proof fn lemma_insert_pointwise<A: ByPort, B: ByPort>(
    s: Seq<A>,
    t: Seq<B>,
    x: A,
    y: B,
    rel: spec_fn(A, B) -> bool,
)
    requires
        s.len() == t.len(),
        forall|i: int|
            0 <= i < s.len() ==> #[trigger] rel(s[i], t[i]) && s[i].port_key() == t[i].port_key(),
        rel(x, y),
        x.port_key() == y.port_key(),
    ensures
        insert_by_port(s, x).len() == insert_by_port(t, y).len() == s.len() + 1,
        forall|i: int|
            0 <= i < s.len() + 1 ==> #[trigger] rel(insert_by_port(s, x)[i], insert_by_port(t, y)[i])
                && insert_by_port(s, x)[i].port_key() == insert_by_port(t, y)[i].port_key(),
    decreases s.len(),
{
    if s.len() > 0 {
        assert(rel(s[0], t[0]));
        if x.port_key() >= s[0].port_key() {
            assert forall|i: int| 0 <= i < s.len() - 1 implies #[trigger] rel(
                s.drop_first()[i],
                t.drop_first()[i],
            ) && s.drop_first()[i].port_key() == t.drop_first()[i].port_key() by {
                assert(rel(s[i + 1], t[i + 1]));
            }
            lemma_insert_pointwise(s.drop_first(), t.drop_first(), x, y, rel);
            let a = insert_by_port(s, x);
            let b = insert_by_port(t, y);
            assert forall|i: int| 0 <= i < s.len() + 1 implies #[trigger] rel(a[i], b[i])
                && a[i].port_key() == b[i].port_key() by {
                if i > 0 {
                    assert(a[i] == insert_by_port(s.drop_first(), x)[i - 1]);
                    assert(b[i] == insert_by_port(t.drop_first(), y)[i - 1]);
                    assert(rel(
                        insert_by_port(s.drop_first(), x)[i - 1],
                        insert_by_port(t.drop_first(), y)[i - 1],
                    ));
                }
            }
        } else {
            let a = insert_by_port(s, x);
            let b = insert_by_port(t, y);
            assert forall|i: int| 0 <= i < s.len() + 1 implies #[trigger] rel(a[i], b[i])
                && a[i].port_key() == b[i].port_key() by {
                if i > 0 {
                    assert(a[i] == s[i - 1]);
                    assert(b[i] == t[i - 1]);
                    assert(rel(s[i - 1], t[i - 1]));
                }
            }
        }
    } else {
        let a = insert_by_port(s, x);
        let b = insert_by_port(t, y);
        assert(a[0] == x && b[0] == y);
    }
}

/// Sorting by port keeps a one-for-one agreement that includes the port.
pub proof fn lemma_sort_pointwise<A: ByPort, B: ByPort>(
    s: Seq<A>,
    t: Seq<B>,
    rel: spec_fn(A, B) -> bool,
)
    requires
        s.len() == t.len(),
        forall|i: int|
            0 <= i < s.len() ==> #[trigger] rel(s[i], t[i]) && s[i].port_key() == t[i].port_key(),
    ensures
        sort_by_port(s).len() == sort_by_port(t).len() == s.len(),
        forall|i: int|
            0 <= i < s.len() ==> #[trigger] rel(sort_by_port(s)[i], sort_by_port(t)[i])
                && sort_by_port(s)[i].port_key() == sort_by_port(t)[i].port_key(),
    decreases s.len(),
{
    if s.len() > 0 {
        assert forall|i: int| 0 <= i < s.len() - 1 implies #[trigger] rel(
            s.drop_last()[i],
            t.drop_last()[i],
        ) && s.drop_last()[i].port_key() == t.drop_last()[i].port_key() by {
            assert(rel(s[i], t[i]));
        }
        lemma_sort_pointwise(s.drop_last(), t.drop_last(), rel);
        assert(rel(s[s.len() - 1], t[t.len() - 1]));
        lemma_insert_pointwise(
            sort_by_port(s.drop_last()),
            sort_by_port(t.drop_last()),
            s.last(),
            t.last(),
            rel,
        );
    }
}

/// Whether the ports never decrease along `s`.
pub open spec fn ports_nondecreasing<A: ByPort>(s: Seq<A>) -> bool {
    forall|i: int, j: int| 0 <= i <= j < s.len() ==> s[i].port_key() <= s[j].port_key()
}

/// Whether no two elements of `s` have the same port.
pub open spec fn ports_distinct<A: ByPort>(s: Seq<A>) -> bool {
    forall|i: int, j: int| 0 <= i < j < s.len() ==> s[i].port_key() != s[j].port_key()
}

/// Whether some element of `s` has port `k`.
pub open spec fn has_port_key<A: ByPort>(s: Seq<A>, k: u16) -> bool {
    exists|i: int| 0 <= i < s.len() && (#[trigger] s[i]).port_key() == k
}

pub proof fn lemma_first_above<A: ByPort>(s: Seq<A>, k: u16)
    ensures
        0 <= first_above(s, k) <= s.len(),
        forall|i: int| 0 <= i < first_above(s, k) ==> s[i].port_key() <= k,
        first_above(s, k) < s.len() ==> k < s[first_above(s, k)].port_key(),
    decreases s.len(),
{
    if s.len() > 0 && k >= s[0].port_key() {
        lemma_first_above(s.drop_first(), k);
        assert forall|i: int| 0 <= i < first_above(s, k) implies s[i].port_key() <= k by {
            if i > 0 {
                assert(s[i] == s.drop_first()[i - 1]);
            }
        }
    }
}

/// Inserting keeps the order, adds the port of `x`, and keeps the ports
/// distinct where that port was not there.
pub proof fn lemma_insert_by_port_order<A: ByPort>(s: Seq<A>, x: A)
    requires
        ports_nondecreasing(s),
    ensures
        insert_by_port(s, x).len() == s.len() + 1,
        ports_nondecreasing(insert_by_port(s, x)),
        forall|k: u16|
            has_port_key(insert_by_port(s, x), k) <==> (has_port_key(s, k) || x.port_key() == k),
        ports_distinct(s) && !has_port_key(s, x.port_key()) ==> ports_distinct(
            insert_by_port(s, x),
        ),
{
    let p = first_above(s, x.port_key());
    lemma_insert_by_port(s, x);
    lemma_first_above(s, x.port_key());
    let r = insert_by_port(s, x);
    assert(r.len() == s.len() + 1);
    assert forall|i: int| 0 <= i < r.len() implies #[trigger] r[i] == (if i < p {
        s[i]
    } else if i == p {
        x
    } else {
        s[i - 1]
    }) by {}
    assert forall|i: int, j: int| 0 <= i <= j < r.len() implies r[i].port_key() <= r[j].port_key() by {
        if i < p && j == p {
        } else if i == p && j > p {
            assert(s[p].port_key() <= s[j - 1].port_key());
        } else if i < p && j > p {
            assert(s[i].port_key() <= s[j - 1].port_key());
        } else if i > p {
            assert(s[i - 1].port_key() <= s[j - 1].port_key());
        } else {
        }
    }
    assert forall|k: u16| has_port_key(r, k) <==> (has_port_key(s, k) || x.port_key() == k) by {
        if has_port_key(r, k) {
            let i = choose|i: int| 0 <= i < r.len() && (#[trigger] r[i]).port_key() == k;
            if i < p {
                assert(s[i].port_key() == k);
            } else if i > p {
                assert(s[i - 1].port_key() == k);
            }
        }
        if has_port_key(s, k) {
            let i = choose|i: int| 0 <= i < s.len() && (#[trigger] s[i]).port_key() == k;
            if i < p {
                assert(r[i].port_key() == k);
            } else {
                assert(r[i + 1].port_key() == k);
            }
        }
        if x.port_key() == k {
            assert(r[p].port_key() == k);
        }
    }
    if ports_distinct(s) && !has_port_key(s, x.port_key()) {
        assert forall|i: int, j: int| 0 <= i < j < r.len() implies r[i].port_key() != r[j].port_key() by {
            if i == p {
                assert(s[j - 1].port_key() != x.port_key());
            } else if j == p {
                assert(s[i].port_key() != x.port_key());
            } else {
                let a = if i < p { i } else { i - 1 };
                let b = if j < p { j } else { j - 1 };
                assert(a < b);
                assert(s[a].port_key() != s[b].port_key());
            }
        }
    }
}

/// Sorting by port orders by port, keeps the ports there are, and keeps
/// them distinct where they were.
pub proof fn lemma_sort_by_port_order<A: ByPort>(s: Seq<A>)
    ensures
        sort_by_port(s).len() == s.len(),
        ports_nondecreasing(sort_by_port(s)),
        forall|k: u16| has_port_key(sort_by_port(s), k) <==> has_port_key(s, k),
        ports_distinct(s) ==> ports_distinct(sort_by_port(s)),
    decreases s.len(),
{
    if s.len() > 0 {
        let t = s.drop_last();
        lemma_sort_by_port_order(t);
        lemma_insert_by_port_order(sort_by_port(t), s.last());
        assert forall|k: u16| has_port_key(sort_by_port(s), k) <==> has_port_key(s, k) by {
            if has_port_key(t, k) {
                let i = choose|i: int| 0 <= i < t.len() && (#[trigger] t[i]).port_key() == k;
                assert(s[i] == t[i]);
            }
            if has_port_key(s, k) {
                let i = choose|i: int| 0 <= i < s.len() && (#[trigger] s[i]).port_key() == k;
                if i < t.len() {
                    assert(t[i] == s[i]);
                }
            }
        }
        if ports_distinct(s) {
            assert forall|i: int, j: int| 0 <= i < j < t.len() implies t[i].port_key()
                != t[j].port_key() by {
                assert(s[i] == t[i] && s[j] == t[j]);
            }
            if has_port_key(t, s.last().port_key()) {
                let i = choose|i: int| 0 <= i < t.len() && (#[trigger] t[i]).port_key() == s.last().port_key();
                assert(s[i] == t[i]);
                assert(false);
            }
        }
    } else {
        assert(sort_by_port(s) =~= Seq::<A>::empty());
    }
}

/// Sorting by port keeps the elements there are, and adds none.
pub proof fn lemma_sort_by_port_elements<A: ByPort>(s: Seq<A>)
    ensures
        forall|x: A| sort_by_port(s).contains(x) <==> s.contains(x),
    decreases s.len(),
{
    if s.len() > 0 {
        let t = s.drop_last();
        let x = s.last();
        lemma_sort_by_port_elements(t);
        let st = sort_by_port(t);
        lemma_insert_by_port(st, x);
        let p = first_above(st, x.port_key());
        let r = sort_by_port(s);
        assert(r == st.take(p).push(x) + st.skip(p));
        assert forall|y: A| r.contains(y) <==> s.contains(y) by {
            if r.contains(y) {
                let i = choose|i: int| 0 <= i < r.len() && r[i] == y;
                if i < p {
                    assert(st[i] == y);
                    assert(st.contains(y));
                } else if i > p {
                    assert(st[i - 1] == y);
                    assert(st.contains(y));
                }
                if st.contains(y) {
                    assert(t.contains(y));
                    let j = choose|j: int| 0 <= j < t.len() && t[j] == y;
                    assert(s[j] == y);
                } else {
                    assert(s[s.len() - 1] == y);
                }
            }
            if s.contains(y) {
                let j = choose|j: int| 0 <= j < s.len() && s[j] == y;
                if j < t.len() {
                    assert(t[j] == y);
                    assert(t.contains(y));
                    assert(st.contains(y));
                    let i = choose|i: int| 0 <= i < st.len() && st[i] == y;
                    if i < p {
                        assert(r[i] == y);
                    } else {
                        assert(r[i + 1] == y);
                    }
                } else {
                    assert(r[p] == y);
                }
            }
        }
    }
}

/// Two lists in strictly increasing order of port that hold the same
/// elements are the same list.
pub proof fn lemma_increasing_unique<A: ByPort>(a: Seq<A>, b: Seq<A>)
    requires
        forall|i: int, j: int| 0 <= i < j < a.len() ==> a[i].port_key() < a[j].port_key(),
        forall|i: int, j: int| 0 <= i < j < b.len() ==> b[i].port_key() < b[j].port_key(),
        forall|x: A| a.contains(x) <==> b.contains(x),
    ensures
        a == b,
    decreases a.len() + b.len(),
{
    if a.len() == 0 {
        if b.len() > 0 {
            assert(b.contains(b[0]));
        }
        assert(a =~= b);
    } else if b.len() == 0 {
        assert(a.contains(a[0]));
    } else {
        assert(a.contains(a[0]));
        assert(b.contains(b[0]));
        let j = choose|j: int| 0 <= j < b.len() && b[j] == a[0];
        let i = choose|i: int| 0 <= i < a.len() && a[i] == b[0];
        if i > 0 {
            assert(a[0].port_key() < a[i].port_key());
            if j > 0 {
                assert(b[0].port_key() < b[j].port_key());
            }
        }
        assert(a[0] == b[0]);
        let ta = a.drop_first();
        let tb = b.drop_first();
        assert forall|x: A| ta.contains(x) <==> tb.contains(x) by {
            if ta.contains(x) {
                let k = choose|k: int| 0 <= k < ta.len() && ta[k] == x;
                assert(a[k + 1] == x);
                assert(a.contains(x));
                let m = choose|m: int| 0 <= m < b.len() && b[m] == x;
                assert(a[0].port_key() < x.port_key());
                assert(m > 0);
                assert(tb[m - 1] == x);
            }
            if tb.contains(x) {
                let k = choose|k: int| 0 <= k < tb.len() && tb[k] == x;
                assert(b[k + 1] == x);
                assert(b.contains(x));
                let m = choose|m: int| 0 <= m < a.len() && a[m] == x;
                assert(b[0].port_key() < x.port_key());
                assert(m > 0);
                assert(ta[m - 1] == x);
            }
        }
        lemma_increasing_unique(ta, tb);
        assert(a =~= seq![a[0]] + ta);
        assert(b =~= seq![b[0]] + tb);
    }
}

/// Two lists with distinct ports and the same elements are the same once
/// sorted by port.
pub proof fn lemma_sort_same_elements<A: ByPort>(a: Seq<A>, b: Seq<A>)
    requires
        ports_distinct(a),
        ports_distinct(b),
        forall|x: A| a.contains(x) <==> b.contains(x),
    ensures
        sort_by_port(a) == sort_by_port(b),
{
    lemma_sort_by_port_order(a);
    lemma_sort_by_port_order(b);
    lemma_sort_by_port_elements(a);
    lemma_sort_by_port_elements(b);
    let sa = sort_by_port(a);
    let sb = sort_by_port(b);
    assert forall|i: int, j: int| 0 <= i < j < sa.len() implies sa[i].port_key() < sa[j].port_key() by {
        assert(sa[i].port_key() <= sa[j].port_key());
    }
    assert forall|i: int, j: int| 0 <= i < j < sb.len() implies sb[i].port_key() < sb[j].port_key() by {
        assert(sb[i].port_key() <= sb[j].port_key());
    }
    assert forall|x: A| sa.contains(x) <==> sb.contains(x) by {
        assert(sa.contains(x) <==> a.contains(x));
        assert(sb.contains(x) <==> b.contains(x));
    }
    lemma_increasing_unique(sa, sb);
}

/// Puts the rows in increasing order of port, rows with equal ports in
/// the order they came in.
pub fn sort_rows_by_port(v: Vec<PortInfo>) -> (res: Vec<PortInfo>)
    ensures
        rows_of(res@) == sort_by_port(rows_of(v@)),
{
    let ghost orig = rows_of(v@);
    let mut rest = v;
    let mut out: Vec<PortInfo> = Vec::new();
    let ghost done: int = 0;
    assert(orig.take(0) =~= Seq::<PortRow>::empty());
    assert(rows_of(out@) =~= Seq::<PortRow>::empty());
    while rest.len() > 0
        invariant
            0 <= done <= orig.len(),
            rows_of(rest@) == orig.skip(done),
            rows_of(out@) == sort_by_port(orig.take(done)),
        decreases rest@.len(),
    {
        let ghost before = rest@;
        assert(rows_of(before).len() == before.len());
        assert(rows_of(before)[0] == before[0]@);
        assert(orig.skip(done)[0] == orig[done]);
        let x = rest.remove(0);
        assert(x@ == orig[done]);
        assert forall|j: int| 0 <= j < rest@.len() implies rows_of(rest@)[j] == orig.skip(
            done + 1,
        )[j] by {
            assert(rest@[j] == before[j + 1]);
            assert(rows_of(before)[j + 1] == orig.skip(done)[j + 1]);
        }
        assert(rows_of(rest@) =~= orig.skip(done + 1));
        let mut p: usize = 0;
        let ghost s = rows_of(out@);
        assert(s.skip(0) =~= s);
        while p < out.len() && out[p].port <= x.port
            invariant
                p <= out@.len(),
                s == rows_of(out@),
                first_above(s, x.port) == p + first_above(s.skip(p as int), x.port),
            decreases out@.len() - p,
        {
            assert(s.skip(p as int).drop_first() =~= s.skip(p + 1));
            assert(s.skip(p as int)[0] == out@[p as int]@);
            p = p + 1;
        }
        proof {
            if p < out@.len() {
                assert(s.skip(p as int)[0] == out@[p as int]@);
            }
            assert(s.skip(p as int).len() == 0 || x.port < s.skip(p as int)[0].port_key());
            lemma_insert_by_port(s, x@);
            assert(orig.take(done + 1).drop_last() =~= orig.take(done));
            assert(orig.take(done + 1).last() == x@);
        }
        out.insert(p, x);
        proof {
            assert(rows_of(out@) =~= s.take(p as int).push(x@) + s.skip(p as int));
            done = done + 1;
        }
    }
    assert(orig.take(done) =~= orig);
    out
}

// ---------------------------------------------------------------------
// The distinct pids, in increasing order (`sort_unstable` then `dedup`)
// ---------------------------------------------------------------------
/// `s`, increasing, with `x` put in its place unless it is there.
pub open spec fn insert_unique(s: Seq<u32>, x: u32) -> Seq<u32>
    decreases s.len(),
{
    if s.len() == 0 {
        seq![x]
    } else if x < s[0] {
        seq![x] + s
    } else if x == s[0] {
        s
    } else {
        seq![s[0]] + insert_unique(s.drop_first(), x)
    }
}

/// The distinct values of `s` in increasing order.
pub open spec fn sorted_distinct(s: Seq<u32>) -> Seq<u32>
    decreases s.len(),
{
    if s.len() == 0 {
        seq![]
    } else {
        insert_unique(sorted_distinct(s.drop_last()), s.last())
    }
}

/// Index of the first element of `s` that is not smaller than `x`.
pub open spec fn first_not_below(s: Seq<u32>, x: u32) -> int
    decreases s.len(),
{
    if s.len() == 0 {
        0
    } else if x <= s[0] {
        0
    } else {
        1 + first_not_below(s.drop_first(), x)
    }
}

pub proof fn lemma_insert_unique(s: Seq<u32>, x: u32)
    ensures
        0 <= first_not_below(s, x) <= s.len(),
        ({
            let p = first_not_below(s, x);
            insert_unique(s, x) == if p < s.len() && s[p] == x {
                s
            } else {
                s.take(p).push(x) + s.skip(p)
            }
        }),
    decreases s.len(),
{
    let p = first_not_below(s, x);
    if s.len() == 0 {
        assert(s.take(0).push(x) + s.skip(0) =~= seq![x]);
    } else if x < s[0] {
        assert(s.take(0).push(x) + s.skip(0) =~= seq![x] + s);
    } else if x == s[0] {
    } else {
        let t = s.drop_first();
        lemma_insert_unique(t, x);
        let q = first_not_below(t, x);
        assert(p == q + 1);
        if q < t.len() && t[q] == x {
            assert(insert_unique(s, x) =~= s);
        } else {
            assert(s.take(p) =~= seq![s[0]] + t.take(q));
            assert(s.skip(p) =~= t.skip(q));
            assert(insert_unique(s, x) =~= s.take(p).push(x) + s.skip(p));
        }
    }
}

/// The distinct pids of `pids` in increasing order.
pub fn distinct_sorted_pids(pids: &Vec<u32>) -> (res: Vec<u32>)
    ensures
        res@ == sorted_distinct(pids@),
{
    let mut out: Vec<u32> = Vec::new();
    let n = pids.len();
    assert(pids@.take(0) =~= Seq::<u32>::empty());
    for i in 0..n
        invariant
            n == pids@.len(),
            out@ == sorted_distinct(pids@.take(i as int)),
    {
        let x = pids[i];
        let mut p: usize = 0;
        let ghost s = out@;
        assert(s.skip(0) =~= s);
        while p < out.len() && out[p] < x
            invariant
                p <= out@.len(),
                s == out@,
                first_not_below(s, x) == p + first_not_below(s.skip(p as int), x),
            decreases out@.len() - p,
        {
            assert(s.skip(p as int).drop_first() =~= s.skip(p + 1));
            p = p + 1;
        }
        proof {
            lemma_insert_unique(s, x);
            assert(pids@.take(i + 1).drop_last() =~= pids@.take(i as int));
            assert(pids@.take(i + 1).last() == x);
        }
        if p < out.len() && out[p] == x {
        } else {
            out.insert(p, x);
            assert(out@ =~= s.take(p as int).push(x) + s.skip(p as int));
        }
    }
    assert(pids@.take(n as int) =~= pids@);
    out
}

// ---------------------------------------------------------------------
// Lists of pids in command arguments
// ---------------------------------------------------------------------
/// The pieces joined with `sep` between each two (`join`).
pub open spec fn joined(items: Seq<Seq<char>>, sep: Seq<char>) -> Seq<char>
    decreases items.len(),
{
    if items.len() == 0 {
        seq![]
    } else if items.len() == 1 {
        items[0]
    } else {
        joined(items.drop_last(), sep) + sep + items.last()
    }
}

/// Each pid in decimal, behind `prefix`.
pub open spec fn prefixed_pids(pids: Seq<u32>, prefix: Seq<char>) -> Seq<Seq<char>> {
    pids.map_values(|p: u32| prefix + decimal(p as nat))
}

/// The pids in decimal, each behind `prefix`, joined with `sep`.
pub fn join_pids(pids: &Vec<u32>, prefix: &[char], sep: &[char]) -> (res: Vec<char>)
    ensures
        res@ == joined(prefixed_pids(pids@, prefix@), sep@),
{
    let mut out: Vec<char> = Vec::new();
    let n = pids.len();
    let ghost items = prefixed_pids(pids@, prefix@);
    assert(items.take(0) =~= Seq::<Seq<char>>::empty());
    for i in 0..n
        invariant
            n == pids@.len(),
            items == prefixed_pids(pids@, prefix@),
            out@ == joined(items.take(i as int), sep@),
    {
        let ghost before = out@;
        if i > 0 {
            out.extend_from_slice(sep);
        }
        out.extend_from_slice(prefix);
        push_decimal(&mut out, pids[i]);
        proof {
            let t = items.take(i + 1);
            assert(t.drop_last() =~= items.take(i as int));
            assert(t.last() == prefix@ + decimal(pids@[i as int] as nat));
            if i > 0 {
                assert(out@ =~= before + sep@ + t.last());
            } else {
                assert(out@ =~= t.last());
            }
        }
    }
    assert(items.take(n as int) =~= items);
    out
}

} // verus!
