//! Text as sequences of characters: lines, words, trimming, searching.
//!
//! Each operation here is the one that the standard library's `str`
//! offers under the same idea (`lines`, `split_whitespace`, `trim`, ...),
//! stated over `Seq<char>` and computed on `char` slices.
use vstd::prelude::*;

verus! {

/// The characters of a string slice, one by one.
pub fn chars_of(s: &str) -> (res: Vec<char>)
    ensures
        res@ == s@,
{
    let mut out: Vec<char> = Vec::new();
    for c in it: s.chars()
        invariant
            out@ == it.seq().take(it.index() as int),
    {
        out.push(c);
    }
    out
}

/// `String::push`: appends one character.
#[verifier::external_body]
fn push_char(s: &mut String, c: char)
    ensures
        final(s)@ == old(s)@.push(c),
{
    s.push(c);
}

/// The string made of the given characters.
pub fn string_of(chars: &[char]) -> (res: String)
    ensures
        res@ == chars@,
{
    let mut out = String::new();
    let n = chars.len();
    for i in 0..n
        invariant
            n == chars@.len(),
            out@ == chars@.take(i as int),
    {
        push_char(&mut out, chars[i]);
        assert(chars@.take(i + 1) =~= chars@.take(i as int).push(chars@[i as int]));
    }
    assert(chars@.take(n as int) =~= chars@);
    out
}

/// The characters of `s` from `from` (included) to `to` (excluded).
pub fn copy_range(s: &[char], from: usize, to: usize) -> (res: Vec<char>)
    requires
        from <= to <= s@.len(),
    ensures
        res@ == s@.subrange(from as int, to as int),
{
    let mut out: Vec<char> = Vec::new();
    let mut i = from;
    while i < to
        invariant
            from <= i <= to <= s@.len(),
            out@ == s@.subrange(from as int, i as int),
        decreases to - i,
    {
        out.push(s[i]);
        assert(s@.subrange(from as int, i + 1) =~= s@.subrange(from as int, i as int).push(
            s@[i as int],
        ));
        i = i + 1;
    }
    out
}

// ---------------------------------------------------------------------
// Searching for a character
// ---------------------------------------------------------------------
/// Index of the first `c` in `s`, or `s.len()` where there is none.
pub open spec fn index_of(s: Seq<char>, c: char) -> int
    decreases s.len(),
{
    if s.len() == 0 {
        0
    } else if s[0] == c {
        0
    } else {
        1 + index_of(s.drop_first(), c)
    }
}

pub proof fn lemma_index_of(s: Seq<char>, c: char)
    ensures
        0 <= index_of(s, c) <= s.len(),
        index_of(s, c) < s.len() ==> s[index_of(s, c)] == c,
        forall|j: int| 0 <= j < index_of(s, c) ==> s[j] != c,
    decreases s.len(),
{
    if s.len() > 0 && s[0] != c {
        lemma_index_of(s.drop_first(), c);
        assert forall|j: int| 0 <= j < index_of(s, c) implies s[j] != c by {
            if j > 0 {
                assert(s[j] == s.drop_first()[j - 1]);
            }
        }
    }
}

/// A prefix without `c` shifts the first `c` by its length.
pub proof fn lemma_index_of_append(a: Seq<char>, b: Seq<char>, c: char)
    requires
        forall|j: int| 0 <= j < a.len() ==> a[j] != c,
    ensures
        index_of(a + b, c) == a.len() + index_of(b, c),
    decreases a.len(),
{
    if a.len() > 0 {
        assert((a + b).drop_first() =~= a.drop_first() + b);
        lemma_index_of_append(a.drop_first(), b, c);
    } else {
        assert(a + b =~= b);
    }
}

/// The first `c` in `s` from position `from` on, or `s.len()`.
pub fn find_char(s: &[char], c: char, from: usize) -> (res: usize)
    requires
        from <= s@.len(),
    ensures
        res == from + index_of(s@.skip(from as int), c),
{
    let mut i = from;
    while i < s.len()
        invariant
            from <= i <= s@.len(),
            from + index_of(s@.skip(from as int), c) == i + index_of(s@.skip(i as int), c),
        decreases s@.len() - i,
    {
        if s[i] == c {
            return i;
        }
        assert(s@.skip(i as int).drop_first() =~= s@.skip(i + 1));
        i = i + 1;
    }
    i
}

// ---------------------------------------------------------------------
// Lines (`str::lines`)
// ---------------------------------------------------------------------
/// `s` without one final carriage return.
pub open spec fn without_cr(s: Seq<char>) -> Seq<char> {
    if s.len() > 0 && s.last() == '\r' {
        s.drop_last()
    } else {
        s
    }
}

/// The lines of `s`, as `str::lines` gives them: split at `'\n'`, a
/// `'\r'` just before a `'\n'` dropped, and no empty line after a final
/// `'\n'`.
pub open spec fn lines_of(s: Seq<char>) -> Seq<Seq<char>>
    decreases s.len(),
{
    if s.len() == 0 {
        seq![]
    } else {
        let k = index_of(s, '\n');
        if k == s.len() {
            seq![s]
        } else {
            proof {
                lemma_index_of(s, '\n');
            }
            seq![without_cr(s.take(k))] + lines_of(s.skip(k + 1))
        }
    }
}

/// The views of a vector of character vectors.
pub open spec fn views(v: Seq<Vec<char>>) -> Seq<Seq<char>> {
    v.map_values(|x: Vec<char>| x@)
}

/// Splits `s` into its lines, as `str::lines` does.
pub fn split_lines(s: &[char]) -> (res: Vec<Vec<char>>)
    ensures
        views(res@) == lines_of(s@),
{
    let mut out: Vec<Vec<char>> = Vec::new();
    let mut cur: Vec<char> = Vec::new();
    let n = s.len();
    assert(cur@ + s@.skip(0) =~= s@);
    assert(views(out@) + lines_of(s@) =~= lines_of(s@));
    for i in 0..n
        invariant
            n == s@.len(),
            forall|j: int| 0 <= j < cur@.len() ==> cur@[j] != '\n',
            lines_of(s@) == views(out@) + lines_of(cur@ + s@.skip(i as int)),
    {
        let ch = s[i];
        let ghost rest = cur@ + s@.skip(i as int);
        if ch == '\n' {
            proof {
                lemma_index_of_append(cur@, s@.skip(i as int), '\n');
                assert(rest.take(cur@.len() as int) =~= cur@);
                assert(rest.skip(cur@.len() as int + 1) =~= s@.skip(i + 1));
                assert(s@.skip(i + 1) =~= Seq::<char>::empty() + s@.skip(i + 1));
            }
            let line = if cur.len() > 0 && cur[cur.len() - 1] == '\r' {
                copy_range(cur.as_slice(), 0, cur.len() - 1)
            } else {
                cur
            };
            proof {
                assert(line@ == without_cr(rest.take(cur@.len() as int)));
                assert(views(out@.push(line)) =~= views(out@) + seq![line@]);
            }
            out.push(line);
            cur = Vec::new();
        } else {
            cur.push(ch);
            assert(cur@ + s@.skip(i + 1) =~= rest);
        }
    }
    assert(s@.skip(n as int) =~= Seq::<char>::empty());
    assert(cur@ + s@.skip(n as int) =~= cur@);
    if cur.len() > 0 {
        proof {
            lemma_index_of(cur@, '\n');
            assert(views(out@.push(cur)) =~= views(out@) + seq![cur@]);
        }
        out.push(cur);
    } else {
        assert(views(out@) + lines_of(cur@) =~= views(out@));
    }
    out
}

// ---------------------------------------------------------------------
// Whitespace and words (`char::is_whitespace`, `str::split_whitespace`)
// ---------------------------------------------------------------------
/// The characters with the Unicode `White_Space` property, which is what
/// `char::is_whitespace` tests.
pub open spec fn is_white(c: char) -> bool {
    ||| c == ' '
    ||| ('\u{9}' <= c && c <= '\u{D}')
    ||| c == '\u{85}'
    ||| c == '\u{A0}'
    ||| c == '\u{1680}'
    ||| ('\u{2000}' <= c && c <= '\u{200A}')
    ||| c == '\u{2028}'
    ||| c == '\u{2029}'
    ||| c == '\u{202F}'
    ||| c == '\u{205F}'
    ||| c == '\u{3000}'
}

/// Whether `c` is whitespace.
pub fn is_whitespace(c: char) -> (res: bool)
    ensures
        res == is_white(c),
{
    c == ' ' || ('\u{9}' <= c && c <= '\u{D}') || c == '\u{85}' || c == '\u{A0}' || c
        == '\u{1680}' || ('\u{2000}' <= c && c <= '\u{200A}') || c == '\u{2028}' || c
        == '\u{2029}' || c == '\u{202F}' || c == '\u{205F}' || c == '\u{3000}'
}

/// Index of the first whitespace character of `s`, or `s.len()`.
pub open spec fn word_end(s: Seq<char>) -> int
    decreases s.len(),
{
    if s.len() == 0 {
        0
    } else if is_white(s[0]) {
        0
    } else {
        1 + word_end(s.drop_first())
    }
}

pub proof fn lemma_word_end(s: Seq<char>)
    ensures
        0 <= word_end(s) <= s.len(),
        word_end(s) < s.len() ==> is_white(s[word_end(s)]),
        forall|j: int| 0 <= j < word_end(s) ==> !is_white(s[j]),
    decreases s.len(),
{
    if s.len() > 0 && !is_white(s[0]) {
        lemma_word_end(s.drop_first());
        assert forall|j: int| 0 <= j < word_end(s) implies !is_white(s[j]) by {
            if j > 0 {
                assert(s[j] == s.drop_first()[j - 1]);
            }
        }
    }
}

pub proof fn lemma_word_end_append(a: Seq<char>, b: Seq<char>)
    requires
        forall|j: int| 0 <= j < a.len() ==> !is_white(a[j]),
    ensures
        word_end(a + b) == a.len() + word_end(b),
    decreases a.len(),
{
    if a.len() > 0 {
        assert((a + b).drop_first() =~= a.drop_first() + b);
        lemma_word_end_append(a.drop_first(), b);
    } else {
        assert(a + b =~= b);
    }
}

/// The words of `s`, as `str::split_whitespace` gives them: the maximal
/// runs of characters that are not whitespace.
pub open spec fn words_of(s: Seq<char>) -> Seq<Seq<char>>
    decreases s.len(),
{
    if s.len() == 0 {
        seq![]
    } else if is_white(s[0]) {
        words_of(s.drop_first())
    } else {
        let k = word_end(s);
        proof {
            lemma_word_end(s);
        }
        seq![s.take(k)] + words_of(s.skip(k))
    }
}

/// Splits `s` into its words, as `str::split_whitespace` does.
pub fn split_words(s: &[char]) -> (res: Vec<Vec<char>>)
    ensures
        views(res@) == words_of(s@),
{
    let mut out: Vec<Vec<char>> = Vec::new();
    let mut cur: Vec<char> = Vec::new();
    let n = s.len();
    assert(cur@ + s@.skip(0) =~= s@);
    assert(views(out@) + words_of(s@) =~= words_of(s@));
    for i in 0..n
        invariant
            n == s@.len(),
            forall|j: int| 0 <= j < cur@.len() ==> !is_white(cur@[j]),
            words_of(s@) == views(out@) + words_of(cur@ + s@.skip(i as int)),
    {
        let ch = s[i];
        let ghost rest = cur@ + s@.skip(i as int);
        assert(s@.skip(i as int).drop_first() =~= s@.skip(i + 1));
        assert(s@.skip(i as int)[0] == ch);
        if is_whitespace(ch) {
            if cur.len() > 0 {
                proof {
                    assert(rest[0] == cur@[0]);
                    lemma_word_end_append(cur@, s@.skip(i as int));
                    assert(rest.take(cur@.len() as int) =~= cur@);
                    assert(rest.skip(cur@.len() as int) =~= s@.skip(i as int));
                    assert(views(out@.push(cur)) =~= views(out@) + seq![cur@]);
                    assert(word_end(s@.skip(i as int)) == 0);
                    assert(word_end(rest) == cur@.len());
                    assert(words_of(rest) == seq![cur@] + words_of(s@.skip(i as int)));
                    assert(words_of(s@.skip(i as int)) == words_of(s@.skip(i + 1)));
                }
                out.push(cur);
                cur = Vec::new();
            } else {
                assert(rest =~= s@.skip(i as int));
                assert(words_of(s@.skip(i as int)) == words_of(s@.skip(i + 1)));
            }
            assert(cur@ + s@.skip(i + 1) =~= s@.skip(i + 1));
        } else {
            cur.push(ch);
            assert(cur@ + s@.skip(i + 1) =~= rest);
        }
    }
    assert(s@.skip(n as int) =~= Seq::<char>::empty());
    assert(cur@ + s@.skip(n as int) =~= cur@);
    if cur.len() > 0 {
        proof {
            lemma_word_end(cur@);
            assert(word_end(cur@) == cur@.len());
            assert(words_of(cur@) == seq![cur@.take(cur@.len() as int)] + words_of(
                cur@.skip(cur@.len() as int),
            ));
            assert(cur@.take(cur@.len() as int) =~= cur@);
            assert(cur@.skip(cur@.len() as int) =~= Seq::<char>::empty());
            assert(views(out@.push(cur)) =~= views(out@) + seq![cur@]);
        }
        out.push(cur);
    } else {
        assert(views(out@) + words_of(cur@) =~= views(out@));
    }
    out
}

// ---------------------------------------------------------------------
// Trimming (`str::trim`, `str::trim_matches`, `str::trim_end_matches`)
// ---------------------------------------------------------------------
/// `s` without its leading whitespace.
pub open spec fn trim_start_white(s: Seq<char>) -> Seq<char>
    decreases s.len(),
{
    if s.len() > 0 && is_white(s[0]) {
        trim_start_white(s.drop_first())
    } else {
        s
    }
}

/// `s` without its trailing whitespace.
pub open spec fn trim_end_white(s: Seq<char>) -> Seq<char>
    decreases s.len(),
{
    if s.len() > 0 && is_white(s.last()) {
        trim_end_white(s.drop_last())
    } else {
        s
    }
}

/// `s` without leading and trailing whitespace (`str::trim`).
pub open spec fn trimmed(s: Seq<char>) -> Seq<char> {
    trim_end_white(trim_start_white(s))
}

/// `s` without leading copies of `c`.
pub open spec fn trim_start_char(s: Seq<char>, c: char) -> Seq<char>
    decreases s.len(),
{
    if s.len() > 0 && s[0] == c {
        trim_start_char(s.drop_first(), c)
    } else {
        s
    }
}

/// `s` without trailing copies of `c`.
pub open spec fn trim_end_char(s: Seq<char>, c: char) -> Seq<char>
    decreases s.len(),
{
    if s.len() > 0 && s.last() == c {
        trim_end_char(s.drop_last(), c)
    } else {
        s
    }
}

/// `s` without leading and trailing copies of `c` (`str::trim_matches`).
pub open spec fn trimmed_char(s: Seq<char>, c: char) -> Seq<char> {
    trim_end_char(trim_start_char(s, c), c)
}

/// Whether `s` ends with `p`.
pub open spec fn ends_with(s: Seq<char>, p: Seq<char>) -> bool {
    p.len() <= s.len() && s.skip(s.len() - p.len()) == p
}

/// Whether `s` starts with `p`.
pub open spec fn starts_with(s: Seq<char>, p: Seq<char>) -> bool {
    p.len() <= s.len() && s.take(p.len() as int) == p
}

/// `s` without trailing copies of the non-empty `p`
/// (`str::trim_end_matches` with a string pattern).
pub open spec fn trim_end_pattern(s: Seq<char>, p: Seq<char>) -> Seq<char>
    decreases s.len(),
{
    if p.len() > 0 && ends_with(s, p) {
        trim_end_pattern(s.take(s.len() - p.len()), p)
    } else {
        s
    }
}

/// Removes leading and trailing whitespace.
pub fn trim(s: &[char]) -> (res: Vec<char>)
    ensures
        res@ == trimmed(s@),
{
    let n = s.len();
    let mut a: usize = 0;
    assert(s@.skip(0) =~= s@);
    while a < n && is_whitespace(s[a])
        invariant
            n == s@.len(),
            a <= n,
            trim_start_white(s@) == trim_start_white(s@.skip(a as int)),
        decreases n - a,
    {
        assert(s@.skip(a as int).drop_first() =~= s@.skip(a + 1));
        a = a + 1;
    }
    let mut b: usize = n;
    let ghost t = s@.skip(a as int);
    assert(t.take(t.len() as int) =~= t);
    while b > a && is_whitespace(s[b - 1])
        invariant
            n == s@.len(),
            a <= b <= n,
            t == s@.skip(a as int),
            trim_end_white(t) == trim_end_white(t.take(b - a)),
        decreases b,
    {
        assert(t.take(b - a).drop_last() =~= t.take(b - 1 - a));
        b = b - 1;
    }
    assert(t.take(b - a) =~= s@.subrange(a as int, b as int));
    copy_range(s, a, b)
}

/// Removes leading and trailing copies of `c`.
pub fn trim_char(s: &[char], c: char) -> (res: Vec<char>)
    ensures
        res@ == trimmed_char(s@, c),
{
    let n = s.len();
    let mut a: usize = 0;
    assert(s@.skip(0) =~= s@);
    while a < n && s[a] == c
        invariant
            n == s@.len(),
            a <= n,
            trim_start_char(s@, c) == trim_start_char(s@.skip(a as int), c),
        decreases n - a,
    {
        assert(s@.skip(a as int).drop_first() =~= s@.skip(a + 1));
        a = a + 1;
    }
    let mut b: usize = n;
    let ghost t = s@.skip(a as int);
    assert(t.take(t.len() as int) =~= t);
    while b > a && s[b - 1] == c
        invariant
            n == s@.len(),
            a <= b <= n,
            t == s@.skip(a as int),
            trim_end_char(t, c) == trim_end_char(t.take(b - a), c),
        decreases b,
    {
        assert(t.take(b - a).drop_last() =~= t.take(b - 1 - a));
        b = b - 1;
    }
    assert(t.take(b - a) =~= s@.subrange(a as int, b as int));
    copy_range(s, a, b)
}

/// Whether `s` has `p` at position `at`.
pub fn matches_at(s: &[char], p: &[char], at: usize) -> (res: bool)
    requires
        at <= s@.len(),
    ensures
        res == (at + p@.len() <= s@.len() && s@.subrange(at as int, at + p@.len()) == p@),
{
    if p.len() > s.len() - at {
        return false;
    }
    let mut i: usize = 0;
    while i < p.len()
        invariant
            at + p@.len() <= s@.len(),
            s@.len() == s.len(),
            i <= p@.len(),
            forall|j: int| 0 <= j < i ==> s@[at + j] == p@[j],
        decreases p@.len() - i,
    {
        if s[at + i] != p[i] {
            assert(s@.subrange(at as int, at + p@.len())[i as int] != p@[i as int]);
            return false;
        }
        i = i + 1;
    }
    assert(s@.subrange(at as int, at + p@.len()) =~= p@);
    true
}

/// Whether `s` starts with `p`.
pub fn has_prefix(s: &[char], p: &[char]) -> (res: bool)
    ensures
        res == starts_with(s@, p@),
{
    let r = matches_at(s, p, 0);
    assert(s@.subrange(0, p@.len() as int) =~= s@.take(p@.len() as int));
    r
}

/// Removes trailing copies of the non-empty `p`.
pub fn trim_end_matches(s: &[char], p: &[char]) -> (res: Vec<char>)
    requires
        p@.len() > 0,
    ensures
        res@ == trim_end_pattern(s@, p@),
{
    let mut b: usize = s.len();
    let plen = p.len();
    assert(s@.take(s@.len() as int) =~= s@);
    while b >= plen && matches_at(s, p, b - plen)
        invariant
            plen == p@.len() > 0,
            b <= s@.len(),
            trim_end_pattern(s@, p@) == trim_end_pattern(s@.take(b as int), p@),
        decreases b,
    {
        proof {
            let t = s@.take(b as int);
            assert(t.skip(t.len() - plen) =~= s@.subrange(b - plen, b as int));
            assert(t.take(t.len() - plen) =~= s@.take(b - plen));
        }
        b = b - plen;
    }
    proof {
        let t = s@.take(b as int);
        if b >= plen {
            assert(t.skip(t.len() - plen) =~= s@.subrange(b - plen, b as int));
        }
    }
    copy_range(s, 0, b)
}

// ---------------------------------------------------------------------
// Separators
// ---------------------------------------------------------------------
/// The position just after the last `c` in `s`, or 0 where there is none.
pub open spec fn after_last_index(s: Seq<char>, c: char) -> int
    decreases s.len(),
{
    if s.len() == 0 {
        0
    } else if s.last() == c {
        s.len() as int
    } else {
        after_last_index(s.drop_last(), c)
    }
}

pub proof fn lemma_after_last_index(s: Seq<char>, c: char)
    ensures
        0 <= after_last_index(s, c) <= s.len(),
    decreases s.len(),
{
    if s.len() > 0 && s.last() != c {
        lemma_after_last_index(s.drop_last(), c);
    }
}

/// The part of `s` after its last `c`, or all of `s` where there is no
/// `c`: the first piece of `str::rsplit(c)`, and the last of `str::split(c)`.
pub open spec fn after_last(s: Seq<char>, c: char) -> Seq<char> {
    s.skip(after_last_index(s, c))
}

/// The part of `s` after its last `c`, or all of `s`.
pub fn last_piece(s: &[char], c: char) -> (res: Vec<char>)
    ensures
        res@ == after_last(s@, c),
{
    let mut j: usize = s.len();
    assert(s@.take(s@.len() as int) =~= s@);
    while j > 0 && s[j - 1] != c
        invariant
            j <= s@.len(),
            after_last_index(s@, c) == after_last_index(s@.take(j as int), c),
        decreases j,
    {
        assert(s@.take(j as int).drop_last() =~= s@.take(j - 1));
        j = j - 1;
    }
    proof {
        lemma_after_last_index(s@, c);
    }
    copy_range(s, j, s.len())
}

/// Index of the first occurrence of the non-empty `p` in `s`, or
/// `s.len()` where there is none.
pub open spec fn find_pattern(s: Seq<char>, p: Seq<char>) -> int
    decreases s.len(),
{
    if s.len() < p.len() {
        s.len() as int
    } else if s.take(p.len() as int) == p {
        0
    } else if s.len() == 0 {
        0
    } else {
        1 + find_pattern(s.drop_first(), p)
    }
}

pub proof fn lemma_find_pattern(s: Seq<char>, p: Seq<char>)
    requires
        p.len() > 0,
    ensures
        0 <= find_pattern(s, p) <= s.len(),
        find_pattern(s, p) + p.len() <= s.len() ==> s.subrange(
            find_pattern(s, p),
            find_pattern(s, p) + p.len(),
        ) == p,
    decreases s.len(),
{
    if s.len() >= p.len() && s.take(p.len() as int) != p {
        lemma_find_pattern(s.drop_first(), p);
        let k = find_pattern(s.drop_first(), p);
        if k + p.len() <= s.len() - 1 {
            assert(s.subrange(k + 1, k + 1 + p.len()) =~= s.drop_first().subrange(k, k + p.len()));
        }
    } else if s.len() >= p.len() {
        assert(s.subrange(0, p.len() as int) =~= s.take(p.len() as int));
    }
}

/// The first occurrence of the non-empty `p` in `s` from `from` on, or
/// `s.len()`.
pub fn find_str(s: &[char], p: &[char], from: usize) -> (res: usize)
    requires
        from <= s@.len(),
        p@.len() > 0,
    ensures
        res == from + find_pattern(s@.skip(from as int), p@),
{
    let mut i = from;
    while i < s.len()
        invariant
            from <= i <= s@.len(),
            p@.len() > 0,
            from + find_pattern(s@.skip(from as int), p@) == i + find_pattern(
                s@.skip(i as int),
                p@,
            ),
        decreases s@.len() - i,
    {
        let ghost t = s@.skip(i as int);
        if p.len() > s.len() - i {
            return s.len();
        }
        if matches_at(s, p, i) {
            assert(t.take(p@.len() as int) =~= s@.subrange(i as int, i + p@.len()));
            return i;
        }
        assert(t.take(p@.len() as int) =~= s@.subrange(i as int, i + p@.len()));
        assert(t.drop_first() =~= s@.skip(i + 1));
        i = i + 1;
    }
    i
}

// ---------------------------------------------------------------------
// Case
// ---------------------------------------------------------------------
/// `c` with an ASCII capital turned into its small letter.
pub open spec fn ascii_lower(c: char) -> char {
    if 'A' <= c && c <= 'Z' {
        (((c as u8) + 32) as u8) as char
    } else {
        c
    }
}

/// Whether `a` and `b` are equal but for the case of ASCII letters
/// (`str::eq_ignore_ascii_case`).
pub open spec fn same_ignoring_ascii_case(a: Seq<char>, b: Seq<char>) -> bool {
    a.len() == b.len() && forall|i: int| 0 <= i < a.len() ==> ascii_lower(a[i]) == ascii_lower(b[i])
}

fn to_ascii_lower(c: char) -> (res: char)
    ensures
        res == ascii_lower(c),
{
    if 'A' <= c && c <= 'Z' {
        (((c as u8) + 32) as u8) as char
    } else {
        c
    }
}

/// Whether `a` and `b` are equal but for the case of ASCII letters.
pub fn eq_ignore_ascii_case(a: &[char], b: &[char]) -> (res: bool)
    ensures
        res == same_ignoring_ascii_case(a@, b@),
{
    if a.len() != b.len() {
        return false;
    }
    let n = a.len();
    for i in 0..n
        invariant
            n == a@.len() == b@.len(),
            forall|j: int| 0 <= j < i ==> ascii_lower(a@[j]) == ascii_lower(b@[j]),
    {
        if to_ascii_lower(a[i]) != to_ascii_lower(b[i]) {
            return false;
        }
    }
    true
}

} // verus!
