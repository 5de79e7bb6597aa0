//! Turning the raw output of a command into text.
//!
//! Windows tools write either UTF-8 or, behind a byte order mark,
//! UTF-16 little endian; both are read leniently, with U+FFFD for what
//! cannot be decoded.
use vstd::prelude::*;

verus! {

/// What `String::from_utf8_lossy` makes of `bytes`.
pub uninterp spec fn utf8_lossy(bytes: Seq<u8>) -> Seq<char>;

/// Whether `u` is a surrogate, half of a character beyond U+FFFF.
pub open spec fn is_surrogate(u: u16) -> bool {
    0xD800 <= u <= 0xDFFF
}

/// Whether `u` is the first half of a surrogate pair.
pub open spec fn is_high_surrogate(u: u16) -> bool {
    0xD800 <= u <= 0xDBFF
}

/// Whether `u` is the second half of a surrogate pair.
pub open spec fn is_low_surrogate(u: u16) -> bool {
    0xDC00 <= u <= 0xDFFF
}

/// Whether `units` is valid UTF-16: every surrogate is in a pair, first
/// half then second half.
pub open spec fn valid_utf16(units: Seq<u16>) -> bool
    decreases units.len(),
{
    if units.len() == 0 {
        true
    } else if !is_surrogate(units[0]) {
        valid_utf16(units.drop_first())
    } else {
        units.len() >= 2 && is_high_surrogate(units[0]) && is_low_surrogate(units[1])
            && valid_utf16(units.skip(2))
    }
}

/// The character of a surrogate pair.
pub open spec fn pair_char(high: u16, low: u16) -> char {
    ((0x10000 + (high - 0xD800) * 1024 + (low - 0xDC00)) as u32) as char
}

/// The characters of valid UTF-16: a unit that is no surrogate is the
/// character with that code point, a surrogate pair the character it
/// encodes.
pub open spec fn decode_utf16(units: Seq<u16>) -> Seq<char>
    decreases units.len(),
{
    if units.len() == 0 {
        seq![]
    } else if !is_surrogate(units[0]) {
        seq![units[0] as char] + decode_utf16(units.drop_first())
    } else if units.len() >= 2 {
        seq![pair_char(units[0], units[1])] + decode_utf16(units.skip(2))
    } else {
        seq![]
    }
}

/// The characters of UTF-16 read leniently: a unit that is no surrogate
/// is the character with that code point, a first half followed by a
/// second half the character the pair encodes, and any other surrogate
/// U+FFFD, one for each such unit.
pub open spec fn decode_utf16_lossy(units: Seq<u16>) -> Seq<char>
    decreases units.len(),
{
    if units.len() == 0 {
        seq![]
    } else if !is_surrogate(units[0]) {
        seq![units[0] as char] + decode_utf16_lossy(units.drop_first())
    } else if units.len() >= 2 && is_high_surrogate(units[0]) && is_low_surrogate(units[1]) {
        seq![pair_char(units[0], units[1])] + decode_utf16_lossy(units.skip(2))
    } else {
        seq!['\u{FFFD}'] + decode_utf16_lossy(units.drop_first())
    }
}

/// Valid UTF-16 read leniently is valid UTF-16 read as it is.
pub proof fn lemma_valid_utf16_lossy(units: Seq<u16>)
    requires
        valid_utf16(units),
    ensures
        decode_utf16_lossy(units) == decode_utf16(units),
    decreases units.len(),
{
    if units.len() > 0 {
        if !is_surrogate(units[0]) {
            lemma_valid_utf16_lossy(units.drop_first());
        } else {
            lemma_valid_utf16_lossy(units.skip(2));
        }
    }
}

/// `String::from_utf8_lossy`: the contract claims that the result is a
/// function of the bytes alone, and that valid UTF-8 is decoded as it is.
#[verifier::external_body]
fn from_utf8_lossy(bytes: &[u8]) -> (res: String)
    ensures
        res@ == utf8_lossy(bytes@),
        vstd::utf8::valid_utf8(bytes@) ==> res@ == vstd::utf8::decode_utf8(bytes@),
{
    String::from_utf8_lossy(bytes).to_string()
}

/// `String::from_utf16_lossy`: the contract claims what its
/// documentation shows, that the units are decoded as UTF-16 with U+FFFD
/// for each unpaired surrogate.
#[verifier::external_body]
fn from_utf16_lossy(units: &[u16]) -> (res: String)
    ensures
        res@ == decode_utf16_lossy(units@),
{
    String::from_utf16_lossy(units)
}

/// Whether `bytes` starts with the UTF-16 little endian byte order mark.
pub open spec fn has_utf16le_bom(bytes: Seq<u8>) -> bool {
    bytes.len() >= 2 && bytes[0] == 0xFF && bytes[1] == 0xFE
}

/// The little endian 16-bit units of `bytes`; an odd last byte is dropped.
pub open spec fn le_units(bytes: Seq<u8>) -> Seq<u16> {
    Seq::new(bytes.len() / 2, |i: int| (bytes[2 * i] + 256 * bytes[2 * i + 1]) as u16)
}

/// The text of a command's output.
pub open spec fn decoded_text(bytes: Seq<u8>) -> Seq<char> {
    if has_utf16le_bom(bytes) {
        decode_utf16_lossy(le_units(bytes.skip(2)))
    } else {
        utf8_lossy(bytes)
    }
}

/// The UTF-16 units of `s` (`str::encode_utf16`).
pub open spec fn encode_utf16(s: Seq<char>) -> Seq<u16>
    decreases s.len(),
{
    if s.len() == 0 {
        seq![]
    } else {
        let c = s[0] as u32;
        let first = if c < 0x10000 {
            seq![c as u16]
        } else {
            seq![(0xD800 + (c - 0x10000) / 1024) as u16, (0xDC00 + (c - 0x10000) % 1024) as u16]
        };
        first + encode_utf16(s.drop_first())
    }
}

/// The bytes of `units`, each unit low byte first (`u16::to_le_bytes`).
pub open spec fn le_bytes(units: Seq<u16>) -> Seq<u8> {
    Seq::new(
        2 * units.len(),
        |k: int|
            if k % 2 == 0 {
                (units[k / 2] % 256) as u8
            } else {
                (units[k / 2] / 256) as u8
            },
    )
}

/// Valid UTF-8 never starts with the UTF-16 byte order mark, whose first
/// byte is no leading byte of UTF-8.
pub proof fn lemma_utf8_has_no_mark(bytes: Seq<u8>)
    ensures
        vstd::utf8::valid_utf8(bytes) ==> !has_utf16le_bom(bytes),
{
    if vstd::utf8::valid_utf8(bytes) && bytes.len() > 0 {
        assert(vstd::utf8::valid_first_scalar(bytes));
    }
}

/// The little endian 16-bit units of `bytes` from position `from` on.
pub fn le_units_from(bytes: &[u8], from: usize) -> (res: Vec<u16>)
    requires
        from <= bytes@.len(),
    ensures
        res@ == le_units(bytes@.skip(from as int)),
{
    let n = (bytes.len() - from) / 2;
    let mut out: Vec<u16> = Vec::new();
    let ghost b = bytes@.skip(from as int);
    for i in 0..n
        invariant
            n == (bytes@.len() - from) / 2,
            from <= bytes@.len(),
            bytes@.len() == bytes.len(),
            b == bytes@.skip(from as int),
            out@.len() == i,
            forall|j: int| 0 <= j < i ==> out@[j] == le_units(b)[j],
    {
        assert(2 * i + 2 <= bytes@.len() - from) by (nonlinear_arith)
            requires
                i < n,
                n == (bytes@.len() - from) / 2,
                from <= bytes@.len(),
        ;
        let lo = bytes[from + 2 * i] as u16;
        let hi = bytes[from + 2 * i + 1] as u16;
        assert(b[2 * i as int] == bytes@[from + 2 * i]);
        assert(b[2 * i + 1] == bytes@[from + 2 * i + 1]);
        out.push(lo + hi * 256);
    }
    assert(out@ =~= le_units(b));
    out
}

/// The text of a command's output: UTF-16 little endian behind its byte
/// order mark, UTF-8 otherwise, with U+FFFD for what cannot be decoded.
/// Text written either way reads back as itself.
pub fn decode_output(bytes: &[u8]) -> (res: String)
    ensures
        res@ == decoded_text(bytes@),
        vstd::utf8::valid_utf8(bytes@) ==> res@ == vstd::utf8::decode_utf8(bytes@),
        has_utf16le_bom(bytes@) && valid_utf16(le_units(bytes@.skip(2))) ==> res@ == decode_utf16(
            le_units(bytes@.skip(2)),
        ),
        forall|s: Seq<char>| #[trigger] vstd::utf8::encode_utf8(s) == bytes@ ==> res@ == s,
        forall|s: Seq<char>|
            seq![0xFFu8, 0xFEu8] + le_bytes(#[trigger] encode_utf16(s)) == bytes@ ==> res@ == s,
{
    proof {
        lemma_utf8_has_no_mark(bytes@);
    }
    let res = if bytes.len() >= 2 && bytes[0] == 0xFF && bytes[1] == 0xFE {
        let units = le_units_from(bytes, 2);
        proof {
            if valid_utf16(units@) {
                lemma_valid_utf16_lossy(units@);
            }
        }
        from_utf16_lossy(units.as_slice())
    } else {
        from_utf8_lossy(bytes)
    };
    proof {
        assert forall|s: Seq<char>| #[trigger] vstd::utf8::encode_utf8(s) == bytes@ implies res@
            == s by {
            law_utf8_text_reads_back(s);
        }
        assert forall|s: Seq<char>|
            seq![0xFFu8, 0xFEu8] + le_bytes(#[trigger] encode_utf16(s)) == bytes@ implies res@
                == s by {
            law_utf16_text_reads_back(s);
        }
    }
    res
}

/// Text that is UTF-8 as it is, read leniently; a string's own bytes
/// read back as the string.
pub fn utf8_text(bytes: &[u8]) -> (res: String)
    ensures
        res@ == utf8_lossy(bytes@),
        vstd::utf8::valid_utf8(bytes@) ==> res@ == vstd::utf8::decode_utf8(bytes@),
        forall|s: Seq<char>| #[trigger] vstd::utf8::encode_utf8(s) == bytes@ ==> res@ == s,
{
    let res = from_utf8_lossy(bytes);
    proof {
        assert forall|s: Seq<char>| #[trigger] vstd::utf8::encode_utf8(s) == bytes@ implies res@
            == s by {
            law_utf8_text_reads_back(s);
        }
    }
    res
}

// ---------------------------------------------------------------------
// Text read back
// ---------------------------------------------------------------------
/// Text written as UTF-8 is valid UTF-8 without the UTF-16 mark, and
/// decodes to itself: `decode_output` gives back a string's own bytes.
pub proof fn law_utf8_text_reads_back(s: Seq<char>)
    ensures
        vstd::utf8::valid_utf8(vstd::utf8::encode_utf8(s)),
        !has_utf16le_bom(vstd::utf8::encode_utf8(s)),
        vstd::utf8::decode_utf8(vstd::utf8::encode_utf8(s)) == s,
{
    vstd::utf8::encode_utf8_valid_utf8(s);
    vstd::utf8::encode_utf8_decode_utf8(s);
    lemma_utf8_has_no_mark(vstd::utf8::encode_utf8(s));
}

proof fn lemma_utf16_round_trip(s: Seq<char>)
    ensures
        valid_utf16(encode_utf16(s)),
        decode_utf16(encode_utf16(s)) == s,
    decreases s.len(),
{
    if s.len() > 0 {
        let c = s[0] as u32;
        vstd::utf8::char_is_scalar(s[0]);
        vstd::utf8::char_u32_cast(s[0], c);
        let rest = encode_utf16(s.drop_first());
        let e = encode_utf16(s);
        lemma_utf16_round_trip(s.drop_first());
        if c < 0x10000 {
            assert(e =~= seq![c as u16] + rest);
            assert(e.drop_first() =~= rest);
            assert(!is_surrogate(e[0]));
            assert((e[0] as char) == s[0]);
            assert(decode_utf16(e) =~= seq![s[0]] + s.drop_first());
        } else {
            let v = c - 0x10000;
            let hi = (0xD800 + v / 1024) as u16;
            let lo = (0xDC00 + v % 1024) as u16;
            assert(e =~= seq![hi, lo] + rest);
            assert(e.skip(2) =~= rest);
            assert(0x10000 + (hi - 0xD800) * 1024 + (lo - 0xDC00) == c);
            assert(decode_utf16(e) =~= seq![s[0]] + s.drop_first());
        }
    }
}

/// Text written as UTF-16 little endian behind the byte order mark
/// decodes to itself: `decode_output` gives it back.
pub proof fn law_utf16_text_reads_back(s: Seq<char>)
    ensures
        ({
            let b = seq![0xFFu8, 0xFEu8] + le_bytes(encode_utf16(s));
            &&& has_utf16le_bom(b)
            &&& le_units(b.skip(2)) == encode_utf16(s)
            &&& valid_utf16(le_units(b.skip(2)))
            &&& decode_utf16(le_units(b.skip(2))) == s
        }),
{
    let u = encode_utf16(s);
    let b = seq![0xFFu8, 0xFEu8] + le_bytes(u);
    let t = b.skip(2);
    assert(t =~= le_bytes(u));
    assert forall|i: int| 0 <= i < u.len() implies #[trigger] le_units(t)[i] == u[i] by {
        assert((2 * i) / 2 == i && (2 * i) % 2 == 0);
        assert((2 * i + 1) / 2 == i && (2 * i + 1) % 2 == 1);
        assert(t[2 * i] == (u[i] % 256) as u8);
        assert(t[2 * i + 1] == (u[i] / 256) as u8);
    }
    assert(le_units(t) =~= u);
    lemma_utf16_round_trip(s);
}


} // verus!
