//! Byte-level scanning helpers shared by the Uri and Address parsers.
//!
//! Callers pass the input plus byte offsets into it. Every delimiter the
//! parsers split on is an ASCII byte, so the offsets they record fall on
//! character boundaries (`is_cut`), and slices between them are valid UTF-8.
//! `pct_decode` is the exception: its output can hold arbitrary bytes, so it
//! validates.
use vstd::prelude::*;
use vstd::string::StringSliceAdditionalSpecFns;
use vstd::utf8::*;

use crate::error::ParseError;
use crate::text::{
    all_ascii, ascii_rewrite, copy_range, flat_map_bytes, is_cut, lemma_cut_after_ascii,
    lemma_cut_slice_valid, lemma_flat_map_push, lemma_flat_map_valid, lemma_str_valid, sbytes,
    string_from_bytes, string_of_valid,
};

verus! {

broadcast use vstd::seq_lib::group_seq_properties;

pub const SP: u8 = 0x20;

pub const HTAB: u8 = 0x09;

pub const CR: u8 = 0x0D;

pub const LF: u8 = 0x0A;

pub const COLON: u8 = 0x3A;

pub const SEMI: u8 = 0x3B;

pub const QMARK: u8 = 0x3F;

pub const AMP: u8 = 0x26;

pub const EQ_: u8 = 0x3D;

pub const AT: u8 = 0x40;

pub const PCT: u8 = 0x25;

pub const LBRACKET: u8 = 0x5B;

pub const RBRACKET: u8 = 0x5D;

pub const LT: u8 = 0x3C;

pub const GT: u8 = 0x3E;

pub const DQUOTE: u8 = 0x22;

// ---------------------------------------------------------------------------
// Byte classes
pub open spec fn ws_byte(b: u8) -> bool {
    b == SP || b == HTAB || b == CR || b == LF
}

pub open spec fn sp_tab_byte(b: u8) -> bool {
    b == SP || b == HTAB
}

/// Blank bytes: SP/HTAB, plus CR/LF when `line_breaks` is set.
pub open spec fn blank(b: u8, line_breaks: bool) -> bool {
    if line_breaks {
        ws_byte(b)
    } else {
        sp_tab_byte(b)
    }
}

pub fn is_ws(b: u8) -> (r: bool)
    ensures
        r == ws_byte(b),
{
    b == SP || b == HTAB || b == CR || b == LF
}

pub fn is_sp_tab(b: u8) -> (r: bool)
    ensures
        r == sp_tab_byte(b),
{
    b == SP || b == HTAB
}

// ---------------------------------------------------------------------------
// Searching and trimming
/// First position in `[from, to)` holding `b`.
pub open spec fn find_byte(s: Seq<u8>, b: u8, from: int, to: int) -> Option<int>
    decreases to - from,
{
    if from >= to {
        None
    } else if s[from] == b {
        Some(from)
    } else {
        find_byte(s, b, from + 1, to)
    }
}

/// Last position in `[from, to)` holding `b`.
pub open spec fn rfind_byte(s: Seq<u8>, b: u8, from: int, to: int) -> Option<int>
    decreases to - from,
{
    if from >= to {
        None
    } else if s[to - 1] == b {
        Some(to - 1)
    } else {
        rfind_byte(s, b, from, to - 1)
    }
}

/// Whether `b` occurs in `[from, to)`.
pub open spec fn has_byte(s: Seq<u8>, b: u8, from: int, to: int) -> bool {
    exists|i: int| from <= i < to && s[i] == b
}

/// First position at or after `from` that is not blank (or `to`).
pub open spec fn skip_blank(s: Seq<u8>, from: int, to: int, line_breaks: bool) -> int
    decreases to - from,
{
    if from < to && blank(s[from], line_breaks) {
        skip_blank(s, from + 1, to, line_breaks)
    } else {
        from
    }
}

/// `to` moved back over trailing blank bytes, not past `from`.
pub open spec fn skip_blank_back(s: Seq<u8>, from: int, to: int, line_breaks: bool) -> int
    decreases to - from,
{
    if to > from && blank(s[to - 1], line_breaks) {
        skip_blank_back(s, from, to - 1, line_breaks)
    } else {
        to
    }
}

/// The range `[from, to)` with blank bytes removed from both ends.
pub open spec fn trim_range(s: Seq<u8>, from: int, to: int, line_breaks: bool) -> (int, int) {
    let f = skip_blank(s, from, to, line_breaks);
    (f, skip_blank_back(s, f, to, line_breaks))
}

pub proof fn lemma_find_byte(s: Seq<u8>, b: u8, from: int, to: int)
    requires
        0 <= from,
        to <= s.len(),
    ensures
        find_byte(s, b, from, to) matches Some(i) ==> from <= i < to && s[i] == b && !has_byte(
            s,
            b,
            from,
            i,
        ),
        find_byte(s, b, from, to) is None ==> !has_byte(s, b, from, to),
    decreases to - from,
{
    if from < to {
        lemma_find_byte(s, b, from + 1, to);
        if s[from] != b {
            if find_byte(s, b, from + 1, to) is None {
                assert forall|i: int| from <= i < to implies s[i] != b by {
                    if i > from {
                        assert(!(from + 1 <= i < to && s[i] == b));
                    }
                }
            } else {
                let k = find_byte(s, b, from + 1, to)->0;
                assert forall|i: int| from <= i < k implies s[i] != b by {
                    if i > from {
                        assert(!(from + 1 <= i < k && s[i] == b));
                    }
                }
            }
        }
    }
}

pub proof fn lemma_rfind_byte(s: Seq<u8>, b: u8, from: int, to: int)
    requires
        0 <= from,
        to <= s.len(),
    ensures
        rfind_byte(s, b, from, to) matches Some(i) ==> from <= i < to && s[i] == b && !has_byte(
            s,
            b,
            i + 1,
            to,
        ),
        rfind_byte(s, b, from, to) is None ==> !has_byte(s, b, from, to),
    decreases to - from,
{
    if from < to {
        lemma_rfind_byte(s, b, from, to - 1);
        if s[to - 1] != b {
            if rfind_byte(s, b, from, to - 1) is None {
                assert forall|i: int| from <= i < to implies s[i] != b by {
                    if i < to - 1 {
                        assert(!(from <= i < to - 1 && s[i] == b));
                    }
                }
            } else {
                let k = rfind_byte(s, b, from, to - 1)->0;
                assert forall|i: int| k + 1 <= i < to implies s[i] != b by {
                    if i < to - 1 {
                        assert(!(k + 1 <= i < to - 1 && s[i] == b));
                    }
                }
            }
        }
    }
}

/// An optional position as an integer.
pub open spec fn opt_int(r: Option<usize>) -> Option<int> {
    match r {
        Some(i) => Some(i as int),
        None => None,
    }
}

/// Scan `[from, to)` for the first `b`.
pub fn find_in(src: &[u8], b: u8, from: usize, to: usize) -> (r: Option<usize>)
    requires
        from <= to <= src@.len(),
    ensures
        opt_int(r) == find_byte(src@, b, from as int, to as int),
        r matches Some(i) ==> from <= i < to && src@[i as int] == b,
{
    let mut j = from;
    while j < to
        invariant
            from <= j <= to <= src@.len(),
            find_byte(src@, b, from as int, to as int) == find_byte(src@, b, j as int, to as int),
        decreases to - j,
    {
        if src[j] == b {
            return Some(j);
        }
        j += 1;
    }
    None
}

/// Scan `[from, to)` backwards for the last `b`.
pub fn rfind_in(src: &[u8], b: u8, from: usize, to: usize) -> (r: Option<usize>)
    requires
        from <= to <= src@.len(),
    ensures
        opt_int(r) == rfind_byte(src@, b, from as int, to as int),
        r matches Some(i) ==> from <= i < to && src@[i as int] == b,
{
    let mut j = to;
    while j > from
        invariant
            from <= j <= to <= src@.len(),
            rfind_byte(src@, b, from as int, to as int) == rfind_byte(
                src@,
                b,
                from as int,
                j as int,
            ),
        decreases j - from,
    {
        if src[j - 1] == b {
            return Some(j - 1);
        }
        j -= 1;
    }
    None
}

fn is_blank(b: u8, line_breaks: bool) -> (r: bool)
    ensures
        r == blank(b, line_breaks),
{
    if line_breaks {
        is_ws(b)
    } else {
        is_sp_tab(b)
    }
}

fn trim_blank(src: &[u8], from: usize, to: usize, line_breaks: bool) -> (r: (usize, usize))
    requires
        from < to ==> to <= src@.len(),
    ensures
        (r.0 as int, r.1 as int) == trim_range(src@, from as int, to as int, line_breaks),
{
    let mut f = from;
    while f < to && is_blank(src[f], line_breaks)
        invariant
            from <= f,
            from < to ==> to <= src@.len(),
            from < to ==> f <= to,
            skip_blank(src@, from as int, to as int, line_breaks) == skip_blank(
                src@,
                f as int,
                to as int,
                line_breaks,
            ),
        decreases to - f,
    {
        f += 1;
    }
    let mut t = to;
    while t > f && is_blank(src[t - 1], line_breaks)
        invariant
            t <= to,
            f < t ==> to <= src@.len(),
            f < to ==> from < to,
            skip_blank(src@, from as int, to as int, line_breaks) == f,
            f < t ==> skip_blank_back(src@, f as int, to as int, line_breaks) == skip_blank_back(
                src@,
                f as int,
                t as int,
                line_breaks,
            ),
            f >= t ==> skip_blank_back(src@, f as int, to as int, line_breaks) == t,
        decreases t - f,
    {
        assert(skip_blank_back(src@, f as int, t as int, line_breaks) == skip_blank_back(
            src@,
            f as int,
            t - 1,
            line_breaks,
        ));
        t -= 1;
    }
    (f, t)
}

/// Strip SP/HTAB/CR/LF from both ends of `[from, to)`.
pub fn trim_ws(src: &[u8], from: usize, to: usize) -> (r: (usize, usize))
    requires
        from < to ==> to <= src@.len(),
    ensures
        (r.0 as int, r.1 as int) == trim_range(src@, from as int, to as int, true),
{
    trim_blank(src, from, to, true)
}

/// Strip SP/HTAB from both ends of `[from, to)`.
pub fn trim_sp_tab(src: &[u8], from: usize, to: usize) -> (r: (usize, usize))
    requires
        from < to ==> to <= src@.len(),
    ensures
        (r.0 as int, r.1 as int) == trim_range(src@, from as int, to as int, false),
{
    trim_blank(src, from, to, false)
}

pub proof fn lemma_skip_blank(s: Seq<u8>, from: int, to: int, lb: bool)
    requires
        0 <= from <= to <= s.len(),
    ensures
        from <= skip_blank(s, from, to, lb) <= to,
        forall|i: int| from <= i < skip_blank(s, from, to, lb) ==> blank(#[trigger] s[i], lb),
        skip_blank(s, from, to, lb) < to ==> !blank(s[skip_blank(s, from, to, lb)], lb),
        valid_utf8(s) && is_cut(s, from) ==> is_cut(s, skip_blank(s, from, to, lb)),
    decreases to - from,
{
    if from < to && blank(s[from], lb) {
        lemma_skip_blank(s, from + 1, to, lb);
        if valid_utf8(s) && is_cut(s, from) {
            lemma_cut_after_ascii(s, from);
        }
    }
}

pub proof fn lemma_skip_blank_back(s: Seq<u8>, from: int, to: int, lb: bool)
    requires
        0 <= from <= to <= s.len(),
    ensures
        from <= skip_blank_back(s, from, to, lb) <= to,
        forall|i: int| skip_blank_back(s, from, to, lb) <= i < to ==> blank(#[trigger] s[i], lb),
        skip_blank_back(s, from, to, lb) > from ==> !blank(
            s[skip_blank_back(s, from, to, lb) - 1],
            lb,
        ),
        is_cut(s, to) ==> is_cut(s, skip_blank_back(s, from, to, lb)),
    decreases to - from,
{
    if to > from && blank(s[to - 1], lb) {
        lemma_skip_blank_back(s, from, to - 1, lb);
    }
}

/// The trimmed range lies inside `[from, to)`, its ends are not blank, and
/// it is cut wherever `[from, to)` was.
pub proof fn lemma_trim_range(s: Seq<u8>, from: int, to: int, lb: bool)
    requires
        0 <= from <= to <= s.len(),
    ensures
        ({
            let (f, t) = trim_range(s, from, to, lb);
            &&& from <= f <= t <= to
            &&& (f < t ==> !blank(s[f], lb) && !blank(s[t - 1], lb))
            &&& forall|i: int| from <= i < f ==> blank(#[trigger] s[i], lb)
            &&& forall|i: int| t <= i < to ==> blank(#[trigger] s[i], lb)
            &&& (valid_utf8(s) && is_cut(s, from) && is_cut(s, to) ==> is_cut(s, f) && is_cut(
                s,
                t,
            ))
        }),
{
    lemma_skip_blank(s, from, to, lb);
    let f = skip_blank(s, from, to, lb);
    lemma_skip_blank_back(s, f, to, lb);
}

// ---------------------------------------------------------------------------
// Scheme detection
pub open spec fn sip_scheme() -> Seq<u8> {
    seq![0x73u8, 0x69u8, 0x70u8]
}

pub open spec fn sips_scheme() -> Seq<u8> {
    seq![0x73u8, 0x69u8, 0x70u8, 0x73u8]
}

pub open spec fn tel_scheme() -> Seq<u8> {
    seq![0x74u8, 0x65u8, 0x6cu8]
}

/// ASCII case-insensitive match of a byte against a lowercase letter.
pub open spec fn ci_eq(b: u8, lower: u8) -> bool {
    b == lower || b as int == lower as int - 32
}

/// The scheme named at the start of `[from, to)` and the offset past its
/// `:`; inputs without a recognised scheme are read as `sip` with nothing
/// consumed.
pub open spec fn scheme_prefix(s: Seq<u8>, from: int, to: int) -> (Seq<u8>, int) {
    let size = to - from;
    if size >= 5 && ci_eq(s[from], 0x73) && ci_eq(s[from + 1], 0x69) && ci_eq(s[from + 2], 0x70)
        && ci_eq(s[from + 3], 0x73) && s[from + 4] == COLON {
        (sips_scheme(), from + 5)
    } else if size >= 4 && ci_eq(s[from], 0x73) && ci_eq(s[from + 1], 0x69) && ci_eq(
        s[from + 2],
        0x70,
    ) && s[from + 3] == COLON {
        (sip_scheme(), from + 4)
    } else if size >= 4 && ci_eq(s[from], 0x74) && ci_eq(s[from + 1], 0x65) && ci_eq(
        s[from + 2],
        0x6c,
    ) && s[from + 3] == COLON {
        (tel_scheme(), from + 4)
    } else {
        (sip_scheme(), from)
    }
}

fn ieq_byte(b: u8, lower: u8) -> (r: bool)
    requires
        lower >= 32,
    ensures
        r == ci_eq(b, lower),
{
    b == lower || b == lower - 32
}

pub fn lit_sip() -> (r: &'static str)
    ensures
        r.spec_bytes() == sip_scheme(),
{
    let r = "sip";
    proof {
        reveal_strlit("sip");
        is_ascii_chars_encode_utf8(r@);
        assert(r.spec_bytes() =~= sip_scheme());
    }
    r
}

pub fn lit_sips() -> (r: &'static str)
    ensures
        r.spec_bytes() == sips_scheme(),
{
    let r = "sips";
    proof {
        reveal_strlit("sips");
        is_ascii_chars_encode_utf8(r@);
        assert(r.spec_bytes() =~= sips_scheme());
    }
    r
}

pub fn lit_tel() -> (r: &'static str)
    ensures
        r.spec_bytes() == tel_scheme(),
{
    let r = "tel";
    proof {
        reveal_strlit("tel");
        is_ascii_chars_encode_utf8(r@);
        assert(r.spec_bytes() =~= tel_scheme());
    }
    r
}

/// Detect the URI scheme prefix. Returns the scheme literal and the byte
/// offset past the `:` separator.
pub fn detect_scheme(src: &[u8], from: usize, to: usize) -> (r: (&'static str, usize))
    requires
        from <= to <= src@.len(),
    ensures
        r.0.spec_bytes() == scheme_prefix(src@, from as int, to as int).0,
        r.1 as int == scheme_prefix(src@, from as int, to as int).1,
{
    let size = to - from;
    if size >= 5 && ieq_byte(src[from], 0x73) && ieq_byte(src[from + 1], 0x69) && ieq_byte(
        src[from + 2],
        0x70,
    ) && ieq_byte(src[from + 3], 0x73) && src[from + 4] == COLON {
        (lit_sips(), from + 5)
    } else if size >= 4 && ieq_byte(src[from], 0x73) && ieq_byte(src[from + 1], 0x69) && ieq_byte(
        src[from + 2],
        0x70,
    ) && src[from + 3] == COLON {
        (lit_sip(), from + 4)
    } else if size >= 4 && ieq_byte(src[from], 0x74) && ieq_byte(src[from + 1], 0x65) && ieq_byte(
        src[from + 2],
        0x6c,
    ) && src[from + 3] == COLON {
        (lit_tel(), from + 4)
    } else {
        (lit_sip(), from)
    }
}

// ---------------------------------------------------------------------------
// Numbers
pub open spec fn is_digit(b: u8) -> bool {
    0x30 <= b <= 0x39
}

pub open spec fn all_digits(s: Seq<u8>, from: int, to: int) -> bool {
    forall|i: int| from <= i < to ==> is_digit(#[trigger] s[i])
}

/// Decimal value of the bytes in `[from, to)`, each read as `byte - '0'`.
pub open spec fn dec_value(s: Seq<u8>, from: int, to: int) -> int
    decreases to - from,
{
    if to <= from {
        0
    } else {
        dec_value(s, from, to - 1) * 10 + (s[to - 1] - 0x30)
    }
}

/// A port-sized decimal: the value when it fits in `u16`.
pub open spec fn u16_of_digits(s: Seq<u8>, from: int, to: int) -> Option<u16> {
    if dec_value(s, from, to) <= 0xffff {
        Some(dec_value(s, from, to) as u16)
    } else {
        None
    }
}

pub proof fn lemma_dec_value_mono(s: Seq<u8>, from: int, mid: int, to: int)
    requires
        from <= mid <= to,
        forall|i: int| from <= i < to ==> #[trigger] s[i] >= 0x30,
    ensures
        0 <= dec_value(s, from, mid) <= dec_value(s, from, to),
    decreases to - mid,
{
    if mid < to {
        lemma_dec_value_mono(s, from, mid, to - 1);
    } else {
        lemma_dec_value_nonneg(s, from, to);
    }
}

pub proof fn lemma_all_digits_mono(s: Seq<u8>, from: int, mid: int, to: int)
    requires
        from <= mid <= to,
        all_digits(s, from, to),
    ensures
        0 <= dec_value(s, from, mid) <= dec_value(s, from, to),
{
    assert forall|i: int| from <= i < to implies #[trigger] s[i] >= 0x30 by {
        assert(is_digit(s[i]));
    }
    lemma_dec_value_mono(s, from, mid, to);
}

pub proof fn lemma_dec_value_nonneg(s: Seq<u8>, from: int, to: int)
    requires
        forall|i: int| from <= i < to ==> #[trigger] s[i] >= 0x30,
    ensures
        0 <= dec_value(s, from, to),
    decreases to - from,
{
    if to > from {
        lemma_dec_value_nonneg(s, from, to - 1);
    }
}

/// True when `[from, to)` is non-empty and holds only ASCII digits.
pub fn digits_only(src: &[u8], from: usize, to: usize) -> (r: bool)
    requires
        from < to ==> to <= src@.len(),
    ensures
        r == (from < to && all_digits(src@, from as int, to as int)),
{
    if from >= to {
        return false;
    }
    let mut j = from;
    while j < to
        invariant
            from <= j <= to <= src@.len(),
            all_digits(src@, from as int, j as int),
        decreases to - j,
    {
        let b = src[j];
        if !(0x30 <= b && b <= 0x39) {
            return false;
        }
        j += 1;
    }
    true
}

/// Decimal value of `[from, to)` when it fits in `u16`.
pub fn parse_u16(src: &[u8], from: usize, to: usize) -> (r: Option<u16>)
    requires
        from < to ==> to <= src@.len(),
        forall|i: int| from <= i < to ==> #[trigger] src@[i] >= 0x30,
    ensures
        r == u16_of_digits(src@, from as int, to as int),
{
    let mut n: u32 = 0;
    let mut j = from;
    while j < to
        invariant
            from <= j,
            from < to ==> j <= to <= src@.len(),
            from >= to ==> j == from,
            forall|i: int| from <= i < to ==> #[trigger] src@[i] >= 0x30,
            n as int == dec_value(src@, from as int, j as int),
            n <= 0xffff,
        decreases to - j,
    {
        n = n * 10 + (src[j] - 0x30) as u32;
        if n > 0xffff {
            proof {
                lemma_dec_value_mono(src@, from as int, j + 1, to as int);
            }
            return None;
        }
        j += 1;
    }
    Some(n as u16)
}

pub open spec fn is_hex(b: u8) -> bool {
    (0x30 <= b <= 0x39) || (0x41 <= b <= 0x46) || (0x61 <= b <= 0x66)
}

pub open spec fn hex_val(b: u8) -> int {
    if 0x30 <= b <= 0x39 {
        b - 0x30
    } else if 0x41 <= b <= 0x46 {
        b - 0x41 + 10
    } else if 0x61 <= b <= 0x66 {
        b - 0x61 + 10
    } else {
        -1
    }
}

fn hex_value(b: u8) -> (r: i16)
    ensures
        r == hex_val(b),
{
    if 0x30 <= b && b <= 0x39 {
        (b - 0x30) as i16
    } else if 0x41 <= b && b <= 0x46 {
        (b - 0x41 + 10) as i16
    } else if 0x61 <= b && b <= 0x66 {
        (b - 0x61 + 10) as i16
    } else {
        -1
    }
}

// ---------------------------------------------------------------------------
// Slicing, lowercasing, pct-decoding
pub open spec fn ascii_lower(b: u8) -> u8 {
    if 0x41 <= b <= 0x5a {
        (b + 32) as u8
    } else {
        b
    }
}

pub open spec fn ascii_upper(b: u8) -> u8 {
    if 0x61 <= b <= 0x7a {
        (b - 32) as u8
    } else {
        b
    }
}

pub open spec fn lower_map() -> spec_fn(u8) -> Seq<u8> {
    |b: u8| seq![ascii_lower(b)]
}

pub open spec fn upper_map() -> spec_fn(u8) -> Seq<u8> {
    |b: u8| seq![ascii_upper(b)]
}

/// ASCII lowercase of a byte sequence.
pub open spec fn lower_bytes(s: Seq<u8>) -> Seq<u8> {
    flat_map_bytes(s, lower_map())
}

/// ASCII uppercase of a byte sequence.
pub open spec fn upper_bytes(s: Seq<u8>) -> Seq<u8> {
    flat_map_bytes(s, upper_map())
}

pub proof fn lemma_case_maps_ascii()
    ensures
        ascii_rewrite(lower_map()),
        ascii_rewrite(upper_map()),
{
    assert forall|b: u8| b < 0x80 implies all_ascii(#[trigger] lower_map()(b)) by {
        assert(lower_map()(b)[0] == ascii_lower(b));
    }
    assert forall|b: u8| b < 0x80 implies all_ascii(#[trigger] upper_map()(b)) by {
        assert(upper_map()(b)[0] == ascii_upper(b));
    }
}

/// The result of pct-decoding `[j, to)`: `%XX` with two hex digits becomes
/// the byte `0xXX`, every other byte is kept.
pub open spec fn pct_bytes(s: Seq<u8>, j: int, to: int) -> Seq<u8>
    decreases to - j,
{
    if j >= to {
        Seq::empty()
    } else if s[j] == PCT && j + 2 < to && is_hex(s[j + 1]) && is_hex(s[j + 2]) {
        seq![(hex_val(s[j + 1]) * 16 + hex_val(s[j + 2])) as u8] + pct_bytes(s, j + 3, to)
    } else {
        seq![s[j]] + pct_bytes(s, j + 1, to)
    }
}

pub proof fn lemma_pct_bytes_plain(s: Seq<u8>, j: int, k: int, to: int)
    requires
        0 <= j <= k <= to <= s.len(),
        !has_byte(s, PCT, j, k),
    ensures
        pct_bytes(s, j, to) == s.subrange(j, k) + pct_bytes(s, k, to),
    decreases k - j,
{
    if j < k {
        assert(s[j] != PCT);
        assert(!has_byte(s, PCT, j + 1, k)) by {
            if has_byte(s, PCT, j + 1, k) {
                let i = choose|i: int| j + 1 <= i < k && s[i] == PCT;
                assert(j <= i < k && s[i] == PCT);
            }
        }
        lemma_pct_bytes_plain(s, j + 1, k, to);
        assert(s.subrange(j, k) =~= seq![s[j]] + s.subrange(j + 1, k));
    } else {
        assert(s.subrange(j, k) =~= Seq::<u8>::empty());
    }
}

/// Copy `input[from..to]`; the caller names character boundaries.
pub fn slice_str(input: &str, from: usize, to: usize) -> (r: String)
    requires
        from <= to <= input.spec_bytes().len(),
        is_cut(input.spec_bytes(), from as int),
        is_cut(input.spec_bytes(), to as int),
    ensures
        sbytes(r@) == input.spec_bytes().subrange(from as int, to as int),
{
    let src = input.as_bytes();
    proof {
        lemma_str_valid(input);
        lemma_cut_slice_valid(src@, from as int, to as int);
    }
    string_of_valid(copy_range(src, from, to))
}

/// Bytes of `src[from..to]`, ASCII-lowercased.
pub fn lower_range(src: &[u8], from: usize, to: usize) -> (r: Vec<u8>)
    requires
        from <= to <= src@.len(),
    ensures
        r@ == lower_bytes(src@.subrange(from as int, to as int)),
{
    let mut out: Vec<u8> = Vec::with_capacity(to - from);
    let mut j = from;
    proof {
        assert(src@.subrange(from as int, from as int) =~= Seq::<u8>::empty());
    }
    while j < to
        invariant
            from <= j <= to <= src@.len(),
            out@ == lower_bytes(src@.subrange(from as int, j as int)),
        decreases to - j,
    {
        let b = src[j];
        let l = if 0x41 <= b && b <= 0x5a {
            b + 32
        } else {
            b
        };
        out.push(l);
        proof {
            lemma_flat_map_push(src@, from as int, j as int, lower_map());
            assert(lower_map()(b) == seq![l]);
        }
        j += 1;
    }
    out
}

/// Bytes of `src[from..to]`, ASCII-uppercased.
pub fn upper_range(src: &[u8], from: usize, to: usize) -> (r: Vec<u8>)
    requires
        from <= to <= src@.len(),
    ensures
        r@ == upper_bytes(src@.subrange(from as int, to as int)),
{
    let mut out: Vec<u8> = Vec::with_capacity(to - from);
    let mut j = from;
    proof {
        assert(src@.subrange(from as int, from as int) =~= Seq::<u8>::empty());
    }
    while j < to
        invariant
            from <= j <= to <= src@.len(),
            out@ == upper_bytes(src@.subrange(from as int, j as int)),
        decreases to - j,
    {
        let b = src[j];
        let u = if 0x61 <= b && b <= 0x7a {
            b - 32
        } else {
            b
        };
        out.push(u);
        proof {
            lemma_flat_map_push(src@, from as int, j as int, upper_map());
            assert(upper_map()(b) == seq![u]);
        }
        j += 1;
    }
    out
}

/// ASCII-lowercase the slice `input[from..to]`.
pub fn downcase_str(input: &str, from: usize, to: usize) -> (r: String)
    requires
        from <= to <= input.spec_bytes().len(),
        is_cut(input.spec_bytes(), from as int),
        is_cut(input.spec_bytes(), to as int),
    ensures
        sbytes(r@) == lower_bytes(input.spec_bytes().subrange(from as int, to as int)),
{
    let src = input.as_bytes();
    proof {
        lemma_str_valid(input);
        lemma_cut_slice_valid(src@, from as int, to as int);
        lemma_case_maps_ascii();
        lemma_flat_map_valid(src@.subrange(from as int, to as int), lower_map());
    }
    string_of_valid(lower_range(src, from, to))
}

/// pct-decode the bytes of `src[from..to]`.
pub fn pct_decode_bytes(src: &[u8], from: usize, to: usize) -> (r: Vec<u8>)
    requires
        from <= to <= src@.len(),
    ensures
        r@ == pct_bytes(src@, from as int, to as int),
{
    let mut out: Vec<u8> = Vec::with_capacity(to - from);
    let mut j = from;
    proof {
        assert(out@ + pct_bytes(src@, from as int, to as int) =~= pct_bytes(
            src@,
            from as int,
            to as int,
        ));
    }
    while j < to
        invariant
            from <= j <= to <= src@.len(),
            out@ + pct_bytes(src@, j as int, to as int) == pct_bytes(src@, from as int, to as int),
        decreases to - j,
    {
        let b = src[j];
        if b == PCT && to - j > 2 {
            let h1 = hex_value(src[j + 1]);
            let h2 = hex_value(src[j + 2]);
            if h1 >= 0 && h2 >= 0 {
                let v = (h1 * 16 + h2) as u8;
                proof {
                    assert(out@.push(v) + pct_bytes(src@, j + 3, to as int) =~= out@ + pct_bytes(
                        src@,
                        j as int,
                        to as int,
                    ));
                }
                out.push(v);
                j += 3;
                continue;
            }
        }
        proof {
            assert(out@.push(b) + pct_bytes(src@, j + 1, to as int) =~= out@ + pct_bytes(
                src@,
                j as int,
                to as int,
            ));
        }
        out.push(b);
        j += 1;
    }
    proof {
        assert(out@ + Seq::<u8>::empty() =~= out@);
    }
    out
}

/// pct-decode `input[from..to]`. The result may hold arbitrary bytes, so it
/// is validated: invalid UTF-8 is `InvalidUtf8`. Without any `%` the range is
/// copied directly, which needs character boundaries.
pub fn pct_decode(input: &str, from: usize, to: usize) -> (r: Result<String, ParseError>)
    requires
        from <= to <= input.spec_bytes().len(),
        has_byte(input.spec_bytes(), PCT, from as int, to as int) || (is_cut(
            input.spec_bytes(),
            from as int,
        ) && is_cut(input.spec_bytes(), to as int)),
    ensures
        r is Ok <==> valid_utf8(pct_bytes(input.spec_bytes(), from as int, to as int)),
        r matches Ok(s) ==> sbytes(s@) == pct_bytes(input.spec_bytes(), from as int, to as int),
        r matches Err(e) ==> e == ParseError::InvalidUtf8,
{
    let src = input.as_bytes();
    let found = find_in(src, PCT, from, to);
    proof {
        lemma_find_byte(src@, PCT, from as int, to as int);
    }
    if found.is_none() {
        proof {
            lemma_pct_bytes_plain(src@, from as int, to as int, to as int);
            assert(src@.subrange(from as int, to as int) + Seq::<u8>::empty() =~= src@.subrange(
                from as int,
                to as int,
            ));
            lemma_str_valid(input);
            lemma_cut_slice_valid(src@, from as int, to as int);
        }
        return Ok(slice_str(input, from, to));
    }
    match string_from_bytes(pct_decode_bytes(src, from, to)) {
        Some(s) => Ok(s),
        None => Err(ParseError::InvalidUtf8),
    }
}

} // verus!
