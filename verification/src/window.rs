//! A parse of `[from, to)` reads only the bytes in that range: parsing a
//! range of a larger input gives what parsing that slice alone gives.
//!
//! Each spec function that reads a range is shown to give the same answer on
//! a window `t = s[o..e]` of `s`, its positions moved by `o`.
use vstd::prelude::*;

use crate::scan::{
    all_digits, dec_value, find_byte, lemma_find_byte, lemma_rfind_byte, lemma_trim_range,
    pct_bytes, rfind_byte, scheme_prefix, skip_blank, skip_blank_back, trim_range, u16_of_digits,
    AT, COLON, EQ_, QMARK, RBRACKET, SEMI,
};
use crate::uri::{
    fold_segments, header_entry, host_port_spec, param_entry, pct_field, segment_end, uri_of_bytes,
    uri_spec, userinfo_spec, Pairs, SegmentKind,
};

verus! {

broadcast use vstd::seq_lib::group_seq_properties;

/// A position found in the window, as a position of the whole input.
pub open spec fn moved(r: Option<int>, o: int) -> Option<int> {
    match r {
        Some(i) => Some(i + o),
        None => None,
    }
}

/// `t` is the window `s[o..e]`.
pub open spec fn window(s: Seq<u8>, t: Seq<u8>, o: int, e: int) -> bool {
    0 <= o <= e <= s.len() && t == s.subrange(o, e)
}

pub proof fn lemma_window_at(s: Seq<u8>, t: Seq<u8>, o: int, e: int)
    requires
        window(s, t, o, e),
    ensures
        t.len() == e - o,
        forall|i: int| o <= i < e ==> #[trigger] s[i] == t[i - o],
{
    assert forall|i: int| o <= i < e implies #[trigger] s[i] == t[i - o] by {
        assert(t[i - o] == s.subrange(o, e)[i - o]);
    }
}

pub proof fn lemma_find_window(s: Seq<u8>, t: Seq<u8>, o: int, e: int, b: u8, from: int, to: int)
    requires
        window(s, t, o, e),
        o <= from,
        to <= e,
    ensures
        find_byte(s, b, from, to) == moved(find_byte(t, b, from - o, to - o), o),
    decreases to - from,
{
    lemma_window_at(s, t, o, e);
    if from < to {
        assert(s[from] == t[from - o]);
        lemma_find_window(s, t, o, e, b, from + 1, to);
    }
}

pub proof fn lemma_rfind_window(s: Seq<u8>, t: Seq<u8>, o: int, e: int, b: u8, from: int, to: int)
    requires
        window(s, t, o, e),
        o <= from,
        to <= e,
    ensures
        rfind_byte(s, b, from, to) == moved(rfind_byte(t, b, from - o, to - o), o),
    decreases to - from,
{
    lemma_window_at(s, t, o, e);
    if from < to {
        assert(s[to - 1] == t[to - 1 - o]);
        lemma_rfind_window(s, t, o, e, b, from, to - 1);
    }
}

pub proof fn lemma_skip_window(s: Seq<u8>, t: Seq<u8>, o: int, e: int, from: int, to: int, lb: bool)
    requires
        window(s, t, o, e),
        o <= from,
        to <= e,
    ensures
        skip_blank(s, from, to, lb) == skip_blank(t, from - o, to - o, lb) + o,
    decreases to - from,
{
    lemma_window_at(s, t, o, e);
    if from < to {
        assert(s[from] == t[from - o]);
        lemma_skip_window(s, t, o, e, from + 1, to, lb);
    }
}

pub proof fn lemma_skip_back_window(
    s: Seq<u8>,
    t: Seq<u8>,
    o: int,
    e: int,
    from: int,
    to: int,
    lb: bool,
)
    requires
        window(s, t, o, e),
        o <= from,
        to <= e,
    ensures
        skip_blank_back(s, from, to, lb) == skip_blank_back(t, from - o, to - o, lb) + o,
    decreases to - from,
{
    lemma_window_at(s, t, o, e);
    if to > from {
        assert(s[to - 1] == t[to - 1 - o]);
        lemma_skip_back_window(s, t, o, e, from, to - 1, lb);
    }
}

pub proof fn lemma_trim_window(s: Seq<u8>, t: Seq<u8>, o: int, e: int, from: int, to: int, lb: bool)
    requires
        window(s, t, o, e),
        o <= from <= to <= e,
    ensures
        trim_range(s, from, to, lb).0 == trim_range(t, from - o, to - o, lb).0 + o,
        trim_range(s, from, to, lb).1 == trim_range(t, from - o, to - o, lb).1 + o,
{
    lemma_skip_window(s, t, o, e, from, to, lb);
    crate::scan::lemma_skip_blank(s, from, to, lb);
    let f = skip_blank(s, from, to, lb);
    lemma_skip_back_window(s, t, o, e, f, to, lb);
}

pub proof fn lemma_sub_window(s: Seq<u8>, t: Seq<u8>, o: int, e: int, x: int, y: int)
    requires
        window(s, t, o, e),
        o <= x <= y <= e,
    ensures
        s.subrange(x, y) == t.subrange(x - o, y - o),
{
    lemma_window_at(s, t, o, e);
    assert(s.subrange(x, y) =~= t.subrange(x - o, y - o)) by {
        assert forall|i: int| 0 <= i < y - x implies s.subrange(x, y)[i] == t.subrange(
            x - o,
            y - o,
        )[i] by {
            assert(s[x + i] == t[x + i - o]);
        }
    }
}

pub proof fn lemma_digits_window(s: Seq<u8>, t: Seq<u8>, o: int, e: int, from: int, to: int)
    requires
        window(s, t, o, e),
        o <= from,
        to <= e,
    ensures
        all_digits(s, from, to) == all_digits(t, from - o, to - o),
        dec_value(s, from, to) == dec_value(t, from - o, to - o),
        u16_of_digits(s, from, to) == u16_of_digits(t, from - o, to - o),
    decreases to - from,
{
    lemma_window_at(s, t, o, e);
    if from < to {
        lemma_digits_window(s, t, o, e, from, to - 1);
        assert(s[to - 1] == t[to - 1 - o]);
    }
    if all_digits(s, from, to) {
        assert forall|i: int| from - o <= i < to - o implies crate::scan::is_digit(#[trigger] t[i]) by {
            assert(s[i + o] == t[i + o - o]);
            assert(crate::scan::is_digit(s[i + o]));
        }
    }
    if all_digits(t, from - o, to - o) {
        assert forall|i: int| from <= i < to implies crate::scan::is_digit(#[trigger] s[i]) by {
            assert(crate::scan::is_digit(t[i - o]));
        }
    }
}

pub proof fn lemma_pct_window(s: Seq<u8>, t: Seq<u8>, o: int, e: int, j: int, to: int)
    requires
        window(s, t, o, e),
        o <= j,
        to <= e,
    ensures
        pct_bytes(s, j, to) == pct_bytes(t, j - o, to - o),
    decreases to - j,
{
    lemma_window_at(s, t, o, e);
    if j < to {
        assert(s[j] == t[j - o]);
        if j + 2 < to {
            assert(s[j + 1] == t[j + 1 - o]);
            assert(s[j + 2] == t[j + 2 - o]);
            lemma_pct_window(s, t, o, e, j + 3, to);
        }
        lemma_pct_window(s, t, o, e, j + 1, to);
    }
}

pub proof fn lemma_scheme_window(s: Seq<u8>, t: Seq<u8>, o: int, e: int, from: int, to: int)
    requires
        window(s, t, o, e),
        o <= from <= to <= e,
    ensures
        scheme_prefix(s, from, to).0 == scheme_prefix(t, from - o, to - o).0,
        scheme_prefix(s, from, to).1 == scheme_prefix(t, from - o, to - o).1 + o,
{
    lemma_window_at(s, t, o, e);
    if to - from >= 4 {
        assert(s[from] == t[from - o]);
        assert(s[from + 1] == t[from + 1 - o]);
        assert(s[from + 2] == t[from + 2 - o]);
        assert(s[from + 3] == t[from + 3 - o]);
    }
    if to - from >= 5 {
        assert(s[from + 4] == t[from + 4 - o]);
    }
}

pub proof fn lemma_pct_field_window(s: Seq<u8>, w: Seq<u8>, o: int, e: int, a: int, b: int)
    requires
        window(s, w, o, e),
        o <= a,
        b <= e,
    ensures
        pct_field(s, a, b) == pct_field(w, a - o, b - o),
{
    lemma_pct_window(s, w, o, e, a, b);
}

pub proof fn lemma_segment_end_window(
    s: Seq<u8>,
    w: Seq<u8>,
    o: int,
    e: int,
    sep: u8,
    start: int,
    end: int,
)
    requires
        window(s, w, o, e),
        o <= start,
        end <= e,
    ensures
        segment_end(s, sep, start, end) == segment_end(w, sep, start - o, end - o) + o,
{
    lemma_find_window(s, w, o, e, sep, start, end);
}

/// The key range of an entry: the trimmed range before the first `=`.
pub proof fn lemma_entry_ranges_window(s: Seq<u8>, w: Seq<u8>, o: int, e: int, a: int, b: int)
    requires
        window(s, w, o, e),
        o <= a <= b <= e,
    ensures
        ({
            let (f, t) = trim_range(s, a, b, true);
            let (fw, tw) = trim_range(w, a - o, b - o, true);
            &&& f == fw + o && t == tw + o
            &&& a <= f <= t <= b
            &&& find_byte(s, EQ_, f, t) == moved(find_byte(w, EQ_, fw, tw), o)
            &&& (find_byte(s, EQ_, f, t) matches Some(x) ==> {
                &&& f <= x < t
                &&& trim_range(s, f, x, true).0 == trim_range(w, fw, x - o, true).0 + o
                &&& trim_range(s, f, x, true).1 == trim_range(w, fw, x - o, true).1 + o
                &&& f <= trim_range(s, f, x, true).0 <= trim_range(s, f, x, true).1 <= x
            })
        }),
{
    lemma_trim_window(s, w, o, e, a, b, true);
    lemma_trim_range(s, a, b, true);
    let (f, t) = trim_range(s, a, b, true);
    lemma_find_window(s, w, o, e, EQ_, f, t);
    lemma_find_byte(s, EQ_, f, t);
    if let Some(x) = find_byte(s, EQ_, f, t) {
        lemma_trim_window(s, w, o, e, f, x, true);
        lemma_trim_range(s, f, x, true);
    }
}

pub proof fn lemma_param_entry_window(s: Seq<u8>, w: Seq<u8>, o: int, e: int, a: int, b: int)
    requires
        window(s, w, o, e),
        o <= a <= b <= e,
    ensures
        param_entry(s, a, b) == param_entry(w, a - o, b - o),
{
    reveal(param_entry);
    lemma_entry_ranges_window(s, w, o, e, a, b);
    let (f, t) = trim_range(s, a, b, true);
    match find_byte(s, EQ_, f, t) {
        Some(x) => {
            let (kf, kt) = trim_range(s, f, x, true);
            lemma_sub_window(s, w, o, e, kf, kt);
            lemma_sub_window(s, w, o, e, x + 1, t);
        },
        None => {
            lemma_sub_window(s, w, o, e, f, t);
        },
    }
}

pub proof fn lemma_header_entry_window(s: Seq<u8>, w: Seq<u8>, o: int, e: int, a: int, b: int)
    requires
        window(s, w, o, e),
        o <= a <= b <= e,
    ensures
        header_entry(s, a, b) == header_entry(w, a - o, b - o),
{
    reveal(header_entry);
    lemma_entry_ranges_window(s, w, o, e, a, b);
    let (f, t) = trim_range(s, a, b, true);
    match find_byte(s, EQ_, f, t) {
        Some(x) => {
            let (kf, kt) = trim_range(s, f, x, true);
            lemma_pct_field_window(s, w, o, e, kf, kt);
            lemma_pct_field_window(s, w, o, e, x + 1, t);
        },
        None => {
            lemma_pct_field_window(s, w, o, e, f, t);
        },
    }
}

#[verifier::spinoff_prover]
#[verifier::rlimit(30)]
pub proof fn lemma_fold_window(
    s: Seq<u8>,
    w: Seq<u8>,
    o: int,
    e: int,
    start: int,
    end: int,
    sep: u8,
    kind: SegmentKind,
    acc: Pairs,
)
    requires
        window(s, w, o, e),
        o <= start <= end <= e,
    ensures
        fold_segments(s, start, end, sep, kind, acc) == fold_segments(
            w,
            start - o,
            end - o,
            sep,
            kind,
            acc,
        ),
    decreases end - start,
{
    reveal(fold_segments);
    lemma_window_at(s, w, o, e);
    lemma_segment_end_window(s, w, o, e, sep, start, end);
    crate::uri::lemma_segment_end(s, sep, start, end);
    let seg_end = segment_end(s, sep, start, end);
    match kind {
        SegmentKind::Param => lemma_param_entry_window(s, w, o, e, start, seg_end),
        SegmentKind::Header => lemma_header_entry_window(s, w, o, e, start, seg_end),
    }
    if seg_end < end {
        let entry = crate::uri::segment_entry(kind, s, start, seg_end);
        if let Ok(en) = entry {
            let acc2 = match en {
                Some((k, v)) => crate::uri::upsert(acc, k, v),
                None => acc,
            };
            lemma_fold_window(s, w, o, e, seg_end + 1, end, sep, kind, acc2);
        }
    }
}

pub proof fn lemma_userinfo_window(s: Seq<u8>, w: Seq<u8>, o: int, e: int, f: int, he: int)
    requires
        window(s, w, o, e),
        o <= f <= he <= e,
    ensures
        match (userinfo_spec(s, f, he), userinfo_spec(w, f - o, he - o)) {
            (Ok((u, p, h)), Ok((uw, pw, hw))) => u == uw && p == pw && h == hw + o,
            (Err(x), Err(y)) => x == y,
            _ => false,
        },
{
    reveal(userinfo_spec);
    lemma_rfind_window(s, w, o, e, AT, f, he);
    lemma_rfind_byte(s, AT, f, he);
    if let Some(at) = rfind_byte(s, AT, f, he) {
        lemma_find_window(s, w, o, e, COLON, f, at);
        lemma_find_byte(s, COLON, f, at);
        lemma_pct_field_window(s, w, o, e, f, at);
        if let Some(c) = find_byte(s, COLON, f, at) {
            lemma_pct_field_window(s, w, o, e, f, c);
            lemma_pct_field_window(s, w, o, e, c + 1, at);
        }
    }
}

#[verifier::spinoff_prover]
#[verifier::rlimit(50)]
pub proof fn lemma_host_port_window(s: Seq<u8>, w: Seq<u8>, o: int, e: int, a: int, b: int)
    requires
        window(s, w, o, e),
        o <= a <= b <= e,
    ensures
        host_port_spec(s, a, b) == host_port_spec(w, a - o, b - o),
{
    reveal(host_port_spec);
    lemma_window_at(s, w, o, e);
    lemma_trim_window(s, w, o, e, a, b, true);
    lemma_trim_range(s, a, b, true);
    let (f, t) = trim_range(s, a, b, true);
    lemma_sub_window(s, w, o, e, f, t);
    if f < t {
        assert(s[f] == w[f - o]);
        lemma_find_window(s, w, o, e, RBRACKET, f + 1, t);
        lemma_find_byte(s, RBRACKET, f + 1, t);
        if let Some(c) = find_byte(s, RBRACKET, f + 1, t) {
            lemma_sub_window(s, w, o, e, f + 1, c);
            if c + 1 < t {
                assert(s[c + 1] == w[c + 1 - o]);
            }
            lemma_digits_window(s, w, o, e, c + 2, t);
        }
        lemma_rfind_window(s, w, o, e, COLON, f, t);
        lemma_rfind_byte(s, COLON, f, t);
        if let Some(lc) = rfind_byte(s, COLON, f, t) {
            lemma_sub_window(s, w, o, e, f, lc);
            lemma_digits_window(s, w, o, e, lc + 1, t);
        }
    }
}

/// A URI parse of `[from, to)` gives the same model on any window holding
/// that range.
#[verifier::spinoff_prover]
#[verifier::rlimit(50)]
pub proof fn lemma_uri_spec_window(s: Seq<u8>, w: Seq<u8>, o: int, e: int, from: int, to: int)
    requires
        window(s, w, o, e),
        o <= from <= to <= e,
    ensures
        uri_spec(s, from, to) == uri_spec(w, from - o, to - o),
{
    lemma_scheme_window(s, w, o, e, from, to);
    let (scheme, f) = scheme_prefix(s, from, to);
    assert(from <= f <= to);
    lemma_find_window(s, w, o, e, QMARK, f, to);
    lemma_find_byte(s, QMARK, f, to);
    let q = find_byte(s, QMARK, f, to);
    let body_end = match q {
        Some(i) => i,
        None => to,
    };
    lemma_segment_end_window(s, w, o, e, SEMI, f, body_end);
    crate::uri::lemma_segment_end(s, SEMI, f, body_end);
    let uh_end = segment_end(s, SEMI, f, body_end);
    lemma_userinfo_window(s, w, o, e, f, uh_end);
    if userinfo_spec(s, f, uh_end) is Ok {
        crate::roundtrip::lemma_userinfo_ok(s, f, uh_end);
        let hs = userinfo_spec(s, f, uh_end)->Ok_0.2;
        lemma_host_port_window(s, w, o, e, hs, uh_end);
    }
    if uh_end < body_end {
        lemma_fold_window(
            s,
            w,
            o,
            e,
            uh_end + 1,
            body_end,
            SEMI,
            SegmentKind::Param,
            Seq::empty(),
        );
    }
    if let Some(i) = q {
        lemma_fold_window(s, w, o, e, i + 1, to, crate::scan::AMP, SegmentKind::Header, Seq::empty());
    }
}

/// `Uri::parse_range(input, from, to)` reads only `input[from..to]`: it
/// gives what a parse of that slice alone gives, which is what `Uri::parse`
/// gives on the slice when the slice has no whitespace at its ends.
pub proof fn parse_range_reads_only_its_range(s: Seq<u8>, from: int, to: int)
    requires
        0 <= from <= to <= s.len(),
    ensures
        uri_spec(s, from, to) == uri_spec(s.subrange(from, to), 0, to - from),
        from < to && !crate::scan::ws_byte(s[from]) && !crate::scan::ws_byte(s[to - 1])
            ==> uri_spec(s, from, to) == uri_of_bytes(s.subrange(from, to)),
{
    let w = s.subrange(from, to);
    lemma_uri_spec_window(s, w, from, to, from, to);
    if from < to && !crate::scan::ws_byte(s[from]) && !crate::scan::ws_byte(s[to - 1]) {
        assert(w[0] == s[from] && w[to - from - 1] == s[to - 1]);
        crate::roundtrip::lemma_trim_id(w, 0, to - from);
    }
}

} // verus!
