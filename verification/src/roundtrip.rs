//! Serialising a parsed URI or Address and parsing the text again gives the
//! same value back, its URI parameters as written: they are escaped on the
//! way out and not decoded on the way in. From then on, writing and parsing
//! is a fixed point.
//!
//! The proof has two halves. Every model that a parse produces is
//! *canonical* (`uri_canonical`, `address_canonical`): its parameter keys are
//! lowercase, unique and free of the bytes that delimit them, its host holds
//! none of the URI's delimiters, and so on. And the text that `render_uri`
//! writes for a canonical model parses back to that model with its
//! parameters escaped (`uri_reparsed`), wherever in a larger input it stands.
use vstd::prelude::*;
use vstd::utf8::valid_utf8;

use crate::scan::{
    all_digits, ascii_lower, blank, dec_value, find_byte, has_byte, hex_val, is_digit, is_hex,
    lemma_find_byte, lemma_rfind_byte, lemma_trim_range, lower_bytes, lower_map, pct_bytes,
    rfind_byte, scheme_prefix, sip_scheme, sips_scheme, skip_blank, skip_blank_back, tel_scheme,
    trim_range, ws_byte, AMP, AT, COLON, DQUOTE, EQ_, GT, LBRACKET, LT, PCT, QMARK, RBRACKET, SEMI,
    SP,
};
use crate::address::{
    address_spec, bare_entry, bare_spec, display_spec, display_unterminated, fold_bare,
    is_address_param, render_address, AddressModel,
};
use crate::uri::{
    aor_bytes,    bracket_host_bytes, dec_digits, escape, escape_map, escape_params, first_key, fold_segments,
    header_entry, header_item, header_list, headers_part, hex_digit_lower, hex_digit_upper,
    host_byte_ok, host_ok, host_port_spec, lemma_first_key, needs_escape, opt_valid, param_entry,
    param_escape, param_escape_map, param_needs_escape, param_part, params_part, pct3, pct3_lower,
    pct_field, port_part, render_uri, segment_end, upsert, uri_of_bytes, uri_spec, userinfo_part,
    userinfo_spec, Pairs, SegmentKind, UriModel,
};

verus! {

broadcast use vstd::seq_lib::group_seq_properties;

// ---------------------------------------------------------------------------
// Bytes placed in a larger input
/// `x` stands in `s` from position `a` on.
pub open spec fn placed(s: Seq<u8>, a: int, x: Seq<u8>) -> bool {
    0 <= a && a + x.len() <= s.len() && s.subrange(a, a + x.len()) == x
}

/// `x` holds no byte `b`.
pub open spec fn no_byte(x: Seq<u8>, b: u8) -> bool {
    forall|i: int| 0 <= i < x.len() ==> #[trigger] x[i] != b
}

pub proof fn lemma_placed_at(s: Seq<u8>, a: int, x: Seq<u8>)
    requires
        placed(s, a, x),
    ensures
        forall|i: int| 0 <= i < x.len() ==> #[trigger] s[a + i] == x[i],
{
    assert forall|i: int| 0 <= i < x.len() implies #[trigger] s[a + i] == x[i] by {
        assert(s.subrange(a, a + x.len())[i] == s[a + i]);
    }
}

pub proof fn lemma_placed_split(s: Seq<u8>, a: int, x: Seq<u8>, y: Seq<u8>)
    requires
        placed(s, a, x + y),
    ensures
        placed(s, a, x),
        placed(s, a + x.len(), y),
{
    lemma_placed_at(s, a, x + y);
    assert(s.subrange(a, a + x.len()) =~= x) by {
        assert forall|i: int| 0 <= i < x.len() implies s.subrange(a, a + x.len())[i] == x[i] by {
            assert((x + y)[i] == x[i]);
            assert(s[a + i] == (x + y)[i]);
        }
    }
    assert(s.subrange(a + x.len(), a + x.len() + y.len()) =~= y) by {
        assert forall|i: int| 0 <= i < y.len() implies s.subrange(
            a + x.len(),
            a + x.len() + y.len(),
        )[i] == y[i] by {
            assert((x + y)[x.len() + i] == y[i]);
            assert(s[a + (x.len() + i)] == (x + y)[x.len() + i]);
        }
    }
}

/// No byte `b` stands where `x` is placed.
pub proof fn lemma_placed_no_byte(s: Seq<u8>, a: int, x: Seq<u8>, b: u8)
    requires
        placed(s, a, x),
        no_byte(x, b),
    ensures
        !has_byte(s, b, a, a + x.len()),
{
    lemma_placed_at(s, a, x);
    if has_byte(s, b, a, a + x.len()) {
        let i = choose|i: int| a <= i < a + x.len() && s[i] == b;
        assert(s[a + (i - a)] == x[i - a]);
    }
}

pub proof fn lemma_no_byte_concat(x: Seq<u8>, y: Seq<u8>, b: u8)
    requires
        no_byte(x, b),
        no_byte(y, b),
    ensures
        no_byte(x + y, b),
{
    assert forall|i: int| 0 <= i < (x + y).len() implies #[trigger] (x + y)[i] != b by {
        if i < x.len() {
            assert((x + y)[i] == x[i]);
        } else {
            assert((x + y)[i] == y[i - x.len()]);
        }
    }
}

pub proof fn lemma_has_byte_split(s: Seq<u8>, b: u8, a: int, m: int, c: int)
    requires
        a <= m <= c,
        !has_byte(s, b, a, m),
        !has_byte(s, b, m, c),
    ensures
        !has_byte(s, b, a, c),
{
    if has_byte(s, b, a, c) {
        let i = choose|i: int| a <= i < c && s[i] == b;
        if i < m {
            assert(a <= i < m && s[i] == b);
        } else {
            assert(m <= i < c && s[i] == b);
        }
    }
}

// ---------------------------------------------------------------------------
// Searching where the answer is known
pub proof fn lemma_find_is(s: Seq<u8>, b: u8, from: int, k: int, to: int)
    requires
        0 <= from <= k < to <= s.len(),
        s[k] == b,
        !has_byte(s, b, from, k),
    ensures
        find_byte(s, b, from, to) == Some(k),
{
    lemma_find_byte(s, b, from, to);
    assert(from <= k < to && s[k] == b);
    match find_byte(s, b, from, to) {
        Some(i) => {
            if i < k {
                assert(from <= i < k && s[i] == b);
            } else if i > k {
                assert(from <= k < i && s[k] == b);
            }
        },
        None => {},
    }
}

pub proof fn lemma_find_none(s: Seq<u8>, b: u8, from: int, to: int)
    requires
        0 <= from,
        to <= s.len(),
        !has_byte(s, b, from, to),
    ensures
        find_byte(s, b, from, to) is None,
{
    lemma_find_byte(s, b, from, to);
    if let Some(i) = find_byte(s, b, from, to) {
        assert(from <= i < to && s[i] == b);
    }
}

pub proof fn lemma_rfind_is(s: Seq<u8>, b: u8, from: int, k: int, to: int)
    requires
        0 <= from <= k < to <= s.len(),
        s[k] == b,
        !has_byte(s, b, k + 1, to),
    ensures
        rfind_byte(s, b, from, to) == Some(k),
{
    lemma_rfind_byte(s, b, from, to);
    assert(from <= k < to && s[k] == b);
    match rfind_byte(s, b, from, to) {
        Some(i) => {
            if i < k {
                assert(i + 1 <= k < to && s[k] == b);
            } else if i > k {
                assert(k + 1 <= i < to && s[i] == b);
            }
        },
        None => {},
    }
}

pub proof fn lemma_rfind_none(s: Seq<u8>, b: u8, from: int, to: int)
    requires
        0 <= from,
        to <= s.len(),
        !has_byte(s, b, from, to),
    ensures
        rfind_byte(s, b, from, to) is None,
{
    lemma_rfind_byte(s, b, from, to);
    if let Some(i) = rfind_byte(s, b, from, to) {
        assert(from <= i < to && s[i] == b);
    }
}

/// A range whose end bytes are not whitespace is its own trim.
pub proof fn lemma_trim_id(s: Seq<u8>, from: int, to: int)
    requires
        0 <= from <= to <= s.len(),
        from < to ==> !ws_byte(s[from]) && !ws_byte(s[to - 1]),
    ensures
        trim_range(s, from, to, true) == (from, to),
{
    assert(skip_blank(s, from, to, true) == from);
    assert(skip_blank_back(s, from, to, true) == to);
}

// ---------------------------------------------------------------------------
// Escaping and pct-decoding
/// A byte that an escaped field may hold: `%` or a byte that needs no
/// escape.
pub open spec fn escaped_byte_ok(e: u8) -> bool {
    e == PCT || !needs_escape(e)
}

pub proof fn lemma_hex_digit_upper(n: int)
    requires
        0 <= n < 16,
    ensures
        is_hex(hex_digit_upper(n)),
        hex_val(hex_digit_upper(n)) == n,
        !needs_escape(hex_digit_upper(n)),
{
}

pub proof fn lemma_escape_bytes(x: Seq<u8>)
    ensures
        forall|i: int| 0 <= i < escape(x).len() ==> escaped_byte_ok(#[trigger] escape(x)[i]),
        escape(x).len() >= x.len(),
        x.len() > 0 ==> escape(x).len() > 0,
    decreases x.len(),
{
    if x.len() > 0 {
        let head = escape_map()(x[0]);
        let rest = escape(x.drop_first());
        lemma_escape_bytes(x.drop_first());
        assert(escape(x) == head + rest);
        if needs_escape(x[0]) {
            assert(head == pct3(x[0]));
            lemma_hex_digit_upper(x[0] as int / 16);
            lemma_hex_digit_upper(x[0] as int % 16);
        } else {
            assert(head == seq![x[0]]);
        }
        assert forall|i: int| 0 <= i < escape(x).len() implies escaped_byte_ok(
            #[trigger] escape(x)[i],
        ) by {
            if i < head.len() {
                assert(escape(x)[i] == head[i]);
            } else {
                assert(escape(x)[i] == rest[i - head.len()]);
            }
        }
    }
}

/// An escaped field holds none of the bytes that delimit fields.
pub proof fn lemma_escape_no_delims(x: Seq<u8>)
    ensures
        no_byte(escape(x), AT),
        no_byte(escape(x), COLON),
        no_byte(escape(x), SEMI),
        no_byte(escape(x), QMARK),
        no_byte(escape(x), LT),
        no_byte(escape(x), GT),
        no_byte(escape(x), AMP),
        no_byte(escape(x), EQ_),
        forall|i: int| 0 <= i < escape(x).len() ==> !ws_byte(#[trigger] escape(x)[i]),
        x.len() > 0 ==> escape(x).len() > 0,
{
    lemma_escape_bytes(x);
}

/// pct-decoding an escaped field placed in `s` gives the field back.
pub proof fn lemma_pct_of_escape(s: Seq<u8>, a: int, x: Seq<u8>)
    requires
        placed(s, a, escape(x)),
    ensures
        pct_bytes(s, a, a + escape(x).len()) == x,
    decreases x.len(),
{
    let end = a + escape(x).len();
    if x.len() == 0 {
        assert(pct_bytes(s, a, end) =~= x);
    } else {
        let head = escape_map()(x[0]);
        let rest = x.drop_first();
        assert(escape(x) == head + escape(rest));
        lemma_placed_split(s, a, head, escape(rest));
        lemma_placed_at(s, a, head);
        lemma_pct_of_escape(s, a + head.len(), rest);
        if needs_escape(x[0]) {
            assert(head == pct3(x[0]));
            let hi = x[0] as int / 16;
            let lo = x[0] as int % 16;
            lemma_hex_digit_upper(hi);
            lemma_hex_digit_upper(lo);
            assert(s[a + 0] == head[0] && s[a + 1] == head[1] && s[a + 2] == head[2]);
            assert(s[a] == PCT && s[a + 1] == hex_digit_upper(hi) && s[a + 2] == hex_digit_upper(
                lo,
            ));
            assert(hi * 16 + lo == x[0] as int);
            assert(pct_bytes(s, a, end) == seq![x[0]] + pct_bytes(s, a + 3, end));
        } else {
            assert(head == seq![x[0]]);
            assert(s[a + 0] == head[0]);
            assert(s[a] == x[0]);
            assert(x[0] != PCT);
            assert(pct_bytes(s, a, end) == seq![x[0]] + pct_bytes(s, a + 1, end));
        }
        assert(seq![x[0]] + rest =~= x);
    }
}

// ---------------------------------------------------------------------------
// Escaping URI parameters
/// `x` holds no byte that a parameter escape rewrites.
pub open spec fn param_escaped(x: Seq<u8>) -> bool {
    forall|i: int| 0 <= i < x.len() ==> !param_needs_escape(#[trigger] x[i])
}

/// Every byte of `x` is its own ASCII lowercase.
pub open spec fn lower_fixed(x: Seq<u8>) -> bool {
    forall|i: int| 0 <= i < x.len() ==> ascii_lower(#[trigger] x[i]) == x[i]
}

pub proof fn lemma_hex_digit_lower(n: int)
    requires
        0 <= n < 16,
    ensures
        !param_needs_escape(hex_digit_lower(n)),
        ascii_lower(hex_digit_lower(n)) == hex_digit_lower(n),
        !ws_byte(hex_digit_lower(n)),
{
}

pub proof fn lemma_param_escape_bytes(x: Seq<u8>)
    ensures
        param_escaped(param_escape(x)),
        param_escape(x).len() >= x.len(),
        lower_fixed(x) ==> lower_fixed(param_escape(x)),
        x.len() > 0 ==> param_escape(x)[0] == if param_needs_escape(x[0]) {
            PCT
        } else {
            x[0]
        },
    decreases x.len(),
{
    if x.len() > 0 {
        let head = param_escape_map()(x[0]);
        let rest = param_escape(x.drop_first());
        lemma_param_escape_bytes(x.drop_first());
        assert(param_escape(x) == head + rest);
        if param_needs_escape(x[0]) {
            assert(head == pct3_lower(x[0]));
            lemma_hex_digit_lower(x[0] as int / 16);
            lemma_hex_digit_lower(x[0] as int % 16);
        } else {
            assert(head == seq![x[0]]);
        }
        assert(lower_fixed(x) ==> lower_fixed(x.drop_first())) by {
            if lower_fixed(x) {
                assert forall|i: int| 0 <= i < x.drop_first().len() implies ascii_lower(
                    #[trigger] x.drop_first()[i],
                ) == x.drop_first()[i] by {
                    assert(x.drop_first()[i] == x[i + 1]);
                }
            }
        }
        assert forall|i: int| 0 <= i < param_escape(x).len() implies !param_needs_escape(
            #[trigger] param_escape(x)[i],
        ) && (lower_fixed(x) ==> ascii_lower(param_escape(x)[i]) == param_escape(x)[i]) by {
            if i < head.len() {
                assert(param_escape(x)[i] == head[i]);
                if lower_fixed(x) {
                    assert(ascii_lower(x[0]) == x[0]);
                }
            } else {
                assert(param_escape(x)[i] == rest[i - head.len()]);
            }
        }
    }
}

/// The last byte of an escaped parameter is the last byte of the parameter
/// or a hex digit.
pub proof fn lemma_param_escape_last(x: Seq<u8>)
    requires
        x.len() > 0,
        !ws_byte(x[x.len() - 1]),
    ensures
        param_escape(x).len() > 0,
        !ws_byte(param_escape(x)[param_escape(x).len() - 1]),
{
    let dl = x.drop_last();
    let l = x[x.len() - 1];
    assert(x == dl + seq![l]);
    crate::text::lemma_flat_map_concat(dl, seq![l], param_escape_map());
    crate::text::lemma_flat_map_single(l, param_escape_map());
    let tail = param_escape_map()(l);
    if param_needs_escape(l) {
        assert(tail == pct3_lower(l));
        lemma_hex_digit_lower(l as int % 16);
    } else {
        assert(tail == seq![l]);
    }
    let e = param_escape(x);
    assert(e == param_escape(dl) + tail);
    assert(e[e.len() - 1] == tail[tail.len() - 1]);
}

/// Escaping a parameter that holds nothing to escape leaves it as it is.
pub proof fn lemma_param_escape_fixed(y: Seq<u8>)
    requires
        param_escaped(y),
    ensures
        param_escape(y) == y,
{
    assert forall|i: int| 0 <= i < y.len() implies param_escape_map()(#[trigger] y[i]) == seq![
        y[i],
    ] by {
        assert(!param_needs_escape(y[i]));
    }
    crate::text::lemma_flat_map_identity(y, param_escape_map());
}

/// A written parameter: as `param_ok` says, without `?`, with nothing left
/// to escape.
pub open spec fn written_param_ok(kv: (Seq<u8>, Seq<u8>)) -> bool {
    &&& param_ok(kv)
    &&& no_byte(kv.0, QMARK)
    &&& no_byte(kv.1, QMARK)
    &&& param_escaped(kv.0)
    &&& param_escaped(kv.1)
}

pub proof fn lemma_escaped_param_ok(kv: (Seq<u8>, Seq<u8>))
    requires
        param_ok(kv),
    ensures
        written_param_ok((param_escape(kv.0), param_escape(kv.1))),
{
    let k = kv.0;
    let v = kv.1;
    let ek = param_escape(k);
    let ev = param_escape(v);
    lemma_param_escape_bytes(k);
    lemma_param_escape_bytes(v);
    lemma_lower_index(k);
    assert(lower_fixed(k)) by {
        assert forall|i: int| 0 <= i < k.len() implies ascii_lower(#[trigger] k[i]) == k[i] by {
            assert(lower_bytes(k)[i] == ascii_lower(k[i]));
        }
    }
    lemma_lower_index(ek);
    assert(lower_bytes(ek) =~= ek);
    lemma_param_escape_last(k);
    if v.len() > 0 {
        lemma_param_escape_last(v);
    }
    assert(!ws_byte(ek[0]));
    assert forall|i: int| 0 <= i < ek.len() implies #[trigger] ek[i] != EQ_ && ek[i] != SEMI
        && ek[i] != GT && ek[i] != QMARK by {
        assert(!param_needs_escape(ek[i]));
    }
    assert forall|i: int| 0 <= i < ev.len() implies #[trigger] ev[i] != SEMI && ev[i] != GT
        && ev[i] != QMARK by {
        assert(!param_needs_escape(ev[i]));
    }
    assert(v.len() == 0 ==> ev.len() == 0);
}

pub open spec fn all_written_params_ok(p: Pairs) -> bool {
    forall|i: int| 0 <= i < p.len() ==> written_param_ok(#[trigger] p[i])
}

pub proof fn lemma_escape_params_ok(p: Pairs)
    requires
        all_params_ok(p),
    ensures
        all_written_params_ok(escape_params(p)),
        escape_params(p).len() == p.len(),
{
    assert forall|i: int| 0 <= i < escape_params(p).len() implies written_param_ok(
        #[trigger] escape_params(p)[i],
    ) by {
        assert(param_ok(p[i]));
        lemma_escaped_param_ok(p[i]);
    }
}

/// Parameters with nothing left to escape are written as they are.
pub proof fn lemma_escape_params_fixed(p: Pairs)
    requires
        all_written_params_ok(p),
    ensures
        escape_params(p) == p,
{
    assert forall|i: int| 0 <= i < p.len() implies #[trigger] escape_params(p)[i] == p[i] by {
        assert(written_param_ok(p[i]));
        lemma_param_escape_fixed(p[i].0);
        lemma_param_escape_fixed(p[i].1);
    }
    assert(escape_params(p) =~= p);
}

// ---------------------------------------------------------------------------
// Port digits
pub proof fn lemma_dec_digits_read(s: Seq<u8>, a: int, n: nat)
    requires
        placed(s, a, dec_digits(n)),
    ensures
        dec_digits(n).len() >= 1,
        all_digits(s, a, a + dec_digits(n).len()),
        dec_value(s, a, a + dec_digits(n).len()) == n,
        no_byte(dec_digits(n), COLON),
    decreases n,
{
    let d = dec_digits(n);
    lemma_placed_at(s, a, d);
    if n < 10 {
        assert(d == seq![(0x30 + n) as u8]);
        assert(s[a + 0] == d[0]);
        assert(s[a] == (0x30 + n) as u8);
        assert(dec_value(s, a, a) == 0);
    } else {
        let hd = dec_digits(n / 10);
        let last = seq![(0x30 + n % 10) as u8];
        assert(d == hd + last);
        lemma_placed_split(s, a, hd, last);
        lemma_dec_digits_read(s, a, n / 10);
        lemma_placed_at(s, a + hd.len(), last);
        assert(s[a + hd.len()] == (0x30 + n % 10) as u8);
        assert(dec_value(s, a, a + d.len()) == dec_value(s, a, a + hd.len()) * 10 + (s[a + hd.len()]
            - 0x30));
        assert((n / 10) * 10 + n % 10 == n);
        lemma_no_byte_concat(hd, last, COLON);
    }
    assert forall|i: int| a <= i < a + d.len() implies is_digit(#[trigger] s[i]) by {
        lemma_dec_digit_bytes(n);
        assert(s[a + (i - a)] == d[i - a]);
    }
}

pub proof fn lemma_dec_digit_bytes(n: nat)
    ensures
        forall|i: int| 0 <= i < dec_digits(n).len() ==> is_digit(#[trigger] dec_digits(n)[i]),
    decreases n,
{
    if n >= 10 {
        lemma_dec_digit_bytes(n / 10);
        let hd = dec_digits(n / 10);
        let last = seq![(0x30 + n % 10) as u8];
        assert forall|i: int| 0 <= i < dec_digits(n).len() implies is_digit(
            #[trigger] dec_digits(n)[i],
        ) by {
            if i < hd.len() {
                assert(dec_digits(n)[i] == hd[i]);
            } else {
                assert(dec_digits(n)[i] == last[i - hd.len()]);
            }
        }
    }
}

// ---------------------------------------------------------------------------
// One parameter, one header
/// `key[=value]` as a parameter is written, without its leading `;`.
pub open spec fn param_body(kv: (Seq<u8>, Seq<u8>)) -> Seq<u8> {
    kv.0 + if kv.1.len() > 0 {
        seq![EQ_] + kv.1
    } else {
        Seq::empty()
    }
}

pub proof fn lemma_param_part_body(kv: (Seq<u8>, Seq<u8>))
    ensures
        param_part(kv) == seq![SEMI] + param_body(kv),
{
    assert(param_part(kv) =~= seq![SEMI] + param_body(kv));
}

/// A parameter as a parse leaves it: a non-empty lowercase key with no
/// whitespace at its ends and no `=`, neither key nor value holding `;` or
/// `>`, and a value that does not end in whitespace.
pub open spec fn param_ok(kv: (Seq<u8>, Seq<u8>)) -> bool {
    let k = kv.0;
    let v = kv.1;
    &&& k.len() > 0
    &&& lower_bytes(k) == k
    &&& !ws_byte(k[0])
    &&& !ws_byte(k.last())
    &&& no_byte(k, EQ_)
    &&& no_byte(k, SEMI)
    &&& no_byte(k, GT)
    &&& no_byte(v, SEMI)
    &&& no_byte(v, GT)
    &&& (v.len() > 0 ==> !ws_byte(v.last()))
}

/// A header as a parse leaves it: a non-empty key, both parts text.
pub open spec fn header_ok(kv: (Seq<u8>, Seq<u8>)) -> bool {
    kv.0.len() > 0 && valid_utf8(kv.0) && valid_utf8(kv.1)
}

pub proof fn lemma_no_byte_has(x: Seq<u8>, b: u8)
    requires
        no_byte(x, b),
    ensures
        !has_byte(x, b, 0, x.len() as int),
{
    if has_byte(x, b, 0, x.len() as int) {
        let i = choose|i: int| 0 <= i < x.len() && x[i] == b;
        assert(x[i] != b);
    }
}

/// A written parameter parses back to itself.
pub proof fn lemma_param_entry_rendered(s: Seq<u8>, a: int, kv: (Seq<u8>, Seq<u8>))
    requires
        placed(s, a, param_body(kv)),
        param_ok(kv),
    ensures
        param_entry(s, a, a + param_body(kv).len()) == Ok::<
            Option<(Seq<u8>, Seq<u8>)>,
            crate::error::ParseError,
        >(Some(kv)),
{
    reveal(param_entry);
    let k = kv.0;
    let v = kv.1;
    let body = param_body(kv);
    let b = a + body.len();
    let tail: Seq<u8> = if v.len() > 0 {
        seq![EQ_] + v
    } else {
        Seq::empty()
    };
    assert(body == k + tail);
    lemma_placed_split(s, a, k, tail);
    lemma_placed_at(s, a, k);
    lemma_placed_at(s, a, body);
    lemma_placed_no_byte(s, a, k, EQ_);
    assert(s[a + 0] == body[0]);
    assert(s[a + (body.len() - 1)] == body[body.len() - 1]);
    if v.len() > 0 {
        assert(body[body.len() - 1] == v.last());
    } else {
        assert(body[body.len() - 1] == k.last());
    }
    lemma_trim_id(s, a, b);
    lemma_no_byte_has(k, GT);
    if v.len() > 0 {
        let e = a + k.len();
        lemma_placed_split(s, e, seq![EQ_], v);
        lemma_placed_at(s, e, seq![EQ_]);
        assert(s[e + 0] == EQ_);
        lemma_find_is(s, EQ_, a, e, b);
        assert(k[0] == s[a + 0] && k.last() == s[a + (k.len() - 1)]);
        lemma_trim_id(s, a, e);
        assert(s.subrange(e + 1, b) == v);
        lemma_no_byte_has(v, GT);
    } else {
        lemma_find_none(s, EQ_, a, b);
        assert(s.subrange(a, b) == k);
        assert(Seq::<u8>::empty().len() == 0);
        assert(!has_byte(Seq::<u8>::empty(), GT, 0, 0));
    }
}

/// A written header parses back to itself.
pub proof fn lemma_header_entry_rendered(s: Seq<u8>, a: int, kv: (Seq<u8>, Seq<u8>))
    requires
        placed(s, a, header_item(kv)),
        header_ok(kv),
    ensures
        header_entry(s, a, a + header_item(kv).len()) == Ok::<
            Option<(Seq<u8>, Seq<u8>)>,
            crate::error::ParseError,
        >(Some(kv)),
{
    reveal(header_entry);
    let ek = escape(kv.0);
    let ev = escape(kv.1);
    let item = header_item(kv);
    let b = a + item.len();
    let e = a + ek.len();
    lemma_escape_no_delims(kv.0);
    lemma_escape_no_delims(kv.1);
    assert(item == ek + (seq![EQ_] + ev));
    lemma_placed_split(s, a, ek, seq![EQ_] + ev);
    lemma_placed_split(s, e, seq![EQ_], ev);
    lemma_placed_at(s, a, item);
    lemma_placed_at(s, e, seq![EQ_]);
    lemma_placed_at(s, a, ek);
    assert(s[a + 0] == item[0]);
    assert(item[0] == ek[0]);
    assert(s[a + (item.len() - 1)] == item[item.len() - 1]);
    if ev.len() > 0 {
        assert(item[item.len() - 1] == ev[ev.len() - 1]);
    } else {
        assert(item[item.len() - 1] == EQ_);
    }
    lemma_trim_id(s, a, b);
    assert(s[e + 0] == EQ_);
    lemma_placed_no_byte(s, a, ek, EQ_);
    lemma_find_is(s, EQ_, a, e, b);
    assert(s[a + (ek.len() - 1)] == ek[ek.len() - 1]);
    lemma_trim_id(s, a, e);
    lemma_pct_of_escape(s, a, kv.0);
    lemma_pct_of_escape(s, e + 1, kv.1);
    assert(pct_field(s, a, e) == Ok::<Seq<u8>, crate::error::ParseError>(kv.0));
    assert(pct_field(s, e + 1, b) == Ok::<Seq<u8>, crate::error::ParseError>(kv.1));
}

// ---------------------------------------------------------------------------
// Lists of parameters and headers
/// No key occurs twice.
pub open spec fn keys_unique(p: Pairs) -> bool {
    forall|i: int, j: int| 0 <= i < j < p.len() ==> #[trigger] p[i].0 != #[trigger] p[j].0
}

/// No key of `a` is a key of `b`.
pub open spec fn keys_disjoint(a: Pairs, b: Pairs) -> bool {
    forall|i: int, j: int| 0 <= i < a.len() && 0 <= j < b.len() ==> #[trigger] a[i].0
        != #[trigger] b[j].0
}

pub open spec fn all_params_ok(p: Pairs) -> bool {
    forall|i: int| 0 <= i < p.len() ==> param_ok(#[trigger] p[i])
}

pub open spec fn all_headers_ok(h: Pairs) -> bool {
    forall|i: int| 0 <= i < h.len() ==> header_ok(#[trigger] h[i])
}

pub proof fn lemma_params_part_cons(p: Pairs)
    requires
        p.len() > 0,
    ensures
        params_part(p) == param_part(p[0]) + params_part(p.drop_first()),
    decreases p.len(),
{
    if p.len() == 1 {
        assert(p.drop_last().len() == 0);
        assert(p.drop_first().len() == 0);
        assert(params_part(p) =~= param_part(p[0]) + params_part(p.drop_first()));
    } else {
        let dl = p.drop_last();
        lemma_params_part_cons(dl);
        assert(dl[0] == p[0]);
        assert(dl.drop_first() =~= p.drop_first().drop_last());
        assert(p.drop_first().last() == p.last());
        assert(params_part(p) =~= param_part(p[0]) + params_part(p.drop_first()));
    }
}

pub proof fn lemma_header_list_cons(h: Pairs)
    requires
        h.len() > 1,
    ensures
        header_list(h) == header_item(h[0]) + seq![AMP] + header_list(h.drop_first()),
    decreases h.len(),
{
    let dl = h.drop_last();
    if h.len() == 2 {
        assert(dl.len() == 1 && dl[0] == h[0]);
        assert(h.drop_first().len() == 1 && h.drop_first()[0] == h[1]);
        assert(header_list(dl) == header_item(h[0]));
        assert(header_list(h.drop_first()) == header_item(h[1]));
        assert(h.last() == h[1]);
        assert(header_list(h) == header_list(dl) + seq![AMP] + header_item(h.last()));
        assert(header_list(h) =~= header_item(h[0]) + seq![AMP] + header_list(h.drop_first()));
    } else {
        lemma_header_list_cons(dl);
        assert(dl[0] == h[0]);
        assert(dl.drop_first() =~= h.drop_first().drop_last());
        assert(h.drop_first().last() == h.last());
        assert(header_list(h) =~= header_item(h[0]) + seq![AMP] + header_list(h.drop_first()));
    }
}

/// A key not among the keys of `acc` is appended.
pub proof fn lemma_upsert_new(acc: Pairs, kv: (Seq<u8>, Seq<u8>))
    requires
        forall|i: int| 0 <= i < acc.len() ==> #[trigger] acc[i].0 != kv.0,
    ensures
        upsert(acc, kv.0, kv.1) == acc.push(kv),
{
    lemma_first_key(acc, kv.0, 0);
    if let Some(j) = first_key(acc, kv.0, 0) {
        assert(acc[j].0 != kv.0);
    }
}

pub proof fn lemma_param_body_bytes(kv: (Seq<u8>, Seq<u8>))
    requires
        param_ok(kv),
    ensures
        no_byte(param_body(kv), SEMI),
        param_body(kv).len() > 0,
{
    let tail: Seq<u8> = if kv.1.len() > 0 {
        seq![EQ_] + kv.1
    } else {
        Seq::empty()
    };
    lemma_no_byte_concat(seq![EQ_], kv.1, SEMI);
    lemma_no_byte_concat(kv.0, tail, SEMI);
}

/// Each entry of `p`, in order, folded into `acc` with `upsert`.
pub open spec fn upsert_all(acc: Pairs, p: Pairs) -> Pairs
    decreases p.len(),
{
    if p.len() == 0 {
        acc
    } else {
        upsert_all(upsert(acc, p[0].0, p[0].1), p.drop_first())
    }
}

/// With no key twice, folding with `upsert` appends.
pub proof fn lemma_upsert_all_appends(acc: Pairs, p: Pairs)
    requires
        keys_unique(p),
        keys_disjoint(acc, p),
    ensures
        upsert_all(acc, p) == acc + p,
    decreases p.len(),
{
    if p.len() == 0 {
        assert(acc + p =~= acc);
    } else {
        let p0 = p[0];
        let rest = p.drop_first();
        assert forall|i: int| 0 <= i < acc.len() implies #[trigger] acc[i].0 != p0.0 by {
            assert(acc[i].0 != p[0].0);
        }
        lemma_upsert_new(acc, p0);
        assert(keys_unique(rest)) by {
            assert forall|i: int, j: int| 0 <= i < j < rest.len() implies #[trigger] rest[i].0
                != #[trigger] rest[j].0 by {
                assert(rest[i] == p[i + 1] && rest[j] == p[j + 1]);
            }
        }
        let acc2 = acc.push(p0);
        assert(keys_disjoint(acc2, rest)) by {
            assert forall|i: int, j: int| 0 <= i < acc2.len() && 0 <= j < rest.len() implies #[trigger] acc2[i].0
                != #[trigger] rest[j].0 by {
                assert(rest[j] == p[j + 1]);
                if i < acc.len() {
                    assert(acc2[i] == acc[i]);
                } else {
                    assert(acc2[i] == p[0]);
                }
            }
        }
        lemma_upsert_all_appends(acc2, rest);
        assert(acc2 + rest =~= acc + p);
    }
}

/// Folding with `upsert` keeps keys unique and every entry one of those
/// folded, so a property of all of them holds of the result.
pub proof fn lemma_upsert_all_keeps(acc: Pairs, p: Pairs, prop: spec_fn((Seq<u8>, Seq<u8>)) -> bool)
    requires
        keys_unique(acc),
        forall|i: int| 0 <= i < acc.len() ==> #[trigger] prop(acc[i]),
        forall|i: int| 0 <= i < p.len() ==> #[trigger] prop(p[i]),
    ensures
        keys_unique(upsert_all(acc, p)),
        forall|i: int| 0 <= i < upsert_all(acc, p).len() ==> #[trigger] prop(upsert_all(acc, p)[i]),
    decreases p.len(),
{
    if p.len() > 0 {
        let p0 = p[0];
        assert(prop(p0));
        lemma_upsert_shape(acc, p0.0, p0.1);
        let acc2 = upsert(acc, p0.0, p0.1);
        assert forall|i: int| 0 <= i < acc2.len() implies #[trigger] prop(acc2[i]) by {
            if acc2[i] != (p0.0, p0.1) {
                assert(acc2[i] == acc[i]);
            }
        }
        assert forall|i: int| 0 <= i < p.drop_first().len() implies #[trigger] prop(
            p.drop_first()[i],
        ) by {
            assert(p.drop_first()[i] == p[i + 1]);
        }
        lemma_upsert_all_keeps(acc2, p.drop_first(), prop);
    }
}

/// The written parameters of a list parse back to the list folded into
/// whatever came before with `upsert`.
pub proof fn lemma_fold_params_rendered(s: Seq<u8>, start: int, end: int, p: Pairs, acc: Pairs)
    requires
        p.len() > 0,
        start >= 1,
        placed(s, start - 1, params_part(p)),
        end == start - 1 + params_part(p).len(),
        all_params_ok(p),
    ensures
        fold_segments(s, start, end, SEMI, SegmentKind::Param, acc) == Ok::<
            Pairs,
            crate::error::ParseError,
        >(upsert_all(acc, p)),
    decreases p.len(),
{
    reveal(fold_segments);
    let p0 = p[0];
    let rest = p.drop_first();
    let body0 = param_body(p0);
    let b0end = start + body0.len();
    assert(param_ok(p0));
    lemma_params_part_cons(p);
    lemma_param_part_body(p0);
    assert(params_part(p) == seq![SEMI] + (body0 + params_part(rest)));
    lemma_placed_split(s, start - 1, seq![SEMI], body0 + params_part(rest));
    lemma_placed_split(s, start, body0, params_part(rest));
    lemma_param_body_bytes(p0);
    lemma_placed_no_byte(s, start, body0, SEMI);
    lemma_param_entry_rendered(s, start, p0);
    let acc2 = upsert(acc, p0.0, p0.1);
    if rest.len() == 0 {
        assert(params_part(rest) == Seq::<u8>::empty());
        lemma_find_none(s, SEMI, start, end);
        assert(segment_end(s, SEMI, start, end) == end);
        assert(upsert_all(acc2, rest) == acc2);
    } else {
        lemma_params_part_cons(rest);
        lemma_param_part_body(rest[0]);
        lemma_placed_at(s, b0end, params_part(rest));
        assert(s[b0end + 0] == params_part(rest)[0]);
        assert(params_part(rest)[0] == SEMI);
        lemma_find_is(s, SEMI, start, b0end, end);
        assert(all_params_ok(rest)) by {
            assert forall|i: int| 0 <= i < rest.len() implies param_ok(#[trigger] rest[i]) by {
                assert(rest[i] == p[i + 1]);
            }
        }
        lemma_fold_params_rendered(s, b0end + 1, end, rest, acc2);
    }
}

/// The written headers of a list parse back to the list, appended to
/// whatever came before.
pub proof fn lemma_fold_headers_rendered(s: Seq<u8>, start: int, end: int, h: Pairs, acc: Pairs)
    requires
        h.len() > 0,
        placed(s, start, header_list(h)),
        end == start + header_list(h).len(),
        all_headers_ok(h),
        keys_unique(h),
        keys_disjoint(acc, h),
    ensures
        fold_segments(s, start, end, AMP, SegmentKind::Header, acc) == Ok::<
            Pairs,
            crate::error::ParseError,
        >(acc + h),
    decreases h.len(),
{
    reveal(fold_segments);
    let h0 = h[0];
    let rest = h.drop_first();
    let item0 = header_item(h0);
    let i0end = start + item0.len();
    assert(header_ok(h0));
    lemma_escape_no_delims(h0.0);
    lemma_escape_no_delims(h0.1);
    assert(item0 == escape(h0.0) + (seq![EQ_] + escape(h0.1)));
    lemma_no_byte_concat(seq![EQ_], escape(h0.1), AMP);
    lemma_no_byte_concat(escape(h0.0), seq![EQ_] + escape(h0.1), AMP);
    assert forall|i: int| 0 <= i < acc.len() implies #[trigger] acc[i].0 != h0.0 by {
        assert(acc[i].0 != h[0].0);
    }
    lemma_upsert_new(acc, h0);
    if rest.len() == 0 {
        assert(h.len() == 1);
        assert(header_list(h) == item0);
        lemma_header_entry_rendered(s, start, h0);
        lemma_placed_no_byte(s, start, item0, AMP);
        lemma_find_none(s, AMP, start, end);
        assert(segment_end(s, AMP, start, end) == end);
        assert(acc.push(h0) =~= acc + h);
    } else {
        lemma_header_list_cons(h);
        assert(header_list(h) == item0 + (seq![AMP] + header_list(rest)));
        lemma_placed_split(s, start, item0, seq![AMP] + header_list(rest));
        lemma_placed_split(s, i0end, seq![AMP], header_list(rest));
        lemma_placed_at(s, i0end, seq![AMP]);
        assert(s[i0end + 0] == AMP);
        lemma_header_entry_rendered(s, start, h0);
        lemma_placed_no_byte(s, start, item0, AMP);
        lemma_find_is(s, AMP, start, i0end, end);
        assert(all_headers_ok(rest)) by {
            assert forall|i: int| 0 <= i < rest.len() implies header_ok(#[trigger] rest[i]) by {
                assert(rest[i] == h[i + 1]);
            }
        }
        assert(keys_unique(rest)) by {
            assert forall|i: int, j: int| 0 <= i < j < rest.len() implies #[trigger] rest[i].0
                != #[trigger] rest[j].0 by {
                assert(rest[i] == h[i + 1] && rest[j] == h[j + 1]);
            }
        }
        let acc2 = acc.push(h0);
        assert(keys_disjoint(acc2, rest)) by {
            assert forall|i: int, j: int| 0 <= i < acc2.len() && 0 <= j < rest.len() implies #[trigger] acc2[i].0
                != #[trigger] rest[j].0 by {
                assert(rest[j] == h[j + 1]);
                if i < acc.len() {
                    assert(acc2[i] == acc[i]);
                } else {
                    assert(acc2[i] == h[0]);
                }
            }
        }
        lemma_fold_headers_rendered(s, i0end + 1, end, rest, acc2);
        assert(acc2 + rest =~= acc + h);
    }
}

// ---------------------------------------------------------------------------
// Host, port and userinfo
pub proof fn lemma_has_no_byte(x: Seq<u8>, b: u8)
    requires
        !has_byte(x, b, 0, x.len() as int),
    ensures
        no_byte(x, b),
{
    assert forall|i: int| 0 <= i < x.len() implies #[trigger] x[i] != b by {
        if x[i] == b {
            assert(0 <= i < x.len() && x[i] == b);
        }
    }
}

/// A written `host[:port]` parses back to the host and port.
pub proof fn lemma_host_port_rendered(s: Seq<u8>, a: int, h: Seq<u8>, port: Option<u16>)
    requires
        placed(s, a, bracket_host_bytes(h) + port_part(port)),
        host_ok(h),
    ensures
        host_port_spec(s, a, a + (bracket_host_bytes(h) + port_part(port)).len()) == Ok::<
            (Seq<u8>, Option<u16>),
            crate::error::ParseError,
        >((h, port)),
{
    reveal(host_port_spec);
    let bh = bracket_host_bytes(h);
    let pp = port_part(port);
    let hp = bh + pp;
    let b = a + hp.len();
    lemma_placed_split(s, a, bh, pp);
    lemma_placed_at(s, a, hp);
    lemma_placed_at(s, a, bh);
    lemma_placed_at(s, a + bh.len(), pp);
    if let Some(n) = port {
        assert(pp == seq![COLON] + dec_digits(n as nat));
        lemma_placed_split(s, a + bh.len(), seq![COLON], dec_digits(n as nat));
        lemma_dec_digits_read(s, a + bh.len() + 1, n as nat);
        lemma_dec_digit_bytes(n as nat);
        assert(hp[hp.len() - 1] == dec_digits(n as nat)[dec_digits(n as nat).len() - 1]);
        assert(s[a + bh.len() + 0] == COLON);
    } else {
        assert(pp == Seq::<u8>::empty());
    }
    if h.len() > 0 {
        assert(host_byte_ok(h[0]) && host_byte_ok(h[h.len() - 1]));
    }
    if has_byte(h, COLON, 0, h.len() as int) {
        assert(h.len() > 0);
        assert(bh == seq![LBRACKET] + h + seq![RBRACKET]);
        lemma_placed_split(s, a, seq![LBRACKET] + h, seq![RBRACKET]);
        lemma_placed_split(s, a, seq![LBRACKET], h);
        lemma_placed_at(s, a + 1, h);
        assert(s[a + 0] == bh[0]);
        assert(bh[0] == LBRACKET);
        let c = a + 1 + h.len();
        assert(s[a + (bh.len() - 1)] == bh[bh.len() - 1]);
        assert(s[c] == RBRACKET);
        if pp.len() == 0 {
            assert(hp[hp.len() - 1] == bh[bh.len() - 1]);
            assert(s[a + (hp.len() - 1)] == hp[hp.len() - 1]);
        } else {
            assert(s[a + (hp.len() - 1)] == hp[hp.len() - 1]);
        }
        lemma_trim_id(s, a, b);
        assert forall|i: int| 0 <= i < h.len() implies #[trigger] h[i] != RBRACKET by {
            assert(host_byte_ok(h[i]));
        }
        lemma_placed_no_byte(s, a + 1, h, RBRACKET);
        lemma_find_is(s, RBRACKET, a + 1, c, b);
        assert(s.subrange(a + 1, c) == h);
        if let Some(n) = port {
            assert(c + 1 == a + bh.len());
            assert(c + 1 < b && s[c + 1] == COLON && c + 2 < b);
        } else {
            assert(c + 1 == b);
        }
    } else {
        lemma_has_no_byte(h, COLON);
        assert(bh == h);
        if hp.len() == 0 {
            assert(h.len() == 0);
            assert(port is None);
            assert(trim_range(s, a, b, true) == (a, b)) by {
                lemma_trim_id(s, a, b);
            }
            assert(s.subrange(a, a) =~= h);
        } else {
            assert(s[a + 0] == hp[0]);
            assert(s[a + (hp.len() - 1)] == hp[hp.len() - 1]);
            if h.len() > 0 {
                assert(hp[0] == h[0]);
                assert(host_byte_ok(h[0]));
            } else {
                assert(hp[0] == COLON);
            }
            if port is None {
                assert(hp[hp.len() - 1] == h[h.len() - 1]);
            }
            lemma_trim_id(s, a, b);
            lemma_placed_no_byte(s, a, h, COLON);
            if let Some(n) = port {
                let lc = a + h.len();
                lemma_placed_split(s, lc, seq![COLON], dec_digits(n as nat));
                lemma_placed_no_byte(s, lc + 1, dec_digits(n as nat), COLON);
                lemma_rfind_is(s, COLON, a, lc, b);
                assert(s.subrange(a, lc) == h);
            } else {
                lemma_rfind_none(s, COLON, a, b);
                assert(s.subrange(a, b) == h);
            }
        }
    }
}

/// Written userinfo parses back to the user and password, and the host
/// starts right after it.
pub proof fn lemma_userinfo_rendered(
    s: Seq<u8>,
    f: int,
    user: Option<Seq<u8>>,
    password: Option<Seq<u8>>,
    he: int,
)
    requires
        placed(s, f, userinfo_part(user, password)),
        f + userinfo_part(user, password).len() <= he <= s.len(),
        !has_byte(s, AT, f + userinfo_part(user, password).len(), he),
        password is Some ==> user is Some,
        opt_valid(user),
        opt_valid(password),
    ensures
        userinfo_spec(s, f, he) == Ok::<
            (Option<Seq<u8>>, Option<Seq<u8>>, int),
            crate::error::ParseError,
        >((user, password, f + userinfo_part(user, password).len())),
{
    reveal(userinfo_spec);
    let ui = userinfo_part(user, password);
    match user {
        None => {
            assert(ui == Seq::<u8>::empty());
            lemma_rfind_none(s, AT, f, he);
        },
        Some(u) => {
            let eu = escape(u);
            let mid: Seq<u8> = match password {
                Some(p) => seq![COLON] + escape(p),
                None => Seq::empty(),
            };
            assert(ui == eu + mid + seq![AT]);
            let at = f + ui.len() - 1;
            lemma_placed_split(s, f, eu + mid, seq![AT]);
            lemma_placed_split(s, f, eu, mid);
            lemma_placed_at(s, at, seq![AT]);
            assert(s[at + 0] == AT);
            lemma_rfind_is(s, AT, f, at, he);
            lemma_escape_no_delims(u);
            lemma_placed_no_byte(s, f, eu, COLON);
            lemma_pct_of_escape(s, f, u);
            match password {
                Some(p) => {
                    let c = f + eu.len();
                    lemma_placed_split(s, c, seq![COLON], escape(p));
                    lemma_placed_at(s, c, seq![COLON]);
                    assert(s[c + 0] == COLON);
                    lemma_find_is(s, COLON, f, c, at);
                    lemma_pct_of_escape(s, c + 1, p);
                },
                None => {
                    assert(mid == Seq::<u8>::empty());
                    lemma_find_none(s, COLON, f, at);
                },
            }
        },
    }
}

// ---------------------------------------------------------------------------
// Whole URIs
/// A host as a parse leaves it: none of the bytes `host_ok` refuses, and
/// none of the URI's own delimiters `@`, `;`, `?`.
pub open spec fn host_canonical(h: Seq<u8>) -> bool {
    host_ok(h) && no_byte(h, AT) && no_byte(h, SEMI) && no_byte(h, QMARK)
}

pub open spec fn scheme_canonical(sc: Seq<u8>) -> bool {
    sc == sip_scheme() || sc == sips_scheme() || sc == tel_scheme()
}

/// Parameters of a URI as a parse leaves them: each as `param_ok` says,
/// none holding `?`, no key twice.
pub open spec fn uri_params_ok(p: Pairs) -> bool {
    &&& all_params_ok(p)
    &&& keys_unique(p)
    &&& forall|i: int| 0 <= i < p.len() ==> no_byte(#[trigger] p[i].0, QMARK) && no_byte(p[i].1, QMARK)
}

/// A URI model as a parse leaves it.
pub open spec fn uri_canonical(m: UriModel) -> bool {
    &&& scheme_canonical(m.scheme)
    &&& (m.password is Some ==> m.user is Some)
    &&& opt_valid(m.user)
    &&& opt_valid(m.password)
    &&& host_canonical(m.host)
    &&& uri_params_ok(m.params)
    &&& all_headers_ok(m.headers)
    &&& keys_unique(m.headers)
}

pub proof fn lemma_userinfo_bytes(user: Option<Seq<u8>>, password: Option<Seq<u8>>)
    ensures
        no_byte(userinfo_part(user, password), QMARK),
        no_byte(userinfo_part(user, password), SEMI),
{
    if let Some(u) = user {
        lemma_escape_no_delims(u);
        let mid: Seq<u8> = match password {
            Some(p) => seq![COLON] + escape(p),
            None => Seq::empty(),
        };
        if let Some(p) = password {
            lemma_escape_no_delims(p);
            lemma_no_byte_concat(seq![COLON], escape(p), QMARK);
            lemma_no_byte_concat(seq![COLON], escape(p), SEMI);
        }
        lemma_no_byte_concat(escape(u), mid, QMARK);
        lemma_no_byte_concat(escape(u), mid, SEMI);
        lemma_no_byte_concat(escape(u) + mid, seq![AT], QMARK);
        lemma_no_byte_concat(escape(u) + mid, seq![AT], SEMI);
    }
}

pub proof fn lemma_host_port_bytes(h: Seq<u8>, port: Option<u16>, b: u8)
    requires
        host_canonical(h),
        b == QMARK || b == SEMI || b == AT,
    ensures
        no_byte(bracket_host_bytes(h) + port_part(port), b),
{
    lemma_no_byte_concat(seq![LBRACKET], h, b);
    lemma_no_byte_concat(seq![LBRACKET] + h, seq![RBRACKET], b);
    if let Some(n) = port {
        lemma_dec_digit_bytes(n as nat);
        assert(no_byte(dec_digits(n as nat), b)) by {
            assert forall|i: int| 0 <= i < dec_digits(n as nat).len() implies #[trigger] dec_digits(
                n as nat,
            )[i] != b by {
                assert(is_digit(dec_digits(n as nat)[i]));
            }
        }
        lemma_no_byte_concat(seq![COLON], dec_digits(n as nat), b);
    }
    lemma_no_byte_concat(bracket_host_bytes(h), port_part(port), b);
}

pub proof fn lemma_params_part_no_byte(p: Pairs, b: u8)
    requires
        b != SEMI,
        b != EQ_,
        forall|i: int| 0 <= i < p.len() ==> no_byte(#[trigger] p[i].0, b) && no_byte(p[i].1, b),
    ensures
        no_byte(params_part(p), b),
    decreases p.len(),
{
    if p.len() > 0 {
        let dl = p.drop_last();
        assert forall|i: int| 0 <= i < dl.len() implies no_byte(#[trigger] dl[i].0, b) && no_byte(
            dl[i].1,
            b,
        ) by {
            assert(dl[i] == p[i]);
        }
        lemma_params_part_no_byte(dl, b);
        let kv = p.last();
        assert(kv == p[p.len() - 1]);
        let j = p.len() - 1;
        assert(0 <= j < p.len());
        assert(no_byte(p[j].0, b));
        assert(no_byte(p[j].1, b));
        lemma_no_byte_concat(seq![EQ_], kv.1, b);
        let tail: Seq<u8> = if kv.1.len() > 0 {
            seq![EQ_] + kv.1
        } else {
            Seq::empty()
        };
        lemma_no_byte_concat(seq![SEMI], kv.0, b);
        lemma_no_byte_concat(seq![SEMI] + kv.0, tail, b);
        lemma_no_byte_concat(params_part(dl), param_part(kv), b);
    }
}

/// A URI as it reads back after being written out: its parameters are
/// stored as written (escaped, not decoded again), folded with `upsert` as
/// any parse folds them.
pub open spec fn uri_reparsed(m: UriModel) -> UriModel {
    UriModel { params: upsert_all(Seq::empty(), escape_params(m.params)), ..m }
}

/// A canonical URI written anywhere in an input parses back to itself, with
/// its parameters as written (`uri_reparsed`).
pub proof fn lemma_uri_rendered(s: Seq<u8>, a: int, m: UriModel)
    requires
        placed(s, a, render_uri(m)),
        uri_canonical(m),
    ensures
        uri_spec(s, a, a + render_uri(m).len()) == Ok::<UriModel, crate::error::ParseError>(
            uri_reparsed(m),
        ),
{
    let ep = escape_params(m.params);
    lemma_escape_params_ok(m.params);
    assert(all_params_ok(ep)) by {
        assert forall|i: int| 0 <= i < ep.len() implies param_ok(#[trigger] ep[i]) by {
            assert(written_param_ok(ep[i]));
        }
    }
    assert forall|i: int| 0 <= i < ep.len() implies no_byte(#[trigger] ep[i].0, QMARK) && no_byte(
        ep[i].1,
        QMARK,
    ) by {
        assert(written_param_ok(ep[i]));
    }
    let r = render_uri(m);
    let p0 = m.scheme + seq![COLON];
    let p1 = userinfo_part(m.user, m.password);
    let p2 = bracket_host_bytes(m.host) + port_part(m.port);
    let p3 = params_part(ep);
    let p4 = headers_part(m.headers);
    assert(r =~= p0 + (p1 + (p2 + (p3 + p4))));
    let f = a + p0.len();
    let hs = f + p1.len();
    let he = hs + p2.len();
    let pe = he + p3.len();
    let to = pe + p4.len();
    assert(to == a + r.len());
    lemma_placed_split(s, a, p0, p1 + (p2 + (p3 + p4)));
    lemma_placed_split(s, f, p1, p2 + (p3 + p4));
    lemma_placed_split(s, hs, p2, p3 + p4);
    lemma_placed_split(s, he, p3, p4);
    lemma_placed_at(s, a, p0);
    // scheme
    assert(s[a + 0] == p0[0] && s[a + 1] == p0[1] && s[a + 2] == p0[2] && s[a + 3] == p0[3]);
    if m.scheme == sips_scheme() {
        assert(s[a + 4] == p0[4]);
    }
    assert(scheme_prefix(s, a, to) == (m.scheme, f));
    // delimiters
    lemma_userinfo_bytes(m.user, m.password);
    lemma_host_port_bytes(m.host, m.port, QMARK);
    lemma_host_port_bytes(m.host, m.port, SEMI);
    lemma_host_port_bytes(m.host, m.port, AT);
    lemma_params_part_no_byte(ep, QMARK);
    lemma_placed_no_byte(s, f, p1, QMARK);
    lemma_placed_no_byte(s, hs, p2, QMARK);
    lemma_placed_no_byte(s, he, p3, QMARK);
    lemma_has_byte_split(s, QMARK, f, hs, he);
    lemma_has_byte_split(s, QMARK, f, he, pe);
    if m.headers.len() > 0 {
        assert(p4 == seq![QMARK] + crate::uri::header_list(m.headers));
        lemma_placed_at(s, pe, p4);
        assert(s[pe + 0] == QMARK);
        lemma_find_is(s, QMARK, f, pe, to);
    } else {
        assert(p4.len() == 0);
        lemma_find_none(s, QMARK, f, to);
    }
    lemma_placed_no_byte(s, f, p1, SEMI);
    lemma_placed_no_byte(s, hs, p2, SEMI);
    lemma_has_byte_split(s, SEMI, f, hs, he);
    if ep.len() > 0 {
        lemma_params_part_cons(ep);
        lemma_placed_at(s, he, p3);
        assert(s[he + 0] == p3[0]);
        assert(p3[0] == SEMI);
        lemma_find_is(s, SEMI, f, he, pe);
    } else {
        assert(p3.len() == 0);
        lemma_find_none(s, SEMI, f, pe);
    }
    assert(segment_end(s, SEMI, f, pe) == he);
    // userinfo, host, port
    lemma_placed_no_byte(s, hs, p2, AT);
    lemma_userinfo_rendered(s, f, m.user, m.password, he);
    lemma_host_port_rendered(s, hs, m.host, m.port);
    // parameters and headers
    if ep.len() > 0 {
        lemma_fold_params_rendered(s, he + 1, pe, ep, Seq::empty());
    } else {
        assert(upsert_all(Seq::empty(), ep) == Seq::<(Seq<u8>, Seq<u8>)>::empty());
    }
    if m.headers.len() > 0 {
        lemma_placed_split(s, pe, seq![QMARK], crate::uri::header_list(m.headers));
        lemma_fold_headers_rendered(
            s,
            pe + 1,
            to,
            m.headers,
            Seq::empty(),
        );
        assert(Seq::<(Seq<u8>, Seq<u8>)>::empty() + m.headers =~= m.headers);
    }
}

// ---------------------------------------------------------------------------
// What a parse produces is canonical
pub proof fn lemma_lower_index(x: Seq<u8>)
    ensures
        lower_bytes(x).len() == x.len(),
        forall|i: int| 0 <= i < x.len() ==> #[trigger] lower_bytes(x)[i] == ascii_lower(x[i]),
    decreases x.len(),
{
    if x.len() > 0 {
        let rest = x.drop_first();
        lemma_lower_index(rest);
        assert(lower_map()(x[0]) == seq![ascii_lower(x[0])]);
        assert(lower_bytes(x) == seq![ascii_lower(x[0])] + lower_bytes(rest));
        assert forall|i: int| 0 <= i < x.len() implies #[trigger] lower_bytes(x)[i] == ascii_lower(
            x[i],
        ) by {
            if i > 0 {
                assert(lower_bytes(x)[i] == lower_bytes(rest)[i - 1]);
                assert(rest[i - 1] == x[i]);
            }
        }
    }
}

pub proof fn lemma_lower_idempotent(x: Seq<u8>)
    ensures
        lower_bytes(lower_bytes(x)) == lower_bytes(x),
{
    lemma_lower_index(x);
    lemma_lower_index(lower_bytes(x));
    assert(lower_bytes(lower_bytes(x)) =~= lower_bytes(x));
}

/// A slice of a range without `b` holds no `b`.
pub proof fn lemma_sub_no_byte(s: Seq<u8>, b: u8, from: int, to: int, x: int, y: int)
    requires
        0 <= from <= x <= y <= to <= s.len(),
        !has_byte(s, b, from, to),
    ensures
        no_byte(s.subrange(x, y), b),
{
    assert forall|i: int| 0 <= i < y - x implies #[trigger] s.subrange(x, y)[i] != b by {
        if s[x + i] == b {
            assert(from <= x + i < to && s[x + i] == b);
        }
    }
}

/// The lowercase of a slice of a range without `b` holds no `b`, when `b` is
/// not an uppercase letter.
pub proof fn lemma_lower_sub_no_byte(s: Seq<u8>, b: u8, from: int, to: int, x: int, y: int)
    requires
        0 <= from <= x <= y <= to <= s.len(),
        !has_byte(s, b, from, to),
        !(0x41 <= b <= 0x5a),
        !(0x61 <= b <= 0x7a),
    ensures
        no_byte(lower_bytes(s.subrange(x, y)), b),
{
    let sub = s.subrange(x, y);
    lemma_sub_no_byte(s, b, from, to, x, y);
    lemma_lower_index(sub);
    assert forall|i: int| 0 <= i < lower_bytes(sub).len() implies #[trigger] lower_bytes(sub)[i]
        != b by {
        assert(sub[i] != b);
        assert(lower_bytes(sub)[i] == ascii_lower(sub[i]));
    }
}

/// A parameter that a parse reads from `[a, b)` is as `param_ok` says, and
/// holds no `?` when the range holds none.
pub proof fn lemma_param_entry_ok(s: Seq<u8>, a: int, b: int)
    requires
        0 <= a <= b <= s.len(),
        !has_byte(s, SEMI, a, b),
        param_entry(s, a, b) matches Ok(Some(_)),
    ensures
        ({
            let kv = param_entry(s, a, b)->Ok_0->Some_0;
            &&& param_ok(kv)
            &&& !has_byte(s, QMARK, a, b) ==> no_byte(kv.0, QMARK) && no_byte(kv.1, QMARK)
        }),
{
    reveal(param_entry);
    let kv = param_entry(s, a, b)->Ok_0->Some_0;
    lemma_trim_range(s, a, b, true);
    let (f, t) = trim_range(s, a, b, true);
    assert(f < t);
    let eq = find_byte(s, EQ_, f, t);
    lemma_find_byte(s, EQ_, f, t);
    let (kf, kt) = match eq {
        Some(e) => trim_range(s, f, e, true),
        None => (f, t),
    };
    let ke = match eq {
        Some(e) => e,
        None => t,
    };
    if let Some(e) = eq {
        lemma_trim_range(s, f, e, true);
    }
    assert(f <= kf < kt <= ke <= t);
    assert(!blank(s[kf], true) && !blank(s[kt - 1], true));
    let sub = s.subrange(kf, kt);
    let key = lower_bytes(sub);
    assert(kv.0 == key);
    lemma_lower_index(sub);
    lemma_lower_idempotent(sub);
    assert(key[0] == ascii_lower(s[kf]));
    assert(key.last() == ascii_lower(s[kt - 1]));
    lemma_lower_sub_no_byte(s, EQ_, f, ke, kf, kt);
    lemma_lower_sub_no_byte(s, SEMI, a, b, kf, kt);
    lemma_has_no_byte(kv.0, GT);
    lemma_has_no_byte(kv.1, GT);
    if let Some(e) = eq {
        assert(kv.1 == s.subrange(e + 1, t));
        lemma_sub_no_byte(s, SEMI, a, b, e + 1, t);
        if e + 1 < t {
            assert(kv.1.last() == s[t - 1]);
        }
        if !has_byte(s, QMARK, a, b) {
            lemma_sub_no_byte(s, QMARK, a, b, e + 1, t);
        }
    } else {
        assert(kv.1.len() == 0);
    }
    if !has_byte(s, QMARK, a, b) {
        lemma_lower_sub_no_byte(s, QMARK, a, b, kf, kt);
    }
}

/// A header that a parse reads is as `header_ok` says.
pub proof fn lemma_header_entry_ok(s: Seq<u8>, a: int, b: int)
    requires
        0 <= a <= b <= s.len(),
        header_entry(s, a, b) matches Ok(Some(_)),
    ensures
        header_ok(header_entry(s, a, b)->Ok_0->Some_0),
{
    reveal(header_entry);
    lemma_trim_range(s, a, b, true);
    let (f, t) = trim_range(s, a, b, true);
    let eq = find_byte(s, EQ_, f, t);
    lemma_find_byte(s, EQ_, f, t);
    if let Some(e) = eq {
        lemma_trim_range(s, f, e, true);
    }
    let (kf, kt) = match eq {
        Some(e) => trim_range(s, f, e, true),
        None => (f, t),
    };
    assert(kf < kt);
    assert(pct_bytes(s, kf, kt).len() > 0);
}

/// Each entry of an upsert is the new entry or the entry before at that
/// position, and keys stay unique.
pub proof fn lemma_upsert_shape(acc: Pairs, k: Seq<u8>, v: Seq<u8>)
    requires
        keys_unique(acc),
    ensures
        keys_unique(upsert(acc, k, v)),
        forall|i: int| 0 <= i < upsert(acc, k, v).len() ==> #[trigger] upsert(acc, k, v)[i] == (k, v)
            || (i < acc.len() && upsert(acc, k, v)[i] == acc[i]),
        upsert(acc, k, v).len() >= acc.len(),
{
    lemma_first_key(acc, k, 0);
    let up = upsert(acc, k, v);
    match first_key(acc, k, 0) {
        Some(j) => {
            assert forall|i: int, m: int| 0 <= i < m < up.len() implies #[trigger] up[i].0
                != #[trigger] up[m].0 by {
                if i == j {
                    assert(acc[m].0 != acc[j].0);
                } else if m == j {
                    assert(acc[i].0 != acc[j].0);
                }
            }
        },
        None => {
            assert forall|i: int, m: int| 0 <= i < m < up.len() implies #[trigger] up[i].0
                != #[trigger] up[m].0 by {
                if m == acc.len() {
                    assert(acc[i].0 != k);
                }
            }
        },
    }
}

/// The parameters a parse folds together are as `uri_params_ok` says
/// (without the `?` clause when `q_free` is not set).
pub proof fn lemma_fold_params_ok(s: Seq<u8>, start: int, end: int, acc: Pairs, q_free: bool)
    requires
        fold_segments(s, start, end, SEMI, SegmentKind::Param, acc) is Ok,
        all_params_ok(acc),
        keys_unique(acc),
        q_free ==> !has_byte(s, QMARK, start, end) && forall|i: int| 0 <= i < acc.len() ==> no_byte(
            #[trigger] acc[i].0,
            QMARK,
        ) && no_byte(acc[i].1, QMARK),
    ensures
        ({
            let r = fold_segments(s, start, end, SEMI, SegmentKind::Param, acc)->Ok_0;
            &&& all_params_ok(r)
            &&& keys_unique(r)
            &&& q_free ==> forall|i: int| 0 <= i < r.len() ==> no_byte(#[trigger] r[i].0, QMARK)
                && no_byte(r[i].1, QMARK)
        }),
    decreases end - start,
{
    reveal(fold_segments);
    if 0 <= start <= end <= s.len() {
        let seg_end = segment_end(s, SEMI, start, end);
        crate::uri::lemma_segment_end(s, SEMI, start, end);
        let entry = param_entry(s, start, seg_end);
        let acc2 = match entry {
            Ok(Some((k, v))) => upsert(acc, k, v),
            _ => acc,
        };
        if let Ok(Some((k, v))) = entry {
            if q_free {
                assert(!has_byte(s, QMARK, start, seg_end)) by {
                    if has_byte(s, QMARK, start, seg_end) {
                        let i = choose|i: int| start <= i < seg_end && s[i] == QMARK;
                        assert(start <= i < end && s[i] == QMARK);
                    }
                }
            }
            lemma_param_entry_ok(s, start, seg_end);
            lemma_upsert_shape(acc, k, v);
            let up = upsert(acc, k, v);
            assert forall|i: int| 0 <= i < up.len() implies param_ok(#[trigger] up[i]) && (q_free
                ==> no_byte(up[i].0, QMARK) && no_byte(up[i].1, QMARK)) by {
                if up[i] != (k, v) {
                    assert(up[i] == acc[i]);
                }
            }
        }
        if seg_end < end {
            if q_free {
                assert(!has_byte(s, QMARK, seg_end + 1, end)) by {
                    if has_byte(s, QMARK, seg_end + 1, end) {
                        let i = choose|i: int| seg_end + 1 <= i < end && s[i] == QMARK;
                        assert(start <= i < end && s[i] == QMARK);
                    }
                }
            }
            lemma_fold_params_ok(s, seg_end + 1, end, acc2, q_free);
        }
    }
}

/// The headers a parse folds together are as `header_ok` says, no key twice.
pub proof fn lemma_fold_headers_ok(s: Seq<u8>, start: int, end: int, acc: Pairs)
    requires
        fold_segments(s, start, end, AMP, SegmentKind::Header, acc) is Ok,
        all_headers_ok(acc),
        keys_unique(acc),
    ensures
        all_headers_ok(fold_segments(s, start, end, AMP, SegmentKind::Header, acc)->Ok_0),
        keys_unique(fold_segments(s, start, end, AMP, SegmentKind::Header, acc)->Ok_0),
    decreases end - start,
{
    reveal(fold_segments);
    if 0 <= start <= end <= s.len() {
        let seg_end = segment_end(s, AMP, start, end);
        crate::uri::lemma_segment_end(s, AMP, start, end);
        let entry = header_entry(s, start, seg_end);
        let acc2 = match entry {
            Ok(Some((k, v))) => upsert(acc, k, v),
            _ => acc,
        };
        if let Ok(Some((k, v))) = entry {
            lemma_header_entry_ok(s, start, seg_end);
            lemma_upsert_shape(acc, k, v);
            let up = upsert(acc, k, v);
            assert forall|i: int| 0 <= i < up.len() implies header_ok(#[trigger] up[i]) by {
                if up[i] != (k, v) {
                    assert(up[i] == acc[i]);
                }
            }
        }
        if seg_end < end {
            lemma_fold_headers_ok(s, seg_end + 1, end, acc2);
        }
    }
}

pub proof fn lemma_has_byte_sub(s: Seq<u8>, b: u8, from: int, to: int, x: int, y: int)
    requires
        from <= x <= y <= to,
        !has_byte(s, b, from, to),
    ensures
        !has_byte(s, b, x, y),
{
    if has_byte(s, b, x, y) {
        let i = choose|i: int| x <= i < y && s[i] == b;
        assert(from <= i < to && s[i] == b);
    }
}

/// What a parse reads as userinfo is text, and no `@` follows it before the
/// end of the host part.
pub proof fn lemma_userinfo_ok(s: Seq<u8>, f: int, he: int)
    requires
        0 <= f <= he <= s.len(),
        userinfo_spec(s, f, he) is Ok,
    ensures
        ({
            let (u, p, hs) = userinfo_spec(s, f, he)->Ok_0;
            &&& opt_valid(u)
            &&& opt_valid(p)
            &&& (p is Some ==> u is Some)
            &&& f <= hs <= he
            &&& !has_byte(s, AT, hs, he)
        }),
{
    reveal(userinfo_spec);
    lemma_rfind_byte(s, AT, f, he);
    if let Some(at) = rfind_byte(s, AT, f, he) {
        lemma_find_byte(s, COLON, f, at);
    }
}

/// A host that a parse reads from `[from, to)` is a slice of it.
pub proof fn lemma_host_port_ok(s: Seq<u8>, from: int, to: int, b: u8)
    requires
        0 <= from <= to <= s.len(),
        host_port_spec(s, from, to) is Ok,
    ensures
        host_ok(host_port_spec(s, from, to)->Ok_0.0),
        !has_byte(s, b, from, to) ==> no_byte(host_port_spec(s, from, to)->Ok_0.0, b),
{
    reveal(host_port_spec);
    lemma_trim_range(s, from, to, true);
    let (f, t) = trim_range(s, from, to, true);
    let h = host_port_spec(s, from, to)->Ok_0.0;
    if !has_byte(s, b, from, to) {
        if f == t {
            assert(h.len() == 0);
        } else if s[f] == LBRACKET {
            lemma_find_byte(s, RBRACKET, f + 1, t);
            if let Some(c) = find_byte(s, RBRACKET, f + 1, t) {
                lemma_sub_no_byte(s, b, from, to, f + 1, c);
            }
        } else {
            lemma_rfind_byte(s, COLON, f, t);
            match rfind_byte(s, COLON, f, t) {
                Some(lc) => {
                    lemma_sub_no_byte(s, b, from, to, f, lc);
                    lemma_sub_no_byte(s, b, from, to, f, t);
                },
                None => lemma_sub_no_byte(s, b, from, to, f, t),
            }
        }
    }
    if f == t {
        assert(h.len() == 0);
    }
}

/// Every URI a parse produces is canonical.
pub proof fn lemma_uri_spec_canonical(s: Seq<u8>, from: int, to: int)
    requires
        0 <= from <= to <= s.len(),
        uri_spec(s, from, to) is Ok,
    ensures
        uri_canonical(uri_spec(s, from, to)->Ok_0),
{
    let m = uri_spec(s, from, to)->Ok_0;
    let (scheme, f) = scheme_prefix(s, from, to);
    assert(from <= f <= to);
    let q = find_byte(s, QMARK, f, to);
    lemma_find_byte(s, QMARK, f, to);
    let body_end = match q {
        Some(i) => i,
        None => to,
    };
    assert(!has_byte(s, QMARK, f, body_end));
    crate::uri::lemma_segment_end(s, SEMI, f, body_end);
    let uh_end = segment_end(s, SEMI, f, body_end);
    lemma_userinfo_ok(s, f, uh_end);
    let (user, password, hs) = userinfo_spec(s, f, uh_end)->Ok_0;
    lemma_has_byte_sub(s, SEMI, f, uh_end, hs, uh_end);
    lemma_has_byte_sub(s, QMARK, f, body_end, hs, uh_end);
    lemma_host_port_ok(s, hs, uh_end, AT);
    lemma_host_port_ok(s, hs, uh_end, SEMI);
    lemma_host_port_ok(s, hs, uh_end, QMARK);
    assert(all_params_ok(Seq::<(Seq<u8>, Seq<u8>)>::empty()));
    assert(keys_unique(Seq::<(Seq<u8>, Seq<u8>)>::empty()));
    assert(all_headers_ok(Seq::<(Seq<u8>, Seq<u8>)>::empty()));
    if uh_end < body_end {
        lemma_has_byte_sub(s, QMARK, f, body_end, uh_end + 1, body_end);
        lemma_fold_params_ok(s, uh_end + 1, body_end, Seq::empty(), true);
    }
    if let Some(i) = q {
        lemma_fold_headers_ok(s, i + 1, to, Seq::empty());
    }
}

pub proof fn lemma_append_keeps_end(x: Seq<u8>, y: Seq<u8>)
    requires
        x.len() > 0,
        !ws_byte(x[x.len() - 1]),
        y.len() > 0 ==> !ws_byte(y[y.len() - 1]),
    ensures
        (x + y).len() > 0,
        !ws_byte((x + y)[(x + y).len() - 1]),
{
    if y.len() > 0 {
        assert((x + y)[(x + y).len() - 1] == y[y.len() - 1]);
    } else {
        assert((x + y)[(x + y).len() - 1] == x[x.len() - 1]);
    }
}

/// The text of a canonical URI starts and ends with a byte that is not
/// whitespace.
#[verifier::spinoff_prover]
#[verifier::rlimit(80)]
pub proof fn lemma_render_uri_ends(m: UriModel)
    requires
        uri_canonical(m),
    ensures
        render_uri(m).len() > 0,
        !ws_byte(render_uri(m)[0]),
        !ws_byte(render_uri(m)[render_uri(m).len() - 1]),
{
    let x0 = m.scheme + seq![COLON];
    let ui = userinfo_part(m.user, m.password);
    let bh = bracket_host_bytes(m.host);
    let pp = port_part(m.port);
    let ep = escape_params(m.params);
    lemma_escape_params_ok(m.params);
    let pr = params_part(ep);
    let hd = headers_part(m.headers);
    assert(x0[x0.len() - 1] == COLON);
    assert(render_uri(m)[0] == m.scheme[0]);
    // userinfo
    if let Some(u) = m.user {
        let mid: Seq<u8> = match m.password {
            Some(p) => seq![COLON] + escape(p),
            None => Seq::empty(),
        };
        assert(ui == escape(u) + mid + seq![AT]);
        assert(ui[ui.len() - 1] == AT);
    }
    lemma_append_keeps_end(x0, ui);
    // host
    if bh.len() > 0 {
        if bh == m.host {
            assert(host_byte_ok(m.host[m.host.len() - 1]));
        } else {
            assert(bh == seq![LBRACKET] + m.host + seq![RBRACKET]);
            assert(bh[bh.len() - 1] == RBRACKET);
        }
    }
    lemma_append_keeps_end(x0 + ui, bh);
    // port
    if let Some(n) = m.port {
        assert(pp == seq![COLON] + dec_digits(n as nat));
        lemma_dec_digit_bytes(n as nat);
        crate::uri::lemma_dec_digits_ascii(n as nat);
        assert(pp[pp.len() - 1] == dec_digits(n as nat)[dec_digits(n as nat).len() - 1]);
        assert(is_digit(dec_digits(n as nat)[dec_digits(n as nat).len() - 1]));
    }
    lemma_append_keeps_end(x0 + ui + bh, pp);
    // parameters
    if ep.len() > 0 {
        let kv = ep.last();
        assert(kv == ep[ep.len() - 1]);
        assert(written_param_ok(ep[ep.len() - 1]));
        lemma_param_part_body(kv);
        let pb = param_body(kv);
        assert(pr == params_part(ep.drop_last()) + param_part(kv));
        if kv.1.len() > 0 {
            assert(pb[pb.len() - 1] == kv.1[kv.1.len() - 1]);
        } else {
            assert(pb[pb.len() - 1] == kv.0[kv.0.len() - 1]);
        }
        assert(param_part(kv)[param_part(kv).len() - 1] == pb[pb.len() - 1]);
        assert(pr[pr.len() - 1] == param_part(kv)[param_part(kv).len() - 1]);
    }
    lemma_append_keeps_end(x0 + ui + bh + pp, pr);
    // headers
    if m.headers.len() > 0 {
        let h = m.headers;
        let kv = h.last();
        let item = header_item(kv);
        lemma_escape_no_delims(kv.1);
        assert(item == escape(kv.0) + seq![EQ_] + escape(kv.1));
        if escape(kv.1).len() > 0 {
            assert(item[item.len() - 1] == escape(kv.1)[escape(kv.1).len() - 1]);
        } else {
            assert(item[item.len() - 1] == EQ_);
        }
        let hl = crate::uri::header_list(h);
        if h.len() == 1 {
            assert(hl == header_item(h[0]));
            assert(h[0] == kv);
        } else {
            assert(hl == crate::uri::header_list(h.drop_last()) + seq![AMP] + item);
        }
        assert(hl[hl.len() - 1] == item[item.len() - 1]);
        assert(hd == seq![QMARK] + hl);
        assert(hd[hd.len() - 1] == hl[hl.len() - 1]);
    }
    lemma_append_keeps_end(x0 + ui + bh + pp + pr, hd);
    assert(render_uri(m) == x0 + ui + bh + pp + pr + hd);
}

/// A canonical URI written out parses back as `uri_reparsed`.
pub proof fn lemma_uri_whole_rendered(m: UriModel)
    requires
        uri_canonical(m),
    ensures
        uri_of_bytes(render_uri(m)) == Ok::<UriModel, crate::error::ParseError>(uri_reparsed(m)),
{
    let r = render_uri(m);
    assert(r.subrange(0, r.len() as int) =~= r);
    lemma_uri_rendered(r, 0, m);
    lemma_render_uri_ends(m);
    lemma_trim_id(r, 0, r.len() as int);
}

/// What a written URI reads back as is canonical and reads back as itself;
/// when no two parameter keys are written alike, it is also written as the
/// URI was.
pub proof fn lemma_uri_reparsed_fixed(m: UriModel)
    requires
        uri_canonical(m),
    ensures
        uri_canonical(uri_reparsed(m)),
        uri_reparsed(uri_reparsed(m)) == uri_reparsed(m),
        keys_unique(escape_params(m.params)) ==> render_uri(uri_reparsed(m)) == render_uri(m),
{
    let ep = escape_params(m.params);
    let m1 = uri_reparsed(m);
    lemma_escape_params_ok(m.params);
    let empty = Seq::<(Seq<u8>, Seq<u8>)>::empty();
    lemma_upsert_all_keeps(empty, ep, |kv: (Seq<u8>, Seq<u8>)| written_param_ok(kv));
    let q = m1.params;
    assert(all_written_params_ok(q)) by {
        assert forall|i: int| 0 <= i < q.len() implies written_param_ok(#[trigger] q[i]) by {
            assert((|kv: (Seq<u8>, Seq<u8>)| written_param_ok(kv))(q[i]));
        }
    }
    assert(uri_params_ok(q)) by {
        assert forall|i: int| 0 <= i < q.len() implies param_ok(#[trigger] q[i]) by {
            assert(written_param_ok(q[i]));
        }
        assert forall|i: int| 0 <= i < q.len() implies no_byte(#[trigger] q[i].0, QMARK) && no_byte(
            q[i].1,
            QMARK,
        ) by {
            assert(written_param_ok(q[i]));
        }
    }
    lemma_escape_params_fixed(q);
    lemma_upsert_all_appends(empty, q);
    assert(empty + q =~= q);
    if keys_unique(ep) {
        lemma_upsert_all_appends(empty, ep);
        assert(empty + ep =~= ep);
        lemma_escape_params_fixed(ep);
        assert(escape_params(m1.params) == escape_params(m.params));
    }
}

/// Serialising a parsed URI and parsing the text again gives the same URI
/// with its parameters as written (`uri_reparsed`: the bytes `; ? & = < >`
/// of parameter keys and values stay escaped, as parameters are not
/// pct-decoded), and from then on the text is a fixed point: that URI
/// serialises and parses back to itself. When no two parameter keys are
/// written alike, the second serialisation is the same text as the first.
pub proof fn uri_round_trip(s: Seq<u8>, m: UriModel)
    requires
        uri_of_bytes(s) == Ok::<UriModel, crate::error::ParseError>(m),
    ensures
        uri_of_bytes(render_uri(m)) == Ok::<UriModel, crate::error::ParseError>(uri_reparsed(m)),
        uri_of_bytes(render_uri(uri_reparsed(m))) == Ok::<UriModel, crate::error::ParseError>(
            uri_reparsed(m),
        ),
        keys_unique(escape_params(m.params)) ==> render_uri(uri_reparsed(m)) == render_uri(m),
{
    crate::scan::lemma_trim_range(s, 0, s.len() as int, true);
    let (from, to) = trim_range(s, 0, s.len() as int, true);
    lemma_uri_spec_canonical(s, from, to);
    lemma_uri_whole_rendered(m);
    lemma_uri_reparsed_fixed(m);
    lemma_uri_whole_rendered(uri_reparsed(m));
}

// ---------------------------------------------------------------------------
// Addresses
pub proof fn lemma_header_list_no_byte(h: Pairs, b: u8)
    requires
        needs_escape(b),
        b != PCT,
        b != EQ_,
        b != AMP,
    ensures
        no_byte(crate::uri::header_list(h), b),
    decreases h.len(),
{
    if h.len() > 0 {
        let kv = h.last();
        lemma_escape_bytes(kv.0);
        lemma_escape_bytes(kv.1);
        assert(no_byte(escape(kv.0), b));
        assert(no_byte(escape(kv.1), b));
        lemma_no_byte_concat(escape(kv.0), seq![EQ_], b);
        lemma_no_byte_concat(escape(kv.0) + seq![EQ_], escape(kv.1), b);
        if h.len() > 1 {
            lemma_header_list_no_byte(h.drop_last(), b);
            lemma_no_byte_concat(crate::uri::header_list(h.drop_last()), seq![AMP], b);
            lemma_no_byte_concat(
                crate::uri::header_list(h.drop_last()) + seq![AMP],
                header_item(kv),
                b,
            );
        } else {
            assert(h[0] == kv);
        }
    }
}

/// The text of a canonical URI holds no `>`.
pub proof fn lemma_render_uri_no_gt(m: UriModel)
    requires
        uri_canonical(m),
    ensures
        no_byte(render_uri(m), GT),
{
    assert(no_byte(m.scheme, GT));
    lemma_no_byte_concat(m.scheme, seq![COLON], GT);
    let ui = userinfo_part(m.user, m.password);
    if let Some(u) = m.user {
        lemma_escape_no_delims(u);
        let mid: Seq<u8> = match m.password {
            Some(p) => seq![COLON] + escape(p),
            None => Seq::empty(),
        };
        if let Some(p) = m.password {
            lemma_escape_no_delims(p);
            lemma_no_byte_concat(seq![COLON], escape(p), GT);
        }
        lemma_no_byte_concat(escape(u), mid, GT);
        lemma_no_byte_concat(escape(u) + mid, seq![AT], GT);
    }
    let x1 = m.scheme + seq![COLON] + ui;
    lemma_no_byte_concat(m.scheme + seq![COLON], ui, GT);
    assert(no_byte(m.host, GT)) by {
        assert forall|i: int| 0 <= i < m.host.len() implies #[trigger] m.host[i] != GT by {
            assert(host_byte_ok(m.host[i]));
        }
    }
    lemma_no_byte_concat(seq![LBRACKET], m.host, GT);
    lemma_no_byte_concat(seq![LBRACKET] + m.host, seq![RBRACKET], GT);
    let bh = bracket_host_bytes(m.host);
    lemma_no_byte_concat(x1, bh, GT);
    let pp = port_part(m.port);
    if let Some(n) = m.port {
        lemma_dec_digit_bytes(n as nat);
        assert(no_byte(dec_digits(n as nat), GT)) by {
            assert forall|i: int| 0 <= i < dec_digits(n as nat).len() implies #[trigger] dec_digits(
                n as nat,
            )[i] != GT by {
                assert(is_digit(dec_digits(n as nat)[i]));
            }
        }
        lemma_no_byte_concat(seq![COLON], dec_digits(n as nat), GT);
    }
    lemma_no_byte_concat(x1 + bh, pp, GT);
    let ep = escape_params(m.params);
    lemma_escape_params_ok(m.params);
    assert forall|i: int| 0 <= i < ep.len() implies no_byte(#[trigger] ep[i].0, GT) && no_byte(
        ep[i].1,
        GT,
    ) by {
        assert(written_param_ok(ep[i]));
    }
    lemma_params_part_no_byte(ep, GT);
    lemma_no_byte_concat(x1 + bh + pp, params_part(ep), GT);
    lemma_header_list_no_byte(m.headers, GT);
    lemma_no_byte_concat(seq![QMARK], crate::uri::header_list(m.headers), GT);
    lemma_no_byte_concat(x1 + bh + pp + params_part(ep), headers_part(m.headers), GT);
    assert(render_uri(m) == x1 + bh + pp + params_part(ep) + headers_part(m.headers));
}

/// A parameter of the bare form is a parameter as `param_entry` reads it;
/// one that goes to the URI holds no `?`.
pub proof fn lemma_bare_entry_param(s: Seq<u8>, a: int, b: int)
    requires
        bare_entry(s, a, b) matches Ok(Some(_)),
    ensures
        ({
            let (k, v, at_address) = bare_entry(s, a, b)->Ok_0->Some_0;
            &&& param_entry(s, a, b) == Ok::<Option<(Seq<u8>, Seq<u8>)>, crate::error::ParseError>(
                Some((k, v)),
            )
            &&& !at_address ==> no_byte(k, QMARK) && no_byte(v, QMARK)
        }),
{
    reveal(bare_entry);
    reveal(param_entry);
    let (k, v, at_address) = bare_entry(s, a, b)->Ok_0->Some_0;
    if !at_address {
        lemma_has_no_byte(k, QMARK);
        lemma_has_no_byte(v, QMARK);
    }
}

/// The parameters the bare form splits between URI and Address are as
/// `uri_params_ok` and `all_params_ok` say, no key twice on either side.
pub proof fn lemma_fold_bare_ok(s: Seq<u8>, start: int, end: int, up: Pairs, ap: Pairs)
    requires
        fold_bare(s, start, end, up, ap) is Ok,
        uri_params_ok(up),
        all_params_ok(ap),
        keys_unique(ap),
    ensures
        uri_params_ok(fold_bare(s, start, end, up, ap)->Ok_0.0),
        all_params_ok(fold_bare(s, start, end, up, ap)->Ok_0.1),
        keys_unique(fold_bare(s, start, end, up, ap)->Ok_0.1),
    decreases end - start,
{
    reveal(fold_bare);
    if 0 <= start <= end <= s.len() {
        let seg_end = segment_end(s, SEMI, start, end);
        crate::uri::lemma_segment_end(s, SEMI, start, end);
        let entry = bare_entry(s, start, seg_end);
        let (up2, ap2) = match entry {
            Ok(Some((k, v, true))) => (up, upsert(ap, k, v)),
            Ok(Some((k, v, false))) => (upsert(up, k, v), ap),
            _ => (up, ap),
        };
        if let Ok(Some((k, v, at_address))) = entry {
            lemma_bare_entry_param(s, start, seg_end);
            lemma_param_entry_ok(s, start, seg_end);
            if at_address {
                lemma_upsert_shape(ap, k, v);
                let n = upsert(ap, k, v);
                assert forall|i: int| 0 <= i < n.len() implies param_ok(#[trigger] n[i]) by {
                    if n[i] != (k, v) {
                        assert(n[i] == ap[i]);
                    }
                }
            } else {
                lemma_upsert_shape(up, k, v);
                let n = upsert(up, k, v);
                assert forall|i: int| 0 <= i < n.len() implies param_ok(#[trigger] n[i]) && no_byte(
                    n[i].0,
                    QMARK,
                ) && no_byte(n[i].1, QMARK) by {
                    if n[i] != (k, v) {
                        assert(n[i] == up[i]);
                    }
                }
            }
        }
        if seg_end < end {
            lemma_fold_bare_ok(s, seg_end + 1, end, up2, ap2);
        }
    }
}

/// An Address model as a parse leaves it: a display name without `<`, a
/// canonical URI, and parameters as `param_ok` says with no key twice.
pub open spec fn address_canonical(a: AddressModel) -> bool {
    &&& match a.display_name {
        Some(d) => no_byte(d, LT),
        None => true,
    }
    &&& match a.uri {
        Some(u) => uri_canonical(u),
        None => false,
    }
    &&& all_params_ok(a.params)
    &&& keys_unique(a.params)
}

/// Every Address a parse produces is canonical.
pub proof fn lemma_address_spec_canonical(s: Seq<u8>)
    requires
        address_spec(s) is Ok,
    ensures
        address_canonical(address_spec(s)->Ok_0),
{
    lemma_trim_range(s, 0, s.len() as int, true);
    let (from, to) = trim_range(s, 0, s.len() as int, true);
    lemma_find_byte(s, LT, from, to);
    assert(all_params_ok(Seq::<(Seq<u8>, Seq<u8>)>::empty()));
    assert(keys_unique(Seq::<(Seq<u8>, Seq<u8>)>::empty()));
    match find_byte(s, LT, from, to) {
        None => {
            crate::uri::lemma_segment_end(s, SEMI, from, to);
            let uri_end = segment_end(s, SEMI, from, to);
            lemma_uri_spec_canonical(s, from, uri_end);
            let u = uri_spec(s, from, uri_end)->Ok_0;
            if uri_end < to {
                lemma_fold_bare_ok(s, uri_end + 1, to, u.params, Seq::empty());
            }
        },
        Some(lt) => {
            lemma_find_byte(s, GT, lt + 1, to);
            let gt = find_byte(s, GT, lt + 1, to)->Some_0;
            lemma_uri_spec_canonical(s, lt + 1, gt);
            lemma_fold_params_ok(s, gt + 1, to, Seq::empty(), false);
            lemma_trim_range(s, from, lt, false);
            let (f, t) = trim_range(s, from, lt, false);
            if f < t {
                if t - f >= 2 && s[f] == DQUOTE && s[t - 1] == DQUOTE {
                    lemma_sub_no_byte(s, LT, from, lt, f + 1, t - 1);
                } else {
                    lemma_sub_no_byte(s, LT, from, lt, f, t);
                }
            }
        },
    }
}

/// The parameters of a canonical list end in a byte that is not whitespace.
pub proof fn lemma_params_part_end(p: Pairs)
    requires
        all_params_ok(p),
        p.len() > 0,
    ensures
        params_part(p).len() > 0,
        !ws_byte(params_part(p)[params_part(p).len() - 1]),
{
    let kv = p.last();
    let j = p.len() - 1;
    assert(kv == p[j]);
    assert(param_ok(p[j]));
    lemma_param_part_body(kv);
    let pb = param_body(kv);
    let pr = params_part(p);
    assert(pr == params_part(p.drop_last()) + param_part(kv));
    if kv.1.len() > 0 {
        assert(pb[pb.len() - 1] == kv.1[kv.1.len() - 1]);
    } else {
        assert(pb[pb.len() - 1] == kv.0[kv.0.len() - 1]);
    }
    assert(param_part(kv)[param_part(kv).len() - 1] == pb[pb.len() - 1]);
    assert(pr[pr.len() - 1] == param_part(kv)[param_part(kv).len() - 1]);
}

/// A parameter segment with nothing in it is skipped.
pub proof fn lemma_param_entry_empty(s: Seq<u8>, x: int)
    ensures
        param_entry(s, x, x) == Ok::<Option<(Seq<u8>, Seq<u8>)>, crate::error::ParseError>(None),
{
    reveal(param_entry);
    assert(skip_blank(s, x, x, true) == x);
    assert(skip_blank_back(s, x, x, true) == x);
}

/// The display name as written: quoted and followed by a space.
pub open spec fn display_part(d: Option<Seq<u8>>) -> Seq<u8> {
    match d {
        Some(x) => seq![DQUOTE] + x + seq![DQUOTE, SP],
        None => Seq::empty(),
    }
}

/// A written display name reads back as itself.
pub proof fn lemma_display_rendered(r: Seq<u8>, d: Option<Seq<u8>>)
    requires
        placed(r, 0, display_part(d)),
    ensures
        display_spec(r, 0, display_part(d).len() as int) == d,
        !display_unterminated(r, 0, display_part(d).len() as int),
{
    let disp = display_part(d);
    let lt = disp.len() as int;
    match d {
        None => {
            assert(lt == 0);
            assert(trim_range(r, 0, 0, false) == (0int, 0int));
        },
        Some(x) => {
            lemma_placed_at(r, 0, disp);
            assert(r[0int + 0int] == disp[0]);
            assert(r[0int + (lt - 1)] == disp[lt - 1]);
            assert(r[0int + (lt - 2)] == disp[lt - 2]);
            assert(r[0] == DQUOTE && r[lt - 1] == SP && r[lt - 2] == DQUOTE);
            assert(skip_blank(r, 0, lt, false) == 0);
            assert(skip_blank_back(r, 0, lt - 1, false) == lt - 1);
            assert(skip_blank_back(r, 0, lt, false) == lt - 1);
            lemma_placed_split(r, 0, seq![DQUOTE] + x, seq![DQUOTE, SP]);
            lemma_placed_split(r, 0, seq![DQUOTE], x);
            assert(r.subrange(1, lt - 2) == x);
        },
    }
}

/// Parameters written after the `>` read back as themselves.
pub proof fn lemma_address_params_rendered(r: Seq<u8>, gt: int, p: Pairs)
    requires
        gt >= 0,
        placed(r, gt + 1, params_part(p)),
        r.len() == gt + 1 + params_part(p).len(),
        all_params_ok(p),
        keys_unique(p),
    ensures
        fold_segments(r, gt + 1, r.len() as int, SEMI, SegmentKind::Param, Seq::empty()) == Ok::<
            Pairs,
            crate::error::ParseError,
        >(p),
{
    let to = r.len() as int;
    let pr = params_part(p);
    reveal(fold_segments);
    lemma_param_entry_empty(r, gt + 1);
    if pr.len() == 0 {
        assert(find_byte(r, SEMI, to, to) is None);
        assert(segment_end(r, SEMI, gt + 1, to) == to);
        assert(p.len() == 0);
        assert(p =~= Seq::<(Seq<u8>, Seq<u8>)>::empty());
    } else {
        lemma_params_part_cons(p);
        lemma_placed_at(r, gt + 1, pr);
        assert(r[gt + 1 + 0] == pr[0]);
        lemma_find_is(r, SEMI, gt + 1, gt + 1, to);
        assert(segment_end(r, SEMI, gt + 1, to) == gt + 1);
        lemma_fold_params_rendered(r, gt + 2, to, p, Seq::empty());
        lemma_upsert_all_appends(Seq::empty(), p);
        assert(Seq::<(Seq<u8>, Seq<u8>)>::empty() + p =~= p);
    }
}

/// Where the parts of a written canonical Address stand, and what each reads
/// back as.
#[verifier::spinoff_prover]
#[verifier::rlimit(80)]
pub proof fn lemma_address_layout(a: AddressModel)
    requires
        address_canonical(a),
    ensures
        ({
            let r = render_address(a);
            let lt = display_part(a.display_name).len() as int;
            let gt = lt + 1 + render_uri(a.uri->Some_0).len();
            let to = r.len() as int;
            &&& trim_range(r, 0, to, true) == (0int, to)
            &&& find_byte(r, LT, 0, to) == Some(lt)
            &&& find_byte(r, GT, lt + 1, to) == Some(gt)
            &&& uri_spec(r, lt + 1, gt) == Ok::<UriModel, crate::error::ParseError>(
                uri_reparsed(a.uri->Some_0),
            )
            &&& fold_segments(r, gt + 1, to, SEMI, SegmentKind::Param, Seq::empty()) == Ok::<
                Pairs,
                crate::error::ParseError,
            >(a.params)
            &&& display_spec(r, 0, lt) == a.display_name
            &&& !display_unterminated(r, 0, lt)
        }),
{
    let u = a.uri->Some_0;
    let disp = display_part(a.display_name);
    let ur = render_uri(u);
    let pr = params_part(a.params);
    let r = render_address(a);
    assert(r =~= disp + (seq![LT] + (ur + (seq![GT] + pr))));
    let lt = disp.len() as int;
    let gt = lt + 1 + ur.len();
    let to = r.len() as int;
    assert(r.subrange(0, to) =~= r);
    lemma_placed_split(r, 0, disp, seq![LT] + (ur + (seq![GT] + pr)));
    lemma_placed_split(r, lt, seq![LT], ur + (seq![GT] + pr));
    lemma_placed_split(r, lt + 1, ur, seq![GT] + pr);
    lemma_placed_split(r, gt, seq![GT], pr);
    assert(r[lt] == LT) by {
        lemma_placed_at(r, lt, seq![LT]);
        assert(r[lt + 0] == LT);
    }
    assert(r[gt] == GT) by {
        lemma_placed_at(r, gt, seq![GT]);
        assert(r[gt + 0] == GT);
    }
    // outer trim
    assert(!ws_byte(r[to - 1])) by {
        if pr.len() > 0 {
            lemma_params_part_end(a.params);
            lemma_placed_at(r, gt + 1, pr);
            assert(r[gt + 1 + (pr.len() - 1)] == pr[pr.len() - 1]);
        }
    }
    assert(!ws_byte(r[0])) by {
        if a.display_name is Some {
            lemma_placed_at(r, 0, disp);
            assert(r[0int + 0int] == disp[0]);
        }
    }
    lemma_trim_id(r, 0, to);
    // `<` and `>`
    assert(no_byte(disp, LT)) by {
        if let Some(d) = a.display_name {
            lemma_no_byte_concat(seq![DQUOTE], d, LT);
            lemma_no_byte_concat(seq![DQUOTE] + d, seq![DQUOTE, SP], LT);
        }
    }
    lemma_placed_no_byte(r, 0, disp, LT);
    lemma_find_is(r, LT, 0, lt, to);
    lemma_render_uri_no_gt(u);
    lemma_placed_no_byte(r, lt + 1, ur, GT);
    lemma_find_is(r, GT, lt + 1, gt, to);
    lemma_uri_rendered(r, lt + 1, u);
    lemma_address_params_rendered(r, gt, a.params);
    lemma_display_rendered(r, a.display_name);
}

/// An Address as it reads back after being written out: its URI as
/// `uri_reparsed` says, the rest as it was.
pub open spec fn address_reparsed(a: AddressModel) -> AddressModel {
    AddressModel {
        uri: match a.uri {
            Some(u) => Some(uri_reparsed(u)),
            None => None,
        },
        ..a
    }
}

/// The text of a canonical Address parses back as `address_reparsed`.
pub proof fn lemma_address_rendered(a: AddressModel)
    requires
        address_canonical(a),
    ensures
        address_spec(render_address(a)) == Ok::<AddressModel, crate::error::ParseError>(
            address_reparsed(a),
        ),
{
    lemma_address_layout(a);
}

/// Serialising a parsed Address and parsing the text again gives the same
/// Address with the parameters of its URI as written (`address_reparsed`;
/// the Address's own parameters are written and read back unchanged), and
/// from then on the text is a fixed point. When no two URI parameter keys
/// are written alike, the second serialisation is the same text as the
/// first.
pub proof fn address_round_trip(s: Seq<u8>, a: AddressModel)
    requires
        address_spec(s) == Ok::<AddressModel, crate::error::ParseError>(a),
    ensures
        address_spec(render_address(a)) == Ok::<AddressModel, crate::error::ParseError>(
            address_reparsed(a),
        ),
        address_spec(render_address(address_reparsed(a))) == Ok::<
            AddressModel,
            crate::error::ParseError,
        >(address_reparsed(a)),
        keys_unique(escape_params(a.uri->Some_0.params)) ==> render_address(address_reparsed(a))
            == render_address(a),
{
    lemma_address_spec_canonical(s);
    lemma_address_rendered(a);
    let u = a.uri->Some_0;
    lemma_uri_reparsed_fixed(u);
    let a1 = address_reparsed(a);
    assert(address_canonical(a1));
    lemma_address_rendered(a1);
    assert(address_reparsed(a1) == a1);
}

// ---------------------------------------------------------------------------
// What every parse result holds
/// A URI that a parse produces has one of the schemes `sip`, `sips`, `tel`;
/// a password only with a user; a host without `<`, `>`, `[`, `]` or
/// whitespace; parameter keys that are non-empty, lowercase and distinct;
/// and header keys that are non-empty and distinct.
pub proof fn parsed_uri_invariants(s: Seq<u8>, from: int, to: int, m: UriModel)
    requires
        0 <= from <= to <= s.len(),
        uri_spec(s, from, to) == Ok::<UriModel, crate::error::ParseError>(m),
    ensures
        m.scheme == sip_scheme() || m.scheme == sips_scheme() || m.scheme == tel_scheme(),
        m.password is Some ==> m.user is Some,
        host_ok(m.host),
        keys_unique(m.params),
        forall|i: int| 0 <= i < m.params.len() ==> (#[trigger] m.params[i]).0.len() > 0 && lower_bytes(
            m.params[i].0,
        ) == m.params[i].0,
        keys_unique(m.headers),
        forall|i: int| 0 <= i < m.headers.len() ==> (#[trigger] m.headers[i]).0.len() > 0,
{
    lemma_uri_spec_canonical(s, from, to);
    assert forall|i: int| 0 <= i < m.params.len() implies (#[trigger] m.params[i]).0.len() > 0
        && lower_bytes(m.params[i].0) == m.params[i].0 by {
        assert(param_ok(m.params[i]));
    }
    assert forall|i: int| 0 <= i < m.headers.len() implies (#[trigger] m.headers[i]).0.len() > 0 by {
        assert(header_ok(m.headers[i]));
    }
}

/// An Address that a parse produces has a URI; its parameter keys are
/// non-empty, lowercase and distinct; and it has no display name exactly
/// when no `<` follows the outer whitespace, or nothing stands before the
/// first `<`.
pub proof fn parsed_address_invariants(s: Seq<u8>, a: AddressModel)
    requires
        address_spec(s) == Ok::<AddressModel, crate::error::ParseError>(a),
    ensures
        a.uri is Some,
        keys_unique(a.params),
        forall|i: int| 0 <= i < a.params.len() ==> (#[trigger] a.params[i]).0.len() > 0 && lower_bytes(
            a.params[i].0,
        ) == a.params[i].0,
        ({
            let (from, to) = trim_range(s, 0, s.len() as int, true);
            a.display_name is None <==> match find_byte(s, LT, from, to) {
                None => true,
                Some(lt) => lt == from,
            }
        }),
{
    lemma_address_spec_canonical(s);
    assert forall|i: int| 0 <= i < a.params.len() implies (#[trigger] a.params[i]).0.len() > 0
        && lower_bytes(a.params[i].0) == a.params[i].0 by {
        assert(param_ok(a.params[i]));
    }
    lemma_trim_range(s, 0, s.len() as int, true);
    let (from, to) = trim_range(s, 0, s.len() as int, true);
    lemma_find_byte(s, LT, from, to);
    if let Some(lt) = find_byte(s, LT, from, to) {
        lemma_trim_range(s, from, lt, false);
        let (f, t) = trim_range(s, from, lt, false);
        if lt > from {
            assert(!ws_byte(s[from]));
            assert(!blank(s[from], false));
            if f == t {
                assert(from < f || from >= t);
                assert(blank(s[from], false));
            }
        }
    }
}

/// No `;` in `[from, to)`: a URI parsed from it has no parameters.
pub proof fn lemma_uri_no_semi_no_params(s: Seq<u8>, from: int, to: int)
    requires
        0 <= from <= to <= s.len(),
        !has_byte(s, SEMI, from, to),
        uri_spec(s, from, to) is Ok,
    ensures
        uri_spec(s, from, to)->Ok_0.params.len() == 0,
{
    let (scheme, f) = scheme_prefix(s, from, to);
    lemma_find_byte(s, QMARK, f, to);
    let body_end = match find_byte(s, QMARK, f, to) {
        Some(i) => i,
        None => to,
    };
    lemma_has_byte_sub(s, SEMI, from, to, f, body_end);
    lemma_find_none(s, SEMI, f, body_end);
}

/// The bare form splits its parameters by key: every key of the Address's
/// parameters is `tag`, `q` or `expires`, and no key of the URI's is.
pub proof fn lemma_fold_bare_split(s: Seq<u8>, start: int, end: int, up: Pairs, ap: Pairs)
    requires
        fold_bare(s, start, end, up, ap) is Ok,
        keys_unique(up),
        keys_unique(ap),
        forall|i: int| 0 <= i < up.len() ==> !is_address_param(#[trigger] up[i].0),
        forall|i: int| 0 <= i < ap.len() ==> is_address_param(#[trigger] ap[i].0),
    ensures
        ({
            let (up2, ap2) = fold_bare(s, start, end, up, ap)->Ok_0;
            &&& keys_unique(up2)
            &&& keys_unique(ap2)
            &&& forall|i: int| 0 <= i < up2.len() ==> !is_address_param(#[trigger] up2[i].0)
            &&& forall|i: int| 0 <= i < ap2.len() ==> is_address_param(#[trigger] ap2[i].0)
        }),
    decreases end - start,
{
    reveal(fold_bare);
    if 0 <= start <= end <= s.len() {
        let seg_end = segment_end(s, SEMI, start, end);
        crate::uri::lemma_segment_end(s, SEMI, start, end);
        let entry = bare_entry(s, start, seg_end);
        let (up2, ap2) = match entry {
            Ok(Some((k, v, true))) => (up, upsert(ap, k, v)),
            Ok(Some((k, v, false))) => (upsert(up, k, v), ap),
            _ => (up, ap),
        };
        if let Ok(Some((k, v, at_address))) = entry {
            reveal(bare_entry);
            assert(at_address == is_address_param(k));
            if at_address {
                lemma_upsert_shape(ap, k, v);
                assert forall|i: int| 0 <= i < ap2.len() implies is_address_param(#[trigger] ap2[i].0) by {
                    if ap2[i] != (k, v) {
                        assert(ap2[i] == ap[i]);
                    }
                }
            } else {
                lemma_upsert_shape(up, k, v);
                assert forall|i: int| 0 <= i < up2.len() implies !is_address_param(#[trigger] up2[i].0) by {
                    if up2[i] != (k, v) {
                        assert(up2[i] == up[i]);
                    }
                }
            }
        }
        if seg_end < end {
            lemma_fold_bare_split(s, seg_end + 1, end, up2, ap2);
        }
    }
}

/// The bare form (`Address::parse` on input with no `<`) gives no display
/// name, only `tag`, `q` and `expires` as the Address's parameters, and
/// none of them among the URI's parameters.
pub proof fn parsed_bare_address_split(s: Seq<u8>, from: int, to: int, a: AddressModel)
    requires
        0 <= from <= to <= s.len(),
        bare_spec(s, from, to) == Ok::<AddressModel, crate::error::ParseError>(a),
    ensures
        a.display_name is None,
        a.uri is Some,
        forall|i: int| 0 <= i < a.params.len() ==> is_address_param(#[trigger] a.params[i].0),
        forall|i: int| 0 <= i < a.uri->Some_0.params.len() ==> !is_address_param(
            #[trigger] a.uri->Some_0.params[i].0,
        ),
{
    crate::uri::lemma_segment_end(s, SEMI, from, to);
    let uri_end = segment_end(s, SEMI, from, to);
    lemma_uri_no_semi_no_params(s, from, uri_end);
    let u = uri_spec(s, from, uri_end)->Ok_0;
    let empty = Seq::<(Seq<u8>, Seq<u8>)>::empty();
    if uri_end < to {
        assert(keys_unique(u.params));
        lemma_fold_bare_split(s, uri_end + 1, to, u.params, empty);
    }
}

// ---------------------------------------------------------------------------
// Hex digits and the address of record
/// pct-decoding reads hex digits by value and in either case: a byte
/// written as `%XX` with uppercase or with lowercase hex digits decodes back
/// to itself, and a hex digit has the value of its uppercase form.
pub proof fn pct_decoding_reads_hex_by_value(x: u8, b: u8)
    ensures
        pct_bytes(pct3(x), 0, 3) == seq![x],
        pct_bytes(pct3_lower(x), 0, 3) == seq![x],
        is_hex(b) ==> is_hex(crate::scan::ascii_upper(b)) && hex_val(b) == hex_val(
            crate::scan::ascii_upper(b),
        ),
{
    let hi = x as int / 16;
    let lo = x as int % 16;
    lemma_hex_digit_upper(hi);
    lemma_hex_digit_upper(lo);
    lemma_hex_digit_lower_value(hi);
    lemma_hex_digit_lower_value(lo);
    assert(hi * 16 + lo == x as int);
    let u = pct3(x);
    let l = pct3_lower(x);
    assert(pct_bytes(u, 3, 3) == Seq::<u8>::empty());
    assert(pct_bytes(l, 3, 3) == Seq::<u8>::empty());
    assert(pct_bytes(u, 0, 3) == seq![x] + pct_bytes(u, 3, 3));
    assert(pct_bytes(l, 0, 3) == seq![x] + pct_bytes(l, 3, 3));
    assert(seq![x] + Seq::<u8>::empty() =~= seq![x]);
}

pub proof fn lemma_hex_digit_lower_value(n: int)
    requires
        0 <= n < 16,
    ensures
        is_hex(hex_digit_lower(n)),
        hex_val(hex_digit_lower(n)) == n,
{
}

/// The address of record names the user exactly when the URI has one: it
/// holds an `@` exactly then, and it is as long as the scheme plus one, the
/// host, and the user plus one when there is a user. Without a user, and
/// with a host that holds no `:`, it parses back to a URI with the same
/// scheme and host and nothing else.
pub proof fn aor_names_user_exactly_when_present(s: Seq<u8>, from: int, to: int, m: UriModel)
    requires
        0 <= from <= to <= s.len(),
        uri_spec(s, from, to) == Ok::<UriModel, crate::error::ParseError>(m),
    ensures
        has_byte(aor_bytes(m), AT, 0, aor_bytes(m).len() as int) <==> m.user is Some,
        aor_bytes(m).len() == m.scheme.len() + 1 + m.host.len() + match m.user {
            Some(u) => u.len() + 1,
            None => 0,
        },
        m.user is None && no_byte(m.host, COLON) ==> uri_of_bytes(aor_bytes(m)) == Ok::<
            UriModel,
            crate::error::ParseError,
        >(
            (UriModel {
                scheme: m.scheme,
                user: None,
                password: None,
                host: m.host,
                port: None,
                params: Seq::empty(),
                headers: Seq::empty(),
            }),
        ),
{
    lemma_uri_spec_canonical(s, from, to);
    let r = aor_bytes(m);
    let sc = m.scheme + seq![COLON];
    let mid: Seq<u8> = match m.user {
        Some(u) => u + seq![AT],
        None => Seq::empty(),
    };
    assert(r == sc + mid + m.host);
    assert(no_byte(sc, AT));
    match m.user {
        Some(u) => {
            let k: int = (sc.len() + u.len()) as int;
            assert(r[k] == (sc + mid)[k]);
            assert(mid[u.len() as int] == AT);
            assert(0 <= k < r.len() && r[k] == AT);
        },
        None => {
            assert(sc + mid =~= sc);
            lemma_no_byte_concat(sc, m.host, AT);
            lemma_no_byte_has(r, AT);
            if no_byte(m.host, COLON) {
                let m2 = UriModel {
                    scheme: m.scheme,
                    user: None,
                    password: None,
                    host: m.host,
                    port: None,
                    params: Seq::empty(),
                    headers: Seq::empty(),
                };
                assert(keys_unique(m2.params) && all_params_ok(m2.params));
                assert(all_headers_ok(m2.headers) && keys_unique(m2.headers));
                assert(uri_canonical(m2));
                assert(!has_byte(m.host, COLON, 0, m.host.len() as int)) by {
                    lemma_no_byte_has(m.host, COLON);
                }
                assert(escape_params(m2.params) =~= Seq::<(Seq<u8>, Seq<u8>)>::empty());
                assert(render_uri(m2) =~= r);
                lemma_uri_whole_rendered(m2);
                assert(uri_reparsed(m2) == m2);
            }
        },
    }
}

} // verus!
