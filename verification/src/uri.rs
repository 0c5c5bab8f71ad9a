//! SIP URI parser per RFC 3261 §19.1 (plus tel: per RFC 3966).
//!
//! The meaning of a parse is given over bytes: `uri_spec(s, from, to)` is the
//! model of the URI written in `s[from..to]`, and a `Uri` is seen through the
//! bytes of its fields (`UriModel`). `render_uri` is the serialisation.
use vstd::prelude::*;
use vstd::string::StringSliceAdditionalSpecFns;
use vstd::utf8::{is_ascii_chars_encode_utf8, valid_utf8, valid_utf8_concat};

use crate::error::ParseError;
use crate::scan::{
    all_digits, detect_scheme, digits_only, downcase_str, find_byte, find_in, has_byte,
    lemma_case_maps_ascii, lemma_find_byte, lemma_rfind_byte, lemma_trim_range, lit_sip,
    lower_bytes, lower_map, lower_range, parse_u16, pct_bytes, pct_decode, rfind_byte, rfind_in,
    scheme_prefix, sip_scheme, slice_str, trim_range, trim_ws, u16_of_digits, ws_byte, AMP, AT,
    COLON, EQ_, GT, LBRACKET, LT, PCT, QMARK, RBRACKET, SEMI,
};
use crate::text::{
    all_ascii, ascii_rewrite, flat_map_bytes, is_cut, lemma_ascii_concat, lemma_ascii_valid,
    lemma_cut_after_ascii, lemma_flat_map_len_pos, lemma_flat_map_push, lemma_flat_map_valid, lemma_sbytes_injective,
    lemma_sbytes_valid, lemma_str_valid, push_all, sbytes, str_eq, string_of_valid,
};

verus! {



/// An ordered list of key/value byte strings.
pub type Pairs = Seq<(Seq<u8>, Seq<u8>)>;

/// The bytes of each field of a URI.
pub struct UriModel {
    pub scheme: Seq<u8>,
    pub user: Option<Seq<u8>>,
    pub password: Option<Seq<u8>>,
    pub host: Seq<u8>,
    pub port: Option<u16>,
    pub params: Pairs,
    pub headers: Pairs,
}

pub open spec fn opt_sbytes(o: Option<String>) -> Option<Seq<u8>> {
    match o {
        Some(s) => Some(sbytes(s@)),
        None => None,
    }
}

pub open spec fn pairs_view(v: Seq<(String, String)>) -> Pairs {
    v.map_values(|p: (String, String)| (sbytes(p.0@), sbytes(p.1@)))
}

/// Parsed SIP or tel URI.
///
/// `params`/`headers` are `Vec<(String, String)>` — not a map — to preserve
/// insertion order.
#[derive(Debug, Clone, PartialEq, Eq)]
pub struct Uri {
    pub scheme: &'static str,
    pub user: Option<String>,
    pub password: Option<String>,
    pub host: String,
    pub port: Option<u16>,
    pub params: Vec<(String, String)>,
    pub headers: Vec<(String, String)>,
}

impl View for Uri {
    type V = UriModel;

    open spec fn view(&self) -> UriModel {
        UriModel {
            scheme: self.scheme.spec_bytes(),
            user: opt_sbytes(self.user),
            password: opt_sbytes(self.password),
            host: sbytes(self.host@),
            port: self.port,
            params: pairs_view(self.params@),
            headers: pairs_view(self.headers@),
        }
    }
}

// ---------------------------------------------------------------------------
// Ordered maps over pairs
/// First position at or after `i` whose key is `k`.
pub open spec fn first_key(v: Pairs, k: Seq<u8>, i: int) -> Option<int>
    decreases v.len() - i,
{
    if i < 0 || i >= v.len() {
        None
    } else if v[i].0 == k {
        Some(i)
    } else {
        first_key(v, k, i + 1)
    }
}

/// Value of the first entry with key `k`.
pub open spec fn lookup(v: Pairs, k: Seq<u8>) -> Option<Seq<u8>> {
    match first_key(v, k, 0) {
        Some(i) => Some(v[i].1),
        None => None,
    }
}

/// Overwrite the value of the first entry with key `k` in place, or append
/// `(k, val)` when there is none.
pub open spec fn upsert(v: Pairs, k: Seq<u8>, val: Seq<u8>) -> Pairs {
    match first_key(v, k, 0) {
        Some(i) => v.update(i, (k, val)),
        None => v.push((k, val)),
    }
}

pub proof fn lemma_first_key(v: Pairs, k: Seq<u8>, i: int)
    requires
        0 <= i,
    ensures
        first_key(v, k, i) matches Some(j) ==> i <= j < v.len() && v[j].0 == k && forall|m: int|
            i <= m < j ==> #[trigger] v[m].0 != k,
        first_key(v, k, i) is None ==> forall|m: int| i <= m < v.len() ==> #[trigger] v[m].0 != k,
    decreases v.len() - i,
{
    if i < v.len() {
        lemma_first_key(v, k, i + 1);
    }
}

/// Where two lists agree on their keys over the first, and the second holds
/// no `k` after that, the first `k` stands at the same place in both.
pub proof fn lemma_first_key_same_keys(p: Pairs, q: Pairs, k: Seq<u8>, i: int)
    requires
        0 <= i,
        p.len() <= q.len(),
        forall|m: int| 0 <= m < p.len() ==> #[trigger] q[m].0 == p[m].0,
        forall|m: int| p.len() <= m < q.len() ==> #[trigger] q[m].0 != k,
    ensures
        first_key(q, k, i) == first_key(p, k, i),
    decreases q.len() - i,
{
    if i < q.len() {
        lemma_first_key_same_keys(p, q, k, i + 1);
    }
}

/// After an upsert, the key reads as the value given, and every other key
/// reads as before.
pub proof fn lemma_lookup_upsert(p: Pairs, k: Seq<u8>, v: Seq<u8>, other: Seq<u8>)
    ensures
        lookup(upsert(p, k, v), k) == Some(v),
        other != k ==> lookup(upsert(p, k, v), other) == lookup(p, other),
{
    lemma_first_key(p, k, 0);
    let q = upsert(p, k, v);
    match first_key(p, k, 0) {
        Some(i) => {
            assert(first_key(q, k, 0) == Some(i)) by {
                lemma_first_key_same_keys(p, q, k, 0);
            }
            if other != k {
                lemma_first_key_same_keys(p, q, other, 0);
                lemma_first_key(p, other, 0);
                if let Some(j) = first_key(p, other, 0) {
                    assert(j != i);
                }
            }
        },
        None => {
            if other != k {
                lemma_first_key_same_keys(p, q, other, 0);
                lemma_first_key(p, other, 0);
                if let Some(j) = first_key(p, other, 0) {
                    assert(q[j] == p[j]);
                }
            }
            lemma_first_key(q, k, 0);
            assert(q[p.len() as int].0 == k);
            match first_key(q, k, 0) {
                Some(j) => {
                    if j < p.len() {
                        assert(q[j] == p[j]);
                    }
                    assert(j == p.len());
                },
                None => {
                    assert(q[p.len() as int].0 != k);
                },
            }
        },
    }
}

/// Insert into an ordered list of string pairs with `upsert` semantics.
pub fn upsert_pair(target: &mut Vec<(String, String)>, key: String, val: String)
    ensures
        pairs_view(final(target)@) == upsert(pairs_view(old(target)@), sbytes(key@), sbytes(val@)),
{
    let ghost k = sbytes(key@);
    let ghost pv = pairs_view(target@);
    let mut i: usize = 0;
    while i < target.len()
        invariant
            i <= target@.len(),
            target@ == old(target)@,
            pv == pairs_view(target@),
            k == sbytes(key@),
            first_key(pv, k, 0) == first_key(pv, k, i as int),
        decreases target@.len() - i,
    {
        let same = target[i].0 == key;
        proof {
            lemma_sbytes_injective(target@[i as int].0@, key@);
            assert(pv[i as int].0 == sbytes(target@[i as int].0@));
        }
        if same {
            target.set(i, (key, val));
            proof {
                assert(pairs_view(target@) =~= pv.update(i as int, (k, sbytes(val@))));
            }
            return ;
        }
        i += 1;
    }
    target.push((key, val));
    proof {
        assert(pairs_view(target@) =~= pv.push((k, sbytes(val@))));
    }
}

// ---------------------------------------------------------------------------
// Fields
/// pct-decoded bytes of `[a, b)`, when they are valid UTF-8.
pub open spec fn pct_field(s: Seq<u8>, a: int, b: int) -> Result<Seq<u8>, ParseError> {
    if valid_utf8(pct_bytes(s, a, b)) {
        Ok(pct_bytes(s, a, b))
    } else {
        Err(ParseError::InvalidUtf8)
    }
}

/// Bytes a stored host may not hold.
pub open spec fn host_byte_ok(b: u8) -> bool {
    b != LT && b != GT && b != LBRACKET && b != RBRACKET && !ws_byte(b)
}

pub open spec fn host_ok(h: Seq<u8>) -> bool {
    forall|i: int| 0 <= i < h.len() ==> host_byte_ok(#[trigger] h[i])
}

pub open spec fn checked_host(h: Seq<u8>, port: Option<u16>) -> Result<
    (Seq<u8>, Option<u16>),
    ParseError,
> {
    if host_ok(h) {
        Ok((h, port))
    } else {
        Err(ParseError::InvalidHost)
    }
}

/// `host[:port]` in `[from, to)`, with the bracketed IPv6 form `[::1]:5060`;
/// a `[` that is never closed is `UnterminatedBracket`.
#[verifier::opaque]
pub open spec fn host_port_spec(s: Seq<u8>, from: int, to: int) -> Result<
    (Seq<u8>, Option<u16>),
    ParseError,
> {
    let (f, t) = trim_range(s, from, to, true);
    if f == t {
        Ok((Seq::empty(), None))
    } else if s[f] == LBRACKET {
        match find_byte(s, RBRACKET, f + 1, t) {
            None => Err(ParseError::UnterminatedBracket),
            Some(c) => {
                let rem = c + 1;
                let port = if rem < t && s[rem] == COLON && rem + 1 < t && all_digits(
                    s,
                    rem + 1,
                    t,
                ) {
                    u16_of_digits(s, rem + 1, t)
                } else {
                    None
                };
                checked_host(s.subrange(f + 1, c), port)
            },
        }
    } else {
        match rfind_byte(s, COLON, f, t) {
            Some(lc) if lc + 1 < t && all_digits(s, lc + 1, t) => checked_host(
                s.subrange(f, lc),
                u16_of_digits(s, lc + 1, t),
            ),
            _ => checked_host(s.subrange(f, t), None),
        }
    }
}

/// One `key[=value]` URI parameter in `[from, to)`: edges trimmed, key
/// trimmed and ASCII-lowercased, value kept as written. `None` when there is
/// no key. A `>` anywhere is refused.
#[verifier::opaque]
pub open spec fn param_entry(s: Seq<u8>, from: int, to: int) -> Result<
    Option<(Seq<u8>, Seq<u8>)>,
    ParseError,
> {
    let (f, t) = trim_range(s, from, to, true);
    if f == t {
        Ok(None)
    } else {
        let eq = find_byte(s, EQ_, f, t);
        let (kf, kt) = match eq {
            Some(e) => trim_range(s, f, e, true),
            None => (f, t),
        };
        if kf == kt {
            Ok(None)
        } else {
            let key = lower_bytes(s.subrange(kf, kt));
            let val = match eq {
                Some(e) => s.subrange(e + 1, t),
                None => Seq::empty(),
            };
            if has_byte(key, GT, 0, key.len() as int) || has_byte(val, GT, 0, val.len() as int) {
                Err(ParseError::InvalidHost)
            } else {
                Ok(Some((key, val)))
            }
        }
    }
}

/// One `key=value` URI header in `[from, to)`: key and value pct-decoded,
/// key trimmed, value kept as written.
#[verifier::opaque]
pub open spec fn header_entry(s: Seq<u8>, from: int, to: int) -> Result<
    Option<(Seq<u8>, Seq<u8>)>,
    ParseError,
> {
    let (f, t) = trim_range(s, from, to, true);
    if f == t {
        Ok(None)
    } else {
        let eq = find_byte(s, EQ_, f, t);
        let (kf, kt) = match eq {
            Some(e) => trim_range(s, f, e, true),
            None => (f, t),
        };
        if kf == kt {
            Ok(None)
        } else {
            match pct_field(s, kf, kt) {
                Err(e) => Err(e),
                Ok(key) => match eq {
                    Some(e) => match pct_field(s, e + 1, t) {
                        Err(err) => Err(err),
                        Ok(val) => Ok(Some((key, val))),
                    },
                    None => Ok(Some((key, Seq::empty()))),
                },
            }
        }
    }
}

#[derive(Clone, Copy)]
pub enum SegmentKind {
    Param,
    Header,
}

pub open spec fn segment_entry(kind: SegmentKind, s: Seq<u8>, from: int, to: int) -> Result<
    Option<(Seq<u8>, Seq<u8>)>,
    ParseError,
> {
    match kind {
        SegmentKind::Param => param_entry(s, from, to),
        SegmentKind::Header => header_entry(s, from, to),
    }
}

/// End of the segment starting at `start`: the next `sep`, or `end`.
pub open spec fn segment_end(s: Seq<u8>, sep: u8, start: int, end: int) -> int {
    match find_byte(s, sep, start, end) {
        Some(k) => k,
        None => end,
    }
}

pub proof fn lemma_segment_end(s: Seq<u8>, sep: u8, start: int, end: int)
    requires
        0 <= start <= end <= s.len(),
    ensures
        start <= segment_end(s, sep, start, end) <= end,
        segment_end(s, sep, start, end) < end ==> s[segment_end(s, sep, start, end)] == sep,
        !has_byte(s, sep, start, segment_end(s, sep, start, end)),
{
    lemma_find_byte(s, sep, start, end);
}

/// Entries of the `sep`-separated segments of `[start, end]`, folded into
/// `acc` with `upsert`; the first failing segment's error otherwise.
#[verifier::opaque]
pub open spec fn fold_segments(
    s: Seq<u8>,
    start: int,
    end: int,
    sep: u8,
    kind: SegmentKind,
    acc: Pairs,
) -> Result<Pairs, ParseError>
    decreases end - start,
{
    if start < 0 || start > end || end > s.len() {
        Ok(acc)
    } else {
        let seg_end = segment_end(s, sep, start, end);
        proof {
            lemma_segment_end(s, sep, start, end);
        }
        match segment_entry(kind, s, start, seg_end) {
            Err(e) => Err(e),
            Ok(entry) => {
                let acc2 = match entry {
                    Some((k, v)) => upsert(acc, k, v),
                    None => acc,
                };
                if seg_end >= end {
                    Ok(acc2)
                } else {
                    fold_segments(s, seg_end + 1, end, sep, kind, acc2)
                }
            },
        }
    }
}

/// `user[:password]@` in front of `uh_end`: the user and password
/// pct-decoded, and where the host starts.
#[verifier::opaque]
pub open spec fn userinfo_spec(s: Seq<u8>, f: int, uh_end: int) -> Result<
    (Option<Seq<u8>>, Option<Seq<u8>>, int),
    ParseError,
> {
    match rfind_byte(s, AT, f, uh_end) {
        None => Ok((None, None, f)),
        Some(at) => match find_byte(s, COLON, f, at) {
            Some(c) => match pct_field(s, f, c) {
                Err(e) => Err(e),
                Ok(u) => match pct_field(s, c + 1, at) {
                    Err(e) => Err(e),
                    Ok(p) => Ok((Some(u), Some(p), at + 1)),
                },
            },
            None => match pct_field(s, f, at) {
                Err(e) => Err(e),
                Ok(u) => Ok((Some(u), None, at + 1)),
            },
        },
    }
}

/// The URI written in `[from, to)`.
pub open spec fn uri_spec(s: Seq<u8>, from: int, to: int) -> Result<UriModel, ParseError> {
    let (scheme, f) = scheme_prefix(s, from, to);
    let q = find_byte(s, QMARK, f, to);
    let body_end = match q {
        Some(i) => i,
        None => to,
    };
    let uh_end = segment_end(s, SEMI, f, body_end);
    let userinfo = userinfo_spec(s, f, uh_end);
    match userinfo {
        Err(e) => Err(e),
        Ok((user, password, host_start)) => match host_port_spec(s, host_start, uh_end) {
            Err(e) => Err(e),
            Ok((host, port)) => {
                let params = if uh_end < body_end {
                    fold_segments(s, uh_end + 1, body_end, SEMI, SegmentKind::Param, Seq::empty())
                } else {
                    Ok(Seq::empty())
                };
                match params {
                    Err(e) => Err(e),
                    Ok(params) => {
                        let headers = match q {
                            Some(i) => fold_segments(
                                s,
                                i + 1,
                                to,
                                AMP,
                                SegmentKind::Header,
                                Seq::empty(),
                            ),
                            None => Ok(Seq::empty()),
                        };
                        match headers {
                            Err(e) => Err(e),
                            Ok(headers) => Ok(
                                UriModel { scheme, user, password, host, port, params, headers },
                            ),
                        }
                    },
                }
            },
        },
    }
}

// ---------------------------------------------------------------------------
// Serialisation
/// Bytes of a pct-decoded field (userinfo, header key/value) that would
/// re-tokenize on re-parse; they are written as `%XX`.
pub open spec fn needs_escape(b: u8) -> bool {
    b == AT || b == COLON || b == SEMI || b == QMARK || b == LT || b == GT || b == PCT || b == AMP
        || b == EQ_ || ws_byte(b)
}

pub open spec fn hex_digit_upper(n: int) -> u8 {
    if n < 10 {
        (0x30 + n) as u8
    } else {
        (0x41 + n - 10) as u8
    }
}

/// `%XX` with uppercase hex digits.
pub open spec fn pct3(b: u8) -> Seq<u8> {
    seq![PCT, hex_digit_upper(b as int / 16), hex_digit_upper(b as int % 16)]
}

pub open spec fn escape_map() -> spec_fn(u8) -> Seq<u8> {
    |b: u8|
        if needs_escape(b) {
            pct3(b)
        } else {
            seq![b]
        }
}

/// A pct-decoded field as written back: escapable bytes as `%XX`, all
/// others (non-ASCII included) verbatim.
pub open spec fn escape(x: Seq<u8>) -> Seq<u8> {
    flat_map_bytes(x, escape_map())
}

/// Decimal digits of `n`, without leading zeros.
pub open spec fn dec_digits(n: nat) -> Seq<u8>
    decreases n,
{
    if n < 10 {
        seq![(0x30 + n) as u8]
    } else {
        dec_digits(n / 10) + seq![(0x30 + n % 10) as u8]
    }
}

/// The host, wrapped in brackets when it holds a `:` and is not already
/// bracketed.
pub open spec fn bracket_host_bytes(h: Seq<u8>) -> Seq<u8> {
    if has_byte(h, COLON, 0, h.len() as int) && !(h.len() > 0 && h[0] == LBRACKET) {
        seq![LBRACKET] + h + seq![RBRACKET]
    } else {
        h
    }
}

pub open spec fn port_part(p: Option<u16>) -> Seq<u8> {
    match p {
        Some(n) => seq![COLON] + dec_digits(n as nat),
        None => Seq::empty(),
    }
}

pub open spec fn userinfo_part(user: Option<Seq<u8>>, password: Option<Seq<u8>>) -> Seq<u8> {
    match user {
        None => Seq::empty(),
        Some(u) => escape(u) + match password {
            Some(p) => seq![COLON] + escape(p),
            None => Seq::empty(),
        } + seq![AT],
    }
}

/// `;key` or `;key=value` (the value only when it is not empty).
pub open spec fn param_part(kv: (Seq<u8>, Seq<u8>)) -> Seq<u8> {
    seq![SEMI] + kv.0 + if kv.1.len() > 0 {
        seq![EQ_] + kv.1
    } else {
        Seq::empty()
    }
}

pub open spec fn params_part(p: Pairs) -> Seq<u8>
    decreases p.len(),
{
    if p.len() == 0 {
        Seq::empty()
    } else {
        params_part(p.drop_last()) + param_part(p.last())
    }
}

/// Bytes of a URI parameter that would re-tokenize the URI body or end an
/// Address's `<...>` on re-parse; they are written as lowercase `%xx`.
pub open spec fn param_needs_escape(b: u8) -> bool {
    b == SEMI || b == QMARK || b == AMP || b == EQ_ || b == LT || b == GT
}

pub open spec fn hex_digit_lower(n: int) -> u8 {
    if n < 10 {
        (0x30 + n) as u8
    } else {
        (0x61 + n - 10) as u8
    }
}

/// `%xx` with lowercase hex digits.
pub open spec fn pct3_lower(b: u8) -> Seq<u8> {
    seq![PCT, hex_digit_lower(b as int / 16), hex_digit_lower(b as int % 16)]
}

pub open spec fn param_escape_map() -> spec_fn(u8) -> Seq<u8> {
    |b: u8|
        if param_needs_escape(b) {
            pct3_lower(b)
        } else {
            seq![b]
        }
}

/// A URI parameter key or value as written: `; ? & = < >` as lowercase
/// `%xx`, every other byte (`%` and whitespace included) verbatim.
pub open spec fn param_escape(x: Seq<u8>) -> Seq<u8> {
    flat_map_bytes(x, param_escape_map())
}

/// URI parameters with key and value as written.
pub open spec fn escape_params(p: Pairs) -> Pairs {
    p.map_values(|kv: (Seq<u8>, Seq<u8>)| (param_escape(kv.0), param_escape(kv.1)))
}

/// `key=value`, both escaped.
pub open spec fn header_item(kv: (Seq<u8>, Seq<u8>)) -> Seq<u8> {
    escape(kv.0) + seq![EQ_] + escape(kv.1)
}

/// Header items joined by `&`.
pub open spec fn header_list(h: Pairs) -> Seq<u8>
    decreases h.len(),
{
    if h.len() == 0 {
        Seq::empty()
    } else if h.len() == 1 {
        header_item(h[0])
    } else {
        header_list(h.drop_last()) + seq![AMP] + header_item(h.last())
    }
}

pub open spec fn headers_part(h: Pairs) -> Seq<u8> {
    if h.len() == 0 {
        Seq::empty()
    } else {
        seq![QMARK] + header_list(h)
    }
}

/// The serialised URI.
pub open spec fn render_uri(m: UriModel) -> Seq<u8> {
    m.scheme + seq![COLON] + userinfo_part(m.user, m.password) + bracket_host_bytes(m.host)
        + port_part(m.port) + params_part(escape_params(m.params)) + headers_part(m.headers)
}

/// Scheme, user and host joined as `scheme:user@host` (address of record).
pub open spec fn aor_bytes(m: UriModel) -> Seq<u8> {
    m.scheme + seq![COLON] + match m.user {
        Some(u) => u + seq![AT],
        None => Seq::empty(),
    } + m.host
}

pub open spec fn transport_key() -> Seq<u8> {
    seq![0x74u8, 0x72u8, 0x61u8, 0x6eu8, 0x73u8, 0x70u8, 0x6fu8, 0x72u8, 0x74u8]
}

pub open spec fn opt_valid(o: Option<Seq<u8>>) -> bool {
    match o {
        Some(x) => valid_utf8(x),
        None => true,
    }
}

pub open spec fn pairs_valid(p: Pairs) -> bool {
    forall|i: int| 0 <= i < p.len() ==> valid_utf8(#[trigger] p[i].0) && valid_utf8(p[i].1)
}

/// Every field of the model is UTF-8 text.
pub open spec fn model_valid(m: UriModel) -> bool {
    &&& valid_utf8(m.scheme)
    &&& opt_valid(m.user)
    &&& opt_valid(m.password)
    &&& valid_utf8(m.host)
    &&& pairs_valid(m.params)
    &&& pairs_valid(m.headers)
}

pub proof fn lemma_pairs_view_valid(v: Seq<(String, String)>)
    ensures
        pairs_valid(pairs_view(v)),
{
    assert forall|i: int| 0 <= i < pairs_view(v).len() implies valid_utf8(
        #[trigger] pairs_view(v)[i].0,
    ) && valid_utf8(pairs_view(v)[i].1) by {
        lemma_sbytes_valid(v[i].0@);
        lemma_sbytes_valid(v[i].1@);
    }
}

pub proof fn lemma_uri_view_valid(u: Uri)
    ensures
        model_valid(u@),
{
    lemma_sbytes_valid(u.scheme@);
    lemma_sbytes_valid(u.host@);
    if let Some(x) = u.user {
        lemma_sbytes_valid(x@);
    }
    if let Some(x) = u.password {
        lemma_sbytes_valid(x@);
    }
    lemma_pairs_view_valid(u.params@);
    lemma_pairs_view_valid(u.headers@);
}

pub proof fn lemma_escape_ascii_rewrite()
    ensures
        ascii_rewrite(escape_map()),
{
    assert forall|b: u8| b < 0x80 implies all_ascii(#[trigger] escape_map()(b)) by {
        if needs_escape(b) {
            assert(escape_map()(b) == pct3(b));
        } else {
            assert(escape_map()(b) == seq![b]);
        }
    }
}

pub proof fn lemma_escape_valid(x: Seq<u8>)
    requires
        valid_utf8(x),
    ensures
        valid_utf8(escape(x)),
{
    lemma_escape_ascii_rewrite();
    lemma_flat_map_valid(x, escape_map());
}

pub proof fn lemma_dec_digits_ascii(n: nat)
    ensures
        all_ascii(dec_digits(n)),
        dec_digits(n).len() >= 1,
    decreases n,
{
    if n >= 10 {
        lemma_dec_digits_ascii(n / 10);
        lemma_ascii_concat(dec_digits(n / 10), seq![(0x30 + n % 10) as u8]);
    }
}

pub proof fn lemma_valid_ascii_seq(x: Seq<u8>)
    requires
        all_ascii(x),
    ensures
        valid_utf8(x),
{
    lemma_ascii_valid(x);
}

pub proof fn lemma_params_part_valid(p: Pairs)
    requires
        pairs_valid(p),
    ensures
        valid_utf8(params_part(p)),
    decreases p.len(),
{
    if p.len() > 0 {
        assert(pairs_valid(p.drop_last())) by {
            assert forall|i: int| 0 <= i < p.drop_last().len() implies valid_utf8(
                #[trigger] p.drop_last()[i].0,
            ) && valid_utf8(p.drop_last()[i].1) by {
                assert(p.drop_last()[i] == p[i]);
                assert(valid_utf8(p[i].0));
                assert(valid_utf8(p[i].1));
            }
        }
        lemma_params_part_valid(p.drop_last());
        let kv = p.last();
        let j = p.len() - 1;
        assert(p[j] == kv);
        assert(valid_utf8(p[j].0));
        assert(valid_utf8(p[j].1));
        lemma_valid_ascii_seq(seq![SEMI]);
        lemma_valid_ascii_seq(seq![EQ_]);
        lemma_valid_ascii_seq(Seq::<u8>::empty());
        valid_utf8_concat(seq![SEMI], kv.0);
        valid_utf8_concat(seq![EQ_], kv.1);
        let tail: Seq<u8> = if kv.1.len() > 0 {
            seq![EQ_] + kv.1
        } else {
            Seq::empty()
        };
        valid_utf8_concat(seq![SEMI] + kv.0, tail);
        valid_utf8_concat(params_part(p.drop_last()), param_part(kv));
    }
}

pub proof fn lemma_header_list_valid(h: Pairs)
    requires
        pairs_valid(h),
    ensures
        valid_utf8(header_list(h)),
    decreases h.len(),
{
    if h.len() > 0 {
        let kv = h.last();
        let j = h.len() - 1;
        assert(h[j] == kv);
        assert(valid_utf8(h[j].0));
        assert(valid_utf8(h[j].1));
        lemma_escape_valid(kv.0);
        lemma_escape_valid(kv.1);
        lemma_valid_ascii_seq(seq![EQ_]);
        lemma_valid_ascii_seq(seq![AMP]);
        valid_utf8_concat(escape(kv.0), seq![EQ_]);
        valid_utf8_concat(escape(kv.0) + seq![EQ_], escape(kv.1));
        if h.len() > 1 {
            assert(pairs_valid(h.drop_last())) by {
                assert forall|i: int| 0 <= i < h.drop_last().len() implies valid_utf8(
                    #[trigger] h.drop_last()[i].0,
                ) && valid_utf8(h.drop_last()[i].1) by {
                    assert(h.drop_last()[i] == h[i]);
                    assert(valid_utf8(h[i].0));
                    assert(valid_utf8(h[i].1));
                }
            }
            lemma_header_list_valid(h.drop_last());
            valid_utf8_concat(header_list(h.drop_last()), seq![AMP]);
            valid_utf8_concat(header_list(h.drop_last()) + seq![AMP], header_item(kv));
        } else {
            assert(h[0] == kv);
        }
    }
}

/// The serialisation of a URI whose fields are text is text.
pub proof fn lemma_render_uri_valid(m: UriModel)
    requires
        model_valid(m),
    ensures
        valid_utf8(render_uri(m)),
{
    let colon = seq![COLON];
    let at = seq![AT];
    lemma_valid_ascii_seq(colon);
    lemma_valid_ascii_seq(at);
    lemma_valid_ascii_seq(seq![QMARK]);
    lemma_valid_ascii_seq(seq![LBRACKET]);
    lemma_valid_ascii_seq(seq![RBRACKET]);
    lemma_valid_ascii_seq(Seq::<u8>::empty());
    // userinfo
    if let Some(u) = m.user {
        lemma_escape_valid(u);
        if let Some(p) = m.password {
            lemma_escape_valid(p);
            valid_utf8_concat(colon, escape(p));
        }
        let mid: Seq<u8> = match m.password {
            Some(p) => colon + escape(p),
            None => Seq::empty(),
        };
        valid_utf8_concat(escape(u), mid);
        valid_utf8_concat(escape(u) + mid, at);
    }
    // host
    valid_utf8_concat(seq![LBRACKET], m.host);
    valid_utf8_concat(seq![LBRACKET] + m.host, seq![RBRACKET]);
    // port
    if let Some(n) = m.port {
        lemma_dec_digits_ascii(n as nat);
        lemma_valid_ascii_seq(dec_digits(n as nat));
        valid_utf8_concat(colon, dec_digits(n as nat));
    }
    lemma_escape_params_valid(m.params);
    lemma_params_part_valid(escape_params(m.params));
    if m.headers.len() > 0 {
        lemma_header_list_valid(m.headers);
        valid_utf8_concat(seq![QMARK], header_list(m.headers));
    }
    let a = m.scheme + colon;
    valid_utf8_concat(m.scheme, colon);
    let b = a + userinfo_part(m.user, m.password);
    valid_utf8_concat(a, userinfo_part(m.user, m.password));
    let c = b + bracket_host_bytes(m.host);
    valid_utf8_concat(b, bracket_host_bytes(m.host));
    let d = c + port_part(m.port);
    valid_utf8_concat(c, port_part(m.port));
    let e = d + params_part(escape_params(m.params));
    valid_utf8_concat(d, params_part(escape_params(m.params)));
    valid_utf8_concat(e, headers_part(m.headers));
}

pub proof fn lemma_param_escape_valid(x: Seq<u8>)
    requires
        valid_utf8(x),
    ensures
        valid_utf8(param_escape(x)),
{
    assert(ascii_rewrite(param_escape_map())) by {
        assert forall|b: u8| b < 0x80 implies all_ascii(#[trigger] param_escape_map()(b)) by {
            if param_needs_escape(b) {
                assert(param_escape_map()(b) == pct3_lower(b));
            } else {
                assert(param_escape_map()(b) == seq![b]);
            }
        }
    }
    lemma_flat_map_valid(x, param_escape_map());
}

pub proof fn lemma_escape_params_valid(p: Pairs)
    requires
        pairs_valid(p),
    ensures
        pairs_valid(escape_params(p)),
{
    assert forall|i: int| 0 <= i < escape_params(p).len() implies valid_utf8(
        #[trigger] escape_params(p)[i].0,
    ) && valid_utf8(escape_params(p)[i].1) by {
        assert(valid_utf8(p[i].0));
        assert(valid_utf8(p[i].1));
        lemma_param_escape_valid(p[i].0);
        lemma_param_escape_valid(p[i].1);
    }
}

/// The URI written in a whole input, outer whitespace ignored.
pub open spec fn uri_of_bytes(s: Seq<u8>) -> Result<UriModel, ParseError> {
    let (f, t) = trim_range(s, 0, s.len() as int, true);
    uri_spec(s, f, t)
}

/// Result of a parse seen through the byte model.
pub open spec fn uri_result(r: Result<Uri, ParseError>) -> Result<UriModel, ParseError> {
    match r {
        Ok(u) => Ok(u@),
        Err(e) => Err(e),
    }
}

// ---------------------------------------------------------------------------
// Parsing
/// Both ends of a byte and the position after it are cuts when it is ASCII.
pub proof fn lemma_cut_around(s: Seq<u8>, i: int)
    requires
        valid_utf8(s),
        0 <= i < s.len(),
        s[i] < 0x80,
    ensures
        is_cut(s, i),
        is_cut(s, i + 1),
{
    lemma_cut_after_ascii(s, i);
}

/// Whether a string holds the byte `b`.
pub fn str_has_byte(s: &str, b: u8) -> (r: bool)
    ensures
        r == has_byte(sbytes(s@), b, 0, sbytes(s@).len() as int),
{
    let bytes = s.as_bytes();
    let found = find_in(bytes, b, 0, bytes.len());
    proof {
        lemma_find_byte(bytes@, b, 0, bytes@.len() as int);
    }
    found.is_some()
}

/// Host must not carry structural bytes used by the Address wrapper (`<`,
/// `>`), brackets, or whitespace.
fn validate_host(host: &String) -> (r: bool)
    ensures
        r == host_ok(sbytes(host@)),
{
    let bytes = host.as_str().as_bytes();
    let mut i: usize = 0;
    while i < bytes.len()
        invariant
            i <= bytes@.len(),
            bytes@ == sbytes(host@),
            forall|k: int| 0 <= k < i ==> host_byte_ok(#[trigger] bytes@[k]),
        decreases bytes@.len() - i,
    {
        let b = bytes[i];
        if b == LT || b == GT || b == LBRACKET || b == RBRACKET || b == 0x20 || b == 0x09 || b
            == 0x0D || b == 0x0A {
            assert(!host_byte_ok(bytes@[i as int]));
            return false;
        }
        i += 1;
    }
    true
}

fn checked_host_exec(host: String, port: Option<u16>) -> (r: Result<
    (String, Option<u16>),
    ParseError,
>)
    ensures
        match r {
            Ok((h, p)) => checked_host(sbytes(host@), port) == Ok::<
                (Seq<u8>, Option<u16>),
                ParseError,
            >((sbytes(h@), p)),
            Err(e) => checked_host(sbytes(host@), port) == Err::<
                (Seq<u8>, Option<u16>),
                ParseError,
            >(e),
        },
{
    if validate_host(&host) {
        Ok((host, port))
    } else {
        Err(ParseError::InvalidHost)
    }
}

/// `host[:port]` in `input[from..to]`.
pub fn parse_host_port_range(input: &str, from: usize, to: usize) -> (r: Result<
    (String, Option<u16>),
    ParseError,
>)
    requires
        from <= to <= input.spec_bytes().len(),
        is_cut(input.spec_bytes(), from as int),
        is_cut(input.spec_bytes(), to as int),
    ensures
        match r {
            Ok((h, p)) => host_port_spec(input.spec_bytes(), from as int, to as int) == Ok::<
                (Seq<u8>, Option<u16>),
                ParseError,
            >((sbytes(h@), p)),
            Err(e) => host_port_spec(input.spec_bytes(), from as int, to as int) == Err::<
                (Seq<u8>, Option<u16>),
                ParseError,
            >(e),
        },
{
    let src = input.as_bytes();
    let ghost s = src@;
    proof {
        reveal(host_port_spec);
        lemma_str_valid(input);
        lemma_trim_range(s, from as int, to as int, true);
    }
    let (f, t) = trim_ws(src, from, to);
    if f == t {
        proof {
            assert(sbytes(Seq::<char>::empty()) =~= Seq::<u8>::empty());
        }
        return Ok((String::new(), None));
    }
    if src[f] == LBRACKET {
        proof {
            lemma_cut_around(s, f as int);
            lemma_find_byte(s, RBRACKET, f + 1, t as int);
        }
        match find_in(src, RBRACKET, f + 1, t) {
            None => {
                return Err(ParseError::UnterminatedBracket);
            },
            Some(c) => {
                proof {
                    lemma_cut_around(s, c as int);
                }
                let host = slice_str(input, f + 1, c);
                let rem = c + 1;
                let port = if rem < t && src[rem] == COLON && digits_only(src, rem + 1, t) {
                    parse_u16(src, rem + 1, t)
                } else {
                    None
                };
                return checked_host_exec(host, port);
            },
        }
    }
    proof {
        lemma_rfind_byte(s, COLON, f as int, t as int);
    }
    if let Some(lc) = rfind_in(src, COLON, f, t) {
        if digits_only(src, lc + 1, t) {
            proof {
                lemma_cut_around(s, lc as int);
            }
            let port = parse_u16(src, lc + 1, t);
            let host = slice_str(input, f, lc);
            return checked_host_exec(host, port);
        }
    }
    let host = slice_str(input, f, t);
    checked_host_exec(host, None)
}

/// Outcome of parsing one segment into `target`.
pub open spec fn entry_applied(
    entry: Result<Option<(Seq<u8>, Seq<u8>)>, ParseError>,
    r: Result<(), ParseError>,
    before: Pairs,
    after: Pairs,
) -> bool {
    match entry {
        Err(e) => r == Err::<(), ParseError>(e) && after == before,
        Ok(None) => r == Ok::<(), ParseError>(()) && after == before,
        Ok(Some((k, v))) => r == Ok::<(), ParseError>(()) && after == upsert(before, k, v),
    }
}

/// Parse one `key[=value]` URI parameter segment into `target`.
pub fn parse_param_range(
    input: &str,
    from: usize,
    to: usize,
    target: &mut Vec<(String, String)>,
) -> (r: Result<(), ParseError>)
    requires
        from <= to <= input.spec_bytes().len(),
        is_cut(input.spec_bytes(), from as int),
        is_cut(input.spec_bytes(), to as int),
    ensures
        entry_applied(
            param_entry(input.spec_bytes(), from as int, to as int),
            r,
            pairs_view(old(target)@),
            pairs_view(final(target)@),
        ),
{
    let src = input.as_bytes();
    let ghost s = src@;
    proof {
        reveal(param_entry);
        reveal(header_entry);
        lemma_str_valid(input);
        lemma_trim_range(s, from as int, to as int, true);
    }
    let (f, t) = trim_ws(src, from, to);
    if f == t {
        return Ok(());
    }
    let eq = find_in(src, EQ_, f, t);
    proof {
        lemma_find_byte(s, EQ_, f as int, t as int);
        if let Some(e) = eq {
            lemma_cut_around(s, e as int);
            lemma_trim_range(s, f as int, e as int, true);
        }
    }
    let (kf, kt) = match eq {
        Some(e) => trim_ws(src, f, e),
        None => (f, t),
    };
    if kf == kt {
        return Ok(());
    }
    let key = downcase_str(input, kf, kt);
    let val = match eq {
        Some(e) => slice_str(input, e + 1, t),
        None => {
            proof {
                assert(sbytes(Seq::<char>::empty()) =~= Seq::<u8>::empty());
            }
            String::new()
        },
    };
    if str_has_byte(key.as_str(), GT) || str_has_byte(val.as_str(), GT) {
        return Err(ParseError::InvalidHost);
    }
    upsert_pair(target, key, val);
    Ok(())
}

/// Parse one `key=value` URI header segment into `target`.
pub fn parse_header_range(
    input: &str,
    from: usize,
    to: usize,
    target: &mut Vec<(String, String)>,
) -> (r: Result<(), ParseError>)
    requires
        from <= to <= input.spec_bytes().len(),
        is_cut(input.spec_bytes(), from as int),
        is_cut(input.spec_bytes(), to as int),
    ensures
        entry_applied(
            header_entry(input.spec_bytes(), from as int, to as int),
            r,
            pairs_view(old(target)@),
            pairs_view(final(target)@),
        ),
{
    let src = input.as_bytes();
    let ghost s = src@;
    proof {
        reveal(param_entry);
        reveal(header_entry);
        lemma_str_valid(input);
        lemma_trim_range(s, from as int, to as int, true);
    }
    let (f, t) = trim_ws(src, from, to);
    if f == t {
        return Ok(());
    }
    let eq = find_in(src, EQ_, f, t);
    proof {
        lemma_find_byte(s, EQ_, f as int, t as int);
        if let Some(e) = eq {
            lemma_cut_around(s, e as int);
            lemma_trim_range(s, f as int, e as int, true);
        }
    }
    let (kf, kt) = match eq {
        Some(e) => trim_ws(src, f, e),
        None => (f, t),
    };
    if kf == kt {
        return Ok(());
    }
    let key = match pct_decode(input, kf, kt) {
        Ok(k) => k,
        Err(e) => return Err(e),
    };
    let val = match eq {
        Some(e) => match pct_decode(input, e + 1, t) {
            Ok(v) => v,
            Err(err) => return Err(err),
        },
        None => {
            proof {
                assert(sbytes(Seq::<char>::empty()) =~= Seq::<u8>::empty());
            }
            String::new()
        },
    };
    upsert_pair(target, key, val);
    Ok(())
}

/// Outcome of folding segments into `target`.
pub open spec fn fold_applied(
    fold: Result<Pairs, ParseError>,
    r: Result<(), ParseError>,
    after: Pairs,
) -> bool {
    match fold {
        Ok(p) => r == Ok::<(), ParseError>(()) && after == p,
        Err(e) => r == Err::<(), ParseError>(e),
    }
}

/// Parse the `sep`-separated segments of `input[start..=end]` into `target`.
pub fn parse_segments(
    input: &str,
    start: usize,
    end: usize,
    sep: u8,
    kind: SegmentKind,
    target: &mut Vec<(String, String)>,
) -> (r: Result<(), ParseError>)
    requires
        start <= end <= input.spec_bytes().len(),
        is_cut(input.spec_bytes(), start as int),
        is_cut(input.spec_bytes(), end as int),
        sep < 0x80,
    ensures
        fold_applied(
            fold_segments(input.spec_bytes(), start as int, end as int, sep, kind, pairs_view(old(target)@)),
            r,
            pairs_view(final(target)@),
        ),
{
    let src = input.as_bytes();
    let ghost s = src@;
    let ghost overall = fold_segments(s, start as int, end as int, sep, kind, pairs_view(target@));
    proof {
        reveal(fold_segments);
        lemma_str_valid(input);
    }
    let mut seg_start = start;
    loop
        invariant
            s == input.spec_bytes(),
            s == src@,
            valid_utf8(s),
            start <= seg_start <= end <= s.len(),
            is_cut(s, seg_start as int),
            is_cut(s, end as int),
            sep < 0x80,
            overall == fold_segments(s, start as int, end as int, sep, kind, pairs_view(old(target)@)),
            overall == fold_segments(s, seg_start as int, end as int, sep, kind, pairs_view(target@)),
        decreases end - seg_start,
    {
        proof {
            lemma_segment_end(s, sep, seg_start as int, end as int);
            lemma_find_byte(s, sep, seg_start as int, end as int);
        }
        let seg_end = match find_in(src, sep, seg_start, end) {
            Some(k) => k,
            None => end,
        };
        proof {
            if seg_end < end {
                lemma_cut_around(s, seg_end as int);
            }
        }
        proof {
            reveal(fold_segments);
        }
        let ghost before = pairs_view(target@);
        let res = match kind {
            SegmentKind::Param => parse_param_range(input, seg_start, seg_end, target),
            SegmentKind::Header => parse_header_range(input, seg_start, seg_end, target),
        };
        if let Err(e) = res {
            return Err(e);
        }
        if seg_end == end {
            return Ok(());
        }
        seg_start = seg_end + 1;
    }
}

/// Userinfo in front of `uh_end`, as `userinfo_spec` describes it.
fn parse_userinfo(input: &str, f: usize, uh_end: usize) -> (r: Result<
    (Option<String>, Option<String>, usize),
    ParseError,
>)
    requires
        f <= uh_end <= input.spec_bytes().len(),
        is_cut(input.spec_bytes(), f as int),
        is_cut(input.spec_bytes(), uh_end as int),
    ensures
        match r {
            Ok((u, p, h)) => userinfo_spec(input.spec_bytes(), f as int, uh_end as int) == Ok::<
                (Option<Seq<u8>>, Option<Seq<u8>>, int),
                ParseError,
            >((opt_sbytes(u), opt_sbytes(p), h as int)) && f <= h <= uh_end && is_cut(
                input.spec_bytes(),
                h as int,
            ),
            Err(e) => userinfo_spec(input.spec_bytes(), f as int, uh_end as int) == Err::<
                (Option<Seq<u8>>, Option<Seq<u8>>, int),
                ParseError,
            >(e),
        },
{
    let src = input.as_bytes();
    let ghost s = src@;
    proof {
        reveal(userinfo_spec);
        lemma_str_valid(input);
        lemma_rfind_byte(s, AT, f as int, uh_end as int);
    }
    match rfind_in(src, AT, f, uh_end) {
        Some(at) => {
            proof {
                lemma_cut_around(s, at as int);
                lemma_find_byte(s, COLON, f as int, at as int);
            }
            match find_in(src, COLON, f, at) {
                Some(c) => {
                    proof {
                        lemma_cut_around(s, c as int);
                    }
                    let u = match pct_decode(input, f, c) {
                        Ok(u) => u,
                        Err(e) => return Err(e),
                    };
                    let p = match pct_decode(input, c + 1, at) {
                        Ok(p) => p,
                        Err(e) => return Err(e),
                    };
                    Ok((Some(u), Some(p), at + 1))
                },
                None => {
                    let u = match pct_decode(input, f, at) {
                        Ok(u) => u,
                        Err(e) => return Err(e),
                    };
                    Ok((Some(u), None, at + 1))
                },
            }
        },
        None => Ok((None, None, f)),
    }
}

impl Uri {
    /// Parse a URI, ignoring outer whitespace.
    pub fn parse(input: &str) -> (r: Result<Uri, ParseError>)
        ensures
            uri_result(r) == uri_of_bytes(input.spec_bytes()),
    {
        let src = input.as_bytes();
        proof {
            lemma_str_valid(input);
            lemma_trim_range(src@, 0, src@.len() as int, true);
        }
        let (from, to) = trim_ws(src, 0, src.len());
        Uri::parse_range(input, from, to)
    }

    /// Parse `input[from..to]` as a URI. `from`/`to` must be character
    /// boundaries (always true for offsets of ASCII delimiters).
    pub fn parse_range(input: &str, from: usize, to: usize) -> (r: Result<Uri, ParseError>)
        requires
            from <= to <= input.spec_bytes().len(),
            is_cut(input.spec_bytes(), from as int),
            is_cut(input.spec_bytes(), to as int),
        ensures
            uri_result(r) == uri_spec(input.spec_bytes(), from as int, to as int),
    {
        let src = input.as_bytes();
        let ghost s = src@;
        proof {
            lemma_str_valid(input);
        }
        let (scheme, f) = detect_scheme(src, from, to);
        proof {
            if f > from {
                lemma_cut_around(s, f - 1);
            }
            lemma_find_byte(s, QMARK, f as int, to as int);
        }
        let q = find_in(src, QMARK, f, to);
        let body_end = match q {
            Some(i) => i,
            None => to,
        };
        proof {
            if let Some(i) = q {
                lemma_cut_around(s, i as int);
            }
            lemma_segment_end(s, SEMI, f as int, body_end as int);
            lemma_find_byte(s, SEMI, f as int, body_end as int);
        }
        let uh_end = match find_in(src, SEMI, f, body_end) {
            Some(i) => i,
            None => body_end,
        };
        proof {
            if uh_end < body_end {
                lemma_cut_around(s, uh_end as int);
            }
        }
        let (user, password, host_start) = match parse_userinfo(input, f, uh_end) {
            Ok(x) => x,
            Err(e) => return Err(e),
        };
        let (host, port) = match parse_host_port_range(input, host_start, uh_end) {
            Ok(hp) => hp,
            Err(e) => return Err(e),
        };
        let mut params: Vec<(String, String)> = Vec::new();
        let mut headers: Vec<(String, String)> = Vec::new();
        proof {
            assert(pairs_view(params@) =~= Seq::<(Seq<u8>, Seq<u8>)>::empty());
            assert(pairs_view(headers@) =~= Seq::<(Seq<u8>, Seq<u8>)>::empty());
        }
        if uh_end < body_end {
            match parse_segments(input, uh_end + 1, body_end, SEMI, SegmentKind::Param, &mut params) {
                Ok(()) => {},
                Err(e) => return Err(e),
            }
        }
        if let Some(qi) = q {
            match parse_segments(input, qi + 1, to, AMP, SegmentKind::Header, &mut headers) {
                Ok(()) => {},
                Err(e) => return Err(e),
            }
        }
        proof {
            assert(pairs_view(Seq::<(String, String)>::empty()) =~= Seq::<(Seq<u8>, Seq<u8>)>::empty());
        }
        Ok(Uri { scheme, user, password, host, port, params, headers })
    }
}

// ---------------------------------------------------------------------------
// Serialisation, executable
fn hex_upper(n: u8) -> (r: u8)
    requires
        n < 16,
    ensures
        r == hex_digit_upper(n as int),
{
    if n < 10 {
        0x30 + n
    } else {
        0x41 + n - 10
    }
}

/// Append `bytes` with the escapable bytes written as `%XX`.
pub fn push_escaped(out: &mut Vec<u8>, bytes: &[u8])
    ensures
        final(out)@ == old(out)@ + escape(bytes@),
{
    let mut j: usize = 0;
    proof {
        assert(bytes@.subrange(0, 0) =~= Seq::<u8>::empty());
        assert(old(out)@ + escape(Seq::<u8>::empty()) =~= old(out)@);
    }
    while j < bytes.len()
        invariant
            j <= bytes@.len(),
            out@ == old(out)@ + escape(bytes@.subrange(0, j as int)),
        decreases bytes@.len() - j,
    {
        let b = bytes[j];
        let ghost before = out@;
        if b == AT || b == COLON || b == SEMI || b == QMARK || b == LT || b == GT || b == PCT || b
            == AMP || b == EQ_ || b == 0x20 || b == 0x09 || b == 0x0D || b == 0x0A {
            out.push(PCT);
            out.push(hex_upper(b / 16));
            out.push(hex_upper(b % 16));
            proof {
                assert(escape_map()(b) == pct3(b));
                assert(out@ =~= before + pct3(b));
            }
        } else {
            out.push(b);
            proof {
                assert(escape_map()(b) == seq![b]);
                assert(out@ =~= before + seq![b]);
            }
        }
        proof {
            lemma_flat_map_push(bytes@, 0, j as int, escape_map());
            assert(out@ =~= old(out)@ + escape(bytes@.subrange(0, j + 1)));
        }
        j += 1;
    }
    proof {
        assert(bytes@.subrange(0, bytes@.len() as int) =~= bytes@);
    }
}

fn hex_lower(n: u8) -> (r: u8)
    requires
        n < 16,
    ensures
        r == hex_digit_lower(n as int),
{
    if n < 10 {
        0x30 + n
    } else {
        0x61 + n - 10
    }
}

/// Append a URI parameter key or value with `; ? & = < >` written as
/// lowercase `%xx`.
pub fn push_param_escaped(out: &mut Vec<u8>, bytes: &[u8])
    ensures
        final(out)@ == old(out)@ + param_escape(bytes@),
{
    let mut j: usize = 0;
    proof {
        assert(bytes@.subrange(0, 0) =~= Seq::<u8>::empty());
        assert(old(out)@ + param_escape(Seq::<u8>::empty()) =~= old(out)@);
    }
    while j < bytes.len()
        invariant
            j <= bytes@.len(),
            out@ == old(out)@ + param_escape(bytes@.subrange(0, j as int)),
        decreases bytes@.len() - j,
    {
        let b = bytes[j];
        let ghost before = out@;
        if b == SEMI || b == QMARK || b == AMP || b == EQ_ || b == LT || b == GT {
            out.push(PCT);
            out.push(hex_lower(b / 16));
            out.push(hex_lower(b % 16));
            proof {
                assert(param_escape_map()(b) == pct3_lower(b));
                assert(out@ =~= before + pct3_lower(b));
            }
        } else {
            out.push(b);
            proof {
                assert(param_escape_map()(b) == seq![b]);
                assert(out@ =~= before + seq![b]);
            }
        }
        proof {
            lemma_flat_map_push(bytes@, 0, j as int, param_escape_map());
            assert(out@ =~= old(out)@ + param_escape(bytes@.subrange(0, j + 1)));
        }
        j += 1;
    }
    proof {
        assert(bytes@.subrange(0, bytes@.len() as int) =~= bytes@);
    }
}

/// Append `;key[=value]` for each URI parameter, key and value escaped.
fn push_uri_params(out: &mut Vec<u8>, params: &Vec<(String, String)>)
    ensures
        final(out)@ == old(out)@ + params_part(escape_params(pairs_view(params@))),
{
    let ghost pv = pairs_view(params@);
    let ghost ev = escape_params(pv);
    let mut i: usize = 0;
    proof {
        assert(ev.take(0) =~= Seq::<(Seq<u8>, Seq<u8>)>::empty());
        assert(old(out)@ + Seq::<u8>::empty() =~= old(out)@);
    }
    while i < params.len()
        invariant
            pv == pairs_view(params@),
            ev == escape_params(pv),
            i <= params@.len(),
            out@ == old(out)@ + params_part(ev.take(i as int)),
        decreases params@.len() - i,
    {
        let ghost before = out@;
        let (k, v) = &params[i];
        let vb = v.as_str().as_bytes();
        out.push(SEMI);
        push_param_escaped(out, k.as_str().as_bytes());
        let ghost after_key = out@;
        proof {
            assert(after_key =~= before + (seq![SEMI] + param_escape(sbytes(k@))));
            assert forall|b: u8| #[trigger] param_escape_map()(b).len() >= 1 by {
                if param_needs_escape(b) {
                    assert(param_escape_map()(b) == pct3_lower(b));
                } else {
                    assert(param_escape_map()(b) == seq![b]);
                }
            }
            lemma_flat_map_len_pos(vb@, param_escape_map());
        }
        if vb.len() > 0 {
            out.push(EQ_);
            push_param_escaped(out, vb);
            proof {
                assert(out@ =~= after_key + (seq![EQ_] + param_escape(sbytes(v@))));
            }
        } else {
            proof {
                assert(vb@ =~= Seq::<u8>::empty());
                assert(param_escape(vb@) =~= Seq::<u8>::empty());
                assert(out@ =~= after_key + Seq::<u8>::empty());
            }
        }
        proof {
            let kv = ev[i as int];
            assert(pv[i as int] == (sbytes(k@), sbytes(v@)));
            assert(kv == (param_escape(sbytes(k@)), param_escape(sbytes(v@))));
            assert(out@ =~= before + param_part(kv));
            assert(ev.take(i + 1).drop_last() =~= ev.take(i as int));
            assert(ev.take(i + 1).last() == kv);
        }
        i += 1;
    }
    proof {
        assert(ev.take(params@.len() as int) =~= ev);
    }
}

/// Append the decimal digits of `n`.
pub fn write_u16(out: &mut Vec<u8>, n: u16)
    ensures
        final(out)@ == old(out)@ + dec_digits(n as nat),
    decreases n,
{
    if n >= 10 {
        write_u16(out, n / 10);
    }
    out.push(0x30 + (n % 10) as u8);
    proof {
        if n >= 10 {
            assert(out@ =~= old(out)@ + (dec_digits((n / 10) as nat) + seq![(0x30 + n % 10) as u8]));
        } else {
            assert(out@ =~= old(out)@ + dec_digits(n as nat));
        }
    }
}


/// Append `user[:password]@` when there is a user.
fn push_userinfo(out: &mut Vec<u8>, user: &Option<String>, password: &Option<String>)
    ensures
        final(out)@ == old(out)@ + userinfo_part(opt_sbytes(*user), opt_sbytes(*password)),
{
    if let Some(u) = user {
        push_escaped(out, u.as_str().as_bytes());
        let ghost after_user = out@;
        if let Some(pw) = password {
            out.push(COLON);
            push_escaped(out, pw.as_str().as_bytes());
            proof {
                assert(out@ =~= after_user + (seq![COLON] + escape(sbytes(pw@))));
            }
        } else {
            proof {
                assert(out@ =~= after_user + Seq::<u8>::empty());
            }
        }
        out.push(AT);
        proof {
            assert(out@ =~= old(out)@ + userinfo_part(opt_sbytes(*user), opt_sbytes(*password)));
        }
    } else {
        proof {
            assert(out@ =~= old(out)@ + Seq::<u8>::empty());
        }
    }
}

/// Append `;key[=value]` for each parameter.
pub fn push_params(out: &mut Vec<u8>, params: &Vec<(String, String)>)
    ensures
        final(out)@ == old(out)@ + params_part(pairs_view(params@)),
{
    let ghost pv = pairs_view(params@);
    let mut i: usize = 0;
    proof {
        assert(pv.take(0) =~= Seq::<(Seq<u8>, Seq<u8>)>::empty());
        assert(old(out)@ + Seq::<u8>::empty() =~= old(out)@);
    }
    while i < params.len()
        invariant
            pv == pairs_view(params@),
            i <= params@.len(),
            out@ == old(out)@ + params_part(pv.take(i as int)),
        decreases params@.len() - i,
    {
        let ghost before = out@;
        let (k, v) = &params[i];
        let vb = v.as_str().as_bytes();
        out.push(SEMI);
        push_all(out, k.as_str().as_bytes());
        let ghost after_key = out@;
        proof {
            assert(after_key =~= before + (seq![SEMI] + sbytes(k@)));
        }
        if vb.len() > 0 {
            out.push(EQ_);
            push_all(out, vb);
            proof {
                assert(out@ =~= after_key + (seq![EQ_] + sbytes(v@)));
            }
        } else {
            proof {
                assert(out@ =~= after_key + Seq::<u8>::empty());
            }
        }
        proof {
            let kv = pv[i as int];
            assert(kv == (sbytes(k@), sbytes(v@)));
            assert(out@ =~= before + param_part(kv));
            assert(pv.take(i + 1).drop_last() =~= pv.take(i as int));
            assert(pv.take(i + 1).last() == kv);
        }
        i += 1;
    }
    proof {
        assert(pv.take(params@.len() as int) =~= pv);
    }
}

/// Append `?key=value&...` when there are headers.
#[verifier::spinoff_prover]
#[verifier::rlimit(30)]
fn push_headers(out: &mut Vec<u8>, headers: &Vec<(String, String)>)
    ensures
        final(out)@ == old(out)@ + headers_part(pairs_view(headers@)),
{
    let ghost hv = pairs_view(headers@);
    if headers.len() == 0 {
        proof {
            assert(old(out)@ + Seq::<u8>::empty() =~= old(out)@);
        }
        return ;
    }
    out.push(QMARK);
    let ghost q0 = out@;
    let (k0, v0) = &headers[0];
    push_escaped(out, k0.as_str().as_bytes());
    out.push(EQ_);
    push_escaped(out, v0.as_str().as_bytes());
    proof {
        assert(hv[0] == (sbytes(k0@), sbytes(v0@)));
        assert(out@ =~= q0 + header_item(hv[0]));
        assert(hv.take(1) =~= seq![hv[0]]);
        assert(header_list(hv.take(1)) == header_item(hv[0]));
    }
    let mut i: usize = 1;
    while i < headers.len()
        invariant
            hv == pairs_view(headers@),
            1 <= i <= headers@.len(),
            q0 == old(out)@ + seq![QMARK],
            out@ == q0 + header_list(hv.take(i as int)),
        decreases headers@.len() - i,
    {
        let ghost before = out@;
        let (k, v) = &headers[i];
        out.push(AMP);
        push_escaped(out, k.as_str().as_bytes());
        out.push(EQ_);
        push_escaped(out, v.as_str().as_bytes());
        proof {
            let kv = hv[i as int];
            assert(kv == (sbytes(k@), sbytes(v@)));
            assert(out@ =~= before + (seq![AMP] + header_item(kv)));
            assert(hv.take(i + 1).drop_last() =~= hv.take(i as int));
            assert(hv.take(i + 1).last() == kv);
        }
        i += 1;
    }
    proof {
        assert(hv.take(headers@.len() as int) =~= hv);
        assert(out@ =~= old(out)@ + headers_part(hv));
    }
}

/// `a + b`, held at `usize::MAX` as `usize::saturating_add` holds it.
pub open spec fn sat_add(a: int, b: int) -> int {
    if a + b > usize::MAX {
        usize::MAX as int
    } else {
        a + b
    }
}

/// `n` grown by the length of each key and value of `p` plus 2, in order.
pub open spec fn pairs_hint(n: int, p: Pairs) -> int
    decreases p.len(),
{
    if p.len() == 0 {
        n
    } else {
        sat_add(
            sat_add(sat_add(pairs_hint(n, p.drop_last()), p.last().0.len() as int), p.last().1.len() as int),
            2,
        )
    }
}

/// The buffer size reserved before writing a URI out: the lengths of its
/// parts, room for the delimiters and for a port, held at `usize::MAX`.
pub open spec fn uri_size_hint(m: UriModel) -> int {
    let n0 = sat_add(sat_add(sat_add(m.scheme.len() as int, 1), m.host.len() as int), 2);
    let n1 = match m.user {
        Some(u) => sat_add(sat_add(n0, u.len() as int), 1),
        None => n0,
    };
    let n2 = match m.password {
        Some(p) => sat_add(sat_add(n1, p.len() as int), 1),
        None => n1,
    };
    let n3 = if m.port is Some {
        sat_add(n2, 6)
    } else {
        n2
    };
    let n4 = pairs_hint(n3, m.params);
    if m.headers.len() > 0 {
        pairs_hint(sat_add(n4, 1), m.headers)
    } else {
        n4
    }
}

/// Grow `n` by the length of each key and value of `v` plus 2.
pub(crate) fn add_pairs_hint(n: usize, v: &Vec<(String, String)>) -> (r: usize)
    ensures
        r == pairs_hint(n as int, pairs_view(v@)),
{
    let ghost pv = pairs_view(v@);
    let mut m = n;
    let mut i: usize = 0;
    proof {
        assert(pv.take(0).len() == 0);
    }
    while i < v.len()
        invariant
            pv == pairs_view(v@),
            i <= v@.len(),
            m == pairs_hint(n as int, pv.take(i as int)),
        decreases v@.len() - i,
    {
        let pair = &v[i];
        let kl = pair.0.as_str().as_bytes().len();
        let vl = pair.1.as_str().as_bytes().len();
        let ghost before = m;
        m = m.saturating_add(kl).saturating_add(vl).saturating_add(2);
        proof {
            assert(pv[i as int] == (sbytes(v@[i as int].0@), sbytes(v@[i as int].1@)));
            assert(kl as int == pv[i as int].0.len());
            assert(vl as int == pv[i as int].1.len());
            assert(m == sat_add(sat_add(sat_add(before as int, kl as int), vl as int), 2));
            assert(pv.take(i + 1).drop_last() =~= pv.take(i as int));
            assert(pv.take(i + 1).last() == pv[i as int]);
            assert(pv[i as int] == (sbytes(v@[i as int].0@), sbytes(v@[i as int].1@)));
        }
        i += 1;
    }
    proof {
        assert(pv.take(v@.len() as int) =~= pv);
    }
    m
}

impl Uri {
    /// Approximate serialised size, for pre-sizing output buffers.
    pub(crate) fn serialized_size_hint(&self) -> (r: usize)
        ensures
            r == uri_size_hint(self@),
    {
        let mut n = self.scheme.as_bytes().len().saturating_add(1).saturating_add(
            self.host.as_str().as_bytes().len(),
        ).saturating_add(2);
        if let Some(u) = &self.user {
            n = n.saturating_add(u.as_str().as_bytes().len()).saturating_add(1);
        }
        if let Some(pw) = &self.password {
            n = n.saturating_add(pw.as_str().as_bytes().len()).saturating_add(1);
        }
        if self.port.is_some() {
            n = n.saturating_add(6);
        }
        n = add_pairs_hint(n, &self.params);
        if self.headers.len() > 0 {
            n = n.saturating_add(1);
            n = add_pairs_hint(n, &self.headers);
        }
        n
    }

    fn append_bracket_host(&self, out: &mut Vec<u8>)
        ensures
            final(out)@ == old(out)@ + bracket_host_bytes(self@.host),
    {
        let h = self.host.as_str().as_bytes();
        let has_colon = find_in(h, COLON, 0, h.len()).is_some();
        proof {
            lemma_find_byte(h@, COLON, 0, h@.len() as int);
        }
        if has_colon && !(h.len() > 0 && h[0] == LBRACKET) {
            out.push(LBRACKET);
            push_all(out, h);
            out.push(RBRACKET);
            proof {
                assert(out@ =~= old(out)@ + (seq![LBRACKET] + h@ + seq![RBRACKET]));
            }
        } else {
            push_all(out, h);
        }
    }

    /// Append the serialised URI to a byte buffer.
    pub fn render_into(&self, out: &mut Vec<u8>)
        ensures
            final(out)@ == old(out)@ + render_uri(self@),
    {
        let ghost m = self@;
        let ghost base = out@;
        push_all(out, self.scheme.as_bytes());
        out.push(COLON);
        proof {
            assert(out@ =~= base + (m.scheme + seq![COLON]));
        }
        let ghost p1 = m.scheme + seq![COLON];
        push_userinfo(out, &self.user, &self.password);
        proof {
            assert(out@ =~= base + (p1 + userinfo_part(m.user, m.password)));
        }
        let ghost p2 = p1 + userinfo_part(m.user, m.password);
        self.append_bracket_host(out);
        let ghost p3 = p2 + bracket_host_bytes(m.host);
        proof {
            assert(out@ =~= base + p3);
        }
        if let Some(port) = self.port {
            out.push(COLON);
            write_u16(out, port);
        }
        let ghost p4 = p3 + port_part(m.port);
        proof {
            assert(out@ =~= base + p4);
        }
        push_uri_params(out, &self.params);
        let ghost p5 = p4 + params_part(escape_params(m.params));
        proof {
            assert(out@ =~= base + p5);
        }
        push_headers(out, &self.headers);
        proof {
            assert(out@ =~= base + render_uri(m));
        }
    }

    /// Serialise into an external string buffer.
    pub fn append_to(&self, buf: &mut String)
        ensures
            sbytes(final(buf)@) == sbytes(old(buf)@) + render_uri(self@),
    {
        let mut out: Vec<u8> = Vec::with_capacity(self.serialized_size_hint());
        push_all(&mut out, buf.as_str().as_bytes());
        self.render_into(&mut out);
        proof {
            lemma_uri_view_valid(*self);
            lemma_render_uri_valid(self@);
            lemma_sbytes_valid(buf@);
            valid_utf8_concat(sbytes(buf@), render_uri(self@));
        }
        *buf = string_of_valid(out);
    }

    /// The serialised URI.
    pub fn to_string(&self) -> (r: String)
        ensures
            sbytes(r@) == render_uri(self@),
    {
        let mut buf = String::new();
        proof {
            assert(sbytes(buf@) =~= Seq::<u8>::empty());
        }
        self.append_to(&mut buf);
        proof {
            assert(Seq::<u8>::empty() + render_uri(self@) =~= render_uri(self@));
        }
        buf
    }
}

/// Whether the string's bytes are those of `lit`.
pub fn key_is(k: &String, lit: &str) -> (r: bool)
    ensures
        r == (sbytes(k@) == lit.spec_bytes()),
{
    proof {
        lemma_sbytes_injective(k@, lit@);
    }
    str_eq(k.as_str(), lit)
}

fn lit_transport() -> (r: &'static str)
    ensures
        r.spec_bytes() == transport_key(),
{
    let r = "transport";
    proof {
        reveal_strlit("transport");
        is_ascii_chars_encode_utf8(r@);
        assert(r.spec_bytes() =~= transport_key());
    }
    r
}

impl Default for Uri {
    fn default() -> (r: Self)
        ensures
            r@ == (UriModel {
                scheme: sip_scheme(),
                user: None,
                password: None,
                host: Seq::empty(),
                port: None,
                params: Seq::empty(),
                headers: Seq::empty(),
            }),
    {
        let r = Uri {
            scheme: lit_sip(),
            user: None,
            password: None,
            host: String::new(),
            port: None,
            params: Vec::new(),
            headers: Vec::new(),
        };
        proof {
            assert(sbytes(r.host@) =~= Seq::<u8>::empty());
            assert(pairs_view(r.params@) =~= Seq::<(Seq<u8>, Seq<u8>)>::empty());
            assert(pairs_view(r.headers@) =~= Seq::<(Seq<u8>, Seq<u8>)>::empty());
        }
        r
    }
}

impl Uri {
    /// The `transport` parameter, ASCII-lowercased; empty when absent.
    pub fn transport(&self) -> (r: String)
        ensures
            sbytes(r@) == match lookup(self@.params, transport_key()) {
                Some(v) => lower_bytes(v),
                None => Seq::empty(),
            },
    {
        let ghost pv = self@.params;
        let lit = lit_transport();
        let mut i: usize = 0;
        while i < self.params.len()
            invariant
                pv == pairs_view(self.params@),
                lit.spec_bytes() == transport_key(),
                i <= self.params@.len(),
                first_key(pv, transport_key(), 0) == first_key(pv, transport_key(), i as int),
            decreases self.params@.len() - i,
        {
            if key_is(&self.params[i].0, lit) {
                let vb = self.params[i].1.as_str().as_bytes();
                proof {
                    lemma_sbytes_valid(self.params@[i as int].1@);
                    lemma_case_maps_ascii();
                    assert(vb@.subrange(0, vb@.len() as int) =~= vb@);
                    lemma_flat_map_valid(vb@, lower_map());
                }
                return string_of_valid(lower_range(vb, 0, vb.len()));
            }
            i += 1;
        }
        proof {
            assert(sbytes(Seq::<char>::empty()) =~= Seq::<u8>::empty());
        }
        String::new()
    }

    /// `scheme:user@host` (address of record), nothing escaped.
    pub fn aor(&self) -> (r: String)
        ensures
            sbytes(r@) == aor_bytes(self@),
    {
        let mut out: Vec<u8> = Vec::new();
        push_all(&mut out, self.scheme.as_bytes());
        out.push(COLON);
        if let Some(u) = &self.user {
            push_all(&mut out, u.as_str().as_bytes());
            out.push(AT);
        }
        push_all(&mut out, self.host.as_str().as_bytes());
        proof {
            let m = self@;
            assert(out@ =~= aor_bytes(m));
            lemma_uri_view_valid(*self);
            lemma_valid_ascii_seq(seq![COLON]);
            lemma_valid_ascii_seq(seq![AT]);
            lemma_valid_ascii_seq(Seq::<u8>::empty());
            valid_utf8_concat(m.scheme, seq![COLON]);
            if let Some(u) = m.user {
                valid_utf8_concat(u, seq![AT]);
            }
            let mid: Seq<u8> = match m.user {
                Some(u) => u + seq![AT],
                None => Seq::empty(),
            };
            valid_utf8_concat(m.scheme + seq![COLON], mid);
            valid_utf8_concat(m.scheme + seq![COLON] + mid, m.host);
        }
        string_of_valid(out)
    }

    /// `host[:port]`, the host bracketed when it holds a `:`.
    pub fn host_port(&self) -> (r: String)
        ensures
            sbytes(r@) == bracket_host_bytes(self@.host) + port_part(self@.port),
    {
        let mut out: Vec<u8> = Vec::new();
        self.append_bracket_host(&mut out);
        if let Some(p) = self.port {
            out.push(COLON);
            write_u16(&mut out, p);
        }
        proof {
            let m = self@;
            assert(out@ =~= bracket_host_bytes(m.host) + port_part(m.port));
            lemma_uri_view_valid(*self);
            lemma_bracket_port_valid(m.host, m.port);
        }
        string_of_valid(out)
    }

    /// The host, bracketed when it holds a `:`.
    pub fn bracket_host(&self) -> (r: String)
        ensures
            sbytes(r@) == bracket_host_bytes(self@.host),
    {
        let mut out: Vec<u8> = Vec::new();
        self.append_bracket_host(&mut out);
        proof {
            let m = self@;
            assert(out@ =~= bracket_host_bytes(m.host));
            lemma_uri_view_valid(*self);
            lemma_bracket_port_valid(m.host, None);
            assert(port_part(None) =~= Seq::<u8>::empty());
            assert(bracket_host_bytes(m.host) + Seq::<u8>::empty() =~= bracket_host_bytes(m.host));
        }
        string_of_valid(out)
    }

    /// Parse one `key[=value]` segment (as produced by splitting a URI body
    /// on `;`) into `target`.
    pub fn parse_param(raw: &str, target: &mut Vec<(String, String)>) -> (r: Result<(), ParseError>)
        ensures
            entry_applied(
                param_entry(raw.spec_bytes(), 0, raw.spec_bytes().len() as int),
                r,
                pairs_view(old(target)@),
                pairs_view(final(target)@),
            ),
    {
        proof {
            lemma_str_valid(raw);
        }
        parse_param_range(raw, 0, raw.as_bytes().len(), target)
    }

    /// Parse a `host[:port]` fragment, including the bracketed-IPv6 form
    /// `[::1]:5060`.
    pub fn parse_host_port(hp: &str) -> (r: Result<(String, Option<u16>), ParseError>)
        ensures
            match r {
                Ok((h, p)) => host_port_spec(hp.spec_bytes(), 0, hp.spec_bytes().len() as int)
                    == Ok::<(Seq<u8>, Option<u16>), ParseError>((sbytes(h@), p)),
                Err(e) => host_port_spec(hp.spec_bytes(), 0, hp.spec_bytes().len() as int) == Err::<
                    (Seq<u8>, Option<u16>),
                    ParseError,
                >(e),
            },
    {
        proof {
            lemma_str_valid(hp);
        }
        parse_host_port_range(hp, 0, hp.as_bytes().len())
    }
}

pub proof fn lemma_bracket_port_valid(h: Seq<u8>, port: Option<u16>)
    requires
        valid_utf8(h),
    ensures
        valid_utf8(bracket_host_bytes(h) + port_part(port)),
{
    lemma_valid_ascii_seq(seq![LBRACKET]);
    lemma_valid_ascii_seq(seq![RBRACKET]);
    lemma_valid_ascii_seq(seq![COLON]);
    lemma_valid_ascii_seq(Seq::<u8>::empty());
    valid_utf8_concat(seq![LBRACKET], h);
    valid_utf8_concat(seq![LBRACKET] + h, seq![RBRACKET]);
    if let Some(n) = port {
        lemma_dec_digits_ascii(n as nat);
        lemma_valid_ascii_seq(dec_digits(n as nat));
        valid_utf8_concat(seq![COLON], dec_digits(n as nat));
    }
    valid_utf8_concat(bracket_host_bytes(h), port_part(port));
}

} // verus!
