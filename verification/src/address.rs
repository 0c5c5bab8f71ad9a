//! SIP Address (name-addr / addr-spec) parser per RFC 3261 §25.1.
//!
//! The embedded URI is parsed with `Uri::parse_range` on the same input.
use vstd::prelude::*;
use vstd::string::StringSliceAdditionalSpecFns;
use vstd::utf8::{is_ascii_chars_encode_utf8, valid_utf8, valid_utf8_concat};

use crate::error::ParseError;
use crate::scan::{
    downcase_str, find_byte, find_in, has_byte, lemma_find_byte, lemma_trim_range, lower_bytes,
    slice_str, trim_range, trim_sp_tab, trim_ws, DQUOTE, EQ_, GT, LT, QMARK, SEMI, SP,
};
use crate::text::{
    is_cut, lemma_sbytes_valid, lemma_str_valid, push_all, sbytes, string_of_valid,
};
use crate::uri::{
    add_pairs_hint, first_key, fold_segments, key_is, lemma_cut_around, lemma_pairs_view_valid,
    lemma_params_part_valid, pairs_hint, sat_add, uri_size_hint, lemma_render_uri_valid, lemma_segment_end, lemma_uri_view_valid,
    lemma_valid_ascii_seq, lookup, opt_sbytes, pairs_view, params_part, parse_segments, render_uri,
    segment_end, str_has_byte, upsert, upsert_pair, uri_spec, Pairs, SegmentKind, Uri, UriModel,
};

verus! {

/// Params that sit at the Address level rather than being folded into the
/// embedded URI.
pub const ADDRESS_PARAMS: [&'static str; 3] = ["tag", "q", "expires"];

/// Keys of the parameters that belong to the Address rather than to the
/// embedded URI.
pub open spec fn tag_key() -> Seq<u8> {
    seq![0x74u8, 0x61u8, 0x67u8]
}

pub open spec fn q_key() -> Seq<u8> {
    seq![0x71u8]
}

pub open spec fn expires_key() -> Seq<u8> {
    seq![0x65u8, 0x78u8, 0x70u8, 0x69u8, 0x72u8, 0x65u8, 0x73u8]
}

pub open spec fn is_address_param(k: Seq<u8>) -> bool {
    k == tag_key() || k == q_key() || k == expires_key()
}

/// The bytes of each field of an Address.
pub struct AddressModel {
    pub display_name: Option<Seq<u8>>,
    pub uri: Option<UriModel>,
    pub params: Pairs,
}

#[derive(Debug, Clone, PartialEq, Eq)]
pub struct Address {
    pub display_name: Option<String>,
    pub uri: Option<Uri>,
    pub params: Vec<(String, String)>,
}

impl View for Address {
    type V = AddressModel;

    open spec fn view(&self) -> AddressModel {
        AddressModel {
            display_name: opt_sbytes(self.display_name),
            uri: match self.uri {
                Some(u) => Some(u@),
                None => None,
            },
            params: pairs_view(self.params@),
        }
    }
}

pub open spec fn address_result(r: Result<Address, ParseError>) -> Result<AddressModel, ParseError> {
    match r {
        Ok(a) => Ok(a@),
        Err(e) => Err(e),
    }
}

// ---------------------------------------------------------------------------
// Specification
/// One parameter after a bare URI: key trimmed and lowercased, value as
/// written; `true` when it belongs to the Address. `>` is refused anywhere,
/// `?` in parameters that go to the URI.
#[verifier::opaque]
pub open spec fn bare_entry(s: Seq<u8>, from: int, to: int) -> Result<
    Option<(Seq<u8>, Seq<u8>, bool)>,
    ParseError,
> {
    let (f, t) = trim_range(s, from, to, true);
    if f == t {
        Ok(None)
    } else {
        let eq = find_byte(s, EQ_, f, t);
        let (kf, kt) = match eq {
            Some(e) => trim_range(s, f, e, true),
            None => (f, t),
        };
        if kf == kt {
            Ok(None)
        } else {
            let key = lower_bytes(s.subrange(kf, kt));
            let val = match eq {
                Some(e) => s.subrange(e + 1, t),
                None => Seq::empty(),
            };
            if has_byte(key, GT, 0, key.len() as int) || has_byte(val, GT, 0, val.len() as int) {
                Err(ParseError::InvalidHost)
            } else if is_address_param(key) {
                Ok(Some((key, val, true)))
            } else if has_byte(key, QMARK, 0, key.len() as int) || has_byte(
                val,
                QMARK,
                0,
                val.len() as int,
            ) {
                Err(ParseError::InvalidHost)
            } else {
                Ok(Some((key, val, false)))
            }
        }
    }
}

/// The `;`-separated parameters of `[start, end]` after a bare URI, split
/// between the URI's parameters and the Address's.
#[verifier::opaque]
pub open spec fn fold_bare(s: Seq<u8>, start: int, end: int, uri_params: Pairs, params: Pairs) -> Result<
    (Pairs, Pairs),
    ParseError,
>
    decreases end - start,
{
    if start < 0 || start > end || end > s.len() {
        Ok((uri_params, params))
    } else {
        let seg_end = segment_end(s, SEMI, start, end);
        proof {
            lemma_segment_end(s, SEMI, start, end);
        }
        match bare_entry(s, start, seg_end) {
            Err(e) => Err(e),
            Ok(entry) => {
                let (up, ap) = match entry {
                    Some((k, v, true)) => (uri_params, upsert(params, k, v)),
                    Some((k, v, false)) => (upsert(uri_params, k, v), params),
                    None => (uri_params, params),
                };
                if seg_end >= end {
                    Ok((up, ap))
                } else {
                    fold_bare(s, seg_end + 1, end, up, ap)
                }
            },
        }
    }
}

/// The display name in front of `<`: SP/HTAB trimmed, surrounding quotes
/// removed (`display_unterminated` tells when a quote is left open).
pub open spec fn display_spec(s: Seq<u8>, from: int, to: int) -> Option<Seq<u8>> {
    let (f, t) = trim_range(s, from, to, false);
    if f == t {
        None
    } else if t - f >= 2 && s[f] == DQUOTE && s[t - 1] == DQUOTE {
        Some(s.subrange(f + 1, t - 1))
    } else {
        Some(s.subrange(f, t))
    }
}

/// The display name in front of `<` opens a quoted string that is never
/// closed: after SP/HTAB trimming it starts with `"` and does not also end
/// with one.
pub open spec fn display_unterminated(s: Seq<u8>, from: int, to: int) -> bool {
    let (f, t) = trim_range(s, from, to, false);
    f < t && s[f] == DQUOTE && !(t - f >= 2 && s[t - 1] == DQUOTE)
}

/// An addr-spec: a URI up to the first `;`, then parameters classified.
pub open spec fn bare_spec(s: Seq<u8>, from: int, to: int) -> Result<AddressModel, ParseError> {
    let uri_end = segment_end(s, SEMI, from, to);
    match uri_spec(s, from, uri_end) {
        Err(e) => Err(e),
        Ok(u) => if uri_end < to {
            match fold_bare(s, uri_end + 1, to, u.params, Seq::empty()) {
                Err(e) => Err(e),
                Ok((up, ap)) => Ok(
                    AddressModel {
                        display_name: None,
                        uri: Some(UriModel { params: up, ..u }),
                        params: ap,
                    },
                ),
            }
        } else {
            Ok(AddressModel { display_name: None, uri: Some(u), params: Seq::empty() })
        },
    }
}

/// The Address written in `s`, outer whitespace ignored.
pub open spec fn address_spec(s: Seq<u8>) -> Result<AddressModel, ParseError> {
    let (from, to) = trim_range(s, 0, s.len() as int, true);
    match find_byte(s, LT, from, to) {
        None => bare_spec(s, from, to),
        Some(lt) => match find_byte(s, GT, lt + 1, to) {
            None => Err(ParseError::UnterminatedAngle),
            Some(gt) => if display_unterminated(s, from, lt) {
                Err(ParseError::UnterminatedQuote)
            } else {
                match uri_spec(s, lt + 1, gt) {
                    Err(e) => Err(e),
                    Ok(u) => match fold_segments(
                        s,
                        gt + 1,
                        to,
                        SEMI,
                        SegmentKind::Param,
                        Seq::empty(),
                    ) {
                        Err(e) => Err(e),
                        Ok(p) => Ok(
                            AddressModel {
                                display_name: display_spec(s, from, lt),
                                uri: Some(u),
                                params: p,
                            },
                        ),
                    },
                }
            },
        },
    }
}

/// The serialised Address: always in name-addr form.
pub open spec fn render_address(a: AddressModel) -> Seq<u8> {
    let display: Seq<u8> = match a.display_name {
        Some(d) => seq![DQUOTE] + d + seq![DQUOTE, SP],
        None => Seq::empty(),
    };
    let uri: Seq<u8> = match a.uri {
        Some(u) => render_uri(u),
        None => Seq::empty(),
    };
    display + seq![LT] + uri + seq![GT] + params_part(a.params)
}

// ---------------------------------------------------------------------------
// Parsing
fn lit_tag() -> (r: &'static str)
    ensures
        r.spec_bytes() == tag_key(),
{
    let r = "tag";
    proof {
        reveal_strlit("tag");
        is_ascii_chars_encode_utf8(r@);
        assert(r.spec_bytes() =~= tag_key());
    }
    r
}

fn lit_q() -> (r: &'static str)
    ensures
        r.spec_bytes() == q_key(),
{
    let r = "q";
    proof {
        reveal_strlit("q");
        is_ascii_chars_encode_utf8(r@);
        assert(r.spec_bytes() =~= q_key());
    }
    r
}

fn lit_expires() -> (r: &'static str)
    ensures
        r.spec_bytes() == expires_key(),
{
    let r = "expires";
    proof {
        reveal_strlit("expires");
        is_ascii_chars_encode_utf8(r@);
        assert(r.spec_bytes() =~= expires_key());
    }
    r
}

/// Whether a key names one of the Address-level parameters (`tag`, `q`,
/// `expires`).
pub fn is_address_param_key(key: &String) -> (r: bool)
    ensures
        r == is_address_param(sbytes(key@)),
{
    key_is(key, lit_tag()) || key_is(key, lit_q()) || key_is(key, lit_expires())
}

/// Outcome of classifying one parameter after a bare URI.
pub open spec fn bare_applied(
    entry: Result<Option<(Seq<u8>, Seq<u8>, bool)>, ParseError>,
    r: Result<(), ParseError>,
    uri_before: Pairs,
    before: Pairs,
    uri_after: Pairs,
    after: Pairs,
) -> bool {
    match entry {
        Err(e) => r == Err::<(), ParseError>(e) && uri_after == uri_before && after == before,
        Ok(None) => r == Ok::<(), ParseError>(()) && uri_after == uri_before && after == before,
        Ok(Some((k, v, true))) => r == Ok::<(), ParseError>(()) && uri_after == uri_before && after
            == upsert(before, k, v),
        Ok(Some((k, v, false))) => r == Ok::<(), ParseError>(()) && uri_after == upsert(
            uri_before,
            k,
            v,
        ) && after == before,
    }
}

fn classify_bare_param(
    input: &str,
    from: usize,
    to: usize,
    uri: &mut Uri,
    params: &mut Vec<(String, String)>,
) -> (r: Result<(), ParseError>)
    requires
        from <= to <= input.spec_bytes().len(),
        is_cut(input.spec_bytes(), from as int),
        is_cut(input.spec_bytes(), to as int),
    ensures
        bare_applied(
            bare_entry(input.spec_bytes(), from as int, to as int),
            r,
            old(uri)@.params,
            pairs_view(old(params)@),
            final(uri)@.params,
            pairs_view(final(params)@),
        ),
        final(uri)@ == (UriModel { params: final(uri)@.params, ..old(uri)@ }),
{
    let src = input.as_bytes();
    let ghost s = src@;
    proof {
        reveal(bare_entry);
        lemma_str_valid(input);
        lemma_trim_range(s, from as int, to as int, true);
    }
    let (f, t) = trim_ws(src, from, to);
    if f == t {
        return Ok(());
    }
    let eq = find_in(src, EQ_, f, t);
    proof {
        lemma_find_byte(s, EQ_, f as int, t as int);
        if let Some(e) = eq {
            lemma_cut_around(s, e as int);
            lemma_trim_range(s, f as int, e as int, true);
        }
    }
    let (kf, kt) = match eq {
        Some(e) => trim_ws(src, f, e),
        None => (f, t),
    };
    if kf == kt {
        return Ok(());
    }
    let key = downcase_str(input, kf, kt);
    let val = match eq {
        Some(e) => slice_str(input, e + 1, t),
        None => {
            proof {
                assert(sbytes(Seq::<char>::empty()) =~= Seq::<u8>::empty());
            }
            String::new()
        },
    };
    if str_has_byte(key.as_str(), GT) || str_has_byte(val.as_str(), GT) {
        return Err(ParseError::InvalidHost);
    }
    if is_address_param_key(&key) {
        upsert_pair(params, key, val);
    } else {
        if str_has_byte(key.as_str(), QMARK) || str_has_byte(val.as_str(), QMARK) {
            return Err(ParseError::InvalidHost);
        }
        upsert_pair(&mut uri.params, key, val);
    }
    Ok(())
}

/// Outcome of folding bare parameters.
pub open spec fn fold_bare_applied(
    fold: Result<(Pairs, Pairs), ParseError>,
    r: Result<(), ParseError>,
    uri_after: Pairs,
    after: Pairs,
) -> bool {
    match fold {
        Ok((up, ap)) => r == Ok::<(), ParseError>(()) && uri_after == up && after == ap,
        Err(e) => r == Err::<(), ParseError>(e),
    }
}

fn parse_bare_params(
    input: &str,
    start: usize,
    end: usize,
    uri: &mut Uri,
    params: &mut Vec<(String, String)>,
) -> (r: Result<(), ParseError>)
    requires
        start <= end <= input.spec_bytes().len(),
        is_cut(input.spec_bytes(), start as int),
        is_cut(input.spec_bytes(), end as int),
    ensures
        fold_bare_applied(
            fold_bare(
                input.spec_bytes(),
                start as int,
                end as int,
                old(uri)@.params,
                pairs_view(old(params)@),
            ),
            r,
            final(uri)@.params,
            pairs_view(final(params)@),
        ),
        final(uri)@ == (UriModel { params: final(uri)@.params, ..old(uri)@ }),
{
    let src = input.as_bytes();
    let ghost s = src@;
    let ghost overall = fold_bare(s, start as int, end as int, uri@.params, pairs_view(params@));
    proof {
        reveal(fold_bare);
        lemma_str_valid(input);
    }
    let mut seg_start = start;
    loop
        invariant
            s == input.spec_bytes(),
            s == src@,
            valid_utf8(s),
            start <= seg_start <= end <= s.len(),
            is_cut(s, seg_start as int),
            is_cut(s, end as int),
            overall == fold_bare(s, start as int, end as int, old(uri)@.params, pairs_view(old(params)@)),
            overall == fold_bare(s, seg_start as int, end as int, uri@.params, pairs_view(params@)),
            uri@ == (UriModel { params: uri@.params, ..old(uri)@ }),
        decreases end - seg_start,
    {
        proof {
            reveal(fold_bare);
            lemma_segment_end(s, SEMI, seg_start as int, end as int);
            lemma_find_byte(s, SEMI, seg_start as int, end as int);
        }
        let seg_end = match find_in(src, SEMI, seg_start, end) {
            Some(k) => k,
            None => end,
        };
        proof {
            if seg_end < end {
                lemma_cut_around(s, seg_end as int);
            }
        }
        let res = classify_bare_param(input, seg_start, seg_end, uri, params);
        if let Err(e) = res {
            return Err(e);
        }
        if seg_end == end {
            return Ok(());
        }
        seg_start = seg_end + 1;
    }
}

fn extract_display(input: &str, from: usize, to: usize) -> (r: Result<Option<String>, ParseError>)
    requires
        from <= to <= input.spec_bytes().len(),
        is_cut(input.spec_bytes(), from as int),
        is_cut(input.spec_bytes(), to as int),
    ensures
        match r {
            Ok(d) => !display_unterminated(input.spec_bytes(), from as int, to as int) && opt_sbytes(d)
                == display_spec(input.spec_bytes(), from as int, to as int),
            Err(e) => display_unterminated(input.spec_bytes(), from as int, to as int) && e
                == ParseError::UnterminatedQuote,
        },
{
    let src = input.as_bytes();
    let ghost s = src@;
    proof {
        lemma_str_valid(input);
        lemma_trim_range(s, from as int, to as int, false);
    }
    let (f, t) = trim_sp_tab(src, from, to);
    if f == t {
        return Ok(None);
    }
    if t - f >= 2 && src[f] == DQUOTE && src[t - 1] == DQUOTE {
        proof {
            lemma_cut_around(s, f as int);
            lemma_cut_around(s, t - 1);
        }
        return Ok(Some(slice_str(input, f + 1, t - 1)));
    }
    if src[f] == DQUOTE {
        return Err(ParseError::UnterminatedQuote);
    }
    Ok(Some(slice_str(input, f, t)))
}

impl Address {
    /// Parse a name-addr (`"Display" <uri>;params`) or addr-spec
    /// (`uri;params`).
    pub fn parse(input: &str) -> (r: Result<Address, ParseError>)
        ensures
            address_result(r) == address_spec(input.spec_bytes()),
    {
        let src = input.as_bytes();
        let ghost s = src@;
        proof {
            lemma_str_valid(input);
            lemma_trim_range(s, 0, s.len() as int, true);
        }
        let (from, to) = trim_ws(src, 0, src.len());
        proof {
            lemma_find_byte(s, LT, from as int, to as int);
        }
        let lt_idx = match find_in(src, LT, from, to) {
            Some(i) => i,
            None => return Address::parse_bare_range(input, from, to),
        };
        proof {
            lemma_cut_around(s, lt_idx as int);
            lemma_find_byte(s, GT, lt_idx + 1, to as int);
        }
        let gt_idx = match find_in(src, GT, lt_idx + 1, to) {
            Some(i) => i,
            None => return Err(ParseError::UnterminatedAngle),
        };
        proof {
            lemma_cut_around(s, gt_idx as int);
        }
        let display = match extract_display(input, from, lt_idx) {
            Ok(d) => d,
            Err(e) => return Err(e),
        };
        let uri = match Uri::parse_range(input, lt_idx + 1, gt_idx) {
            Ok(u) => u,
            Err(e) => return Err(e),
        };
        let mut params: Vec<(String, String)> = Vec::new();
        proof {
            assert(pairs_view(params@) =~= Seq::<(Seq<u8>, Seq<u8>)>::empty());
        }
        match parse_segments(input, gt_idx + 1, to, SEMI, SegmentKind::Param, &mut params) {
            Ok(()) => {},
            Err(e) => return Err(e),
        }
        Ok(Address { display_name: display, uri: Some(uri), params })
    }

    fn parse_bare_range(input: &str, from: usize, to: usize) -> (r: Result<Address, ParseError>)
        requires
            from <= to <= input.spec_bytes().len(),
            is_cut(input.spec_bytes(), from as int),
            is_cut(input.spec_bytes(), to as int),
        ensures
            address_result(r) == bare_spec(input.spec_bytes(), from as int, to as int),
    {
        let src = input.as_bytes();
        let ghost s = src@;
        proof {
            lemma_str_valid(input);
            lemma_segment_end(s, SEMI, from as int, to as int);
            lemma_find_byte(s, SEMI, from as int, to as int);
        }
        let uri_end = match find_in(src, SEMI, from, to) {
            Some(i) => i,
            None => to,
        };
        proof {
            if uri_end < to {
                lemma_cut_around(s, uri_end as int);
            }
        }
        let mut uri = match Uri::parse_range(input, from, uri_end) {
            Ok(u) => u,
            Err(e) => return Err(e),
        };
        let mut params: Vec<(String, String)> = Vec::new();
        proof {
            assert(pairs_view(params@) =~= Seq::<(Seq<u8>, Seq<u8>)>::empty());
        }
        if uri_end < to {
            match parse_bare_params(input, uri_end + 1, to, &mut uri, &mut params) {
                Ok(()) => {},
                Err(e) => return Err(e),
            }
        }
        Ok(Address { display_name: None, uri: Some(uri), params })
    }

    /// The `tag` parameter.
    pub fn tag(&self) -> (r: Option<&str>)
        ensures
            match r {
                Some(v) => lookup(self@.params, tag_key()) == Some(sbytes(v@)),
                None => lookup(self@.params, tag_key()) is None,
            },
    {
        let ghost pv = self@.params;
        let lit = lit_tag();
        let mut i: usize = 0;
        while i < self.params.len()
            invariant
                pv == pairs_view(self.params@),
                lit.spec_bytes() == tag_key(),
                i <= self.params@.len(),
                first_key(pv, tag_key(), 0) == first_key(pv, tag_key(), i as int),
            decreases self.params@.len() - i,
        {
            if key_is(&self.params[i].0, lit) {
                return Some(self.params[i].1.as_str());
            }
            i += 1;
        }
        None
    }

    /// Set the `tag` parameter, in place when present, appended otherwise.
    pub fn set_tag(&mut self, tag: String)
        ensures
            final(self)@ == (AddressModel {
                params: upsert(old(self)@.params, tag_key(), sbytes(tag@)),
                ..old(self)@
            }),
    {
        let lit = lit_tag();
        let key = lit.to_owned();
        upsert_pair(&mut self.params, key, tag);
    }
}

/// The buffer size reserved before writing an Address out: room for the
/// angle brackets, the quoted display name, the URI's own reservation and
/// the parameters, held at `usize::MAX`.
pub open spec fn address_size_hint(a: AddressModel) -> int {
    let n0 = match a.display_name {
        Some(d) => sat_add(sat_add(2, d.len() as int), 4),
        None => 2,
    };
    let n1 = match a.uri {
        Some(u) => sat_add(n0, uri_size_hint(u)),
        None => n0,
    };
    pairs_hint(n1, a.params)
}

/// The display name of a name-addr is the text in front of the first `<`
/// with only its outer SP/HTAB removed, every byte inside kept: without
/// quotes it is that text, with quotes it is the text between them, and
/// with no text there is none.
pub proof fn display_name_is_text_before_angle(s: Seq<u8>, a: AddressModel)
    requires
        address_spec(s) == Ok::<AddressModel, ParseError>(a),
    ensures
        ({
            let (from, to) = trim_range(s, 0, s.len() as int, true);
            find_byte(s, LT, from, to) matches Some(lt) ==> {
                let (f, t) = trim_range(s, from, lt, false);
                &&& f == t ==> a.display_name is None
                &&& f < t && s[f] != DQUOTE ==> a.display_name == Some(s.subrange(f, t))
                &&& f < t && s[f] == DQUOTE ==> t - f >= 2 && s[t - 1] == DQUOTE && a.display_name
                    == Some(s.subrange(f + 1, t - 1))
            }
        }),
{
    lemma_trim_range(s, 0, s.len() as int, true);
    let (from, to) = trim_range(s, 0, s.len() as int, true);
    lemma_find_byte(s, LT, from, to);
    if let Some(lt) = find_byte(s, LT, from, to) {
        lemma_trim_range(s, from, lt, false);
    }
}

/// Setting the tag and reading it back gives the tag that was set
/// (`Address::set_tag`, then `Address::tag`); every other parameter reads as
/// before.
pub proof fn tag_after_set_tag(a: AddressModel, tag: Seq<u8>, other: Seq<u8>)
    ensures
        lookup(upsert(a.params, tag_key(), tag), tag_key()) == Some(tag),
        other != tag_key() ==> lookup(upsert(a.params, tag_key(), tag), other) == lookup(
            a.params,
            other,
        ),
{
    crate::uri::lemma_lookup_upsert(a.params, tag_key(), tag, other);
}

/// Every field of the model is UTF-8 text.
pub open spec fn address_model_valid(a: AddressModel) -> bool {
    &&& match a.display_name {
        Some(d) => valid_utf8(d),
        None => true,
    }
    &&& match a.uri {
        Some(u) => crate::uri::model_valid(u),
        None => true,
    }
    &&& crate::uri::pairs_valid(a.params)
}

pub proof fn lemma_address_view_valid(a: Address)
    ensures
        address_model_valid(a@),
{
    if let Some(d) = a.display_name {
        lemma_sbytes_valid(d@);
    }
    if let Some(u) = a.uri {
        lemma_uri_view_valid(u);
    }
    lemma_pairs_view_valid(a.params@);
}

pub proof fn lemma_render_address_valid(a: AddressModel)
    requires
        address_model_valid(a),
    ensures
        valid_utf8(render_address(a)),
{
    lemma_valid_ascii_seq(seq![DQUOTE]);
    lemma_valid_ascii_seq(seq![DQUOTE, SP]);
    lemma_valid_ascii_seq(seq![LT]);
    lemma_valid_ascii_seq(seq![GT]);
    lemma_valid_ascii_seq(Seq::<u8>::empty());
    if let Some(d) = a.display_name {
        valid_utf8_concat(seq![DQUOTE], d);
        valid_utf8_concat(seq![DQUOTE] + d, seq![DQUOTE, SP]);
    }
    if let Some(u) = a.uri {
        lemma_render_uri_valid(u);
    }
    lemma_params_part_valid(a.params);
    let display: Seq<u8> = match a.display_name {
        Some(d) => seq![DQUOTE] + d + seq![DQUOTE, SP],
        None => Seq::empty(),
    };
    let uri: Seq<u8> = match a.uri {
        Some(u) => render_uri(u),
        None => Seq::empty(),
    };
    valid_utf8_concat(display, seq![LT]);
    valid_utf8_concat(display + seq![LT], uri);
    valid_utf8_concat(display + seq![LT] + uri, seq![GT]);
    valid_utf8_concat(display + seq![LT] + uri + seq![GT], params_part(a.params));
}

impl Default for Address {
    fn default() -> (r: Self)
        ensures
            r@ == (AddressModel { display_name: None, uri: None, params: Seq::empty() }),
    {
        let r = Address { display_name: None, uri: None, params: Vec::new() };
        proof {
            assert(pairs_view(r.params@) =~= Seq::<(Seq<u8>, Seq<u8>)>::empty());
        }
        r
    }
}

impl Address {
    /// Rough serialised size, for buffer pre-sizing.
    fn serialized_size_hint(&self) -> (r: usize)
        ensures
            r == address_size_hint(self@),
    {
        let mut n: usize = 2;
        if let Some(dn) = &self.display_name {
            n = n.saturating_add(dn.as_str().as_bytes().len()).saturating_add(4);
        }
        if let Some(u) = &self.uri {
            n = n.saturating_add(u.serialized_size_hint());
        }
        add_pairs_hint(n, &self.params)
    }

    /// Append the serialised Address to a byte buffer.
    #[verifier::spinoff_prover]
    #[verifier::rlimit(30)]
    pub fn render_into(&self, out: &mut Vec<u8>)
        ensures
            final(out)@ == old(out)@ + render_address(self@),
    {
        let ghost a = self@;
        let ghost base = out@;
        if let Some(dn) = &self.display_name {
            out.push(DQUOTE);
            push_all(out, dn.as_str().as_bytes());
            out.push(DQUOTE);
            out.push(SP);
        }
        let ghost display: Seq<u8> = match a.display_name {
            Some(d) => seq![DQUOTE] + d + seq![DQUOTE, SP],
            None => Seq::empty(),
        };
        proof {
            assert(out@ =~= base + display);
        }
        out.push(LT);
        if let Some(uri) = &self.uri {
            uri.render_into(out);
        }
        out.push(GT);
        let ghost uri_bytes: Seq<u8> = match a.uri {
            Some(u) => render_uri(u),
            None => Seq::empty(),
        };
        proof {
            assert(out@ =~= base + (display + seq![LT] + uri_bytes + seq![GT]));
        }
        crate::uri::push_params(out, &self.params);
        proof {
            assert(out@ =~= base + render_address(a));
        }
    }

    /// Serialise into an external string buffer.
    pub fn append_to(&self, buf: &mut String)
        ensures
            sbytes(final(buf)@) == sbytes(old(buf)@) + render_address(self@),
    {
        let mut out: Vec<u8> = Vec::with_capacity(self.serialized_size_hint());
        push_all(&mut out, buf.as_str().as_bytes());
        self.render_into(&mut out);
        proof {
            lemma_address_view_valid(*self);
            lemma_render_address_valid(self@);
            lemma_sbytes_valid(buf@);
            valid_utf8_concat(sbytes(buf@), render_address(self@));
        }
        *buf = string_of_valid(out);
    }

    /// The serialised Address.
    pub fn to_string(&self) -> (r: String)
        ensures
            sbytes(r@) == render_address(self@),
    {
        let mut buf = String::new();
        proof {
            assert(sbytes(buf@) =~= Seq::<u8>::empty());
        }
        self.append_to(&mut buf);
        proof {
            assert(Seq::<u8>::empty() + render_address(self@) =~= render_address(self@));
        }
        buf
    }
}

} // verus!
