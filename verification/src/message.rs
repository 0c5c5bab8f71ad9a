//! RFC 3261 SIP message framing parser.
//!
//! Performs start-line parsing, header-name canonicalisation and
//! Content-Length validation without touching structured header values.
//! Line folding per §7.3.1 is joined into a single value.
use vstd::prelude::*;
use vstd::string::StringSliceAdditionalSpecFns;
use vstd::utf8::{
    decode_utf8, is_ascii_chars_encode_utf8, valid_utf8, valid_utf8_concat,
};

use crate::error::ParseError;
use crate::scan::{
    all_digits, ascii_lower, ascii_upper, dec_value, find_byte, find_in, lemma_case_maps_ascii,
    lemma_find_byte, lemma_trim_range, trim_range, trim_sp_tab, upper_bytes, upper_map, upper_range,
    CR, HTAB, LF, SP,
};
use crate::text::{
    copy_range, lemma_flat_map_valid, lemma_sbytes_injective, lemma_sbytes_valid, push_all, sbytes,
    str_eq, string_from_bytes, string_of_valid,
};
use crate::uri::{
    first_key, lemma_segment_end, lookup, pairs_view, segment_end, Pairs,
};

verus! {

pub const MAX_MESSAGE_SIZE: usize = 65536;

/// The bytes of each field of a start line.
pub enum StartLineModel {
    Request { method: Seq<u8>, request_uri: Seq<u8>, sip_version: Seq<u8> },
    Response { sip_version: Seq<u8>, status_code: u16, reason_phrase: Seq<u8> },
}

/// The bytes of each field of a message.
pub struct MessageModel {
    pub start_line: StartLineModel,
    pub headers: Pairs,
    pub body: Seq<u8>,
}

#[derive(Debug, Clone, PartialEq, Eq)]
pub enum StartLine {
    Request { method: String, request_uri: String, sip_version: String },
    Response { sip_version: String, status_code: u16, reason_phrase: String },
}

impl View for StartLine {
    type V = StartLineModel;

    open spec fn view(&self) -> StartLineModel {
        match self {
            StartLine::Request { method, request_uri, sip_version } => StartLineModel::Request {
                method: sbytes(method@),
                request_uri: sbytes(request_uri@),
                sip_version: sbytes(sip_version@),
            },
            StartLine::Response { sip_version, status_code, reason_phrase } =>
                StartLineModel::Response {
                sip_version: sbytes(sip_version@),
                status_code: *status_code,
                reason_phrase: sbytes(reason_phrase@),
            },
        }
    }
}

#[derive(Debug, Clone, PartialEq, Eq)]
pub struct Message {
    pub start_line: StartLine,
    pub headers: Vec<(String, String)>,
    pub body: Vec<u8>,
}

impl View for Message {
    type V = MessageModel;

    open spec fn view(&self) -> MessageModel {
        MessageModel {
            start_line: self.start_line@,
            headers: pairs_view(self.headers@),
            body: self.body@,
        }
    }
}

pub open spec fn message_result(r: Result<Message, ParseError>) -> Result<MessageModel, ParseError> {
    match r {
        Ok(m) => Ok(m@),
        Err(e) => Err(e),
    }
}

// ---------------------------------------------------------------------------
// Header names
/// Full names of the one-letter compact header forms.
pub open spec fn compact_name(b: u8) -> Option<Seq<char>> {
    if b == 0x69 {
        Some("Call-ID"@)
    } else if b == 0x6d {
        Some("Contact"@)
    } else if b == 0x65 {
        Some("Content-Encoding"@)
    } else if b == 0x6c {
        Some("Content-Length"@)
    } else if b == 0x63 {
        Some("Content-Type"@)
    } else if b == 0x66 {
        Some("From"@)
    } else if b == 0x73 {
        Some("Subject"@)
    } else if b == 0x6b {
        Some("Supported"@)
    } else if b == 0x74 {
        Some("To"@)
    } else if b == 0x76 {
        Some("Via"@)
    } else if b == 0x72 {
        Some("Refer-To"@)
    } else if b == 0x62 {
        Some("Referred-By"@)
    } else if b == 0x6f {
        Some("Event"@)
    } else if b == 0x75 {
        Some("Allow-Events"@)
    } else if b == 0x61 {
        Some("Accept-Contact"@)
    } else if b == 0x6a {
        Some("Reject-Contact"@)
    } else if b == 0x64 {
        Some("Request-Disposition"@)
    } else if b == 0x78 {
        Some("Session-Expires"@)
    } else if b == 0x79 {
        Some("Identity"@)
    } else if b == 0x6e {
        Some("Identity-Info"@)
    } else {
        None
    }
}

/// Well-known header names, in lookup order.
pub open spec fn canonical_list() -> Seq<Seq<char>> {
    seq![
        "Via"@,
        "From"@,
        "To"@,
        "Call-ID"@,
        "CSeq"@,
        "Contact"@,
        "Max-Forwards"@,
        "Expires"@,
        "Record-Route"@,
        "Route"@,
        "Authorization"@,
        "WWW-Authenticate"@,
        "Proxy-Authorization"@,
        "Proxy-Authenticate"@,
        "User-Agent"@,
        "Server"@,
        "Content-Type"@,
        "Content-Length"@,
        "Content-Encoding"@,
        "Content-Disposition"@,
        "Allow"@,
        "Supported"@,
        "Require"@,
        "Accept"@,
        "Accept-Encoding"@,
        "Accept-Language"@,
        "Subject"@,
        "Event"@,
        "Refer-To"@,
        "Referred-By"@,
        "Session-Expires"@,
        "Min-SE"@,
        "Reason"@,
        "Date"@,
        "Timestamp"@,
        "Warning"@,
        "Organization"@,
        "Priority"@,
    ]
}

/// ASCII case-insensitive equality.
pub open spec fn ci_same(a: Seq<u8>, b: Seq<u8>) -> bool {
    a.len() == b.len() && forall|i: int| 0 <= i < a.len() ==> ascii_lower(#[trigger] a[i])
        == ascii_lower(b[i])
}

/// First well-known name at or after position `i` matching `name`.
pub open spec fn canonical_from(name: Seq<u8>, i: int) -> Option<Seq<char>>
    decreases canonical_list().len() - i,
{
    if i < 0 || i >= canonical_list().len() {
        None
    } else if ci_same(sbytes(canonical_list()[i]), name) {
        Some(canonical_list()[i])
    } else {
        canonical_from(name, i + 1)
    }
}

/// Each `-`-separated word capitalised, the rest lowercased.
pub open spec fn capitalize_dashed_bytes(s: Seq<u8>) -> Seq<u8> {
    Seq::new(
        s.len(),
        |i: int|
            if s[i] == 0x2d {
                0x2du8
            } else if i == 0 || s[i - 1] == 0x2d {
                ascii_upper(s[i])
            } else {
                ascii_lower(s[i])
            },
    )
}

/// The canonical form of a header name: compact forms expanded, well-known
/// names in their usual spelling, any other name capitalised per word.
pub open spec fn canonical_spec(name: Seq<u8>) -> Seq<u8> {
    let compact = if name.len() == 1 {
        compact_name(ascii_lower(name[0]))
    } else {
        None
    };
    match compact {
        Some(c) => sbytes(c),
        None => match canonical_from(name, 0) {
            Some(c) => sbytes(c),
            None => capitalize_dashed_bytes(name),
        },
    }
}

pub proof fn lemma_canonical_from_found(name: Seq<u8>, i: int)
    requires
        0 <= i,
    ensures
        canonical_from(name, i) matches Some(c) ==> exists|j: int|
            i <= j < canonical_list().len() && c == canonical_list()[j] && ci_same(
                sbytes(canonical_list()[j]),
                name,
            ),
    decreases canonical_list().len() - i,
{
    if i < canonical_list().len() {
        lemma_canonical_from_found(name, i + 1);
    }
}

/// Names that agree ignoring ASCII case find the same well-known name.
pub proof fn lemma_canonical_from_ci(a: Seq<u8>, b: Seq<u8>, i: int)
    requires
        ci_same(a, b),
    ensures
        canonical_from(a, i) == canonical_from(b, i),
    decreases canonical_list().len() - i,
{
    if 0 <= i < canonical_list().len() {
        let c = sbytes(canonical_list()[i]);
        if ci_same(c, a) {
            assert(ci_same(c, b)) by {
                assert forall|k: int| 0 <= k < c.len() implies ascii_lower(#[trigger] c[k])
                    == ascii_lower(b[k]) by {
                    assert(ascii_lower(a[k]) == ascii_lower(b[k]));
                }
            }
        } else if ci_same(c, b) {
            assert(ci_same(c, a)) by {
                assert forall|k: int| 0 <= k < c.len() implies ascii_lower(#[trigger] c[k])
                    == ascii_lower(a[k]) by {
                    assert(ascii_lower(a[k]) == ascii_lower(b[k]));
                }
            }
        }
        lemma_canonical_from_ci(a, b, i + 1);
    }
}

/// A one-letter compact form.
pub open spec fn is_compact_form(name: Seq<u8>) -> bool {
    name.len() == 1 && compact_name(ascii_lower(name[0])) is Some
}

// The full names of the compact forms are fixed points: those in the
// well-known list are found at their own entry (no earlier entry agrees
// with them in length and first two bytes), the others are found nowhere
// in the list and are already capitalised per word.

/// A name whose length or first two bytes differ from those of the
/// well-known name at `i` passes over it.
proof fn lemma_canonical_from_skip(y: Seq<u8>, i: int)
    requires
        0 <= i < canonical_list().len(),
        y.len() >= 2,
        sbytes(canonical_list()[i]).len() >= 2,
        sbytes(canonical_list()[i]).len() != y.len() || ascii_lower(sbytes(canonical_list()[i])[0])
            != ascii_lower(y[0]) || ascii_lower(sbytes(canonical_list()[i])[1]) != ascii_lower(y[1]),
    ensures
        canonical_from(y, i) == canonical_from(y, i + 1),
{
}

/// Length and first two bytes of each well-known name.
proof fn lemma_list_shape()
    ensures
        sbytes(canonical_list()[0]).len() == 3,
        sbytes(canonical_list()[0])[0] == 0x56u8,
        sbytes(canonical_list()[0])[1] == 0x69u8,
        sbytes(canonical_list()[1]).len() == 4,
        sbytes(canonical_list()[1])[0] == 0x46u8,
        sbytes(canonical_list()[1])[1] == 0x72u8,
        sbytes(canonical_list()[2]).len() == 2,
        sbytes(canonical_list()[2])[0] == 0x54u8,
        sbytes(canonical_list()[2])[1] == 0x6fu8,
        sbytes(canonical_list()[3]).len() == 7,
        sbytes(canonical_list()[3])[0] == 0x43u8,
        sbytes(canonical_list()[3])[1] == 0x61u8,
        sbytes(canonical_list()[4]).len() == 4,
        sbytes(canonical_list()[4])[0] == 0x43u8,
        sbytes(canonical_list()[4])[1] == 0x53u8,
        sbytes(canonical_list()[5]).len() == 7,
        sbytes(canonical_list()[5])[0] == 0x43u8,
        sbytes(canonical_list()[5])[1] == 0x6fu8,
        sbytes(canonical_list()[6]).len() == 12,
        sbytes(canonical_list()[6])[0] == 0x4du8,
        sbytes(canonical_list()[6])[1] == 0x61u8,
        sbytes(canonical_list()[7]).len() == 7,
        sbytes(canonical_list()[7])[0] == 0x45u8,
        sbytes(canonical_list()[7])[1] == 0x78u8,
        sbytes(canonical_list()[8]).len() == 12,
        sbytes(canonical_list()[8])[0] == 0x52u8,
        sbytes(canonical_list()[8])[1] == 0x65u8,
        sbytes(canonical_list()[9]).len() == 5,
        sbytes(canonical_list()[9])[0] == 0x52u8,
        sbytes(canonical_list()[9])[1] == 0x6fu8,
        sbytes(canonical_list()[10]).len() == 13,
        sbytes(canonical_list()[10])[0] == 0x41u8,
        sbytes(canonical_list()[10])[1] == 0x75u8,
        sbytes(canonical_list()[11]).len() == 16,
        sbytes(canonical_list()[11])[0] == 0x57u8,
        sbytes(canonical_list()[11])[1] == 0x57u8,
        sbytes(canonical_list()[12]).len() == 19,
        sbytes(canonical_list()[12])[0] == 0x50u8,
        sbytes(canonical_list()[12])[1] == 0x72u8,
        sbytes(canonical_list()[13]).len() == 18,
        sbytes(canonical_list()[13])[0] == 0x50u8,
        sbytes(canonical_list()[13])[1] == 0x72u8,
        sbytes(canonical_list()[14]).len() == 10,
        sbytes(canonical_list()[14])[0] == 0x55u8,
        sbytes(canonical_list()[14])[1] == 0x73u8,
        sbytes(canonical_list()[15]).len() == 6,
        sbytes(canonical_list()[15])[0] == 0x53u8,
        sbytes(canonical_list()[15])[1] == 0x65u8,
        sbytes(canonical_list()[16]).len() == 12,
        sbytes(canonical_list()[16])[0] == 0x43u8,
        sbytes(canonical_list()[16])[1] == 0x6fu8,
        sbytes(canonical_list()[17]).len() == 14,
        sbytes(canonical_list()[17])[0] == 0x43u8,
        sbytes(canonical_list()[17])[1] == 0x6fu8,
        sbytes(canonical_list()[18]).len() == 16,
        sbytes(canonical_list()[18])[0] == 0x43u8,
        sbytes(canonical_list()[18])[1] == 0x6fu8,
        sbytes(canonical_list()[19]).len() == 19,
        sbytes(canonical_list()[19])[0] == 0x43u8,
        sbytes(canonical_list()[19])[1] == 0x6fu8,
        sbytes(canonical_list()[20]).len() == 5,
        sbytes(canonical_list()[20])[0] == 0x41u8,
        sbytes(canonical_list()[20])[1] == 0x6cu8,
        sbytes(canonical_list()[21]).len() == 9,
        sbytes(canonical_list()[21])[0] == 0x53u8,
        sbytes(canonical_list()[21])[1] == 0x75u8,
        sbytes(canonical_list()[22]).len() == 7,
        sbytes(canonical_list()[22])[0] == 0x52u8,
        sbytes(canonical_list()[22])[1] == 0x65u8,
        sbytes(canonical_list()[23]).len() == 6,
        sbytes(canonical_list()[23])[0] == 0x41u8,
        sbytes(canonical_list()[23])[1] == 0x63u8,
        sbytes(canonical_list()[24]).len() == 15,
        sbytes(canonical_list()[24])[0] == 0x41u8,
        sbytes(canonical_list()[24])[1] == 0x63u8,
        sbytes(canonical_list()[25]).len() == 15,
        sbytes(canonical_list()[25])[0] == 0x41u8,
        sbytes(canonical_list()[25])[1] == 0x63u8,
        sbytes(canonical_list()[26]).len() == 7,
        sbytes(canonical_list()[26])[0] == 0x53u8,
        sbytes(canonical_list()[26])[1] == 0x75u8,
        sbytes(canonical_list()[27]).len() == 5,
        sbytes(canonical_list()[27])[0] == 0x45u8,
        sbytes(canonical_list()[27])[1] == 0x76u8,
        sbytes(canonical_list()[28]).len() == 8,
        sbytes(canonical_list()[28])[0] == 0x52u8,
        sbytes(canonical_list()[28])[1] == 0x65u8,
        sbytes(canonical_list()[29]).len() == 11,
        sbytes(canonical_list()[29])[0] == 0x52u8,
        sbytes(canonical_list()[29])[1] == 0x65u8,
        sbytes(canonical_list()[30]).len() == 15,
        sbytes(canonical_list()[30])[0] == 0x53u8,
        sbytes(canonical_list()[30])[1] == 0x65u8,
        sbytes(canonical_list()[31]).len() == 6,
        sbytes(canonical_list()[31])[0] == 0x4du8,
        sbytes(canonical_list()[31])[1] == 0x69u8,
        sbytes(canonical_list()[32]).len() == 6,
        sbytes(canonical_list()[32])[0] == 0x52u8,
        sbytes(canonical_list()[32])[1] == 0x65u8,
        sbytes(canonical_list()[33]).len() == 4,
        sbytes(canonical_list()[33])[0] == 0x44u8,
        sbytes(canonical_list()[33])[1] == 0x61u8,
        sbytes(canonical_list()[34]).len() == 9,
        sbytes(canonical_list()[34])[0] == 0x54u8,
        sbytes(canonical_list()[34])[1] == 0x69u8,
        sbytes(canonical_list()[35]).len() == 7,
        sbytes(canonical_list()[35])[0] == 0x57u8,
        sbytes(canonical_list()[35])[1] == 0x61u8,
        sbytes(canonical_list()[36]).len() == 12,
        sbytes(canonical_list()[36])[0] == 0x4fu8,
        sbytes(canonical_list()[36])[1] == 0x72u8,
        sbytes(canonical_list()[37]).len() == 8,
        sbytes(canonical_list()[37])[0] == 0x50u8,
        sbytes(canonical_list()[37])[1] == 0x72u8,
{
    reveal_strlit("Via");
    is_ascii_chars_encode_utf8("Via"@);
    reveal_strlit("From");
    is_ascii_chars_encode_utf8("From"@);
    reveal_strlit("To");
    is_ascii_chars_encode_utf8("To"@);
    reveal_strlit("Call-ID");
    is_ascii_chars_encode_utf8("Call-ID"@);
    reveal_strlit("CSeq");
    is_ascii_chars_encode_utf8("CSeq"@);
    reveal_strlit("Contact");
    is_ascii_chars_encode_utf8("Contact"@);
    reveal_strlit("Max-Forwards");
    is_ascii_chars_encode_utf8("Max-Forwards"@);
    reveal_strlit("Expires");
    is_ascii_chars_encode_utf8("Expires"@);
    reveal_strlit("Record-Route");
    is_ascii_chars_encode_utf8("Record-Route"@);
    reveal_strlit("Route");
    is_ascii_chars_encode_utf8("Route"@);
    reveal_strlit("Authorization");
    is_ascii_chars_encode_utf8("Authorization"@);
    reveal_strlit("WWW-Authenticate");
    is_ascii_chars_encode_utf8("WWW-Authenticate"@);
    reveal_strlit("Proxy-Authorization");
    is_ascii_chars_encode_utf8("Proxy-Authorization"@);
    reveal_strlit("Proxy-Authenticate");
    is_ascii_chars_encode_utf8("Proxy-Authenticate"@);
    reveal_strlit("User-Agent");
    is_ascii_chars_encode_utf8("User-Agent"@);
    reveal_strlit("Server");
    is_ascii_chars_encode_utf8("Server"@);
    reveal_strlit("Content-Type");
    is_ascii_chars_encode_utf8("Content-Type"@);
    reveal_strlit("Content-Length");
    is_ascii_chars_encode_utf8("Content-Length"@);
    reveal_strlit("Content-Encoding");
    is_ascii_chars_encode_utf8("Content-Encoding"@);
    reveal_strlit("Content-Disposition");
    is_ascii_chars_encode_utf8("Content-Disposition"@);
    reveal_strlit("Allow");
    is_ascii_chars_encode_utf8("Allow"@);
    reveal_strlit("Supported");
    is_ascii_chars_encode_utf8("Supported"@);
    reveal_strlit("Require");
    is_ascii_chars_encode_utf8("Require"@);
    reveal_strlit("Accept");
    is_ascii_chars_encode_utf8("Accept"@);
    reveal_strlit("Accept-Encoding");
    is_ascii_chars_encode_utf8("Accept-Encoding"@);
    reveal_strlit("Accept-Language");
    is_ascii_chars_encode_utf8("Accept-Language"@);
    reveal_strlit("Subject");
    is_ascii_chars_encode_utf8("Subject"@);
    reveal_strlit("Event");
    is_ascii_chars_encode_utf8("Event"@);
    reveal_strlit("Refer-To");
    is_ascii_chars_encode_utf8("Refer-To"@);
    reveal_strlit("Referred-By");
    is_ascii_chars_encode_utf8("Referred-By"@);
    reveal_strlit("Session-Expires");
    is_ascii_chars_encode_utf8("Session-Expires"@);
    reveal_strlit("Min-SE");
    is_ascii_chars_encode_utf8("Min-SE"@);
    reveal_strlit("Reason");
    is_ascii_chars_encode_utf8("Reason"@);
    reveal_strlit("Date");
    is_ascii_chars_encode_utf8("Date"@);
    reveal_strlit("Timestamp");
    is_ascii_chars_encode_utf8("Timestamp"@);
    reveal_strlit("Warning");
    is_ascii_chars_encode_utf8("Warning"@);
    reveal_strlit("Organization");
    is_ascii_chars_encode_utf8("Organization"@);
    reveal_strlit("Priority");
    is_ascii_chars_encode_utf8("Priority"@);
}

proof fn lemma_compact_i()
    ensures
        canonical_spec(sbytes("Call-ID"@)) == sbytes("Call-ID"@),
{
    lemma_list_shape();
    assert(canonical_list()[3] == "Call-ID"@);
    reveal_with_fuel(canonical_from, 5);
}

proof fn lemma_compact_m()
    ensures
        canonical_spec(sbytes("Contact"@)) == sbytes("Contact"@),
{
    lemma_list_shape();
    assert(canonical_list()[5] == "Contact"@);
    reveal_with_fuel(canonical_from, 7);
}

proof fn lemma_compact_e()
    ensures
        canonical_spec(sbytes("Content-Encoding"@)) == sbytes("Content-Encoding"@),
{
    lemma_list_shape();
    assert(canonical_list()[18] == "Content-Encoding"@);
    reveal_with_fuel(canonical_from, 20);
}

proof fn lemma_compact_l()
    ensures
        canonical_spec(sbytes("Content-Length"@)) == sbytes("Content-Length"@),
{
    lemma_list_shape();
    assert(canonical_list()[17] == "Content-Length"@);
    reveal_with_fuel(canonical_from, 19);
}

proof fn lemma_compact_c()
    ensures
        canonical_spec(sbytes("Content-Type"@)) == sbytes("Content-Type"@),
{
    lemma_list_shape();
    assert(canonical_list()[16] == "Content-Type"@);
    reveal_with_fuel(canonical_from, 18);
}

proof fn lemma_compact_f()
    ensures
        canonical_spec(sbytes("From"@)) == sbytes("From"@),
{
    lemma_list_shape();
    assert(canonical_list()[1] == "From"@);
    reveal_with_fuel(canonical_from, 3);
}

proof fn lemma_compact_s()
    ensures
        canonical_spec(sbytes("Subject"@)) == sbytes("Subject"@),
{
    lemma_list_shape();
    assert(canonical_list()[26] == "Subject"@);
    reveal_with_fuel(canonical_from, 28);
}

proof fn lemma_compact_k()
    ensures
        canonical_spec(sbytes("Supported"@)) == sbytes("Supported"@),
{
    lemma_list_shape();
    assert(canonical_list()[21] == "Supported"@);
    reveal_with_fuel(canonical_from, 23);
}

proof fn lemma_compact_t()
    ensures
        canonical_spec(sbytes("To"@)) == sbytes("To"@),
{
    lemma_list_shape();
    assert(canonical_list()[2] == "To"@);
    reveal_with_fuel(canonical_from, 4);
}

proof fn lemma_compact_v()
    ensures
        canonical_spec(sbytes("Via"@)) == sbytes("Via"@),
{
    lemma_list_shape();
    assert(canonical_list()[0] == "Via"@);
    reveal_with_fuel(canonical_from, 2);
}

proof fn lemma_compact_r()
    ensures
        canonical_spec(sbytes("Refer-To"@)) == sbytes("Refer-To"@),
{
    lemma_list_shape();
    assert(canonical_list()[28] == "Refer-To"@);
    reveal_with_fuel(canonical_from, 30);
}

proof fn lemma_compact_b()
    ensures
        canonical_spec(sbytes("Referred-By"@)) == sbytes("Referred-By"@),
{
    lemma_list_shape();
    assert(canonical_list()[29] == "Referred-By"@);
    reveal_with_fuel(canonical_from, 31);
}

proof fn lemma_compact_o()
    ensures
        canonical_spec(sbytes("Event"@)) == sbytes("Event"@),
{
    lemma_list_shape();
    assert(canonical_list()[27] == "Event"@);
    reveal_with_fuel(canonical_from, 29);
}

proof fn lemma_compact_u_caps()
    ensures
        capitalize_dashed_bytes(sbytes("Allow-Events"@)) == sbytes("Allow-Events"@),
{
    reveal_strlit("Allow-Events");
    is_ascii_chars_encode_utf8("Allow-Events"@);
    assert(capitalize_dashed_bytes(sbytes("Allow-Events"@)) =~= sbytes("Allow-Events"@));
}

proof fn lemma_compact_u_shape()
    ensures
        sbytes("Allow-Events"@).len() == 12,
        sbytes("Allow-Events"@)[0] == 0x41u8,
        sbytes("Allow-Events"@)[1] == 0x6cu8,
{
    reveal_strlit("Allow-Events");
    is_ascii_chars_encode_utf8("Allow-Events"@);
}

proof fn lemma_compact_u()
    ensures
        canonical_spec(sbytes("Allow-Events"@)) == sbytes("Allow-Events"@),
{
    lemma_list_shape();
    lemma_compact_u_shape();
    let y = sbytes("Allow-Events"@);
    lemma_canonical_from_skip(y, 0);
    lemma_canonical_from_skip(y, 1);
    lemma_canonical_from_skip(y, 2);
    lemma_canonical_from_skip(y, 3);
    lemma_canonical_from_skip(y, 4);
    lemma_canonical_from_skip(y, 5);
    lemma_canonical_from_skip(y, 6);
    lemma_canonical_from_skip(y, 7);
    lemma_canonical_from_skip(y, 8);
    lemma_canonical_from_skip(y, 9);
    lemma_canonical_from_skip(y, 10);
    lemma_canonical_from_skip(y, 11);
    lemma_canonical_from_skip(y, 12);
    lemma_canonical_from_skip(y, 13);
    lemma_canonical_from_skip(y, 14);
    lemma_canonical_from_skip(y, 15);
    lemma_canonical_from_skip(y, 16);
    lemma_canonical_from_skip(y, 17);
    lemma_canonical_from_skip(y, 18);
    lemma_canonical_from_skip(y, 19);
    lemma_canonical_from_skip(y, 20);
    lemma_canonical_from_skip(y, 21);
    lemma_canonical_from_skip(y, 22);
    lemma_canonical_from_skip(y, 23);
    lemma_canonical_from_skip(y, 24);
    lemma_canonical_from_skip(y, 25);
    lemma_canonical_from_skip(y, 26);
    lemma_canonical_from_skip(y, 27);
    lemma_canonical_from_skip(y, 28);
    lemma_canonical_from_skip(y, 29);
    lemma_canonical_from_skip(y, 30);
    lemma_canonical_from_skip(y, 31);
    lemma_canonical_from_skip(y, 32);
    lemma_canonical_from_skip(y, 33);
    lemma_canonical_from_skip(y, 34);
    lemma_canonical_from_skip(y, 35);
    lemma_canonical_from_skip(y, 36);
    lemma_canonical_from_skip(y, 37);
    lemma_compact_u_caps();
}

proof fn lemma_compact_a_caps()
    ensures
        capitalize_dashed_bytes(sbytes("Accept-Contact"@)) == sbytes("Accept-Contact"@),
{
    reveal_strlit("Accept-Contact");
    is_ascii_chars_encode_utf8("Accept-Contact"@);
    assert(capitalize_dashed_bytes(sbytes("Accept-Contact"@)) =~= sbytes("Accept-Contact"@));
}

proof fn lemma_compact_a_shape()
    ensures
        sbytes("Accept-Contact"@).len() == 14,
        sbytes("Accept-Contact"@)[0] == 0x41u8,
        sbytes("Accept-Contact"@)[1] == 0x63u8,
{
    reveal_strlit("Accept-Contact");
    is_ascii_chars_encode_utf8("Accept-Contact"@);
}

proof fn lemma_compact_a()
    ensures
        canonical_spec(sbytes("Accept-Contact"@)) == sbytes("Accept-Contact"@),
{
    lemma_list_shape();
    lemma_compact_a_shape();
    let y = sbytes("Accept-Contact"@);
    lemma_canonical_from_skip(y, 0);
    lemma_canonical_from_skip(y, 1);
    lemma_canonical_from_skip(y, 2);
    lemma_canonical_from_skip(y, 3);
    lemma_canonical_from_skip(y, 4);
    lemma_canonical_from_skip(y, 5);
    lemma_canonical_from_skip(y, 6);
    lemma_canonical_from_skip(y, 7);
    lemma_canonical_from_skip(y, 8);
    lemma_canonical_from_skip(y, 9);
    lemma_canonical_from_skip(y, 10);
    lemma_canonical_from_skip(y, 11);
    lemma_canonical_from_skip(y, 12);
    lemma_canonical_from_skip(y, 13);
    lemma_canonical_from_skip(y, 14);
    lemma_canonical_from_skip(y, 15);
    lemma_canonical_from_skip(y, 16);
    lemma_canonical_from_skip(y, 17);
    lemma_canonical_from_skip(y, 18);
    lemma_canonical_from_skip(y, 19);
    lemma_canonical_from_skip(y, 20);
    lemma_canonical_from_skip(y, 21);
    lemma_canonical_from_skip(y, 22);
    lemma_canonical_from_skip(y, 23);
    lemma_canonical_from_skip(y, 24);
    lemma_canonical_from_skip(y, 25);
    lemma_canonical_from_skip(y, 26);
    lemma_canonical_from_skip(y, 27);
    lemma_canonical_from_skip(y, 28);
    lemma_canonical_from_skip(y, 29);
    lemma_canonical_from_skip(y, 30);
    lemma_canonical_from_skip(y, 31);
    lemma_canonical_from_skip(y, 32);
    lemma_canonical_from_skip(y, 33);
    lemma_canonical_from_skip(y, 34);
    lemma_canonical_from_skip(y, 35);
    lemma_canonical_from_skip(y, 36);
    lemma_canonical_from_skip(y, 37);
    lemma_compact_a_caps();
}

proof fn lemma_compact_j_caps()
    ensures
        capitalize_dashed_bytes(sbytes("Reject-Contact"@)) == sbytes("Reject-Contact"@),
{
    reveal_strlit("Reject-Contact");
    is_ascii_chars_encode_utf8("Reject-Contact"@);
    assert(capitalize_dashed_bytes(sbytes("Reject-Contact"@)) =~= sbytes("Reject-Contact"@));
}

proof fn lemma_compact_j_shape()
    ensures
        sbytes("Reject-Contact"@).len() == 14,
        sbytes("Reject-Contact"@)[0] == 0x52u8,
        sbytes("Reject-Contact"@)[1] == 0x65u8,
{
    reveal_strlit("Reject-Contact");
    is_ascii_chars_encode_utf8("Reject-Contact"@);
}

proof fn lemma_compact_j()
    ensures
        canonical_spec(sbytes("Reject-Contact"@)) == sbytes("Reject-Contact"@),
{
    lemma_list_shape();
    lemma_compact_j_shape();
    let y = sbytes("Reject-Contact"@);
    lemma_canonical_from_skip(y, 0);
    lemma_canonical_from_skip(y, 1);
    lemma_canonical_from_skip(y, 2);
    lemma_canonical_from_skip(y, 3);
    lemma_canonical_from_skip(y, 4);
    lemma_canonical_from_skip(y, 5);
    lemma_canonical_from_skip(y, 6);
    lemma_canonical_from_skip(y, 7);
    lemma_canonical_from_skip(y, 8);
    lemma_canonical_from_skip(y, 9);
    lemma_canonical_from_skip(y, 10);
    lemma_canonical_from_skip(y, 11);
    lemma_canonical_from_skip(y, 12);
    lemma_canonical_from_skip(y, 13);
    lemma_canonical_from_skip(y, 14);
    lemma_canonical_from_skip(y, 15);
    lemma_canonical_from_skip(y, 16);
    lemma_canonical_from_skip(y, 17);
    lemma_canonical_from_skip(y, 18);
    lemma_canonical_from_skip(y, 19);
    lemma_canonical_from_skip(y, 20);
    lemma_canonical_from_skip(y, 21);
    lemma_canonical_from_skip(y, 22);
    lemma_canonical_from_skip(y, 23);
    lemma_canonical_from_skip(y, 24);
    lemma_canonical_from_skip(y, 25);
    lemma_canonical_from_skip(y, 26);
    lemma_canonical_from_skip(y, 27);
    lemma_canonical_from_skip(y, 28);
    lemma_canonical_from_skip(y, 29);
    lemma_canonical_from_skip(y, 30);
    lemma_canonical_from_skip(y, 31);
    lemma_canonical_from_skip(y, 32);
    lemma_canonical_from_skip(y, 33);
    lemma_canonical_from_skip(y, 34);
    lemma_canonical_from_skip(y, 35);
    lemma_canonical_from_skip(y, 36);
    lemma_canonical_from_skip(y, 37);
    lemma_compact_j_caps();
}

proof fn lemma_compact_d_caps()
    ensures
        capitalize_dashed_bytes(sbytes("Request-Disposition"@)) == sbytes("Request-Disposition"@),
{
    reveal_strlit("Request-Disposition");
    is_ascii_chars_encode_utf8("Request-Disposition"@);
    assert(capitalize_dashed_bytes(sbytes("Request-Disposition"@)) =~= sbytes("Request-Disposition"@));
}

proof fn lemma_compact_d_shape()
    ensures
        sbytes("Request-Disposition"@).len() == 19,
        sbytes("Request-Disposition"@)[0] == 0x52u8,
        sbytes("Request-Disposition"@)[1] == 0x65u8,
{
    reveal_strlit("Request-Disposition");
    is_ascii_chars_encode_utf8("Request-Disposition"@);
}

proof fn lemma_compact_d()
    ensures
        canonical_spec(sbytes("Request-Disposition"@)) == sbytes("Request-Disposition"@),
{
    lemma_list_shape();
    lemma_compact_d_shape();
    let y = sbytes("Request-Disposition"@);
    lemma_canonical_from_skip(y, 0);
    lemma_canonical_from_skip(y, 1);
    lemma_canonical_from_skip(y, 2);
    lemma_canonical_from_skip(y, 3);
    lemma_canonical_from_skip(y, 4);
    lemma_canonical_from_skip(y, 5);
    lemma_canonical_from_skip(y, 6);
    lemma_canonical_from_skip(y, 7);
    lemma_canonical_from_skip(y, 8);
    lemma_canonical_from_skip(y, 9);
    lemma_canonical_from_skip(y, 10);
    lemma_canonical_from_skip(y, 11);
    lemma_canonical_from_skip(y, 12);
    lemma_canonical_from_skip(y, 13);
    lemma_canonical_from_skip(y, 14);
    lemma_canonical_from_skip(y, 15);
    lemma_canonical_from_skip(y, 16);
    lemma_canonical_from_skip(y, 17);
    lemma_canonical_from_skip(y, 18);
    lemma_canonical_from_skip(y, 19);
    lemma_canonical_from_skip(y, 20);
    lemma_canonical_from_skip(y, 21);
    lemma_canonical_from_skip(y, 22);
    lemma_canonical_from_skip(y, 23);
    lemma_canonical_from_skip(y, 24);
    lemma_canonical_from_skip(y, 25);
    lemma_canonical_from_skip(y, 26);
    lemma_canonical_from_skip(y, 27);
    lemma_canonical_from_skip(y, 28);
    lemma_canonical_from_skip(y, 29);
    lemma_canonical_from_skip(y, 30);
    lemma_canonical_from_skip(y, 31);
    lemma_canonical_from_skip(y, 32);
    lemma_canonical_from_skip(y, 33);
    lemma_canonical_from_skip(y, 34);
    lemma_canonical_from_skip(y, 35);
    lemma_canonical_from_skip(y, 36);
    lemma_canonical_from_skip(y, 37);
    lemma_compact_d_caps();
}

proof fn lemma_compact_x()
    ensures
        canonical_spec(sbytes("Session-Expires"@)) == sbytes("Session-Expires"@),
{
    lemma_list_shape();
    assert(canonical_list()[30] == "Session-Expires"@);
    reveal_with_fuel(canonical_from, 32);
}

proof fn lemma_compact_y_caps()
    ensures
        capitalize_dashed_bytes(sbytes("Identity"@)) == sbytes("Identity"@),
{
    reveal_strlit("Identity");
    is_ascii_chars_encode_utf8("Identity"@);
    assert(capitalize_dashed_bytes(sbytes("Identity"@)) =~= sbytes("Identity"@));
}

proof fn lemma_compact_y_shape()
    ensures
        sbytes("Identity"@).len() == 8,
        sbytes("Identity"@)[0] == 0x49u8,
        sbytes("Identity"@)[1] == 0x64u8,
{
    reveal_strlit("Identity");
    is_ascii_chars_encode_utf8("Identity"@);
}

proof fn lemma_compact_y()
    ensures
        canonical_spec(sbytes("Identity"@)) == sbytes("Identity"@),
{
    lemma_list_shape();
    lemma_compact_y_shape();
    let y = sbytes("Identity"@);
    lemma_canonical_from_skip(y, 0);
    lemma_canonical_from_skip(y, 1);
    lemma_canonical_from_skip(y, 2);
    lemma_canonical_from_skip(y, 3);
    lemma_canonical_from_skip(y, 4);
    lemma_canonical_from_skip(y, 5);
    lemma_canonical_from_skip(y, 6);
    lemma_canonical_from_skip(y, 7);
    lemma_canonical_from_skip(y, 8);
    lemma_canonical_from_skip(y, 9);
    lemma_canonical_from_skip(y, 10);
    lemma_canonical_from_skip(y, 11);
    lemma_canonical_from_skip(y, 12);
    lemma_canonical_from_skip(y, 13);
    lemma_canonical_from_skip(y, 14);
    lemma_canonical_from_skip(y, 15);
    lemma_canonical_from_skip(y, 16);
    lemma_canonical_from_skip(y, 17);
    lemma_canonical_from_skip(y, 18);
    lemma_canonical_from_skip(y, 19);
    lemma_canonical_from_skip(y, 20);
    lemma_canonical_from_skip(y, 21);
    lemma_canonical_from_skip(y, 22);
    lemma_canonical_from_skip(y, 23);
    lemma_canonical_from_skip(y, 24);
    lemma_canonical_from_skip(y, 25);
    lemma_canonical_from_skip(y, 26);
    lemma_canonical_from_skip(y, 27);
    lemma_canonical_from_skip(y, 28);
    lemma_canonical_from_skip(y, 29);
    lemma_canonical_from_skip(y, 30);
    lemma_canonical_from_skip(y, 31);
    lemma_canonical_from_skip(y, 32);
    lemma_canonical_from_skip(y, 33);
    lemma_canonical_from_skip(y, 34);
    lemma_canonical_from_skip(y, 35);
    lemma_canonical_from_skip(y, 36);
    lemma_canonical_from_skip(y, 37);
    lemma_compact_y_caps();
}

proof fn lemma_compact_n_caps()
    ensures
        capitalize_dashed_bytes(sbytes("Identity-Info"@)) == sbytes("Identity-Info"@),
{
    reveal_strlit("Identity-Info");
    is_ascii_chars_encode_utf8("Identity-Info"@);
    assert(capitalize_dashed_bytes(sbytes("Identity-Info"@)) =~= sbytes("Identity-Info"@));
}

proof fn lemma_compact_n_shape()
    ensures
        sbytes("Identity-Info"@).len() == 13,
        sbytes("Identity-Info"@)[0] == 0x49u8,
        sbytes("Identity-Info"@)[1] == 0x64u8,
{
    reveal_strlit("Identity-Info");
    is_ascii_chars_encode_utf8("Identity-Info"@);
}

proof fn lemma_compact_n()
    ensures
        canonical_spec(sbytes("Identity-Info"@)) == sbytes("Identity-Info"@),
{
    lemma_list_shape();
    lemma_compact_n_shape();
    let y = sbytes("Identity-Info"@);
    lemma_canonical_from_skip(y, 0);
    lemma_canonical_from_skip(y, 1);
    lemma_canonical_from_skip(y, 2);
    lemma_canonical_from_skip(y, 3);
    lemma_canonical_from_skip(y, 4);
    lemma_canonical_from_skip(y, 5);
    lemma_canonical_from_skip(y, 6);
    lemma_canonical_from_skip(y, 7);
    lemma_canonical_from_skip(y, 8);
    lemma_canonical_from_skip(y, 9);
    lemma_canonical_from_skip(y, 10);
    lemma_canonical_from_skip(y, 11);
    lemma_canonical_from_skip(y, 12);
    lemma_canonical_from_skip(y, 13);
    lemma_canonical_from_skip(y, 14);
    lemma_canonical_from_skip(y, 15);
    lemma_canonical_from_skip(y, 16);
    lemma_canonical_from_skip(y, 17);
    lemma_canonical_from_skip(y, 18);
    lemma_canonical_from_skip(y, 19);
    lemma_canonical_from_skip(y, 20);
    lemma_canonical_from_skip(y, 21);
    lemma_canonical_from_skip(y, 22);
    lemma_canonical_from_skip(y, 23);
    lemma_canonical_from_skip(y, 24);
    lemma_canonical_from_skip(y, 25);
    lemma_canonical_from_skip(y, 26);
    lemma_canonical_from_skip(y, 27);
    lemma_canonical_from_skip(y, 28);
    lemma_canonical_from_skip(y, 29);
    lemma_canonical_from_skip(y, 30);
    lemma_canonical_from_skip(y, 31);
    lemma_canonical_from_skip(y, 32);
    lemma_canonical_from_skip(y, 33);
    lemma_canonical_from_skip(y, 34);
    lemma_canonical_from_skip(y, 35);
    lemma_canonical_from_skip(y, 36);
    lemma_canonical_from_skip(y, 37);
    lemma_compact_n_caps();
}

/// The full name a compact form stands for is its own canonical form.
proof fn lemma_compact_fixed(b: u8)
    requires
        compact_name(b) is Some,
    ensures
        canonical_spec(sbytes(compact_name(b)->Some_0)) == sbytes(compact_name(b)->Some_0),
{
    if b == 0x69 {
        lemma_compact_i();
    } else if b == 0x6d {
        lemma_compact_m();
    } else if b == 0x65 {
        lemma_compact_e();
    } else if b == 0x6c {
        lemma_compact_l();
    } else if b == 0x63 {
        lemma_compact_c();
    } else if b == 0x66 {
        lemma_compact_f();
    } else if b == 0x73 {
        lemma_compact_s();
    } else if b == 0x6b {
        lemma_compact_k();
    } else if b == 0x74 {
        lemma_compact_t();
    } else if b == 0x76 {
        lemma_compact_v();
    } else if b == 0x72 {
        lemma_compact_r();
    } else if b == 0x62 {
        lemma_compact_b();
    } else if b == 0x6f {
        lemma_compact_o();
    } else if b == 0x75 {
        lemma_compact_u();
    } else if b == 0x61 {
        lemma_compact_a();
    } else if b == 0x6a {
        lemma_compact_j();
    } else if b == 0x64 {
        lemma_compact_d();
    } else if b == 0x78 {
        lemma_compact_x();
    } else if b == 0x79 {
        lemma_compact_y();
    } else if b == 0x6e {
        lemma_compact_n();
    }
}

// The well-known names are found at their own entry: a name agreeing with
// one of them ignoring case canonicalises to its spelling in the list.

proof fn lemma_found_at_0()
    ensures
        canonical_from(sbytes(canonical_list()[0]), 0) == Some(canonical_list()[0]),
{
    lemma_list_shape();
    let y = sbytes(canonical_list()[0]);

    assert(ci_same(y, y));
}

proof fn lemma_found_at_1()
    ensures
        canonical_from(sbytes(canonical_list()[1]), 0) == Some(canonical_list()[1]),
{
    lemma_list_shape();
    let y = sbytes(canonical_list()[1]);
    lemma_canonical_from_skip(y, 0);
    assert(ci_same(y, y));
}

proof fn lemma_found_at_2()
    ensures
        canonical_from(sbytes(canonical_list()[2]), 0) == Some(canonical_list()[2]),
{
    lemma_list_shape();
    let y = sbytes(canonical_list()[2]);
    lemma_canonical_from_skip(y, 0);
    lemma_canonical_from_skip(y, 1);
    assert(ci_same(y, y));
}

proof fn lemma_found_at_3()
    ensures
        canonical_from(sbytes(canonical_list()[3]), 0) == Some(canonical_list()[3]),
{
    lemma_list_shape();
    let y = sbytes(canonical_list()[3]);
    lemma_canonical_from_skip(y, 0);
    lemma_canonical_from_skip(y, 1);
    lemma_canonical_from_skip(y, 2);
    assert(ci_same(y, y));
}

proof fn lemma_found_at_4()
    ensures
        canonical_from(sbytes(canonical_list()[4]), 0) == Some(canonical_list()[4]),
{
    lemma_list_shape();
    let y = sbytes(canonical_list()[4]);
    lemma_canonical_from_skip(y, 0);
    lemma_canonical_from_skip(y, 1);
    lemma_canonical_from_skip(y, 2);
    lemma_canonical_from_skip(y, 3);
    assert(ci_same(y, y));
}

proof fn lemma_found_at_5()
    ensures
        canonical_from(sbytes(canonical_list()[5]), 0) == Some(canonical_list()[5]),
{
    lemma_list_shape();
    let y = sbytes(canonical_list()[5]);
    lemma_canonical_from_skip(y, 0);
    lemma_canonical_from_skip(y, 1);
    lemma_canonical_from_skip(y, 2);
    lemma_canonical_from_skip(y, 3);
    lemma_canonical_from_skip(y, 4);
    assert(ci_same(y, y));
}

proof fn lemma_found_at_6()
    ensures
        canonical_from(sbytes(canonical_list()[6]), 0) == Some(canonical_list()[6]),
{
    lemma_list_shape();
    let y = sbytes(canonical_list()[6]);
    lemma_canonical_from_skip(y, 0);
    lemma_canonical_from_skip(y, 1);
    lemma_canonical_from_skip(y, 2);
    lemma_canonical_from_skip(y, 3);
    lemma_canonical_from_skip(y, 4);
    lemma_canonical_from_skip(y, 5);
    assert(ci_same(y, y));
}

proof fn lemma_found_at_7()
    ensures
        canonical_from(sbytes(canonical_list()[7]), 0) == Some(canonical_list()[7]),
{
    lemma_list_shape();
    let y = sbytes(canonical_list()[7]);
    lemma_canonical_from_skip(y, 0);
    lemma_canonical_from_skip(y, 1);
    lemma_canonical_from_skip(y, 2);
    lemma_canonical_from_skip(y, 3);
    lemma_canonical_from_skip(y, 4);
    lemma_canonical_from_skip(y, 5);
    lemma_canonical_from_skip(y, 6);
    assert(ci_same(y, y));
}

proof fn lemma_found_at_8()
    ensures
        canonical_from(sbytes(canonical_list()[8]), 0) == Some(canonical_list()[8]),
{
    lemma_list_shape();
    let y = sbytes(canonical_list()[8]);
    lemma_canonical_from_skip(y, 0);
    lemma_canonical_from_skip(y, 1);
    lemma_canonical_from_skip(y, 2);
    lemma_canonical_from_skip(y, 3);
    lemma_canonical_from_skip(y, 4);
    lemma_canonical_from_skip(y, 5);
    lemma_canonical_from_skip(y, 6);
    lemma_canonical_from_skip(y, 7);
    assert(ci_same(y, y));
}

proof fn lemma_found_at_9()
    ensures
        canonical_from(sbytes(canonical_list()[9]), 0) == Some(canonical_list()[9]),
{
    lemma_list_shape();
    let y = sbytes(canonical_list()[9]);
    lemma_canonical_from_skip(y, 0);
    lemma_canonical_from_skip(y, 1);
    lemma_canonical_from_skip(y, 2);
    lemma_canonical_from_skip(y, 3);
    lemma_canonical_from_skip(y, 4);
    lemma_canonical_from_skip(y, 5);
    lemma_canonical_from_skip(y, 6);
    lemma_canonical_from_skip(y, 7);
    lemma_canonical_from_skip(y, 8);
    assert(ci_same(y, y));
}

proof fn lemma_found_at_10()
    ensures
        canonical_from(sbytes(canonical_list()[10]), 0) == Some(canonical_list()[10]),
{
    lemma_list_shape();
    let y = sbytes(canonical_list()[10]);
    lemma_canonical_from_skip(y, 0);
    lemma_canonical_from_skip(y, 1);
    lemma_canonical_from_skip(y, 2);
    lemma_canonical_from_skip(y, 3);
    lemma_canonical_from_skip(y, 4);
    lemma_canonical_from_skip(y, 5);
    lemma_canonical_from_skip(y, 6);
    lemma_canonical_from_skip(y, 7);
    lemma_canonical_from_skip(y, 8);
    lemma_canonical_from_skip(y, 9);
    assert(ci_same(y, y));
}

proof fn lemma_found_at_11()
    ensures
        canonical_from(sbytes(canonical_list()[11]), 0) == Some(canonical_list()[11]),
{
    lemma_list_shape();
    let y = sbytes(canonical_list()[11]);
    lemma_canonical_from_skip(y, 0);
    lemma_canonical_from_skip(y, 1);
    lemma_canonical_from_skip(y, 2);
    lemma_canonical_from_skip(y, 3);
    lemma_canonical_from_skip(y, 4);
    lemma_canonical_from_skip(y, 5);
    lemma_canonical_from_skip(y, 6);
    lemma_canonical_from_skip(y, 7);
    lemma_canonical_from_skip(y, 8);
    lemma_canonical_from_skip(y, 9);
    lemma_canonical_from_skip(y, 10);
    assert(ci_same(y, y));
}

proof fn lemma_found_at_12()
    ensures
        canonical_from(sbytes(canonical_list()[12]), 0) == Some(canonical_list()[12]),
{
    lemma_list_shape();
    let y = sbytes(canonical_list()[12]);
    lemma_canonical_from_skip(y, 0);
    lemma_canonical_from_skip(y, 1);
    lemma_canonical_from_skip(y, 2);
    lemma_canonical_from_skip(y, 3);
    lemma_canonical_from_skip(y, 4);
    lemma_canonical_from_skip(y, 5);
    lemma_canonical_from_skip(y, 6);
    lemma_canonical_from_skip(y, 7);
    lemma_canonical_from_skip(y, 8);
    lemma_canonical_from_skip(y, 9);
    lemma_canonical_from_skip(y, 10);
    lemma_canonical_from_skip(y, 11);
    assert(ci_same(y, y));
}

proof fn lemma_found_at_13()
    ensures
        canonical_from(sbytes(canonical_list()[13]), 0) == Some(canonical_list()[13]),
{
    lemma_list_shape();
    let y = sbytes(canonical_list()[13]);
    lemma_canonical_from_skip(y, 0);
    lemma_canonical_from_skip(y, 1);
    lemma_canonical_from_skip(y, 2);
    lemma_canonical_from_skip(y, 3);
    lemma_canonical_from_skip(y, 4);
    lemma_canonical_from_skip(y, 5);
    lemma_canonical_from_skip(y, 6);
    lemma_canonical_from_skip(y, 7);
    lemma_canonical_from_skip(y, 8);
    lemma_canonical_from_skip(y, 9);
    lemma_canonical_from_skip(y, 10);
    lemma_canonical_from_skip(y, 11);
    lemma_canonical_from_skip(y, 12);
    assert(ci_same(y, y));
}

proof fn lemma_found_at_14()
    ensures
        canonical_from(sbytes(canonical_list()[14]), 0) == Some(canonical_list()[14]),
{
    lemma_list_shape();
    let y = sbytes(canonical_list()[14]);
    lemma_canonical_from_skip(y, 0);
    lemma_canonical_from_skip(y, 1);
    lemma_canonical_from_skip(y, 2);
    lemma_canonical_from_skip(y, 3);
    lemma_canonical_from_skip(y, 4);
    lemma_canonical_from_skip(y, 5);
    lemma_canonical_from_skip(y, 6);
    lemma_canonical_from_skip(y, 7);
    lemma_canonical_from_skip(y, 8);
    lemma_canonical_from_skip(y, 9);
    lemma_canonical_from_skip(y, 10);
    lemma_canonical_from_skip(y, 11);
    lemma_canonical_from_skip(y, 12);
    lemma_canonical_from_skip(y, 13);
    assert(ci_same(y, y));
}

proof fn lemma_found_at_15()
    ensures
        canonical_from(sbytes(canonical_list()[15]), 0) == Some(canonical_list()[15]),
{
    lemma_list_shape();
    let y = sbytes(canonical_list()[15]);
    lemma_canonical_from_skip(y, 0);
    lemma_canonical_from_skip(y, 1);
    lemma_canonical_from_skip(y, 2);
    lemma_canonical_from_skip(y, 3);
    lemma_canonical_from_skip(y, 4);
    lemma_canonical_from_skip(y, 5);
    lemma_canonical_from_skip(y, 6);
    lemma_canonical_from_skip(y, 7);
    lemma_canonical_from_skip(y, 8);
    lemma_canonical_from_skip(y, 9);
    lemma_canonical_from_skip(y, 10);
    lemma_canonical_from_skip(y, 11);
    lemma_canonical_from_skip(y, 12);
    lemma_canonical_from_skip(y, 13);
    lemma_canonical_from_skip(y, 14);
    assert(ci_same(y, y));
}

proof fn lemma_found_at_16()
    ensures
        canonical_from(sbytes(canonical_list()[16]), 0) == Some(canonical_list()[16]),
{
    lemma_list_shape();
    let y = sbytes(canonical_list()[16]);
    lemma_canonical_from_skip(y, 0);
    lemma_canonical_from_skip(y, 1);
    lemma_canonical_from_skip(y, 2);
    lemma_canonical_from_skip(y, 3);
    lemma_canonical_from_skip(y, 4);
    lemma_canonical_from_skip(y, 5);
    lemma_canonical_from_skip(y, 6);
    lemma_canonical_from_skip(y, 7);
    lemma_canonical_from_skip(y, 8);
    lemma_canonical_from_skip(y, 9);
    lemma_canonical_from_skip(y, 10);
    lemma_canonical_from_skip(y, 11);
    lemma_canonical_from_skip(y, 12);
    lemma_canonical_from_skip(y, 13);
    lemma_canonical_from_skip(y, 14);
    lemma_canonical_from_skip(y, 15);
    assert(ci_same(y, y));
}

proof fn lemma_found_at_17()
    ensures
        canonical_from(sbytes(canonical_list()[17]), 0) == Some(canonical_list()[17]),
{
    lemma_list_shape();
    let y = sbytes(canonical_list()[17]);
    lemma_canonical_from_skip(y, 0);
    lemma_canonical_from_skip(y, 1);
    lemma_canonical_from_skip(y, 2);
    lemma_canonical_from_skip(y, 3);
    lemma_canonical_from_skip(y, 4);
    lemma_canonical_from_skip(y, 5);
    lemma_canonical_from_skip(y, 6);
    lemma_canonical_from_skip(y, 7);
    lemma_canonical_from_skip(y, 8);
    lemma_canonical_from_skip(y, 9);
    lemma_canonical_from_skip(y, 10);
    lemma_canonical_from_skip(y, 11);
    lemma_canonical_from_skip(y, 12);
    lemma_canonical_from_skip(y, 13);
    lemma_canonical_from_skip(y, 14);
    lemma_canonical_from_skip(y, 15);
    lemma_canonical_from_skip(y, 16);
    assert(ci_same(y, y));
}

proof fn lemma_found_at_18()
    ensures
        canonical_from(sbytes(canonical_list()[18]), 0) == Some(canonical_list()[18]),
{
    lemma_list_shape();
    let y = sbytes(canonical_list()[18]);
    lemma_canonical_from_skip(y, 0);
    lemma_canonical_from_skip(y, 1);
    lemma_canonical_from_skip(y, 2);
    lemma_canonical_from_skip(y, 3);
    lemma_canonical_from_skip(y, 4);
    lemma_canonical_from_skip(y, 5);
    lemma_canonical_from_skip(y, 6);
    lemma_canonical_from_skip(y, 7);
    lemma_canonical_from_skip(y, 8);
    lemma_canonical_from_skip(y, 9);
    lemma_canonical_from_skip(y, 10);
    lemma_canonical_from_skip(y, 11);
    lemma_canonical_from_skip(y, 12);
    lemma_canonical_from_skip(y, 13);
    lemma_canonical_from_skip(y, 14);
    lemma_canonical_from_skip(y, 15);
    lemma_canonical_from_skip(y, 16);
    lemma_canonical_from_skip(y, 17);
    assert(ci_same(y, y));
}

proof fn lemma_found_at_19()
    ensures
        canonical_from(sbytes(canonical_list()[19]), 0) == Some(canonical_list()[19]),
{
    lemma_list_shape();
    let y = sbytes(canonical_list()[19]);
    lemma_canonical_from_skip(y, 0);
    lemma_canonical_from_skip(y, 1);
    lemma_canonical_from_skip(y, 2);
    lemma_canonical_from_skip(y, 3);
    lemma_canonical_from_skip(y, 4);
    lemma_canonical_from_skip(y, 5);
    lemma_canonical_from_skip(y, 6);
    lemma_canonical_from_skip(y, 7);
    lemma_canonical_from_skip(y, 8);
    lemma_canonical_from_skip(y, 9);
    lemma_canonical_from_skip(y, 10);
    lemma_canonical_from_skip(y, 11);
    lemma_canonical_from_skip(y, 12);
    lemma_canonical_from_skip(y, 13);
    lemma_canonical_from_skip(y, 14);
    lemma_canonical_from_skip(y, 15);
    lemma_canonical_from_skip(y, 16);
    lemma_canonical_from_skip(y, 17);
    lemma_canonical_from_skip(y, 18);
    assert(ci_same(y, y));
}

proof fn lemma_found_at_20()
    ensures
        canonical_from(sbytes(canonical_list()[20]), 0) == Some(canonical_list()[20]),
{
    lemma_list_shape();
    let y = sbytes(canonical_list()[20]);
    lemma_canonical_from_skip(y, 0);
    lemma_canonical_from_skip(y, 1);
    lemma_canonical_from_skip(y, 2);
    lemma_canonical_from_skip(y, 3);
    lemma_canonical_from_skip(y, 4);
    lemma_canonical_from_skip(y, 5);
    lemma_canonical_from_skip(y, 6);
    lemma_canonical_from_skip(y, 7);
    lemma_canonical_from_skip(y, 8);
    lemma_canonical_from_skip(y, 9);
    lemma_canonical_from_skip(y, 10);
    lemma_canonical_from_skip(y, 11);
    lemma_canonical_from_skip(y, 12);
    lemma_canonical_from_skip(y, 13);
    lemma_canonical_from_skip(y, 14);
    lemma_canonical_from_skip(y, 15);
    lemma_canonical_from_skip(y, 16);
    lemma_canonical_from_skip(y, 17);
    lemma_canonical_from_skip(y, 18);
    lemma_canonical_from_skip(y, 19);
    assert(ci_same(y, y));
}

proof fn lemma_found_at_21()
    ensures
        canonical_from(sbytes(canonical_list()[21]), 0) == Some(canonical_list()[21]),
{
    lemma_list_shape();
    let y = sbytes(canonical_list()[21]);
    lemma_canonical_from_skip(y, 0);
    lemma_canonical_from_skip(y, 1);
    lemma_canonical_from_skip(y, 2);
    lemma_canonical_from_skip(y, 3);
    lemma_canonical_from_skip(y, 4);
    lemma_canonical_from_skip(y, 5);
    lemma_canonical_from_skip(y, 6);
    lemma_canonical_from_skip(y, 7);
    lemma_canonical_from_skip(y, 8);
    lemma_canonical_from_skip(y, 9);
    lemma_canonical_from_skip(y, 10);
    lemma_canonical_from_skip(y, 11);
    lemma_canonical_from_skip(y, 12);
    lemma_canonical_from_skip(y, 13);
    lemma_canonical_from_skip(y, 14);
    lemma_canonical_from_skip(y, 15);
    lemma_canonical_from_skip(y, 16);
    lemma_canonical_from_skip(y, 17);
    lemma_canonical_from_skip(y, 18);
    lemma_canonical_from_skip(y, 19);
    lemma_canonical_from_skip(y, 20);
    assert(ci_same(y, y));
}

proof fn lemma_found_at_22()
    ensures
        canonical_from(sbytes(canonical_list()[22]), 0) == Some(canonical_list()[22]),
{
    lemma_list_shape();
    let y = sbytes(canonical_list()[22]);
    lemma_canonical_from_skip(y, 0);
    lemma_canonical_from_skip(y, 1);
    lemma_canonical_from_skip(y, 2);
    lemma_canonical_from_skip(y, 3);
    lemma_canonical_from_skip(y, 4);
    lemma_canonical_from_skip(y, 5);
    lemma_canonical_from_skip(y, 6);
    lemma_canonical_from_skip(y, 7);
    lemma_canonical_from_skip(y, 8);
    lemma_canonical_from_skip(y, 9);
    lemma_canonical_from_skip(y, 10);
    lemma_canonical_from_skip(y, 11);
    lemma_canonical_from_skip(y, 12);
    lemma_canonical_from_skip(y, 13);
    lemma_canonical_from_skip(y, 14);
    lemma_canonical_from_skip(y, 15);
    lemma_canonical_from_skip(y, 16);
    lemma_canonical_from_skip(y, 17);
    lemma_canonical_from_skip(y, 18);
    lemma_canonical_from_skip(y, 19);
    lemma_canonical_from_skip(y, 20);
    lemma_canonical_from_skip(y, 21);
    assert(ci_same(y, y));
}

proof fn lemma_found_at_23()
    ensures
        canonical_from(sbytes(canonical_list()[23]), 0) == Some(canonical_list()[23]),
{
    lemma_list_shape();
    let y = sbytes(canonical_list()[23]);
    lemma_canonical_from_skip(y, 0);
    lemma_canonical_from_skip(y, 1);
    lemma_canonical_from_skip(y, 2);
    lemma_canonical_from_skip(y, 3);
    lemma_canonical_from_skip(y, 4);
    lemma_canonical_from_skip(y, 5);
    lemma_canonical_from_skip(y, 6);
    lemma_canonical_from_skip(y, 7);
    lemma_canonical_from_skip(y, 8);
    lemma_canonical_from_skip(y, 9);
    lemma_canonical_from_skip(y, 10);
    lemma_canonical_from_skip(y, 11);
    lemma_canonical_from_skip(y, 12);
    lemma_canonical_from_skip(y, 13);
    lemma_canonical_from_skip(y, 14);
    lemma_canonical_from_skip(y, 15);
    lemma_canonical_from_skip(y, 16);
    lemma_canonical_from_skip(y, 17);
    lemma_canonical_from_skip(y, 18);
    lemma_canonical_from_skip(y, 19);
    lemma_canonical_from_skip(y, 20);
    lemma_canonical_from_skip(y, 21);
    lemma_canonical_from_skip(y, 22);
    assert(ci_same(y, y));
}

proof fn lemma_found_at_24()
    ensures
        canonical_from(sbytes(canonical_list()[24]), 0) == Some(canonical_list()[24]),
{
    lemma_list_shape();
    let y = sbytes(canonical_list()[24]);
    lemma_canonical_from_skip(y, 0);
    lemma_canonical_from_skip(y, 1);
    lemma_canonical_from_skip(y, 2);
    lemma_canonical_from_skip(y, 3);
    lemma_canonical_from_skip(y, 4);
    lemma_canonical_from_skip(y, 5);
    lemma_canonical_from_skip(y, 6);
    lemma_canonical_from_skip(y, 7);
    lemma_canonical_from_skip(y, 8);
    lemma_canonical_from_skip(y, 9);
    lemma_canonical_from_skip(y, 10);
    lemma_canonical_from_skip(y, 11);
    lemma_canonical_from_skip(y, 12);
    lemma_canonical_from_skip(y, 13);
    lemma_canonical_from_skip(y, 14);
    lemma_canonical_from_skip(y, 15);
    lemma_canonical_from_skip(y, 16);
    lemma_canonical_from_skip(y, 17);
    lemma_canonical_from_skip(y, 18);
    lemma_canonical_from_skip(y, 19);
    lemma_canonical_from_skip(y, 20);
    lemma_canonical_from_skip(y, 21);
    lemma_canonical_from_skip(y, 22);
    lemma_canonical_from_skip(y, 23);
    assert(ci_same(y, y));
}

proof fn lemma_accept_names_differ()
    ensures
        !ci_same(sbytes(canonical_list()[24]), sbytes(canonical_list()[25])),
{
    reveal_strlit("Accept-Encoding");
    reveal_strlit("Accept-Language");
    is_ascii_chars_encode_utf8("Accept-Encoding"@);
    is_ascii_chars_encode_utf8("Accept-Language"@);
    assert(canonical_list()[24] == "Accept-Encoding"@);
    assert(canonical_list()[25] == "Accept-Language"@);
    assert(ascii_lower(sbytes("Accept-Encoding"@)[7]) != ascii_lower(sbytes("Accept-Language"@)[7]));
}

proof fn lemma_found_at_25()
    ensures
        canonical_from(sbytes(canonical_list()[25]), 0) == Some(canonical_list()[25]),
{
    lemma_list_shape();
    let y = sbytes(canonical_list()[25]);
    lemma_canonical_from_skip(y, 0);
    lemma_canonical_from_skip(y, 1);
    lemma_canonical_from_skip(y, 2);
    lemma_canonical_from_skip(y, 3);
    lemma_canonical_from_skip(y, 4);
    lemma_canonical_from_skip(y, 5);
    lemma_canonical_from_skip(y, 6);
    lemma_canonical_from_skip(y, 7);
    lemma_canonical_from_skip(y, 8);
    lemma_canonical_from_skip(y, 9);
    lemma_canonical_from_skip(y, 10);
    lemma_canonical_from_skip(y, 11);
    lemma_canonical_from_skip(y, 12);
    lemma_canonical_from_skip(y, 13);
    lemma_canonical_from_skip(y, 14);
    lemma_canonical_from_skip(y, 15);
    lemma_canonical_from_skip(y, 16);
    lemma_canonical_from_skip(y, 17);
    lemma_canonical_from_skip(y, 18);
    lemma_canonical_from_skip(y, 19);
    lemma_canonical_from_skip(y, 20);
    lemma_canonical_from_skip(y, 21);
    lemma_canonical_from_skip(y, 22);
    lemma_canonical_from_skip(y, 23);
    lemma_accept_names_differ();
    assert(canonical_from(y, 24) == canonical_from(y, 25));
    assert(ci_same(y, y));
}

proof fn lemma_found_at_26()
    ensures
        canonical_from(sbytes(canonical_list()[26]), 0) == Some(canonical_list()[26]),
{
    lemma_list_shape();
    let y = sbytes(canonical_list()[26]);
    lemma_canonical_from_skip(y, 0);
    lemma_canonical_from_skip(y, 1);
    lemma_canonical_from_skip(y, 2);
    lemma_canonical_from_skip(y, 3);
    lemma_canonical_from_skip(y, 4);
    lemma_canonical_from_skip(y, 5);
    lemma_canonical_from_skip(y, 6);
    lemma_canonical_from_skip(y, 7);
    lemma_canonical_from_skip(y, 8);
    lemma_canonical_from_skip(y, 9);
    lemma_canonical_from_skip(y, 10);
    lemma_canonical_from_skip(y, 11);
    lemma_canonical_from_skip(y, 12);
    lemma_canonical_from_skip(y, 13);
    lemma_canonical_from_skip(y, 14);
    lemma_canonical_from_skip(y, 15);
    lemma_canonical_from_skip(y, 16);
    lemma_canonical_from_skip(y, 17);
    lemma_canonical_from_skip(y, 18);
    lemma_canonical_from_skip(y, 19);
    lemma_canonical_from_skip(y, 20);
    lemma_canonical_from_skip(y, 21);
    lemma_canonical_from_skip(y, 22);
    lemma_canonical_from_skip(y, 23);
    lemma_canonical_from_skip(y, 24);
    lemma_canonical_from_skip(y, 25);
    assert(ci_same(y, y));
}

proof fn lemma_found_at_27()
    ensures
        canonical_from(sbytes(canonical_list()[27]), 0) == Some(canonical_list()[27]),
{
    lemma_list_shape();
    let y = sbytes(canonical_list()[27]);
    lemma_canonical_from_skip(y, 0);
    lemma_canonical_from_skip(y, 1);
    lemma_canonical_from_skip(y, 2);
    lemma_canonical_from_skip(y, 3);
    lemma_canonical_from_skip(y, 4);
    lemma_canonical_from_skip(y, 5);
    lemma_canonical_from_skip(y, 6);
    lemma_canonical_from_skip(y, 7);
    lemma_canonical_from_skip(y, 8);
    lemma_canonical_from_skip(y, 9);
    lemma_canonical_from_skip(y, 10);
    lemma_canonical_from_skip(y, 11);
    lemma_canonical_from_skip(y, 12);
    lemma_canonical_from_skip(y, 13);
    lemma_canonical_from_skip(y, 14);
    lemma_canonical_from_skip(y, 15);
    lemma_canonical_from_skip(y, 16);
    lemma_canonical_from_skip(y, 17);
    lemma_canonical_from_skip(y, 18);
    lemma_canonical_from_skip(y, 19);
    lemma_canonical_from_skip(y, 20);
    lemma_canonical_from_skip(y, 21);
    lemma_canonical_from_skip(y, 22);
    lemma_canonical_from_skip(y, 23);
    lemma_canonical_from_skip(y, 24);
    lemma_canonical_from_skip(y, 25);
    lemma_canonical_from_skip(y, 26);
    assert(ci_same(y, y));
}

proof fn lemma_found_at_28()
    ensures
        canonical_from(sbytes(canonical_list()[28]), 0) == Some(canonical_list()[28]),
{
    lemma_list_shape();
    let y = sbytes(canonical_list()[28]);
    lemma_canonical_from_skip(y, 0);
    lemma_canonical_from_skip(y, 1);
    lemma_canonical_from_skip(y, 2);
    lemma_canonical_from_skip(y, 3);
    lemma_canonical_from_skip(y, 4);
    lemma_canonical_from_skip(y, 5);
    lemma_canonical_from_skip(y, 6);
    lemma_canonical_from_skip(y, 7);
    lemma_canonical_from_skip(y, 8);
    lemma_canonical_from_skip(y, 9);
    lemma_canonical_from_skip(y, 10);
    lemma_canonical_from_skip(y, 11);
    lemma_canonical_from_skip(y, 12);
    lemma_canonical_from_skip(y, 13);
    lemma_canonical_from_skip(y, 14);
    lemma_canonical_from_skip(y, 15);
    lemma_canonical_from_skip(y, 16);
    lemma_canonical_from_skip(y, 17);
    lemma_canonical_from_skip(y, 18);
    lemma_canonical_from_skip(y, 19);
    lemma_canonical_from_skip(y, 20);
    lemma_canonical_from_skip(y, 21);
    lemma_canonical_from_skip(y, 22);
    lemma_canonical_from_skip(y, 23);
    lemma_canonical_from_skip(y, 24);
    lemma_canonical_from_skip(y, 25);
    lemma_canonical_from_skip(y, 26);
    lemma_canonical_from_skip(y, 27);
    assert(ci_same(y, y));
}

proof fn lemma_found_at_29()
    ensures
        canonical_from(sbytes(canonical_list()[29]), 0) == Some(canonical_list()[29]),
{
    lemma_list_shape();
    let y = sbytes(canonical_list()[29]);
    lemma_canonical_from_skip(y, 0);
    lemma_canonical_from_skip(y, 1);
    lemma_canonical_from_skip(y, 2);
    lemma_canonical_from_skip(y, 3);
    lemma_canonical_from_skip(y, 4);
    lemma_canonical_from_skip(y, 5);
    lemma_canonical_from_skip(y, 6);
    lemma_canonical_from_skip(y, 7);
    lemma_canonical_from_skip(y, 8);
    lemma_canonical_from_skip(y, 9);
    lemma_canonical_from_skip(y, 10);
    lemma_canonical_from_skip(y, 11);
    lemma_canonical_from_skip(y, 12);
    lemma_canonical_from_skip(y, 13);
    lemma_canonical_from_skip(y, 14);
    lemma_canonical_from_skip(y, 15);
    lemma_canonical_from_skip(y, 16);
    lemma_canonical_from_skip(y, 17);
    lemma_canonical_from_skip(y, 18);
    lemma_canonical_from_skip(y, 19);
    lemma_canonical_from_skip(y, 20);
    lemma_canonical_from_skip(y, 21);
    lemma_canonical_from_skip(y, 22);
    lemma_canonical_from_skip(y, 23);
    lemma_canonical_from_skip(y, 24);
    lemma_canonical_from_skip(y, 25);
    lemma_canonical_from_skip(y, 26);
    lemma_canonical_from_skip(y, 27);
    lemma_canonical_from_skip(y, 28);
    assert(ci_same(y, y));
}

proof fn lemma_found_at_30()
    ensures
        canonical_from(sbytes(canonical_list()[30]), 0) == Some(canonical_list()[30]),
{
    lemma_list_shape();
    let y = sbytes(canonical_list()[30]);
    lemma_canonical_from_skip(y, 0);
    lemma_canonical_from_skip(y, 1);
    lemma_canonical_from_skip(y, 2);
    lemma_canonical_from_skip(y, 3);
    lemma_canonical_from_skip(y, 4);
    lemma_canonical_from_skip(y, 5);
    lemma_canonical_from_skip(y, 6);
    lemma_canonical_from_skip(y, 7);
    lemma_canonical_from_skip(y, 8);
    lemma_canonical_from_skip(y, 9);
    lemma_canonical_from_skip(y, 10);
    lemma_canonical_from_skip(y, 11);
    lemma_canonical_from_skip(y, 12);
    lemma_canonical_from_skip(y, 13);
    lemma_canonical_from_skip(y, 14);
    lemma_canonical_from_skip(y, 15);
    lemma_canonical_from_skip(y, 16);
    lemma_canonical_from_skip(y, 17);
    lemma_canonical_from_skip(y, 18);
    lemma_canonical_from_skip(y, 19);
    lemma_canonical_from_skip(y, 20);
    lemma_canonical_from_skip(y, 21);
    lemma_canonical_from_skip(y, 22);
    lemma_canonical_from_skip(y, 23);
    lemma_canonical_from_skip(y, 24);
    lemma_canonical_from_skip(y, 25);
    lemma_canonical_from_skip(y, 26);
    lemma_canonical_from_skip(y, 27);
    lemma_canonical_from_skip(y, 28);
    lemma_canonical_from_skip(y, 29);
    assert(ci_same(y, y));
}

proof fn lemma_found_at_31()
    ensures
        canonical_from(sbytes(canonical_list()[31]), 0) == Some(canonical_list()[31]),
{
    lemma_list_shape();
    let y = sbytes(canonical_list()[31]);
    lemma_canonical_from_skip(y, 0);
    lemma_canonical_from_skip(y, 1);
    lemma_canonical_from_skip(y, 2);
    lemma_canonical_from_skip(y, 3);
    lemma_canonical_from_skip(y, 4);
    lemma_canonical_from_skip(y, 5);
    lemma_canonical_from_skip(y, 6);
    lemma_canonical_from_skip(y, 7);
    lemma_canonical_from_skip(y, 8);
    lemma_canonical_from_skip(y, 9);
    lemma_canonical_from_skip(y, 10);
    lemma_canonical_from_skip(y, 11);
    lemma_canonical_from_skip(y, 12);
    lemma_canonical_from_skip(y, 13);
    lemma_canonical_from_skip(y, 14);
    lemma_canonical_from_skip(y, 15);
    lemma_canonical_from_skip(y, 16);
    lemma_canonical_from_skip(y, 17);
    lemma_canonical_from_skip(y, 18);
    lemma_canonical_from_skip(y, 19);
    lemma_canonical_from_skip(y, 20);
    lemma_canonical_from_skip(y, 21);
    lemma_canonical_from_skip(y, 22);
    lemma_canonical_from_skip(y, 23);
    lemma_canonical_from_skip(y, 24);
    lemma_canonical_from_skip(y, 25);
    lemma_canonical_from_skip(y, 26);
    lemma_canonical_from_skip(y, 27);
    lemma_canonical_from_skip(y, 28);
    lemma_canonical_from_skip(y, 29);
    lemma_canonical_from_skip(y, 30);
    assert(ci_same(y, y));
}

proof fn lemma_found_at_32()
    ensures
        canonical_from(sbytes(canonical_list()[32]), 0) == Some(canonical_list()[32]),
{
    lemma_list_shape();
    let y = sbytes(canonical_list()[32]);
    lemma_canonical_from_skip(y, 0);
    lemma_canonical_from_skip(y, 1);
    lemma_canonical_from_skip(y, 2);
    lemma_canonical_from_skip(y, 3);
    lemma_canonical_from_skip(y, 4);
    lemma_canonical_from_skip(y, 5);
    lemma_canonical_from_skip(y, 6);
    lemma_canonical_from_skip(y, 7);
    lemma_canonical_from_skip(y, 8);
    lemma_canonical_from_skip(y, 9);
    lemma_canonical_from_skip(y, 10);
    lemma_canonical_from_skip(y, 11);
    lemma_canonical_from_skip(y, 12);
    lemma_canonical_from_skip(y, 13);
    lemma_canonical_from_skip(y, 14);
    lemma_canonical_from_skip(y, 15);
    lemma_canonical_from_skip(y, 16);
    lemma_canonical_from_skip(y, 17);
    lemma_canonical_from_skip(y, 18);
    lemma_canonical_from_skip(y, 19);
    lemma_canonical_from_skip(y, 20);
    lemma_canonical_from_skip(y, 21);
    lemma_canonical_from_skip(y, 22);
    lemma_canonical_from_skip(y, 23);
    lemma_canonical_from_skip(y, 24);
    lemma_canonical_from_skip(y, 25);
    lemma_canonical_from_skip(y, 26);
    lemma_canonical_from_skip(y, 27);
    lemma_canonical_from_skip(y, 28);
    lemma_canonical_from_skip(y, 29);
    lemma_canonical_from_skip(y, 30);
    lemma_canonical_from_skip(y, 31);
    assert(ci_same(y, y));
}

proof fn lemma_found_at_33()
    ensures
        canonical_from(sbytes(canonical_list()[33]), 0) == Some(canonical_list()[33]),
{
    lemma_list_shape();
    let y = sbytes(canonical_list()[33]);
    lemma_canonical_from_skip(y, 0);
    lemma_canonical_from_skip(y, 1);
    lemma_canonical_from_skip(y, 2);
    lemma_canonical_from_skip(y, 3);
    lemma_canonical_from_skip(y, 4);
    lemma_canonical_from_skip(y, 5);
    lemma_canonical_from_skip(y, 6);
    lemma_canonical_from_skip(y, 7);
    lemma_canonical_from_skip(y, 8);
    lemma_canonical_from_skip(y, 9);
    lemma_canonical_from_skip(y, 10);
    lemma_canonical_from_skip(y, 11);
    lemma_canonical_from_skip(y, 12);
    lemma_canonical_from_skip(y, 13);
    lemma_canonical_from_skip(y, 14);
    lemma_canonical_from_skip(y, 15);
    lemma_canonical_from_skip(y, 16);
    lemma_canonical_from_skip(y, 17);
    lemma_canonical_from_skip(y, 18);
    lemma_canonical_from_skip(y, 19);
    lemma_canonical_from_skip(y, 20);
    lemma_canonical_from_skip(y, 21);
    lemma_canonical_from_skip(y, 22);
    lemma_canonical_from_skip(y, 23);
    lemma_canonical_from_skip(y, 24);
    lemma_canonical_from_skip(y, 25);
    lemma_canonical_from_skip(y, 26);
    lemma_canonical_from_skip(y, 27);
    lemma_canonical_from_skip(y, 28);
    lemma_canonical_from_skip(y, 29);
    lemma_canonical_from_skip(y, 30);
    lemma_canonical_from_skip(y, 31);
    lemma_canonical_from_skip(y, 32);
    assert(ci_same(y, y));
}

proof fn lemma_found_at_34()
    ensures
        canonical_from(sbytes(canonical_list()[34]), 0) == Some(canonical_list()[34]),
{
    lemma_list_shape();
    let y = sbytes(canonical_list()[34]);
    lemma_canonical_from_skip(y, 0);
    lemma_canonical_from_skip(y, 1);
    lemma_canonical_from_skip(y, 2);
    lemma_canonical_from_skip(y, 3);
    lemma_canonical_from_skip(y, 4);
    lemma_canonical_from_skip(y, 5);
    lemma_canonical_from_skip(y, 6);
    lemma_canonical_from_skip(y, 7);
    lemma_canonical_from_skip(y, 8);
    lemma_canonical_from_skip(y, 9);
    lemma_canonical_from_skip(y, 10);
    lemma_canonical_from_skip(y, 11);
    lemma_canonical_from_skip(y, 12);
    lemma_canonical_from_skip(y, 13);
    lemma_canonical_from_skip(y, 14);
    lemma_canonical_from_skip(y, 15);
    lemma_canonical_from_skip(y, 16);
    lemma_canonical_from_skip(y, 17);
    lemma_canonical_from_skip(y, 18);
    lemma_canonical_from_skip(y, 19);
    lemma_canonical_from_skip(y, 20);
    lemma_canonical_from_skip(y, 21);
    lemma_canonical_from_skip(y, 22);
    lemma_canonical_from_skip(y, 23);
    lemma_canonical_from_skip(y, 24);
    lemma_canonical_from_skip(y, 25);
    lemma_canonical_from_skip(y, 26);
    lemma_canonical_from_skip(y, 27);
    lemma_canonical_from_skip(y, 28);
    lemma_canonical_from_skip(y, 29);
    lemma_canonical_from_skip(y, 30);
    lemma_canonical_from_skip(y, 31);
    lemma_canonical_from_skip(y, 32);
    lemma_canonical_from_skip(y, 33);
    assert(ci_same(y, y));
}

proof fn lemma_found_at_35()
    ensures
        canonical_from(sbytes(canonical_list()[35]), 0) == Some(canonical_list()[35]),
{
    lemma_list_shape();
    let y = sbytes(canonical_list()[35]);
    lemma_canonical_from_skip(y, 0);
    lemma_canonical_from_skip(y, 1);
    lemma_canonical_from_skip(y, 2);
    lemma_canonical_from_skip(y, 3);
    lemma_canonical_from_skip(y, 4);
    lemma_canonical_from_skip(y, 5);
    lemma_canonical_from_skip(y, 6);
    lemma_canonical_from_skip(y, 7);
    lemma_canonical_from_skip(y, 8);
    lemma_canonical_from_skip(y, 9);
    lemma_canonical_from_skip(y, 10);
    lemma_canonical_from_skip(y, 11);
    lemma_canonical_from_skip(y, 12);
    lemma_canonical_from_skip(y, 13);
    lemma_canonical_from_skip(y, 14);
    lemma_canonical_from_skip(y, 15);
    lemma_canonical_from_skip(y, 16);
    lemma_canonical_from_skip(y, 17);
    lemma_canonical_from_skip(y, 18);
    lemma_canonical_from_skip(y, 19);
    lemma_canonical_from_skip(y, 20);
    lemma_canonical_from_skip(y, 21);
    lemma_canonical_from_skip(y, 22);
    lemma_canonical_from_skip(y, 23);
    lemma_canonical_from_skip(y, 24);
    lemma_canonical_from_skip(y, 25);
    lemma_canonical_from_skip(y, 26);
    lemma_canonical_from_skip(y, 27);
    lemma_canonical_from_skip(y, 28);
    lemma_canonical_from_skip(y, 29);
    lemma_canonical_from_skip(y, 30);
    lemma_canonical_from_skip(y, 31);
    lemma_canonical_from_skip(y, 32);
    lemma_canonical_from_skip(y, 33);
    lemma_canonical_from_skip(y, 34);
    assert(ci_same(y, y));
}

proof fn lemma_found_at_36()
    ensures
        canonical_from(sbytes(canonical_list()[36]), 0) == Some(canonical_list()[36]),
{
    lemma_list_shape();
    let y = sbytes(canonical_list()[36]);
    lemma_canonical_from_skip(y, 0);
    lemma_canonical_from_skip(y, 1);
    lemma_canonical_from_skip(y, 2);
    lemma_canonical_from_skip(y, 3);
    lemma_canonical_from_skip(y, 4);
    lemma_canonical_from_skip(y, 5);
    lemma_canonical_from_skip(y, 6);
    lemma_canonical_from_skip(y, 7);
    lemma_canonical_from_skip(y, 8);
    lemma_canonical_from_skip(y, 9);
    lemma_canonical_from_skip(y, 10);
    lemma_canonical_from_skip(y, 11);
    lemma_canonical_from_skip(y, 12);
    lemma_canonical_from_skip(y, 13);
    lemma_canonical_from_skip(y, 14);
    lemma_canonical_from_skip(y, 15);
    lemma_canonical_from_skip(y, 16);
    lemma_canonical_from_skip(y, 17);
    lemma_canonical_from_skip(y, 18);
    lemma_canonical_from_skip(y, 19);
    lemma_canonical_from_skip(y, 20);
    lemma_canonical_from_skip(y, 21);
    lemma_canonical_from_skip(y, 22);
    lemma_canonical_from_skip(y, 23);
    lemma_canonical_from_skip(y, 24);
    lemma_canonical_from_skip(y, 25);
    lemma_canonical_from_skip(y, 26);
    lemma_canonical_from_skip(y, 27);
    lemma_canonical_from_skip(y, 28);
    lemma_canonical_from_skip(y, 29);
    lemma_canonical_from_skip(y, 30);
    lemma_canonical_from_skip(y, 31);
    lemma_canonical_from_skip(y, 32);
    lemma_canonical_from_skip(y, 33);
    lemma_canonical_from_skip(y, 34);
    lemma_canonical_from_skip(y, 35);
    assert(ci_same(y, y));
}

proof fn lemma_found_at_37()
    ensures
        canonical_from(sbytes(canonical_list()[37]), 0) == Some(canonical_list()[37]),
{
    lemma_list_shape();
    let y = sbytes(canonical_list()[37]);
    lemma_canonical_from_skip(y, 0);
    lemma_canonical_from_skip(y, 1);
    lemma_canonical_from_skip(y, 2);
    lemma_canonical_from_skip(y, 3);
    lemma_canonical_from_skip(y, 4);
    lemma_canonical_from_skip(y, 5);
    lemma_canonical_from_skip(y, 6);
    lemma_canonical_from_skip(y, 7);
    lemma_canonical_from_skip(y, 8);
    lemma_canonical_from_skip(y, 9);
    lemma_canonical_from_skip(y, 10);
    lemma_canonical_from_skip(y, 11);
    lemma_canonical_from_skip(y, 12);
    lemma_canonical_from_skip(y, 13);
    lemma_canonical_from_skip(y, 14);
    lemma_canonical_from_skip(y, 15);
    lemma_canonical_from_skip(y, 16);
    lemma_canonical_from_skip(y, 17);
    lemma_canonical_from_skip(y, 18);
    lemma_canonical_from_skip(y, 19);
    lemma_canonical_from_skip(y, 20);
    lemma_canonical_from_skip(y, 21);
    lemma_canonical_from_skip(y, 22);
    lemma_canonical_from_skip(y, 23);
    lemma_canonical_from_skip(y, 24);
    lemma_canonical_from_skip(y, 25);
    lemma_canonical_from_skip(y, 26);
    lemma_canonical_from_skip(y, 27);
    lemma_canonical_from_skip(y, 28);
    lemma_canonical_from_skip(y, 29);
    lemma_canonical_from_skip(y, 30);
    lemma_canonical_from_skip(y, 31);
    lemma_canonical_from_skip(y, 32);
    lemma_canonical_from_skip(y, 33);
    lemma_canonical_from_skip(y, 34);
    lemma_canonical_from_skip(y, 35);
    lemma_canonical_from_skip(y, 36);
    assert(ci_same(y, y));
}

/// A name agreeing ignoring case with the well-known name at `j`, whose
/// own entry is where it is found, canonicalises to that spelling.
proof fn lemma_well_known_at(name: Seq<u8>, j: int)
    requires
        0 <= j < canonical_list().len(),
        ci_same(name, sbytes(canonical_list()[j])),
        sbytes(canonical_list()[j]).len() >= 2,
    ensures
        canonical_from(sbytes(canonical_list()[j]), 0) == Some(canonical_list()[j]) ==> canonical_spec(
            name,
        ) == sbytes(canonical_list()[j]),
{
    lemma_canonical_from_ci(name, sbytes(canonical_list()[j]), 0);
}

/// Every well-known header name, written in any ASCII case, takes its
/// standard spelling (`Call-ID`, `CSeq`, `WWW-Authenticate`, `Min-SE`, ...).
pub proof fn well_known_names_keep_their_spelling(name: Seq<u8>)
    ensures
        ci_same(name, sbytes("Via"@)) ==> canonical_spec(name) == sbytes("Via"@),
        ci_same(name, sbytes("From"@)) ==> canonical_spec(name) == sbytes("From"@),
        ci_same(name, sbytes("To"@)) ==> canonical_spec(name) == sbytes("To"@),
        ci_same(name, sbytes("Call-ID"@)) ==> canonical_spec(name) == sbytes("Call-ID"@),
        ci_same(name, sbytes("CSeq"@)) ==> canonical_spec(name) == sbytes("CSeq"@),
        ci_same(name, sbytes("Contact"@)) ==> canonical_spec(name) == sbytes("Contact"@),
        ci_same(name, sbytes("Max-Forwards"@)) ==> canonical_spec(name) == sbytes("Max-Forwards"@),
        ci_same(name, sbytes("Expires"@)) ==> canonical_spec(name) == sbytes("Expires"@),
        ci_same(name, sbytes("Record-Route"@)) ==> canonical_spec(name) == sbytes("Record-Route"@),
        ci_same(name, sbytes("Route"@)) ==> canonical_spec(name) == sbytes("Route"@),
        ci_same(name, sbytes("Authorization"@)) ==> canonical_spec(name) == sbytes("Authorization"@),
        ci_same(name, sbytes("WWW-Authenticate"@)) ==> canonical_spec(name) == sbytes("WWW-Authenticate"@),
        ci_same(name, sbytes("Proxy-Authorization"@)) ==> canonical_spec(name) == sbytes("Proxy-Authorization"@),
        ci_same(name, sbytes("Proxy-Authenticate"@)) ==> canonical_spec(name) == sbytes("Proxy-Authenticate"@),
        ci_same(name, sbytes("User-Agent"@)) ==> canonical_spec(name) == sbytes("User-Agent"@),
        ci_same(name, sbytes("Server"@)) ==> canonical_spec(name) == sbytes("Server"@),
        ci_same(name, sbytes("Content-Type"@)) ==> canonical_spec(name) == sbytes("Content-Type"@),
        ci_same(name, sbytes("Content-Length"@)) ==> canonical_spec(name) == sbytes("Content-Length"@),
        ci_same(name, sbytes("Content-Encoding"@)) ==> canonical_spec(name) == sbytes("Content-Encoding"@),
        ci_same(name, sbytes("Content-Disposition"@)) ==> canonical_spec(name) == sbytes("Content-Disposition"@),
        ci_same(name, sbytes("Allow"@)) ==> canonical_spec(name) == sbytes("Allow"@),
        ci_same(name, sbytes("Supported"@)) ==> canonical_spec(name) == sbytes("Supported"@),
        ci_same(name, sbytes("Require"@)) ==> canonical_spec(name) == sbytes("Require"@),
        ci_same(name, sbytes("Accept"@)) ==> canonical_spec(name) == sbytes("Accept"@),
        ci_same(name, sbytes("Accept-Encoding"@)) ==> canonical_spec(name) == sbytes("Accept-Encoding"@),
        ci_same(name, sbytes("Accept-Language"@)) ==> canonical_spec(name) == sbytes("Accept-Language"@),
        ci_same(name, sbytes("Subject"@)) ==> canonical_spec(name) == sbytes("Subject"@),
        ci_same(name, sbytes("Event"@)) ==> canonical_spec(name) == sbytes("Event"@),
        ci_same(name, sbytes("Refer-To"@)) ==> canonical_spec(name) == sbytes("Refer-To"@),
        ci_same(name, sbytes("Referred-By"@)) ==> canonical_spec(name) == sbytes("Referred-By"@),
        ci_same(name, sbytes("Session-Expires"@)) ==> canonical_spec(name) == sbytes("Session-Expires"@),
        ci_same(name, sbytes("Min-SE"@)) ==> canonical_spec(name) == sbytes("Min-SE"@),
        ci_same(name, sbytes("Reason"@)) ==> canonical_spec(name) == sbytes("Reason"@),
        ci_same(name, sbytes("Date"@)) ==> canonical_spec(name) == sbytes("Date"@),
        ci_same(name, sbytes("Timestamp"@)) ==> canonical_spec(name) == sbytes("Timestamp"@),
        ci_same(name, sbytes("Warning"@)) ==> canonical_spec(name) == sbytes("Warning"@),
        ci_same(name, sbytes("Organization"@)) ==> canonical_spec(name) == sbytes("Organization"@),
        ci_same(name, sbytes("Priority"@)) ==> canonical_spec(name) == sbytes("Priority"@),
{
    lemma_list_shape();
    if ci_same(name, sbytes("Via"@)) {
        lemma_well_known_at(name, 0);
        lemma_found_at_0();
    }
    if ci_same(name, sbytes("From"@)) {
        lemma_well_known_at(name, 1);
        lemma_found_at_1();
    }
    if ci_same(name, sbytes("To"@)) {
        lemma_well_known_at(name, 2);
        lemma_found_at_2();
    }
    if ci_same(name, sbytes("Call-ID"@)) {
        lemma_well_known_at(name, 3);
        lemma_found_at_3();
    }
    if ci_same(name, sbytes("CSeq"@)) {
        lemma_well_known_at(name, 4);
        lemma_found_at_4();
    }
    if ci_same(name, sbytes("Contact"@)) {
        lemma_well_known_at(name, 5);
        lemma_found_at_5();
    }
    if ci_same(name, sbytes("Max-Forwards"@)) {
        lemma_well_known_at(name, 6);
        lemma_found_at_6();
    }
    if ci_same(name, sbytes("Expires"@)) {
        lemma_well_known_at(name, 7);
        lemma_found_at_7();
    }
    if ci_same(name, sbytes("Record-Route"@)) {
        lemma_well_known_at(name, 8);
        lemma_found_at_8();
    }
    if ci_same(name, sbytes("Route"@)) {
        lemma_well_known_at(name, 9);
        lemma_found_at_9();
    }
    if ci_same(name, sbytes("Authorization"@)) {
        lemma_well_known_at(name, 10);
        lemma_found_at_10();
    }
    if ci_same(name, sbytes("WWW-Authenticate"@)) {
        lemma_well_known_at(name, 11);
        lemma_found_at_11();
    }
    if ci_same(name, sbytes("Proxy-Authorization"@)) {
        lemma_well_known_at(name, 12);
        lemma_found_at_12();
    }
    if ci_same(name, sbytes("Proxy-Authenticate"@)) {
        lemma_well_known_at(name, 13);
        lemma_found_at_13();
    }
    if ci_same(name, sbytes("User-Agent"@)) {
        lemma_well_known_at(name, 14);
        lemma_found_at_14();
    }
    if ci_same(name, sbytes("Server"@)) {
        lemma_well_known_at(name, 15);
        lemma_found_at_15();
    }
    if ci_same(name, sbytes("Content-Type"@)) {
        lemma_well_known_at(name, 16);
        lemma_found_at_16();
    }
    if ci_same(name, sbytes("Content-Length"@)) {
        lemma_well_known_at(name, 17);
        lemma_found_at_17();
    }
    if ci_same(name, sbytes("Content-Encoding"@)) {
        lemma_well_known_at(name, 18);
        lemma_found_at_18();
    }
    if ci_same(name, sbytes("Content-Disposition"@)) {
        lemma_well_known_at(name, 19);
        lemma_found_at_19();
    }
    if ci_same(name, sbytes("Allow"@)) {
        lemma_well_known_at(name, 20);
        lemma_found_at_20();
    }
    if ci_same(name, sbytes("Supported"@)) {
        lemma_well_known_at(name, 21);
        lemma_found_at_21();
    }
    if ci_same(name, sbytes("Require"@)) {
        lemma_well_known_at(name, 22);
        lemma_found_at_22();
    }
    if ci_same(name, sbytes("Accept"@)) {
        lemma_well_known_at(name, 23);
        lemma_found_at_23();
    }
    if ci_same(name, sbytes("Accept-Encoding"@)) {
        lemma_well_known_at(name, 24);
        lemma_found_at_24();
    }
    if ci_same(name, sbytes("Accept-Language"@)) {
        lemma_well_known_at(name, 25);
        lemma_found_at_25();
    }
    if ci_same(name, sbytes("Subject"@)) {
        lemma_well_known_at(name, 26);
        lemma_found_at_26();
    }
    if ci_same(name, sbytes("Event"@)) {
        lemma_well_known_at(name, 27);
        lemma_found_at_27();
    }
    if ci_same(name, sbytes("Refer-To"@)) {
        lemma_well_known_at(name, 28);
        lemma_found_at_28();
    }
    if ci_same(name, sbytes("Referred-By"@)) {
        lemma_well_known_at(name, 29);
        lemma_found_at_29();
    }
    if ci_same(name, sbytes("Session-Expires"@)) {
        lemma_well_known_at(name, 30);
        lemma_found_at_30();
    }
    if ci_same(name, sbytes("Min-SE"@)) {
        lemma_well_known_at(name, 31);
        lemma_found_at_31();
    }
    if ci_same(name, sbytes("Reason"@)) {
        lemma_well_known_at(name, 32);
        lemma_found_at_32();
    }
    if ci_same(name, sbytes("Date"@)) {
        lemma_well_known_at(name, 33);
        lemma_found_at_33();
    }
    if ci_same(name, sbytes("Timestamp"@)) {
        lemma_well_known_at(name, 34);
        lemma_found_at_34();
    }
    if ci_same(name, sbytes("Warning"@)) {
        lemma_well_known_at(name, 35);
        lemma_found_at_35();
    }
    if ci_same(name, sbytes("Organization"@)) {
        lemma_well_known_at(name, 36);
        lemma_found_at_36();
    }
    if ci_same(name, sbytes("Priority"@)) {
        lemma_well_known_at(name, 37);
        lemma_found_at_37();
    }
}

/// Each one-letter compact form, in either case, expands to the header that
/// RFC 3261 §7.3.3 and its extensions assign to it: `i` Call-ID, `m` Contact,
/// `e` Content-Encoding, `l` Content-Length, `c` Content-Type, `f` From,
/// `s` Subject, `k` Supported, `t` To, `v` Via, and so on.
pub proof fn compact_forms_expand_to_their_headers(b: u8)
    ensures
        ascii_lower(b) == 0x69 ==> canonical_spec(seq![b]) == sbytes("Call-ID"@),
        ascii_lower(b) == 0x6d ==> canonical_spec(seq![b]) == sbytes("Contact"@),
        ascii_lower(b) == 0x65 ==> canonical_spec(seq![b]) == sbytes("Content-Encoding"@),
        ascii_lower(b) == 0x6c ==> canonical_spec(seq![b]) == sbytes("Content-Length"@),
        ascii_lower(b) == 0x63 ==> canonical_spec(seq![b]) == sbytes("Content-Type"@),
        ascii_lower(b) == 0x66 ==> canonical_spec(seq![b]) == sbytes("From"@),
        ascii_lower(b) == 0x73 ==> canonical_spec(seq![b]) == sbytes("Subject"@),
        ascii_lower(b) == 0x6b ==> canonical_spec(seq![b]) == sbytes("Supported"@),
        ascii_lower(b) == 0x74 ==> canonical_spec(seq![b]) == sbytes("To"@),
        ascii_lower(b) == 0x76 ==> canonical_spec(seq![b]) == sbytes("Via"@),
        ascii_lower(b) == 0x72 ==> canonical_spec(seq![b]) == sbytes("Refer-To"@),
        ascii_lower(b) == 0x62 ==> canonical_spec(seq![b]) == sbytes("Referred-By"@),
        ascii_lower(b) == 0x6f ==> canonical_spec(seq![b]) == sbytes("Event"@),
        ascii_lower(b) == 0x75 ==> canonical_spec(seq![b]) == sbytes("Allow-Events"@),
        ascii_lower(b) == 0x61 ==> canonical_spec(seq![b]) == sbytes("Accept-Contact"@),
        ascii_lower(b) == 0x6a ==> canonical_spec(seq![b]) == sbytes("Reject-Contact"@),
        ascii_lower(b) == 0x64 ==> canonical_spec(seq![b]) == sbytes("Request-Disposition"@),
        ascii_lower(b) == 0x78 ==> canonical_spec(seq![b]) == sbytes("Session-Expires"@),
        ascii_lower(b) == 0x79 ==> canonical_spec(seq![b]) == sbytes("Identity"@),
        ascii_lower(b) == 0x6e ==> canonical_spec(seq![b]) == sbytes("Identity-Info"@),
{
}

/// A header name's canonical form does not depend on its ASCII case: names
/// that agree ignoring ASCII case have the same canonical form.
pub proof fn canonical_name_ignores_case(a: Seq<u8>, b: Seq<u8>)
    requires
        ci_same(a, b),
    ensures
        canonical_spec(a) == canonical_spec(b),
{
    lemma_canonical_from_ci(a, b, 0);
    if a.len() == 1 {
        assert(ascii_lower(a[0]) == ascii_lower(b[0]));
    }
    let ca = capitalize_dashed_bytes(a);
    let cb = capitalize_dashed_bytes(b);
    assert(ca =~= cb) by {
        assert forall|k: int| 0 <= k < a.len() implies #[trigger] ca[k] == cb[k] by {
            assert(ascii_lower(a[k]) == ascii_lower(b[k]));
            assert(a[k] == 0x2d <==> b[k] == 0x2d);
            if k > 0 {
                assert(ascii_lower(a[k - 1]) == ascii_lower(b[k - 1]));
                assert(a[k - 1] == 0x2d <==> b[k - 1] == 0x2d);
            }
        }
    }
}

/// Canonicalising a header name twice gives what canonicalising it once
/// gives: the canonical spelling of every name is a fixed point of
/// `canonical_of`.
pub proof fn canonical_name_is_fixed_point(name: Seq<u8>)
    ensures
        canonical_spec(canonical_spec(name)) == canonical_spec(name),
{
    let y = canonical_spec(name);
    if is_compact_form(name) {
        lemma_compact_fixed(ascii_lower(name[0]));
    } else {
        match canonical_from(name, 0) {
            Some(c) => {
                lemma_canonical_from_found(name, 0);
                let j = choose|j: int|
                    0 <= j < canonical_list().len() && c == canonical_list()[j] && ci_same(
                        sbytes(canonical_list()[j]),
                        name,
                    );
                assert(y == sbytes(c));
                if y.len() == 1 {
                    assert(ascii_lower(y[0]) == ascii_lower(name[0]));
                }
                lemma_canonical_from_ci(y, name, 0);
            },
            None => {
                assert(y == capitalize_dashed_bytes(name));
                assert(ci_same(y, name)) by {
                    assert forall|k: int| 0 <= k < y.len() implies ascii_lower(#[trigger] y[k])
                        == ascii_lower(name[k]) by {}
                }
                if y.len() == 1 {
                    assert(ascii_lower(y[0]) == ascii_lower(name[0]));
                }
                lemma_canonical_from_ci(y, name, 0);
                assert(capitalize_dashed_bytes(y) =~= y) by {
                    assert forall|k: int| 0 <= k < y.len() implies #[trigger] capitalize_dashed_bytes(
                        y,
                    )[k] == y[k] by {
                        assert(y[k] == 0x2d <==> name[k] == 0x2d);
                        if k > 0 {
                            assert(y[k - 1] == 0x2d <==> name[k - 1] == 0x2d);
                        }
                    }
                }
            },
        }
    }
}

// ---------------------------------------------------------------------------
// Framing
/// First position at or after `i` where `needle` occurs in `hay`.
pub open spec fn find_seq_from(hay: Seq<u8>, needle: Seq<u8>, i: int) -> Option<int>
    decreases hay.len() - i,
{
    if needle.len() == 0 || i < 0 || i + needle.len() > hay.len() {
        None
    } else if hay.subrange(i, i + needle.len()) == needle {
        Some(i)
    } else {
        find_seq_from(hay, needle, i + 1)
    }
}

pub open spec fn find_seq(hay: Seq<u8>, needle: Seq<u8>) -> Option<int> {
    if needle.len() == 0 || needle.len() > hay.len() {
        None
    } else {
        find_seq_from(hay, needle, 0)
    }
}

pub open spec fn crlfcrlf() -> Seq<u8> {
    seq![CR, LF, CR, LF]
}

pub open spec fn lflf() -> Seq<u8> {
    seq![LF, LF]
}

/// End of the header section (including the final header's line break) and
/// start of the body.
pub open spec fn headers_end_spec(raw: Seq<u8>) -> (int, int) {
    match find_seq(raw, crlfcrlf()) {
        Some(p) => (p + 2, p + 4),
        None => match find_seq(raw, lflf()) {
            Some(p) => (p + 1, p + 2),
            None => (raw.len() as int, raw.len() as int),
        },
    }
}

/// `to` with one trailing CR removed.
pub open spec fn strip_cr(raw: Seq<u8>, from: int, to: int) -> int {
    if to > from && raw[to - 1] == CR {
        to - 1
    } else {
        to
    }
}

/// First SP/HTAB in `[from, to)`.
pub open spec fn find_blank(s: Seq<u8>, from: int, to: int) -> Option<int>
    decreases to - from,
{
    if from >= to {
        None
    } else if s[from] == SP || s[from] == HTAB {
        Some(from)
    } else {
        find_blank(s, from + 1, to)
    }
}

/// The bytes of `[a, b)` when they are UTF-8 text.
pub open spec fn text_field(s: Seq<u8>, a: int, b: int) -> Result<Seq<u8>, ParseError> {
    if valid_utf8(s.subrange(a, b)) {
        Ok(s.subrange(a, b))
    } else {
        Err(ParseError::InvalidUtf8)
    }
}

/// `S`, `I`, `P` in any case, then `/`.
pub open spec fn sip_slash_ci(s: Seq<u8>, a: int, b: int) -> bool {
    b - a >= 4 && ascii_lower(s[a]) == 0x73 && ascii_lower(s[a + 1]) == 0x69 && ascii_lower(
        s[a + 2],
    ) == 0x70 && s[a + 3] == 0x2f
}

/// Exactly `SIP/` at the start.
pub open spec fn sip_slash_exact(v: Seq<u8>) -> bool {
    v.len() >= 4 && v[0] == 0x53 && v[1] == 0x49 && v[2] == 0x50 && v[3] == 0x2f
}

/// The start line in `[a, b)`: three SP/HTAB-separated tokens. A first
/// token starting with `SIP/` (any case) makes a response with a
/// three-digit status; otherwise a request whose version starts with `SIP/`.
#[verifier::opaque]
pub open spec fn start_line_spec(s: Seq<u8>, a: int, b: int) -> Result<StartLineModel, ParseError> {
    let (f, t) = trim_range(s, a, b, false);
    if f == t {
        Err(ParseError::InvalidStartLine)
    } else {
        match find_blank(s, f, t) {
            None => Err(ParseError::InvalidStartLine),
            Some(first_sp) => {
                let p = crate::scan::skip_blank(s, first_sp, t, false);
                let (t2_end, t3) = match find_blank(s, p, t) {
                    Some(i) => (
                        i,
                        trim_range(s, crate::scan::skip_blank(s, i, t, false), t, false),
                    ),
                    None => (t, (t, t)),
                };
                if first_sp == f || t2_end == p {
                    Err(ParseError::InvalidStartLine)
                } else if sip_slash_ci(s, f, first_sp) {
                    match text_field(s, f, first_sp) {
                        Err(e) => Err(e),
                        Ok(version) => match text_field(s, p, t2_end) {
                            Err(e) => Err(e),
                            Ok(status) => if status.len() != 3 || !all_digits(status, 0, 3) {
                                Err(ParseError::InvalidStatusCode)
                            } else {
                                match text_field(s, t3.0, t3.1) {
                                    Err(e) => Err(e),
                                    Ok(reason) => Ok(
                                        StartLineModel::Response {
                                            sip_version: version,
                                            status_code: dec_value(status, 0, 3) as u16,
                                            reason_phrase: reason,
                                        },
                                    ),
                                }
                            },
                        },
                    }
                } else if t3.0 == t3.1 {
                    Err(ParseError::InvalidStartLine)
                } else {
                    match text_field(s, f, first_sp) {
                        Err(e) => Err(e),
                        Ok(method) => match text_field(s, p, t2_end) {
                            Err(e) => Err(e),
                            Ok(uri) => match text_field(s, t3.0, t3.1) {
                                Err(e) => Err(e),
                                Ok(version) => if !sip_slash_exact(version) {
                                    Err(ParseError::InvalidStartLine)
                                } else {
                                    Ok(
                                        StartLineModel::Request {
                                            method: upper_bytes(method),
                                            request_uri: uri,
                                            sip_version: version,
                                        },
                                    )
                                },
                            },
                        },
                    }
                }
            },
        }
    }
}

/// The header being collected, pushed when the next one starts.
pub open spec fn flush(acc: Pairs, cur: Option<(Seq<u8>, Seq<u8>)>) -> Pairs {
    match cur {
        Some(h) => acc.push(h),
        None => acc,
    }
}

/// Header lines from `cursor` to `end`: empty lines skipped, lines starting
/// with SP/HTAB continue the previous header (joined by one SP), other
/// lines split at the first `:` into a canonical name and a value.
#[verifier::opaque]
pub open spec fn header_lines(
    raw: Seq<u8>,
    cursor: int,
    end: int,
    acc: Pairs,
    cur: Option<(Seq<u8>, Seq<u8>)>,
) -> Result<Pairs, ParseError>
    decreases end + 1 - cursor,
{
    if cursor < 0 || cursor >= end || end > raw.len() {
        Ok(flush(acc, cur))
    } else {
        let lf = segment_end(raw, LF, cursor, end);
        proof {
            lemma_segment_end(raw, LF, cursor, end);
        }
        let line_end = strip_cr(raw, cursor, lf);
        let next = lf + 1;
        if line_end == cursor {
            header_lines(raw, next, end, acc, cur)
        } else if raw[cursor] == SP || raw[cursor] == HTAB {
            match cur {
                None => Err(ParseError::InvalidStartLine),
                Some((name, value)) => {
                    let (tf, tt) = trim_range(raw, cursor, line_end, false);
                    match text_field(raw, tf, tt) {
                        Err(e) => Err(e),
                        Ok(piece) => {
                            let joined = if value.len() > 0 {
                                value + seq![SP] + piece
                            } else {
                                piece
                            };
                            header_lines(raw, next, end, acc, Some((name, joined)))
                        },
                    }
                },
            }
        } else {
            let acc2 = flush(acc, cur);
            match find_byte(raw, 0x3a, cursor, line_end) {
                None => Err(ParseError::HeaderMissingColon),
                Some(colon) => {
                    let (nf, nt) = trim_range(raw, cursor, colon, false);
                    let (vf, vt) = trim_range(raw, colon + 1, line_end, false);
                    if nf == nt {
                        Err(ParseError::HeaderMissingColon)
                    } else {
                        match text_field(raw, nf, nt) {
                            Err(e) => Err(e),
                            Ok(name) => match text_field(raw, vf, vt) {
                                Err(e) => Err(e),
                                Ok(value) => header_lines(
                                    raw,
                                    next,
                                    end,
                                    acc2,
                                    Some((canonical_spec(name), value)),
                                ),
                            },
                        }
                    }
                },
            }
        }
    }
}

/// Every name in the list is a canonical name.
pub open spec fn names_canonical(p: Pairs) -> bool {
    forall|i: int| 0 <= i < p.len() ==> canonical_spec(#[trigger] p[i].0) == p[i].0
}

pub proof fn lemma_header_lines_canonical(
    raw: Seq<u8>,
    cursor: int,
    end: int,
    acc: Pairs,
    cur: Option<(Seq<u8>, Seq<u8>)>,
)
    requires
        names_canonical(acc),
        cur matches Some(h) ==> canonical_spec(h.0) == h.0,
        header_lines(raw, cursor, end, acc, cur) is Ok,
    ensures
        names_canonical(header_lines(raw, cursor, end, acc, cur)->Ok_0),
    decreases end + 1 - cursor,
{
    reveal(header_lines);
    assert(names_canonical(flush(acc, cur))) by {
        if let Some(h) = cur {
            assert forall|i: int| 0 <= i < acc.push(h).len() implies canonical_spec(
                #[trigger] acc.push(h)[i].0,
            ) == acc.push(h)[i].0 by {
                if i < acc.len() {
                    assert(acc.push(h)[i] == acc[i]);
                }
            }
        }
    }
    if !(cursor < 0 || cursor >= end || end > raw.len()) {
        lemma_segment_end(raw, LF, cursor, end);
        let lf = segment_end(raw, LF, cursor, end);
        let line_end = strip_cr(raw, cursor, lf);
        if line_end == cursor {
            lemma_header_lines_canonical(raw, lf + 1, end, acc, cur);
        } else if raw[cursor] == SP || raw[cursor] == HTAB {
            if let Some((name, value)) = cur {
                let (tf, tt) = trim_range(raw, cursor, line_end, false);
                if let Ok(piece) = text_field(raw, tf, tt) {
                    let joined = if value.len() > 0 {
                        value + seq![SP] + piece
                    } else {
                        piece
                    };
                    lemma_header_lines_canonical(raw, lf + 1, end, acc, Some((name, joined)));
                }
            }
        } else {
            if let Some(colon) = find_byte(raw, 0x3a, cursor, line_end) {
                let (nf, nt) = trim_range(raw, cursor, colon, false);
                let (vf, vt) = trim_range(raw, colon + 1, line_end, false);
                if let Ok(name) = text_field(raw, nf, nt) {
                    if let Ok(value) = text_field(raw, vf, vt) {
                        canonical_name_is_fixed_point(name);
                        lemma_header_lines_canonical(
                            raw,
                            lf + 1,
                            end,
                            flush(acc, cur),
                            Some((canonical_spec(name), value)),
                        );
                    }
                }
            }
        }
    }
}

/// Every header name that a message parse stores is a canonical name:
/// canonicalising it again leaves it unchanged, so `Message::header` with
/// the canonical name finds it whatever spelling it was written in.
pub proof fn parsed_header_names_are_canonical(raw: Seq<u8>, m: MessageModel)
    requires
        message_spec(raw) == Ok::<MessageModel, ParseError>(m),
    ensures
        names_canonical(m.headers),
{
    let (he, bs) = headers_end_spec(raw);
    let first_lf = find_byte(raw, LF, 0, he)->Some_0;
    lemma_header_lines_canonical(raw, first_lf + 1, he, Seq::empty(), None);
}

// ---------------------------------------------------------------------------
// Content-Length
/// Unicode `White_Space`, as `str::trim` uses it.
pub open spec fn is_white_space(c: char) -> bool {
    let u = c as u32;
    (0x09 <= u <= 0x0d) || u == 0x20 || u == 0x85 || u == 0xa0 || u == 0x1680 || (0x2000 <= u
        <= 0x200a) || u == 0x2028 || u == 0x2029 || u == 0x202f || u == 0x205f || u == 0x3000
}

pub open spec fn trim_white_front(s: Seq<char>) -> Seq<char>
    decreases s.len(),
{
    if s.len() > 0 && is_white_space(s[0]) {
        trim_white_front(s.drop_first())
    } else {
        s
    }
}

pub open spec fn trim_white_back(s: Seq<char>) -> Seq<char>
    decreases s.len(),
{
    if s.len() > 0 && is_white_space(s.last()) {
        trim_white_back(s.drop_last())
    } else {
        s
    }
}

/// Leading and trailing white space removed.
pub open spec fn trim_white(s: Seq<char>) -> Seq<char> {
    trim_white_back(trim_white_front(s))
}

/// The std method `str::trim`: the result is the argument with every
/// leading and trailing character of Unicode's `White_Space` property
/// (`is_white_space`) removed.
#[verifier::external_body]
fn std_str_trim(s: &str) -> (r: &str)
    ensures
        r@ == trim_white(s@),
{
    s.trim()
}

pub open spec fn content_length_key() -> Seq<u8> {
    sbytes("Content-Length"@)
}

/// The declared body length: the value trimmed of white space must be a
/// decimal no larger than `MAX_MESSAGE_SIZE`.
pub open spec fn content_length_spec(value: Seq<char>) -> Result<int, ParseError> {
    let t = sbytes(trim_white(value));
    if t.len() == 0 {
        Err(ParseError::BadContentLength)
    } else if t[0] == 0x2d {
        Err(ParseError::NegativeContentLength)
    } else if !all_digits(t, 0, t.len() as int) {
        Err(ParseError::BadContentLength)
    } else if dec_value(t, 0, t.len() as int) > MAX_MESSAGE_SIZE {
        Err(ParseError::OversizeContentLength)
    } else {
        Ok(dec_value(t, 0, t.len() as int))
    }
}

/// `usize`'s `FromStr`: an optional `+`, then at least one digit, the value
/// fitting in `usize`.
pub open spec fn usize_from_str(t: Seq<u8>) -> Option<int> {
    let digits = if t.len() > 0 && t[0] == 0x2b {
        t.drop_first()
    } else {
        t
    };
    if digits.len() > 0 && all_digits(digits, 0, digits.len() as int) && dec_value(
        digits,
        0,
        digits.len() as int,
    ) <= usize::MAX {
        Some(dec_value(digits, 0, digits.len() as int))
    } else {
        None
    }
}

/// The model of a whole message.
pub open spec fn message_spec(raw: Seq<u8>) -> Result<MessageModel, ParseError> {
    if raw.len() == 0 {
        Err(ParseError::EmptyMessage)
    } else if raw.len() > MAX_MESSAGE_SIZE {
        Err(ParseError::MessageTooLarge)
    } else {
        let (he, bs) = headers_end_spec(raw);
        match find_byte(raw, LF, 0, he) {
            None => Err(ParseError::InvalidStartLine),
            Some(first_lf) => match start_line_spec(raw, 0, strip_cr(raw, 0, first_lf)) {
                Err(e) => Err(e),
                Ok(sl) => match header_lines(raw, first_lf + 1, he, Seq::empty(), None) {
                    Err(e) => Err(e),
                    Ok(headers) => {
                        let body = raw.subrange(bs, raw.len() as int);
                        match lookup(headers, content_length_key()) {
                            None => Ok(MessageModel { start_line: sl, headers, body }),
                            Some(v) => match content_length_spec(decode_utf8(v)) {
                                Err(e) => Err(e),
                                Ok(cl) => Ok(
                                    MessageModel {
                                        start_line: sl,
                                        headers,
                                        body: if cl <= body.len() {
                                            body.take(cl)
                                        } else {
                                            body
                                        },
                                    },
                                ),
                            },
                        }
                    },
                },
            },
        }
    }
}

/// The `Content-Length` a message names, read as `usize`'s `FromStr` reads
/// its trimmed value.
pub open spec fn declared_length(m: MessageModel) -> Option<int> {
    match lookup(m.headers, content_length_key()) {
        Some(v) => usize_from_str(sbytes(trim_white(decode_utf8(v)))),
        None => None,
    }
}

/// The body of a parsed message is never longer than the `Content-Length`
/// it names: a named length always reads as a number `n`
/// (`Message::content_length` returns it), and the body is the first `n`
/// bytes after the header block, or all of them when fewer came. Without a
/// `Content-Length` the body is everything after the header block.
pub proof fn body_within_content_length(raw: Seq<u8>, m: MessageModel)
    requires
        message_spec(raw) == Ok::<MessageModel, ParseError>(m),
    ensures
        lookup(m.headers, content_length_key()) is Some ==> declared_length(m) is Some,
        ({
            let rest = raw.subrange(headers_end_spec(raw).1, raw.len() as int);
            m.body == match declared_length(m) {
                Some(n) => if n <= rest.len() {
                    rest.take(n)
                } else {
                    rest
                },
                None => rest,
            }
        }),
{
    if let Some(v) = lookup(m.headers, content_length_key()) {
        let t = sbytes(trim_white(decode_utf8(v)));
        assert(t.len() > 0 && all_digits(t, 0, t.len() as int));
        assert(crate::scan::is_digit(t[0]));
        assert(t[0] != 0x2b);
        assert(dec_value(t, 0, t.len() as int) <= MAX_MESSAGE_SIZE);
        assert(usize_from_str(t) == Some(dec_value(t, 0, t.len() as int)));
    }
}

// ---------------------------------------------------------------------------
// Executable helpers
pub open spec fn start_line_result(r: Result<StartLine, ParseError>) -> Result<
    StartLineModel,
    ParseError,
> {
    match r {
        Ok(sl) => Ok(sl@),
        Err(e) => Err(e),
    }
}

/// `[a, b)` as a string when it is UTF-8 text.
fn text_of(raw: &[u8], a: usize, b: usize) -> (r: Option<String>)
    requires
        a <= b <= raw@.len(),
    ensures
        r is Some <==> text_field(raw@, a as int, b as int) is Ok,
        r matches Some(s) ==> text_field(raw@, a as int, b as int) == Ok::<Seq<u8>, ParseError>(
            sbytes(s@),
        ),
{
    string_from_bytes(copy_range(raw, a, b))
}

/// First position of `needle` in `hay`.
fn find_sequence(hay: &[u8], needle: &[u8]) -> (r: Option<usize>)
    ensures
        crate::scan::opt_int(r) == find_seq(hay@, needle@),
{
    if needle.len() == 0 || needle.len() > hay.len() {
        return None;
    }
    let n = hay.len();
    let limit = n - needle.len();
    let mut i: usize = 0;
    while i <= limit
        invariant
            n == hay@.len(),
            needle@.len() > 0,
            needle@.len() <= hay@.len(),
            limit == hay@.len() - needle@.len(),
            i <= limit + 1,
            find_seq_from(hay@, needle@, 0) == find_seq_from(hay@, needle@, i as int),
        decreases limit + 1 - i,
    {
        let mut k: usize = 0;
        let mut same = true;
        while k < needle.len()
            invariant
                n == hay@.len(),
                i <= limit,
                needle@.len() <= hay@.len(),
                limit == hay@.len() - needle@.len(),
                k <= needle@.len(),
                same == (forall|m: int| 0 <= m < k ==> hay@[i + m] == needle@[m]),
            decreases needle@.len() - k,
        {
            if hay[i + k] != needle[k] {
                same = false;
            }
            k += 1;
        }
        proof {
            if same {
                assert(hay@.subrange(i as int, i + needle@.len()) =~= needle@);
            } else {
                let m = choose|m: int| 0 <= m < needle@.len() && hay@[i + m] != needle@[m];
                assert(hay@.subrange(i as int, i + needle@.len())[m] != needle@[m]);
            }
        }
        if same {
            return Some(i);
        }
        i += 1;
    }
    None
}

fn find_headers_end(raw: &[u8]) -> (r: (usize, usize))
    ensures
        (r.0 as int, r.1 as int) == headers_end_spec(raw@),
        r.0 <= r.1 <= raw@.len(),
{
    let n = raw.len();
    let crlf2: Vec<u8> = vec![CR, LF, CR, LF];
    let lf2: Vec<u8> = vec![LF, LF];
    proof {
        assert(crlf2@ =~= crlfcrlf());
        assert(lf2@ =~= lflf());
    }
    if let Some(p) = find_sequence(raw, crlf2.as_slice()) {
        proof {
            assert(crate::scan::opt_int(Some(p)) == find_seq(raw@, crlfcrlf()));
            lemma_find_seq(raw@, crlfcrlf(), 0);
            assert(p + 4 <= raw@.len());
        }
        return (p + 2, p + 4);
    }
    if let Some(p) = find_sequence(raw, lf2.as_slice()) {
        proof {
            assert(crate::scan::opt_int(Some(p)) == find_seq(raw@, lflf()));
            lemma_find_seq(raw@, lflf(), 0);
            assert(p + 2 <= raw@.len());
        }
        return (p + 1, p + 2);
    }
    (raw.len(), raw.len())
}

pub proof fn lemma_find_seq(hay: Seq<u8>, needle: Seq<u8>, i: int)
    requires
        0 <= i,
    ensures
        find_seq_from(hay, needle, i) matches Some(p) ==> i <= p && p + needle.len() <= hay.len(),
    decreases hay.len() - i,
{
    if needle.len() > 0 && i + needle.len() <= hay.len() {
        lemma_find_seq(hay, needle, i + 1);
    }
}

fn find_blank_in(s: &[u8], from: usize, to: usize) -> (r: Option<usize>)
    requires
        from <= to <= s@.len(),
    ensures
        crate::scan::opt_int(r) == find_blank(s@, from as int, to as int),
        r matches Some(i) ==> from <= i < to,
{
    let mut j = from;
    while j < to
        invariant
            from <= j <= to <= s@.len(),
            find_blank(s@, from as int, to as int) == find_blank(s@, j as int, to as int),
        decreases to - j,
    {
        if s[j] == SP || s[j] == HTAB {
            return Some(j);
        }
        j += 1;
    }
    None
}

fn starts_with_sip_slash(s: &[u8], a: usize, b: usize) -> (r: bool)
    requires
        a <= b <= s@.len(),
    ensures
        r == sip_slash_ci(s@, a as int, b as int),
{
    b - a >= 4 && lower_byte(s[a]) == 0x73 && lower_byte(s[a + 1]) == 0x69 && lower_byte(s[a + 2])
        == 0x70 && s[a + 3] == 0x2f
}

fn lower_byte(b: u8) -> (r: u8)
    ensures
        r == ascii_lower(b),
{
    if 0x41 <= b && b <= 0x5a {
        b + 32
    } else {
        b
    }
}

fn parse_start_line(raw: &[u8], a: usize, b: usize) -> (r: Result<StartLine, ParseError>)
    requires
        a <= b <= raw@.len(),
    ensures
        start_line_result(r) == start_line_spec(raw@, a as int, b as int),
{
    proof {
        reveal(start_line_spec);
        lemma_trim_range(raw@, a as int, b as int, false);
    }
    let (f, t) = trim_sp_tab(raw, a, b);
    if f == t {
        return Err(ParseError::InvalidStartLine);
    }
    let first_sp = match find_blank_in(raw, f, t) {
        Some(i) => i,
        None => return Err(ParseError::InvalidStartLine),
    };
    proof {
        lemma_trim_range(raw@, first_sp as int, t as int, false);
    }
    let p = trim_sp_tab(raw, first_sp, t).0;
    let (t2_end, t3f, t3t) = match find_blank_in(raw, p, t) {
        Some(i) => {
            proof {
                lemma_trim_range(raw@, i as int, t as int, false);
            }
            let q = trim_sp_tab(raw, i, t).0;
            proof {
                lemma_trim_range(raw@, q as int, t as int, false);
            }
            let (x, y) = trim_sp_tab(raw, q, t);
            (i, x, y)
        },
        None => (t, t, t),
    };
    if first_sp == f || t2_end == p {
        return Err(ParseError::InvalidStartLine);
    }
    if starts_with_sip_slash(raw, f, first_sp) {
        let version = match text_of(raw, f, first_sp) {
            Some(v) => v,
            None => return Err(ParseError::InvalidUtf8),
        };
        let status = match text_of(raw, p, t2_end) {
            Some(v) => v,
            None => return Err(ParseError::InvalidUtf8),
        };
        let sb = status.as_str().as_bytes();
        if sb.len() != 3 || !(crate::scan::digits_only(sb, 0, 3)) {
            return Err(ParseError::InvalidStatusCode);
        }
        let code: u16 = (sb[0] - 0x30) as u16 * 100 + (sb[1] - 0x30) as u16 * 10 + (sb[2]
            - 0x30) as u16;
        proof {
            assert(dec_value(sb@, 0, 3) == (sb@[0] - 0x30) * 100 + (sb@[1] - 0x30) * 10 + (sb@[2]
                - 0x30)) by {
                reveal_with_fuel(dec_value, 4);
            }
        }
        let reason = match text_of(raw, t3f, t3t) {
            Some(v) => v,
            None => return Err(ParseError::InvalidUtf8),
        };
        Ok(StartLine::Response { sip_version: version, status_code: code, reason_phrase: reason })
    } else {
        if t3f == t3t {
            return Err(ParseError::InvalidStartLine);
        }
        let method_raw = match text_of(raw, f, first_sp) {
            Some(v) => v,
            None => return Err(ParseError::InvalidUtf8),
        };
        let request_uri = match text_of(raw, p, t2_end) {
            Some(v) => v,
            None => return Err(ParseError::InvalidUtf8),
        };
        let sip_version = match text_of(raw, t3f, t3t) {
            Some(v) => v,
            None => return Err(ParseError::InvalidUtf8),
        };
        let vb = sip_version.as_str().as_bytes();
        if !(vb.len() >= 4 && vb[0] == 0x53 && vb[1] == 0x49 && vb[2] == 0x50 && vb[3] == 0x2f) {
            return Err(ParseError::InvalidStartLine);
        }
        let mb = method_raw.as_str().as_bytes();
        proof {
            lemma_sbytes_valid(method_raw@);
            lemma_case_maps_ascii();
            assert(mb@.subrange(0, mb@.len() as int) =~= mb@);
            lemma_flat_map_valid(mb@, upper_map());
        }
        let method = string_of_valid(upper_range(mb, 0, mb.len()));
        Ok(StartLine::Request { method, request_uri, sip_version })
    }
}

fn compact_full(b: u8) -> (r: Option<&'static str>)
    ensures
        match r {
            Some(s) => compact_name(b) == Some(s@),
            None => compact_name(b) is None,
        },
{
    match b {
        0x69 => Some("Call-ID"),
        0x6d => Some("Contact"),
        0x65 => Some("Content-Encoding"),
        0x6c => Some("Content-Length"),
        0x63 => Some("Content-Type"),
        0x66 => Some("From"),
        0x73 => Some("Subject"),
        0x6b => Some("Supported"),
        0x74 => Some("To"),
        0x76 => Some("Via"),
        0x72 => Some("Refer-To"),
        0x62 => Some("Referred-By"),
        0x6f => Some("Event"),
        0x75 => Some("Allow-Events"),
        0x61 => Some("Accept-Contact"),
        0x6a => Some("Reject-Contact"),
        0x64 => Some("Request-Disposition"),
        0x78 => Some("Session-Expires"),
        0x79 => Some("Identity"),
        0x6e => Some("Identity-Info"),
        _ => None,
    }
}

fn canonical_at(i: usize) -> (r: &'static str)
    requires
        i < 38,
    ensures
        r@ == canonical_list()[i as int],
{
    match i {
        0 => "Via",
        1 => "From",
        2 => "To",
        3 => "Call-ID",
        4 => "CSeq",
        5 => "Contact",
        6 => "Max-Forwards",
        7 => "Expires",
        8 => "Record-Route",
        9 => "Route",
        10 => "Authorization",
        11 => "WWW-Authenticate",
        12 => "Proxy-Authorization",
        13 => "Proxy-Authenticate",
        14 => "User-Agent",
        15 => "Server",
        16 => "Content-Type",
        17 => "Content-Length",
        18 => "Content-Encoding",
        19 => "Content-Disposition",
        20 => "Allow",
        21 => "Supported",
        22 => "Require",
        23 => "Accept",
        24 => "Accept-Encoding",
        25 => "Accept-Language",
        26 => "Subject",
        27 => "Event",
        28 => "Refer-To",
        29 => "Referred-By",
        30 => "Session-Expires",
        31 => "Min-SE",
        32 => "Reason",
        33 => "Date",
        34 => "Timestamp",
        35 => "Warning",
        36 => "Organization",
        _ => "Priority",
    }
}

fn ci_same_exec(a: &[u8], b: &[u8]) -> (r: bool)
    ensures
        r == ci_same(a@, b@),
{
    if a.len() != b.len() {
        return false;
    }
    let mut i: usize = 0;
    while i < a.len()
        invariant
            a@.len() == b@.len(),
            i <= a@.len(),
            forall|k: int| 0 <= k < i ==> ascii_lower(#[trigger] a@[k]) == ascii_lower(b@[k]),
        decreases a@.len() - i,
    {
        if lower_byte(a[i]) != lower_byte(b[i]) {
            return false;
        }
        i += 1;
    }
    true
}

/// Each `-`-separated word capitalised, the rest lowercased.
fn capitalize_dashed(s: &str) -> (r: String)
    ensures
        sbytes(r@) == capitalize_dashed_bytes(sbytes(s@)),
{
    let b = s.as_bytes();
    let mut out: Vec<u8> = Vec::with_capacity(b.len());
    let mut next_upper = true;
    let mut i: usize = 0;
    while i < b.len()
        invariant
            i <= b@.len(),
            out@.len() == i,
            forall|k: int| 0 <= k < i ==> #[trigger] out@[k] == capitalize_dashed_bytes(b@)[k],
            next_upper == (i == 0 || b@[i - 1] == 0x2d),
        decreases b@.len() - i,
    {
        let c = b[i];
        if c == 0x2d {
            out.push(0x2d);
            next_upper = true;
        } else if next_upper {
            out.push(if 0x61 <= c && c <= 0x7a {
                c - 32
            } else {
                c
            });
            next_upper = false;
        } else {
            out.push(lower_byte(c));
        }
        i += 1;
    }
    proof {
        assert(out@ =~= capitalize_dashed_bytes(b@));
        lemma_sbytes_valid(s@);
        crate::text::lemma_same_shape_valid(b@, out@);
    }
    string_of_valid(out)
}

/// The canonical spelling of a header name.
fn canonical_of(name: &str) -> (r: String)
    ensures
        sbytes(r@) == canonical_spec(sbytes(name@)),
{
    let bytes = name.as_bytes();
    if bytes.len() == 1 {
        let b = lower_byte(bytes[0]);
        if let Some(full) = compact_full(b) {
            return full.to_owned();
        }
    }
    let mut i: usize = 0;
    while i < 38
        invariant
            bytes@ == sbytes(name@),
            i <= 38,
            canonical_list().len() == 38,
            bytes@.len() == 1 ==> compact_name(ascii_lower(bytes@[0])) is None,
            canonical_from(bytes@, 0) == canonical_from(bytes@, i as int),
        decreases 38 - i,
    {
        let full = canonical_at(i);
        if ci_same_exec(full.as_bytes(), bytes) {
            return full.to_owned();
        }
        i += 1;
    }
    capitalize_dashed(name)
}

fn parse_digits_capped(b: &[u8]) -> (r: Option<usize>)
    requires
        b@.len() > 0,
        all_digits(b@, 0, b@.len() as int),
    ensures
        match r {
            Some(n) => n as int == dec_value(b@, 0, b@.len() as int) && n <= MAX_MESSAGE_SIZE,
            None => dec_value(b@, 0, b@.len() as int) > MAX_MESSAGE_SIZE,
        },
{
    let mut n: usize = 0;
    let mut i: usize = 0;
    while i < b.len()
        invariant
            i <= b@.len(),
            all_digits(b@, 0, b@.len() as int),
            n as int == dec_value(b@, 0, i as int),
            n <= MAX_MESSAGE_SIZE,
        decreases b@.len() - i,
    {
        n = n * 10 + (b[i] - 0x30) as usize;
        if n > MAX_MESSAGE_SIZE {
            proof {
                crate::scan::lemma_dec_value_mono(b@, 0, i + 1, b@.len() as int);
            }
            return None;
        }
        i += 1;
    }
    Some(n)
}

/// Validate a Content-Length value.
fn parse_content_length(s: &str) -> (r: Result<usize, ParseError>)
    ensures
        match r {
            Ok(n) => content_length_spec(s@) == Ok::<int, ParseError>(n as int),
            Err(e) => content_length_spec(s@) == Err::<int, ParseError>(e),
        },
{
    let t = std_str_trim(s);
    let b = t.as_bytes();
    if b.len() == 0 {
        return Err(ParseError::BadContentLength);
    }
    if b[0] == 0x2d {
        return Err(ParseError::NegativeContentLength);
    }
    if !crate::scan::digits_only(b, 0, b.len()) {
        return Err(ParseError::BadContentLength);
    }
    match parse_digits_capped(b) {
        Some(n) => Ok(n),
        None => Err(ParseError::OversizeContentLength),
    }
}

/// `usize`'s `FromStr` on bytes.
#[verifier::spinoff_prover]
#[verifier::rlimit(30)]
fn parse_usize(t: &[u8]) -> (r: Option<usize>)
    ensures
        crate::scan::opt_int(r) == usize_from_str(t@),
{
    let start: usize = if t.len() > 0 && t[0] == 0x2b {
        1
    } else {
        0
    };
    let ghost digits = if t@.len() > 0 && t@[0] == 0x2b {
        t@.drop_first()
    } else {
        t@
    };
    proof {
        assert(digits =~= t@.subrange(start as int, t@.len() as int));
    }
    if start >= t.len() {
        proof {
            assert(digits.len() == 0);
        }
        return None;
    }
    let mut n: usize = 0;
    let mut i: usize = start;
    while i < t.len()
        invariant
            start <= i <= t@.len(),
            start < t@.len(),
            digits == (if t@.len() > 0 && t@[0] == 0x2b {
                t@.drop_first()
            } else {
                t@
            }),
            digits =~= t@.subrange(start as int, t@.len() as int),
            all_digits(digits, 0, i - start),
            n as int == dec_value(digits, 0, i - start),
        decreases t@.len() - i,
    {
        let c = t[i];
        if !(0x30 <= c && c <= 0x39) {
            proof {
                assert(digits[i - start] == c);
                assert(!crate::scan::is_digit(digits[i - start]));
                assert(!all_digits(digits, 0, digits.len() as int));
            }
            return None;
        }
        proof {
            assert(digits[i - start] == c);
        }
        let m = match n.checked_mul(10) {
            Some(m) => m,
            None => {
                proof {
                    if all_digits(digits, 0, digits.len() as int) {
                        crate::scan::lemma_all_digits_mono(digits, 0, i - start + 1, digits.len() as int);
                    }
                }
                return None;
            },
        };
        n = match m.checked_add((c - 0x30) as usize) {
            Some(v) => v,
            None => {
                proof {
                    if all_digits(digits, 0, digits.len() as int) {
                        crate::scan::lemma_all_digits_mono(digits, 0, i - start + 1, digits.len() as int);
                    }
                }
                return None;
            },
        };
        i += 1;
    }
    proof {
        assert(i - start == digits.len());
    }
    Some(n)
}

pub open spec fn cur_model(name: Option<String>, value: Seq<u8>) -> Option<(Seq<u8>, Seq<u8>)> {
    match name {
        Some(n) => Some((sbytes(n@), value)),
        None => None,
    }
}

/// Header lines of `raw[cursor..end]`.
fn parse_header_lines(raw: &[u8], start: usize, end: usize) -> (r: Result<
    Vec<(String, String)>,
    ParseError,
>)
    requires
        end <= raw@.len(),
        raw@.len() <= MAX_MESSAGE_SIZE,
    ensures
        match r {
            Ok(h) => header_lines(raw@, start as int, end as int, Seq::empty(), None) == Ok::<
                Pairs,
                ParseError,
            >(pairs_view(h@)),
            Err(e) => header_lines(raw@, start as int, end as int, Seq::empty(), None) == Err::<
                Pairs,
                ParseError,
            >(e),
        },
{
    let mut headers: Vec<(String, String)> = Vec::new();
    let mut cur_name: Option<String> = None;
    let mut cur_val: Vec<u8> = Vec::new();
    let mut cursor = start;
    let ghost overall = header_lines(raw@, start as int, end as int, Seq::empty(), None);
    proof {
        assert(pairs_view(headers@) =~= Seq::<(Seq<u8>, Seq<u8>)>::empty());
        lemma_ascii_valid_empty();
    }
    while cursor < end
        invariant
            end <= raw@.len(),
            raw@.len() <= MAX_MESSAGE_SIZE,
            valid_utf8(cur_val@),
            overall == header_lines(raw@, start as int, end as int, Seq::empty(), None),
            overall == header_lines(
                raw@,
                cursor as int,
                end as int,
                pairs_view(headers@),
                cur_model(cur_name, cur_val@),
            ),
        decreases end + 1 - cursor,
    {
        proof {
            reveal(header_lines);
            lemma_segment_end(raw@, LF, cursor as int, end as int);
            lemma_find_byte(raw@, LF, cursor as int, end as int);
        }
        let lf = match find_in(raw, LF, cursor, end) {
            Some(i) => i,
            None => end,
        };
        let line_end = if lf > cursor && raw[lf - 1] == CR {
            lf - 1
        } else {
            lf
        };
        let next = lf + 1;
        if line_end == cursor {
            cursor = next;
            continue;
        }
        if raw[cursor] == SP || raw[cursor] == HTAB {
            if cur_name.is_none() {
                return Err(ParseError::InvalidStartLine);
            }
            proof {
                lemma_trim_range(raw@, cursor as int, line_end as int, false);
            }
            let (tf, tt) = trim_sp_tab(raw, cursor, line_end);
            let piece = match text_of(raw, tf, tt) {
                Some(p) => p,
                None => return Err(ParseError::InvalidUtf8),
            };
            let ghost old_val = cur_val@;
            if cur_val.len() > 0 {
                cur_val.push(SP);
            }
            push_all(&mut cur_val, piece.as_str().as_bytes());
            proof {
                lemma_sbytes_valid(piece@);
                crate::uri::lemma_valid_ascii_seq(seq![SP]);
                if old_val.len() > 0 {
                    assert(cur_val@ =~= old_val + seq![SP] + sbytes(piece@));
                    valid_utf8_concat(old_val, seq![SP]);
                    valid_utf8_concat(old_val + seq![SP], sbytes(piece@));
                } else {
                    assert(cur_val@ =~= sbytes(piece@));
                }
            }
            cursor = next;
            continue;
        }
        let prev = cur_name;
        cur_name = None;
        let ghost acc2 = flush(pairs_view(headers@), cur_model(prev, cur_val@));
        if let Some(n) = prev {
            let ghost old_headers = headers@;
            let ghost old_val = cur_val@;
            let v = string_of_valid(cur_val);
            headers.push((n, v));
            cur_val = Vec::new();
            proof {
                assert(pairs_view(headers@) =~= pairs_view(old_headers).push((sbytes(n@), old_val)));
            }
        }
        proof {
            assert(pairs_view(headers@) == acc2);
        }
        proof {
            lemma_find_byte(raw@, 0x3a, cursor as int, line_end as int);
        }
        let colon = match find_in(raw, 0x3a, cursor, line_end) {
            Some(c) => c,
            None => return Err(ParseError::HeaderMissingColon),
        };
        proof {
            lemma_trim_range(raw@, cursor as int, colon as int, false);
            lemma_trim_range(raw@, colon + 1, line_end as int, false);
        }
        let (nf, nt) = trim_sp_tab(raw, cursor, colon);
        let (vf, vt) = trim_sp_tab(raw, colon + 1, line_end);
        if nf == nt {
            return Err(ParseError::HeaderMissingColon);
        }
        let name = match text_of(raw, nf, nt) {
            Some(x) => x,
            None => return Err(ParseError::InvalidUtf8),
        };
        let value = match text_of(raw, vf, vt) {
            Some(x) => x,
            None => return Err(ParseError::InvalidUtf8),
        };
        cur_name = Some(canonical_of(name.as_str()));
        cur_val = copy_range(raw, vf, vt);
        proof {
            lemma_sbytes_valid(value@);
        }
        cursor = next;
    }
    proof {
        reveal(header_lines);
    }
    if let Some(n) = cur_name {
        let ghost old_headers = headers@;
        let ghost old_val = cur_val@;
        let v = string_of_valid(cur_val);
        headers.push((n, v));
        proof {
            assert(pairs_view(headers@) =~= pairs_view(old_headers).push((sbytes(n@), old_val)));
        }
    }
    Ok(headers)
}

pub proof fn lemma_ascii_valid_empty()
    ensures
        valid_utf8(Seq::<u8>::empty()),
{
}

fn parse_message(raw: &[u8]) -> (r: Result<Message, ParseError>)
    ensures
        message_result(r) == message_spec(raw@),
{
    if raw.len() == 0 {
        return Err(ParseError::EmptyMessage);
    }
    if raw.len() > MAX_MESSAGE_SIZE {
        return Err(ParseError::MessageTooLarge);
    }
    let (headers_end, body_start) = find_headers_end(raw);
    proof {
        lemma_find_byte(raw@, LF, 0, headers_end as int);
    }
    let first_lf = match find_in(raw, LF, 0, headers_end) {
        Some(i) => i,
        None => return Err(ParseError::InvalidStartLine),
    };
    let sl_end = if first_lf > 0 && raw[first_lf - 1] == CR {
        first_lf - 1
    } else {
        first_lf
    };
    let start_line = match parse_start_line(raw, 0, sl_end) {
        Ok(sl) => sl,
        Err(e) => return Err(e),
    };
    let headers = match parse_header_lines(raw, first_lf + 1, headers_end) {
        Ok(h) => h,
        Err(e) => return Err(e),
    };
    let mut body = copy_range(raw, body_start, raw.len());
    match find_header_value(&headers, "Content-Length") {
        Some(raw_cl) => {
            proof {
                vstd::utf8::encode_utf8_decode_utf8(raw_cl@);
            }
            let cl = match parse_content_length(raw_cl) {
                Ok(n) => n,
                Err(e) => return Err(e),
            };
            if cl <= body.len() {
                body.truncate(cl);
                proof {
                    assert(body@ =~= raw@.subrange(body_start as int, raw@.len() as int).take(
                        cl as int,
                    ));
                }
            }
        },
        None => {},
    }
    Ok(Message { start_line, headers, body })
}

/// The value of the first header named `canonical`.
fn find_header_value<'a>(headers: &'a Vec<(String, String)>, canonical: &str) -> (r: Option<
    &'a str,
>)
    ensures
        match r {
            Some(v) => lookup(pairs_view(headers@), sbytes(canonical@)) == Some(sbytes(v@)),
            None => lookup(pairs_view(headers@), sbytes(canonical@)) is None,
        },
{
    let ghost pv = pairs_view(headers@);
    let ghost k = sbytes(canonical@);
    let mut i: usize = 0;
    while i < headers.len()
        invariant
            pv == pairs_view(headers@),
            k == sbytes(canonical@),
            i <= headers@.len(),
            first_key(pv, k, 0) == first_key(pv, k, i as int),
        decreases headers@.len() - i,
    {
        proof {
            lemma_sbytes_injective(headers@[i as int].0@, canonical@);
        }
        if str_eq(headers[i].0.as_str(), canonical) {
            return Some(headers[i].1.as_str());
        }
        i += 1;
    }
    None
}

impl Message {
    pub const MAX_SIZE: usize = 65536;

    /// Parse a complete SIP message.
    pub fn parse(raw: &[u8]) -> (r: Result<Message, ParseError>)
        ensures
            message_result(r) == message_spec(raw@),
    {
        parse_message(raw)
    }

    /// The `Content-Length` header value as a number, when there is one
    /// that reads as one.
    pub fn content_length(&self) -> (r: Option<usize>)
        ensures
            crate::scan::opt_int(r) == declared_length(self@),
    {
        match find_header_value(&self.headers, "Content-Length") {
            Some(v) => {
                proof {
                    vstd::utf8::encode_utf8_decode_utf8(v@);
                }
                let t = std_str_trim(v);
                parse_usize(t.as_bytes())
            },
            None => None,
        }
    }

    /// The value of the first header named `canonical`.
    pub fn header(&self, canonical: &str) -> (r: Option<&str>)
        ensures
            match r {
                Some(v) => lookup(self@.headers, sbytes(canonical@)) == Some(sbytes(v@)),
                None => lookup(self@.headers, sbytes(canonical@)) is None,
            },
    {
        find_header_value(&self.headers, canonical)
    }
}

} // verus!
