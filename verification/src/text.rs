//! UTF-8 facts and the few std conversions the parsers need.
//!
//! Parsing works on the bytes of the input; every field that becomes a
//! `String` is first built as a byte vector. The lemmas here show when such a
//! byte vector is valid UTF-8: a slice cut at character boundaries, a sequence
//! rewritten byte-by-byte where only ASCII bytes change into ASCII bytes, and
//! concatenations of those.
use vstd::prelude::*;
use vstd::string::StringSliceAdditionalSpecFns;
use vstd::utf8::*;

verus! {

broadcast use vstd::seq_lib::group_seq_properties;

/// The bytes of a string value.
pub open spec fn sbytes(s: Seq<char>) -> Seq<u8> {
    encode_utf8(s)
}

/// `i` is a position at which a valid UTF-8 sequence may be cut: the end, or
/// a byte that does not continue a multi-byte character.
pub open spec fn is_cut(s: Seq<u8>, i: int) -> bool {
    0 <= i <= s.len() && (i == s.len() || !is_continuation_byte(s[i]))
}

pub open spec fn all_ascii(s: Seq<u8>) -> bool {
    forall|i: int| 0 <= i < s.len() ==> #[trigger] s[i] < 0x80
}

/// Apply `f` to every byte and concatenate the results.
pub open spec fn flat_map_bytes(s: Seq<u8>, f: spec_fn(u8) -> Seq<u8>) -> Seq<u8>
    decreases s.len(),
{
    if s.len() == 0 {
        Seq::empty()
    } else {
        f(s[0]) + flat_map_bytes(s.drop_first(), f)
    }
}

/// A byte rewriting that keeps non-ASCII bytes and turns ASCII bytes into
/// ASCII text.
pub open spec fn ascii_rewrite(f: spec_fn(u8) -> Seq<u8>) -> bool {
    &&& forall|b: u8| b >= 0x80 ==> #[trigger] f(b) == seq![b]
    &&& forall|b: u8| b < 0x80 ==> all_ascii(#[trigger] f(b))
}

pub proof fn lemma_flat_map_concat(a: Seq<u8>, b: Seq<u8>, f: spec_fn(u8) -> Seq<u8>)
    ensures
        flat_map_bytes(a + b, f) == flat_map_bytes(a, f) + flat_map_bytes(b, f),
    decreases a.len(),
{
    if a.len() == 0 {
        assert(a + b =~= b);
        assert(Seq::<u8>::empty() + flat_map_bytes(b, f) =~= flat_map_bytes(b, f));
    } else {
        assert((a + b).drop_first() =~= a.drop_first() + b);
        assert((a + b)[0] == a[0]);
        lemma_flat_map_concat(a.drop_first(), b, f);
        assert(f(a[0]) + (flat_map_bytes(a.drop_first(), f) + flat_map_bytes(b, f)) =~= (f(a[0])
            + flat_map_bytes(a.drop_first(), f)) + flat_map_bytes(b, f));
    }
}

pub proof fn lemma_flat_map_single(x: u8, f: spec_fn(u8) -> Seq<u8>)
    ensures
        flat_map_bytes(seq![x], f) == f(x),
{
    reveal_with_fuel(flat_map_bytes, 2);
    assert(seq![x].drop_first() =~= Seq::<u8>::empty());
    assert(f(x) + Seq::<u8>::empty() =~= f(x));
}

/// A byte rewriting where every byte becomes at least one byte keeps
/// non-empty input non-empty, and empty input empty.
pub proof fn lemma_flat_map_len_pos(s: Seq<u8>, f: spec_fn(u8) -> Seq<u8>)
    requires
        forall|b: u8| #[trigger] f(b).len() >= 1,
    ensures
        s.len() > 0 <==> flat_map_bytes(s, f).len() > 0,
{
    if s.len() > 0 {
        assert(f(s[0]).len() >= 1);
    }
}

/// Extending a prefix by one byte.
pub proof fn lemma_flat_map_push(s: Seq<u8>, a: int, i: int, f: spec_fn(u8) -> Seq<u8>)
    requires
        0 <= a <= i < s.len(),
    ensures
        flat_map_bytes(s.subrange(a, i + 1), f) == flat_map_bytes(s.subrange(a, i), f) + f(s[i]),
{
    assert(s.subrange(a, i + 1) =~= s.subrange(a, i) + seq![s[i]]);
    lemma_flat_map_concat(s.subrange(a, i), seq![s[i]], f);
    lemma_flat_map_single(s[i], f);
}

pub proof fn lemma_flat_map_identity(s: Seq<u8>, f: spec_fn(u8) -> Seq<u8>)
    requires
        forall|i: int| 0 <= i < s.len() ==> f(#[trigger] s[i]) == seq![s[i]],
    ensures
        flat_map_bytes(s, f) == s,
    decreases s.len(),
{
    if s.len() > 0 {
        assert forall|i: int| 0 <= i < s.drop_first().len() implies f(
            #[trigger] s.drop_first()[i],
        ) == seq![s.drop_first()[i]] by {
            assert(s.drop_first()[i] == s[i + 1]);
        }
        lemma_flat_map_identity(s.drop_first(), f);
        assert(seq![s[0]] + s.drop_first() =~= s);
    }
}

pub proof fn lemma_ascii_valid(s: Seq<u8>)
    requires
        all_ascii(s),
    ensures
        valid_utf8(s),
{
    assert forall|i: int| 0 <= 0 <= i < s.len() <= s.len() implies #[trigger] is_leading_byte_width_1(
        s[i],
    ) by {}
    assert(s.subrange(0, 0) =~= Seq::<u8>::empty());
    assert(partial_valid_utf8(s, 0));
    partial_valid_utf8_extend_ascii_block(s, 0, s.len() as int);
    assert(s.subrange(0, s.len() as int) =~= s);
}

pub proof fn lemma_ascii_concat(a: Seq<u8>, b: Seq<u8>)
    requires
        all_ascii(a),
        all_ascii(b),
    ensures
        all_ascii(a + b),
{
    assert forall|i: int| 0 <= i < (a + b).len() implies #[trigger] (a + b)[i] < 0x80 by {
        if i < a.len() {
            assert((a + b)[i] == a[i]);
        } else {
            assert((a + b)[i] == b[i - a.len()]);
        }
    }
}

proof fn lemma_first_scalar_split(s: Seq<u8>)
    requires
        valid_utf8(s),
        s.len() > 0,
    ensures
        1 <= length_of_first_scalar(s) <= s.len(),
        valid_utf8(s.subrange(0, length_of_first_scalar(s))),
        valid_utf8(s.subrange(length_of_first_scalar(s), s.len() as int)),
        s =~= s.subrange(0, length_of_first_scalar(s)) + s.subrange(
            length_of_first_scalar(s),
            s.len() as int,
        ),
        length_of_first_scalar(s) == 1 <==> s[0] < 0x80,
        forall|k: int| 0 <= k < length_of_first_scalar(s) && length_of_first_scalar(s) > 1 ==> #[trigger] s[k] >= 0x80,
{
    reveal_with_fuel(valid_utf8, 2);
    let w = length_of_first_scalar(s);
    let head = s.subrange(0, w);
    assert(pop_first_scalar(head) =~= Seq::<u8>::empty());
    assert(head[0] == s[0]);
    assert(w >= 2 ==> head[1] == s[1]);
    assert(w >= 3 ==> head[2] == s[2]);
    assert(w >= 4 ==> head[3] == s[3]);
    assert(valid_first_scalar(head));
    assert(valid_utf8(head));
}

/// Rewriting each byte by an ASCII-only rewriting keeps a sequence valid.
pub proof fn lemma_flat_map_valid(s: Seq<u8>, f: spec_fn(u8) -> Seq<u8>)
    requires
        valid_utf8(s),
        ascii_rewrite(f),
    ensures
        valid_utf8(flat_map_bytes(s, f)),
    decreases s.len(),
{
    if s.len() > 0 {
        lemma_first_scalar_split(s);
        let w = length_of_first_scalar(s);
        let head = s.subrange(0, w);
        let tail = s.subrange(w, s.len() as int);
        lemma_flat_map_concat(head, tail, f);
        lemma_flat_map_valid(tail, f);
        if w == 1 {
            assert(head =~= seq![s[0]]);
            lemma_flat_map_single(s[0], f);
            lemma_ascii_valid(f(s[0]));
        } else {
            assert forall|i: int| 0 <= i < head.len() implies f(#[trigger] head[i]) == seq![
                head[i],
            ] by {
                assert(head[i] == s[i]);
            }
            lemma_flat_map_identity(head, f);
        }
        valid_utf8_concat(flat_map_bytes(head, f), flat_map_bytes(tail, f));
    }
}

/// A byte-for-byte rewriting that keeps non-ASCII bytes and turns ASCII
/// bytes into ASCII bytes keeps a sequence valid.
pub proof fn lemma_same_shape_valid(s: Seq<u8>, t: Seq<u8>)
    requires
        valid_utf8(s),
        t.len() == s.len(),
        forall|i: int| 0 <= i < s.len() ==> (s[i] >= 0x80 ==> #[trigger] t[i] == s[i]) && (s[i]
            < 0x80 ==> t[i] < 0x80),
    ensures
        valid_utf8(t),
    decreases s.len(),
{
    if s.len() > 0 {
        lemma_first_scalar_split(s);
        let w = length_of_first_scalar(s);
        let hs = s.subrange(0, w);
        let ts = s.subrange(w, s.len() as int);
        let ht = t.subrange(0, w);
        let tt = t.subrange(w, t.len() as int);
        assert forall|i: int| 0 <= i < ts.len() implies (ts[i] >= 0x80 ==> #[trigger] tt[i]
            == ts[i]) && (ts[i] < 0x80 ==> tt[i] < 0x80) by {
            assert(ts[i] == s[i + w] && tt[i] == t[i + w]);
        }
        lemma_same_shape_valid(ts, tt);
        if w == 1 {
            assert(ht =~= seq![t[0]]);
            lemma_ascii_valid(ht);
        } else {
            assert forall|i: int| 0 <= i < w implies ht[i] == hs[i] by {
                assert(s[i] >= 0x80);
            }
            assert(ht =~= hs);
        }
        valid_utf8_concat(ht, tt);
        assert(t =~= ht + tt);
    }
}

/// A valid sequence cut at two cut positions stays valid.
pub proof fn lemma_cut_slice_valid(s: Seq<u8>, a: int, b: int)
    requires
        valid_utf8(s),
        is_cut(s, a),
        is_cut(s, b),
        a <= b,
    ensures
        valid_utf8(s.subrange(a, b)),
{
    is_char_boundary_start_end_of_seq(s);
    if a < s.len() {
        is_char_boundary_iff_not_is_continuation_byte(s, a);
    }
    valid_utf8_split(s, a);
    let r = s.subrange(a, s.len() as int);
    is_char_boundary_start_end_of_seq(r);
    if b < s.len() {
        assert(r[b - a] == s[b]);
        is_char_boundary_iff_not_is_continuation_byte(r, b - a);
    }
    valid_utf8_split(r, b - a);
    assert(r.subrange(0, b - a) =~= s.subrange(a, b));
}

/// The position after an ASCII byte at a cut is again a cut.
pub proof fn lemma_cut_after_ascii(s: Seq<u8>, i: int)
    requires
        valid_utf8(s),
        is_cut(s, i),
        i < s.len(),
        s[i] < 0x80,
    ensures
        is_cut(s, i + 1),
{
    reveal_with_fuel(valid_utf8, 2);
    if i + 1 < s.len() {
        lemma_cut_slice_valid(s, i, s.len() as int);
        let r = s.subrange(i, s.len() as int);
        assert(r[0] == s[i]);
        assert(length_of_first_scalar(r) == 1);
        let p = pop_first_scalar(r);
        assert(p.len() > 0);
        assert(valid_first_scalar(p));
        assert(p[0] == s[i + 1]);
    }
}


pub proof fn lemma_str_valid(s: &str)
    ensures
        valid_utf8(s.spec_bytes()),
        is_cut(s.spec_bytes(), 0),
        is_cut(s.spec_bytes(), s.spec_bytes().len() as int),
{
    encode_utf8_valid_utf8(s@);
    let b = s.spec_bytes();
    if b.len() > 0 {
        assert(valid_first_scalar(b));
    }
}

pub proof fn lemma_sbytes_valid(s: Seq<char>)
    ensures
        valid_utf8(sbytes(s)),
{
    encode_utf8_valid_utf8(s);
}

/// Equal byte views mean equal strings.
pub proof fn lemma_sbytes_injective(a: Seq<char>, b: Seq<char>)
    ensures
        (sbytes(a) == sbytes(b)) <==> (a == b),
{
    encode_utf8_decode_utf8(a);
    encode_utf8_decode_utf8(b);
}

/// The std conversion `String::from_utf8`: it succeeds exactly on valid
/// UTF-8 and then holds the decoded characters.
#[verifier::external_body]
fn std_string_from_utf8(v: Vec<u8>) -> (r: Option<String>)
    ensures
        r is Some <==> valid_utf8(v@),
        r matches Some(s) ==> s@ == decode_utf8(v@),
{
    String::from_utf8(v).ok()
}

/// Turn bytes into a string, reporting invalid UTF-8 as `None`.
pub fn string_from_bytes(v: Vec<u8>) -> (r: Option<String>)
    ensures
        r is Some <==> valid_utf8(v@),
        r matches Some(s) ==> sbytes(s@) == v@,
{
    let ghost bytes = v@;
    let r = std_string_from_utf8(v);
    proof {
        if r is Some {
            decode_utf8_encode_utf8(bytes);
        }
    }
    r
}

/// Turn bytes already known to be valid UTF-8 into a string.
pub fn string_of_valid(v: Vec<u8>) -> (s: String)
    requires
        valid_utf8(v@),
    ensures
        sbytes(s@) == v@,
{
    match string_from_bytes(v) {
        Some(s) => s,
        None => {
            proof {
                assert(false);
            }
            String::new()
        },
    }
}

/// Copy of a byte range.
pub fn copy_range(src: &[u8], from: usize, to: usize) -> (r: Vec<u8>)
    requires
        from <= to <= src@.len(),
    ensures
        r@ == src@.subrange(from as int, to as int),
{
    let mut out: Vec<u8> = Vec::with_capacity(to - from);
    let mut j = from;
    while j < to
        invariant
            from <= j <= to <= src@.len(),
            out@ == src@.subrange(from as int, j as int),
        decreases to - j,
    {
        out.push(src[j]);
        assert(src@.subrange(from as int, j + 1) =~= src@.subrange(from as int, j as int).push(
            src@[j as int],
        ));
        j += 1;
    }
    out
}

/// Append a byte sequence to a vector.
pub fn push_all(out: &mut Vec<u8>, bytes: &[u8])
    ensures
        final(out)@ == old(out)@ + bytes@,
{
    let mut j: usize = 0;
    while j < bytes.len()
        invariant
            j <= bytes@.len(),
            out@ == old(out)@ + bytes@.subrange(0, j as int),
        decreases bytes@.len() - j,
    {
        out.push(bytes[j]);
        assert(old(out)@ + bytes@.subrange(0, j + 1) =~= old(out)@ + bytes@.subrange(
            0,
            j as int,
        ) + seq![bytes@[j as int]]);
        j += 1;
    }
    assert(bytes@.subrange(0, bytes@.len() as int) =~= bytes@);
}


/// Byte-wise equality of two strings, which is equality of the strings.
pub fn str_eq(a: &str, b: &str) -> (r: bool)
    ensures
        r == (a@ == b@),
{
    let x = a.as_bytes();
    let y = b.as_bytes();
    proof {
        lemma_sbytes_injective(a@, b@);
    }
    if x.len() != y.len() {
        return false;
    }
    let mut i: usize = 0;
    while i < x.len()
        invariant
            x@.len() == y@.len(),
            x@ == sbytes(a@),
            y@ == sbytes(b@),
            i <= x@.len(),
            forall|k: int| 0 <= k < i ==> x@[k] == y@[k],
        decreases x@.len() - i,
    {
        if x[i] != y[i] {
            proof {
                assert(x@[i as int] != y@[i as int]);
                lemma_sbytes_injective(a@, b@);
            }
            return false;
        }
        i += 1;
    }
    assert(x@ =~= y@);
    true
}

} // verus!
