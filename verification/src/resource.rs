//! Resolution of resources referenced by the HTML.
//!
//! Only `data:` is accepted: the HTML is untrusted, so any other scheme
//! resolves as absent, and nothing here opens a socket or a file.

use vstd::prelude::*;
use crate::codec::{base64_decode, base64_standard_decode, percent_decode, percent_decoded};
use crate::text::{
    chars_of, copy_range, find_char, find_char_from, lemma_find_char, lemma_scan, lemma_trim_end,
    lower, scan, skip_white, string_from, trim_end, trim_end_at, white,
};

verus! {

/// The text starts with `data:`, in any ASCII case.
pub open spec fn has_data_prefix(s: Seq<char>) -> bool {
    &&& s.len() >= 5
    &&& lower(s[0]) == 'd'
    &&& lower(s[1]) == 'a'
    &&& lower(s[2]) == 't'
    &&& lower(s[3]) == 'a'
    &&& s[4] == ':'
}

/// The word `base64`, in any ASCII case.
pub open spec fn is_base64_word(w: Seq<char>) -> bool {
    &&& w.len() == 6
    &&& lower(w[0]) == 'b'
    &&& lower(w[1]) == 'a'
    &&& lower(w[2]) == 's'
    &&& lower(w[3]) == 'e'
    &&& w[4] == '6'
    &&& w[5] == '4'
}

/// Some `;`-separated segment of `meta`, from the segment that starts at
/// `from` on, is the word `base64`.
pub open spec fn meta_says_base64(meta: Seq<char>, from: int) -> bool
    decreases meta.len() + 1 - from,
{
    if from < 0 || from > meta.len() {
        false
    } else {
        let end = match find_char(meta, ';', from) {
            Some(j) => j,
            None => meta.len() as int,
        };
        proof {
            lemma_find_char(meta, ';', from);
        }
        is_base64_word(meta.subrange(from, end)) || (end < meta.len() && meta_says_base64(
            meta,
            end + 1,
        ))
    }
}

/// The text with Unicode white space trimmed from both ends.
pub open spec fn trimmed(s: Seq<char>) -> Seq<char> {
    let a = scan(s, 0, white());
    s.subrange(a, trim_end_at(s, a, s.len() as int))
}

/// What a `data:` URI decodes to: `None` for any other scheme, for a URI with
/// no `,`, or for a Base64 payload that does not decode. The media type is
/// ignored; a `base64` segment in it selects Base64 (of the trimmed
/// payload), and without one the payload is percent-decoded.
pub open spec fn data_uri_bytes(s: Seq<char>) -> Option<Seq<u8>> {
    if !has_data_prefix(s) {
        None
    } else {
        match find_char(s, ',', 5) {
            None => None,
            Some(k) => {
                let meta = s.subrange(5, k);
                let payload = s.subrange(k + 1, s.len() as int);
                if meta_says_base64(meta, 0) {
                    base64_standard_decode(vstd::utf8::encode_utf8(trimmed(payload)))
                } else {
                    Some(percent_decoded(vstd::utf8::encode_utf8(payload)))
                }
            },
        }
    }
}

/// Where the part after `data:` starts, if the URI has that scheme.
fn strip_data_prefix(uri: &Vec<char>) -> (r: Option<usize>)
    ensures
        r is Some <==> has_data_prefix(uri@),
        r matches Some(n) ==> n == 5,
{
    if uri.len() >= 5 && ascii_lower_is(uri[0], 'd') && ascii_lower_is(uri[1], 'a')
        && ascii_lower_is(uri[2], 't') && ascii_lower_is(uri[3], 'a') && uri[4] == ':' {
        Some(5)
    } else {
        None
    }
}

fn ascii_lower_is(c: char, want: char) -> (r: bool)
    ensures
        r == (lower(c) == want),
{
    crate::text::ascii_lower(c) == want
}

fn is_base64_segment(m: &Vec<char>, from: usize, to: usize) -> (r: bool)
    requires
        from <= to <= m@.len(),
    ensures
        r == is_base64_word(m@.subrange(from as int, to as int)),
{
    to - from == 6 && ascii_lower_is(m[from], 'b') && ascii_lower_is(m[from + 1], 'a')
        && ascii_lower_is(m[from + 2], 's') && ascii_lower_is(m[from + 3], 'e') && m[from + 4]
        == '6' && m[from + 5] == '4'
}

/// `meta.rsplit(';').any(|seg| seg.eq_ignore_ascii_case("base64"))`.
fn says_base64(m: &Vec<char>) -> (r: bool)
    ensures
        r == meta_says_base64(m@, 0),
{
    let mut from: usize = 0;
    loop
        invariant
            from <= m@.len(),
            meta_says_base64(m@, 0) == meta_says_base64(m@, from as int),
        decreases m@.len() - from,
    {
        proof {
            lemma_find_char(m@, ';', from as int);
        }
        let end = match find_char_from(m, ';', from) {
            Some(j) => j,
            None => m.len(),
        };
        if is_base64_segment(m, from, end) {
            return true;
        }
        if end >= m.len() {
            return false;
        }
        from = end + 1;
    }
}

/// Start and end of the text once Unicode white space is trimmed from both
/// ends.
pub fn trim_bounds(v: &Vec<char>) -> (r: (usize, usize))
    ensures
        r.0 == scan(v@, 0, white()),
        r.1 == trim_end_at(v@, r.0 as int, v@.len() as int),
        r.0 <= r.1 <= v@.len(),
{
    let a = skip_white(v, 0);
    proof {
        lemma_scan(v@, 0, white());
    }
    let e = trim_end(v, a, v.len());
    (a, e)
}

/// Decodes the characters of a `data:` URI; see `data_uri_bytes`.
pub fn resolve_chars(s: &Vec<char>) -> (r: Option<Vec<u8>>)
    ensures
        match r {
            Some(b) => data_uri_bytes(s@) == Some(b@),
            None => data_uri_bytes(s@) is None,
        },
{
    if strip_data_prefix(s).is_none() {
        return None;
    }
    proof {
        lemma_find_char(s@, ',', 5);
    }
    let k = match find_char_from(s, ',', 5) {
        None => {
            return None;
        },
        Some(k) => k,
    };
    assert(k < s.len());
    let meta = copy_range(s, 5, k);
    let payload = copy_range(s, k + 1, s.len());
    if says_base64(&meta) {
        let (a, e) = trim_bounds(&payload);
        let text = string_from(&payload, a, e);
        base64_decode(text.as_str().as_bytes())
    } else {
        let text = string_from(&payload, 0, payload.len());
        assert(payload@.subrange(0, payload@.len() as int) =~= payload@);
        Some(percent_decode(text.as_str()))
    }
}

/// Decodes a `data:` URI (Base64 or percent-encoded). Any other scheme, a
/// URI without a `,`, and a Base64 payload that does not decode all give
/// `None`.
pub fn resolve_data_uri(uri: &str) -> (r: Option<Vec<u8>>)
    ensures
        match r {
            Some(b) => data_uri_bytes(uri@) == Some(b@),
            None => data_uri_bytes(uri@) is None,
        },
{
    let s = chars_of(uri);
    resolve_chars(&s)
}

/// Only `data:` resolves: a URI without that scheme never gives bytes.
pub proof fn law_only_data_scheme_resolves(uri: Seq<char>)
    requires
        !has_data_prefix(uri),
    ensures
        data_uri_bytes(uri) is None,
{
}

/// The payload of a `data:` URI is the whole text after the first `,`,
/// commas and all: without a `base64` segment in the media type it is
/// percent-decoded, with one it is the Base64 of the payload's trimmed text.
pub proof fn law_the_payload_is_everything_after_the_first_comma(head: Seq<char>, payload: Seq<char>)
    requires
        has_data_prefix(head),
        !head.contains(','),
    ensures
        !meta_says_base64(head.subrange(5, head.len() as int), 0) ==> data_uri_bytes(
            head + seq![','] + payload,
        ) == Some(percent_decoded(vstd::utf8::encode_utf8(payload))),
        meta_says_base64(head.subrange(5, head.len() as int), 0) ==> data_uri_bytes(
            head + seq![','] + payload,
        ) == base64_standard_decode(vstd::utf8::encode_utf8(trimmed(payload))),
{
    let s = head + seq![','] + payload;
    lemma_find_char(s, ',', 5);
    assert(s[head.len() as int] == ',');
    assert forall|k: int| 5 <= k < head.len() implies s[k] != ',' by {
        assert(s[k] == head[k]);
        if s[k] == ',' {
            assert(head.contains(','));
        }
    }
    assert(find_char(s, ',', 5) == Some(head.len() as int));
    assert(s.subrange(0, 5) =~= head.subrange(0, 5));
    assert(has_data_prefix(s));
    assert(s.subrange(5, head.len() as int) =~= head.subrange(5, head.len() as int));
    assert(s.subrange(head.len() + 1int, s.len() as int) =~= payload);
}

} // verus!
