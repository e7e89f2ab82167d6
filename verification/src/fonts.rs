//! `@font-face` rules declared inside inline `<style>` blocks.
//!
//! The layout engine only loads font faces for stylesheets that arrive through
//! its network layer, so the faces of an inline `<style>` are collected here
//! and handed to the document as fonts. Only `data:` sources are read.

use vstd::prelude::*;
use crate::codec::{woff1_decompress, woff1_unpacked, woff2_decompress, woff2_unpacked};
use crate::resource::{data_uri_bytes, resolve_chars, trim_bounds, trimmed};
use crate::text::{
    chars_of, copy_range, find_char, find_char_from, find_ignoring_case_from, find_lower,
    lemma_find_char, lemma_find_lower, lemma_scan, scan,
};

verus! {

/// `@font-face`, lower case.
pub open spec fn font_face_word() -> Seq<char> {
    seq!['@', 'f', 'o', 'n', 't', '-', 'f', 'a', 'c', 'e']
}

/// `url(`, lower case.
pub open spec fn url_word() -> Seq<char> {
    seq!['u', 'r', 'l', '(']
}

/// A quote character, single or double.
pub open spec fn quote() -> spec_fn(char) -> bool {
    |c: char| c == '"' || c == '\''
}

/// End of `b[from..to]` once trailing characters that satisfy `p` are
/// dropped.
pub open spec fn trim_end_by(b: Seq<char>, from: int, to: int, p: spec_fn(char) -> bool) -> int
    decreases to - from,
{
    if from < to && p(b[to - 1]) {
        trim_end_by(b, from, to - 1, p)
    } else {
        to
    }
}

/// `str::trim_matches`: the text without leading or trailing characters
/// that satisfy `p`.
pub open spec fn trim_by(s: Seq<char>, p: spec_fn(char) -> bool) -> Seq<char> {
    let a = scan(s, 0, p);
    s.subrange(a, trim_end_by(s, a, s.len() as int, p))
}

/// The URI written inside `url(…)`: white space, then quotes, then white
/// space again trimmed from both ends.
pub open spec fn clean_uri(raw: Seq<char>) -> Seq<char> {
    trimmed(trim_by(trimmed(raw), quote()))
}

/// `wOFF`: a WOFF container.
pub open spec fn is_woff1(b: Seq<u8>) -> bool {
    b.len() >= 4 && b[0] == 119u8 && b[1] == 79u8 && b[2] == 70u8 && b[3] == 70u8
}

/// `wOF2`: a WOFF2 container.
pub open spec fn is_woff2(b: Seq<u8>) -> bool {
    b.len() >= 4 && b[0] == 119u8 && b[1] == 79u8 && b[2] == 70u8 && b[3] == 50u8
}

/// The bare sfnt inside a font file: WOFF and WOFF2 are unpacked, anything
/// else passes through for the font parser to accept or reject.
pub open spec fn sfnt_of(b: Seq<u8>) -> Option<Seq<u8>> {
    if is_woff1(b) {
        woff1_unpacked(b)
    } else if is_woff2(b) {
        woff2_unpacked(b)
    } else {
        Some(b)
    }
}

/// The fonts one `url(…)` source yields: its decoded, unpacked bytes, or
/// nothing when it is not a `data:` URI or does not decode.
pub open spec fn font_of_uri(uri: Seq<char>) -> Seq<Seq<u8>> {
    match data_uri_bytes(uri) {
        Some(bytes) => match sfnt_of(bytes) {
            Some(f) => seq![f],
            None => Seq::empty(),
        },
        None => Seq::empty(),
    }
}

/// The fonts of every `url(…)` in a rule block, from position `q` on. A
/// `url(` with no `)` after it ends the scan.
pub open spec fn block_fonts(b: Seq<char>, q: int) -> Seq<Seq<u8>>
    decreases b.len() + 1 - q,
{
    if q < 0 || q > b.len() {
        Seq::empty()
    } else {
        match find_lower(b, url_word(), q) {
            None => Seq::empty(),
            Some(st) => {
                proof {
                    lemma_find_lower(b, url_word(), q);
                    lemma_find_char(b, ')', st + 4);
                }
                match find_char(b, ')', st + 4) {
                    None => Seq::empty(),
                    Some(e) => font_of_uri(clean_uri(b.subrange(st + 4, e))) + block_fonts(
                        b,
                        e + 1,
                    ),
                }
            },
        }
    }
}

/// The fonts of every `@font-face` rule from position `p` on: each rule's
/// first `{ … }` block is scanned for sources, and a rule without a complete
/// block ends the scan.
pub open spec fn faces_from(s: Seq<char>, p: int) -> Seq<Seq<u8>>
    decreases s.len() + 1 - p,
{
    if p < 0 || p > s.len() {
        Seq::empty()
    } else {
        match find_lower(s, font_face_word(), p) {
            None => Seq::empty(),
            Some(st) => {
                proof {
                    lemma_find_lower(s, font_face_word(), p);
                    lemma_find_char(s, '{', st + 10);
                }
                match find_char(s, '{', st + 10) {
                    None => Seq::empty(),
                    Some(o) => {
                        proof {
                            lemma_find_char(s, '}', o);
                        }
                        match find_char(s, '}', o) {
                            None => Seq::empty(),
                            Some(c) => block_fonts(s.subrange(o, c + 1), 0) + faces_from(s, c + 1),
                        }
                    },
                }
            },
        }
    }
}

/// The font payloads found in the document's inline stylesheets.
pub open spec fn inline_faces(html: Seq<char>) -> Seq<Seq<u8>> {
    faces_from(html, 0)
}

/// The bytes of each font, as sequences.
pub open spec fn fonts_view(v: Seq<Vec<u8>>) -> Seq<Seq<u8>> {
    v.map_values(|f: Vec<u8>| f@)
}

/// WOFF and WOFF2 are containers; the text renderer needs the bare sfnt
/// inside. Anything that is already sfnt passes through.
fn decompress(bytes: Vec<u8>) -> (r: Option<Vec<u8>>)
    ensures
        match r {
            Some(f) => sfnt_of(bytes@) == Some(f@),
            None => sfnt_of(bytes@) is None,
        },
{
    if bytes.len() >= 4 && bytes[0] == 119u8 && bytes[1] == 79u8 && bytes[2] == 70u8 {
        if bytes[3] == 70u8 {
            return woff1_decompress(bytes.as_slice());
        }
        if bytes[3] == 50u8 {
            return woff2_decompress(bytes.as_slice());
        }
    }
    Some(bytes)
}

/// Index just past the quotes at the start of `v`.
fn skip_quotes(v: &Vec<char>) -> (r: usize)
    ensures
        r == scan(v@, 0, quote()),
{
    let mut k: usize = 0;
    while k < v.len() && (v[k] == '"' || v[k] == '\'')
        invariant
            k <= v@.len(),
            scan(v@, 0, quote()) == scan(v@, k as int, quote()),
        decreases v.len() - k,
    {
        k = k + 1;
    }
    k
}

/// End of `v[from..]` once trailing quotes are dropped.
fn trim_end_quotes(v: &Vec<char>, from: usize) -> (r: usize)
    requires
        from <= v@.len(),
    ensures
        r == trim_end_by(v@, from as int, v@.len() as int, quote()),
        from <= r <= v@.len(),
{
    let mut e = v.len();
    while from < e && (v[e - 1] == '"' || v[e - 1] == '\'')
        invariant
            from <= e <= v@.len(),
            trim_end_by(v@, from as int, v@.len() as int, quote()) == trim_end_by(
                v@,
                from as int,
                e as int,
                quote(),
            ),
        decreases e - from,
    {
        e = e - 1;
    }
    e
}

/// The text between `url(` and `)`, cleaned of white space and quotes.
fn clean(raw: &Vec<char>) -> (uri: Vec<char>)
    ensures
        uri@ == clean_uri(raw@),
{
    let (a, e) = trim_bounds(raw);
    let t1 = copy_range(raw, a, e);
    let q = skip_quotes(&t1);
    proof {
        lemma_scan(t1@, 0, quote());
    }
    let qe = trim_end_quotes(&t1, q);
    let t2 = copy_range(&t1, q, qe);
    let (b, f) = trim_bounds(&t2);
    copy_range(&t2, b, f)
}

/// Pushes the font of every `url(…)` source in the rule block `b`.
fn collect_block_fonts(b: &Vec<char>, fonts: &mut Vec<Vec<u8>>)
    ensures
        fonts_view(final(fonts)@) == fonts_view(old(fonts)@) + block_fonts(b@, 0),
{
    let url = vec!['u', 'r', 'l', '('];
    assert(url@ =~= url_word());
    let mut q: usize = 0;
    loop
        invariant
            q <= b@.len(),
            url@ == url_word(),
            fonts_view(old(fonts)@) + block_fonts(b@, 0) == fonts_view(fonts@) + block_fonts(
                b@,
                q as int,
            ),
        decreases b@.len() - q,
    {
        proof {
            lemma_find_lower(b@, url_word(), q as int);
        }
        let st = match find_ignoring_case_from(b, &url, q) {
            None => {
                assert(fonts_view(fonts@) + block_fonts(b@, q as int) =~= fonts_view(fonts@));
                return;
            },
            Some(st) => st,
        };
        assert(st + 4 <= b.len());
        proof {
            lemma_find_char(b@, ')', st + 4);
        }
        let e = match find_char_from(b, ')', st + 4) {
            None => {
                assert(fonts_view(fonts@) + block_fonts(b@, q as int) =~= fonts_view(fonts@));
                return;
            },
            Some(e) => e,
        };
        assert(e < b.len());
        let raw = copy_range(b, st + 4, e);
        let uri = clean(&raw);
        let ghost before = fonts@;
        if uri.len() != 0 {
            if let Some(bytes) = resolve_chars(&uri) {
                if let Some(font) = decompress(bytes) {
                    fonts.push(font);
                }
            }
        }
        assert(fonts_view(fonts@) =~= fonts_view(before) + font_of_uri(uri@));
        assert(fonts_view(before) + block_fonts(b@, q as int) =~= fonts_view(fonts@) + block_fonts(
            b@,
            e + 1,
        ));
        q = e + 1;
    }
}

/// Font payloads found in the document's inline stylesheets, decompressed
/// and ready to register: for every `@font-face` rule (name in any ASCII
/// case), every `url(…)` in its first `{ … }` block that is a `data:` URI.
pub fn inline_font_faces(html: &str) -> (fonts: Vec<Vec<u8>>)
    ensures
        fonts_view(fonts@) == inline_faces(html@),
{
    let s = chars_of(html);
    let word = vec!['@', 'f', 'o', 'n', 't', '-', 'f', 'a', 'c', 'e'];
    assert(word@ =~= font_face_word());
    let mut fonts: Vec<Vec<u8>> = Vec::new();
    let mut p: usize = 0;
    loop
        invariant
            p <= s@.len(),
            s@ == html@,
            word@ == font_face_word(),
            inline_faces(s@) == fonts_view(fonts@) + faces_from(s@, p as int),
        decreases s@.len() - p,
    {
        proof {
            lemma_find_lower(s@, font_face_word(), p as int);
        }
        let st = match find_ignoring_case_from(&s, &word, p) {
            None => {
                assert(fonts_view(fonts@) + faces_from(s@, p as int) =~= fonts_view(fonts@));
                return fonts;
            },
            Some(st) => st,
        };
        assert(st + 10 <= s.len());
        proof {
            lemma_find_char(s@, '{', st + 10);
        }
        let open = match find_char_from(&s, '{', st + 10) {
            None => {
                assert(fonts_view(fonts@) + faces_from(s@, p as int) =~= fonts_view(fonts@));
                return fonts;
            },
            Some(o) => o,
        };
        proof {
            lemma_find_char(s@, '}', open as int);
        }
        let close = match find_char_from(&s, '}', open) {
            None => {
                assert(fonts_view(fonts@) + faces_from(s@, p as int) =~= fonts_view(fonts@));
                return fonts;
            },
            Some(c) => c,
        };
        assert(close < s.len());
        let block = copy_range(&s, open, close + 1);
        let ghost before = fonts@;
        collect_block_fonts(&block, &mut fonts);
        assert(fonts_view(before) + faces_from(s@, p as int) =~= fonts_view(fonts@) + faces_from(
            s@,
            close + 1,
        ));
        p = close + 1;
    }
}

/// A font payload is unpacked by the container its magic number names: one
/// that starts with `wOF2` by the WOFF2 unpacker, one that starts with
/// `wOFF` by the WOFF unpacker, and any other passes through unchanged. A
/// `url(…)` source yields exactly what that unpacking gives.
pub proof fn law_the_magic_number_picks_the_unpacker(uri: Seq<char>, b: Seq<u8>)
    ensures
        b.len() >= 4 && b.subrange(0, 4) == seq![119u8, 79u8, 70u8, 50u8] ==> sfnt_of(b)
            == woff2_unpacked(b),
        b.len() >= 4 && b.subrange(0, 4) == seq![119u8, 79u8, 70u8, 70u8] ==> sfnt_of(b)
            == woff1_unpacked(b),
        !(b.len() >= 4 && b.subrange(0, 3) == seq![119u8, 79u8, 70u8] && (b[3] == 50u8 || b[3]
            == 70u8)) ==> sfnt_of(b) == Some(b),
        data_uri_bytes(uri) == Some(b) ==> font_of_uri(uri) == match sfnt_of(b) {
            Some(f) => seq![f],
            None => Seq::<Seq<u8>>::empty(),
        },
{
    if b.len() >= 4 {
        let head = b.subrange(0, 4);
        assert(head[0] == b[0] && head[1] == b[1] && head[2] == b[2] && head[3] == b[3]);
        let three = b.subrange(0, 3);
        assert(three[0] == b[0] && three[1] == b[1] && three[2] == b[2]);
        if b[0] == 119u8 && b[1] == 79u8 && b[2] == 70u8 {
            assert(three =~= seq![119u8, 79u8, 70u8]);
        }
        if b[0] == 119u8 && b[1] == 79u8 && b[2] == 70u8 && b[3] == 50u8 {
            assert(head =~= seq![119u8, 79u8, 70u8, 50u8]);
        }
        if b[0] == 119u8 && b[1] == 79u8 && b[2] == 70u8 && b[3] == 70u8 {
            assert(head =~= seq![119u8, 79u8, 70u8, 70u8]);
        }
    }
}

} // verus!
