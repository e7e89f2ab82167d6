//! Rewriting `<svg>` written inline in HTML into an `<img>` whose source is a
//! `data:image/svg+xml;base64,…` URI.
//!
//! The layout engine only understands SVG that arrives as a resource; an
//! inline `<svg>` would lay out as an empty box. Turning each
//! `<svg>…</svg>` block into an `<img>` lets the ordinary image path handle
//! it. The rewrite only ever produces `data:`, and the content comes from the
//! HTML itself.

use vstd::prelude::*;
use crate::codec::{base64_encode, base64_standard_encode};
use crate::text::{
    chars_of, copy_range, push_char, push_chars, string_from,
    ascii_lower, is_whitespace, skip_white, find_char, find_char_from, lemma_find_char, lemma_scan, lower, lower_seq, not_white, scan,
    white_space, white,
};

verus! {

/// A character that may follow `<svg` in an opening tag.
pub open spec fn is_tag_delimiter(c: char) -> bool {
    c == '>' || c == '/' || c == ' ' || c == '\t' || c == '\n' || c == '\r'
}

/// An `<svg` opening tag starts at `i` (ASCII case ignored), and not a longer
/// name such as `<svgfoo`.
pub open spec fn opens_svg_at(s: Seq<char>, i: int) -> bool {
    &&& 0 <= i
    &&& i + 4 < s.len()
    &&& s[i] == '<'
    &&& lower(s[i + 1]) == 's'
    &&& lower(s[i + 2]) == 'v'
    &&& lower(s[i + 3]) == 'g'
    &&& is_tag_delimiter(s[i + 4])
}

/// A closing `</svg` starts at `i` (ASCII case ignored).
pub open spec fn closes_svg_at(s: Seq<char>, i: int) -> bool {
    &&& 0 <= i
    &&& i + 5 <= s.len()
    &&& s[i] == '<'
    &&& s[i + 1] == '/'
    &&& lower(s[i + 2]) == 's'
    &&& lower(s[i + 3]) == 'v'
    &&& lower(s[i + 4]) == 'g'
}

/// The first opening `<svg` tag at or after `from`.
pub open spec fn first_svg_open(s: Seq<char>, from: int) -> Option<int>
    decreases s.len() - from,
{
    if from < 0 || from >= s.len() {
        None
    } else if opens_svg_at(s, from) {
        Some(from)
    } else {
        first_svg_open(s, from + 1)
    }
}

pub proof fn lemma_first_svg_open(s: Seq<char>, from: int)
    requires
        0 <= from,
    ensures
        match first_svg_open(s, from) {
            Some(j) => from <= j < s.len() && opens_svg_at(s, j) && forall|k: int|
                from <= k < j ==> !opens_svg_at(s, k),
            None => forall|k: int| from <= k < s.len() ==> !opens_svg_at(s, k),
        },
    decreases s.len() - from,
{
    if 0 <= from < s.len() && !opens_svg_at(s, from) {
        lemma_first_svg_open(s, from + 1);
    }
}

/// Where the `<svg>…</svg>` block that is being scanned ends, scanning from
/// `i` with `depth` levels still open. Nested `<svg>` elements count; a
/// self-closing `<svg … />` opens no level; a tag with no `>` after it leaves
/// the block unterminated.
pub open spec fn block_end_from(s: Seq<char>, i: int, depth: int) -> Option<int>
    decreases s.len() - i,
{
    if i < 0 || i >= s.len() {
        None
    } else if closes_svg_at(s, i) {
        match find_char(s, '>', i) {
            None => None,
            Some(j) => {
                proof {
                    lemma_find_char(s, '>', i);
                }
                let d = if depth > 0 { depth - 1 } else { 0 };
                if d == 0 {
                    Some(j + 1)
                } else {
                    block_end_from(s, j + 1, d)
                }
            },
        }
    } else if opens_svg_at(s, i) {
        match find_char(s, '>', i) {
            None => None,
            Some(j) => {
                proof {
                    lemma_find_char(s, '>', i);
                }
                if s[j - 1] != '/' {
                    block_end_from(s, j + 1, depth + 1)
                } else if depth == 0 {
                    Some(j + 1)
                } else {
                    block_end_from(s, j + 1, depth)
                }
            },
        }
    } else {
        block_end_from(s, i + 1, depth)
    }
}

pub proof fn lemma_block_end_from(s: Seq<char>, i: int, depth: int)
    requires
        0 <= i,
    ensures
        block_end_from(s, i, depth) matches Some(e) ==> i < e <= s.len(),
    decreases s.len() - i,
{
    if 0 <= i < s.len() {
        lemma_find_char(s, '>', i);
        if closes_svg_at(s, i) {
            if let Some(j) = find_char(s, '>', i) {
                let d = if depth > 0 { depth - 1 } else { 0 };
                if d != 0 {
                    lemma_block_end_from(s, j + 1, d);
                }
            }
        } else if opens_svg_at(s, i) {
            if let Some(j) = find_char(s, '>', i) {
                lemma_block_end_from(s, j + 1, depth + 1);
                lemma_block_end_from(s, j + 1, depth);
            }
        } else {
            lemma_block_end_from(s, i + 1, depth);
        }
    }
}

pub proof fn lemma_block_end_after_open(s: Seq<char>, start: int)
    requires
        opens_svg_at(s, start),
    ensures
        svg_block_end(s, start) matches Some(e) ==> start + 4 < e <= s.len(),
{
    lemma_find_char(s, '>', start);
    assert(!closes_svg_at(s, start));
    if let Some(j) = find_char(s, '>', start) {
        assert(s[start + 1] != '>' && s[start + 2] != '>' && s[start + 3] != '>');
        lemma_block_end_from(s, j + 1, 1);
        lemma_block_end_from(s, j + 1, 0);
    }
}

/// End (exclusive) of the `<svg>…</svg>` block that opens at `start`.
pub open spec fn svg_block_end(s: Seq<char>, start: int) -> Option<int> {
    block_end_from(s, start, 0)
}

/// Names of the `<svg>` attributes that still make sense on the `<img>`
/// replacing it; the rest (`viewBox`, `xmlns`, `fill`…) travel inside the
/// data URI.
pub open spec fn is_forwarded_name(n: Seq<char>) -> bool {
    ||| n =~= seq!['i', 'd']
    ||| n =~= seq!['c', 'l', 'a', 's', 's']
    ||| n =~= seq!['s', 't', 'y', 'l', 'e']
    ||| n =~= seq!['w', 'i', 'd', 't', 'h']
    ||| n =~= seq!['h', 'e', 'i', 'g', 'h', 't']
}

/// Separators skipped before an attribute name.
pub open spec fn name_gap() -> spec_fn(char) -> bool {
    |c: char| white_space(c) || c == '/'
}

/// Characters of an attribute name.
pub open spec fn name_char() -> spec_fn(char) -> bool {
    |c: char| !white_space(c) && c != '=' && c != '/'
}

/// Characters of a quoted value closed by `q`.
pub open spec fn not_quote(q: char) -> spec_fn(char) -> bool {
    |c: char| c != q
}

/// The `name="value"` pairs of an opening tag body, read from `i`: single
/// quotes, double quotes and unquoted values, and a bare name with an empty
/// value. Reading stops at the first position where no name starts.
pub open spec fn parse_attributes(b: Seq<char>, i: int) -> Seq<(Seq<char>, Seq<char>)>
    decreases b.len() + 1 - i,
{
    if i < 0 || i >= b.len() {
        Seq::empty()
    } else {
        let i1 = scan(b, i, name_gap());
        let i2 = scan(b, i1, name_char());
        proof {
            lemma_scan(b, i, name_gap());
            lemma_scan(b, i1, name_char());
        }
        if i2 == i1 {
            Seq::empty()
        } else {
            let name = b.subrange(i1, i2);
            let i3 = scan(b, i2, white());
            proof {
                lemma_scan(b, i2, white());
            }
            if i3 >= b.len() || b[i3] != '=' {
                seq![(name, Seq::<char>::empty())] + parse_attributes(b, i3)
            } else {
                let i5 = scan(b, i3 + 1, white());
                proof {
                    lemma_scan(b, i3 + 1, white());
                }
                if i5 < b.len() && (b[i5] == '"' || b[i5] == '\'') {
                    let i7 = scan(b, i5 + 1, not_quote(b[i5]));
                    proof {
                        lemma_scan(b, i5 + 1, not_quote(b[i5]));
                    }
                    seq![(name, b.subrange(i5 + 1, i7))] + parse_attributes(b, i7 + 1)
                } else {
                    let i7 = scan(b, i5, not_white());
                    proof {
                        lemma_scan(b, i5, not_white());
                    }
                    seq![(name, b.subrange(i5, i7))] + parse_attributes(b, i7)
                }
            }
        }
    }
}

/// `value` with every `"` written as `&quot;`.
pub open spec fn escape_quotes(v: Seq<char>) -> Seq<char>
    decreases v.len(),
{
    if v.len() == 0 {
        Seq::empty()
    } else {
        escape_quotes(v.drop_last()) + escaped_char(v.last())
    }
}

/// One character of an escaped value.
pub open spec fn escaped_char(c: char) -> Seq<char> {
    if c == '"' {
        seq!['&', 'q', 'u', 'o', 't', ';']
    } else {
        seq![c]
    }
}

/// The ` name="value"` text the `<img>` gets for one attribute: empty unless
/// the attribute is forwarded.
pub open spec fn forwarded_piece(name: Seq<char>, value: Seq<char>) -> Seq<char> {
    if is_forwarded_name(lower_seq(name)) {
        seq![' '] + name + seq!['=', '"'] + escape_quotes(value) + seq!['"']
    } else {
        Seq::empty()
    }
}

/// The ` name="value"` text the `<img>` gets for each forwarded attribute,
/// in the order they appear on the `<svg>`.
pub open spec fn forwarded_text(attrs: Seq<(Seq<char>, Seq<char>)>) -> Seq<char>
    decreases attrs.len(),
{
    if attrs.len() == 0 {
        Seq::empty()
    } else {
        forwarded_text(attrs.drop_last()) + forwarded_piece(attrs.last().0, attrs.last().1)
    }
}

/// End of the opening tag of a block: its first `>`, or the block's end.
pub open spec fn open_tag_end(s: Seq<char>, start: int, end: int) -> int {
    match find_char(s, '>', start) {
        Some(j) => if j < end { j } else { end },
        None => end,
    }
}

/// The attributes of the block's opening tag.
pub open spec fn block_attributes(s: Seq<char>, start: int, end: int) -> Seq<(Seq<char>, Seq<char>)> {
    parse_attributes(s.subrange(start + 4, open_tag_end(s, start, end)), 0)
}

/// The `<img>` that replaces the block `s[start..end]`.
pub open spec fn img_for_block(s: Seq<char>, start: int, end: int) -> Seq<char> {
    "<img"@ + forwarded_text(block_attributes(s, start, end)) + " src=\"data:image/svg+xml;base64,"@
        + base64_standard_encode(vstd::utf8::encode_utf8(s.subrange(start, end))) + "\" />"@
}

/// The rewrite of `s[p..]`: everything outside complete `<svg>` blocks is
/// copied as it is, and each complete block becomes its `<img>`. From the
/// first `<svg` that has no end, the rest is copied verbatim.
pub open spec fn rewrite_from(s: Seq<char>, p: int) -> Seq<char>
    decreases s.len() - p,
{
    if p < 0 || p > s.len() {
        Seq::empty()
    } else {
        match first_svg_open(s, p) {
            None => s.subrange(p, s.len() as int),
            Some(start) => match svg_block_end(s, start) {
                None => s.subrange(p, s.len() as int),
                Some(end) => {
                    proof {
                        lemma_first_svg_open(s, p);
                        lemma_block_end_from(s, start, 0);
                    }
                    s.subrange(p, start) + img_for_block(s, start, end) + rewrite_from(s, end)
                },
            },
        }
    }
}

/// The whole HTML rewritten.
pub open spec fn svg_rewritten(html: Seq<char>) -> Seq<char> {
    rewrite_from(html, 0)
}

/// Text without an `<svg` opening tag passes through untouched.
pub proof fn law_text_without_svg_is_unchanged(html: Seq<char>)
    requires
        first_svg_open(html, 0) is None,
    ensures
        svg_rewritten(html) == html,
{
    assert(html.subrange(0, html.len() as int) =~= html);
}

/// An `<svg` block that never closes loses no content: the document comes
/// back as it was.
pub proof fn law_unclosed_svg_keeps_the_document(html: Seq<char>)
    requires
        first_svg_open(html, 0) matches Some(start) && svg_block_end(html, start) is None,
    ensures
        svg_rewritten(html) == html,
{
    assert(html.subrange(0, html.len() as int) =~= html);
}

/// Everything before the first closed `<svg` block is kept as it was, and
/// the block itself becomes one `<img>`.
pub proof fn law_text_before_the_first_svg_is_kept(html: Seq<char>, start: int, end: int)
    requires
        first_svg_open(html, 0) == Some(start),
        svg_block_end(html, start) == Some(end),
    ensures
        svg_rewritten(html) == html.subrange(0, start) + img_for_block(html, start, end) + rewrite_from(
            html,
            end,
        ),
        svg_rewritten(html).subrange(0, start) == html.subrange(0, start),
{
    lemma_first_svg_open(html, 0);
    lemma_block_end_from(html, start, 0);
    let out = svg_rewritten(html);
    assert(out.subrange(0, start) =~= html.subrange(0, start));
}

/// `true` if an `<svg` opening tag starts at `i`.
fn opens_svg(s: &Vec<char>, i: usize) -> (r: bool)
    ensures
        r == opens_svg_at(s@, i as int),
{
    if i >= s.len() || s.len() - i < 5 {
        return false;
    }
    let c = s[i + 4];
    s[i] == '<' && ascii_lower(s[i + 1]) == 's' && ascii_lower(s[i + 2]) == 'v' && ascii_lower(
        s[i + 3],
    ) == 'g' && (c == '>' || c == '/' || c == ' ' || c == '\t' || c == '\n' || c == '\r')
}

/// `true` if a closing `</svg` starts at `i`.
fn closes_svg(s: &Vec<char>, i: usize) -> (r: bool)
    ensures
        r == closes_svg_at(s@, i as int),
{
    if i >= s.len() || s.len() - i < 5 {
        return false;
    }
    s[i] == '<' && s[i + 1] == '/' && ascii_lower(s[i + 2]) == 's' && ascii_lower(s[i + 3]) == 'v'
        && ascii_lower(s[i + 4]) == 'g'
}

/// Index of the next `<svg` that opens a real element at or after `from`.
fn find_svg_open(s: &Vec<char>, from: usize) -> (r: Option<usize>)
    ensures
        match r {
            Some(j) => first_svg_open(s@, from as int) == Some(j as int),
            None => first_svg_open(s@, from as int) is None,
        },
{
    let mut i = from;
    while i < s.len()
        invariant
            from <= i,
            first_svg_open(s@, from as int) == first_svg_open(s@, i as int),
        decreases s.len() - i,
    {
        if opens_svg(s, i) {
            return Some(i);
        }
        i = i + 1;
    }
    None
}

/// Length of the `<svg>…</svg>` block that opens at `start`, counting
/// nesting.
fn svg_block_len(s: &Vec<char>, start: usize) -> (r: Option<usize>)
    ensures
        match r {
            Some(n) => svg_block_end(s@, start as int) == Some(start + n),
            None => svg_block_end(s@, start as int) is None,
        },
{
    let mut depth: usize = 0;
    let mut i = start;
    while i < s.len()
        invariant
            start <= i,
            depth <= i,
            svg_block_end(s@, start as int) == block_end_from(s@, i as int, depth as int),
        decreases s.len() - i,
    {
        if closes_svg(s, i) {
            proof {
                lemma_find_char(s@, '>', i as int);
            }
            match find_char_from(s, '>', i) {
                None => {
                    return None;
                },
                Some(j) => {
                    let end = j + 1;
                    depth = if depth > 0 {
                        depth - 1
                    } else {
                        0
                    };
                    if depth == 0 {
                        return Some(end - start);
                    }
                    i = end;
                },
            }
        } else if opens_svg(s, i) {
            proof {
                lemma_find_char(s@, '>', i as int);
            }
            match find_char_from(s, '>', i) {
                None => {
                    return None;
                },
                Some(j) => {
                    let end = j + 1;
                    if s[j - 1] != '/' {
                        depth = depth + 1;
                    } else if depth == 0 {
                        return Some(end - start);
                    }
                    i = end;
                },
            }
        } else {
            i = i + 1;
        }
    }
    None
}

/// The view of parsed attribute pairs.
pub open spec fn pairs_view(v: Seq<(Vec<char>, Vec<char>)>) -> Seq<(Seq<char>, Seq<char>)> {
    v.map_values(|p: (Vec<char>, Vec<char>)| (p.0@, p.1@))
}

fn scan_gap(b: &Vec<char>, i: usize) -> (r: usize)
    requires
        i <= b@.len(),
    ensures
        r == scan(b@, i as int, name_gap()),
{
    let mut k = i;
    while k < b.len() && (is_whitespace(b[k]) || b[k] == '/')
        invariant
            i <= k <= b@.len(),
            scan(b@, i as int, name_gap()) == scan(b@, k as int, name_gap()),
        decreases b.len() - k,
    {
        k = k + 1;
    }
    k
}

fn scan_name(b: &Vec<char>, i: usize) -> (r: usize)
    requires
        i <= b@.len(),
    ensures
        r == scan(b@, i as int, name_char()),
{
    let mut k = i;
    while k < b.len() && !is_whitespace(b[k]) && b[k] != '=' && b[k] != '/'
        invariant
            i <= k <= b@.len(),
            scan(b@, i as int, name_char()) == scan(b@, k as int, name_char()),
        decreases b.len() - k,
    {
        k = k + 1;
    }
    k
}

fn scan_quoted(b: &Vec<char>, i: usize, q: char) -> (r: usize)
    requires
        i <= b@.len(),
    ensures
        r == scan(b@, i as int, not_quote(q)),
{
    let mut k = i;
    while k < b.len() && b[k] != q
        invariant
            i <= k <= b@.len(),
            scan(b@, i as int, not_quote(q)) == scan(b@, k as int, not_quote(q)),
        decreases b.len() - k,
    {
        k = k + 1;
    }
    k
}

fn scan_unquoted(b: &Vec<char>, i: usize) -> (r: usize)
    requires
        i <= b@.len(),
    ensures
        r == scan(b@, i as int, not_white()),
{
    let mut k = i;
    while k < b.len() && !is_whitespace(b[k])
        invariant
            i <= k <= b@.len(),
            scan(b@, i as int, not_white()) == scan(b@, k as int, not_white()),
        decreases b.len() - k,
    {
        k = k + 1;
    }
    k
}

/// `name="value"` pairs read from the body of an opening tag.
fn parse_tag_body(b: &Vec<char>) -> (pairs: Vec<(Vec<char>, Vec<char>)>)
    ensures
        pairs_view(pairs@) == parse_attributes(b@, 0),
{
    let mut pairs: Vec<(Vec<char>, Vec<char>)> = Vec::new();
    let mut i: usize = 0;
    loop
        invariant
            i <= b@.len(),
            parse_attributes(b@, 0) == pairs_view(pairs@) + parse_attributes(b@, i as int),
        decreases b@.len() - i,
    {
        let ghost g = i as int;
        if i >= b.len() {
            assert(pairs_view(pairs@) + parse_attributes(b@, g) =~= pairs_view(pairs@));
            return pairs;
        }
        let i1 = scan_gap(b, i);
        proof {
            lemma_scan(b@, g, name_gap());
        }
        let i2 = scan_name(b, i1);
        proof {
            lemma_scan(b@, i1 as int, name_char());
        }
        if i2 == i1 {
            assert(pairs_view(pairs@) + parse_attributes(b@, g) =~= pairs_view(pairs@));
            return pairs;
        }
        let name = copy_range(b, i1, i2);
        let i3 = skip_white(b, i2);
        proof {
            lemma_scan(b@, i2 as int, white());
        }
        let ghost before = pairs@;
        if i3 >= b.len() || b[i3] != '=' {
            pairs.push((name, Vec::new()));
            assert(pairs_view(pairs@) =~= pairs_view(before) + seq![(b@.subrange(i1 as int, i2 as int), Seq::<char>::empty())]);
            assert(pairs_view(before) + parse_attributes(b@, g) =~= pairs_view(pairs@) + parse_attributes(b@, i3 as int));
            i = i3;
        } else {
            let i5 = skip_white(b, i3 + 1);
            proof {
                lemma_scan(b@, i3 + 1, white());
            }
            if i5 < b.len() && (b[i5] == '"' || b[i5] == '\'') {
                let q = b[i5];
                let i7 = scan_quoted(b, i5 + 1, q);
                proof {
                    lemma_scan(b@, i5 + 1, not_quote(q));
                }
                let value = copy_range(b, i5 + 1, i7);
                pairs.push((name, value));
                assert(pairs_view(pairs@) =~= pairs_view(before) + seq![(b@.subrange(i1 as int, i2 as int), b@.subrange(i5 + 1, i7 as int))]);
                if i7 < b.len() {
                    assert(pairs_view(before) + parse_attributes(b@, g) =~= pairs_view(pairs@) + parse_attributes(b@, i7 + 1));
                    i = i7 + 1;
                } else {
                    assert(parse_attributes(b@, i7 + 1) =~= parse_attributes(b@, i7 as int));
                    assert(pairs_view(before) + parse_attributes(b@, g) =~= pairs_view(pairs@) + parse_attributes(b@, i7 as int));
                    i = i7;
                }
            } else {
                let i7 = scan_unquoted(b, i5);
                proof {
                    lemma_scan(b@, i5 as int, not_white());
                }
                let value = copy_range(b, i5, i7);
                pairs.push((name, value));
                assert(pairs_view(pairs@) =~= pairs_view(before) + seq![(b@.subrange(i1 as int, i2 as int), b@.subrange(i5 as int, i7 as int))]);
                assert(pairs_view(before) + parse_attributes(b@, g) =~= pairs_view(pairs@) + parse_attributes(b@, i7 as int));
                i = i7;
            }
        }
    }
}


/// `true` if the attribute name, lower-cased, is one the `<img>` keeps.
fn is_forwarded(name: &Vec<char>) -> (r: bool)
    ensures
        r == is_forwarded_name(lower_seq(name@)),
{
    let mut low: Vec<char> = Vec::new();
    let mut k: usize = 0;
    while k < name.len()
        invariant
            k <= name@.len(),
            low@ == lower_seq(name@.take(k as int)),
        decreases name.len() - k,
    {
        low.push(ascii_lower(name[k]));
        assert(lower_seq(name@.take(k + 1)) =~= lower_seq(name@.take(k as int)).push(lower(name@[k as int])));
        k = k + 1;
    }
    assert(name@.take(name@.len() as int) =~= name@);
    let n = low.len();
    let r = (n == 2 && low[0] == 'i' && low[1] == 'd') || (n == 5 && low[0] == 'c' && low[1] == 'l'
        && low[2] == 'a' && low[3] == 's' && low[4] == 's') || (n == 5 && low[0] == 's' && low[1]
        == 't' && low[2] == 'y' && low[3] == 'l' && low[4] == 'e') || (n == 5 && low[0] == 'w'
        && low[1] == 'i' && low[2] == 'd' && low[3] == 't' && low[4] == 'h') || (n == 6 && low[0]
        == 'h' && low[1] == 'e' && low[2] == 'i' && low[3] == 'g' && low[4] == 'h' && low[5]
        == 't');
    proof {
        let l = low@;
        if l =~= seq!['i', 'd'] {
            assert(l[0] == 'i' && l[1] == 'd');
        }
        if l =~= seq!['c', 'l', 'a', 's', 's'] {
            assert(l[0] == 'c' && l[4] == 's');
        }
        if l =~= seq!['s', 't', 'y', 'l', 'e'] {
            assert(l[0] == 's' && l[4] == 'e');
        }
        if l =~= seq!['w', 'i', 'd', 't', 'h'] {
            assert(l[0] == 'w' && l[4] == 'h');
        }
        if l =~= seq!['h', 'e', 'i', 'g', 'h', 't'] {
            assert(l[0] == 'h' && l[5] == 't');
        }
    }
    r
}

/// Appends `value` with every `"` written as `&quot;`.
fn push_escaped(out: &mut String, value: &Vec<char>)
    ensures
        final(out)@ == old(out)@ + escape_quotes(value@),
{
    let mut k: usize = 0;
    while k < value.len()
        invariant
            k <= value@.len(),
            out@ == old(out)@ + escape_quotes(value@.take(k as int)),
        decreases value.len() - k,
    {
        let c = value[k];
        let ghost prev = out@;
        if c == '"' {
            out.append("&quot;");
            proof {
                reveal_strlit("&quot;");
            }
        } else {
            push_char(out, c);
        }
        assert(value@.take(k + 1).drop_last() =~= value@.take(k as int));
        assert(out@ =~= old(out)@ + escape_quotes(value@.take(k + 1)));
        k = k + 1;
    }
    assert(value@.take(value@.len() as int) =~= value@);
}

/// The attributes of the opening tag of the block `s[start..end]`.
fn tag_attributes(s: &Vec<char>, start: usize, end: usize) -> (pairs: Vec<(Vec<char>, Vec<char>)>)
    requires
        opens_svg_at(s@, start as int),
        start + 4 < end <= s@.len(),
    ensures
        pairs_view(pairs@) == block_attributes(s@, start as int, end as int),
{
    proof {
        lemma_find_char(s@, '>', start as int);
        assert(s@[start + 1] != '>' && s@[start + 2] != '>' && s@[start + 3] != '>');
    }
    let close = match find_char_from(s, '>', start) {
        Some(j) => if j < end {
            j
        } else {
            end
        },
        None => end,
    };
    let body = copy_range(s, start + 4, close);
    parse_tag_body(&body)
}

/// Appends the `<img>` that replaces the block `s[start..end]`.
fn block_to_img(s: &Vec<char>, start: usize, end: usize, out: &mut String)
    requires
        opens_svg_at(s@, start as int),
        start + 4 < end <= s@.len(),
    ensures
        final(out)@ == old(out)@ + img_for_block(s@, start as int, end as int),
{
    out.append("<img");
    let attrs = tag_attributes(s, start, end);
    let ghost head = out@;
    let ghost av = pairs_view(attrs@);
    let mut k: usize = 0;
    while k < attrs.len()
        invariant
            k <= attrs@.len(),
            av == pairs_view(attrs@),
            out@ == head + forwarded_text(av.take(k as int)),
        decreases attrs.len() - k,
    {
        let name = &attrs[k].0;
        let value = &attrs[k].1;
        if is_forwarded(name) {
            push_char(out, ' ');
            push_chars(out, name, 0, name.len());
            out.append("=\"");
            push_escaped(out, value);
            push_char(out, '"');
            proof {
                reveal_strlit("=\"");
                assert(name@.subrange(0, name@.len() as int) =~= name@);
            }
        }
        assert(av.take(k + 1).drop_last() =~= av.take(k as int));
        assert(out@ =~= head + forwarded_text(av.take(k + 1)));
        k = k + 1;
    }
    assert(av.take(av.len() as int) =~= av);
    out.append(" src=\"data:image/svg+xml;base64,");
    let block = string_from(s, start, end);
    let encoded = base64_encode(block.as_str().as_bytes());
    out.append(encoded.as_str());
    out.append("\" />");
    assert(out@ =~= old(out)@ + img_for_block(s@, start as int, end as int));
}

/// Replaces every `<svg>…</svg>` in the HTML with an
/// `<img src="data:image/svg+xml;base64,…">` carrying the block's `id`,
/// `class`, `style`, `width` and `height`. Everything outside complete
/// blocks is copied verbatim; an `<svg` with no end is left as it is.
pub fn inline_svg_to_img(html: &str) -> (out: String)
    ensures
        out@ == svg_rewritten(html@),
{
    let s = chars_of(html);
    let mut out = String::new();
    let mut p: usize = 0;
    loop
        invariant
            p <= s@.len(),
            s@ == html@,
            out@ + rewrite_from(s@, p as int) == rewrite_from(s@, 0),
        decreases s@.len() - p,
    {
        proof {
            lemma_first_svg_open(s@, p as int);
        }
        match find_svg_open(&s, p) {
            None => {
                let ghost before = out@;
                push_chars(&mut out, &s, p, s.len());
                assert(out@ =~= before + rewrite_from(s@, p as int));
                return out;
            },
            Some(start) => {
                proof {
                    lemma_block_end_from(s@, start as int, 0);
                    lemma_block_end_after_open(s@, start as int);
                }
                match svg_block_len(&s, start) {
                    None => {
                        let ghost before = out@;
                        push_chars(&mut out, &s, p, s.len());
                        assert(out@ =~= before + rewrite_from(s@, p as int));
                        return out;
                    },
                    Some(n) => {
                        let ghost before = out@;
                        assert(opens_svg_at(s@, start as int));
                        assert(start + n <= s.len());
                        let end = start + n;
                        push_chars(&mut out, &s, p, start);
                        block_to_img(&s, start, end, &mut out);
                        assert(before + rewrite_from(s@, p as int) =~= out@ + rewrite_from(s@, end as int));
                        p = end;
                    },
                }
            },
        }
    }
}

/// The same rewrite as `inline_svg_to_img`, under the name the rendering
/// entry point has always called.
pub fn reescrever_svg_inline(html: &str) -> (saida: String)
    ensures
        saida@ == svg_rewritten(html@),
{
    inline_svg_to_img(html)
}

} // verus!
