//! Character-level helpers shared by the HTML and CSS scanners.

use vstd::prelude::*;

verus! {

/// ASCII lower-casing of one character; anything else is returned unchanged.
pub open spec fn lower(c: char) -> char {
    if 'A' <= c && c <= 'Z' {
        ((c as u32) + 32) as char
    } else {
        c
    }
}

/// ASCII lower-casing of a whole sequence, one character for one character.
pub open spec fn lower_seq(s: Seq<char>) -> Seq<char> {
    s.map_values(|c: char| lower(c))
}

/// `char::to_ascii_lowercase`.
pub fn ascii_lower(c: char) -> (r: char)
    ensures
        r == lower(c),
{
    if 'A' <= c && c <= 'Z' {
        let b: u8 = c as u8;
        (b + 32) as char
    } else {
        c
    }
}

/// The characters of a string slice, in order.
pub fn chars_of(s: &str) -> (v: Vec<char>)
    ensures
        v@ == s@,
{
    let mut v: Vec<char> = Vec::new();
    for c in it: s.chars()
        invariant
            v@ == it.seq().take(it.index()),
    {
        v.push(c);
    }
    v
}


/// The Unicode `White_Space` property (`PropList.txt`): tab, line feed,
/// vertical tab, form feed, carriage return, space, next line, no-break
/// space, ogham space mark, the spaces U+2000 to U+200A, line and paragraph
/// separator, narrow no-break space, medium mathematical space and
/// ideographic space.
pub open spec fn white_space(c: char) -> bool {
    let u = c as u32;
    ||| 0x9 <= u <= 0xD
    ||| u == 0x20
    ||| u == 0x85
    ||| u == 0xA0
    ||| u == 0x1680
    ||| 0x2000 <= u <= 0x200A
    ||| u == 0x2028
    ||| u == 0x2029
    ||| u == 0x202F
    ||| u == 0x205F
    ||| u == 0x3000
}

/// Whether the character has the Unicode `White_Space` property, as
/// `char::is_whitespace` answers it.
pub fn is_whitespace(c: char) -> (r: bool)
    ensures
        r == white_space(c),
{
    let u = c as u32;
    (0x9 <= u && u <= 0xD) || u == 0x20 || u == 0x85 || u == 0xA0 || u == 0x1680 || (0x2000 <= u && u
        <= 0x200A) || u == 0x2028 || u == 0x2029 || u == 0x202F || u == 0x205F || u == 0x3000
}

/// `String::push`: appends one character.
#[verifier::external_body]
pub(crate) fn push_char(s: &mut String, c: char)
    ensures
        final(s)@ == old(s)@.push(c),
{
    s.push(c);
}

/// Appends a run of characters to a string.
pub fn push_chars(out: &mut String, v: &Vec<char>, from: usize, to: usize)
    requires
        from <= to <= v@.len(),
    ensures
        final(out)@ == old(out)@ + v@.subrange(from as int, to as int),
{
    let mut i = from;
    while i < to
        invariant
            from <= i <= to <= v@.len(),
            out@ == old(out)@ + v@.subrange(from as int, i as int),
        decreases to - i,
    {
        push_char(out, v[i]);
        assert(v@.subrange(from as int, i + 1) =~= v@.subrange(from as int, i as int).push(v@[i as int]));
        i = i + 1;
    }
}

/// A string holding exactly the given characters.
pub fn string_from(v: &Vec<char>, from: usize, to: usize) -> (s: String)
    requires
        from <= to <= v@.len(),
    ensures
        s@ == v@.subrange(from as int, to as int),
{
    let mut s = String::new();
    push_chars(&mut s, v, from, to);
    assert(Seq::<char>::empty() + v@.subrange(from as int, to as int) =~= v@.subrange(from as int, to as int));
    s
}


/// The first position at or after `from` holding `c`.
pub open spec fn find_char(s: Seq<char>, c: char, from: int) -> Option<int>
    decreases s.len() - from,
{
    if from < 0 || from >= s.len() {
        None
    } else if s[from] == c {
        Some(from)
    } else {
        find_char(s, c, from + 1)
    }
}

pub proof fn lemma_find_char(s: Seq<char>, c: char, from: int)
    requires
        0 <= from,
    ensures
        match find_char(s, c, from) {
            Some(j) => from <= j < s.len() && s[j] == c && forall|k: int|
                from <= k < j ==> s[k] != c,
            None => forall|k: int| from <= k < s.len() ==> s[k] != c,
        },
    decreases s.len() - from,
{
    if from < s.len() && s[from] != c {
        lemma_find_char(s, c, from + 1);
    }
}

/// `str::find` of one character, from a starting position.
pub fn find_char_from(s: &Vec<char>, c: char, from: usize) -> (r: Option<usize>)
    ensures
        match r {
            Some(j) => find_char(s@, c, from as int) == Some(j as int),
            None => find_char(s@, c, from as int) is None,
        },
{
    let mut i = from;
    while i < s.len()
        invariant
            from <= i,
            find_char(s@, c, from as int) == find_char(s@, c, i as int),
        decreases s.len() - i,
    {
        if s[i] == c {
            return Some(i);
        }
        i = i + 1;
    }
    None
}

/// The first position at or after `i` whose character `keep` refuses, or
/// the end of the text.
pub open spec fn scan(b: Seq<char>, i: int, keep: spec_fn(char) -> bool) -> int
    decreases b.len() - i,
{
    if 0 <= i < b.len() && keep(b[i]) {
        scan(b, i + 1, keep)
    } else {
        i
    }
}

pub proof fn lemma_scan(b: Seq<char>, i: int, keep: spec_fn(char) -> bool)
    requires
        0 <= i,
    ensures
        i <= scan(b, i, keep),
        i <= b.len() ==> scan(b, i, keep) <= b.len(),
        forall|k: int| i <= k < scan(b, i, keep) ==> keep(b[k]),
        scan(b, i, keep) < b.len() ==> !keep(b[scan(b, i, keep)]),
    decreases b.len() - i,
{
    if 0 <= i < b.len() && keep(b[i]) {
        lemma_scan(b, i + 1, keep);
    }
}

/// Unicode white space, as a predicate value.
pub open spec fn white() -> spec_fn(char) -> bool {
    |c: char| white_space(c)
}

/// Anything but Unicode white space, as a predicate value.
pub open spec fn not_white() -> spec_fn(char) -> bool {
    |c: char| !white_space(c)
}

/// Skips white space from `i` (`str::trim_start` as a position).
pub fn skip_white(b: &Vec<char>, i: usize) -> (r: usize)
    requires
        i <= b@.len(),
    ensures
        r == scan(b@, i as int, white()),
{
    let mut k = i;
    while k < b.len() && is_whitespace(b[k])
        invariant
            i <= k <= b@.len(),
            scan(b@, i as int, white()) == scan(b@, k as int, white()),
        decreases b.len() - k,
    {
        k = k + 1;
    }
    k
}

/// End of the text once trailing white space (down to `from`) is dropped.
pub open spec fn trim_end_at(b: Seq<char>, from: int, to: int) -> int
    decreases to - from,
{
    if from < to && white_space(b[to - 1]) {
        trim_end_at(b, from, to - 1)
    } else {
        to
    }
}

pub proof fn lemma_trim_end(b: Seq<char>, from: int, to: int)
    requires
        from <= to,
    ensures
        from <= trim_end_at(b, from, to) <= to,
    decreases to - from,
{
    if from < to && white_space(b[to - 1]) {
        lemma_trim_end(b, from, to - 1);
    }
}

/// `str::trim_end` on the range `[from, to)`, as the new end.
pub fn trim_end(b: &Vec<char>, from: usize, to: usize) -> (r: usize)
    requires
        from <= to <= b@.len(),
    ensures
        r == trim_end_at(b@, from as int, to as int),
        from <= r <= to,
{
    proof {
        lemma_trim_end(b@, from as int, to as int);
    }
    let mut e = to;
    while from < e && is_whitespace(b[e - 1])
        invariant
            from <= e <= to,
            to <= b@.len(),
            trim_end_at(b@, from as int, to as int) == trim_end_at(b@, from as int, e as int),
        decreases e - from,
    {
        e = e - 1;
    }
    e
}

/// Whether `b[at..]` starts with `word` once both are ASCII lower-cased
/// (`word` is already lower case).
pub open spec fn matches_lower_at(b: Seq<char>, at: int, word: Seq<char>) -> bool {
    0 <= at && at + word.len() <= b.len() && forall|k: int|
        0 <= k < word.len() ==> lower(b[at + k]) == word[k]
}

/// Executable form of `matches_lower_at`.
pub fn starts_with_lower(b: &Vec<char>, at: usize, word: &Vec<char>) -> (r: bool)
    ensures
        r == matches_lower_at(b@, at as int, word@),
{
    if at > b.len() || word.len() > b.len() - at {
        return false;
    }
    let mut k: usize = 0;
    while k < word.len()
        invariant
            at + word.len() <= b.len(),
            k <= word@.len(),
            forall|m: int| 0 <= m < k ==> lower(b@[at + m]) == word@[m],
        decreases word.len() - k,
    {
        if ascii_lower(b[at + k]) != word[k] {
            return false;
        }
        k = k + 1;
    }
    true
}

/// The first position at or after `from` where `word` starts, ignoring
/// ASCII case in the text.
pub open spec fn find_lower(b: Seq<char>, word: Seq<char>, from: int) -> Option<int>
    decreases b.len() - from,
{
    if from < 0 || from >= b.len() {
        None
    } else if matches_lower_at(b, from, word) {
        Some(from)
    } else {
        find_lower(b, word, from + 1)
    }
}

pub proof fn lemma_find_lower(b: Seq<char>, word: Seq<char>, from: int)
    requires
        0 <= from,
    ensures
        match find_lower(b, word, from) {
            Some(j) => from <= j < b.len() && matches_lower_at(b, j, word),
            None => true,
        },
    decreases b.len() - from,
{
    if 0 <= from < b.len() && !matches_lower_at(b, from, word) {
        lemma_find_lower(b, word, from + 1);
    }
}

/// Executable form of `find_lower`: `to_ascii_lowercase` followed by
/// `str::find`.
pub fn find_ignoring_case_from(b: &Vec<char>, word: &Vec<char>, from: usize) -> (r: Option<usize>)
    ensures
        match r {
            Some(j) => find_lower(b@, word@, from as int) == Some(j as int),
            None => find_lower(b@, word@, from as int) is None,
        },
{
    let mut i = from;
    while i < b.len()
        invariant
            from <= i,
            find_lower(b@, word@, from as int) == find_lower(b@, word@, i as int),
        decreases b.len() - i,
    {
        if starts_with_lower(b, i, word) {
            return Some(i);
        }
        i = i + 1;
    }
    None
}

/// Copies `b[from..to]` into a new vector.
pub fn copy_range(b: &Vec<char>, from: usize, to: usize) -> (v: Vec<char>)
    requires
        from <= to <= b@.len(),
    ensures
        v@ == b@.subrange(from as int, to as int),
{
    let mut v: Vec<char> = Vec::new();
    let mut k = from;
    while k < to
        invariant
            from <= k <= to <= b@.len(),
            v@ == b@.subrange(from as int, k as int),
        decreases to - k,
    {
        v.push(b[k]);
        assert(b@.subrange(from as int, k + 1) =~= b@.subrange(from as int, k as int).push(b@[k as int]));
        k = k + 1;
    }
    v
}


/// A new vector holding the bytes of a slice.
pub fn copy_bytes(b: &[u8]) -> (v: Vec<u8>)
    ensures
        v@ == b@,
{
    let mut v: Vec<u8> = Vec::new();
    let mut k: usize = 0;
    while k < b.len()
        invariant
            k <= b@.len(),
            v@ == b@.take(k as int),
        decreases b.len() - k,
    {
        v.push(b[k]);
        assert(b@.take(k + 1) =~= b@.take(k as int).push(b@[k as int]));
        k = k + 1;
    }
    assert(b@.take(b@.len() as int) =~= b@);
    v
}

} // verus!
