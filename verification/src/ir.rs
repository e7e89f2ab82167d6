//! The pure, float-free part of the display list exchanged between layout,
//! pagination and the renderers: shared font files, the document-wide font
//! table, and the paint order that interleaves boxes and images.

use vstd::prelude::*;
use std::sync::Arc;
use crate::lifecycle::{decimal, push_decimal};

verus! {

/// `Arc::clone`: another handle to the same allocation, holding the same
/// value.
#[verifier::external_body]
fn share<T>(a: &Arc<T>) -> (r: Arc<T>)
    ensures
        r == *a,
{
    a.clone()
}

/// Shared, read-only font file contents. Cloning shares the allocation
/// instead of copying a file that runs to several megabytes.
pub struct FontBytes(Arc<Vec<u8>>);

impl View for FontBytes {
    type V = Seq<u8>;

    closed spec fn view(&self) -> Seq<u8> {
        (*self.0)@
    }
}

impl FontBytes {
    /// Takes the bytes of a font file.
    pub fn new(bytes: Vec<u8>) -> (r: Self)
        ensures
            r@ == bytes@,
    {
        FontBytes(Arc::new(bytes))
    }

    /// Takes over an `Arc` the caller already holds, without copying it.
    pub fn from_arc(bytes: Arc<Vec<u8>>) -> (r: Self)
        ensures
            r@ == (*bytes)@,
    {
        FontBytes(bytes)
    }

    /// The file contents.
    pub fn as_slice(&self) -> (r: &[u8])
        ensures
            r@ == self@,
    {
        (*self.0).as_slice()
    }

    /// Length of the file in bytes.
    pub fn len(&self) -> (n: usize)
        ensures
            n == self@.len(),
    {
        (*self.0).len()
    }

    /// The debug description: the length only, since the bytes themselves
    /// are megabytes of noise to whoever reads a failed assertion.
    pub fn debug_text(&self) -> (t: String)
        ensures
            t@ == font_bytes_text(self@.len()),
    {
        let mut t = String::new();
        t.append("FontBytes { len: ");
        push_decimal(&mut t, self.len() as u64);
        t.append(" }");
        t
    }
}

/// `FontBytes { len: n }`.
pub open spec fn font_bytes_text(n: nat) -> Seq<char> {
    "FontBytes { len: "@ + decimal(n) + " }"@
}

/// `FontResource { bytes: FontBytes { len: n }, face_index: i }`.
pub open spec fn font_resource_text(n: nat, face: nat) -> Seq<char> {
    "FontResource { bytes: "@ + font_bytes_text(n) + ", face_index: "@ + decimal(face) + " }"@
}

impl Clone for FontBytes {
    fn clone(&self) -> (r: Self)
        ensures
            r@ == self@,
    {
        FontBytes(share(&self.0))
    }
}

/// Byte-wise equality of two slices.
pub fn same_bytes(a: &[u8], b: &[u8]) -> (r: bool)
    ensures
        r == (a@ == b@),
{
    if a.len() != b.len() {
        return false;
    }
    let mut k: usize = 0;
    while k < a.len()
        invariant
            a@.len() == b@.len(),
            k <= a@.len(),
            forall|m: int| 0 <= m < k ==> a@[m] == b@[m],
        decreases a.len() - k,
    {
        if a[k] != b[k] {
            return false;
        }
        k = k + 1;
    }
    assert(a@ =~= b@);
    true
}

/// By content, not by address: two fonts that hold the same file are the
/// same font, whichever allocation each one came from.
impl PartialEq for FontBytes {
    fn eq(&self, other: &Self) -> (r: bool) {
        same_bytes(self.as_slice(), other.as_slice())
    }
}

impl vstd::std_specs::cmp::PartialEqSpecImpl for FontBytes {
    open spec fn obeys_eq_spec() -> bool {
        true
    }

    open spec fn eq_spec(&self, other: &FontBytes) -> bool {
        self@ == other@
    }
}

/// Bytes of a font used by the document, with the face index inside the
/// file.
pub struct FontResource {
    pub bytes: FontBytes,
    pub face_index: usize,
}

impl View for FontResource {
    type V = (Seq<u8>, usize);

    open spec fn view(&self) -> (Seq<u8>, usize) {
        (self.bytes@, self.face_index)
    }
}

impl FontResource {
    /// The debug description, with the font's length in place of its bytes.
    pub fn debug_text(&self) -> (t: String)
        ensures
            t@ == font_resource_text(self.bytes@.len(), self.face_index as nat),
    {
        let mut t = String::new();
        t.append("FontResource { bytes: ");
        let b = self.bytes.debug_text();
        t.append(b.as_str());
        t.append(", face_index: ");
        push_decimal(&mut t, self.face_index as u64);
        t.append(" }");
        t
    }
}

impl Clone for FontResource {
    fn clone(&self) -> (r: Self)
        ensures
            r@ == self@,
    {
        FontResource { bytes: self.bytes.clone(), face_index: self.face_index }
    }
}

impl PartialEq for FontResource {
    fn eq(&self, other: &Self) -> (r: bool) {
        self.face_index == other.face_index && same_bytes(
            self.bytes.as_slice(),
            other.bytes.as_slice(),
        )
    }
}

impl vstd::std_specs::cmp::PartialEqSpecImpl for FontResource {
    open spec fn obeys_eq_spec() -> bool {
        true
    }

    open spec fn eq_spec(&self, other: &FontResource) -> bool {
        self@ == other@
    }
}

/// The fonts of a table, as the contracts see them.
pub open spec fn table_view(t: Seq<FontResource>) -> Seq<(Seq<u8>, usize)> {
    t.map_values(|f: FontResource| f@)
}

/// The fonts of an optional table; none for an absent one.
pub open spec fn optional_table(t: Option<&Vec<FontResource>>) -> Seq<(Seq<u8>, usize)> {
    match t {
        Some(v) => table_view(v@),
        None => Seq::empty(),
    }
}

/// Appends clones of every font of `extra`.
fn extend_fonts(fonts: &mut Vec<FontResource>, extra: &Vec<FontResource>)
    ensures
        table_view(final(fonts)@) == table_view(old(fonts)@) + table_view(extra@),
{
    let mut k: usize = 0;
    while k < extra.len()
        invariant
            k <= extra@.len(),
            table_view(fonts@) == table_view(old(fonts)@) + table_view(extra@.take(k as int)),
        decreases extra.len() - k,
    {
        let ghost before = fonts@;
        let c = extra[k].clone();
        assert(c@ == extra@[k as int]@);
        fonts.push(c);
        assert(fonts@ == before.push(c));
        assert(table_view(fonts@) =~= table_view(before).push(c@));
        assert(table_view(extra@.take(k + 1)) =~= table_view(extra@.take(k as int)).push(
            extra@[k as int]@,
        ));
        assert(table_view(fonts@) =~= table_view(old(fonts)@) + table_view(extra@.take(k + 1)));
        k = k + 1;
    }
    assert(extra@.take(extra@.len() as int) =~= extra@);
}

/// One font table for the whole document, in the order pagination uses when
/// it reindexes text runs: the content's fonts, then the header's, then the
/// footer's. The PDF writer must receive exactly this list.
pub fn merge_fonts(
    content: &Vec<FontResource>,
    header: Option<&Vec<FontResource>>,
    footer: Option<&Vec<FontResource>>,
) -> (fonts: Vec<FontResource>)
    ensures
        table_view(fonts@) == table_view(content@) + optional_table(header) + optional_table(
            footer,
        ),
{
    let mut fonts: Vec<FontResource> = Vec::new();
    extend_fonts(&mut fonts, content);
    if let Some(h) = header {
        extend_fonts(&mut fonts, h);
    }
    if let Some(f) = footer {
        extend_fonts(&mut fonts, f);
    }
    assert(table_view(fonts@) =~= table_view(content@) + optional_table(header) + optional_table(
        footer,
    ));
    fonts
}

/// Where the header's and the footer's runs start in the merged table: the
/// header's fonts follow the content's, the footer's follow the header's.
pub fn font_offsets(content: &Vec<FontResource>, header: Option<&Vec<FontResource>>) -> (r: (
    usize,
    usize,
))
    requires
        content@.len() + optional_table(header).len() <= usize::MAX,
    ensures
        r.0 == content@.len(),
        r.1 == content@.len() + optional_table(header).len(),
{
    let header_offset = content.len();
    let footer_offset = match header {
        Some(h) => header_offset + h.len(),
        None => header_offset,
    };
    (header_offset, footer_offset)
}

/// A run reindexed by its offset still names the same font: index `i` of
/// the header's (or footer's) own table is index `offset + i` of the merged
/// table.
pub proof fn law_reindexed_runs_keep_their_font(
    content: Seq<(Seq<u8>, usize)>,
    header: Seq<(Seq<u8>, usize)>,
    footer: Seq<(Seq<u8>, usize)>,
    i: int,
)
    ensures
        0 <= i < content.len() ==> (content + header + footer)[i] == content[i],
        0 <= i < header.len() ==> (content + header + footer)[content.len() + i] == header[i],
        0 <= i < footer.len() ==> (content + header + footer)[content.len() + header.len() + i]
            == footer[i],
{
}

/// Stores the font once and returns its index in the table: an equal font
/// (same bytes, same face) already there is reused, otherwise the font is
/// appended.
pub fn intern_font(fonts: &mut Vec<FontResource>, bytes: &[u8], face: usize) -> (index: usize)
    ensures
        index < final(fonts)@.len(),
        final(fonts)@[index as int]@ == (bytes@, face),
        match first_font(table_view(old(fonts)@), (bytes@, face), 0) {
            Some(i) => index == i && table_view(final(fonts)@) == table_view(old(fonts)@),
            None => index == old(fonts)@.len() && table_view(final(fonts)@) == table_view(
                old(fonts)@,
            ).push((bytes@, face)),
        },
{
    let mut k: usize = 0;
    while k < fonts.len()
        invariant
            k <= fonts@.len(),
            first_font(table_view(fonts@), (bytes@, face), 0) == first_font(
                table_view(fonts@),
                (bytes@, face),
                k as int,
            ),
        decreases fonts.len() - k,
    {
        if fonts[k].face_index == face && fonts[k].bytes.len() == bytes.len() && same_bytes(
            fonts[k].bytes.as_slice(),
            bytes,
        ) {
            assert(table_view(fonts@)[k as int] == fonts@[k as int]@);
            return k;
        }
        assert(table_view(fonts@)[k as int] == fonts@[k as int]@);
        k = k + 1;
    }
    let v = crate::text::copy_bytes(bytes);
    fonts.push(FontResource { bytes: FontBytes::new(v), face_index: face });
    assert(table_view(fonts@) =~= table_view(old(fonts)@).push((bytes@, face)));
    fonts.len() - 1
}

/// The first index at or after `i` of a table entry equal to `f`.
pub open spec fn first_font(t: Seq<(Seq<u8>, usize)>, f: (Seq<u8>, usize), i: int) -> Option<int>
    decreases t.len() - i,
{
    if i < 0 || i >= t.len() {
        None
    } else if t[i] == f {
        Some(i)
    } else {
        first_font(t, f, i + 1)
    }
}

/// Interning keeps a table free of duplicates: when no font appears twice
/// before, none appears twice after.
pub proof fn law_interning_never_duplicates(t: Seq<(Seq<u8>, usize)>, f: (Seq<u8>, usize))
    requires
        forall|i: int, j: int| 0 <= i < j < t.len() ==> t[i] != t[j],
        first_font(t, f, 0) is None,
    ensures
        forall|i: int, j: int| 0 <= i < j < t.push(f).len() ==> t.push(f)[i] != t.push(f)[j],
{
    lemma_first_font(t, f, 0);
    assert forall|i: int, j: int| 0 <= i < j < t.push(f).len() implies t.push(f)[i] != t.push(f)[j] by {
        if j == t.len() {
            assert(t[i] != f);
        }
    }
}

pub proof fn lemma_first_font(t: Seq<(Seq<u8>, usize)>, f: (Seq<u8>, usize), i: int)
    requires
        0 <= i,
    ensures
        first_font(t, f, i) is None ==> forall|m: int| i <= m < t.len() ==> t[m] != f,
        first_font(t, f, i) matches Some(j) ==> i <= j < t.len() && t[j] == f,
    decreases t.len() - i,
{
    if i < t.len() && t[i] != f {
        lemma_first_font(t, f, i + 1);
    }
}


/// A box or a bitmap of a page, by its index in the page's box list or
/// image list, as a renderer meets it while walking paint order.
#[derive(Debug, Clone, Copy, PartialEq, Eq, Structural)]
pub enum Painted {
    Box(usize),
    Image(usize),
}

/// The paint-order number of an item.
pub open spec fn order_of(bo: Seq<u32>, io: Seq<u32>, p: Painted) -> u32 {
    match p {
        Painted::Box(x) => bo[x as int],
        Painted::Image(x) => io[x as int],
    }
}

/// The merge of the box list from `b` and the image list from `i` by paint
/// order; on a tie the box goes first, because it is the element's own
/// background.
pub open spec fn merge_from(bo: Seq<u32>, io: Seq<u32>, b: int, i: int) -> Seq<Painted>
    decreases bo.len() - b + io.len() - i,
{
    if b < 0 || i < 0 || b > bo.len() || i > io.len() {
        Seq::empty()
    } else if b < bo.len() && (i >= io.len() || bo[b] <= io[i]) {
        seq![Painted::Box(b as usize)] + merge_from(bo, io, b + 1, i)
    } else if i < io.len() {
        seq![Painted::Image(i as usize)] + merge_from(bo, io, b, i + 1)
    } else {
        Seq::empty()
    }
}

/// Boxes and images interleaved by document paint order, given the
/// paint-order number of every box and every image of a page.
///
/// Drawing the two lists one after the other is wrong whenever a
/// `background-image` covers an area that later boxes paint into; both lists
/// are in ascending order already, so this is a plain merge.
pub fn painted(box_orders: &[u32], image_orders: &[u32]) -> (order: Vec<Painted>)
    ensures
        order@ == merge_from(box_orders@, image_orders@, 0, 0),
{
    let mut out: Vec<Painted> = Vec::new();
    let mut b: usize = 0;
    let mut i: usize = 0;
    while b < box_orders.len() || i < image_orders.len()
        invariant
            b <= box_orders@.len(),
            i <= image_orders@.len(),
            out@ + merge_from(box_orders@, image_orders@, b as int, i as int) == merge_from(
                box_orders@,
                image_orders@,
                0,
                0,
            ),
        decreases box_orders@.len() - b + image_orders@.len() - i,
    {
        let ghost before = out@;
        if b < box_orders.len() && (i >= image_orders.len() || box_orders[b] <= image_orders[i]) {
            out.push(Painted::Box(b));
            assert(before + merge_from(box_orders@, image_orders@, b as int, i as int) =~= out@
                + merge_from(box_orders@, image_orders@, b + 1, i as int));
            b = b + 1;
        } else {
            out.push(Painted::Image(i));
            assert(before + merge_from(box_orders@, image_orders@, b as int, i as int) =~= out@
                + merge_from(box_orders@, image_orders@, b as int, i + 1));
            i = i + 1;
        }
    }
    assert(out@ + merge_from(box_orders@, image_orders@, b as int, i as int) =~= out@);
    out
}

/// The list is in ascending paint order.
#[verifier::opaque]
pub open spec fn ascending(s: Seq<u32>) -> bool {
    forall|a: int, c: int| 0 <= a <= c < s.len() ==> s[a] <= s[c]
}

/// The item the merge from `(b, i)` paints first.
pub open spec fn merge_head(bo: Seq<u32>, io: Seq<u32>, b: int, i: int) -> Painted {
    if b < bo.len() && (i >= io.len() || bo[b] <= io[i]) {
        Painted::Box(b as usize)
    } else {
        Painted::Image(i as usize)
    }
}

/// One step of the merge: its head, then the merge of what is left.
pub proof fn lemma_merge_step(bo: Seq<u32>, io: Seq<u32>, b: int, i: int)
    requires
        0 <= b <= bo.len(),
        0 <= i <= io.len(),
        b < bo.len() || i < io.len(),
    ensures
        merge_from(bo, io, b, i) == seq![merge_head(bo, io, b, i)] + (
        if merge_head(bo, io, b, i) is Box {
            merge_from(bo, io, b + 1, i)
        } else {
            merge_from(bo, io, b, i + 1)
        }),
{
}

pub proof fn lemma_merge_items(bo: Seq<u32>, io: Seq<u32>, b: int, i: int)
    requires
        0 <= b <= bo.len() <= usize::MAX,
        0 <= i <= io.len() <= usize::MAX,
    ensures
        merge_from(bo, io, b, i).len() == bo.len() - b + io.len() - i,
        forall|k: int|
            0 <= k < merge_from(bo, io, b, i).len() ==> match #[trigger] merge_from(bo, io, b, i)[k] {
                Painted::Box(x) => b <= x < bo.len(),
                Painted::Image(x) => i <= x < io.len(),
            },
        forall|k1: int, k2: int|
            0 <= k1 < k2 < merge_from(bo, io, b, i).len() ==> match (
                #[trigger] merge_from(bo, io, b, i)[k1],
                #[trigger] merge_from(bo, io, b, i)[k2],
            ) {
                (Painted::Box(x1), Painted::Box(x2)) => x1 < x2,
                (Painted::Image(x1), Painted::Image(x2)) => x1 < x2,
                _ => true,
            },
    decreases bo.len() - b + io.len() - i,
{
    if b < bo.len() || i < io.len() {
        lemma_merge_step(bo, io, b, i);
        let r = merge_from(bo, io, b, i);
        let h = merge_head(bo, io, b, i);
        let (nb, ni) = if h is Box { (b + 1, i) } else { (b, i + 1) };
        lemma_merge_items(bo, io, nb, ni);
        let rest = merge_from(bo, io, nb, ni);
        assert(r == seq![h] + rest);
        assert forall|k: int| 0 <= k < r.len() implies match #[trigger] r[k] {
            Painted::Box(x) => b <= x < bo.len(),
            Painted::Image(x) => i <= x < io.len(),
        } by {
            if k > 0 {
                assert(r[k] == rest[k - 1]);
            }
        }
        assert forall|k1: int, k2: int| 0 <= k1 < k2 < r.len() implies match (#[trigger] r[k1], #[trigger] r[k2]) {
            (Painted::Box(x1), Painted::Box(x2)) => x1 < x2,
            (Painted::Image(x1), Painted::Image(x2)) => x1 < x2,
            _ => true,
        } by {
            assert(r[k2] == rest[k2 - 1]);
            if k1 > 0 {
                assert(r[k1] == rest[k1 - 1]);
            }
        }
    }
}

/// The head of the merge is painted no later than the head of what is left,
/// and an image head is strictly before a box that follows it.
pub proof fn lemma_head_order(bo: Seq<u32>, io: Seq<u32>, b: int, i: int)
    requires
        0 <= b <= bo.len() <= usize::MAX,
        0 <= i <= io.len() <= usize::MAX,
        b < bo.len() || i < io.len(),
        ascending(bo),
        ascending(io),
    ensures
        ({
            let h = merge_head(bo, io, b, i);
            let (nb, ni) = if h is Box { (b + 1, i) } else { (b, i + 1) };
            let h2 = merge_head(bo, io, nb, ni);
            (nb < bo.len() || ni < io.len()) ==> order_of(bo, io, h) <= order_of(bo, io, h2)
                && match (h, h2) {
                (Painted::Image(x), Painted::Box(y)) => io[x as int] < bo[y as int],
                _ => true,
            }
        }),
{
    reveal(ascending);
    let h = merge_head(bo, io, b, i);
    if h is Box {
        if b + 1 < bo.len() {
            assert(bo[b] <= bo[b + 1]);
        }
    } else {
        if i + 1 < io.len() {
            assert(io[i] <= io[i + 1]);
        }
    }
}

/// Consecutive items of `r` are in ascending paint order.
pub open spec fn paint_ascending(bo: Seq<u32>, io: Seq<u32>, r: Seq<Painted>) -> bool {
    forall|k: int| 0 <= k < r.len() - 1 ==> order_of(bo, io, #[trigger] r[k]) <= order_of(bo, io, r[k + 1])
}

/// No image directly precedes a box of the same paint order in `r`.
pub open spec fn boxes_first_on_ties(bo: Seq<u32>, io: Seq<u32>, r: Seq<Painted>) -> bool {
    forall|k: int|
        0 <= k < r.len() - 1 ==> match (#[trigger] r[k], r[k + 1]) {
            (Painted::Image(x), Painted::Box(y)) => io[x as int] < bo[y as int],
            _ => true,
        }
}

proof fn lemma_prepend_sorted(bo: Seq<u32>, io: Seq<u32>, h: Painted, rest: Seq<Painted>)
    requires
        paint_ascending(bo, io, rest),
        boxes_first_on_ties(bo, io, rest),
        rest.len() > 0 ==> order_of(bo, io, h) <= order_of(bo, io, rest[0]) && match (h, rest[0]) {
            (Painted::Image(x), Painted::Box(y)) => io[x as int] < bo[y as int],
            _ => true,
        },
    ensures
        paint_ascending(bo, io, seq![h] + rest),
        boxes_first_on_ties(bo, io, seq![h] + rest),
{
    let r = seq![h] + rest;
    assert forall|k: int| 0 <= k < r.len() - 1 implies order_of(bo, io, #[trigger] r[k])
        <= order_of(bo, io, r[k + 1]) by {
        if k > 0 {
            assert(r[k] == rest[k - 1]);
        }
        assert(r[k + 1] == rest[k]);
    }
    assert forall|k: int| 0 <= k < r.len() - 1 implies match (#[trigger] r[k], r[k + 1]) {
        (Painted::Image(x), Painted::Box(y)) => io[x as int] < bo[y as int],
        _ => true,
    } by {
        if k > 0 {
            assert(r[k] == rest[k - 1]);
        }
        assert(r[k + 1] == rest[k]);
    }
}

pub proof fn lemma_merge_sorted(bo: Seq<u32>, io: Seq<u32>, b: int, i: int)
    requires
        0 <= b <= bo.len() <= usize::MAX,
        0 <= i <= io.len() <= usize::MAX,
        ascending(bo),
        ascending(io),
    ensures
        paint_ascending(bo, io, merge_from(bo, io, b, i)),
        boxes_first_on_ties(bo, io, merge_from(bo, io, b, i)),
    decreases bo.len() - b + io.len() - i,
{
    if b < bo.len() || i < io.len() {
        lemma_merge_step(bo, io, b, i);
        let h = merge_head(bo, io, b, i);
        let (nb, ni) = if h is Box { (b + 1, i) } else { (b, i + 1) };
        lemma_merge_sorted(bo, io, nb, ni);
        let rest = merge_from(bo, io, nb, ni);
        if nb < bo.len() || ni < io.len() {
            lemma_merge_step(bo, io, nb, ni);
            assert(rest[0] == merge_head(bo, io, nb, ni));
            lemma_head_order(bo, io, b, i);
        }
        lemma_prepend_sorted(bo, io, h, rest);
    }
}

/// Every box and every image of the page is painted exactly once, each list
/// in its own order: the merge has one entry per item, and within each kind
/// the indices only grow.
pub proof fn law_every_item_is_painted_once(bo: Seq<u32>, io: Seq<u32>)
    requires
        bo.len() <= usize::MAX,
        io.len() <= usize::MAX,
    ensures
        merge_from(bo, io, 0, 0).len() == bo.len() + io.len(),
        forall|k: int|
            0 <= k < merge_from(bo, io, 0, 0).len() ==> match #[trigger] merge_from(bo, io, 0, 0)[k] {
                Painted::Box(x) => x < bo.len(),
                Painted::Image(x) => x < io.len(),
            },
        forall|k1: int, k2: int|
            0 <= k1 < k2 < merge_from(bo, io, 0, 0).len() ==> match (
                #[trigger] merge_from(bo, io, 0, 0)[k1],
                #[trigger] merge_from(bo, io, 0, 0)[k2],
            ) {
                (Painted::Box(x1), Painted::Box(x2)) => x1 < x2,
                (Painted::Image(x1), Painted::Image(x2)) => x1 < x2,
                _ => true,
            },
{
    lemma_merge_items(bo, io, 0, 0);
}

/// When both lists are in ascending paint order, so is the merge; and at
/// equal order a box is painted before an image (an image never directly
/// precedes a box of the same order).
pub proof fn law_paint_order_is_ascending(bo: Seq<u32>, io: Seq<u32>)
    requires
        bo.len() <= usize::MAX,
        io.len() <= usize::MAX,
        ascending(bo),
        ascending(io),
    ensures
        paint_ascending(bo, io, merge_from(bo, io, 0, 0)),
        boxes_first_on_ties(bo, io, merge_from(bo, io, 0, 0)),
{
    lemma_merge_sorted(bo, io, 0, 0);
}

/// Entry `index` of a CSS list longhand that repeats to match the number of
/// `background-image` layers: `index` wraps around the list; an empty list
/// has no entry.
pub fn list_item<T>(list: &[T], index: usize) -> (r: Option<&T>)
    ensures
        match r {
            Some(v) => list@.len() > 0 && *v == list@[index as int % list@.len() as int],
            None => list@.len() == 0,
        },
{
    if list.len() == 0 {
        return None;
    }
    Some(&list[index % list.len()])
}

} // verus!
