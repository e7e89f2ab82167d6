//! Paint order and the document-wide font table.

use lightpolars::ir::{font_offsets, intern_font, list_item, merge_fonts, painted, FontBytes, FontResource, Painted};

fn orders(boxes: &[u32], images: &[u32]) -> Vec<(char, u32)> {
    painted(boxes, images)
        .iter()
        .map(|p| match p {
            Painted::Box(i) => ('b', boxes[*i]),
            Painted::Image(i) => ('i', images[*i]),
        })
        .collect()
}

#[test]
fn boxes_and_images_interleave_by_order() {
    assert_eq!(orders(&[1, 3], &[0, 2]), [('i', 0), ('b', 1), ('i', 2), ('b', 3)]);
}

#[test]
fn a_page_with_only_boxes_keeps_them_all() {
    assert_eq!(orders(&[0, 1], &[]), [('b', 0), ('b', 1)]);
}

#[test]
fn a_page_with_only_images_keeps_them_all() {
    assert_eq!(orders(&[], &[0, 1]), [('i', 0), ('i', 1)]);
}

#[test]
fn a_tie_puts_the_box_first_because_it_is_the_element_own_background() {
    assert_eq!(orders(&[5], &[5]), [('b', 5), ('i', 5)]);
}

#[test]
fn an_empty_page_paints_nothing() {
    assert!(painted(&[], &[]).is_empty());
}

#[test]
fn every_item_is_painted_once_by_index() {
    let p = painted(&[2, 4, 9], &[1, 4, 10]);
    assert_eq!(
        p,
        vec![
            Painted::Image(0),
            Painted::Box(0),
            Painted::Box(1),
            Painted::Image(1),
            Painted::Box(2),
            Painted::Image(2),
        ]
    );
}

fn font(marker: u8) -> FontResource {
    FontResource { bytes: FontBytes::new(vec![marker]), face_index: 0 }
}

#[test]
fn merge_fonts_concatenates_content_header_footer_in_that_order() {
    let content = vec![font(1)];
    let header = vec![font(2)];
    let footer = vec![font(3)];
    let fonts = merge_fonts(&content, Some(&header), Some(&footer));
    assert_eq!(fonts.len(), 3);
    assert_eq!(fonts[0].bytes.as_slice(), &[1]);
    assert_eq!(fonts[1].bytes.as_slice(), &[2]);
    assert_eq!(fonts[2].bytes.as_slice(), &[3]);
}

#[test]
fn header_and_footer_runs_are_reindexed_past_the_content_fonts() {
    let content = vec![font(1)];
    let header = vec![font(2)];
    let footer = vec![font(3)];
    let (h, f) = font_offsets(&content, Some(&header));
    assert_eq!((h, f), (1, 2));
    let fonts = merge_fonts(&content, Some(&header), Some(&footer));
    assert_eq!(fonts[h].bytes.as_slice(), &[2], "header points at the header font");
    assert_eq!(fonts[f].bytes.as_slice(), &[3], "footer points at the footer font");
    assert_eq!(fonts[0].bytes.as_slice(), &[1], "content points at its own font");
    assert_eq!(font_offsets(&content, None), (1, 1));
}

#[test]
fn a_missing_header_or_footer_adds_no_font() {
    let content = vec![font(1), font(2)];
    assert_eq!(merge_fonts(&content, None, None).len(), 2);
    assert_eq!(merge_fonts(&content, None, Some(&vec![font(9)]))[2].bytes.as_slice(), &[9]);
}

#[test]
fn interning_reuses_an_equal_font_and_appends_a_new_one() {
    let mut fonts = Vec::new();
    assert_eq!(intern_font(&mut fonts, &[7, 7], 0), 0);
    assert_eq!(intern_font(&mut fonts, &[8], 0), 1);
    assert_eq!(intern_font(&mut fonts, &[7, 7], 0), 0);
    assert_eq!(intern_font(&mut fonts, &[7, 7], 1), 2, "another face is another font");
    assert_eq!(fonts.len(), 3);
    assert!(fonts[0] == font_pair(&[7, 7], 0));
}

fn font_pair(bytes: &[u8], face: usize) -> FontResource {
    FontResource { bytes: FontBytes::new(bytes.to_vec()), face_index: face }
}

#[test]
fn font_bytes_compare_by_content() {
    assert!(font(1) == font(1));
    assert!(font(1) != font(2));
    let shared = std::sync::Arc::new(vec![1u8, 2, 3]);
    let a = FontBytes::from_arc(shared.clone());
    assert_eq!(a.len(), 3);
    assert_eq!(a.clone().as_slice(), &[1, 2, 3]);
}

#[test]
fn background_lists_repeat_to_match_the_layers() {
    let sizes = [10, 20];
    assert_eq!(list_item(&sizes, 0), Some(&10));
    assert_eq!(list_item(&sizes, 1), Some(&20));
    assert_eq!(list_item(&sizes, 2), Some(&10));
    assert_eq!(list_item(&sizes, 5), Some(&20));
    let none: [u8; 0] = [];
    assert_eq!(list_item(&none, 3), None);
}

#[test]
fn font_debug_text_gives_the_length_not_the_bytes() {
    assert_eq!(FontBytes::new(vec![0; 1234]).debug_text(), "FontBytes { len: 1234 }");
    assert_eq!(
        font_pair(&[1, 2, 3], 2).debug_text(),
        "FontResource { bytes: FontBytes { len: 3 }, face_index: 2 }"
    );
}
