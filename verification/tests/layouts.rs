//! The per-page cache of layouts, keyed by width.

use lightpolars::layouts::{LayoutCache, CACHED_WIDTHS};

#[test]
fn a_stored_width_is_found_and_others_are_not() {
    let mut c = LayoutCache::new();
    assert_eq!(c.find(800f32.to_bits()), None);
    c.store(800f32.to_bits(), "screen");
    assert_eq!(c.find(800f32.to_bits()), Some(&"screen"));
    assert_eq!(c.find(700f32.to_bits()), None);
    assert_eq!(c.len(), 1);
}

#[test]
fn the_oldest_width_gives_way_to_a_third() {
    assert_eq!(CACHED_WIDTHS, 2);
    let mut c = LayoutCache::new();
    c.store(1, "pdf");
    c.store(2, "screen");
    assert_eq!(c.len(), 2);
    c.store(3, "other");
    assert_eq!(c.len(), 2);
    assert_eq!(c.find(1), None);
    assert_eq!(c.find(2), Some(&"screen"));
    assert_eq!(c.find(3), Some(&"other"));
}

#[test]
fn clearing_forgets_every_width() {
    let mut c = LayoutCache::new();
    c.store(1, 10);
    c.store(2, 20);
    c.clear();
    assert_eq!(c.len(), 0);
    assert_eq!(c.find(1), None);
}

#[test]
fn the_first_entry_under_a_width_answers() {
    let mut c = LayoutCache::new();
    c.store(5, "first");
    c.store(5, "second");
    assert_eq!(c.find(5), Some(&"first"));
}
