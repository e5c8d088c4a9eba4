//! Layout, query and lifecycle behaviour of the cache.

use layout_cache::{LayoutCache, Position};

fn fresh(columns: usize) -> LayoutCache {
    let mut c = LayoutCache::new(8);
    c.window_resized(columns, 24);
    c
}

#[test]
fn new_cache_is_empty_and_unknown_width() {
    let c = LayoutCache::new(4);
    assert_eq!(c.columns, 0);
    assert_eq!(c.tab_stop, 4);
    assert!(c.prompt.is_empty());
    assert!(c.text.is_empty());
    assert!(!c.is_dirty());
    assert_eq!(c.cursor_position(0), Position { col: 0, row: 0 });
}

#[test]
fn ten_single_width_graphemes_fill_a_row() {
    let mut c = fresh(10);
    c.rebuild_text("abcdefghij");
    assert_eq!(c.text.len(), 10);
    let last = c.text[c.text.len() - 1];
    assert_eq!(last.idx, 9);
    assert_eq!(last.width, 1);
    assert_eq!(last.pos, Position { col: 9, row: 0 });
}

#[test]
fn eleventh_grapheme_wraps_to_next_row() {
    let mut c = fresh(10);
    c.rebuild_text("abcdefghij");
    let span = c.insert(10, "k").unwrap();
    let last = c.text[c.text.len() - 1];
    assert_eq!(last.idx, 10);
    assert_eq!(last.pos, Position { col: 0, row: 1 });
    assert_eq!(span.begin, Position { col: 10, row: 0 });
    assert_eq!(span.end, Position { col: 1, row: 1 });
}

#[test]
fn prompt_of_width_two_offsets_cursor() {
    let mut c = fresh(80);
    c.prompt_updated(String::from("> "));
    assert_eq!(c.prompt_size(), Position { col: 2, row: 0 });
    assert_eq!(c.cursor_position(0), Position { col: 2, row: 0 });
}

#[test]
fn deleting_sole_entry_empties_text() {
    let mut c = fresh(80);
    c.prompt_updated(String::from("> "));
    c.rebuild_text("a");
    assert_eq!(c.text.len(), 1);
    c.delete(0, "a").unwrap();
    assert!(c.text.is_empty());
    assert_eq!(c.cursor_position(0), c.prompt_size());
}

#[test]
fn wide_grapheme_may_touch_right_edge() {
    let mut c = fresh(4);
    c.rebuild_text("ab\u{4f60}cd");
    // widths 1, 1, 2, 1, 1; the wide grapheme ends exactly at the edge
    assert_eq!(c.text[0].pos, Position { col: 0, row: 0 });
    assert_eq!(c.text[1].pos, Position { col: 1, row: 0 });
    assert_eq!(c.text[2].pos, Position { col: 2, row: 0 });
    assert_eq!(c.text[2].width, 2);
    assert_eq!(c.text[3].pos, Position { col: 0, row: 1 });
    assert_eq!(c.text[4].pos, Position { col: 1, row: 1 });
}

#[test]
fn wide_grapheme_wraps_wholly() {
    let mut c = fresh(3);
    c.rebuild_text("ab\u{4f60}");
    // the width-2 grapheme does not fit in the last column: whole wrap
    assert_eq!(c.text[2].pos, Position { col: 0, row: 1 });
}

#[test]
fn zero_width_graphemes_are_not_stored() {
    let mut c = fresh(20);
    // 'a' + combining acute accent form one cluster of width 1, then 'b'
    c.rebuild_text("a\u{301}b");
    assert_eq!(c.text.len(), 2);
    assert_eq!(c.text[0].idx, 0);
    assert_eq!(c.text[0].width, 1);
    assert_eq!(c.text[1].idx, 3);
    // an offset inside the first cluster resolves to the next entry
    assert_eq!(c.cursor_position(1), c.text[1].pos);
}

#[test]
fn cursor_before_first_stored_entry_is_origin() {
    let mut c = fresh(20);
    // a lone combining mark forms its own zero-width cluster at offset 0,
    // which is not stored; 'a' follows at byte offset 2
    c.rebuild_text("\u{301}a");
    assert_eq!(c.text.len(), 1);
    assert_eq!(c.text[0].idx, 2);
    assert_eq!(c.cursor_position(1), Position { col: 0, row: 0 });
}

#[test]
fn cursor_past_last_entry_sits_after_it() {
    let mut c = fresh(10);
    c.rebuild_text("abc");
    assert_eq!(c.cursor_position(3), Position { col: 3, row: 0 });
    assert_eq!(c.cursor_position(2), Position { col: 2, row: 0 });
}

#[test]
fn resize_with_same_width_is_a_no_op() {
    let mut c = fresh(10);
    c.rebuild_text("abcdefghijklm");
    let before = c.text.clone();
    let repaint = c.window_resized(10, 50);
    assert!(!repaint);
    assert_eq!(c.text, before);
    let again = c.window_resized(10, 50);
    assert!(!again);
    assert_eq!(c.text, before);
}

#[test]
fn resize_relays_out_and_reports_repaint() {
    let mut c = fresh(10);
    c.rebuild_text("abcdefghijklm");
    assert_eq!(c.text[12].pos, Position { col: 2, row: 1 });
    let repaint = c.window_resized(5, 50);
    assert!(repaint);
    assert_eq!(c.text[12].pos, Position { col: 2, row: 2 });
    // same content as a fresh layout at the new width
    let mut fresh5 = fresh(5);
    fresh5.rebuild_text("abcdefghijklm");
    assert_eq!(c.text, fresh5.text);
}

#[test]
fn dirty_flag_round_trip() {
    let mut c = fresh(10);
    c.rebuild_text("abc");
    assert!(!c.is_dirty());
    c.invalidate_text();
    assert!(c.is_dirty());
    c.rebuild_text("abcd");
    assert!(!c.is_dirty());
    assert_eq!(c.text.len(), 4);
}

#[test]
fn unpaintable_cache_declines_edits() {
    let mut c = LayoutCache::new(8);
    assert_eq!(c.columns, 0);
    assert!(c.insert(0, "a").is_none());
    assert!(c.is_dirty());
}

#[test]
fn grapheme_wider_than_terminal_declines_insert() {
    let mut c = fresh(1);
    let r = c.insert(0, "\u{4f60}");
    assert!(r.is_none());
    assert!(c.is_dirty());
}
