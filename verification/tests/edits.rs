//! Incremental edits measured against the from-scratch oracle.

use layout_cache::{Entry, LayoutCache, Position, Prompt, Span};

fn fresh(columns: usize) -> LayoutCache {
    let mut c = LayoutCache::new(8);
    c.window_resized(columns, 24);
    c
}

fn oracle(columns: usize, prompt: &str, text: &str) -> Vec<Entry> {
    let mut c = fresh(columns);
    c.prompt_updated(String::from(prompt));
    c.rebuild_text(text);
    c.text.clone()
}

#[test]
fn edit_sequence_matches_full_rebuild() {
    let mut c = fresh(10);
    c.insert(0, "hello").unwrap(); // "hello"
    c.insert(5, " world").unwrap(); // "hello world"
    c.delete(0, "he").unwrap(); // "llo world"
    c.replace(3, " ", "_").unwrap(); // "llo_world"
    c.insert(9, "s!").unwrap(); // "llo_worlds!", wraps at 10 columns
    assert_eq!(c.text, oracle(10, "", "llo_worlds!"));
    assert!(!c.is_dirty());
}

#[test]
fn edits_after_prompt_match_full_rebuild() {
    let mut c = fresh(7);
    c.prompt_updated(String::from("> "));
    c.insert(0, "abcde").unwrap();
    c.insert(2, "XY").unwrap(); // "abXYcde"
    c.delete(4, "cd").unwrap(); // "abXYe"
    assert_eq!(c.text, oracle(7, "> ", "abXYe"));
}

#[test]
fn insert_then_delete_restores_entries() {
    let mut c = fresh(6);
    c.rebuild_text("abcdef");
    let before = c.text.clone();
    c.insert(2, "x\u{4f60}y").unwrap();
    c.delete(2, "x\u{4f60}y").unwrap();
    assert_eq!(c.text, before);
}

#[test]
fn replace_equals_delete_then_insert() {
    let mut a = fresh(8);
    a.rebuild_text("abcdefgh");
    let mut b = fresh(8);
    b.rebuild_text("abcdefgh");
    let ra = a.replace(3, "de", "XYZ").unwrap();
    let rd = b.delete(3, "de").unwrap();
    let ri = b.insert(3, "XYZ").unwrap();
    assert_eq!(a.text, b.text);
    let union = Span {
        begin: if rd.begin.row < ri.begin.row
            || (rd.begin.row == ri.begin.row && rd.begin.col <= ri.begin.col) {
            rd.begin
        } else {
            ri.begin
        },
        end: if rd.end.row < ri.end.row || (rd.end.row == ri.end.row && rd.end.col <= ri.end.col) {
            ri.end
        } else {
            rd.end
        },
    };
    assert_eq!(ra, union);
}

#[test]
fn prompt_update_shifts_text_like_a_rebuild() {
    let mut c = fresh(5);
    c.prompt_updated(String::from("> "));
    c.rebuild_text("abcdef");
    let repaint = c.prompt_updated(String::from("$$$ "));
    assert!(repaint);
    // equal to discarding and rebuilding the text from the new origin
    let mut d = fresh(5);
    d.prompt_updated(String::from("$$$ "));
    d.rebuild_text("abcdef");
    assert_eq!(c.prompt, d.prompt);
    assert_eq!(c.text, d.text);
}

#[test]
fn prompt_update_with_same_prompt_reports_no_repaint() {
    let mut c = fresh(20);
    c.prompt_updated(String::from("> "));
    c.rebuild_text("abc");
    let repaint = c.prompt_updated(String::from("> "));
    assert!(!repaint);
}

#[test]
fn structural_invariants_hold_after_mutations() {
    let mut c = fresh(4);
    c.prompt_updated(String::from("# "));
    c.insert(0, "abcd").unwrap();
    c.insert(2, "\u{4f60}e\u{301}").unwrap();
    c.delete(1, "b").unwrap();
    c.replace(0, "a", "zz").unwrap();
    for seq in [&c.prompt, &c.text] {
        for i in 0..seq.len() {
            assert!(seq[i].width > 0);
            assert!(seq[i].pos.col + seq[i].width <= c.columns);
            if i + 1 < seq.len() {
                assert!(seq[i].idx < seq[i + 1].idx);
                let a = seq[i].pos;
                let b = seq[i + 1].pos;
                assert!(a.row < b.row || (a.row == b.row && a.col <= b.col));
            }
        }
    }
}

#[test]
fn insert_span_covers_the_tail() {
    let mut c = fresh(10);
    c.rebuild_text("abcdefghij");
    let span = c.insert(0, "x").unwrap();
    assert_eq!(span.begin, Position { col: 0, row: 0 });
    assert_eq!(span.end, Position { col: 1, row: 1 });
}

#[test]
fn multibyte_offsets_are_byte_offsets() {
    let mut c = fresh(20);
    c.rebuild_text("\u{4f60}\u{597d}"); // two 3-byte graphemes
    assert_eq!(c.text[0].idx, 0);
    assert_eq!(c.text[1].idx, 3);
    c.insert(6, "!").unwrap();
    assert_eq!(c.text[2].idx, 6);
    assert_eq!(c.text[2].pos, Position { col: 4, row: 0 });
}

#[test]
fn str_is_its_own_prompt_provider() {
    let p = "> ";
    assert_eq!(p.get_prompt(&()), String::from("> "));
    assert!(!p.has_continuation());
}
