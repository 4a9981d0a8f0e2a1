use ebook_reader::app::{App, AppMode, Panels};
use ebook_reader::book::{Book, Chapter};
use ebook_reader::progress::ProgressManager;
use ebook_reader::view::{body_rows, byte_slice, highlight_segments, mark_runs};

fn runs_of(v: Vec<ebook_reader::view::Segment>) -> Vec<(String, bool)> {
    v.into_iter().map(|s| (s.text, s.highlighted)).collect()
}

/// The byte walk of the reader's body, returning `None` where slicing would
/// fall inside a character.
fn byte_walk(full: &str, query: &str) -> Option<Vec<(String, bool)>> {
    let lower = full.to_lowercase();
    let lower_q = query.to_lowercase();
    if query.is_empty() || !lower.contains(&lower_q) {
        return Some(vec![(full.to_string(), false)]);
    }
    let mut spans = Vec::new();
    let mut last = 0;
    let mut i = 0;
    while i + lower_q.len() <= full.len() {
        if !lower.is_char_boundary(i) {
            return None;
        }
        if lower[i..].starts_with(&lower_q) {
            let j = i + query.len();
            if j > full.len() || !full.is_char_boundary(i) || !full.is_char_boundary(j) {
                return None;
            }
            if i > last {
                if !full.is_char_boundary(last) {
                    return None;
                }
                spans.push((full[last..i].to_string(), false));
            }
            spans.push((full[i..j].to_string(), true));
            last = j;
            i = last;
        } else {
            i += 1;
        }
    }
    if last < full.len() {
        if !full.is_char_boundary(last) {
            return None;
        }
        spans.push((full[last..].to_string(), false));
    }
    Some(spans)
}

#[test]
fn dotted_capital_i_keeps_marking() {
    assert_eq!(
        runs_of(highlight_segments("xİ", "x")),
        vec![("x".to_string(), true), ("İ".to_string(), false)]
    );
}

#[test]
fn highlight_follows_the_byte_walk() {
    let cases = [
        ("Hello hello", "HELLO"),
        ("xİ", "x"),
        ("xİx", "x"),
        ("ab", "AB"),
        ("Straße strasse", "STRASSE"),
        ("ÉTÉ été", "été"),
        ("aaa", "aa"),
        ("İİ", "i"),
        ("   2 │ b", "b"),
        ("no match", "zzz"),
    ];
    for (t, q) in cases.iter() {
        if let Some(expected) = byte_walk(t, q) {
            assert_eq!(runs_of(highlight_segments(t, q)), expected, "{:?} {:?}", t, q);
        }
    }
}

#[test]
fn mark_runs_on_given_lowercase() {
    assert_eq!(
        runs_of(mark_runs("Ab ab", "ab ab", "ab", 2)),
        vec![("Ab".to_string(), true), (" ".to_string(), false), ("ab".to_string(), true)]
    );
    assert_eq!(runs_of(mark_runs("Ab", "ab", "b", 0)), vec![("Ab".to_string(), false)]);
}

#[test]
fn byte_slices_stop_at_characters() {
    assert_eq!(byte_slice("héllo", 0, 1), Some("h".to_string()));
    assert_eq!(byte_slice("héllo", 1, 3), Some("é".to_string()));
    assert_eq!(byte_slice("héllo", 1, 2), None);
    assert_eq!(byte_slice("abc", 2, 1), None);
    assert_eq!(byte_slice("abc", 1, 9), None);
}

#[test]
fn body_rows_clamp_and_number() {
    let lines: Vec<String> = vec!["a".to_string(), "b".to_string(), "c".to_string()];
    let (top, rows) = body_rows(&lines, 2, 5, false, "");
    assert_eq!(top, 0);
    assert_eq!(rows.len(), 3);
    assert_eq!(rows[2][0].text, "c");
    let (top, rows) = body_rows(&lines, 9, 2, true, "B");
    assert_eq!(top, 1);
    assert_eq!(rows.len(), 2);
    // The byte walk would cut inside the bar character, so the row stays unmarked.
    assert_eq!(runs_of(rows[0].clone()), vec![("   2 │ b".to_string(), false)]);
    let (_, rows) = body_rows(&lines, 0, 1, false, "B");
    assert_eq!(runs_of(rows[0].clone()), vec![("a".to_string(), false)]);
    let (_, rows) = body_rows(&lines, 1, 1, false, "B");
    assert_eq!(runs_of(rows[0].clone()), vec![("b".to_string(), true)]);
    let (top, rows) = body_rows(&Vec::new(), 3, 4, false, "");
    assert_eq!((top, rows.len()), (0, 0));
}

fn book() -> Book {
    Book {
        title: "t".to_string(),
        author: "a".to_string(),
        path: "p".to_string(),
        chapters: vec![Chapter { title: "c".to_string(), content: "x".to_string(), spine_index: 0 }],
    }
}

#[test]
fn panels_follow_the_state() {
    let pm = || ProgressManager::new("s".to_string(), Vec::new());
    let none = App::new(None, pm());
    assert_eq!(
        none.panels(),
        Panels { welcome: true, help: false, reader: false, toc: false, search_bar: false, status_bar: false }
    );
    let mut app = App::new(Some(book()), pm());
    assert_eq!(
        app.panels(),
        Panels { welcome: false, help: false, reader: true, toc: false, search_bar: false, status_bar: false }
    );
    app.toc.visible = true;
    app.status_message = Some("m".to_string());
    let p = app.panels();
    assert!(p.toc && p.status_bar && !p.search_bar);
    app.search_mode = true;
    let p = app.panels();
    assert!(p.search_bar && !p.status_bar);
    app.mode = AppMode::Help;
    assert_eq!(
        app.panels(),
        Panels { welcome: false, help: true, reader: false, toc: false, search_bar: false, status_bar: false }
    );
}
