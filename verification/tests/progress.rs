use ebook_reader::progress::{BookProgress, ProgressManager};

fn at(chapter_index: usize, scroll_offset: usize) -> BookProgress {
    BookProgress { chapter_index, scroll_offset }
}

fn pair(p: Option<BookProgress>) -> Option<(usize, usize)> {
    p.map(|p| (p.chapter_index, p.scroll_offset))
}

#[test]
fn get_after_save_gives_what_was_saved() {
    let mut m = ProgressManager::new("/tmp/progress.json".to_string(), Vec::new());
    assert_eq!(pair(m.get("/a.epub")), None);
    m.save("/a.epub", at(3, 17));
    assert_eq!(pair(m.get("/a.epub")), Some((3, 17)));
    m.save("/b.epub", at(1, 0));
    m.save("/a.epub", at(4, 2));
    assert_eq!(pair(m.get("/a.epub")), Some((4, 2)));
    assert_eq!(pair(m.get("/b.epub")), Some((1, 0)));
    assert_eq!(m.entries().len(), 2);
    assert_eq!(m.store_path(), "/tmp/progress.json");
}

#[test]
fn later_entries_win_when_loading() {
    let entries = vec![
        ("/x".to_string(), at(1, 1)),
        ("/y".to_string(), at(2, 2)),
        ("/x".to_string(), at(5, 5)),
    ];
    let m = ProgressManager::new("p".to_string(), entries);
    assert_eq!(pair(m.get("/x")), Some((5, 5)));
    assert_eq!(pair(m.get("/y")), Some((2, 2)));
    assert_eq!(m.entries().len(), 2);
}
