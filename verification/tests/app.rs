use ebook_reader::app::{App, AppMode, Key, KeyPress, LoopStep, TerminalSize};
use ebook_reader::book::{Book, Chapter};
use ebook_reader::progress::{BookProgress, ProgressManager};

fn chapter(title: &str, content: &str, i: usize) -> Chapter {
    Chapter { title: title.to_string(), content: content.to_string(), spine_index: i }
}

fn sample_book() -> Book {
    Book {
        title: "Tales".to_string(),
        author: "Someone".to_string(),
        path: "/books/tales.epub".to_string(),
        chapters: vec![
            chapter("One", "The quick brown fox.\n\nA lazy dog sleeps.", 0),
            chapter("Two", "No animals here.\nThe FOX returns!", 1),
            chapter("Three", "The end.", 2),
        ],
    }
}

fn empty_progress() -> ProgressManager {
    ProgressManager::new("/tmp/p.json".to_string(), Vec::new())
}

fn press(key: Key) -> KeyPress {
    KeyPress { key, ctrl: false }
}

fn size(width: u16, height: u16) -> Option<TerminalSize> {
    Some(TerminalSize { width, height })
}

#[test]
fn new_starts_at_saved_position() {
    let mut pm = empty_progress();
    pm.save("/books/tales.epub", BookProgress { chapter_index: 2, scroll_offset: 5 });
    let app = App::new(Some(sample_book()), pm);
    assert_eq!(app.chapter_index, 2);
    assert_eq!(app.scroll_offset, 5);
    assert_eq!(app.mode, AppMode::Reading);
    assert!(app.dark_mode);
    assert!(!app.line_number_mode);
    assert!(!app.toc.visible);
    let app = App::new(Some(sample_book()), empty_progress());
    assert_eq!((app.chapter_index, app.scroll_offset), (0, 0));
    let app = App::new(None, empty_progress());
    assert!(app.book.is_none());
}

#[test]
fn scrolling_saturates() {
    let mut app = App::new(Some(sample_book()), empty_progress());
    app.scroll_up(3);
    assert_eq!(app.scroll_offset, 0);
    app.scroll_down(4);
    assert_eq!(app.scroll_offset, 4);
    app.scroll_down(usize::MAX);
    assert_eq!(app.scroll_offset, usize::MAX);
    app.scroll_to_top();
    assert_eq!(app.scroll_offset, 0);
    app.page_down(None);
    assert_eq!(app.scroll_offset, 37);
    app.page_up(size(80, 10));
    assert_eq!(app.scroll_offset, 30);
    app.page_down(size(80, 2));
    assert_eq!(app.scroll_offset, 30);
}

#[test]
fn chapters_move_within_book() {
    let mut app = App::new(Some(sample_book()), empty_progress());
    app.scroll_down(3);
    app.prev_chapter();
    assert_eq!((app.chapter_index, app.scroll_offset), (0, 3));
    app.next_chapter();
    assert_eq!((app.chapter_index, app.scroll_offset), (1, 0));
    app.next_chapter();
    app.next_chapter();
    assert_eq!(app.chapter_index, 2);
    app.prev_chapter();
    assert_eq!(app.chapter_index, 1);
}

#[test]
fn wrapped_lines_follow_textwrap() {
    let long = "word ".repeat(30);
    let book = Book {
        title: "t".to_string(),
        author: "a".to_string(),
        path: "p".to_string(),
        chapters: vec![chapter("c", &format!("{}\n   \nshort", long), 0)],
    };
    let mut app = App::new(Some(book), empty_progress());
    let lines = app.current_wrapped_lines(30).unwrap();
    let mut expected: Vec<String> =
        textwrap::wrap(&long, textwrap::Options::new(26)).into_iter().map(|l| l.into_owned()).collect();
    expected.push(String::new());
    expected.push("short".to_string());
    assert_eq!(lines, expected);
    assert_eq!(app.current_wrapped_lines(30).unwrap(), expected);
    let narrow = app.current_wrapped_lines(10).unwrap();
    let mut expected20: Vec<String> =
        textwrap::wrap(&long, textwrap::Options::new(20)).into_iter().map(|l| l.into_owned()).collect();
    expected20.push(String::new());
    expected20.push("short".to_string());
    assert_eq!(narrow, expected20);
    app.chapter_index = 5;
    assert_eq!(app.current_wrapped_lines(30), None);
    let mut none = App::new(None, empty_progress());
    assert_eq!(none.current_wrapped_lines(80), None);
}

#[test]
fn scroll_to_bottom_shows_last_page() {
    let content: Vec<String> = (0..50).map(|i| format!("line {}", i)).collect();
    let book = Book {
        title: "t".to_string(),
        author: "a".to_string(),
        path: "p".to_string(),
        chapters: vec![chapter("c", &content.join("\n"), 0)],
    };
    let mut app = App::new(Some(book), empty_progress());
    app.scroll_to_bottom(size(80, 20));
    assert_eq!(app.scroll_offset, 35);
    app.scroll_to_bottom(None);
    assert_eq!(app.scroll_offset, 15);
    app.scroll_to_bottom(size(80, 3));
    assert_eq!(app.scroll_offset, 50);
    let rows = app.body_view(80, 15);
    assert_eq!(rows.last().unwrap()[0].text, "line 49");
}

#[test]
fn search_finds_lines_ignoring_case() {
    let mut app = App::new(Some(sample_book()), empty_progress());
    app.search_query = "Fox".to_string();
    app.perform_search();
    assert_eq!(app.search_results, vec![(0, 0), (1, 1)]);
    assert_eq!(app.search_result_index, 0);
    assert_eq!((app.chapter_index, app.scroll_offset), (0, 0));
    assert_eq!(app.status_message.as_deref(), Some("2 result(s) for 'Fox'"));
    app.search_next_result();
    assert_eq!((app.search_result_index, app.chapter_index, app.scroll_offset), (1, 1, 1));
    app.search_next_result();
    assert_eq!((app.search_result_index, app.chapter_index, app.scroll_offset), (0, 0, 0));
    app.search_prev();
    assert_eq!((app.search_result_index, app.chapter_index, app.scroll_offset), (1, 1, 1));
    app.search_prev();
    assert_eq!(app.search_result_index, 0);
}

#[test]
fn search_without_hits_keeps_position() {
    let mut app = App::new(Some(sample_book()), empty_progress());
    app.next_chapter();
    app.scroll_down(2);
    app.search_query = "zebra".to_string();
    app.perform_search();
    assert!(app.search_results.is_empty());
    assert_eq!((app.chapter_index, app.scroll_offset), (1, 2));
    assert_eq!(app.status_message.as_deref(), Some("0 result(s) for 'zebra'"));
    app.search_next_result();
    app.search_prev();
    assert_eq!((app.chapter_index, app.scroll_offset), (1, 2));
}

#[test]
fn empty_query_only_clears_results() {
    let mut app = App::new(Some(sample_book()), empty_progress());
    app.search_query = "the".to_string();
    app.perform_search();
    assert_eq!(app.search_results.len(), 3);
    app.search_query.clear();
    app.perform_search();
    assert!(app.search_results.is_empty());
    assert_eq!(app.status_message.as_deref(), Some("3 result(s) for 'the'"));
}

#[test]
fn keys_drive_the_reader() {
    let mut app = App::new(Some(sample_book()), empty_progress());
    assert_eq!(app.handle_key(press(Key::Char('j')), None), LoopStep::NextFrame);
    assert_eq!(app.scroll_offset, 1);
    app.handle_key(press(Key::Up), None);
    assert_eq!(app.scroll_offset, 0);
    app.handle_key(press(Key::Char('n')), None);
    assert_eq!(app.chapter_index, 1);
    app.handle_key(press(Key::Left), None);
    assert_eq!(app.chapter_index, 0);
    app.handle_key(press(Key::Char('L')), None);
    assert!(app.line_number_mode);
    app.handle_key(press(Key::Char('D')), None);
    assert!(!app.dark_mode);
    app.handle_key(press(Key::Char('?')), None);
    assert_eq!(app.mode, AppMode::Help);
    app.handle_key(press(Key::Esc), None);
    assert_eq!(app.mode, AppMode::Reading);
    assert_eq!(app.handle_key(press(Key::Char('c')), None), LoopStep::NextFrame);
    assert_eq!(app.handle_key(KeyPress { key: Key::Char('c'), ctrl: true }, None), LoopStep::Quit);
    assert_eq!(app.handle_key(press(Key::Char('Q')), None), LoopStep::Quit);
    let mut three = App::new(Some(sample_book()), empty_progress());
    for k in ['n', 'n'] {
        assert_eq!(three.handle_key(press(Key::Char(k)), None), LoopStep::NextFrame);
    }
    assert_eq!((three.chapter_index, three.scroll_offset), (2, 0));
    assert_eq!(app.handle_key(press(Key::Char('q')), None), LoopStep::Quit);
}

#[test]
fn search_bar_takes_keys() {
    let mut app = App::new(Some(sample_book()), empty_progress());
    app.handle_key(press(Key::Char('/')), None);
    assert!(app.search_mode);
    for c in "dogx".chars() {
        assert_eq!(app.handle_key(press(Key::Char(c)), None), LoopStep::NextFrame);
    }
    app.handle_key(press(Key::Backspace), None);
    assert_eq!(app.search_query, "dog");
    assert_eq!(app.handle_key(press(Key::Char('q')), None), LoopStep::NextFrame);
    app.handle_key(press(Key::Backspace), None);
    assert_eq!(app.handle_key(press(Key::Enter), None), LoopStep::NextFrame);
    assert!(!app.search_mode);
    assert_eq!(app.search_results, vec![(0, 2)]);
    assert_eq!(app.scroll_offset, 2);
    app.handle_key(press(Key::Char('/')), None);
    assert_eq!(app.search_query, "");
    app.handle_key(press(Key::Esc), None);
    assert!(!app.search_mode);
}

#[test]
fn table_of_contents_jumps() {
    let mut app = App::new(Some(sample_book()), empty_progress());
    app.next_chapter();
    app.handle_key(press(Key::Char('t')), None);
    assert!(app.toc.visible);
    assert_eq!(app.toc.selected, 1);
    app.handle_key(press(Key::Down), None);
    assert_eq!(app.toc.selected, 2);
    app.handle_key(press(Key::Char('j')), None);
    assert_eq!(app.toc.selected, 2);
    app.handle_key(press(Key::Char('k')), None);
    app.handle_key(press(Key::Char('k')), None);
    assert_eq!(app.toc.selected, 0);
    app.handle_key(press(Key::Enter), None);
    assert!(!app.toc.visible);
    assert_eq!((app.chapter_index, app.scroll_offset), (0, 0));
    let mut none = App::new(None, empty_progress());
    none.handle_key(press(Key::Char('T')), None);
    assert!(!none.toc.visible);
}

#[test]
fn saved_position_is_restored() {
    let mut app = App::new(Some(sample_book()), empty_progress());
    app.next_chapter();
    app.scroll_down(7);
    app.save_progress();
    let reopened = App::new(Some(sample_book()), app.progress);
    assert_eq!((reopened.chapter_index, reopened.scroll_offset), (1, 7));
}

#[test]
fn body_view_clamps_and_highlights() {
    let content: Vec<String> = (1..=6).map(|i| format!("row {}", i)).collect();
    let book = Book {
        title: "t".to_string(),
        author: "a".to_string(),
        path: "p".to_string(),
        chapters: vec![chapter("c", &content.join("\n"), 0)],
    };
    let mut app = App::new(Some(book), empty_progress());
    app.scroll_down(100);
    app.line_number_mode = true;
    app.search_query = "ROW 5".to_string();
    let rows = app.body_view(80, 4);
    assert_eq!(app.scroll_offset, 2);
    assert_eq!(rows.len(), 4);
    let text: Vec<String> = rows.iter().map(|r| r.iter().map(|s| s.text.clone()).collect()).collect();
    assert_eq!(text, vec!["   3 │ row 3", "   4 │ row 4", "   5 │ row 5", "   6 │ row 6"]);
    // The byte walk would cut inside the bar character here, so no row is marked.
    assert!(rows.iter().all(|r| r.len() == 1 && !r[0].highlighted));
    app.line_number_mode = false;
    let rows = app.body_view(80, 4);
    assert_eq!(rows[2].len(), 1);
    assert_eq!(rows[2][0].text, "row 5");
    assert!(rows[2][0].highlighted);
    assert!(!rows[1][0].highlighted);
    let mut none = App::new(None, empty_progress());
    let rows = none.body_view(80, 10);
    assert_eq!(rows.len(), 1);
    assert_eq!(rows[0][0].text, "No content");
}

#[test]
fn reading_position_numbers() {
    let mut app = App::new(Some(sample_book()), empty_progress());
    app.next_chapter();
    let p = app.reading_position(80).unwrap();
    assert_eq!((p.chapter_index, p.chapter_count, p.scroll_offset, p.line_count), (1, 3, 0, 2));
    let mut none = App::new(None, empty_progress());
    assert!(none.reading_position(80).is_none());
}

#[test]
fn header_and_contents_entries() {
    let mut app = App::new(Some(sample_book()), empty_progress());
    app.next_chapter();
    assert_eq!(app.chapter_heading().as_deref(), Some("§ 2 / 3  ·  Two"));
    assert_eq!(app.toc_items(), vec!["  One", "▶ Two", "  Three"]);
    app.chapter_index = 7;
    assert_eq!(app.chapter_heading().as_deref(), Some("§ 8 / 3  ·  "));
    let none = App::new(None, empty_progress());
    assert_eq!(none.chapter_heading(), None);
    assert!(none.toc_items().is_empty());
}
