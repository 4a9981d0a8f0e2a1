use ebook_reader::book::{html_to_text, tidy_rendered_text, title_for, Book, LoadError, TocEntry};

fn entry(label: &str, order: Option<usize>) -> TocEntry {
    TocEntry { label: label.to_string(), play_order: order }
}

#[test]
fn tidy_cuts_trailing_space_of_each_line() {
    assert_eq!(tidy_rendered_text("Title   \n\nBody text \t\nend"), "Title\n\nBody text\nend");
    assert_eq!(tidy_rendered_text("last line\n"), "last line");
    assert_eq!(tidy_rendered_text(""), "");
}

#[test]
fn html_to_text_follows_html2text() {
    let html = "<html><body><h1>Chapter One</h1><p>It was a dark night.</p></body></html>";
    let expected: String = html2text::from_read(html.as_bytes(), 10000)
        .lines()
        .map(|l| l.trim_end().to_string())
        .collect::<Vec<_>>()
        .join("\n");
    assert_eq!(html_to_text(html), Some(expected.clone()));
    assert!(expected.contains("It was a dark night."));
}

#[test]
fn chapter_titles_come_from_toc_or_number() {
    let toc = vec![entry("Intro", Some(1)), entry("Second", Some(3)), entry("Dup", Some(3))];
    assert_eq!(title_for(&toc, 0), "Intro");
    assert_eq!(title_for(&toc, 1), "Chapter 2");
    assert_eq!(title_for(&toc, 2), "Second");
    assert_eq!(title_for(&Vec::new(), 9), "Chapter 10");
}

#[test]
fn load_keeps_readable_chapters() {
    let toc = vec![entry("Start", Some(1))];
    let docs = vec![
        Some("<p>First page</p>".to_string()),
        None,
        Some("<p>   </p>".to_string()),
        Some("<p>Third page</p>".to_string()),
    ];
    let book = Book::load("/books/a.epub", Some("A Title".to_string()), None, toc, docs).unwrap();
    assert_eq!(book.title, "A Title");
    assert_eq!(book.author, "Unknown Author");
    assert_eq!(book.path, "/books/a.epub");
    assert_eq!(book.chapters.len(), 2);
    assert_eq!(book.chapters[0].title, "Start");
    assert_eq!(book.chapters[0].spine_index, 0);
    assert!(book.chapters[0].content.contains("First page"));
    assert_eq!(book.chapters[1].title, "Chapter 4");
    assert_eq!(book.chapters[1].spine_index, 3);
}

#[test]
fn load_defaults_title_and_author() {
    let docs = vec![Some("<p>x</p>".to_string())];
    let book = Book::load("b", None, Some("Ann".to_string()), Vec::new(), docs).unwrap();
    assert_eq!(book.title, "Unknown Title");
    assert_eq!(book.author, "Ann");
}

#[test]
fn load_refuses_book_without_text() {
    let docs = vec![None, Some("<p> </p>".to_string()), Some(String::new())];
    let r = Book::load("c", None, None, Vec::new(), docs);
    assert_eq!(r.err(), Some(LoadError::NoReadableContent));
    let r = Book::load("c", None, None, Vec::new(), Vec::new());
    assert_eq!(r.err(), Some(LoadError::NoReadableContent));
}
