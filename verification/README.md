# ebook-reader

A terminal reader for EPUB books, with its reading logic verified by Verus.

- `src/` is the verified library:
  - `text.rs`: lines, trimming, blank lines, joining, substring search and
    decimal numbers over character sequences;
  - `book.rs`: making a book from the documents of an EPUB spine (HTML to
    text, chapter titles from the table of contents, skipping empty documents);
  - `progress.rs`: the saved reading position of each book;
  - `toc.rs`: the table-of-contents popup;
  - `app.rs`: the reader's state and every decision it takes on a key press:
    scrolling, paging, chapters, the wrapped-line cache, search and its
    results, saving the position;
  - `view.rs`: what the body shows: the clamped scroll offset, line numbers
    and the marking of matches, walked over the UTF-8 bytes of each row;
  - `bindings.rs`: the trusted calls into std, `textwrap` and `html2text`.
- `app/` is the program around it: reading the EPUB file and the progress
  file, the terminal session and event loop (crossterm), and drawing (ratatui).
- `tests/` runs the library on concrete values.
