use vstd::prelude::*;

use crate::bindings::{lowercase, pop_char, push_char, to_lowercase, wrap_line, wrapped};
use crate::book::{Book, Chapter};
use crate::progress::{saved_progress, BookProgress, ProgressManager};
use crate::text::{
    append_str, chars_of, contains_chars, contains_text, decimal, is_blank, is_blank_line, lines_of,
    push_decimal, split_lines,
};
use crate::view::{body_rows, body_rows_of, clamped_top, Segment};
use crate::toc::{selection_after_down, selection_after_up, TocState};

verus! {

/// What the reader shows.
#[derive(Debug, Clone, Copy, PartialEq, Eq, Structural)]
pub enum AppMode {
    Reading,
    Help,
    Library,
}

/// A key of the keyboard, as the reader tells them apart.
#[derive(Debug, Clone, Copy, PartialEq, Eq, Structural)]
pub enum Key {
    Char(char),
    Up,
    Down,
    Left,
    Right,
    PageUp,
    PageDown,
    Enter,
    Esc,
    Backspace,
    Other,
}

/// A key press: the key, and whether Control was held.
#[derive(Debug, Clone, Copy, PartialEq, Eq, Structural)]
pub struct KeyPress {
    pub key: Key,
    pub ctrl: bool,
}

/// What the event loop does after a key press.
#[derive(Debug, Clone, Copy, PartialEq, Eq, Structural)]
pub enum LoopStep {
    /// Leave the reader.
    Quit,
    /// Draw the next frame and wait for the next event.
    NextFrame,
}

/// Keys that scroll one line down (and move the contents selection down).
pub open spec fn is_down_key(k: Key) -> bool {
    k == Key::Down || k == Key::Char('j')
}

/// Keys that scroll one line up (and move the contents selection up).
pub open spec fn is_up_key(k: Key) -> bool {
    k == Key::Up || k == Key::Char('k')
}

/// Keys that page down.
pub open spec fn is_page_down_key(k: Key) -> bool {
    k == Key::PageDown || k == Key::Char('f')
}

/// Keys that page up.
pub open spec fn is_page_up_key(k: Key) -> bool {
    k == Key::PageUp || k == Key::Char('b')
}

/// Keys that go to the next chapter.
pub open spec fn is_next_chapter_key(k: Key) -> bool {
    k == Key::Right || k == Key::Char('l') || k == Key::Char('n')
}

/// Keys that go to the previous chapter.
pub open spec fn is_prev_chapter_key(k: Key) -> bool {
    k == Key::Left || k == Key::Char('h') || k == Key::Char('p')
}

/// Keys that show or hide the table of contents.
pub open spec fn is_toc_key(k: Key) -> bool {
    k == Key::Char('t') || k == Key::Char('T')
}

/// Key presses that leave the reader: q, Q, or Control-c.
pub open spec fn is_quit_press(p: KeyPress) -> bool {
    p.key == Key::Char('q') || p.key == Key::Char('Q') || (p.key == Key::Char('c') && p.ctrl)
}

/// Where the reader stands, in the numbers that the progress gauge is made of.
#[derive(Debug, Clone, Copy)]
pub struct ReadingPosition {
    pub chapter_index: usize,
    pub chapter_count: usize,
    pub scroll_offset: usize,
    pub line_count: usize,
}

/// Which panels a frame draws.
#[derive(Debug, Clone, Copy, PartialEq, Eq, Structural)]
pub struct Panels {
    pub welcome: bool,
    pub help: bool,
    pub reader: bool,
    pub toc: bool,
    pub search_bar: bool,
    pub status_bar: bool,
}

/// The size of the terminal, in cells.
#[derive(Debug, Clone, Copy)]
pub struct TerminalSize {
    pub width: u16,
    pub height: u16,
}

/// The state of the reader.
pub struct App {
    pub book: Option<Book>,
    pub chapter_index: usize,
    pub scroll_offset: usize,
    pub mode: AppMode,
    pub toc: TocState,
    pub progress: ProgressManager,
    pub status_message: Option<String>,
    pub search_query: String,
    pub search_mode: bool,
    pub search_results: Vec<(usize, usize)>,
    pub search_result_index: usize,
    pub line_number_mode: bool,
    pub dark_mode: bool,
    pub wrapped_cache: WrapCache,
}

/// The wrapped lines of one chapter at one width, kept so that the next frame
/// need not wrap the chapter again: (chapter index, width, lines).
pub struct WrapCache {
    entry: Option<(usize, u16, Vec<String>)>,
}

impl WrapCache {
    /// A cache that keeps nothing.
    pub fn empty() -> (c: WrapCache)
        ensures
            c.is_empty(),
            c == empty_cache(),
    {
        WrapCache { entry: None }
    }

    /// The cache keeps nothing.
    pub closed spec fn is_empty(&self) -> bool {
        self.entry is None
    }
}

/// The cache that keeps nothing.
pub closed spec fn empty_cache() -> WrapCache {
    WrapCache { entry: None }
}

/// A copy of `lines`.
fn copy_lines(lines: &Vec<String>) -> (c: Vec<String>)
    ensures
        c.deep_view() == lines.deep_view(),
{
    let mut c: Vec<String> = Vec::new();
    let mut i: usize = 0;
    while i < lines.len()
        invariant
            i <= lines.len(),
            c.deep_view() =~= lines.deep_view().take(i as int),
        decreases lines.len() - i,
    {
        let line: String = lines[i].clone();
        let ghost before = c.deep_view();
        c.push(line);
        proof {
            assert(c.deep_view() =~= before.push(line@));
            assert(c.deep_view() =~= lines.deep_view().take(i + 1));
        }
        i = i + 1;
    }
    c
}

/// The height used for paging where the terminal size is not known.
pub const DEFAULT_HEIGHT: usize = 40;

/// The width used where the terminal size is not known.
pub const DEFAULT_WIDTH: u16 = 80;

/// The rows of the screen that the header (3) and the footer (2) take.
pub const CHROME_ROWS: usize = 5;

/// The number of rows the body of the reader has: the terminal's height (or
/// 40) less the header and the footer.
pub open spec fn body_height(size: Option<TerminalSize>) -> nat {
    (page_height(size) as usize).saturating_sub(CHROME_ROWS) as nat
}

/// The number of rows a page holds: the terminal's height, or 40.
pub open spec fn page_height(size: Option<TerminalSize>) -> nat {
    match size {
        Some(s) => s.height as nat,
        None => DEFAULT_HEIGHT as nat,
    }
}

/// The number of columns the terminal has: its width, or 80.
pub open spec fn page_width(size: Option<TerminalSize>) -> u16 {
    match size {
        Some(s) => s.width,
        None => DEFAULT_WIDTH,
    }
}

/// The width text is wrapped to in a body `width` columns wide: four columns
/// less, but at least 20.
pub open spec fn text_width(width: u16) -> nat {
    let w: int = width - 4;
    if w >= 20 {
        w as nat
    } else {
        20
    }
}

/// The display lines of the text lines `ls` wrapped to `tw` columns: a blank
/// line stays one empty line, any other line is wrapped.
pub open spec fn wrap_lines(ls: Seq<Seq<char>>, tw: nat) -> Seq<Seq<char>>
    decreases ls.len(),
{
    if ls.len() == 0 {
        seq![]
    } else {
        wrap_lines(ls.drop_last(), tw) + (if is_blank(ls.last()) {
            seq![Seq::<char>::empty()]
        } else {
            wrapped(ls.last(), tw)
        })
    }
}

/// The display lines of a chapter's text wrapped to `tw` columns.
pub open spec fn wrap_content(content: Seq<char>, tw: nat) -> Seq<Seq<char>> {
    wrap_lines(lines_of(content), tw)
}

/// Where a reader opening `book` starts: the position saved for its path, or
/// the start of the book.
pub open spec fn restored_position(
    book: Option<Book>,
    saved: Map<Seq<char>, BookProgress>,
) -> (usize, usize) {
    match book {
        Some(b) => match saved_progress(saved, b.path@) {
            Some(p) => (p.chapter_index, p.scroll_offset),
            None => (0, 0),
        },
        None => (0, 0),
    }
}

/// The display lines of `content` wrapped to `width` columns.
pub fn wrap_chapter(content: &str, width: usize) -> (out: Vec<String>)
    ensures
        out.deep_view() == wrap_content(content@, width as nat),
        forall|k: int, j: int|
            0 <= k < out.len() && 0 <= j < out[k]@.len() ==> #[trigger] out[k]@[j] != '\n',
{
    let lines = split_lines(content);
    let mut out: Vec<String> = Vec::new();
    let mut i: usize = 0;
    while i < lines.len()
        invariant
            i <= lines.len(),
            lines.deep_view() == lines_of(content@),
            out.deep_view() == wrap_lines(lines.deep_view().take(i as int), width as nat),
            forall|k: int, j: int|
                0 <= k < out.len() && 0 <= j < out[k]@.len() ==> #[trigger] out[k]@[j] != '\n',
        decreases lines.len() - i,
    {
        let ghost before = out.deep_view();
        proof {
            assert(lines.deep_view().take(i + 1).drop_last() =~= lines.deep_view().take(i as int));
        }
        if is_blank_line(lines[i].as_str()) {
            out.push(String::new());
            proof {
                assert(out.deep_view() =~= before + seq![Seq::<char>::empty()]);
            }
        } else {
            let mut pieces = wrap_line(lines[i].as_str(), width);
            let ghost added = pieces.deep_view();
            out.append(&mut pieces);
            proof {
                assert(out.deep_view() =~= before + added);
            }
        }
        i = i + 1;
    }
    assert(lines.deep_view().take(lines.len() as int) =~= lines.deep_view());
    out
}

/// The (chapter index, line index) pairs, in order, of the lines among `ls`
/// (the lines of chapter `ci`) whose lowercase text contains `q`.
pub open spec fn line_hits(ls: Seq<Seq<char>>, q: Seq<char>, ci: nat) -> Seq<(usize, usize)>
    decreases ls.len(),
{
    if ls.len() == 0 {
        seq![]
    } else {
        line_hits(ls.drop_last(), q, ci) + (if contains_text(lowercase(ls.last()), q) {
            seq![(ci as usize, (ls.len() - 1) as usize)]
        } else {
            seq![]
        })
    }
}

/// The (chapter index, line index) pairs, in order, of the lines of `chs`
/// whose lowercase text contains `q`.
pub open spec fn chapter_hits(chs: Seq<Chapter>, q: Seq<char>) -> Seq<(usize, usize)>
    decreases chs.len(),
{
    if chs.len() == 0 {
        seq![]
    } else {
        chapter_hits(chs.drop_last(), q) + line_hits(
            lines_of(chs.last().content@),
            q,
            (chs.len() - 1) as nat,
        )
    }
}

/// The places where `query` occurs in `book`, ignoring case: the lines whose
/// lowercase text contains the lowercase query.
pub open spec fn search_hits(book: Option<Book>, query: Seq<char>) -> Seq<(usize, usize)> {
    match book {
        Some(b) => chapter_hits(b.chapters@, lowercase(query)),
        None => seq![],
    }
}

/// The status line after a search: "<count> result(s) for '<query>'".
pub open spec fn search_status_text(count: nat, query: Seq<char>) -> Seq<char> {
    decimal(count) + " result(s) for '"@ + query + "'"@
}

/// The result after `i` among `len` results, going round to the first.
pub open spec fn next_result_index(i: nat, len: nat) -> nat {
    (i + 1) % len
}

/// The result before `i` among `len` results, going round to the last.
pub open spec fn prev_result_index(i: nat, len: nat) -> nat {
    if i == 0 {
        (len - 1) as nat
    } else {
        (i - 1) as nat
    }
}

/// `f` is `o` after a search for `o`'s query: the results are the places
/// found (none for an empty query), the first one is shown and the status line
/// counts them; an empty query changes nothing else.
pub open spec fn searched(o: App, f: App) -> bool {
    let q = o.search_query@;
    let hits = search_hits(o.book, q);
    &&& f.search_result_index == 0
    &&& q.len() == 0 ==> f == (App { search_results: f.search_results, search_result_index: 0, ..o })
        && f.search_results@.len() == 0
    &&& q.len() > 0 ==> f.search_results@ == hits && f == (App {
        search_results: f.search_results,
        search_result_index: 0,
        chapter_index: f.chapter_index,
        scroll_offset: f.scroll_offset,
        wrapped_cache: f.wrapped_cache,
        status_message: f.status_message,
        ..o
    })
    &&& q.len() > 0 && hits.len() > 0 ==> f.chapter_index == hits[0].0 && f.scroll_offset
        == hits[0].1 && f.wrapped_cache == empty_cache()
    &&& q.len() > 0 && hits.len() == 0 ==> f.chapter_index == o.chapter_index && f.scroll_offset
        == o.scroll_offset && f.wrapped_cache == o.wrapped_cache
    &&& q.len() > 0 ==> (f.status_message matches Some(m) && m@ == search_status_text(
        hits.len(),
        q,
    ))
}

/// `f` is `o` after `key` is typed into the search bar: Esc closes it; Enter
/// closes it and searches; Backspace removes the query's last character; a
/// character is added to the query; any other key changes nothing.
pub open spec fn search_key_handled(o: App, f: App, key: Key) -> bool {
    &&& key == Key::Esc ==> f == (App { search_mode: false, ..o })
    &&& key == Key::Enter ==> searched(App { search_mode: false, ..o }, f)
    &&& key == Key::Backspace ==> f == (App { search_query: f.search_query, ..o })
        && f.search_query@ == (if o.search_query@.len() > 0 {
        o.search_query@.drop_last()
    } else {
        o.search_query@
    })
    &&& key is Char ==> f == (App { search_query: f.search_query, ..o }) && f.search_query@
        == o.search_query@.push(key->0)
    &&& !(key is Esc || key is Enter || key is Backspace || key is Char) ==> f == o
}

/// Key presses that act outside the search bar; any other changes nothing.
pub open spec fn is_command_press(p: KeyPress) -> bool {
    let k = p.key;
    ||| is_quit_press(p)
    ||| is_down_key(k)
    ||| is_up_key(k)
    ||| is_page_down_key(k)
    ||| is_page_up_key(k)
    ||| is_next_chapter_key(k)
    ||| is_prev_chapter_key(k)
    ||| is_toc_key(k)
    ||| k == Key::Char('g')
    ||| k == Key::Char('G')
    ||| k == Key::Enter
    ||| k == Key::Esc
    ||| k == Key::Char('/')
    ||| k == Key::Char('N')
    ||| k == Key::Char('m')
    ||| k == Key::Char('L')
    ||| k == Key::Char('D')
    ||| k == Key::Char('?')
}

/// The status line after a search for `query` that found `count` places.
pub fn search_status(count: usize, query: &str) -> (s: String)
    ensures
        s@ == search_status_text(count as nat, query@),
{
    let mut s = String::new();
    push_decimal(&mut s, count);
    append_str(&mut s, " result(s) for '");
    append_str(&mut s, query);
    append_str(&mut s, "'");
    s
}

/// The places in `chapters` where the lowercase query `q` occurs.
pub fn find_hits(chapters: &Vec<Chapter>, q: &str) -> (hits: Vec<(usize, usize)>)
    ensures
        hits@ == chapter_hits(chapters@, q@),
{
    let qc = chars_of(q);
    let mut hits: Vec<(usize, usize)> = Vec::new();
    let mut ci: usize = 0;
    while ci < chapters.len()
        invariant
            ci <= chapters.len(),
            qc@ == q@,
            hits@ == chapter_hits(chapters@.take(ci as int), q@),
        decreases chapters.len() - ci,
    {
        let lines = split_lines(chapters[ci].content.as_str());
        let ghost before = hits@;
        let mut li: usize = 0;
        while li < lines.len()
            invariant
                li <= lines.len(),
                ci < chapters.len(),
                qc@ == q@,
                hits@ == before + line_hits(lines.deep_view().take(li as int), q@, ci as nat),
            decreases lines.len() - li,
        {
            let lower = to_lowercase(lines[li].as_str());
            let lc = chars_of(lower.as_str());
            proof {
                assert(lines.deep_view().take(li + 1).drop_last() =~= lines.deep_view().take(
                    li as int,
                ));
            }
            if contains_chars(&lc, &qc) {
                hits.push((ci, li));
            }
            proof {
                assert(hits@ =~= before + line_hits(lines.deep_view().take(li + 1), q@, ci as nat));
            }
            li = li + 1;
        }
        proof {
            assert(lines.deep_view().take(lines.len() as int) =~= lines.deep_view());
            assert(chapters@.take(ci + 1).drop_last() =~= chapters@.take(ci as int));
            assert(hits@ =~= chapter_hits(chapters@.take(ci + 1), q@));
        }
        ci = ci + 1;
    }
    assert(chapters@.take(chapters.len() as int) =~= chapters@);
    hits
}

impl App {
    /// The number of chapters of the open book, or 0.
    pub open spec fn chapter_count(&self) -> nat {
        match self.book {
            Some(b) => b.chapters.len() as nat,
            None => 0,
        }
    }

    /// The text of chapter `i` of the open book, if there is one.
    pub open spec fn content_at(&self, i: int) -> Option<Seq<char>> {
        match self.book {
            Some(b) => if 0 <= i < b.chapters.len() {
                Some(b.chapters@[i].content@)
            } else {
                None
            },
            None => None,
        }
    }

    /// The display lines of the current chapter for a body `width` columns wide.
    pub open spec fn fresh_lines(&self, width: u16) -> Option<Seq<Seq<char>>> {
        match self.content_at(self.chapter_index as int) {
            Some(c) => Some(wrap_content(c, text_width(width))),
            None => None,
        }
    }

    /// The wrapped lines kept from an earlier call hold what a fresh wrap of
    /// their chapter at their width gives.
    pub closed spec fn cache_ok(&self) -> bool {
        match self.wrapped_cache.entry {
            None => true,
            Some((ci, w, lines)) => match self.content_at(ci as int) {
                Some(c) => lines.deep_view() == wrap_content(c, text_width(w)),
                None => false,
            },
        }
    }

    /// The kept wrapped lines are those of the current chapter at `width`.
    pub closed spec fn cache_hit(&self, width: u16) -> bool {
        match self.wrapped_cache.entry {
            Some((ci, w, _)) => ci == self.chapter_index && w == width,
            None => false,
        }
    }

    /// No wrapped lines are kept.
    pub closed spec fn cache_empty(&self) -> bool {
        self.wrapped_cache.entry is None
    }

    /// `self` and `other` keep the same wrapped lines.
    pub closed spec fn same_cache(&self, other: &App) -> bool {
        self.wrapped_cache.entry == other.wrapped_cache.entry
    }

    /// The lines `current_wrapped_lines(width)` gives: those kept, where they
    /// are the current chapter's at `width`, else a fresh wrap.
    pub closed spec fn lines_for(&self, width: u16) -> Option<Seq<Seq<char>>> {
        match self.wrapped_cache.entry {
            Some((ci, w, lines)) => if ci == self.chapter_index && w == width {
                Some(lines.deep_view())
            } else {
                self.fresh_lines(width)
            },
            None => self.fresh_lines(width),
        }
    }

    /// All fields but the kept wrapped lines are equal.
    pub open spec fn same_state(&self, other: &App) -> bool {
        &&& self.book == other.book
        &&& self.chapter_index == other.chapter_index
        &&& self.scroll_offset == other.scroll_offset
        &&& self.mode == other.mode
        &&& self.toc == other.toc
        &&& self.progress == other.progress
        &&& self.status_message == other.status_message
        &&& self.search_query == other.search_query
        &&& self.search_mode == other.search_mode
        &&& self.search_results == other.search_results
        &&& self.search_result_index == other.search_result_index
        &&& self.line_number_mode == other.line_number_mode
        &&& self.dark_mode == other.dark_mode
    }

    /// Opens the reader on `book`, if one was loaded, at the position that
    /// `progress` holds for it; with no book the reader shows its welcome.
    pub fn new(book: Option<Book>, progress: ProgressManager) -> (app: App)
        ensures
            app.book == book,
            app.progress == progress,
            (app.chapter_index, app.scroll_offset) == restored_position(book, progress@),
            app.mode == AppMode::Reading,
            !app.toc.visible && app.toc.selected == 0,
            app.status_message is None,
            app.search_query@ == Seq::<char>::empty(),
            !app.search_mode,
            app.search_results@ == Seq::<(usize, usize)>::empty(),
            app.search_result_index == 0,
            !app.line_number_mode,
            app.dark_mode,
            app.cache_empty(),
            app.cache_ok(),
    {
        let saved = match &book {
            Some(b) => progress.get(b.path.as_str()),
            None => None,
        };
        let (chapter_index, scroll_offset) = match saved {
            Some(p) => (p.chapter_index, p.scroll_offset),
            None => (0, 0),
        };
        App {
            book,
            chapter_index,
            scroll_offset,
            mode: AppMode::Reading,
            toc: TocState { visible: false, selected: 0 },
            progress,
            status_message: None,
            search_query: String::new(),
            search_mode: false,
            search_results: Vec::new(),
            search_result_index: 0,
            line_number_mode: false,
            dark_mode: true,
            wrapped_cache: WrapCache::empty(),
        }
    }

    /// Scrolls `n` lines down, stopping at `usize::MAX`.
    pub fn scroll_down(&mut self, n: usize)
        ensures
            old(self).cache_ok() ==> final(self).cache_ok(),
            *final(self) == (App { scroll_offset: old(self).scroll_offset.saturating_add(n), ..*old(self) }),
    {
        self.scroll_offset = self.scroll_offset.saturating_add(n);
    }

    /// Scrolls `n` lines up, stopping at the top.
    pub fn scroll_up(&mut self, n: usize)
        ensures
            old(self).cache_ok() ==> final(self).cache_ok(),
            *final(self) == (App { scroll_offset: old(self).scroll_offset.saturating_sub(n), ..*old(self) }),
    {
        self.scroll_offset = self.scroll_offset.saturating_sub(n);
    }

    /// Scrolls down by a page: the height of the terminal (40 where it is not
    /// known) less 3 lines.
    pub fn page_down(&mut self, size: Option<TerminalSize>)
        ensures
            old(self).cache_ok() ==> final(self).cache_ok(),
            *final(self) == (App {
                scroll_offset: old(self).scroll_offset.saturating_add(
                    (page_height(size) as usize).saturating_sub(3),
                ),
                ..*old(self)
            }),
    {
        let height = terminal_height(size);
        self.scroll_down(height.saturating_sub(3));
    }

    /// Scrolls up by a page: the height of the terminal (40 where it is not
    /// known) less 3 lines.
    pub fn page_up(&mut self, size: Option<TerminalSize>)
        ensures
            old(self).cache_ok() ==> final(self).cache_ok(),
            *final(self) == (App {
                scroll_offset: old(self).scroll_offset.saturating_sub(
                    (page_height(size) as usize).saturating_sub(3),
                ),
                ..*old(self)
            }),
    {
        let height = terminal_height(size);
        self.scroll_up(height.saturating_sub(3));
    }

    /// Goes to the top of the chapter.
    pub fn scroll_to_top(&mut self)
        ensures
            old(self).cache_ok() ==> final(self).cache_ok(),
            *final(self) == (App { scroll_offset: 0, ..*old(self) }),
    {
        self.scroll_offset = 0;
    }

    /// The wrapped lines of the current chapter for a body `width` columns
    /// wide, or `None` with no book or no such chapter. The lines are kept,
    /// and given again while chapter and width stay the same.
    pub fn current_wrapped_lines(&mut self, width: u16) -> (r: Option<Vec<String>>)
        ensures
            r.deep_view() == old(self).lines_for(width),
            final(self).same_state(old(self)),
            old(self).cache_ok() ==> final(self).cache_ok(),
            old(self).cache_hit(width) || old(self).fresh_lines(width) is None
                ==> final(self).same_cache(old(self)),
            old(self).fresh_lines(width) is Some ==> final(self).cache_hit(width),
            old(self).cache_ok() ==> r.deep_view() == old(self).fresh_lines(width),
    {
        let ci = self.chapter_index;
        match &self.wrapped_cache.entry {
            Some((c, w, lines)) => {
                if *c == ci && *w == width {
                    return Some(copy_lines(lines));
                }
            },
            None => {},
        }
        let w = (width as usize).saturating_sub(4);
        let tw = if w >= 20 {
            w
        } else {
            20
        };
        let wrapped_lines = match &self.book {
            Some(b) => {
                if ci < b.chapters.len() {
                    wrap_chapter(b.chapters[ci].content.as_str(), tw)
                } else {
                    return None;
                }
            },
            None => {
                return None;
            },
        };
        let kept = copy_lines(&wrapped_lines);
        self.wrapped_cache = WrapCache { entry: Some((ci, width, kept)) };
        Some(wrapped_lines)
    }

    /// Goes to the bottom of the chapter: the last body page of its wrapped
    /// lines for the terminal's size (80 by 40 where it is not known), the
    /// body being the terminal's rows less the header and the footer.
    pub fn scroll_to_bottom(&mut self, size: Option<TerminalSize>)
        ensures
            final(self).scroll_offset == (match old(self).lines_for(page_width(size)) {
                Some(ls) => (ls.len() as usize).saturating_sub(body_height(size) as usize),
                None => old(self).scroll_offset,
            }),
            final(self).same_state(&App { scroll_offset: final(self).scroll_offset, ..*old(self) }),
            old(self).cache_ok() ==> final(self).cache_ok(),
    {
        let rows = terminal_height(size).saturating_sub(CHROME_ROWS);
        let width = terminal_width(size);
        if let Some(lines) = self.current_wrapped_lines(width) {
            self.scroll_offset = lines.len().saturating_sub(rows);
        }
    }

    /// Goes to the start of the next chapter, if there is one.
    pub fn next_chapter(&mut self)
        requires
            old(self).book is Some ==> old(self).chapter_index < usize::MAX,
        ensures
            old(self).cache_ok() ==> final(self).cache_ok(),
            *final(self) == (if old(self).chapter_index + 1 < old(self).chapter_count() {
                App {
                    chapter_index: (old(self).chapter_index + 1) as usize,
                    scroll_offset: 0,
                    wrapped_cache: empty_cache(),
                    ..*old(self)
                }
            } else {
                *old(self)
            }),
    {
        if let Some(book) = &self.book {
            if self.chapter_index + 1 < book.chapters.len() {
                self.chapter_index += 1;
                self.scroll_offset = 0;
                self.wrapped_cache = WrapCache::empty();
            }
        }
    }

    /// Goes to the start of the previous chapter, if there is one.
    pub fn prev_chapter(&mut self)
        ensures
            old(self).cache_ok() ==> final(self).cache_ok(),
            *final(self) == (if old(self).chapter_index > 0 {
                App {
                    chapter_index: (old(self).chapter_index - 1) as usize,
                    scroll_offset: 0,
                    wrapped_cache: empty_cache(),
                    ..*old(self)
                }
            } else {
                *old(self)
            }),
    {
        if self.chapter_index > 0 {
            self.chapter_index -= 1;
            self.scroll_offset = 0;
            self.wrapped_cache = WrapCache::empty();
        }
    }

    /// Forgets the kept wrapped lines, as a resize of the terminal asks.
    pub fn forget_wrapped_lines(&mut self)
        ensures
            old(self).cache_ok() ==> final(self).cache_ok(),
            *final(self) == (App { wrapped_cache: empty_cache(), ..*old(self) }),
    {
        self.wrapped_cache = WrapCache::empty();
    }

    /// Records the current position as the progress of the open book.
    pub fn save_progress(&mut self)
        ensures
            old(self).cache_ok() ==> final(self).cache_ok(),
            *final(self) == (App { progress: final(self).progress, ..*old(self) }),
            final(self).progress@ == (match old(self).book {
                Some(b) => old(self).progress@.insert(
                    b.path@,
                    BookProgress {
                        chapter_index: old(self).chapter_index,
                        scroll_offset: old(self).scroll_offset,
                    },
                ),
                None => old(self).progress@,
            }),
            old(self).book is None ==> final(self).progress == old(self).progress,
            final(self).progress.path_spec() == old(self).progress.path_spec(),
    {
        if let Some(book) = &self.book {
            let position = BookProgress {
                chapter_index: self.chapter_index,
                scroll_offset: self.scroll_offset,
            };
            self.progress.save(book.path.as_str(), position);
        }
    }

    /// Looks for the query in every line of the book, ignoring case; goes to
    /// the first place found and reports how many there are. An empty query
    /// only clears the results.
    pub fn perform_search(&mut self)
        ensures
            old(self).cache_ok() ==> final(self).cache_ok(),
            searched(*old(self), *final(self)),
    {
        self.search_results.clear();
        self.search_result_index = 0;
        if self.search_query.as_str().is_empty() {
            return;
        }
        let query = to_lowercase(self.search_query.as_str());
        let hits = match &self.book {
            Some(b) => find_hits(&b.chapters, query.as_str()),
            None => Vec::new(),
        };
        self.search_results = hits;
        if self.search_results.len() > 0 {
            let (ci, li) = self.search_results[0];
            self.chapter_index = ci;
            self.scroll_offset = li;
            self.wrapped_cache = WrapCache::empty();
        }
        self.status_message = Some(search_status(self.search_results.len(), self.search_query.as_str()));
    }

    /// Goes to the next place found, after the last one to the first.
    pub fn search_next_result(&mut self)
        requires
            old(self).search_results.len() > 0 ==> old(self).search_result_index < usize::MAX,
        ensures
            old(self).cache_ok() ==> final(self).cache_ok(),
            ({
                let len = old(self).search_results.len();
                let k = next_result_index(old(self).search_result_index as nat, len as nat);
                &&& len == 0 ==> *final(self) == *old(self)
                &&& len > 0 ==> *final(self) == (App {
                    search_result_index: k as usize,
                    chapter_index: old(self).search_results@[k as int].0,
                    scroll_offset: old(self).search_results@[k as int].1,
                    wrapped_cache: empty_cache(),
                    ..*old(self)
                })
            }),
    {
        if self.search_results.len() == 0 {
            return;
        }
        self.search_result_index = (self.search_result_index + 1) % self.search_results.len();
        let (ci, li) = self.search_results[self.search_result_index];
        self.chapter_index = ci;
        self.scroll_offset = li;
        self.wrapped_cache = WrapCache::empty();
    }

    /// Goes to the previous place found, before the first one to the last.
    pub fn search_prev(&mut self)
        requires
            old(self).search_results.len() > 0 ==> old(self).search_result_index
                <= old(self).search_results.len(),
        ensures
            old(self).cache_ok() ==> final(self).cache_ok(),
            ({
                let len = old(self).search_results.len();
                let k = prev_result_index(old(self).search_result_index as nat, len as nat);
                &&& len == 0 ==> *final(self) == *old(self)
                &&& len > 0 ==> *final(self) == (App {
                    search_result_index: k as usize,
                    chapter_index: old(self).search_results@[k as int].0,
                    scroll_offset: old(self).search_results@[k as int].1,
                    wrapped_cache: empty_cache(),
                    ..*old(self)
                })
            }),
    {
        if self.search_results.len() == 0 {
            return;
        }
        if self.search_result_index == 0 {
            self.search_result_index = self.search_results.len() - 1;
        } else {
            self.search_result_index -= 1;
        }
        let (ci, li) = self.search_results[self.search_result_index];
        self.chapter_index = ci;
        self.scroll_offset = li;
        self.wrapped_cache = WrapCache::empty();
    }

    /// Handles a key typed into the search bar: Esc closes it, Enter closes it
    /// and searches, Backspace removes the last character, a character is
    /// added to the query.
    pub fn handle_search_key(&mut self, key: Key)
        ensures
            old(self).cache_ok() ==> final(self).cache_ok(),
            search_key_handled(*old(self), *final(self), key),
    {
        match key {
            Key::Esc => {
                self.search_mode = false;
            },
            Key::Enter => {
                self.search_mode = false;
                self.perform_search();
            },
            Key::Backspace => {
                pop_char(&mut self.search_query);
            },
            Key::Char(c) => {
                push_char(&mut self.search_query, c);
            },
            _ => {},
        }
    }

    /// Handles a key press read by the event loop, and says what the loop does
    /// next. While the search bar is open the key goes to it. Otherwise the
    /// key acts as the help screen lists; while the table of contents shows,
    /// the line keys also move its selection.
    #[verifier::rlimit(50)]
    pub fn handle_key(&mut self, press: KeyPress, size: Option<TerminalSize>) -> (step: LoopStep)
        requires
            !old(self).search_mode && is_next_chapter_key(press.key) && old(self).book is Some
                ==> old(self).chapter_index < usize::MAX,
            !old(self).search_mode && is_down_key(press.key) && old(self).toc.visible && old(
                self,
            ).book is Some ==> old(self).toc.selected < usize::MAX,
            !old(self).search_mode && press.key == Key::Char('m') && old(
                self,
            ).search_results.len() > 0 ==> old(self).search_result_index < usize::MAX,
            !old(self).search_mode && press.key == Key::Char('N') && old(
                self,
            ).search_results.len() > 0 ==> old(self).search_result_index <= old(
                self,
            ).search_results.len(),
        ensures
            old(self).cache_ok() ==> final(self).cache_ok(),
            step == LoopStep::Quit <==> !old(self).search_mode && is_quit_press(press),
            ({
                let o = *old(self);
                let f = *final(self);
                &&& o.chapter_count() > 0 && (o.toc.visible ==> o.toc.selected < o.chapter_count())
                    ==> (f.toc.visible ==> f.toc.selected < f.chapter_count())
                &&& !o.search_mode && press.key == Key::Enter && o.toc.visible && o.toc.selected
                    < o.chapter_count() ==> f.chapter_index < f.chapter_count()
            }),
            ({
                let o = *old(self);
                let f = *final(self);
                let k = press.key;
                let count = o.chapter_count();
                &&& o.search_mode ==> search_key_handled(o, f, k)
                &&& !o.search_mode && !is_command_press(press) ==> f == o
                &&& !o.search_mode && is_quit_press(press) ==> f == o
                &&& !o.search_mode && is_down_key(k) ==> f == (App {
                    scroll_offset: o.scroll_offset.saturating_add(1),
                    toc: TocState {
                        selected: if o.toc.visible && o.book is Some {
                            selection_after_down(o.toc.selected as nat, count) as usize
                        } else {
                            o.toc.selected
                        },
                        ..o.toc
                    },
                    ..o
                })
                &&& !o.search_mode && is_up_key(k) ==> f == (App {
                    scroll_offset: o.scroll_offset.saturating_sub(1),
                    toc: TocState {
                        selected: if o.toc.visible {
                            selection_after_up(o.toc.selected as nat) as usize
                        } else {
                            o.toc.selected
                        },
                        ..o.toc
                    },
                    ..o
                })
                &&& !o.search_mode && is_page_down_key(k) ==> f == (App {
                    scroll_offset: o.scroll_offset.saturating_add(
                        (page_height(size) as usize).saturating_sub(3),
                    ),
                    ..o
                })
                &&& !o.search_mode && is_page_up_key(k) ==> f == (App {
                    scroll_offset: o.scroll_offset.saturating_sub(
                        (page_height(size) as usize).saturating_sub(3),
                    ),
                    ..o
                })
                &&& !o.search_mode && k == Key::Char('g') ==> f == (App { scroll_offset: 0, ..o })
                &&& !o.search_mode && k == Key::Char('G') ==> f.scroll_offset == (match o.lines_for(
                    page_width(size),
                ) {
                    Some(ls) => (ls.len() as usize).saturating_sub(body_height(size) as usize),
                    None => o.scroll_offset,
                }) && f.same_state(&App { scroll_offset: f.scroll_offset, ..o })
                &&& !o.search_mode && is_next_chapter_key(k) ==> f == (if o.chapter_index + 1
                    < count {
                    App {
                        chapter_index: (o.chapter_index + 1) as usize,
                        scroll_offset: 0,
                        wrapped_cache: empty_cache(),
                        ..o
                    }
                } else {
                    o
                })
                &&& !o.search_mode && is_prev_chapter_key(k) ==> f == (if o.chapter_index > 0 {
                    App {
                        chapter_index: (o.chapter_index - 1) as usize,
                        scroll_offset: 0,
                        wrapped_cache: empty_cache(),
                        ..o
                    }
                } else {
                    o
                })
                &&& !o.search_mode && is_toc_key(k) ==> f == (if o.book is Some {
                    App {
                        toc: TocState {
                            visible: !o.toc.visible,
                            selected: if o.chapter_index < count {
                                o.chapter_index
                            } else {
                                (if count > 0 {
                                    count - 1
                                } else {
                                    0
                                }) as usize
                            },
                        },
                        ..o
                    }
                } else {
                    o
                })
                &&& !o.search_mode && k == Key::Enter ==> f == (if o.toc.visible {
                    App {
                        chapter_index: o.toc.selected,
                        scroll_offset: 0,
                        wrapped_cache: empty_cache(),
                        toc: TocState { visible: false, ..o.toc },
                        ..o
                    }
                } else {
                    o
                })
                &&& !o.search_mode && k == Key::Esc ==> f == (App {
                    toc: TocState { visible: false, ..o.toc },
                    mode: AppMode::Reading,
                    ..o
                })
                &&& !o.search_mode && k == Key::Char('/') ==> f == (App {
                    search_mode: true,
                    search_query: f.search_query,
                    ..o
                }) && f.search_query@.len() == 0
                &&& !o.search_mode && k == Key::Char('N') ==> f == (if o.search_results.len() > 0 {
                    let i = prev_result_index(
                        o.search_result_index as nat,
                        o.search_results.len() as nat,
                    );
                    App {
                        search_result_index: i as usize,
                        chapter_index: o.search_results@[i as int].0,
                        scroll_offset: o.search_results@[i as int].1,
                        wrapped_cache: empty_cache(),
                        ..o
                    }
                } else {
                    o
                })
                &&& !o.search_mode && k == Key::Char('m') ==> f == (if o.search_results.len() > 0 {
                    let i = next_result_index(
                        o.search_result_index as nat,
                        o.search_results.len() as nat,
                    );
                    App {
                        search_result_index: i as usize,
                        chapter_index: o.search_results@[i as int].0,
                        scroll_offset: o.search_results@[i as int].1,
                        wrapped_cache: empty_cache(),
                        ..o
                    }
                } else {
                    o
                })
                &&& !o.search_mode && k == Key::Char('L') ==> f == (App {
                    line_number_mode: !o.line_number_mode,
                    ..o
                })
                &&& !o.search_mode && k == Key::Char('D') ==> f == (App {
                    dark_mode: !o.dark_mode,
                    ..o
                })
                &&& !o.search_mode && k == Key::Char('?') ==> f == (App {
                    mode: if o.mode == AppMode::Help {
                        AppMode::Reading
                    } else {
                        AppMode::Help
                    },
                    ..o
                })
            }),
    {
        if self.search_mode {
            self.handle_search_key(press.key);
            return LoopStep::NextFrame;
        }
        match press.key {
            Key::Char('q') | Key::Char('Q') => {
                return LoopStep::Quit;
            },
            Key::Char('c') if press.ctrl => {
                return LoopStep::Quit;
            },
            Key::Down | Key::Char('j') => self.scroll_down(1),
            Key::Up | Key::Char('k') => self.scroll_up(1),
            Key::PageDown | Key::Char('f') => self.page_down(size),
            Key::PageUp | Key::Char('b') => self.page_up(size),
            Key::Char('g') => self.scroll_to_top(),
            Key::Char('G') => self.scroll_to_bottom(size),
            Key::Right | Key::Char('l') | Key::Char('n') => self.next_chapter(),
            Key::Left | Key::Char('h') | Key::Char('p') => self.prev_chapter(),
            Key::Char('t') | Key::Char('T') => {
                if let Some(book) = &self.book {
                    let len = book.chapters.len();
                    self.toc.toggle();
                    let last = len.saturating_sub(1);
                    self.toc.selected = if self.chapter_index < last {
                        self.chapter_index
                    } else {
                        last
                    };
                }
            },
            Key::Enter => {
                if self.toc.visible {
                    self.chapter_index = self.toc.selected;
                    self.scroll_offset = 0;
                    self.wrapped_cache = WrapCache::empty();
                    self.toc.visible = false;
                }
            },
            Key::Esc => {
                self.toc.visible = false;
                self.mode = AppMode::Reading;
            },
            Key::Char('/') => {
                self.search_mode = true;
                self.search_query = String::new();
            },
            Key::Char('N') => self.search_prev(),
            Key::Char('m') => self.search_next_result(),
            Key::Char('L') => self.line_number_mode = !self.line_number_mode,
            Key::Char('D') => self.dark_mode = !self.dark_mode,
            Key::Char('?') => {
                self.mode = if self.mode == AppMode::Help {
                    AppMode::Reading
                } else {
                    AppMode::Help
                };
            },
            _ => {},
        }
        if self.toc.visible {
            match press.key {
                Key::Up | Key::Char('k') => {
                    self.toc.move_up();
                },
                Key::Down | Key::Char('j') => {
                    if let Some(book) = &self.book {
                        self.toc.move_down(book.chapters.len());
                    }
                },
                _ => {},
            }
        }
        LoopStep::NextFrame
    }

    /// The lines shown in a body `width` columns wide: the wrapped lines of
    /// the current chapter, or the one line "No content".
    pub open spec fn shown_lines(&self, width: u16) -> Seq<Seq<char>> {
        match self.lines_for(width) {
            Some(ls) => ls,
            None => seq!["No content"@],
        }
    }

    /// The numbers the progress gauge is made of, for a body `width` columns
    /// wide: `None` with no book or a book without chapters; else the current
    /// chapter and scroll offset, the number of chapters, and the number of
    /// wrapped lines of the current chapter (1 where it has none to give).
    pub fn reading_position(&mut self, width: u16) -> (r: Option<ReadingPosition>)
        ensures
            r is None <==> old(self).chapter_count() == 0,
            r is None ==> *final(self) == *old(self),
            r matches Some(p) ==> {
                &&& p.chapter_index == old(self).chapter_index
                &&& p.chapter_count == old(self).chapter_count()
                &&& p.scroll_offset == old(self).scroll_offset
                &&& p.line_count == (match old(self).lines_for(width) {
                    Some(ls) => ls.len(),
                    None => 1,
                })
            },
            final(self).same_state(old(self)),
            old(self).cache_ok() ==> final(self).cache_ok(),
    {
        let total = match &self.book {
            Some(b) => b.chapters.len(),
            None => {
                return None;
            },
        };
        if total == 0 {
            return None;
        }
        let line_count = match self.current_wrapped_lines(width) {
            Some(lines) => lines.len(),
            None => 1,
        };
        Some(
            ReadingPosition {
                chapter_index: self.chapter_index,
                chapter_count: total,
                scroll_offset: self.scroll_offset,
                line_count,
            },
        )
    }

    /// The rows of a body `width` by `height`: the scroll offset is first
    /// kept within the last page of the shown lines; then from there, each
    /// shown line, after its number where line numbers are on, cut into runs
    /// with the matches of the search query marked.
    pub fn body_view(&mut self, width: u16, height: u16) -> (rows: Vec<Vec<Segment>>)
        ensures
            ({
                let lines = old(self).shown_lines(width);
                let top = clamped_top(lines.len(), height as nat, old(self).scroll_offset as nat);
                &&& final(self).scroll_offset == top
                &&& final(self).same_state(&App { scroll_offset: top as usize, ..*old(self) })
                &&& rows.deep_view() == body_rows_of(
                    lines,
                    top,
                    height as nat,
                    old(self).line_number_mode,
                    old(self).search_query@,
                )
            }),
            old(self).cache_ok() ==> final(self).cache_ok(),
    {
        let lines = match self.current_wrapped_lines(width) {
            Some(l) => l,
            None => {
                let mut l: Vec<String> = Vec::new();
                l.push(String::from_str("No content"));
                l
            },
        };
        let (top, rows) = body_rows(
            &lines,
            self.scroll_offset,
            height,
            self.line_number_mode,
            self.search_query.as_str(),
        );
        self.scroll_offset = top;
        rows
    }

    /// The panels a frame draws: with no book only the welcome; on the help
    /// screen only the help; otherwise the reader, the table of contents while
    /// it shows, and the search bar while it is open, else the status line if
    /// there is a message.
    pub fn panels(&self) -> (p: Panels)
        ensures
            p == (Panels {
                welcome: self.book is None,
                help: self.book is Some && self.mode == AppMode::Help,
                reader: self.book is Some && self.mode != AppMode::Help,
                toc: self.book is Some && self.mode != AppMode::Help && self.toc.visible,
                search_bar: self.book is Some && self.mode != AppMode::Help && self.search_mode,
                status_bar: self.book is Some && self.mode != AppMode::Help && !self.search_mode
                    && self.status_message is Some,
            }),
    {
        let has_book = self.book.is_some();
        let help = self.mode == AppMode::Help;
        let reader = has_book && !help;
        Panels {
            welcome: !has_book,
            help: has_book && help,
            reader,
            toc: reader && self.toc.visible,
            search_bar: reader && self.search_mode,
            status_bar: reader && !self.search_mode && self.status_message.is_some(),
        }
    }

    /// The second line of the header: "§ <chapter number> / <chapter count>  ·
    /// <chapter title>" (no title where the chapter is not in the book), or
    /// `None` with no book.
    pub fn chapter_heading(&self) -> (h: Option<String>)
        requires
            self.book is Some ==> self.chapter_index < usize::MAX,
        ensures
            match self.book {
                None => h is None,
                Some(b) => h matches Some(t) && t@ == "§ "@ + decimal((self.chapter_index + 1) as nat)
                    + " / "@ + decimal(b.chapters.len() as nat) + "  ·  "@ + (if self.chapter_index
                    < b.chapters.len() {
                    b.chapters@[self.chapter_index as int].title@
                } else {
                    Seq::<char>::empty()
                }),
            },
    {
        match &self.book {
            None => None,
            Some(b) => {
                let mut t = String::from_str("§ ");
                push_decimal(&mut t, self.chapter_index + 1);
                append_str(&mut t, " / ");
                push_decimal(&mut t, b.chapters.len());
                append_str(&mut t, "  ·  ");
                if self.chapter_index < b.chapters.len() {
                    append_str(&mut t, b.chapters[self.chapter_index].title.as_str());
                }
                Some(t)
            },
        }
    }

    /// The entries of the table of contents: each chapter's title, after a
    /// marker on the current chapter and two spaces on the others.
    pub fn toc_items(&self) -> (items: Vec<String>)
        ensures
            match self.book {
                None => items@.len() == 0,
                Some(b) => items@.len() == b.chapters@.len() && forall|i: int|
                    0 <= i < items@.len() ==> #[trigger] items@[i]@ == (if i
                        == self.chapter_index {
                        "▶ "@
                    } else {
                        "  "@
                    }) + b.chapters@[i].title@,
            },
    {
        let mut items: Vec<String> = Vec::new();
        if let Some(b) = &self.book {
            let mut i: usize = 0;
            while i < b.chapters.len()
                invariant
                    self.book == Some(*b),
                    i <= b.chapters.len(),
                    items@.len() == i,
                    forall|j: int|
                        0 <= j < i ==> #[trigger] items@[j]@ == (if j == self.chapter_index {
                            "▶ "@
                        } else {
                            "  "@
                        }) + b.chapters@[j].title@,
                decreases b.chapters.len() - i,
            {
                let mut item = if i == self.chapter_index {
                    String::from_str("▶ ")
                } else {
                    String::from_str("  ")
                };
                append_str(&mut item, b.chapters[i].title.as_str());
                items.push(item);
                i = i + 1;
            }
        }
        items
    }
}

/// The terminal's height, or 40 where it is not known.
fn terminal_height(size: Option<TerminalSize>) -> (h: usize)
    ensures
        h == page_height(size),
{
    match size {
        Some(s) => s.height as usize,
        None => DEFAULT_HEIGHT,
    }
}

/// The terminal's width, or 80 where it is not known.
fn terminal_width(size: Option<TerminalSize>) -> (w: u16)
    ensures
        w == page_width(size),
{
    match size {
        Some(s) => s.width,
        None => DEFAULT_WIDTH,
    }
}

/// Kept wrapped lines that agree with the book are what a fresh wrap gives,
/// so `current_wrapped_lines` gives the same lines whether or not it wraps.
pub proof fn law_kept_lines_are_fresh(app: App, width: u16)
    requires
        app.cache_ok(),
    ensures
        app.lines_for(width) == app.fresh_lines(width),
{
}

/// Going to the next place found and then to the previous one comes back to
/// where it started, and so does the other order; both stay among the results.
pub proof fn law_next_and_prev_results_undo(i: nat, len: nat)
    requires
        i < len,
    ensures
        next_result_index(i, len) < len,
        prev_result_index(i, len) < len,
        prev_result_index(next_result_index(i, len), len) == i,
        next_result_index(prev_result_index(i, len), len) == i,
{
    if i + 1 < len {
        vstd::arithmetic::div_mod::lemma_small_mod(i + 1, len);
    } else {
        vstd::arithmetic::div_mod::lemma_mod_self_0(len as int);
    }
    if i > 0 {
        vstd::arithmetic::div_mod::lemma_small_mod(i, len);
    } else {
        vstd::arithmetic::div_mod::lemma_mod_self_0(len as int);
    }
}

/// The lines a body shows are those of a fresh wrap of the current chapter
/// (or "No content") whenever the kept lines agree with the book.
pub proof fn law_shown_lines_are_fresh(app: App, width: u16)
    requires
        app.cache_ok(),
    ensures
        app.shown_lines(width) == (match app.fresh_lines(width) {
            Some(ls) => ls,
            None => seq!["No content"@],
        }),
{
}

/// Whether the kept lines agree with the book depends on the book and the
/// kept lines alone: writing any other field, such as the chapter index or
/// the scroll offset, keeps it.
pub proof fn law_cache_ok_depends_on_book_and_cache(a: App, b: App)
    requires
        a.cache_ok(),
        b.book == a.book,
        b.wrapped_cache == a.wrapped_cache,
    ensures
        b.cache_ok(),
{
}

/// Opening a book again starts where its progress was last saved.
pub proof fn law_reopen_restores_position(
    book: Book,
    saved: Map<Seq<char>, BookProgress>,
    chapter_index: usize,
    scroll_offset: usize,
)
    ensures
        restored_position(
            Some(book),
            saved.insert(
                book.path@,
                BookProgress { chapter_index, scroll_offset },
            ),
        ) == (chapter_index, scroll_offset),
{
}

/// Scrolling down and then up by the same amount comes back, unless the
/// scroll offset would pass `usize::MAX`.
pub proof fn law_scroll_down_then_up(offset: usize, n: usize)
    requires
        offset + n <= usize::MAX,
    ensures
        offset.saturating_add(n).saturating_sub(n) == offset,
{
}

/// Moving to the next chapter and back comes back, and neither move leaves
/// the book: from a chapter of the book, both land on a chapter of the book.
pub proof fn law_chapter_moves(chapter_index: nat, count: nat)
    requires
        chapter_index < count,
    ensures
        ({
            let next = if chapter_index + 1 < count {
                chapter_index + 1
            } else {
                chapter_index
            };
            let prev = if chapter_index > 0 {
                (chapter_index - 1) as nat
            } else {
                chapter_index
            };
            &&& next < count
            &&& prev < count
            &&& chapter_index + 1 < count ==> (if next > 0 {
                (next - 1) as nat
            } else {
                next
            }) == chapter_index
        }),
{
}

proof fn lemma_line_hits_sound(ls: Seq<Seq<char>>, q: Seq<char>, ci: nat)
    requires
        ls.len() <= usize::MAX,
        ci <= usize::MAX,
    ensures
        forall|k: int|
            0 <= k < line_hits(ls, q, ci).len() ==> {
                let (c, l) = #[trigger] line_hits(ls, q, ci)[k];
                &&& c == ci
                &&& l < ls.len()
                &&& contains_text(lowercase(ls[l as int]), q)
            },
    decreases ls.len(),
{
    if ls.len() > 0 {
        let front = ls.drop_last();
        lemma_line_hits_sound(front, q, ci);
        let hits = line_hits(ls, q, ci);
        assert forall|k: int| 0 <= k < hits.len() implies {
            let (c, l) = #[trigger] hits[k];
            &&& c == ci
            &&& l < ls.len()
            &&& contains_text(lowercase(ls[l as int]), q)
        } by {
            if k < line_hits(front, q, ci).len() {
                assert(hits[k] == line_hits(front, q, ci)[k]);
                assert(front[hits[k].1 as int] == ls[hits[k].1 as int]);
            }
        }
    }
}

proof fn lemma_chapter_hits_sound(chs: Seq<Chapter>, q: Seq<char>)
    requires
        chs.len() <= usize::MAX,
        forall|i: int| 0 <= i < chs.len() ==> lines_of(#[trigger] chs[i].content@).len() <= usize::MAX,
    ensures
        forall|k: int|
            0 <= k < chapter_hits(chs, q).len() ==> {
                let (c, l) = #[trigger] chapter_hits(chs, q)[k];
                &&& c < chs.len()
                &&& l < lines_of(chs[c as int].content@).len()
                &&& contains_text(lowercase(lines_of(chs[c as int].content@)[l as int]), q)
            },
    decreases chs.len(),
{
    if chs.len() > 0 {
        let front = chs.drop_last();
        assert forall|i: int| 0 <= i < front.len() implies lines_of(#[trigger] front[i].content@).len()
            <= usize::MAX by {
            assert(front[i] == chs[i]);
        }
        lemma_chapter_hits_sound(front, q);
        let last = (chs.len() - 1) as nat;
        assert(chs[last as int] == chs.last());
        lemma_line_hits_sound(lines_of(chs.last().content@), q, last);
        let hits = chapter_hits(chs, q);
        let a = chapter_hits(front, q);
        let b = line_hits(lines_of(chs.last().content@), q, last);
        assert forall|k: int| 0 <= k < hits.len() implies {
            let (c, l) = #[trigger] hits[k];
            &&& c < chs.len()
            &&& l < lines_of(chs[c as int].content@).len()
            &&& contains_text(lowercase(lines_of(chs[c as int].content@)[l as int]), q)
        } by {
            if k < a.len() {
                assert(hits[k] == a[k]);
                assert(front[a[k].0 as int] == chs[a[k].0 as int]);
            } else {
                assert(hits[k] == b[k - a.len()]);
            }
        }
    }
}

/// Every place a search finds is a line of a chapter of the book whose
/// lowercase text contains the lowercase query; so the chapter a search goes
/// to is always one of the book's.
pub proof fn law_search_hits_are_matches(book: Book, query: Seq<char>)
    requires
        forall|i: int|
            0 <= i < book.chapters.len() ==> lines_of(#[trigger] book.chapters@[i].content@).len()
                <= usize::MAX,
    ensures
        forall|k: int|
            0 <= k < search_hits(Some(book), query).len() ==> {
                let (c, l) = #[trigger] search_hits(Some(book), query)[k];
                let lines = lines_of(book.chapters@[c as int].content@);
                &&& c < book.chapters.len()
                &&& l < lines.len()
                &&& contains_text(lowercase(lines[l as int]), lowercase(query))
            },
{
    lemma_chapter_hits_sound(book.chapters@, lowercase(query));
}

/// `a` comes before `b`: by chapter, then by line.
pub open spec fn comes_before(a: (usize, usize), b: (usize, usize)) -> bool {
    a.0 < b.0 || (a.0 == b.0 && a.1 < b.1)
}

proof fn lemma_line_hits_complete(ls: Seq<Seq<char>>, q: Seq<char>, ci: nat)
    requires
        ls.len() <= usize::MAX,
        ci <= usize::MAX,
    ensures
        forall|l: int|
            0 <= l < ls.len() && contains_text(lowercase(#[trigger] ls[l]), q) ==> exists|k: int|
                0 <= k < line_hits(ls, q, ci).len() && line_hits(ls, q, ci)[k] == (
                    ci as usize,
                    l as usize,
                ),
        forall|k1: int, k2: int|
            0 <= k1 < k2 < line_hits(ls, q, ci).len() ==> #[trigger] line_hits(ls, q, ci)[k1].1
                < #[trigger] line_hits(ls, q, ci)[k2].1,
    decreases ls.len(),
{
    lemma_line_hits_sound(ls, q, ci);
    if ls.len() > 0 {
        let front = ls.drop_last();
        lemma_line_hits_complete(front, q, ci);
        lemma_line_hits_sound(front, q, ci);
        let a = line_hits(front, q, ci);
        let hits = line_hits(ls, q, ci);
        assert forall|l: int|
            0 <= l < ls.len() && contains_text(lowercase(#[trigger] ls[l]), q) implies exists|k: int|
                0 <= k < hits.len() && hits[k] == (ci as usize, l as usize) by {
            if l < front.len() {
                assert(front[l] == ls[l]);
                let k = choose|k: int| 0 <= k < a.len() && a[k] == (ci as usize, l as usize);
                assert(hits[k] == a[k]);
            } else {
                assert(hits[a.len() as int] == (ci as usize, l as usize));
            }
        }
        assert forall|k1: int, k2: int| 0 <= k1 < k2 < hits.len() implies #[trigger] hits[k1].1
            < #[trigger] hits[k2].1 by {
            assert(hits[k1] == a[k1]);
            if k2 < a.len() {
                assert(hits[k2] == a[k2]);
            } else {
                assert(a[k1].1 < front.len());
            }
        }
    }
}

proof fn lemma_chapter_hits_complete(chs: Seq<Chapter>, q: Seq<char>)
    requires
        chs.len() <= usize::MAX,
        forall|i: int| 0 <= i < chs.len() ==> lines_of(#[trigger] chs[i].content@).len() <= usize::MAX,
    ensures
        forall|c: int, l: int|
            0 <= c < chs.len() && 0 <= l < lines_of(chs[c].content@).len() && contains_text(
                lowercase(#[trigger] lines_of(chs[c].content@)[l]),
                q,
            ) ==> exists|k: int|
                0 <= k < chapter_hits(chs, q).len() && chapter_hits(chs, q)[k] == (
                    c as usize,
                    l as usize,
                ),
        forall|k1: int, k2: int|
            0 <= k1 < k2 < chapter_hits(chs, q).len() ==> comes_before(
                #[trigger] chapter_hits(chs, q)[k1],
                #[trigger] chapter_hits(chs, q)[k2],
            ),
    decreases chs.len(),
{
    lemma_chapter_hits_sound(chs, q);
    if chs.len() > 0 {
        let front = chs.drop_last();
        assert forall|i: int| 0 <= i < front.len() implies lines_of(#[trigger] front[i].content@).len()
            <= usize::MAX by {
            assert(front[i] == chs[i]);
        }
        lemma_chapter_hits_complete(front, q);
        lemma_chapter_hits_sound(front, q);
        let last = (chs.len() - 1) as nat;
        let ls = lines_of(chs.last().content@);
        assert(chs[last as int] == chs.last());
        lemma_line_hits_complete(ls, q, last);
        lemma_line_hits_sound(ls, q, last);
        let a = chapter_hits(front, q);
        let b = line_hits(ls, q, last);
        let hits = chapter_hits(chs, q);
        assert(hits == a + b);
        assert forall|c: int, l: int|
            0 <= c < chs.len() && 0 <= l < lines_of(chs[c].content@).len() && contains_text(
                lowercase(#[trigger] lines_of(chs[c].content@)[l]),
                q,
            ) implies exists|k: int| 0 <= k < hits.len() && hits[k] == (c as usize, l as usize) by {
            if c < front.len() {
                assert(front[c] == chs[c]);
                assert(contains_text(lowercase(lines_of(front[c].content@)[l]), q));
                let k = choose|k: int| 0 <= k < a.len() && a[k] == (c as usize, l as usize);
                assert(hits[k] == a[k]);
            } else {
                assert(contains_text(lowercase(ls[l]), q));
                let k = choose|k: int| 0 <= k < b.len() && b[k] == (last as usize, l as usize);
                assert(hits[a.len() + k] == b[k]);
            }
        }
        assert forall|k1: int, k2: int| 0 <= k1 < k2 < hits.len() implies comes_before(
            #[trigger] hits[k1],
            #[trigger] hits[k2],
        ) by {
            if k2 < a.len() {
                assert(hits[k1] == a[k1] && hits[k2] == a[k2]);
            } else if k1 >= a.len() {
                assert(hits[k1] == b[k1 - a.len()] && hits[k2] == b[k2 - a.len()]);
            } else {
                assert(hits[k1] == a[k1] && hits[k2] == b[k2 - a.len()]);
                assert(a[k1].0 < front.len());
            }
        }
    }
}

/// A search finds exactly the lines that hold the query, ignoring case, each
/// once and in book order: every line of every chapter whose lowercase text
/// contains the lowercase query is among the results, every result is such a
/// line, and the results go strictly forward through the book.
pub proof fn law_search_finds_every_match_in_order(book: Book, query: Seq<char>)
    requires
        forall|i: int|
            0 <= i < book.chapters.len() ==> lines_of(#[trigger] book.chapters@[i].content@).len()
                <= usize::MAX,
    ensures
        ({
            let hits = search_hits(Some(book), query);
            let chs = book.chapters@;
            &&& forall|c: int, l: int|
                0 <= c < chs.len() && 0 <= l < lines_of(chs[c].content@).len() && contains_text(
                    lowercase(#[trigger] lines_of(chs[c].content@)[l]),
                    lowercase(query),
                ) ==> exists|k: int| 0 <= k < hits.len() && hits[k] == (c as usize, l as usize)
            &&& forall|k: int|
                0 <= k < hits.len() ==> {
                    let (c, l) = #[trigger] hits[k];
                    &&& c < chs.len()
                    &&& l < lines_of(chs[c as int].content@).len()
                    &&& contains_text(
                        lowercase(lines_of(chs[c as int].content@)[l as int]),
                        lowercase(query),
                    )
                }
            &&& forall|k1: int, k2: int|
                0 <= k1 < k2 < hits.len() ==> comes_before(#[trigger] hits[k1], #[trigger] hits[k2])
        }),
{
    assert(book.chapters@.len() == book.chapters.len());
    let chs = book.chapters@;
    let hits = search_hits(Some(book), query);
    lemma_chapter_hits_sound(chs, lowercase(query));
    lemma_chapter_hits_complete(chs, lowercase(query));
    assert(hits == chapter_hits(chs, lowercase(query)));
    assert(forall|k1: int, k2: int|
        0 <= k1 < k2 < hits.len() ==> comes_before(#[trigger] hits[k1], #[trigger] hits[k2]));
    assert(forall|k: int|
        0 <= k < hits.len() ==> {
            let (c, l) = #[trigger] hits[k];
            &&& c < chs.len()
            &&& l < lines_of(chs[c as int].content@).len()
            &&& contains_text(lowercase(lines_of(chs[c as int].content@)[l as int]), lowercase(query))
        });
}

/// Wrapping text lines one after another wraps each on its own: the display
/// lines of two runs of text lines are those of the first, then those of the
/// second.
pub proof fn law_wrap_lines_one_after_another(a: Seq<Seq<char>>, b: Seq<Seq<char>>, tw: nat)
    ensures
        wrap_lines(a + b, tw) == wrap_lines(a, tw) + wrap_lines(b, tw),
    decreases b.len(),
{
    if b.len() == 0 {
        assert(a + b =~= a);
        assert(wrap_lines(b, tw) =~= Seq::<Seq<char>>::empty());
        assert(wrap_lines(a, tw) + wrap_lines(b, tw) =~= wrap_lines(a, tw));
    } else {
        law_wrap_lines_one_after_another(a, b.drop_last(), tw);
        assert((a + b).drop_last() =~= a + b.drop_last());
        assert((a + b).last() == b.last());
        let tail = if is_blank(b.last()) {
            seq![Seq::<char>::empty()]
        } else {
            wrapped(b.last(), tw)
        };
        assert(wrap_lines(a + b, tw) =~= wrap_lines(a, tw) + wrap_lines(b.drop_last(), tw) + tail);
        assert(wrap_lines(a, tw) + wrap_lines(b, tw) =~= wrap_lines(a, tw) + wrap_lines(
            b.drop_last(),
            tw,
        ) + tail);
    }
}

/// A blank text line, the empty line included, becomes exactly one empty
/// display line, in its place.
pub proof fn law_blank_line_is_one_empty_line(ls: Seq<Seq<char>>, l: Seq<char>, tw: nat)
    requires
        is_blank(l),
    ensures
        wrap_lines(ls.push(l), tw) == wrap_lines(ls, tw).push(Seq::<char>::empty()),
        is_blank(Seq::<char>::empty()),
        wrap_lines(ls.push(Seq::<char>::empty()), tw) == wrap_lines(ls, tw).push(
            Seq::<char>::empty(),
        ),
{
    assert(ls.push(l).drop_last() =~= ls);
    assert(ls.push(Seq::<char>::empty()).drop_last() =~= ls);
    assert(wrap_lines(ls.push(l), tw) =~= wrap_lines(ls, tw).push(Seq::<char>::empty()));
    assert(wrap_lines(ls.push(Seq::<char>::empty()), tw) =~= wrap_lines(ls, tw).push(
        Seq::<char>::empty(),
    ));
}

} // verus!
