use vstd::prelude::*;

use crate::bindings::{render_html, rendered};
use crate::text::{
    decimal, is_blank, is_blank_line, join_lines, join_with_newlines, lines_of, push_decimal,
    split_lines, trim_end, trim_end_string,
};

verus! {

/// The width at which chapters are rendered from HTML to text.
pub const RENDER_WIDTH: usize = 10000;

/// One readable chapter of a book.
#[derive(Debug, Clone)]
pub struct Chapter {
    pub title: String,
    pub content: String,
    pub spine_index: usize,
}

/// The mathematical value of a chapter.
pub struct ChapterView {
    pub title: Seq<char>,
    pub content: Seq<char>,
    pub spine_index: nat,
}

impl DeepView for Chapter {
    type V = ChapterView;

    open spec fn deep_view(&self) -> ChapterView {
        ChapterView { title: self.title@, content: self.content@, spine_index: self.spine_index as nat }
    }
}

/// A loaded book: its metadata and its readable chapters.
#[derive(Debug)]
pub struct Book {
    pub title: String,
    pub author: String,
    pub path: String,
    pub chapters: Vec<Chapter>,
}

/// An entry of the table of contents of an EPUB document.
pub struct TocEntry {
    pub label: String,
    pub play_order: Option<usize>,
}

/// Why a book could not be made from a document.
#[derive(Debug, PartialEq, Eq, Structural)]
pub enum LoadError {
    /// No document of the spine gave any text.
    NoReadableContent,
}

/// The text of rendered HTML: each line without trailing white space.
pub open spec fn plain_text(rendered_text: Seq<char>) -> Seq<char> {
    join_lines(lines_of(rendered_text).map_values(|l: Seq<char>| trim_end(l)))
}

/// The plain text of the HTML document `html`, or `None` where it cannot be rendered.
pub open spec fn html_text(html: Seq<char>) -> Option<Seq<char>> {
    match rendered(html, RENDER_WIDTH as nat) {
        Some(r) => Some(plain_text(r)),
        None => None,
    }
}

/// The rendered text `rendered_text` with trailing white space cut from each line.
pub fn tidy_rendered_text(rendered_text: &str) -> (t: String)
    ensures
        t@ == plain_text(rendered_text@),
{
    let lines = split_lines(rendered_text);
    let mut trimmed: Vec<String> = Vec::new();
    let mut i: usize = 0;
    while i < lines.len()
        invariant
            i <= lines.len(),
            trimmed.deep_view() =~= lines.deep_view().take(i as int).map_values(
                |l: Seq<char>| trim_end(l),
            ),
        decreases lines.len() - i,
    {
        let t = trim_end_string(lines[i].as_str());
        let ghost before = trimmed.deep_view();
        trimmed.push(t);
        proof {
            assert(trimmed.deep_view() =~= before.push(t@));
            assert(trimmed.deep_view() =~= lines.deep_view().take(i + 1).map_values(
                |l: Seq<char>| trim_end(l),
            ));
        }
        i = i + 1;
    }
    assert(lines.deep_view().take(lines.len() as int) =~= lines.deep_view());
    join_with_newlines(&trimmed)
}

/// The plain text of the HTML document `html`.
pub fn html_to_text(html: &str) -> (t: Option<String>)
    ensures
        match t {
            Some(s) => html_text(html@) == Some(s@),
            None => html_text(html@) is None,
        },
{
    match render_html(html, RENDER_WIDTH) {
        Some(r) => Some(tidy_rendered_text(r.as_str())),
        None => None,
    }
}

/// The label of the first entry of `toc` whose play order is `order`.
pub open spec fn toc_label(toc: Seq<TocEntry>, order: nat) -> Option<Seq<char>>
    decreases toc.len(),
{
    if toc.len() == 0 {
        None
    } else if toc[0].play_order == Some(order as usize) && order <= usize::MAX {
        Some(toc[0].label@)
    } else {
        toc_label(toc.drop_first(), order)
    }
}

/// The title of the document at spine position `idx`: its entry in the table
/// of contents, else "Chapter" and its number counted from 1.
pub open spec fn chapter_title(toc: Seq<TocEntry>, idx: nat) -> Seq<char> {
    match toc_label(toc, idx + 1) {
        Some(l) => l,
        None => "Chapter "@ + decimal(idx + 1),
    }
}

/// The chapter that the document at spine position `idx` gives, if it has text.
pub open spec fn chapter_of(toc: Seq<TocEntry>, docs: Seq<Option<String>>, idx: int) -> Option<
    ChapterView,
> {
    match docs[idx] {
        None => None,
        Some(html) => match html_text(html@) {
            None => None,
            Some(text) => if is_blank(text) {
                None
            } else {
                Some(ChapterView { title: chapter_title(toc, idx as nat), content: text, spine_index: idx as nat })
            },
        },
    }
}

/// The chapters that the first `n` documents of the spine give, in order.
pub open spec fn chapters_of(toc: Seq<TocEntry>, docs: Seq<Option<String>>, n: int) -> Seq<
    ChapterView,
>
    decreases n,
{
    if n <= 0 {
        seq![]
    } else {
        match chapter_of(toc, docs, n - 1) {
            Some(c) => chapters_of(toc, docs, n - 1).push(c),
            None => chapters_of(toc, docs, n - 1),
        }
    }
}

/// The title that a chapter at spine position `idx` gets from `toc`.
pub fn title_for(toc: &Vec<TocEntry>, idx: usize) -> (t: String)
    requires
        idx < usize::MAX,
    ensures
        t@ == chapter_title(toc@, idx as nat),
{
    let order = idx + 1;
    let mut j: usize = 0;
    assert(toc@.skip(0) =~= toc@);
    while j < toc.len()
        invariant
            j <= toc.len(),
            order == idx + 1,
            toc_label(toc@, order as nat) == toc_label(toc@.skip(j as int), order as nat),
        decreases toc.len() - j,
    {
        proof {
            assert(toc@.skip(j as int).drop_first() =~= toc@.skip(j + 1));
        }
        if toc[j].play_order == Some(order) {
            return toc[j].label.clone();
        }
        j = j + 1;
    }
    let mut t = String::from_str("Chapter ");
    push_decimal(&mut t, order);
    t
}

impl Book {
    /// Makes a book from what an EPUB document holds: its title and author, if
    /// given; its table of contents; and the HTML of each document of its
    /// spine, in spine order (`None` where a document could not be read).
    /// A document whose text is blank is skipped; with no chapter left, the
    /// book is refused.
    pub fn load(
        path: &str,
        title: Option<String>,
        author: Option<String>,
        toc: Vec<TocEntry>,
        docs: Vec<Option<String>>,
    ) -> (r: Result<Book, LoadError>)
        ensures
            chapters_of(toc@, docs@, docs.len() as int).len() == 0 <==> r is Err,
            r matches Err(e) ==> e == LoadError::NoReadableContent,
            r matches Ok(b) ==> {
                &&& b.path@ == path@
                &&& b.title@ == (match title {
                    Some(t) => t@,
                    None => "Unknown Title"@,
                })
                &&& b.author@ == (match author {
                    Some(a) => a@,
                    None => "Unknown Author"@,
                })
                &&& b.chapters.deep_view() == chapters_of(toc@, docs@, docs.len() as int)
            },
    {
        let book_title = match title {
            Some(t) => t,
            None => String::from_str("Unknown Title"),
        };
        let book_author = match author {
            Some(a) => a,
            None => String::from_str("Unknown Author"),
        };
        let mut chapters: Vec<Chapter> = Vec::new();
        let mut idx: usize = 0;
        while idx < docs.len()
            invariant
                idx <= docs.len(),
                chapters.deep_view() =~= chapters_of(toc@, docs@, idx as int),
            decreases docs.len() - idx,
        {
            match &docs[idx] {
                None => {},
                Some(html) => {
                    match html_to_text(html.as_str()) {
                        None => {},
                        Some(text) => {
                            if !is_blank_line(text.as_str()) {
                                let chapter_title = title_for(&toc, idx);
                                chapters.push(
                                    Chapter { title: chapter_title, content: text, spine_index: idx },
                                );
                            }
                        },
                    }
                },
            }
            proof {
                assert(chapters.deep_view() =~= chapters_of(toc@, docs@, idx + 1));
            }
            idx = idx + 1;
        }
        if chapters.len() == 0 {
            return Err(LoadError::NoReadableContent);
        }
        Ok(Book { title: book_title, author: book_author, path: String::from_str(path), chapters })
    }
}

/// Every chapter of a loaded book has text that is not blank, comes from a
/// document of the spine, and the chapters keep the spine's order.
pub proof fn law_chapters_have_text_in_spine_order(
    toc: Seq<TocEntry>,
    docs: Seq<Option<String>>,
    n: int,
)
    requires
        0 <= n <= docs.len(),
    ensures
        ({
            let chs = chapters_of(toc, docs, n);
            &&& forall|i: int| 0 <= i < chs.len() ==> !is_blank(#[trigger] chs[i].content)
            &&& forall|i: int| 0 <= i < chs.len() ==> #[trigger] chs[i].spine_index < n
            &&& forall|i: int, j: int|
                0 <= i < j < chs.len() ==> #[trigger] chs[i].spine_index
                    < #[trigger] chs[j].spine_index
        }),
    decreases n,
{
    if n > 0 {
        law_chapters_have_text_in_spine_order(toc, docs, n - 1);
        let prev = chapters_of(toc, docs, n - 1);
        let chs = chapters_of(toc, docs, n);
        match chapter_of(toc, docs, n - 1) {
            Some(c) => {
                assert(chs == prev.push(c));
                assert(!is_blank(c.content) && c.spine_index == n - 1);
                assert forall|i: int| 0 <= i < chs.len() implies !is_blank(
                    #[trigger] chs[i].content,
                ) && chs[i].spine_index < n by {
                    if i < prev.len() {
                        assert(chs[i] == prev[i]);
                    }
                }
                assert forall|i: int, j: int| 0 <= i < j < chs.len() implies #[trigger] chs[i].spine_index
                    < #[trigger] chs[j].spine_index by {
                    assert(chs[i] == prev[i]);
                    if j < prev.len() {
                        assert(chs[j] == prev[j]);
                    }
                }
            },
            None => {},
        }
    }
}

/// Each chapter of a loaded book holds the plain text of its document of the
/// spine and the title the table of contents gives it, and every document
/// whose plain text is not blank gives a chapter.
pub proof fn law_chapters_hold_document_text(
    toc: Seq<TocEntry>,
    docs: Seq<Option<String>>,
    n: int,
)
    requires
        0 <= n <= docs.len(),
    ensures
        ({
            let chs = chapters_of(toc, docs, n);
            &&& forall|i: int|
                0 <= i < chs.len() ==> {
                    let idx = (#[trigger] chs[i]).spine_index as int;
                    &&& idx < n
                    &&& docs[idx] is Some
                    &&& html_text(docs[idx]->0@) == Some(chs[i].content)
                    &&& chs[i].title == chapter_title(toc, idx as nat)
                }
            &&& forall|idx: int|
                0 <= idx < n && (#[trigger] docs[idx]) is Some && html_text(docs[idx]->0@) is Some
                    && !is_blank(html_text(docs[idx]->0@)->0) ==> exists|i: int|
                    0 <= i < chs.len() && chs[i].spine_index == idx
        }),
    decreases n,
{
    if n > 0 {
        law_chapters_hold_document_text(toc, docs, n - 1);
        let prev = chapters_of(toc, docs, n - 1);
        let chs = chapters_of(toc, docs, n);
        match chapter_of(toc, docs, n - 1) {
            Some(c) => {
                assert(chs == prev.push(c));
                assert forall|i: int| 0 <= i < chs.len() implies {
                    let idx = (#[trigger] chs[i]).spine_index as int;
                    &&& idx < n
                    &&& docs[idx] is Some
                    &&& html_text(docs[idx]->0@) == Some(chs[i].content)
                    &&& chs[i].title == chapter_title(toc, idx as nat)
                } by {
                    if i < prev.len() {
                        assert(chs[i] == prev[i]);
                    }
                }
                assert forall|idx: int|
                    0 <= idx < n && (#[trigger] docs[idx]) is Some && html_text(docs[idx]->0@) is Some
                        && !is_blank(html_text(docs[idx]->0@)->0) implies exists|i: int|
                    0 <= i < chs.len() && chs[i].spine_index == idx by {
                    if idx < n - 1 {
                        let i = choose|i: int| 0 <= i < prev.len() && prev[i].spine_index == idx;
                        assert(chs[i] == prev[i]);
                    } else {
                        assert(chs[prev.len() as int] == c);
                    }
                }
            },
            None => {
                assert(chs == prev);
            },
        }
    }
}

} // verus!
