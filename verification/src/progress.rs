use vstd::prelude::*;

verus! {

/// Where a reader stood in a book.
#[derive(Debug, Clone, Copy)]
pub struct BookProgress {
    pub chapter_index: usize,
    pub scroll_offset: usize,
}

/// The map that a list of (book path, progress) entries stands for; a later
/// entry for a path wins over an earlier one.
pub open spec fn progress_map(entries: Seq<(String, BookProgress)>) -> Map<Seq<char>, BookProgress>
    decreases entries.len(),
{
    if entries.len() == 0 {
        Map::empty()
    } else {
        progress_map(entries.drop_last()).insert(entries.last().0@, entries.last().1)
    }
}

/// No book path occurs twice among `entries`.
pub open spec fn paths_distinct(entries: Seq<(String, BookProgress)>) -> bool {
    forall|i: int, j: int|
        0 <= i < j < entries.len() ==> #[trigger] entries[i].0@ != #[trigger] entries[j].0@
}

/// The reading progress of each book, kept by book path, and the file it is
/// kept in.
pub struct ProgressManager {
    store_path: String,
    books: Vec<(String, BookProgress)>,
}

proof fn lemma_map_has_entry(entries: Seq<(String, BookProgress)>, i: int)
    requires
        paths_distinct(entries),
        0 <= i < entries.len(),
    ensures
        progress_map(entries).contains_key(entries[i].0@),
        progress_map(entries)[entries[i].0@] == entries[i].1,
    decreases entries.len(),
{
    if i < entries.len() - 1 {
        lemma_map_has_entry(entries.drop_last(), i);
    }
}

proof fn lemma_map_lacks(entries: Seq<(String, BookProgress)>, key: Seq<char>)
    requires
        forall|i: int| 0 <= i < entries.len() ==> #[trigger] entries[i].0@ != key,
    ensures
        !progress_map(entries).contains_key(key),
    decreases entries.len(),
{
    if entries.len() > 0 {
        lemma_map_lacks(entries.drop_last(), key);
    }
}

proof fn lemma_map_update(
    entries: Seq<(String, BookProgress)>,
    i: int,
    entry: (String, BookProgress),
)
    requires
        paths_distinct(entries),
        0 <= i < entries.len(),
        entries[i].0@ == entry.0@,
    ensures
        progress_map(entries.update(i, entry)) == progress_map(entries).insert(entry.0@, entry.1),
    decreases entries.len(),
{
    let updated = entries.update(i, entry);
    if i == entries.len() - 1 {
        assert(updated.drop_last() =~= entries.drop_last());
        assert(progress_map(updated) =~= progress_map(entries).insert(entry.0@, entry.1));
    } else {
        assert(updated.drop_last() =~= entries.drop_last().update(i, entry));
        lemma_map_update(entries.drop_last(), i, entry);
        assert(entries[i].0@ != entries.last().0@);
        assert(progress_map(updated) =~= progress_map(entries).insert(entry.0@, entry.1));
    }
}

/// Sets the progress of `path` in the entry list `books`.
fn put_entry(books: &mut Vec<(String, BookProgress)>, path: String, progress: BookProgress)
    requires
        paths_distinct(old(books)@),
    ensures
        paths_distinct(final(books)@),
        progress_map(final(books)@) == progress_map(old(books)@).insert(path@, progress),
{
    let mut i: usize = 0;
    while i < books.len()
        invariant
            i <= books.len(),
            books@ == old(books)@,
            paths_distinct(old(books)@),
            forall|j: int| 0 <= j < i ==> #[trigger] books@[j].0@ != path@,
        decreases books.len() - i,
    {
        if books[i].0 == path {
            proof {
                lemma_map_update(books@, i as int, (path, progress));
            }
            books.set(i, (path, progress));
            proof {
                assert forall|a: int, b: int| 0 <= a < b < books@.len() implies #[trigger] books@[a].0@
                    != #[trigger] books@[b].0@ by {
                    assert(old(books)@[a].0@ != old(books)@[b].0@);
                }
            }
            return;
        }
        i = i + 1;
    }
    let ghost before = books@;
    books.push((path, progress));
    proof {
        assert(books@.drop_last() =~= before);
        assert forall|a: int, b: int| 0 <= a < b < books@.len() implies #[trigger] books@[a].0@
            != #[trigger] books@[b].0@ by {
            if b < before.len() {
                assert(before[a].0@ != before[b].0@);
            }
        }
    }
}

impl ProgressManager {
    #[verifier::type_invariant]
    spec fn wf(self) -> bool {
        paths_distinct(self.books@)
    }

    /// The progress of each book, by book path.
    pub closed spec fn view(&self) -> Map<Seq<char>, BookProgress> {
        progress_map(self.books@)
    }

    /// The path of the file that the progress is kept in.
    pub closed spec fn path_spec(&self) -> Seq<char> {
        self.store_path@
    }

    /// A manager that keeps its progress in the file `store_path` and starts
    /// from the entries read from it (a later entry for a path wins).
    pub fn new(store_path: String, entries: Vec<(String, BookProgress)>) -> (m: Self)
        ensures
            m@ == progress_map(entries@),
            m.path_spec() == store_path@,
    {
        let mut books: Vec<(String, BookProgress)> = Vec::new();
        let mut i: usize = 0;
        while i < entries.len()
            invariant
                i <= entries.len(),
                paths_distinct(books@),
                progress_map(books@) == progress_map(entries@.take(i as int)),
            decreases entries.len() - i,
        {
            put_entry(&mut books, entries[i].0.clone(), entries[i].1);
            proof {
                assert(entries@.take(i + 1).drop_last() =~= entries@.take(i as int));
            }
            i = i + 1;
        }
        assert(entries@.take(entries.len() as int) =~= entries@);
        ProgressManager { store_path, books }
    }

    /// The saved progress of the book at `book_path`, if there is one.
    pub fn get(&self, book_path: &str) -> (r: Option<BookProgress>)
        ensures
            r == (if self@.contains_key(book_path@) {
                Some(self@[book_path@])
            } else {
                None
            }),
    {
        proof {
            use_type_invariant(self);
        }
        let key = String::from_str(book_path);
        let mut i: usize = 0;
        while i < self.books.len()
            invariant
                i <= self.books.len(),
                key@ == book_path@,
                paths_distinct(self.books@),
                forall|j: int| 0 <= j < i ==> #[trigger] self.books@[j].0@ != key@,
            decreases self.books.len() - i,
        {
            if self.books[i].0 == key {
                proof {
                    lemma_map_has_entry(self.books@, i as int);
                }
                return Some(self.books[i].1);
            }
            i = i + 1;
        }
        proof {
            lemma_map_lacks(self.books@, key@);
        }
        None
    }

    /// Records `progress` as the progress of the book at `book_path`, in
    /// place of any progress saved for it before.
    pub fn save(&mut self, book_path: &str, progress: BookProgress)
        ensures
            final(self)@ == old(self)@.insert(book_path@, progress),
            final(self).path_spec() == old(self).path_spec(),
    {
        proof {
            use_type_invariant(&*self);
        }
        let mut books: Vec<(String, BookProgress)> = Vec::new();
        std::mem::swap(&mut books, &mut self.books);
        put_entry(&mut books, String::from_str(book_path), progress);
        self.books = books;
    }

    /// The path of the file that the progress is kept in.
    pub fn store_path(&self) -> (p: &str)
        ensures
            p@ == self.path_spec(),
    {
        self.store_path.as_str()
    }

    /// The saved entries, one per book path.
    pub fn entries(&self) -> (e: &Vec<(String, BookProgress)>)
        ensures
            progress_map(e@) == self@,
            paths_distinct(e@),
    {
        proof {
            use_type_invariant(self);
        }
        &self.books
    }
}

/// What `get` gives for `path` from a view of saved progress.
pub open spec fn saved_progress(view: Map<Seq<char>, BookProgress>, path: Seq<char>) -> Option<
    BookProgress,
> {
    if view.contains_key(path) {
        Some(view[path])
    } else {
        None
    }
}

/// Reading back what was saved: after `save(path, p)`, `get(path)` gives `p`,
/// and `get` of any other path gives what it gave before.
pub proof fn law_get_after_save(
    view: Map<Seq<char>, BookProgress>,
    path: Seq<char>,
    progress: BookProgress,
    other: Seq<char>,
)
    ensures
        saved_progress(view.insert(path, progress), path) == Some(progress),
        other != path ==> saved_progress(view.insert(path, progress), other) == saved_progress(
            view,
            other,
        ),
{
}

/// The progress view after saving each of `saves` in turn, from `view`.
pub open spec fn after_saves(
    view: Map<Seq<char>, BookProgress>,
    saves: Seq<(Seq<char>, BookProgress)>,
) -> Map<Seq<char>, BookProgress>
    decreases saves.len(),
{
    if saves.len() == 0 {
        view
    } else {
        after_saves(view, saves.drop_last()).insert(saves.last().0, saves.last().1)
    }
}

/// Reading back after any number of saves: `get(path)` gives what the last
/// save for `path` saved, and where no save was for `path`, what it gave before.
pub proof fn law_get_after_saves(
    view: Map<Seq<char>, BookProgress>,
    saves: Seq<(Seq<char>, BookProgress)>,
    path: Seq<char>,
    k: int,
)
    ensures
        0 <= k < saves.len() && saves[k].0 == path && (forall|m: int|
            k < m < saves.len() ==> #[trigger] saves[m].0 != path) ==> saved_progress(
            after_saves(view, saves),
            path,
        ) == Some(saves[k].1),
        (forall|m: int| 0 <= m < saves.len() ==> #[trigger] saves[m].0 != path) ==> saved_progress(
            after_saves(view, saves),
            path,
        ) == saved_progress(view, path),
    decreases saves.len(),
{
    if saves.len() > 0 {
        let front = saves.drop_last();
        law_get_after_saves(view, front, path, k);
        assert forall|m: int| 0 <= m < front.len() implies #[trigger] front[m] == saves[m] by {}
    }
}

} // verus!
