//! Where the reader left each book: the chapter, the page and scroll
//! position, and whether the book is finished.
use vstd::prelude::*;
use crate::text::{chars_of, string_of, trim, trim_chars};
use crate::textmap::TextMap;

verus! {

broadcast use vstd::string::group_string_axioms;

/// The reading position in one book.
pub struct ReadingProgress {
    pub chapter_path: String,
    pub updated_ms: u64,
    pub completed: bool,
    pub page_index: Option<u32>,
    pub scroll_top: Option<u32>,
}

pub struct ProgressView {
    pub chapter_path: Seq<char>,
    pub updated_ms: u64,
    pub completed: bool,
    pub page_index: Option<u32>,
    pub scroll_top: Option<u32>,
}

pub open spec fn progress_view(p: ReadingProgress) -> ProgressView {
    ProgressView {
        chapter_path: p.chapter_path@,
        updated_ms: p.updated_ms,
        completed: p.completed,
        page_index: p.page_index,
        scroll_top: p.scroll_top,
    }
}

fn clone_progress(p: &ReadingProgress) -> (r: ReadingProgress)
    ensures
        progress_view(r) == progress_view(*p),
{
    ReadingProgress {
        chapter_path: p.chapter_path.clone(),
        updated_ms: p.updated_ms,
        completed: p.completed,
        page_index: p.page_index,
        scroll_top: p.scroll_top,
    }
}

/// The reading positions of the library's books, by book key.
pub struct ReadingProgressStore {
    pub books: TextMap<ReadingProgress>,
}

impl View for ReadingProgressStore {
    type V = Map<Seq<char>, ProgressView>;

    open spec fn view(&self) -> Map<Seq<char>, ProgressView> {
        self.books@.map_values(|p: ReadingProgress| progress_view(p))
    }
}

/// A chapter path that is empty once trimmed.
pub open spec fn is_blank(s: Seq<char>) -> bool {
    trim(s).len() == 0
}

pub fn is_blank_chapter_path(chapter_path: &str) -> (r: bool)
    ensures
        r == is_blank(chapter_path@),
{
    trim_chars(&chars_of(chapter_path)).len() == 0
}

/// The store after saving a position in `key`'s book: the chapter as
/// given, the page and scroll position, and whether the book was
/// finished before; nothing when the chapter path is blank.
pub open spec fn spec_save(
    m: Map<Seq<char>, ProgressView>,
    key: Seq<char>,
    chapter_path: Seq<char>,
    page_index: Option<u32>,
    scroll_top: Option<u32>,
    now_ms: u64,
) -> Option<Map<Seq<char>, ProgressView>> {
    if is_blank(chapter_path) {
        None
    } else {
        let completed = m.contains_key(key) && m[key].completed;
        Some(m.insert(key, ProgressView { chapter_path, updated_ms: now_ms, completed, page_index, scroll_top }))
    }
}

/// The store after marking `key`'s book finished or not: the chapter
/// given (trimmed) or else the one saved before, and the page and scroll
/// position saved before; nothing when there is no chapter either way.
pub open spec fn spec_set_completed(
    m: Map<Seq<char>, ProgressView>,
    key: Seq<char>,
    completed: bool,
    chapter_path: Option<Seq<char>>,
    now_ms: u64,
) -> Option<Map<Seq<char>, ProgressView>> {
    let given = match chapter_path {
        Some(c) => if trim(c).len() > 0 { Some(trim(c)) } else { None },
        None => None,
    };
    let next = if given is Some {
        given
    } else if m.contains_key(key) {
        Some(m[key].chapter_path)
    } else {
        None
    };
    match next {
        None => None,
        Some(c) => Some(m.insert(key, ProgressView {
            chapter_path: c,
            updated_ms: now_ms,
            completed,
            page_index: if m.contains_key(key) { m[key].page_index } else { None },
            scroll_top: if m.contains_key(key) { m[key].scroll_top } else { None },
        })),
    }
}

proof fn lemma_insert_view(m: Map<Seq<char>, ReadingProgress>, k: Seq<char>, p: ReadingProgress)
    ensures
        m.insert(k, p).map_values(|p: ReadingProgress| progress_view(p))
            == m.map_values(|p: ReadingProgress| progress_view(p)).insert(k, progress_view(p)),
{
    assert(m.insert(k, p).map_values(|p: ReadingProgress| progress_view(p))
        =~= m.map_values(|p: ReadingProgress| progress_view(p)).insert(k, progress_view(p)));
}

impl ReadingProgressStore {
    pub fn new() -> (r: ReadingProgressStore)
        ensures
            r@ == Map::<Seq<char>, ProgressView>::empty(),
    {
        let r = ReadingProgressStore { books: TextMap::new() };
        assert(r@ =~= Map::<Seq<char>, ProgressView>::empty());
        r
    }

    /// The position saved for `key`'s book.
    pub fn load(&self, key: &str) -> (r: Option<ReadingProgress>)
        ensures
            match r {
                Some(p) => self@.contains_key(key@) && progress_view(p) == self@[key@],
                None => !self@.contains_key(key@),
            },
    {
        match self.books.get(key) {
            Some(p) => Some(clone_progress(p)),
            None => None,
        }
    }

    pub fn save_reading_progress(
        &mut self,
        key: &str,
        chapter_path: &str,
        page_index: Option<u32>,
        scroll_top: Option<u32>,
        now_ms: u64,
    ) -> (r: Result<(), String>)
        ensures
            match spec_save(old(self)@, key@, chapter_path@, page_index, scroll_top, now_ms) {
                Some(m) => r is Ok && final(self)@ == m,
                None => r matches Err(m) && m@ == "chapter path must not be empty"@ && final(self)@ == old(self)@,
            },
    {
        if is_blank_chapter_path(chapter_path) {
            return Err(string_of(&chars_of("chapter path must not be empty")));
        }
        let completed = match self.books.get(key) {
            Some(p) => p.completed,
            None => false,
        };
        let p = ReadingProgress {
            chapter_path: string_of(&chars_of(chapter_path)),
            updated_ms: now_ms,
            completed,
            page_index,
            scroll_top,
        };
        proof { lemma_insert_view(self.books@, key@, p); }
        self.books.insert(string_of(&chars_of(key)), p);
        Ok(())
    }

    pub fn set_book_completed(
        &mut self,
        key: &str,
        completed: bool,
        chapter_path: Option<&str>,
        now_ms: u64,
    ) -> (r: Result<(), String>)
        ensures
            match spec_set_completed(old(self)@, key@, completed, match chapter_path { Some(c) => Some(c@), None => None }, now_ms) {
                Some(m) => r is Ok && final(self)@ == m,
                None => r matches Err(m) && m@ == "chapter path must not be empty"@ && final(self)@ == old(self)@,
            },
    {
        let existing = self.load(key);
        let given = match chapter_path {
            Some(c) => {
                let t = trim_chars(&chars_of(c));
                if t.len() > 0 { Some(string_of(&t)) } else { None }
            },
            None => None,
        };
        let next = match given {
            Some(g) => g,
            None => match &existing {
                Some(p) => p.chapter_path.clone(),
                None => return Err(string_of(&chars_of("chapter path must not be empty"))),
            },
        };
        let (page_index, scroll_top) = match &existing {
            Some(p) => (p.page_index, p.scroll_top),
            None => (None, None),
        };
        let p = ReadingProgress { chapter_path: next, updated_ms: now_ms, completed, page_index, scroll_top };
        proof { lemma_insert_view(self.books@, key@, p); }
        self.books.insert(string_of(&chars_of(key)), p);
        Ok(())
    }

    /// Forgets `key`'s book.
    pub fn remove_book(&mut self, key: &str)
        ensures
            final(self)@ == old(self)@.remove(key@),
    {
        let ghost before = self.books@;
        self.books.remove(key);
        assert(self@ =~= old(self)@.remove(key@));
    }

    /// The chapter to resume `key`'s book at, unless it is finished.
    pub fn progress_for(&self, key: &str) -> (r: Option<String>)
        ensures
            r matches Some(c) ==> self@.contains_key(key@) && !self@[key@].completed && c@ == self@[key@].chapter_path,
            r is None ==> !self@.contains_key(key@) || self@[key@].completed,
    {
        match self.books.get(key) {
            Some(p) => if p.completed { None } else { Some(p.chapter_path.clone()) },
            None => None,
        }
    }

    /// Whether `key`'s book is finished.
    pub fn completed_for(&self, key: &str) -> (r: bool)
        ensures
            r == (self@.contains_key(key@) && self@[key@].completed),
    {
        match self.books.get(key) {
            Some(p) => p.completed,
            None => false,
        }
    }

    /// Where the reader of `key`'s unfinished book stands among the
    /// book's chapters: the first one with the saved chapter path.
    pub fn progress_chapter_index(&self, key: &str, chapter_paths: &Vec<String>) -> (r: Option<usize>)
        ensures
            match r {
                Some(k) => self@.contains_key(key@) && !self@[key@].completed && k < chapter_paths@.len()
                    && chapter_paths@[k as int]@ == self@[key@].chapter_path
                    && forall|j: int| 0 <= j < k ==> (#[trigger] chapter_paths@[j])@ != self@[key@].chapter_path,
                None => !self@.contains_key(key@) || self@[key@].completed
                    || forall|j: int| 0 <= j < chapter_paths@.len() ==> (#[trigger] chapter_paths@[j])@ != self@[key@].chapter_path,
            },
    {
        let p = match self.books.get(key) {
            Some(p) => p,
            None => return None,
        };
        if p.completed {
            return None;
        }
        assert(self@[key@] == progress_view(*p));
        let mut i: usize = 0;
        while i < chapter_paths.len()
            invariant
                i <= chapter_paths@.len(),
                self@.contains_key(key@),
                progress_view(*p) == self@[key@],
                !self@[key@].completed,
                forall|j: int| 0 <= j < i ==> (#[trigger] chapter_paths@[j])@ != self@[key@].chapter_path,
            decreases chapter_paths@.len() - i,
        {
            if crate::text::str_eq(chapter_paths[i].as_str(), p.chapter_path.as_str()) {
                assert(chapter_paths@[i as int]@ == self@[key@].chapter_path);
                return Some(i);
            }
            i += 1;
        }
        None
    }
}

/// What was saved is what is loaded: after a successful save, the book's
/// entry holds the chapter, page and scroll position given, and keeps
/// whether the book was finished.
pub proof fn law_save_then_load(
    m: Map<Seq<char>, ProgressView>,
    key: Seq<char>,
    chapter_path: Seq<char>,
    page_index: Option<u32>,
    scroll_top: Option<u32>,
    now_ms: u64,
)
    requires
        !is_blank(chapter_path),
    ensures
        ({
            let after = spec_save(m, key, chapter_path, page_index, scroll_top, now_ms)->0;
            &&& spec_save(m, key, chapter_path, page_index, scroll_top, now_ms) is Some
            &&& after.contains_key(key)
            &&& after[key].chapter_path == chapter_path
            &&& after[key].page_index == page_index
            &&& after[key].scroll_top == scroll_top
            &&& after[key].completed == (m.contains_key(key) && m[key].completed)
            &&& forall|other: Seq<char>| other != key ==> after.contains_key(other) == m.contains_key(other)
                && (m.contains_key(other) ==> after[other] == m[other])
        }),
{
}

/// Marking a book finished, or not, keeps its page and scroll position,
/// and the chapter when none is given.
pub proof fn law_completion_keeps_position(
    m: Map<Seq<char>, ProgressView>,
    key: Seq<char>,
    completed: bool,
    chapter_path: Option<Seq<char>>,
    now_ms: u64,
)
    requires
        m.contains_key(key),
    ensures
        ({
            let after = spec_set_completed(m, key, completed, chapter_path, now_ms)->0;
            &&& spec_set_completed(m, key, completed, chapter_path, now_ms) is Some
            &&& after[key].completed == completed
            &&& after[key].page_index == m[key].page_index
            &&& after[key].scroll_top == m[key].scroll_top
            &&& chapter_path is None ==> after[key].chapter_path == m[key].chapter_path
        }),
{
}

/// A save after a book was marked finished keeps it finished; marking it
/// unfinished and saving keeps it unfinished.
pub proof fn law_save_keeps_completion(
    m: Map<Seq<char>, ProgressView>,
    key: Seq<char>,
    completed: bool,
    chapter_path: Seq<char>,
    page_index: Option<u32>,
    scroll_top: Option<u32>,
    t1: u64,
    t2: u64,
)
    requires
        !is_blank(chapter_path),
    ensures
        ({
            let marked = spec_set_completed(m, key, completed, Some(chapter_path), t1)->0;
            spec_save(marked, key, chapter_path, page_index, scroll_top, t2)->0[key].completed == completed
        }),
{
}

} // verus!
