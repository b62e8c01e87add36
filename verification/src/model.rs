//! The data that a conversion works on.
use vstd::prelude::*;
use crate::textmap::TextMap;

verus! {

/// An item of the OPF manifest.
pub struct ManifestItem {
    pub href: String,
    pub media_type: String,
    pub absolute_path: String,
    pub properties: String,
}

/// One entry of the book's navigation (table of contents).
pub struct NavPoint {
    pub title: String,
    pub epub_path: String,
    pub fragment: Option<String>,
    pub depth: usize,
}

/// Where a logical chapter starts: a spine document and maybe an anchor.
pub struct NavTarget {
    pub spine_index: usize,
    pub fragment: Option<String>,
}

/// A chapter of the output cut along the navigation rather than along
/// the spine documents.
pub struct LogicalChapterSegment {
    pub title: String,
    pub file_name: String,
    pub nav_index: usize,
    pub start: NavTarget,
}

/// A spine document with its bytes, its chapter file name and its title.
pub struct ChapterData {
    pub item: ManifestItem,
    pub data: Vec<u8>,
    pub file_name: String,
    pub title: Option<String>,
}

/// The book's metadata from the OPF package.
pub struct Metadata {
    pub title: String,
    pub creators: Vec<String>,
    pub language: Option<String>,
    pub publisher: Option<String>,
    pub date: Option<String>,
    pub identifier: Option<String>,
}

/// The OPF package: title, manifest (by id), spine, metadata, navigation
/// and the cover image's path.
pub struct EpubPackage {
    pub title: String,
    pub manifest: TextMap<ManifestItem>,
    pub spine: Vec<ManifestItem>,
    pub metadata: Metadata,
    pub nav_points: Vec<NavPoint>,
    pub cover_image_path: Option<String>,
}

/// A chapter of the output: file name, title and Markdown.
pub struct OutputChapter {
    pub file_name: String,
    pub title: String,
    pub markdown: String,
}

/// An output chapter as plain values: file name, title, Markdown.
pub open spec fn out_view(c: OutputChapter) -> (Seq<char>, Seq<char>, Seq<char>) {
    (c.file_name@, c.title@, c.markdown@)
}

pub open spec fn out_views(s: Seq<OutputChapter>) -> Seq<(Seq<char>, Seq<char>, Seq<char>)> {
    s.map_values(|c: OutputChapter| out_view(c))
}

pub open spec fn opt_view(o: Option<String>) -> Option<Seq<char>> {
    match o {
        Some(s) => Some(s@),
        None => None,
    }
}

pub fn clone_opt_string(o: &Option<String>) -> (r: Option<String>)
    ensures
        opt_view(r) == opt_view(*o),
{
    match o {
        Some(s) => Some(s.clone()),
        None => None,
    }
}

pub fn clone_nav_target(t: &NavTarget) -> (r: NavTarget)
    ensures
        r.spine_index == t.spine_index,
        opt_view(r.fragment) == opt_view(t.fragment),
{
    NavTarget { spine_index: t.spine_index, fragment: clone_opt_string(&t.fragment) }
}

/// Whether two optional strings are equal.
pub fn opt_string_eq(a: &Option<String>, b: &Option<String>) -> (r: bool)
    ensures
        r == (opt_view(*a) == opt_view(*b)),
{
    match a {
        Some(x) => match b {
            Some(y) => x.eq(y),
            None => false,
        },
        None => b.is_none(),
    }
}


/// A segment as plain values.
pub struct SegmentView {
    pub title: Seq<char>,
    pub file_name: Seq<char>,
    pub nav_index: nat,
    pub spine_index: nat,
    pub fragment: Option<Seq<char>>,
}

pub open spec fn seg_view(s: LogicalChapterSegment) -> SegmentView {
    SegmentView {
        title: s.title@,
        file_name: s.file_name@,
        nav_index: s.nav_index as nat,
        spine_index: s.start.spine_index as nat,
        fragment: opt_view(s.start.fragment),
    }
}

pub open spec fn seg_views(s: Seq<LogicalChapterSegment>) -> Seq<SegmentView> {
    s.map_values(|x: LogicalChapterSegment| seg_view(x))
}

pub fn clone_segment(s: &LogicalChapterSegment) -> (r: LogicalChapterSegment)
    ensures
        seg_view(r) == seg_view(*s),
{
    LogicalChapterSegment {
        title: s.title.clone(),
        file_name: s.file_name.clone(),
        nav_index: s.nav_index,
        start: clone_nav_target(&s.start),
    }
}

pub fn clone_segments(v: &Vec<LogicalChapterSegment>) -> (r: Vec<LogicalChapterSegment>)
    ensures
        seg_views(r@) == seg_views(v@),
{
    let mut r: Vec<LogicalChapterSegment> = Vec::new();
    let mut i: usize = 0;
    while i < v.len()
        invariant
            i <= v.len(),
            r.len() == i,
            seg_views(r@) == seg_views(v@.take(i as int)),
        decreases v.len() - i,
    {
        let ghost before = r@;
        let c = clone_segment(&v[i]);
        r.push(c);
        assert(r@ =~= before.push(c));
        assert(v@.take(i + 1) =~= v@.take(i as int).push(v@[i as int]));
        assert(seg_views(r@) =~= seg_views(v@.take(i + 1))) by {
            assert forall|k: int| 0 <= k < i + 1 implies seg_views(r@)[k] == seg_views(v@.take(i + 1))[k] by {
                if k < i {
                    assert(seg_views(before)[k] == seg_views(v@.take(i as int))[k]);
                }
            }
        }
        i += 1;
    }
    assert(v@.take(v.len() as int) =~= v@);
    r
}

} // verus!
