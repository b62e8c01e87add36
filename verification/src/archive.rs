//! The two archives of a conversion: the files read out of the EPUB, and
//! the entries written into the Markdown archive.
use vstd::prelude::*;
use crate::text::{chars_of, string_of, append_chars, chars_eq_ignore_ascii_case, eq_ignore_ascii_case};
use crate::textmap::TextMap;
use crate::paths::{normalize_path, spec_normalize_path, map_backslashes, spec_extension, extension, last_pos, find_last_char, spec_stem_of_name};
use crate::assets::{entries_view, copy_bytes, AssetData, asset_view, asset_name_of, archive_asset_path};
use crate::conversion::{ConvertedBook, converted_ok, law_output_chapter_names_distinct, law_book_assets_well_named};
use crate::model::{OutputChapter, out_views};
use crate::book::{reader_style, spec_reader_style};
use crate::ConversionError;

verus! {

broadcast use vstd::string::group_string_axioms;

/// An entry of a zip archive as read: its name, whether it is a
/// directory, its bytes (`None` when they could not be read normally) and
/// what the reader reported then.
pub struct RawEntry {
    pub name: String,
    pub is_dir: bool,
    pub bytes: Option<Vec<u8>>,
    pub read_error: String,
}

/// The path a book file is known by: backslashes made slashes, then
/// normalised.
pub open spec fn entry_path(name: Seq<char>) -> Seq<char> {
    spec_normalize_path(map_backslashes(name))
}

/// The map after the pairs, a later pair replacing an earlier one.
pub open spec fn bytes_map(ps: Seq<(Seq<char>, Seq<u8>)>) -> Map<Seq<char>, Seq<u8>>
    decreases ps.len(),
{
    if ps.len() == 0 {
        Map::empty()
    } else {
        bytes_map(ps.drop_last()).insert(ps.last().0, ps.last().1)
    }
}

/// The files among the first `k` entries, by path.
pub open spec fn file_pairs(raw: Seq<RawEntry>, k: int) -> Seq<(Seq<char>, Seq<u8>)>
    decreases k,
{
    if k <= 0 || k > raw.len() {
        Seq::empty()
    } else {
        let rest = file_pairs(raw, k - 1);
        let e = raw[k - 1];
        if e.is_dir {
            rest
        } else {
            match e.bytes {
                Some(b) => rest.push((entry_path(e.name@), b@)),
                None => rest,
            }
        }
    }
}

/// A file entry whose bytes could not be read.
pub open spec fn unreadable(e: RawEntry) -> bool {
    !e.is_dir && e.bytes is None
}

/// Every file entry could be read.
pub open spec fn all_readable(raw: Seq<RawEntry>) -> bool {
    forall|i: int| 0 <= i < raw.len() ==> !unreadable(#[trigger] raw[i])
}

/// Where an EPUB declares that its content is encrypted.
pub open spec fn encryption_path() -> Seq<char> {
    "META-INF/encryption.xml"@
}

/// The files of a book from the entries of its archive: refused as
/// protected when a file cannot be read or the book declares encryption.
pub fn collect_epub_entries(raw: &Vec<RawEntry>) -> (r: Result<TextMap<Vec<u8>>, ConversionError>)
    ensures
        match r {
            Ok(m) => all_readable(raw@) && entries_view(m@) == bytes_map(file_pairs(raw@, raw@.len() as int))
                && !m@.contains_key(encryption_path()),
            Err(e) => e matches ConversionError::ProtectedEpub(m) && if all_readable(raw@) {
                bytes_map(file_pairs(raw@, raw@.len() as int)).contains_key(encryption_path())
                    && m@ == "META-INF/encryption.xml is present; DRM/protected content is unsupported"@
            } else {
                exists|i: int| 0 <= i < raw@.len() && #[trigger] unreadable(raw@[i])
                    && (forall|j: int| 0 <= j < i ==> !unreadable(#[trigger] raw@[j]))
                    && m@ == "resource could not be read normally: "@ + entry_path(raw@[i].name@)
                        + " ("@ + raw@[i].read_error@ + ")"@
            },
        },
{
    let mut entries: TextMap<Vec<u8>> = TextMap::new();
    assert(entries_view(entries@) =~= bytes_map(file_pairs(raw@, 0)));
    let mut i: usize = 0;
    while i < raw.len()
        invariant
            i <= raw@.len(),
            entries_view(entries@) == bytes_map(file_pairs(raw@, i as int)),
            forall|q: int| 0 <= q < i ==> !unreadable(#[trigger] raw@[q]),
        decreases raw@.len() - i,
    {
        let e = &raw[i];
        let ghost rest = file_pairs(raw@, i as int);
        if !e.is_dir {
            let mut name = chars_of(e.name.as_str());
            let mut k: usize = 0;
            let ghost unmapped = name@;
            while k < name.len()
                invariant
                    k <= name@.len(),
                    unmapped == e.name@,
                    name@.len() == unmapped.len(),
                    forall|q: int| 0 <= q < k ==> name@[q] == map_backslashes(unmapped)[q],
                    forall|q: int| k <= q < name@.len() ==> name@[q] == unmapped[q],
                decreases name@.len() - k,
            {
                if name[k] == '\\' {
                    name.set(k, '/');
                }
                k += 1;
            }
            assert(name@ =~= map_backslashes(unmapped));
            let path = normalize_path(string_of(&name).as_str());
            match &e.bytes {
                Some(b) => {
                    let bytes = copy_bytes(b);
                    let ghost pair = (path@, bytes@);
                    let ghost before = entries@;
                    entries.insert(path, bytes);
                    assert(entries_view(entries@) =~= entries_view(before).insert(pair.0, pair.1));
                    assert(file_pairs(raw@, i + 1) == rest.push(pair));
                    assert(rest.push(pair).drop_last() =~= rest);
                },
                None => {
                    let mut m = chars_of("resource could not be read normally: ");
                    append_chars(&mut m, &chars_of(path.as_str()));
                    append_chars(&mut m, &chars_of(" ("));
                    append_chars(&mut m, &chars_of(e.read_error.as_str()));
                    append_chars(&mut m, &chars_of(")"));
                    assert(unreadable(raw@[i as int]));
                    assert(!all_readable(raw@));
                    return Err(ConversionError::ProtectedEpub(string_of(&m)));
                },
            }
        }
        i += 1;
    }
    if entries.contains_key("META-INF/encryption.xml") {
        return Err(ConversionError::ProtectedEpub(string_of(&chars_of(
            "META-INF/encryption.xml is present; DRM/protected content is unsupported"))));
    }
    Ok(entries)
}

/// What an entry of the output archive holds.
pub enum ArchiveContent {
    Directory,
    Text(String),
    Bytes(Vec<u8>),
}

/// An entry of the output archive: its path and content.
pub struct ArchiveFile {
    pub path: String,
    pub content: ArchiveContent,
}

pub enum ContentView {
    Directory,
    Text(Seq<char>),
    Bytes(Seq<u8>),
}

pub open spec fn content_view(c: ArchiveContent) -> ContentView {
    match c {
        ArchiveContent::Directory => ContentView::Directory,
        ArchiveContent::Text(s) => ContentView::Text(s@),
        ArchiveContent::Bytes(b) => ContentView::Bytes(b@),
    }
}

pub open spec fn file_view(f: ArchiveFile) -> (Seq<char>, ContentView) {
    (f.path@, content_view(f.content))
}

/// The entries of the Markdown archive, in order: the `chapters/`
/// directory and each chapter, `README.md`, `metadata.json`,
/// `style.css`, the `assets/` directory and each asset.
pub open spec fn spec_archive_files(
    chapters: Seq<(Seq<char>, Seq<char>, Seq<char>)>,
    readme: Seq<char>,
    metadata: Seq<char>,
    assets: Seq<(Seq<char>, Seq<u8>)>,
) -> Seq<(Seq<char>, ContentView)> {
    seq![("chapters/"@, ContentView::Directory)]
        + chapters.map_values(|c: (Seq<char>, Seq<char>, Seq<char>)| ("chapters/"@ + c.0, ContentView::Text(c.2)))
        + seq![
            ("README.md"@, ContentView::Text(readme)),
            ("metadata.json"@, ContentView::Text(metadata)),
            ("style.css"@, ContentView::Text(spec_reader_style())),
            ("assets/"@, ContentView::Directory),
        ]
        + assets.map_values(|a: (Seq<char>, Seq<u8>)| (a.0, ContentView::Bytes(a.1)))
}

fn text(s: &str) -> (r: String)
    ensures
        r@ == s@,
{
    string_of(&chars_of(s))
}

pub fn archive_files(book: &ConvertedBook) -> (r: Vec<ArchiveFile>)
    ensures
        r@.map_values(|f: ArchiveFile| file_view(f)) == spec_archive_files(
            out_views(book.output_chapters@),
            book.readme@,
            book.metadata_json@,
            book.asset_mapper.copied_assets@.map_values(|a: AssetData| asset_view(a)),
        ),
{
    let ghost chapters = out_views(book.output_chapters@);
    let ghost assets = book.asset_mapper.copied_assets@.map_values(|a: AssetData| asset_view(a));
    let mut files: Vec<ArchiveFile> = Vec::new();
    files.push(ArchiveFile { path: text("chapters/"), content: ArchiveContent::Directory });
    let mut i: usize = 0;
    while i < book.output_chapters.len()
        invariant
            i <= book.output_chapters@.len(),
            chapters == out_views(book.output_chapters@),
            files@.map_values(|f: ArchiveFile| file_view(f)) == seq![("chapters/"@, ContentView::Directory)]
                + chapters.take(i as int).map_values(|c: (Seq<char>, Seq<char>, Seq<char>)| ("chapters/"@ + c.0, ContentView::Text(c.2))),
        decreases book.output_chapters@.len() - i,
    {
        let c = &book.output_chapters[i];
        let mut path = chars_of("chapters/");
        append_chars(&mut path, &chars_of(c.file_name.as_str()));
        let ghost before = files@.map_values(|f: ArchiveFile| file_view(f));
        let f = ArchiveFile { path: string_of(&path), content: ArchiveContent::Text(c.markdown.clone()) };
        files.push(f);
        assert(files@.map_values(|f: ArchiveFile| file_view(f)) =~= before.push(file_view(f)));
        assert(chapters.take(i + 1) =~= chapters.take(i as int).push(chapters[i as int]));
        assert(chapters.take(i + 1).map_values(|c: (Seq<char>, Seq<char>, Seq<char>)| ("chapters/"@ + c.0, ContentView::Text(c.2)))
            =~= chapters.take(i as int).map_values(|c: (Seq<char>, Seq<char>, Seq<char>)| ("chapters/"@ + c.0, ContentView::Text(c.2)))
                .push(file_view(f)));
        i += 1;
    }
    assert(chapters.take(chapters.len() as int) =~= chapters);
    let ghost head = files@.map_values(|f: ArchiveFile| file_view(f));
    files.push(ArchiveFile { path: text("README.md"), content: ArchiveContent::Text(book.readme.clone()) });
    files.push(ArchiveFile { path: text("metadata.json"), content: ArchiveContent::Text(book.metadata_json.clone()) });
    files.push(ArchiveFile { path: text("style.css"), content: ArchiveContent::Text(text(reader_style())) });
    files.push(ArchiveFile { path: text("assets/"), content: ArchiveContent::Directory });
    let ghost middle = seq![
        ("README.md"@, ContentView::Text(book.readme@)),
        ("metadata.json"@, ContentView::Text(book.metadata_json@)),
        ("style.css"@, ContentView::Text(spec_reader_style())),
        ("assets/"@, ContentView::Directory),
    ];
    assert(files@.map_values(|f: ArchiveFile| file_view(f)) =~= head + middle);
    let ghost upto = head + middle;
    let mut k: usize = 0;
    while k < book.asset_mapper.copied_assets.len()
        invariant
            k <= book.asset_mapper.copied_assets@.len(),
            assets == book.asset_mapper.copied_assets@.map_values(|a: AssetData| asset_view(a)),
            files@.map_values(|f: ArchiveFile| file_view(f))
                == upto + assets.take(k as int).map_values(|a: (Seq<char>, Seq<u8>)| (a.0, ContentView::Bytes(a.1))),
        decreases book.asset_mapper.copied_assets@.len() - k,
    {
        let a = &book.asset_mapper.copied_assets[k];
        let ghost before = files@.map_values(|f: ArchiveFile| file_view(f));
        let f = ArchiveFile { path: a.path.clone(), content: ArchiveContent::Bytes(copy_bytes(&a.bytes)) };
        files.push(f);
        assert(files@.map_values(|f: ArchiveFile| file_view(f)) =~= before.push(file_view(f)));
        assert(assets[k as int] == asset_view(*a));
        assert(assets.take(k + 1).map_values(|a: (Seq<char>, Seq<u8>)| (a.0, ContentView::Bytes(a.1)))
            =~= assets.take(k as int).map_values(|a: (Seq<char>, Seq<u8>)| (a.0, ContentView::Bytes(a.1))).push(file_view(f)));
        k += 1;
    }
    assert(assets.take(assets.len() as int) =~= assets);
    files
}


/// The path without the trailing separators and `.` components that
/// `Path` skips when it reads the last component.
pub open spec fn trim_path_tail(s: Seq<char>) -> Seq<char>
    decreases s.len(),
{
    if s.len() > 0 && s.last() == '/' {
        trim_path_tail(s.drop_last())
    } else if s.len() >= 2 && s.last() == '.' && s[s.len() - 2] == '/' {
        trim_path_tail(s.drop_last())
    } else {
        s
    }
}

/// `Path::with_extension("zip")`: the part up to the file stem, then
/// `.zip`; a path without a file name is left as it is.
pub open spec fn spec_with_zip_extension(s: Seq<char>) -> Seq<char> {
    let t = trim_path_tail(s);
    let start = last_pos(t, '/') + 1;
    let name = t.skip(start);
    if name.len() == 0 || name == "."@ || name == ".."@ {
        s
    } else {
        t.take(start) + spec_stem_of_name(name) + ".zip"@
    }
}

/// A destination that already names a Markdown archive: extension `zip`
/// or `zmd`, in any case.
pub open spec fn is_archive_extension(s: Seq<char>) -> bool {
    match spec_extension(s) {
        Some(e) => eq_ignore_ascii_case(e, "zip"@) || eq_ignore_ascii_case(e, "zmd"@),
        None => false,
    }
}

/// The archive path for a requested destination: kept when it ends in
/// `.zip` or `.zmd`, else given the extension `zip`.
pub open spec fn spec_archive_destination(s: Seq<char>) -> Seq<char> {
    if is_archive_extension(s) { s } else { spec_with_zip_extension(s) }
}

/// `Path::with_extension("zip")` on a `/`-separated path.
pub fn with_zip_extension(path: &str) -> (r: String)
    ensures
        r@ == spec_with_zip_extension(path@),
{
    let v = chars_of(path);
    let mut end = v.len();
    assert(v@.take(end as int) =~= v@);
    while end > 0 && (v[end - 1] == '/' || (end >= 2 && v[end - 1] == '.' && v[end - 2] == '/'))
        invariant
            end <= v@.len(),
            v@ == path@,
            trim_path_tail(v@.take(end as int)) == trim_path_tail(v@),
        decreases end,
    {
        assert(v@.take(end as int).drop_last() =~= v@.take(end - 1));
        end -= 1;
    }
    let t = crate::text::sub_chars(&v, 0, end);
    assert(t@ =~= v@.take(end as int));
    assert(trim_path_tail(t@) == t@);
    let start = match find_last_char(&t, '/') {
        Some(k) => k + 1,
        None => 0,
    };
    let name = crate::text::sub_chars(&t, start, t.len());
    assert(name@ =~= t@.skip(start as int));
    proof {
        reveal_strlit(".");
        reveal_strlit("..");
        reveal_strlit(".zip");
    }
    let is_dot = name.len() == 1 && name[0] == '.';
    let is_dot_dot = name.len() == 2 && name[0] == '.' && name[1] == '.';
    if name.len() == 0 || is_dot || is_dot_dot {
        proof {
            if is_dot {
                assert(name@ =~= "."@);
            }
            if is_dot_dot {
                assert(name@ =~= ".."@);
            }
        }
        return string_of(&v);
    }
    assert(name@ != "."@) by {
        if name@ == "."@ {
            assert(name@.len() == 1 && name@[0] == '.');
        }
    }
    assert(name@ != ".."@) by {
        if name@ == ".."@ {
            assert(name@.len() == 2 && name@[0] == '.' && name@[1] == '.');
        }
    }
    let mut out = crate::text::sub_chars(&t, 0, start);
    let stem_len = match find_last_char(&name, '.') {
        Some(k) => if k == 0 { name.len() } else { k },
        None => name.len(),
    };
    let stem = crate::text::sub_chars(&name, 0, stem_len);
    assert(stem@ =~= spec_stem_of_name(name@));
    append_chars(&mut out, &stem);
    append_chars(&mut out, &chars_of(".zip"));
    string_of(&out)
}

/// The path the Markdown archive is written to.
pub fn archive_destination(output: &str) -> (r: String)
    ensures
        r@ == spec_archive_destination(output@),
{
    proof {
        reveal_strlit("zip");
        reveal_strlit("zmd");
    }
    let supported = match extension(output) {
        Some(e) => chars_eq_ignore_ascii_case(&e, &chars_of("zip")) || chars_eq_ignore_ascii_case(&e, &chars_of("zmd")),
        None => false,
    };
    if supported {
        string_of(&chars_of(output))
    } else {
        with_zip_extension(output)
    }
}


/// The first character of each kind of path in the archive.
spec fn path_class(c: int, i: int) -> char {
    if i <= c { 'c' } else if i == c + 1 { 'R' } else if i == c + 2 { 'm' } else if i == c + 3 { 's' } else { 'a' }
}

#[verifier::rlimit(30)]
proof fn lemma_archive_paths_distinct(
    chs: Seq<(Seq<char>, Seq<char>, Seq<char>)>,
    readme: Seq<char>,
    metadata: Seq<char>,
    assets: Seq<(Seq<char>, Seq<u8>)>,
)
    requires
        forall|i: int, j: int| 0 <= i < j < chs.len() ==> (#[trigger] chs[i]).0 != (#[trigger] chs[j]).0,
        forall|k: int| 0 <= k < chs.len() ==> (#[trigger] chs[k]).0.len() > 0,
        forall|i: int, j: int| 0 <= i < j < assets.len() ==> (#[trigger] assets[i]).0 != (#[trigger] assets[j]).0,
        forall|k: int| 0 <= k < assets.len() ==> (#[trigger] assets[k]).0 == archive_asset_path(asset_name_of(assets[k].0))
            && asset_name_of(assets[k].0).len() > 0,
    ensures
        paths_distinct(spec_archive_files(chs, readme, metadata, assets)),
{
    reveal_strlit("chapters/");
    reveal_strlit("README.md");
    reveal_strlit("metadata.json");
    reveal_strlit("style.css");
    reveal_strlit("assets/");
    let files = spec_archive_files(chs, readme, metadata, assets);
    let c = chs.len() as int;
    let n = assets.len() as int;
    assert(files.len() == c + n + 5);
    assert forall|k: int| 0 <= k < c implies #[trigger] files[k + 1].0 == "chapters/"@ + chs[k].0 by {}
    assert forall|k: int| 0 <= k < n implies #[trigger] files[c + 5 + k].0 == assets[k].0 by {}
    assert forall|i: int| 0 <= i < files.len() implies (#[trigger] files[i]).0.len() > 0 && files[i].0[0] == path_class(c, i) by {
        if 1 <= i <= c {
            assert(files[(i - 1) + 1].0 == "chapters/"@ + chs[i - 1].0);
        } else if i >= c + 5 {
            assert(files[c + 5 + (i - c - 5)].0 == assets[i - c - 5].0);
            assert(assets[i - c - 5].0 == archive_asset_path(asset_name_of(assets[i - c - 5].0)));
        }
    }
    assert forall|i: int, j: int| 0 <= i < j < files.len() implies (#[trigger] files[i]).0 != (#[trigger] files[j]).0 by {
        if path_class(c, i) != path_class(c, j) {
            assert(files[i].0[0] != files[j].0[0]);
        } else if 1 <= i && j <= c {
            let (x, y) = (chs[i - 1].0, chs[j - 1].0);
            assert(files[(i - 1) + 1].0 == "chapters/"@ + x);
            assert(files[(j - 1) + 1].0 == "chapters/"@ + y);
            if files[i].0 == files[j].0 {
                assert(("chapters/"@ + x).skip(9) =~= x);
                assert(("chapters/"@ + y).skip(9) =~= y);
            }
        } else if i == 0 {
            assert(files[(j - 1) + 1].0 == "chapters/"@ + chs[j - 1].0);
        } else if c + 5 <= i {
            assert(files[c + 5 + (i - c - 5)].0 == assets[i - c - 5].0);
            assert(files[c + 5 + (j - c - 5)].0 == assets[j - c - 5].0);
        } else {
            assert(i == c + 4);
            assert(files[c + 5 + (j - c - 5)].0 == assets[j - c - 5].0);
            assert(assets[j - c - 5].0 == archive_asset_path(asset_name_of(assets[j - c - 5].0)));
        }
    }
}

/// No two of the entries share a path.
pub open spec fn paths_distinct(files: Seq<(Seq<char>, ContentView)>) -> bool {
    forall|i: int, j: int| 0 <= i < j < files.len() ==> (#[trigger] files[i]).0 != (#[trigger] files[j]).0
}

/// The Markdown archive of a converted book never holds two entries
/// under one path.
pub proof fn law_archive_paths_distinct(b: ConvertedBook, ev: Map<Seq<char>, Seq<u8>>)
    requires
        converted_ok(b, ev),
    ensures
        paths_distinct(spec_archive_files(out_views(b.output_chapters@), b.readme@, b.metadata_json@, b.asset_mapper@.assets)),
{
    law_output_chapter_names_distinct(b, ev);
    law_book_assets_well_named(b, ev);
    let chs = out_views(b.output_chapters@);
    let m = b.asset_mapper@;
    assert forall|k: int| 0 <= k < chs.len() implies (#[trigger] chs[k]).0 == b.output_chapters@[k].file_name@ by {}
    assert forall|i: int, j: int| 0 <= i < j < chs.len() implies (#[trigger] chs[i]).0 != (#[trigger] chs[j]).0 by {
        assert(b.output_chapters@[i].file_name@ != b.output_chapters@[j].file_name@);
    }
    assert forall|k: int| 0 <= k < chs.len() implies (#[trigger] chs[k]).0.len() > 0 by {
        assert(b.output_chapters@[k].file_name@.len() > 0);
    }
    lemma_archive_paths_distinct(chs, b.readme@, b.metadata_json@, m.assets);
}

} // verus!
