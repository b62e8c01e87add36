use epubmd::archive::{
    archive_destination, archive_files, collect_epub_entries, with_zip_extension, ArchiveContent, ArchiveFile,
    RawEntry,
};
use epubmd::conversion::convert_epub_entries;
use epubmd::ConversionError;

fn entry(name: &str, bytes: &[u8]) -> RawEntry {
    RawEntry { name: name.to_string(), is_dir: false, bytes: Some(bytes.to_vec()), read_error: String::new() }
}

fn convert(raw: Vec<RawEntry>) -> Result<Vec<ArchiveFile>, ConversionError> {
    let entries = collect_epub_entries(&raw)?;
    let book = convert_epub_entries(&entries)?;
    Ok(archive_files(&book))
}

fn find<'a>(files: &'a [ArchiveFile], path: &str) -> Option<&'a ArchiveFile> {
    files.iter().find(|file| file.path == path)
}

fn text(files: &[ArchiveFile], path: &str) -> String {
    match &find(files, path).expect("archive entry").content {
        ArchiveContent::Text(text) => text.clone(),
        _ => panic!("not a text entry: {path}"),
    }
}

fn chapter_names(files: &[ArchiveFile]) -> Vec<String> {
    files
        .iter()
        .filter(|file| file.path.starts_with("chapters/") && file.path.ends_with(".md"))
        .map(|file| file.path.clone())
        .collect()
}

const CONTAINER: &[u8] = br#"<?xml version="1.0" encoding="UTF-8"?>
<container version="1.0" xmlns="urn:oasis:names:tc:opendocument:xmlns:container">
  <rootfiles><rootfile full-path="OEBPS/content.opf" media-type="application/oebps-package+xml"/></rootfiles>
</container>"#;

fn sample_epub(declare_asset: bool, include_asset: bool, parent_ref: bool) -> Vec<RawEntry> {
    let item = if declare_asset {
        if parent_ref {
            r#"<item id="img" href="media/pic.png" media-type="image/png"/>"#
        } else {
            r#"<item id="img" href="images/pic.png" media-type="image/png"/>"#
        }
    } else {
        ""
    };
    let opf = format!(
        r#"<?xml version="1.0" encoding="UTF-8"?>
<package xmlns:dc="http://purl.org/dc/elements/1.1/">
  <metadata><dc:title>Sample Book</dc:title><dc:creator>Jane Author</dc:creator><dc:language>en</dc:language></metadata>
  <manifest>
    <item id="chap1" href="text/chapter1.xhtml" media-type="application/xhtml+xml"/>
    <item id="chap2" href="text/chapter2.xhtml" media-type="application/xhtml+xml"/>
    {item}
  </manifest>
  <spine><itemref idref="chap1"/><itemref idref="chap2"/></spine>
</package>"#
    );
    let src = if parent_ref { "../media/pic.png" } else { "../images/pic.png" };
    let chapter1 = format!(
        r#"<?xml version="1.0" encoding="UTF-8"?>
<!DOCTYPE html>
<html xmlns="http://www.w3.org/1999/xhtml"><body>
<h1>Opening Chapter</h1><p>Opening Chapter</p>
<p>Hello <strong>reader</strong>. <a href="chapter2.xhtml#next">Second</a>.</p>
<p><img src="{src}" alt="Picture"/></p>
</body></html>"#
    );
    let mut entries = vec![
        entry("META-INF/container.xml", CONTAINER),
        entry("OEBPS/content.opf", opf.as_bytes()),
        entry("OEBPS/text/chapter1.xhtml", chapter1.as_bytes()),
        entry(
            "OEBPS/text/chapter2.xhtml",
            br#"<?xml version="1.0" encoding="UTF-8"?>
<html xmlns="http://www.w3.org/1999/xhtml"><body><h1 id="next">Second Chapter</h1><p>Second.</p></body></html>"#,
        ),
    ];
    if include_asset {
        let asset = if parent_ref { "OEBPS/media/pic.png" } else { "OEBPS/images/pic.png" };
        entries.push(entry(asset, &[0x89, 0x50, 0x4e, 0x47]));
    }
    entries
}

#[test]
fn converts_synthetic_epub_to_reader_zip() {
    let files = convert(sample_epub(true, true, false)).unwrap();

    assert!(find(&files, "README.md").is_some());
    assert!(find(&files, "style.css").is_some());
    assert!(find(&files, "chapters/001-Opening-Chapter.md").is_some());
    assert!(find(&files, "assets/OEBPS-images-pic.png").is_some());

    let chapter = text(&files, "chapters/001-Opening-Chapter.md");
    assert!(chapter.contains("# Opening Chapter"));
    assert_eq!(
        chapter.matches("Opening Chapter").count(),
        1,
        "duplicate leading title should be removed"
    );
    assert!(chapter.contains("![Picture](../assets/OEBPS-images-pic.png)"));
    assert!(chapter.contains("[Second](002-Second-Chapter.md#next)"));
}

#[test]
fn resolves_parent_directory_assets_and_undeclared_existing_assets() {
    let files = convert(sample_epub(false, true, true)).unwrap();

    let chapter = text(&files, "chapters/001-Opening-Chapter.md");
    assert!(chapter.contains("![Picture](../assets/OEBPS-media-pic.png)"));
    assert!(find(&files, "assets/OEBPS-media-pic.png").is_some());
}

#[test]
fn missing_referenced_asset_fails_clearly() {
    let error = convert(sample_epub(false, false, true)).err().expect("conversion fails");
    match error {
        ConversionError::MalformedEpub(message) => assert!(message.contains("image asset")),
        other => panic!("unexpected error: {other:?}"),
    }
}

fn with_chapter2(mut raw: Vec<RawEntry>, bytes: Option<&[u8]>) -> Vec<RawEntry> {
    raw.retain(|e| e.name != "OEBPS/text/chapter2.xhtml");
    if let Some(b) = bytes {
        raw.push(entry("OEBPS/text/chapter2.xhtml", b));
    }
    raw
}

const LIST_ITEM_OUTSIDE_LIST: &[u8] =
    br#"<html xmlns="http://www.w3.org/1999/xhtml"><body><p><li>x</li></p></body></html>"#;

fn error_of(raw: Vec<RawEntry>) -> (&'static str, String) {
    match convert(raw).err().expect("conversion fails") {
        ConversionError::MalformedEpub(m) => ("MalformedEpub", m),
        ConversionError::Conversion(m) => ("Conversion", m),
        other => panic!("unexpected error: {other:?}"),
    }
}

#[test]
fn conversion_errors_name_their_cause_in_order() {
    assert_eq!(
        error_of(sample_epub(false, false, true)),
        ("MalformedEpub", "referenced image asset is missing or not declared: ../media/pic.png".to_string())
    );
    assert_eq!(
        error_of(with_chapter2(sample_epub(true, true, true), None)),
        ("MalformedEpub", "spine item missing content file: OEBPS/text/chapter2.xhtml".to_string())
    );
    assert_eq!(
        error_of(with_chapter2(sample_epub(true, true, true), Some(LIST_ITEM_OUTSIDE_LIST))),
        ("Conversion", "list item outside a list in OEBPS/text/chapter2.xhtml".to_string())
    );
    // A missing spine document is met before a missing image, and a
    // missing image before a document that cannot be converted.
    assert_eq!(
        error_of(with_chapter2(sample_epub(false, false, true), None)),
        ("MalformedEpub", "spine item missing content file: OEBPS/text/chapter2.xhtml".to_string())
    );
    assert_eq!(
        error_of(with_chapter2(sample_epub(false, false, true), Some(LIST_ITEM_OUTSIDE_LIST))),
        ("MalformedEpub", "referenced image asset is missing or not declared: ../media/pic.png".to_string())
    );
}

#[test]
fn splits_flat_navigation_anchors_into_logical_chapters_across_spine_files() {
    let raw = vec![
        entry("META-INF/container.xml", CONTAINER),
        entry(
            "OEBPS/content.opf",
            br#"<?xml version="1.0" encoding="UTF-8"?>
<package xmlns:dc="http://purl.org/dc/elements/1.1/">
  <metadata><dc:title>Flat NCX Book</dc:title></metadata>
  <manifest>
    <item id="ncx" href="toc.ncx" media-type="application/x-dtbncx+xml"/>
    <item id="nav" href="nav.xhtml" properties="nav" media-type="application/xhtml+xml"/>
    <item id="part1" href="part1.xhtml" media-type="application/xhtml+xml"/>
    <item id="part2" href="part2.xhtml" media-type="application/xhtml+xml"/>
  </manifest>
  <spine toc="ncx"><itemref idref="part1"/><itemref idref="part2"/></spine>
</package>"#,
        ),
        entry(
            "OEBPS/toc.ncx",
            br#"<?xml version="1.0" encoding="UTF-8"?>
<ncx xmlns="http://www.daisy.org/z3986/2005/ncx/">
  <navMap>
    <navPoint id="p" playOrder="1"><navLabel><text>Preface</text></navLabel><content src="part1.xhtml#preface"/></navPoint>
    <navPoint id="c1" playOrder="2"><navLabel><text>Chapter 1 Start</text></navLabel><content src="part1.xhtml#c1"/></navPoint>
    <navPoint id="s11" playOrder="3"><navLabel><text>1.1 Section</text></navLabel><content src="part2.xhtml#s11"/></navPoint>
    <navPoint id="c2" playOrder="4"><navLabel><text>Chapter 2 From NCX</text></navLabel><content src="part2.xhtml#c2"/></navPoint>
  </navMap>
</ncx>"#,
        ),
        entry(
            "OEBPS/nav.xhtml",
            br#"<?xml version="1.0" encoding="UTF-8"?>
<html xmlns="http://www.w3.org/1999/xhtml" xmlns:epub="http://www.idpf.org/2007/ops"><body>
<nav epub:type="landmarks">
  <ol>
    <li><a href="part1.xhtml#preface">Cover Landmark</a></li>
  </ol>
</nav>
<nav epub:type="toc">
  <ol>
    <li><a href="part1.xhtml#preface">Preface</a></li>
    <li><a href="part1.xhtml#c1">Chapter 1 Start</a></li>
    <li><a href="part2.xhtml#s11">1.1 Section</a></li>
    <li><a href="part2.xhtml#c2">Chapter 2 Next</a></li>
  </ol>
</nav>
</body></html>"#,
        ),
        entry(
            "OEBPS/part1.xhtml",
            br#"<?xml version="1.0" encoding="UTF-8"?>
<html xmlns="http://www.w3.org/1999/xhtml"><body>
<p><span id="preface"></span>Preface</p>
<p><a href="part1.xhtml#c1">Chapter 1</a></p>
<p><a href="part2.xhtml#c2">Chapter 2</a></p>
<p><a href="part2.xhtml#deep">Deep target</a></p>
<p><span id="c1"></span>Chapter 1 Start</p>
<p>Opening content.</p>
</body></html>"#,
        ),
        entry(
            "OEBPS/part2.xhtml",
            br#"<?xml version="1.0" encoding="UTF-8"?>
<html xmlns="http://www.w3.org/1999/xhtml"><body>
<p><span id="s11"></span>1.1 Section</p>
<p>Section from the next spine still belongs to chapter one.</p>
<p><span id="c2"></span>Chapter 2 Next</p>
<p>Second chapter.</p>
<p><span id="deep"></span>Deep anchor target.</p>
</body></html>"#,
        ),
    ];
    let files = convert(raw).unwrap();
    let mut names = chapter_names(&files);
    names.sort();
    assert_eq!(
        names,
        vec![
            "chapters/001-Preface.md",
            "chapters/002-Chapter-1-Start.md",
            "chapters/003-Chapter-2-Next.md",
        ]
    );

    let first = text(&files, "chapters/001-Preface.md");
    assert!(first.contains("# Preface"));
    assert!(first.contains("[Chapter 1](002-Chapter-1-Start.md#c1)"));
    assert!(first.contains("[Chapter 2](003-Chapter-2-Next.md#c2)"));
    assert!(first.contains("[Deep target](003-Chapter-2-Next.md#deep)"));

    let chapter_one = text(&files, "chapters/002-Chapter-1-Start.md");
    assert!(chapter_one.contains("# Chapter 1 Start"));
    assert!(chapter_one.contains("Section from the next spine still belongs to chapter one."));
    assert!(chapter_one.contains("## 1.1 Section"));
    assert!(!chapter_one.contains("Chapter 2 Next"));

    let chapter_two = text(&files, "chapters/003-Chapter-2-Next.md");
    assert!(chapter_two.contains("# Chapter 2 Next"));
    assert!(chapter_two.contains("<a id=\"deep\"></a>"));
    assert!(chapter_two.contains("Deep anchor target."));

    let readme = text(&files, "README.md");
    assert!(readme.contains("- [Chapter 1 Start](chapters/002-Chapter-1-Start.md)"));
    assert!(!readme.contains("1.1 Section"));
}

#[test]
fn preserves_single_spine_books_when_nav_entries_have_no_fragment_boundaries() {
    let raw = vec![
        entry("META-INF/container.xml", CONTAINER),
        entry(
            "OEBPS/content.opf",
            br#"<?xml version="1.0" encoding="UTF-8"?>
<package xmlns:dc="http://purl.org/dc/elements/1.1/">
  <metadata><dc:title>Single Spine Book</dc:title></metadata>
  <manifest>
    <item id="ncx" href="toc.ncx" media-type="application/x-dtbncx+xml"/>
    <item id="body" href="body.xhtml" media-type="application/xhtml+xml"/>
  </manifest>
  <spine toc="ncx"><itemref idref="body"/></spine>
</package>"#,
        ),
        entry(
            "OEBPS/toc.ncx",
            br#"<?xml version="1.0" encoding="UTF-8"?>
<ncx xmlns="http://www.daisy.org/z3986/2005/ncx/">
  <navMap>
    <navPoint id="c1" playOrder="1"><navLabel><text>Chapter 1 Intro</text></navLabel><content src="body.xhtml"/></navPoint>
    <navPoint id="c2" playOrder="2"><navLabel><text>Chapter 2 Parser</text></navLabel><content src="body.xhtml"/></navPoint>
  </navMap>
</ncx>"#,
        ),
        entry(
            "OEBPS/body.xhtml",
            br#"<?xml version="1.0" encoding="UTF-8"?>
<html xmlns="http://www.w3.org/1999/xhtml"><body>
<h1>Chapter 1 Intro</h1>
<p>First chapter body.</p>
<h1>Chapter 2 Parser</h1>
<p>Second chapter body must not be deleted.</p>
<pre><code>int main(void) {
    return 0;
}</code></pre>
</body></html>"#,
        ),
    ];
    let files = convert(raw).unwrap();
    assert_eq!(chapter_names(&files), vec!["chapters/001-Chapter-1-Intro.md"]);

    let chapter = text(&files, "chapters/001-Chapter-1-Intro.md");
    assert!(chapter.contains("# Chapter 1 Intro"));
    assert!(chapter.contains("First chapter body."));
    assert!(chapter.contains("# Chapter 2 Parser"));
    assert!(chapter.contains("Second chapter body must not be deleted."));
    assert!(chapter.contains("```\nint main(void) {\n    return 0;\n}\n```"));
}

#[test]
fn preserves_zmd_destination_extension() {
    assert_eq!(archive_destination("/tmp/library/book.zmd"), "/tmp/library/book.zmd");
    assert_eq!(archive_destination("/tmp/library/book.ZIP"), "/tmp/library/book.ZIP");
    assert_eq!(archive_destination("/tmp/library/book.epub"), "/tmp/library/book.zip");
    assert_eq!(archive_destination("/tmp/library/book"), "/tmp/library/book.zip");
}

#[test]
fn default_output_replaces_the_epub_extension() {
    assert_eq!(with_zip_extension("books/sample.epub"), "books/sample.zip");
    assert_eq!(with_zip_extension("books/archive.tar.gz"), "books/archive.tar.zip");
    assert_eq!(with_zip_extension("books/sample/"), "books/sample.zip");
    assert_eq!(with_zip_extension(".."), "..");
}

#[test]
fn missing_container_is_an_invalid_epub() {
    let raw = vec![entry("OEBPS/content.opf", b"<package/>")];
    match convert(raw) {
        Err(ConversionError::InvalidEpub(message)) => assert!(message.contains("container.xml")),
        Err(other) => panic!("unexpected error: {other:?}"),
        Ok(_) => panic!("conversion should fail"),
    }
}

#[test]
fn encrypted_books_are_refused() {
    let mut raw = sample_epub(true, true, false);
    raw.push(entry("META-INF\\encryption.xml", b"<encryption/>"));
    match collect_epub_entries(&raw) {
        Err(ConversionError::ProtectedEpub(message)) => assert!(message.contains("encryption.xml")),
        Err(other) => panic!("unexpected error: {other:?}"),
        Ok(_) => panic!("encrypted book accepted"),
    }
}

#[test]
fn unreadable_entries_are_refused() {
    let mut raw = sample_epub(true, true, false);
    raw.push(RawEntry { name: "OEBPS/secret.bin".to_string(), is_dir: false, bytes: None, read_error: "bad".to_string() });
    assert!(matches!(collect_epub_entries(&raw), Err(ConversionError::ProtectedEpub(_))));
}

#[test]
fn empty_spine_is_malformed() {
    let raw = vec![
        entry("META-INF/container.xml", CONTAINER),
        entry(
            "OEBPS/content.opf",
            br#"<package><metadata/><manifest><item id="a" href="a.xhtml" media-type="application/xhtml+xml"/></manifest><spine/></package>"#,
        ),
    ];
    assert!(matches!(convert(raw), Err(ConversionError::MalformedEpub(_))));
}

#[test]
fn archive_lists_metadata_and_cover() {
    let files = convert(sample_epub(true, true, false)).unwrap();
    let paths: Vec<&str> = files.iter().map(|file| file.path.as_str()).collect();
    assert_eq!(paths[0], "chapters/");
    assert!(paths.contains(&"metadata.json"));
    assert!(paths.contains(&"assets/"));
    let metadata = text(&files, "metadata.json");
    assert!(metadata.contains("\"title\": \"Sample Book\""));
    let readme = text(&files, "README.md");
    assert!(readme.starts_with("# Sample Book"));
    assert!(readme.contains("Jane Author"));
}

#[test]
fn spine_naming_an_undeclared_item_is_malformed() {
    let raw = vec![
        entry("META-INF/container.xml", CONTAINER),
        entry(
            "OEBPS/content.opf",
            br#"<package><metadata/><manifest><item id="a" href="a.xhtml" media-type="application/xhtml+xml"/></manifest><spine><itemref idref="a"/><itemref idref="ghost"/><itemref idref="other"/></spine></package>"#,
        ),
        entry("OEBPS/a.xhtml", b"<html><body><p>A</p></body></html>"),
    ];
    match convert(raw) {
        Err(ConversionError::MalformedEpub(message)) => {
            assert_eq!(message, "spine references missing manifest item ghost")
        }
        Err(other) => panic!("unexpected error: {other:?}"),
        Ok(_) => panic!("conversion should fail"),
    }
}

#[test]
fn unreadable_entry_message_names_its_path() {
    let mut raw = sample_epub(true, true, false);
    raw.push(RawEntry { name: "OEBPS\\secret.bin".to_string(), is_dir: false, bytes: None, read_error: "checksum mismatch".to_string() });
    match collect_epub_entries(&raw) {
        Err(ConversionError::ProtectedEpub(message)) => {
            assert_eq!(message, "resource could not be read normally: OEBPS/secret.bin (checksum mismatch)")
        }
        Err(other) => panic!("unexpected error: {other:?}"),
        Ok(_) => panic!("unreadable entry accepted"),
    }
}

#[test]
fn chapters_with_one_title_get_distinct_file_names() {
    let raw = vec![
        entry("META-INF/container.xml", CONTAINER),
        entry(
            "OEBPS/content.opf",
            br#"<package><metadata/><manifest><item id="a" href="a.xhtml" media-type="application/xhtml+xml"/><item id="b" href="b.xhtml" media-type="application/xhtml+xml"/></manifest><spine><itemref idref="a"/><itemref idref="b"/></spine></package>"#,
        ),
        entry("OEBPS/a.xhtml", b"<html><body><h1>Same</h1><p>A</p></body></html>"),
        entry("OEBPS/b.xhtml", b"<html><body><h1>Same</h1><p>B</p></body></html>"),
    ];
    let files = convert(raw).expect("convert");
    assert_eq!(chapter_names(&files), vec!["chapters/001-Same.md", "chapters/002-Same.md"]);
}

#[test]
fn archive_entries_have_distinct_paths() {
    let files = convert(sample_epub(true, true, false)).expect("convert");
    let mut paths: Vec<&str> = files.iter().map(|file| file.path.as_str()).collect();
    let count = paths.len();
    paths.sort();
    paths.dedup();
    assert_eq!(paths.len(), count);
    assert!(paths.contains(&"assets/"));
    assert!(paths.contains(&"chapters/"));
}
