use epubmd::archive::RawEntry;
use epubmd::book_payload::{
    asset_data_url,
    book_payload_from_entries, library_book_from_entries, order_chapter_paths_from_readme, order_chapters_from_readme,
    payload_entries_error, summary_entries_error, BookChapter,
};
use epubmd::library::{
    appearance_from_dark_flag, fallback_library_book, import_file_name, import_stem, is_inside,
    parse_bool_command_output, sanitize_file_stem, sort_library_books, sort_themes, theme_entry, theme_name,
};
use epubmd::progress::ReadingProgressStore;
use epubmd::reader_text::{
    chapter_title, choose_cover_asset_path, has_extension, is_image_path, is_likely_cover_asset_path,
    normalize_zip_path, readme_chapter_links, require_extension, strip_inline_markdown, title_from_readme,
};

fn entry(name: &str, bytes: &[u8]) -> RawEntry {
    RawEntry { name: name.to_string(), is_dir: false, bytes: Some(bytes.to_vec()), read_error: String::new() }
}

fn test_book() -> Vec<RawEntry> {
    vec![
        entry("README.md", b"# Test Book\n\n- [One](chapters/001-One.md)\n"),
        entry("metadata.json", br#"{"cover_asset_path":"assets/pic.png"}"#),
        entry("style.css", b"body { color: #111827; }\n"),
        entry("chapters/001-One.md", b"# One\n\n![Pic](../assets/pic.png)\n"),
        entry("assets/pic.png", &[0x89, 0x50, 0x4e, 0x47]),
    ]
}

#[test]
fn loads_epubmd_zip_payload() {
    let payload = book_payload_from_entries("/tmp/goosereader-test.zip", &test_book(), Some("assets/pic.png"))
        .expect("load book");
    assert_eq!(payload.title, "Test Book");
    assert_eq!(payload.chapters.len(), 1);
    assert_eq!(payload.chapters[0].title, "One");
    assert_eq!(payload.assets[0].path, "assets/pic.png");
    assert!(payload.assets[0].data_url.starts_with("data:image/png;base64,"));
    assert!(payload.cover_image.as_deref().unwrap_or_default().starts_with("data:image/png;base64,"));
}

#[test]
fn loads_zmd_payload() {
    let payload = book_payload_from_entries("/tmp/goosereader-test.zmd", &test_book(), Some("assets/pic.png"))
        .expect("load zmd book");
    assert_eq!(payload.title, "Test Book");
    assert_eq!(payload.chapters.len(), 1);
}

#[test]
fn asset_data_url_encodes_bytes_in_base64() {
    let payload = book_payload_from_entries("book.zmd", &test_book(), None).expect("load book");
    assert_eq!(payload.assets[0].data_url, "data:image/png;base64,iVBORw==");
    assert_eq!(payload.cover_image.as_deref(), Some("data:image/png;base64,iVBORw=="));
    assert_eq!(payload.style_css, "body { color: #111827; }\n");
}

#[test]
fn book_without_chapters_is_refused() {
    let entries = vec![entry("README.md", b"# Empty\n")];
    let error = book_payload_from_entries("empty.zmd", &entries, None).err().expect("refused");
    assert!(error.contains("chapters/*.md"));
}

#[test]
fn chapter_text_must_be_utf8() {
    let mut entries = test_book();
    entries.push(entry("chapters/002-Bad.md", &[0xff, 0xfe]));
    assert!(book_payload_from_entries("bad.zmd", &entries, None).is_err());
}

#[test]
fn unsafe_and_empty_entry_paths_are_skipped() {
    let mut entries = test_book();
    entries.push(entry("chapters/../../evil.md", b"# Evil"));
    entries.push(entry("./chapters/002-Two.md", b"## Two"));
    let payload = book_payload_from_entries("book.zmd", &entries, None).expect("load");
    let paths: Vec<&str> = payload.chapters.iter().map(|c| c.path.as_str()).collect();
    assert_eq!(paths, vec!["chapters/001-One.md", "chapters/002-Two.md"]);
    assert_eq!(payload.chapters[1].title, "Two");
}

#[test]
fn readme_links_control_chapter_order_and_titles() {
    let readme = "- [Second in TOC](chapters/002-Two.md)\n- [First in TOC](chapters/001-One.md)\n";
    let mut chapters = vec![
        BookChapter {
            path: "chapters/001-One.md".into(),
            title: "One".into(),
            markdown: "# One".into(),
        },
        BookChapter {
            path: "chapters/002-Two.md".into(),
            title: "Two".into(),
            markdown: "# Two".into(),
        },
    ];

    order_chapters_from_readme(&mut chapters, readme);

    assert_eq!(chapters[0].path, "chapters/002-Two.md");
    assert_eq!(chapters[0].title, "Second in TOC");
    assert_eq!(chapters[1].path, "chapters/001-One.md");
    assert_eq!(chapters[1].title, "First in TOC");
}

#[test]
fn unlinked_chapters_follow_by_path() {
    let readme = "- [Only](chapters/003-C.md#start)\n";
    let mut paths = vec![
        "chapters/002-B.md".to_string(),
        "chapters/001-A.md".to_string(),
        "chapters/003-C.md".to_string(),
    ];
    order_chapter_paths_from_readme(&mut paths, readme);
    assert_eq!(paths, vec!["chapters/003-C.md", "chapters/001-A.md", "chapters/002-B.md"]);
}

#[test]
fn readme_chapter_links_keep_only_chapter_links() {
    let links = readme_chapter_links(
        "# Book\n- [ One ](chapters/001-One.md#top)\n- [Site](https://example.com)\n- [](chapters/002.md)\n- [Two](.\\chapters\\002-Two.md)\n",
    );
    assert_eq!(
        links,
        vec![
            ("One".to_string(), "chapters/001-One.md".to_string()),
            ("Two".to_string(), "chapters/002-Two.md".to_string()),
        ]
    );
}

#[test]
fn reader_titles_come_from_headings_or_file_names() {
    assert_eq!(chapter_title("intro\n## *Deep* `dive` \\[1\\]\n# Later", "chapters/005-x.md"), "Deep dive [1]");
    assert_eq!(chapter_title("no heading", "chapters/012-Final_Words.md"), "Final_Words");
    assert_eq!(chapter_title("# \n# Second", "chapters/3-_Odd.md"), "Odd");
    assert_eq!(strip_inline_markdown("**a** `b` #c \\[d\\]"), "a b c [d]");
    assert_eq!(title_from_readme("intro\n#  The Title  \n# Other"), Some("The Title".to_string()));
    assert_eq!(title_from_readme("# \n# Later"), None);
}

#[test]
fn zip_paths_and_extensions() {
    assert_eq!(normalize_zip_path("./././assets\\pic.png"), "assets/pic.png");
    assert!(is_image_path("assets/Cover.JPEG"));
    assert!(!is_image_path("assets/notes.txt"));
    assert!(has_extension("/books/a.ZMD", &["zmd", "zip"]));
    assert!(!has_extension("/books/a", &["zmd"]));
    assert_eq!(require_extension("x.css", &["css"], "theme file must be a .css file"), Ok(()));
    assert_eq!(
        require_extension("x.txt", &["css"], "theme file must be a .css file"),
        Err("theme file must be a .css file".to_string())
    );
}

#[test]
fn cover_choice_prefers_metadata_then_cover_names() {
    let assets = vec![
        "assets/b-figure.png".to_string(),
        "assets/Title-Page.png".to_string(),
        "assets/a-figure.png".to_string(),
        "assets/cover.txt".to_string(),
    ];
    assert!(is_likely_cover_asset_path("assets/FRONT.png"));
    assert_eq!(choose_cover_asset_path(&assets, Some("./assets/b-figure.png")), Some("assets/b-figure.png".to_string()));
    assert_eq!(choose_cover_asset_path(&assets, Some("assets/missing.png")), Some("assets/Title-Page.png".to_string()));
    let plain = vec!["assets/z.png".to_string(), "assets/a.gif".to_string()];
    assert_eq!(choose_cover_asset_path(&plain, None), Some("assets/a.gif".to_string()));
    assert_eq!(choose_cover_asset_path(&["assets/readme.txt".to_string()], None), None);
}

#[test]
fn import_destination_uses_zmd_and_avoids_overwrite() {
    let stem = import_stem("/tmp/root/My Book!.epub");
    assert_eq!(stem, "My-Book");
    assert_eq!(import_file_name(&stem, 1), "My-Book.zmd");
    assert_eq!(import_file_name(&stem, 2), "My-Book-2.zmd");
    assert_eq!(import_stem("/tmp/root/   .epub"), "book");
    assert_eq!(sanitize_file_stem("--..??"), "book");
    assert_eq!(sanitize_file_stem("Été—été_1.0"), "Été-été_1.0");
}

#[test]
fn book_and_theme_loaders_reject_paths_outside_app_dirs() {
    assert!(is_inside("/root/books/book.zmd", "/root/books"));
    assert!(is_inside("/root/books/", "/root/books"));
    assert!(!is_inside("/root/outside/outside.zmd", "/root/books"));
    assert!(!is_inside("/root/booksmore/x.zmd", "/root/books"));
    assert!(!is_inside("root/books/x.zmd", "/root/books"));
}

#[test]
fn loads_theme_css_file() {
    assert_eq!(theme_name("/themes/typora-newsprint.css"), "typora-newsprint");
    assert_eq!(theme_name("/"), "Custom theme");
    let theme = theme_entry("/themes/night.css");
    assert_eq!(theme.file_name, "night.css");
    assert_eq!(theme.name, "night");
}

#[test]
fn lists_zmd_books_and_css_themes_from_app_dirs() {
    let book = library_book_from_entries("/library/books/book.zmd", 5, &test_book(), Some("assets/pic.png"))
        .expect("summarize");
    assert_eq!(book.title, "Test Book");
    assert_eq!(book.chapter_count, 1);
    assert!(book.cover_image.is_some());
    assert_eq!(book.file_name, "book.zmd");

    let fallback = fallback_library_book("/library/books/broken.zmd", 9);
    assert_eq!(fallback.title, "broken");
    assert_eq!(fallback.chapter_count, 0);

    let sorted = sort_library_books(&vec![
        fallback_library_book("/b/zeta.zmd", 1),
        fallback_library_book("/b/Alpha.zmd", 1),
        fallback_library_book("/b/newest.zmd", 7),
    ]);
    let titles: Vec<&str> = sorted.iter().map(|b| b.title.as_str()).collect();
    assert_eq!(titles, vec!["newest", "Alpha", "zeta"]);

    let themes = sort_themes(&vec![theme_entry("/t/b.css"), theme_entry("/t/A.css")]);
    assert_eq!(themes[0].name, "A");
}

#[test]
fn parses_macos_dark_mode_command_output() {
    assert_eq!(parse_bool_command_output(b"true\n"), Some(true));
    assert_eq!(parse_bool_command_output(b"false\n"), Some(false));
    assert_eq!(parse_bool_command_output(b"unexpected\n"), None);
}

#[test]
fn appearance_names_the_mode() {
    let dark = appearance_from_dark_flag(true, "macOS command");
    assert_eq!(dark.color_mode, "dark");
    assert_eq!(dark.source, "macOS command");
    assert_eq!(appearance_from_dark_flag(false, "fallback").color_mode, "daylight");
    assert_eq!(parse_bool_command_output(b"  TRUE \r\n"), Some(true));
    assert_eq!(parse_bool_command_output(&[0xff, b't']), None);
}

#[test]
fn saves_loads_and_deletes_book_progress() {
    let key = "/library/books/book.zmd";
    let mut store = ReadingProgressStore::new();
    store
        .save_reading_progress(key, "chapters/001-One.md", Some(7), Some(420), 1000)
        .expect("save progress");
    let progress = store.load(key).expect("progress exists");
    assert_eq!(progress.chapter_path, "chapters/001-One.md");
    assert_eq!(progress.page_index, Some(7));
    assert_eq!(progress.scroll_top, Some(420));
    assert!(!progress.completed);
    assert_eq!(store.progress_for(key).as_deref(), Some("chapters/001-One.md"));
    assert!(!store.completed_for(key));

    store.set_book_completed(key, true, Some("chapters/001-One.md"), 2000).expect("mark completed");
    let progress = store.load(key).expect("progress exists");
    assert_eq!(progress.chapter_path, "chapters/001-One.md");
    assert_eq!(progress.page_index, Some(7));
    assert_eq!(progress.scroll_top, Some(420));
    assert!(progress.completed);
    assert_eq!(store.progress_for(key), None);
    assert!(store.completed_for(key));

    store.set_book_completed(key, false, None, 3000).expect("mark not completed");
    assert_eq!(store.progress_for(key).as_deref(), Some("chapters/001-One.md"));
    assert!(!store.completed_for(key));

    store.remove_book(key);
    assert!(store.load(key).is_none());
}

#[test]
fn blank_chapter_paths_are_refused() {
    let mut store = ReadingProgressStore::new();
    assert!(store.save_reading_progress("k", "   ", None, None, 1).is_err());
    assert!(store.set_book_completed("k", true, Some("  "), 1).is_err());
    assert!(store.load("k").is_none());
    store.save_reading_progress("k", "chapters/a.md", None, None, 1).unwrap();
    store.set_book_completed("k", true, None, 2).unwrap();
    store.save_reading_progress("k", "chapters/b.md", Some(1), None, 3).unwrap();
    let progress = store.load("k").unwrap();
    assert!(progress.completed);
    assert_eq!(progress.chapter_path, "chapters/b.md");
}

#[test]
fn progress_chapter_index_finds_the_saved_chapter() {
    let chapters = vec!["chapters/001-One.md".to_string(), "chapters/002-Two.md".to_string()];
    let mut store = ReadingProgressStore::new();
    assert_eq!(store.progress_chapter_index("k", &chapters), None);
    store.save_reading_progress("k", "chapters/002-Two.md", None, None, 1).unwrap();
    assert_eq!(store.progress_chapter_index("k", &chapters), Some(1));
    assert_eq!(store.progress_chapter_index("k", &Vec::new()), None);
    store.save_reading_progress("k", "chapters/009-Gone.md", None, None, 2).unwrap();
    assert_eq!(store.progress_chapter_index("k", &chapters), None);
    store.save_reading_progress("k", "chapters/001-One.md", None, None, 3).unwrap();
    store.set_book_completed("k", true, None, 4).unwrap();
    assert_eq!(store.progress_chapter_index("k", &chapters), None);
}

#[test]
fn unreadable_entries_name_their_paths() {
    let mut entries = test_book();
    entries.push(entry("chapters/002-Bad.md", &[0xff, 0xfe]));
    assert_eq!(
        book_payload_from_entries("bad.zmd", &entries, None).err(),
        Some("chapters/002-Bad.md is not valid UTF-8: stream did not contain valid UTF-8".to_string())
    );
    let mut entries = test_book();
    entries.push(RawEntry { name: "assets/lost.png".to_string(), is_dir: false, bytes: None, read_error: "checksum mismatch".to_string() });
    assert_eq!(
        book_payload_from_entries("bad.zmd", &entries, None).err(),
        Some("could not read asset assets/lost.png: checksum mismatch".to_string())
    );
    let entries = vec![entry("README.md", &[0xff])];
    assert_eq!(
        library_book_from_entries("bad.zmd", 0, &entries, None).err(),
        Some("README.md is not valid UTF-8: stream did not contain valid UTF-8".to_string())
    );
}

#[test]
fn first_entry_error_is_found_without_the_later_checks() {
    assert_eq!(payload_entries_error(&test_book()), None);
    assert_eq!(summary_entries_error(&test_book()), None);
    // No chapters is refused only once every entry was read.
    assert_eq!(payload_entries_error(&vec![entry("README.md", b"# T")]), None);
    let mut entries = test_book();
    entries.push(entry("chapters/002-Bad.md", &[0xff, 0xfe]));
    assert_eq!(
        payload_entries_error(&entries),
        Some("chapters/002-Bad.md is not valid UTF-8: stream did not contain valid UTF-8".to_string())
    );
    assert_eq!(
        summary_entries_error(&vec![entry("README.md", &[0xff])]),
        Some("README.md is not valid UTF-8: stream did not contain valid UTF-8".to_string())
    );
}

#[test]
fn data_urls_use_standard_padded_base64() {
    assert_eq!(asset_data_url("assets/a.png", b"Man"), "data:image/png;base64,TWFu");
    assert_eq!(asset_data_url("assets/a.png", b"Ma"), "data:image/png;base64,TWE=");
    assert_eq!(asset_data_url("assets/a.png", b"M"), "data:image/png;base64,TQ==");
    assert_eq!(asset_data_url("assets/a.png", &[0xfb, 0xff]), "data:image/png;base64,+/8=");
}
