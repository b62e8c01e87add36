use epubmd::assets::AssetMapper;
use epubmd::cleanup::cleanup;
use epubmd::fences::{protect_fenced_code_blocks, restore_fenced_code_blocks};
use epubmd::content::convert_xhtml_to_markdown;
use epubmd::links::ChapterLinkMap;
use epubmd::markdown::fenced_code_block;
use epubmd::model::{ChapterData, ManifestItem, NavPoint, OutputChapter};
use epubmd::naming::chapter_file_name;
use epubmd::navigation::navigation_points_from_items;
use epubmd::paths::normalize_path;
use epubmd::segments::logical_chapter_segments;
use epubmd::textmap::TextMap;
use epubmd::toc::{link_plain_frontmatter_toc_entries, plain_toc_link_targets};

#[test]
fn normalizes_parent_directories() {
    assert_eq!(
        normalize_path("EPUB/text/../media/resources/title_page.png"),
        "EPUB/media/resources/title_page.png"
    );
}

#[test]
fn chapter_file_names_are_markdown_link_safe() {
    assert_eq!(
        chapter_file_name(4, Some("Multi-Paradigm Programming"), "body.xhtml"),
        "004-Multi-Paradigm-Programming.md"
    );
    assert_eq!(
        chapter_file_name(7, Some("第零七章 • 计算"), "chapter7.xhtml"),
        "007-第零七章-•-计算.md"
    );
}

#[test]
fn uses_longer_fence_when_code_contains_backticks() {
    assert_eq!(
        fenced_code_block("let markdown = \"```\";\nlet more = \"````\";"),
        "`````\nlet markdown = \"```\";\nlet more = \"````\";\n`````"
    );
}

#[test]
fn aggressively_splits_large_nav_packed_single_spine_books() {
    let chapters = vec![ChapterData {
        item: ManifestItem {
            href: "all.xhtml".to_string(),
            media_type: "application/xhtml+xml".to_string(),
            absolute_path: "EPUB/text/all.xhtml".to_string(),
            properties: String::new(),
        },
        data: vec![b'x'; 200_000],
        file_name: "001-All.md".to_string(),
        title: Some("All".to_string()),
    }];
    let mut nav_points = vec![NavPoint {
        title: "Book Root".to_string(),
        epub_path: "EPUB/text/all.xhtml".to_string(),
        fragment: Some("root".to_string()),
        depth: 1,
    }];
    for index in 1..=14 {
        nav_points.push(NavPoint {
            title: format!("{index}. Section {index}"),
            epub_path: "EPUB/text/all.xhtml".to_string(),
            fragment: Some(format!("section-{index}")),
            depth: 2,
        });
    }

    let segments = logical_chapter_segments(&chapters, &nav_points);

    assert!(segments.len() > 4);
    assert!(segments
        .iter()
        .any(|segment| segment.title == "1. Section 1"));
}

fn nav(title: &str, fragment: &str, depth: usize) -> NavPoint {
    NavPoint {
        title: title.to_string(),
        epub_path: "EPUB/text/all.xhtml".to_string(),
        fragment: Some(fragment.to_string()),
        depth,
    }
}

#[test]
fn links_plain_frontmatter_toc_entries_from_navigation() {
    let nav_points = vec![
        nav("From the Author", "from-the-author", 1),
        nav(
            "1. How Multiparadigm Is Expanding Modern Languages",
            "1-how-multiparadigm-is-expanding-modern-languages",
            1,
        ),
        nav(
            "1.1 The Iterator Pattern in OOP and First-Class Functions",
            "11-the-iterator-pattern-in-oop-and-first-class-functions",
            2,
        ),
        nav("1.6 Summary", "16-summary", 2),
        nav("3.5 Summary", "35-summary", 2),
    ];
    let mut map = TextMap::new();
    for (key, value) in [
        (
            "EPUB/text/all.xhtml#from-the-author",
            "001-Multi-Paradigm-Programming.md#from-the-author",
        ),
        (
            "EPUB/text/all.xhtml#1-how-multiparadigm-is-expanding-modern-languages",
            "001-Multi-Paradigm-Programming.md#1-how-multiparadigm-is-expanding-modern-languages",
        ),
        (
            "EPUB/text/all.xhtml#11-the-iterator-pattern-in-oop-and-first-class-functions",
            "001-Multi-Paradigm-Programming.md#11-the-iterator-pattern-in-oop-and-first-class-functions",
        ),
        (
            "EPUB/text/all.xhtml#16-summary",
            "001-Multi-Paradigm-Programming.md#16-summary",
        ),
        (
            "EPUB/text/all.xhtml#35-summary",
            "001-Multi-Paradigm-Programming.md#35-summary",
        ),
    ] {
        map.insert(key.to_string(), value.to_string());
    }
    let chapter_links = ChapterLinkMap { epub_path_to_markdown: map };
    let markdown = "# Multi-Paradigm Programming\n\nCombining Functional, Object-Oriented, and Lisp Paradigms for Software Design and Implementation\n\n<a id=\"section-1\"></a>\n- From the Author\n\n<a id=\"section-2\"></a>\n1. How Multiparadigm Is Expanding Modern Languages\n   1. The Iterator Pattern in OOP and First-Class Functions\n   1. GoF’s Iterator Pattern\n   1. Summary\n\n<a id=\"from-the-author\"></a>\n## From the Author\n\n1. The Iterator Pattern in OOP and First-Class Functions\n\n<a id=\"gofs-iterator-pattern\"></a>\n### GoF’s Iterator Pattern\n";
    let output_chapters = vec![OutputChapter {
        file_name: "001-Multi-Paradigm-Programming.md".to_string(),
        title: "Multi-Paradigm Programming".to_string(),
        markdown: markdown.to_string(),
    }];
    let targets = plain_toc_link_targets(&nav_points, &chapter_links, &output_chapters);

    let linked = link_plain_frontmatter_toc_entries(markdown, &targets);

    assert!(linked
        .contains("- [From the Author](001-Multi-Paradigm-Programming.md#from-the-author)"));
    assert!(linked.contains("1. [How Multiparadigm Is Expanding Modern Languages](001-Multi-Paradigm-Programming.md#1-how-multiparadigm-is-expanding-modern-languages)"));
    assert!(linked.contains("   1. [The Iterator Pattern in OOP and First-Class Functions](001-Multi-Paradigm-Programming.md#11-the-iterator-pattern-in-oop-and-first-class-functions)"));
    assert!(linked.contains(
        "   1. [GoF’s Iterator Pattern](001-Multi-Paradigm-Programming.md#gofs-iterator-pattern)"
    ));
    assert!(linked.contains("   1. [Summary](001-Multi-Paradigm-Programming.md#1-how-multiparadigm-is-expanding-modern-languages)"));
    assert!(linked.contains(
        "## From the Author\n\n1. The Iterator Pattern in OOP and First-Class Functions"
    ));
}

fn no_links() -> ChapterLinkMap {
    ChapterLinkMap { epub_path_to_markdown: TextMap::new() }
}

#[test]
fn removes_duplicate_leading_titles() {
    let markdown = "# 第零七章 • 计算\n\n第零七章 • 计算\n\n正文开始。";
    let cleaned = cleanup(markdown);
    assert_eq!(cleaned.matches("第零七章 • 计算").count(), 1);
}

#[test]
fn preserves_preformatted_code_exactly() {
    let markdown = convert_xhtml_to_markdown(
        b"<html><body><p>Before.</p><pre><code>fn main() {\n    let label = \"a   b\";\n\tprintln!(\"{}\", label);\n}\n</code></pre><p>After.</p></body></html>",
        "OPS/code.xhtml",
        &AssetMapper::new(),
        &no_links(),
    )
    .expect("convert code");

    assert!(markdown.contains(
        "```\nfn main() {\n    let label = \"a   b\";\n\tprintln!(\"{}\", label);\n}\n```\n"
    ));
}

#[test]
fn preserves_preformatted_blank_lines_and_br_elements() {
    let markdown = convert_xhtml_to_markdown(
        b"<html><body><pre>line 1<br/>    line 2\n\n\tline 4</pre></body></html>",
        "OPS/code.xhtml",
        &AssetMapper::new(),
        &no_links(),
    )
    .expect("convert pre");

    assert_eq!(markdown, "```\nline 1\n    line 2\n\n\tline 4\n```\n");
}

#[test]
fn cleanup_does_not_rewrite_fenced_code_blocks() {
    let cleaned = cleanup("Intro\n\n```\nlet x =  1;\n\n    let y =\t2;\n```\n\nDone");

    assert!(cleaned.contains("```\nlet x =  1;\n\n    let y =\t2;\n```"));
}

#[test]
fn renders_flat_nav_links_as_toc_list() {
    let mut chapter_links = TextMap::new();
    chapter_links.insert("OPS/chapter1.xhtml".to_string(), "001-Intro.md".to_string());
    chapter_links.insert(
        "OPS/chapter1.xhtml#overview".to_string(),
        "001-Intro.md#overview".to_string(),
    );
    let markdown = convert_xhtml_to_markdown(
        br#"<html><body><nav><h1>Contents</h1><a href="chapter1.xhtml">1 Introduction to Fennel and Lua</a><a href="chapter1.xhtml#overview">1.1 Overview of Lua Language</a><a href="chapter2.xhtml">2 Setting Up Your Fennel Environment</a></nav></body></html>"#,
        "OPS/nav.xhtml",
        &AssetMapper::new(),
        &ChapterLinkMap { epub_path_to_markdown: chapter_links },
    )
    .expect("convert nav");

    assert!(markdown.contains("## Contents"));
    assert!(markdown.contains("- [1 Introduction to Fennel and Lua](001-Intro.md)"));
    assert!(markdown.contains("- [1.1 Overview of Lua Language](001-Intro.md#overview)"));
    assert!(markdown.contains("- [2 Setting Up Your Fennel Environment](chapter2.xhtml)"));
    assert!(!markdown.contains("Lua 1.1 Overview"));
}

#[test]
fn structures_flat_plain_text_toc() {
    let markdown = cleanup("Contents 1 Introduction to Fennel and Lua 1.1 Overview of Lua Language 1.2 Fennel as a Lisp for Lua 2 Setting Up Your Fennel Environment 2.1 Installing Lua");

    assert!(markdown.contains("## Contents"));
    assert!(markdown.contains("- 1 Introduction to Fennel and Lua"));
    assert!(markdown.contains("- 1.1 Overview of Lua Language"));
    assert!(markdown.contains("- 2 Setting Up Your Fennel Environment"));
    assert!(!markdown.contains("Lua 1.1 Overview"));
}

#[test]
fn structures_flat_toc_paragraph_after_contents_heading() {
    let markdown = cleanup("# Contents\n\n1 [Introduction to Fennel and Lua](chapter-1.md) 1.1 [Overview of Lua Language](chapter-1.md#overview) 1.2 [Fennel as a Lisp for Lua](chapter-1.md#fennel) 2 [Setting Up Your Fennel Environment](chapter-2.md)");

    assert!(markdown.contains("# Contents"));
    assert!(markdown.contains("- 1 [Introduction to Fennel and Lua](chapter-1.md)"));
    assert!(markdown.contains("- 1.1 [Overview of Lua Language](chapter-1.md#overview)"));
    assert!(markdown.contains("- 2 [Setting Up Your Fennel Environment](chapter-2.md)"));
    assert!(!markdown.contains("Lua](chapter-1.md) 1.1"));
}

#[test]
fn structures_flat_toc_after_single_newline_heading() {
    let markdown = cleanup("# Contents\n1 [Introduction to Fennel and Lua](chapter-1.md) 1.1 [Overview of Lua Language](chapter-1.md#overview) 1.2 [Fennel as a Lisp for Lua](chapter-1.md#fennel) 2 [Setting Up Your Fennel Environment](chapter-2.md)");

    assert!(markdown.contains("# Contents"));
    assert!(markdown.contains("- 1 [Introduction to Fennel and Lua](chapter-1.md)"));
    assert!(markdown.contains("- 1.1 [Overview of Lua Language](chapter-1.md#overview)"));
    assert!(!markdown.contains("Lua](chapter-1.md) 1.1"));
}

#[test]
fn structures_flat_html_paragraph_toc() {
    let markdown = cleanup("# Contents\n<p>1 <a href=\"chapter-1.md\">Introduction to Fennel and Lua</a> 1.1 <a href=\"chapter-1.md#overview\">Overview of Lua Language</a> 1.2 <a href=\"chapter-1.md#fennel\">Fennel as a Lisp for Lua</a> 2 <a href=\"chapter-2.md\">Setting Up Your Fennel Environment</a></p>");

    assert!(markdown.contains("- 1 <a href=\"chapter-1.md\">Introduction to Fennel and Lua</a>"));
    assert!(markdown.contains("- 1.1 <a href=\"chapter-1.md#overview\">Overview of Lua Language</a>"));
    assert!(!markdown.contains("- <p>1"));
}

#[test]
fn moves_inline_anchors_out_of_toc_link_labels() {
    let markdown = cleanup("# Contents\n\n1 <a id=\"QQ2-4-3\"></a> [<a id=\"kobo.3.1\"></a> Introduction to Fennel and Lua](chapter-1.md) 1.1 <a id=\"QQ2-4-4\"></a> [<a id=\"kobo.5.1\"></a> Overview of Lua Language](chapter-1.md#overview) 2 <a id=\"QQ2-5-9\"></a> [<a id=\"kobo.7.1\"></a> Setting Up Your Fennel Environment](chapter-2.md)");

    assert!(!markdown.contains("[<a id=\"kobo.3.1\"></a> Introduction"));
    assert!(markdown.contains("<a id=\"kobo.3.1\"></a> [Introduction to Fennel and Lua](chapter-1.md)"));
}

#[test]
fn asset_file_names_never_repeat() {
    let mut mapper = AssetMapper::new();
    assert_eq!(mapper.unique_file_name("images/cover.jpg"), "images-cover.jpg");
    assert_eq!(mapper.unique_file_name("images/cover.jpg"), "images-cover-2.jpg");
    assert_eq!(mapper.unique_file_name("images?cover.jpg"), "images-cover-3.jpg");
    assert_eq!(mapper.unique_file_name("??.png"), "asset.png");
    assert_eq!(mapper.unique_file_name("notes"), "notes");
    assert_eq!(mapper.unique_file_name("notes"), "notes-2");
}

fn manifest_item(href: &str, media_type: &str) -> ManifestItem {
    ManifestItem {
        href: href.to_string(),
        media_type: media_type.to_string(),
        absolute_path: format!("OEBPS/{href}"),
        properties: String::new(),
    }
}

#[test]
fn navigation_documents_contribute_each_target_once() {
    let ncx = r#"<ncx xmlns="http://www.daisy.org/z3986/2005/ncx/"><navMap>
<navPoint id="a"><navLabel><text>One</text></navLabel><content src="chapter1.xhtml"/></navPoint>
<navPoint id="b"><navLabel><text>Two</text></navLabel><content src="chapter2.xhtml#s"/></navPoint>
</navMap></ncx>"#;
    let nav = r#"<html xmlns="http://www.w3.org/1999/xhtml" xmlns:epub="http://www.idpf.org/2007/ops"><body>
<nav epub:type="toc"><ol>
<li><a href="chapter1.xhtml">First</a></li>
<li><a href="chapter2.xhtml#s">Second</a></li>
<li><a href="chapter3.xhtml">Third</a></li>
</ol></nav></body></html>"#;
    let mut entries = TextMap::new();
    entries.insert("OEBPS/toc.ncx".to_string(), ncx.as_bytes().to_vec());
    entries.insert("OEBPS/nav.xhtml".to_string(), nav.as_bytes().to_vec());
    let items = vec![
        manifest_item("toc.ncx", "application/x-dtbncx+xml"),
        manifest_item("nav.xhtml", "application/xhtml+xml"),
    ];
    let points = navigation_points_from_items(&entries, &items);
    let seen: Vec<(String, Option<String>, String)> = points
        .iter()
        .map(|p| (p.epub_path.clone(), p.fragment.clone(), p.title.clone()))
        .collect();
    assert_eq!(
        seen,
        vec![
            ("OEBPS/chapter1.xhtml".to_string(), None, "One".to_string()),
            ("OEBPS/chapter2.xhtml".to_string(), Some("s".to_string()), "Two".to_string()),
            ("OEBPS/chapter3.xhtml".to_string(), None, "Third".to_string()),
        ]
    );
}

#[test]
fn protected_code_blocks_restore_to_the_input() {
    let markdown = "Intro   text\n\n```rust\nlet  x = 1;\n```\nmiddle\n~~~~\n~~~\nstill code\n~~~~\n```\nunclosed";
    let (protected, blocks) = protect_fenced_code_blocks(markdown);
    assert_eq!(blocks, vec!["```rust\nlet  x = 1;\n```\n".to_string(), "~~~~\n~~~\nstill code\n~~~~\n".to_string()]);
    assert_eq!(
        protected,
        "Intro   text\n\n\u{E000}EPUBMD_FENCED_CODE_BLOCK_0\u{E000}middle\n\u{E000}EPUBMD_FENCED_CODE_BLOCK_1\u{E000}```\nunclosed"
    );
    assert_eq!(restore_fenced_code_blocks(&protected, &blocks), markdown);
}

fn convert_body(body: &str) -> Result<String, epubmd::ConversionError> {
    let doc = format!("<html><body>{body}</body></html>");
    convert_xhtml_to_markdown(doc.as_bytes(), "OPS/c.xhtml", &AssetMapper::new(), &no_links())
}

#[test]
fn list_items_the_renderer_never_meets_are_accepted() {
    assert_eq!(convert_body("<pre><li>x</li></pre>").expect("pre"), "```\nx\n```\n");
    assert_eq!(
        convert_body("<table><caption><li>c</li></caption><tr><td>a</td></tr></table>").expect("table"),
        "| a |\n| --- |\n"
    );
    assert_eq!(convert_body("<ul><li>one</li><li>two</li></ul>").expect("list"), "- one\n- two\n");
}

#[test]
fn list_items_reached_only_by_renderings_that_do_not_happen_are_accepted() {
    assert_eq!(
        convert_body("<ul><li><pre><li>x</li></pre></li></ul>").expect("item with block content"),
        "- ```\n x\n ```\n"
    );
    assert_eq!(
        convert_body("<nav><pre><h2><li>z</li></h2></pre><a href=\"x.xhtml\">A</a></nav>").expect("nav with one link"),
        "```\nz\n```\n\n[A](x.xhtml)\n"
    );
}

#[test]
fn navigation_heading_holding_a_list_item_is_refused_with_two_links() {
    assert!(matches!(
        convert_body("<nav><pre><h2><li>z</li></h2></pre><a href=\"x.xhtml\">A</a><a href=\"y.xhtml\">B</a></nav>"),
        Err(epubmd::ConversionError::Conversion(m)) if m == "list item outside a list in OPS/c.xhtml"
    ));
}

#[test]
fn list_items_the_renderer_would_meet_are_refused() {
    assert!(matches!(
        convert_body("<p><li>x</li></p>"),
        Err(epubmd::ConversionError::Conversion(m)) if m == "list item outside a list in OPS/c.xhtml"
    ));
    assert!(convert_body("<p><pre><li>x</li></pre></p>").is_err());
    assert!(convert_body("<div><li>x</li></div>").is_err());
}

#[test]
fn json_escaped_text_reads_back_as_itself() {
    for value in ["plain", "quote \" and \\ backslash", "lines\nand\ttabs\r", "\u{1}\u{1f}\u{7f}\u{85}", "émoji 📚"] {
        let escaped = epubmd::markdown::json_escape(value);
        assert!(escaped.chars().all(|c| !c.is_control()));
        let decoded: String = serde_json::from_str(&format!("\"{escaped}\"")).expect("valid JSON string");
        assert_eq!(decoded, value);
    }
    assert_eq!(epubmd::markdown::json_escape("a\"\u{1}"), "a\\\"\\u0001");
}
