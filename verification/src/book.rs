//! The files that the archive holds besides the chapters: the README with
//! metadata and contents, and the reading style sheet; and the small
//! decisions about the book's documents.
use vstd::prelude::*;
use crate::text::{chars_of, string_of, append_chars, str_eq, trim_inline, spec_trim_inline, join_seq, join_with};
use crate::paths::{
    remove_fragment, spec_remove_fragment, fragment, spec_fragment, join_path, spec_join_path,
    normalize_path, spec_normalize_path,
};
use crate::model::{EpubPackage, Metadata, NavPoint, OutputChapter, opt_view, out_views};
use crate::text::strings_view;

verus! {

broadcast use vstd::string::group_string_axioms;

/// The metadata lines of the README, in order: authors, publisher,
/// date, language, identifier, each only when the book gives it.
pub open spec fn metadata_lines(m: Metadata) -> Seq<Seq<char>> {
    let authors = if m.creators@.len() > 0 {
        seq!["- Author: "@ + join_seq(strings_view(m.creators@), ", "@)]
    } else {
        Seq::empty()
    };
    let line = |label: Seq<char>, v: Option<String>| match v {
        Some(s) => seq![label + s@],
        None => Seq::<Seq<char>>::empty(),
    };
    authors + line("- Publisher: "@, m.publisher) + line("- Date: "@, m.date)
        + line("- Language: "@, m.language) + line("- Identifier: "@, m.identifier)
}

/// The contents lines: `- [title](chapters/file)` and a newline each.
pub open spec fn contents_lines(chapters: Seq<(Seq<char>, Seq<char>, Seq<char>)>) -> Seq<char>
    decreases chapters.len(),
{
    if chapters.len() == 0 {
        Seq::empty()
    } else {
        let c = chapters.last();
        contents_lines(chapters.drop_last()) + "- ["@ + c.1 + "](chapters/"@ + c.0 + ")\n"@
    }
}

pub open spec fn reading_style_note() -> Seq<char> {
    "\n## Reading style\n\nIf your Markdown viewer supports custom stylesheets, use `style.css` for a higher-contrast book-like reading view.\n"@
}

/// The README: title, metadata section when there is metadata, the
/// contents with a link to each chapter, and a note on the style sheet.
pub open spec fn spec_readme(title: Seq<char>, metadata: Metadata, chapters: Seq<(Seq<char>, Seq<char>, Seq<char>)>) -> Seq<char> {
    let lines = metadata_lines(metadata);
    let meta = if lines.len() > 0 { "## Metadata\n\n"@ + join_seq(lines, "\n"@) + "\n\n"@ } else { Seq::empty() };
    "# "@ + title + "\n\n"@ + meta + "## Contents\n\n"@ + contents_lines(chapters) + reading_style_note()
}

/// The start of a README up to the end of its author line.
pub open spec fn readme_through_authors(title: Seq<char>, m: Metadata) -> Seq<char> {
    "# "@ + title + "\n\n"@ + "## Metadata\n\n"@ + "- Author: "@ + join_seq(strings_view(m.creators@), ", "@)
}

/// A README names every author of the book: when the book has creators,
/// the title line and the "## Metadata" heading are followed by the line
/// "- Author: " with every creator, in the order the book gives them,
/// separated by ", "; the line ends there.
pub proof fn law_readme_names_every_author(title: Seq<char>, m: Metadata, chapters: Seq<(Seq<char>, Seq<char>, Seq<char>)>)
    requires
        m.creators@.len() > 0,
    ensures
        readme_through_authors(title, m).len() < spec_readme(title, m, chapters).len(),
        spec_readme(title, m, chapters).take(readme_through_authors(title, m).len() as int) == readme_through_authors(title, m),
        spec_readme(title, m, chapters)[readme_through_authors(title, m).len() as int] == '\n',
{
    reveal_strlit("\n");
    reveal_strlit("\n\n");
    let lines = metadata_lines(m);
    let author = "- Author: "@ + join_seq(strings_view(m.creators@), ", "@);
    assert(lines[0] == author);
    assert(lines.len() > 0);
    let joined = join_seq(lines, "\n"@);
    let w = author.len() as int;
    if lines.len() == 1 {
        assert(joined == author);
    } else {
        crate::text::lemma_join_starts_with_first_and_sep(lines, "\n"@);
        assert(joined.take(w + 1) == author + "\n"@);
        assert(joined.take(w) =~= joined.take(w + 1).take(w));
        assert(joined[w] == joined.take(w + 1)[w]);
    }
    assert(w < joined.len() + 1);
    let meta = "## Metadata\n\n"@ + joined + "\n\n"@;
    let head = "# "@ + title + "\n\n"@;
    let r = spec_readme(title, m, chapters);
    assert(r == head + meta + "## Contents\n\n"@ + contents_lines(chapters) + reading_style_note());
    let p = readme_through_authors(title, m);
    assert(p =~= head + "## Metadata\n\n"@ + author);
    let k = p.len() as int;
    assert(r.take(k) =~= head + "## Metadata\n\n"@ + (joined + "\n\n"@).take(w));
    assert((joined + "\n\n"@).take(w) =~= joined.take(w));
    assert(r[k] == (joined + "\n\n"@)[w]);
}

fn push_line(lines: &mut Vec<Vec<char>>, label: &str, value: &Option<String>)
    ensures
        final(lines)@.map_values(|v: Vec<char>| v@) == old(lines)@.map_values(|v: Vec<char>| v@) + match value {
            Some(s) => seq![label@ + s@],
            None => Seq::<Seq<char>>::empty(),
        },
{
    let ghost before = lines@.map_values(|v: Vec<char>| v@);
    match value {
        Some(s) => {
            let mut l = chars_of(label);
            append_chars(&mut l, &chars_of(s.as_str()));
            lines.push(l);
            assert(lines@.map_values(|v: Vec<char>| v@) =~= before + seq![l@]);
        },
        None => {
            assert(lines@.map_values(|v: Vec<char>| v@) =~= before + Seq::<Seq<char>>::empty());
        },
    }
}

fn strings_as_chars(v: &Vec<String>) -> (r: Vec<Vec<char>>)
    ensures
        r@.map_values(|x: Vec<char>| x@) == strings_view(v@),
{
    let mut r: Vec<Vec<char>> = Vec::new();
    let mut i: usize = 0;
    while i < v.len()
        invariant
            i <= v@.len(),
            r@.map_values(|x: Vec<char>| x@) == strings_view(v@).take(i as int),
        decreases v@.len() - i,
    {
        let ghost before = r@.map_values(|x: Vec<char>| x@);
        let c = chars_of(v[i].as_str());
        r.push(c);
        assert(r@.map_values(|x: Vec<char>| x@) =~= before.push(c@));
        assert(strings_view(v@).take(i + 1) =~= strings_view(v@).take(i as int).push(v@[i as int]@));
        i += 1;
    }
    assert(strings_view(v@).take(v@.len() as int) =~= strings_view(v@));
    r
}

/// The README of the archive.
pub fn readme(package: &EpubPackage, chapters: &[OutputChapter]) -> (r: String)
    ensures
        r@ == spec_readme(package.title@, package.metadata, out_views(chapters@)),
{
    proof {
        reveal_strlit("# ");
        reveal_strlit("\n\n");
        reveal_strlit("\n");
        reveal_strlit(", ");
        reveal_strlit("- Author: ");
        reveal_strlit("## Metadata\n\n");
        reveal_strlit("## Contents\n\n");
        reveal_strlit("- [");
        reveal_strlit("](chapters/");
        reveal_strlit(")\n");
    }
    let m = &package.metadata;
    let mut lines: Vec<Vec<char>> = Vec::new();
    if m.creators.len() > 0 {
        let mut l = chars_of("- Author: ");
        append_chars(&mut l, &join_with(&strings_as_chars(&m.creators), &chars_of(", ")));
        lines.push(l);
        assert(lines@.map_values(|v: Vec<char>| v@) =~= seq![l@]);
    } else {
        assert(lines@.map_values(|v: Vec<char>| v@) =~= Seq::<Seq<char>>::empty());
    }
    push_line(&mut lines, "- Publisher: ", &m.publisher);
    push_line(&mut lines, "- Date: ", &m.date);
    push_line(&mut lines, "- Language: ", &m.language);
    push_line(&mut lines, "- Identifier: ", &m.identifier);
    assert(lines@.map_values(|v: Vec<char>| v@) =~= metadata_lines(*m));
    let mut out = chars_of("# ");
    append_chars(&mut out, &chars_of(package.title.as_str()));
    append_chars(&mut out, &chars_of("\n\n"));
    let ghost head = out@;
    if lines.len() > 0 {
        append_chars(&mut out, &chars_of("## Metadata\n\n"));
        append_chars(&mut out, &join_with(&lines, &chars_of("\n")));
        append_chars(&mut out, &chars_of("\n\n"));
    }
    append_chars(&mut out, &chars_of("## Contents\n\n"));
    let ghost cv = out_views(chapters@);
    let ghost before_contents = out@;
    let mut i: usize = 0;
    assert(cv.take(0) =~= Seq::<(Seq<char>, Seq<char>, Seq<char>)>::empty());
    assert(before_contents + contents_lines(cv.take(0)) =~= before_contents);
    while i < chapters.len()
        invariant
            i <= chapters@.len(),
            cv == out_views(chapters@),
            out@ == before_contents + contents_lines(cv.take(i as int)),
        decreases chapters@.len() - i,
    {
        let ghost t = cv.take(i + 1);
        assert(t.drop_last() =~= cv.take(i as int));
        assert(t.last() == (chapters@[i as int].file_name@, chapters@[i as int].title@, chapters@[i as int].markdown@));
        append_chars(&mut out, &chars_of("- ["));
        append_chars(&mut out, &chars_of(chapters[i].title.as_str()));
        append_chars(&mut out, &chars_of("](chapters/"));
        append_chars(&mut out, &chars_of(chapters[i].file_name.as_str()));
        append_chars(&mut out, &chars_of(")\n"));
        assert(out@ =~= before_contents + contents_lines(cv.take(i + 1)));
        i += 1;
    }
    assert(cv.take(chapters@.len() as int) =~= cv);
    let note = "\n## Reading style\n\nIf your Markdown viewer supports custom stylesheets, use `style.css` for a higher-contrast book-like reading view.\n";
    append_chars(&mut out, &chars_of(note));
    assert(out@ =~= spec_readme(package.title@, package.metadata, cv));
    string_of(&out)
}

/// The reading style sheet written as `style.css`.
pub open spec fn spec_reader_style() -> Seq<char> {
    READER_STYLE@
}

pub const READER_STYLE: &'static str = r#":root {
  color-scheme: light dark;
}

body {
  max-width: 78ch;
  margin: 3rem auto;
  padding: 0 1.5rem;
  color: #1f2937;
  background: #ffffff;
  font: 17px/1.65 -apple-system, BlinkMacSystemFont, "Segoe UI", sans-serif;
}

h1, h2, h3, h4, h5, h6 {
  color: #111827;
  line-height: 1.25;
  margin-top: 2rem;
}

a {
  color: #0969da;
}

blockquote {
  color: #374151;
  border-left: 4px solid #d1d5db;
  margin-left: 0;
  padding-left: 1rem;
}

pre, code {
  color: #111827;
  background: #f6f8fa;
}

img {
  max-width: 100%;
  height: auto;
}

@media (prefers-color-scheme: dark) {
  body {
    color: #e5e7eb;
    background: #0f172a;
  }

  h1, h2, h3, h4, h5, h6,
  pre, code {
    color: #f9fafb;
  }

  a {
    color: #8ab4f8;
  }

  blockquote {
    color: #d1d5db;
    border-left-color: #4b5563;
  }

  pre, code {
    background: #111827;
  }
}
"#;

pub fn reader_style() -> (r: &'static str)
    ensures
        r@ == spec_reader_style(),
{
    READER_STYLE
}

/// The navigation entry for a link: its title on one line, the linked
/// document resolved against `base_directory`, and the fragment.
pub fn nav_point_from_href(title: String, href: &str, base_directory: &str, depth: usize) -> (r: NavPoint)
    ensures
        r.title@ == spec_trim_inline(title@),
        r.epub_path@ == spec_normalize_path(spec_join_path(base_directory@, spec_remove_fragment(href@))),
        opt_view(r.fragment) == spec_fragment(href@),
        r.depth == depth,
{
    let no_fragment = remove_fragment(href);
    NavPoint {
        title: trim_inline(title.as_str()),
        epub_path: normalize_path(join_path(base_directory, no_fragment.as_str()).as_str()),
        fragment: fragment(href),
        depth,
    }
}

/// The HTML elements that are rendered as blocks of their own.
pub open spec fn spec_is_block_element(name: Seq<char>) -> bool {
    name == "address"@ || name == "article"@ || name == "aside"@ || name == "blockquote"@
        || name == "body"@ || name == "caption"@ || name == "dd"@ || name == "div"@
        || name == "dl"@ || name == "dt"@ || name == "figcaption"@ || name == "figure"@
        || name == "footer"@ || name == "form"@ || name == "h1"@ || name == "h2"@
        || name == "h3"@ || name == "h4"@ || name == "h5"@ || name == "h6"@
        || name == "header"@ || name == "hr"@ || name == "html"@ || name == "li"@
        || name == "main"@ || name == "nav"@ || name == "ol"@ || name == "p"@
        || name == "pre"@ || name == "section"@ || name == "table"@ || name == "tbody"@
        || name == "td"@ || name == "tfoot"@ || name == "th"@ || name == "thead"@
        || name == "tr"@ || name == "ul"@
}

pub fn is_block_element(name: &str) -> (r: bool)
    ensures
        r == spec_is_block_element(name@),
{
    str_eq(name, "address") || str_eq(name, "article") || str_eq(name, "aside") || str_eq(name, "blockquote")
        || str_eq(name, "body") || str_eq(name, "caption") || str_eq(name, "dd") || str_eq(name, "div")
        || str_eq(name, "dl") || str_eq(name, "dt") || str_eq(name, "figcaption") || str_eq(name, "figure")
        || str_eq(name, "footer") || str_eq(name, "form") || str_eq(name, "h1") || str_eq(name, "h2")
        || str_eq(name, "h3") || str_eq(name, "h4") || str_eq(name, "h5") || str_eq(name, "h6")
        || str_eq(name, "header") || str_eq(name, "hr") || str_eq(name, "html") || str_eq(name, "li")
        || str_eq(name, "main") || str_eq(name, "nav") || str_eq(name, "ol") || str_eq(name, "p")
        || str_eq(name, "pre") || str_eq(name, "section") || str_eq(name, "table") || str_eq(name, "tbody")
        || str_eq(name, "td") || str_eq(name, "tfoot") || str_eq(name, "th") || str_eq(name, "thead")
        || str_eq(name, "tr") || str_eq(name, "ul")
}

} // verus!
