# epubmd

Converts DRM-free EPUB books into zip archives of Markdown chapters
(`chapters/*.md`), assets, `README.md`, `metadata.json` and `style.css`,
and holds the library logic of a small reader for such archives (`.zmd`).

The library in `src/` is written in Verus: each function carries a
contract over a mathematical model of its data, and Verus proves it.

- `xml`, `content`, `render`: XHTML documents parsed (by `roxmltree`) into a
  node list, and rendered as Markdown.
- `package`, `navigation`: the OPF package, its metadata, spine, cover and
  table of contents.
- `segments`, `link_targets`, `chapters`, `toc`, `flat_toc`, `fences`,
  `cleanup`, `book`: cutting the book into chapters, linking them, and
  cleaning up the Markdown.
- `assets`, `archive`, `conversion`: copying images and building the
  archive's entries.
- `reader_text`, `book_payload`, `library`, `progress`: opening archives,
  listing books and themes, and keeping reading positions.

`app/` is the command-line program and the file-system side of the
reader: reading and writing zip files, the configuration directory, and
the reading-progress file in JSON.
