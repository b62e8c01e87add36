//! Where the links between the book's documents point once its chapters
//! are Markdown files.
use vstd::prelude::*;
use crate::text::{chars_of, string_of, append_chars, to_lowercase, lowercase, starts_with_chars};
use crate::paths::{
    remove_fragment, fragment, spec_remove_fragment, spec_fragment, join_path, spec_join_path,
    normalize_path, spec_normalize_path, parent_dir, spec_parent_dir,
};
use crate::textmap::TextMap;
use crate::model::opt_view;

verus! {

broadcast use vstd::string::group_string_axioms;

/// The chapter file that each book document (`path`) or anchor
/// (`path#fragment`) ends up in.
pub struct ChapterLinkMap {
    pub epub_path_to_markdown: TextMap<String>,
}

pub open spec fn has_prefix(s: Seq<char>, p: Seq<char>) -> bool {
    p.len() <= s.len() && s.take(p.len() as int) == p
}

/// Whether a link leaves the book: `http://`, `https://` or `mailto:`,
/// in any case.
pub open spec fn is_external_link(href: Seq<char>) -> bool {
    has_prefix(lowercase(href), "http://"@) || has_prefix(lowercase(href), "https://"@)
        || has_prefix(lowercase(href), "mailto:"@)
}

pub open spec fn map_string_view(m: Map<Seq<char>, String>) -> Map<Seq<char>, Seq<char>> {
    m.map_values(|v: String| v@)
}

/// What a link `href` found in the document at `current` becomes.
pub open spec fn spec_markdown_link(m: Map<Seq<char>, Seq<char>>, href: Seq<char>, current: Seq<char>) -> Option<Seq<char>> {
    if is_external_link(href) {
        Some(href)
    } else {
        let target = spec_remove_fragment(href);
        let frag = spec_fragment(href);
        if target.len() == 0 {
            match frag {
                Some(f) => Some(seq!['#'] + f),
                None => None,
            }
        } else {
            let normalized = spec_normalize_path(spec_join_path(spec_parent_dir(current), target));
            match frag {
                Some(f) => {
                    let exact = normalized.push('#') + f;
                    if m.contains_key(exact) {
                        Some(m[exact])
                    } else if m.contains_key(normalized) {
                        Some(m[normalized].push('#') + f)
                    } else {
                        None
                    }
                },
                None => if m.contains_key(normalized) { Some(m[normalized]) } else { None },
            }
        }
    }
}

fn starts_with_str(v: &Vec<char>, p: &str) -> (r: bool)
    ensures
        r == has_prefix(v@, p@),
{
    starts_with_chars(v, &chars_of(p))
}

impl ChapterLinkMap {
    pub open spec fn view_map(&self) -> Map<Seq<char>, Seq<char>> {
        map_string_view(self.epub_path_to_markdown@)
    }

    /// The Markdown target of a link `href` found in the document at
    /// `current_epub_path`: external links are kept, a bare `#fragment`
    /// stays in the chapter, and a link into the book goes to the chapter
    /// that holds its anchor or its document.
    pub fn markdown_path(&self, href: &str, current_epub_path: &str) -> (r: Option<String>)
        ensures
            opt_view(r) == spec_markdown_link(self.view_map(), href@, current_epub_path@),
    {
        let lower = chars_of(to_lowercase(href).as_str());
        proof {
            reveal_strlit("http://");
            reveal_strlit("https://");
            reveal_strlit("mailto:");
        }
        if starts_with_str(&lower, "http://") || starts_with_str(&lower, "https://")
            || starts_with_str(&lower, "mailto:") {
            return Some(string_of(&chars_of(href)));
        }
        let target = remove_fragment(href);
        let frag = fragment(href);
        if target.as_str().is_empty() {
            return match frag {
                Some(f) => {
                    let mut out: Vec<char> = Vec::new();
                    out.push('#');
                    append_chars(&mut out, &chars_of(f.as_str()));
                    assert(out@ =~= seq!['#'] + f@);
                    Some(string_of(&out))
                },
                None => None,
            };
        }
        let base = parent_dir(current_epub_path);
        let normalized = normalize_path(join_path(base.as_str(), target.as_str()).as_str());
        match frag {
            Some(f) => {
                let mut exact = chars_of(normalized.as_str());
                exact.push('#');
                append_chars(&mut exact, &chars_of(f.as_str()));
                let exact = string_of(&exact);
                if let Some(m) = self.epub_path_to_markdown.get(exact.as_str()) {
                    return Some(m.clone());
                }
                match self.epub_path_to_markdown.get(normalized.as_str()) {
                    Some(m) => {
                        let mut out = chars_of(m.as_str());
                        out.push('#');
                        append_chars(&mut out, &chars_of(f.as_str()));
                        Some(string_of(&out))
                    },
                    None => None,
                }
            },
            None => match self.epub_path_to_markdown.get(normalized.as_str()) {
                Some(m) => Some(m.clone()),
                None => None,
            },
        }
    }
}

} // verus!
