//! Cutting a book into logical chapters along its navigation.
use vstd::prelude::*;
use vstd::set_lib::{set_int_range, lemma_int_range, lemma_len_subset, lemma_map_size};
use crate::text::{chars_of, string_of, trim_inline, spec_trim_inline, append_chars, chars_eq, str_eq};
use crate::regex_calls::{regex_match, regex_is_match};
use crate::naming::{chapter_file_name, spec_chapter_file_name, decimal, push_decimal, md_suffix};
use crate::model::{
    NavPoint, NavTarget, ChapterData, LogicalChapterSegment, SegmentView, seg_view, seg_views,
    opt_view, clone_opt_string, opt_string_eq, clone_segments,
};

verus! {

broadcast use vstd::string::group_string_axioms;

pub open spec fn ideographic_to_space(s: Seq<char>) -> Seq<char> {
    Seq::new(s.len(), |i: int| if s[i] == '\u{3000}' { ' ' } else { s[i] })
}

/// Whether a navigation title reads like the title of a whole chapter
/// (numbered chapter, CJK chapter heading, or a named part such as a
/// preface), rather than a numbered subsection.
pub open spec fn spec_is_likely_chapter_title(title: Seq<char>) -> bool {
    let t = ideographic_to_space(spec_trim_inline(title));
    &&& t.len() > 0
    &&& !regex_match(r"^\d+(?:\.\d+)+\s+"@, t)
    &&& (regex_match(r"^\d+\s+\S"@, t)
        || regex_match(r"^第[一二三四五六七八九十百千万\d]+[章节部分卷篇]"@, t)
        || regex_match(
        r"^(附录|Appendix|Preface|Introduction|Foreword|Afterword|Part|Chapter|序言|前言|引言|作者介绍|后记|参考)"@,
        t,
    ))
}

pub fn is_likely_logical_chapter_title(title: &str) -> (r: bool)
    ensures
        r == spec_is_likely_chapter_title(title@),
{
    let trimmed = chars_of(trim_inline(title).as_str());
    let mut t: Vec<char> = Vec::new();
    let mut i: usize = 0;
    while i < trimmed.len()
        invariant
            i <= trimmed.len(),
            t@ == ideographic_to_space(trimmed@).take(i as int),
        decreases trimmed.len() - i,
    {
        let c = if trimmed[i] == '\u{3000}' { ' ' } else { trimmed[i] };
        t.push(c);
        assert(ideographic_to_space(trimmed@).take(i + 1) =~= ideographic_to_space(trimmed@).take(i as int).push(c));
        i += 1;
    }
    assert(ideographic_to_space(trimmed@).take(trimmed.len() as int) =~= ideographic_to_space(trimmed@));
    if t.len() == 0 {
        return false;
    }
    let text = string_of(&t);
    if regex_is_match(r"^\d+(?:\.\d+)+\s+", text.as_str()) {
        return false;
    }
    regex_is_match(r"^\d+\s+\S", text.as_str())
        || regex_is_match(r"^第[一二三四五六七八九十百千万\d]+[章节部分卷篇]", text.as_str())
        || regex_is_match(
        r"^(附录|Appendix|Preface|Introduction|Foreword|Afterword|Part|Chapter|序言|前言|引言|作者介绍|后记|参考)",
        text.as_str(),
    )
}

/// The spine index of the document at `path`: the last spine document
/// with that path.
pub open spec fn spine_index_for(chapters: Seq<ChapterData>, path: Seq<char>) -> Option<nat>
    decreases chapters.len(),
{
    if chapters.len() == 0 {
        None
    } else if chapters.last().item.absolute_path@ == path {
        Some((chapters.len() - 1) as nat)
    } else {
        spine_index_for(chapters.drop_last(), path)
    }
}

proof fn lemma_spine_index_bound(chapters: Seq<ChapterData>, path: Seq<char>)
    ensures
        spine_index_for(chapters, path) matches Some(k) ==> k < chapters.len(),
    decreases chapters.len(),
{
    if chapters.len() > 0 {
        lemma_spine_index_bound(chapters.drop_last(), path);
    }
}

pub fn spine_index_for_path(chapters: &[ChapterData], path: &str) -> (r: Option<usize>)
    ensures
        match r {
            Some(k) => spine_index_for(chapters@, path@) == Some(k as nat) && k < chapters@.len(),
            None => spine_index_for(chapters@, path@) is None,
        },
{
    let mut i = chapters.len();
    assert(chapters@.take(chapters@.len() as int) =~= chapters@);
    while i > 0
        invariant
            i <= chapters@.len(),
            spine_index_for(chapters@.take(i as int), path@) == spine_index_for(chapters@, path@),
        decreases i,
    {
        let ghost t = chapters@.take(i as int);
        assert(t.drop_last() =~= chapters@.take(i - 1));
        assert(t.last() == chapters@[i - 1]);
        if str_eq(chapters[i - 1].item.absolute_path.as_str(), path) {
            return Some(i - 1);
        }
        i -= 1;
    }
    None
}

/// The deepest navigation level, 1 when there is no navigation.
pub open spec fn max_depth(nav: Seq<NavPoint>) -> nat
    decreases nav.len(),
{
    if nav.len() == 0 {
        1
    } else {
        let rest = if nav.len() == 1 { 0 } else { max_depth(nav.drop_last()) };
        if nav.last().depth > rest { nav.last().depth as nat } else { rest }
    }
}

pub fn max_nav_depth(nav: &[NavPoint]) -> (r: usize)
    ensures
        r == max_depth(nav@),
{
    if nav.len() == 0 {
        return 1;
    }
    let mut best: usize = 0;
    let mut i: usize = 0;
    while i < nav.len()
        invariant
            i <= nav@.len(),
            nav@.len() > 0,
            i == 0 ==> best == 0,
            i > 0 ==> best == max_depth(nav@.take(i as int)),
        decreases nav@.len() - i,
    {
        let ghost t = nav@.take(i + 1);
        assert(t.drop_last() =~= nav@.take(i as int));
        if nav[i].depth > best {
            best = nav[i].depth;
        }
        i += 1;
    }
    assert(nav@.take(nav@.len() as int) =~= nav@);
    best
}

/// The two ways of choosing where logical chapters start.
pub enum SplitRule {
    /// Top-level entries (or chapter-like titles in a flat navigation).
    Conservative,
    /// Entries with an anchor, down to the second level.
    Aggressive,
}

pub open spec fn spec_splits_at(rule: SplitRule, max_depth: nat, p: NavPoint) -> bool {
    match rule {
        SplitRule::Conservative => if max_depth > 1 {
            p.depth == 1
        } else {
            spec_is_likely_chapter_title(p.title@)
        },
        SplitRule::Aggressive => p.fragment is Some && if max_depth > 1 {
            p.depth <= 2
        } else {
            spec_is_likely_chapter_title(p.title@)
        },
    }
}

fn splits_at(rule: &SplitRule, max_depth: usize, p: &NavPoint) -> (r: bool)
    ensures
        r == spec_splits_at(*rule, max_depth as nat, *p),
{
    match rule {
        SplitRule::Conservative => if max_depth > 1 {
            p.depth == 1
        } else {
            is_likely_logical_chapter_title(p.title.as_str())
        },
        SplitRule::Aggressive => p.fragment.is_some() && if max_depth > 1 {
            p.depth <= 2
        } else {
            is_likely_logical_chapter_title(p.title.as_str())
        },
    }
}

/// `s` with every trailing `.md` removed, as `trim_end_matches(".md")`.
pub open spec fn trim_md(s: Seq<char>) -> Seq<char>
    decreases s.len(),
{
    if s.len() >= 3 && s.skip(s.len() - 3) == md_suffix() {
        trim_md(s.take(s.len() - 3))
    } else {
        s
    }
}

/// `format!("{base}-{suffix}.md")`.
pub open spec fn suffixed_name(base: Seq<char>, suffix: nat) -> Seq<char> {
    base.push('-') + decimal(suffix) + md_suffix()
}

/// The smallest suffix from 2 on whose name is not taken.
pub open spec fn first_free_suffix(base: Seq<char>, taken: Set<Seq<char>>) -> nat {
    choose|s: nat| s >= 2 && !taken.contains(suffixed_name(base, s))
        && forall|t: nat| 2 <= t < s ==> taken.contains(#[trigger] suffixed_name(base, t))
}

/// The file name given to a segment whose natural name is `name` when
/// the names in `taken` are already used.
pub open spec fn pick_name(name: Seq<char>, taken: Set<Seq<char>>) -> Seq<char> {
    if !taken.contains(name) {
        name
    } else {
        suffixed_name(trim_md(name), first_free_suffix(trim_md(name), taken))
    }
}

pub open spec fn names_of(segs: Seq<SegmentView>) -> Set<Seq<char>> {
    segs.map_values(|s: SegmentView| s.file_name).to_set()
}

pub open spec fn is_selected(chapters: Seq<ChapterData>, rule: SplitRule, max_depth: nat, p: NavPoint) -> bool {
    spine_index_for(chapters, p.epub_path@) is Some && spec_splits_at(rule, max_depth, p)
}

/// The segments that the navigation entries `nav` give: one for each
/// entry in the spine that the rule splits at, named after its title and
/// made unique with a numeric suffix when needed.
pub open spec fn spec_build_segments(
    nav: Seq<NavPoint>,
    chapters: Seq<ChapterData>,
    rule: SplitRule,
    max_depth: nat,
) -> Seq<SegmentView>
    decreases nav.len(),
{
    if nav.len() == 0 {
        Seq::<SegmentView>::empty()
    } else {
        let prev = spec_build_segments(nav.drop_last(), chapters, rule, max_depth);
        let p = nav.last();
        if is_selected(chapters, rule, max_depth, p) {
            let name = spec_chapter_file_name((prev.len() + 1) as nat, Some(p.title@), p.epub_path@);
            prev.push(SegmentView {
                title: p.title@,
                file_name: pick_name(name, names_of(prev)),
                nav_index: (nav.len() - 1) as nat,
                spine_index: spine_index_for(chapters, p.epub_path@)->0,
                fragment: opt_view(p.fragment),
            })
        } else {
            prev
        }
    }
}

pub proof fn lemma_decimal_len(n: nat)
    ensures
        decimal(n).len() >= 1,
        n >= 10 ==> decimal(n).len() >= 2,
        n < 10 ==> decimal(n).len() == 1,
    decreases n,
{
    if n >= 10 {
        lemma_decimal_len(n / 10);
    }
}

pub proof fn lemma_decimal_injective(a: nat, b: nat)
    requires
        decimal(a) == decimal(b),
    ensures
        a == b,
    decreases a,
{
    lemma_decimal_len(a);
    lemma_decimal_len(b);
    if a < 10 && b < 10 {
        assert(decimal(a) == seq![crate::naming::digit_char(a)]);
        assert(decimal(b) == seq![crate::naming::digit_char(b)]);
        assert(decimal(a)[0] == decimal(b)[0]);
        assert(seq![crate::naming::digit_char(a)][0] == crate::naming::digit_char(a));
        assert(seq![crate::naming::digit_char(b)][0] == crate::naming::digit_char(b));
        lemma_digit_injective(a, b);
    } else if a >= 10 && b >= 10 {
        assert(decimal(a).drop_last() =~= decimal(a / 10));
        assert(decimal(b).drop_last() =~= decimal(b / 10));
        lemma_decimal_injective(a / 10, b / 10);
        assert(decimal(a).last() == decimal(b).last());
        assert(decimal(a).last() == crate::naming::digit_char(a % 10));
        assert(decimal(b).last() == crate::naming::digit_char(b % 10));
        lemma_digit_injective(a % 10, b % 10);
        assert(a == (a / 10) * 10 + a % 10);
        assert(b == (b / 10) * 10 + b % 10);
    }
}

pub proof fn lemma_digit_injective(a: nat, b: nat)
    requires
        a < 10,
        b < 10,
        crate::naming::digit_char(a) == crate::naming::digit_char(b),
    ensures
        a == b,
{
}

proof fn lemma_suffixed_injective(base: Seq<char>, a: nat, b: nat)
    requires
        suffixed_name(base, a) == suffixed_name(base, b),
    ensures
        a == b,
{
    let na = suffixed_name(base, a);
    let nb = suffixed_name(base, b);
    assert(na.len() == nb.len());
    let da = decimal(a);
    let db = decimal(b);
    assert(da.len() == db.len());
    assert(da =~= na.subrange(base.len() + 1 as int, base.len() + 1 + da.len() as int));
    assert(db =~= nb.subrange(base.len() + 1 as int, base.len() + 1 + db.len() as int));
    lemma_decimal_injective(a, b);
}

/// Some suffix below `taken.len() + 3` gives a name that is not taken.
proof fn lemma_free_suffix_exists(base: Seq<char>, taken: Set<Seq<char>>)
    requires
        taken.finite(),
    ensures
        exists|s: nat| 2 <= s < taken.len() + 3 && !taken.contains(#[trigger] suffixed_name(base, s)),
{
    if forall|s: nat| 2 <= s < taken.len() + 3 ==> taken.contains(#[trigger] suffixed_name(base, s)) {
        let r = set_int_range(2, taken.len() + 3 as int);
        lemma_int_range(2, taken.len() + 3 as int);
        let f = |i: int| suffixed_name(base, i as nat);
        let img = r.map(f);
        assert forall|x: int, y: int| r.contains(x) && r.contains(y) && #[trigger] f(x) == #[trigger] f(y)
            implies x == y by {
            lemma_suffixed_injective(base, x as nat, y as nat);
        }
        assert(vstd::relations::injective_on(f, r));
        lemma_map_size(r, img, f);
        assert(img.subset_of(taken)) by {
            assert forall|n: Seq<char>| img.contains(n) implies taken.contains(n) by {
                let x = choose|x: int| r.contains(x) && f(x) == n;
                assert(taken.contains(suffixed_name(base, x as nat)));
            }
        }
        lemma_len_subset(img, taken);
        assert(false);
    }
}

/// The least free suffix is the one `first_free_suffix` chooses.
proof fn lemma_first_free_suffix(base: Seq<char>, taken: Set<Seq<char>>, s: nat)
    requires
        s >= 2,
        !taken.contains(suffixed_name(base, s)),
        forall|t: nat| 2 <= t < s ==> taken.contains(#[trigger] suffixed_name(base, t)),
    ensures
        first_free_suffix(base, taken) == s,
{
    let c = first_free_suffix(base, taken);
    assert(c >= 2 && !taken.contains(suffixed_name(base, c))
        && forall|t: nat| 2 <= t < c ==> taken.contains(#[trigger] suffixed_name(base, t)));
    if c < s {
        assert(taken.contains(suffixed_name(base, c)));
    } else if s < c {
        assert(taken.contains(suffixed_name(base, s)));
    }
}

proof fn lemma_trim_md_step(s: Seq<char>)
    ensures
        (s.len() >= 3 && s[s.len() - 3] == '.' && s[s.len() - 2] == 'm' && s[s.len() - 1] == 'd')
            ==> trim_md(s) == trim_md(s.take(s.len() - 3)),
        !(s.len() >= 3 && s[s.len() - 3] == '.' && s[s.len() - 2] == 'm' && s[s.len() - 1] == 'd')
            ==> trim_md(s) == s,
{
    if s.len() >= 3 {
        let t = s.skip(s.len() - 3);
        if s[s.len() - 3] == '.' && s[s.len() - 2] == 'm' && s[s.len() - 1] == 'd' {
            assert(t =~= md_suffix());
        } else {
            if t == md_suffix() {
                assert(t[0] == s[s.len() - 3]);
                assert(t[1] == s[s.len() - 2]);
                assert(t[2] == s[s.len() - 1]);
            }
        }
    }
}

fn trim_md_chars(v: &Vec<char>) -> (r: Vec<char>)
    ensures
        r@ == trim_md(v@),
{
    let mut end = v.len();
    assert(v@.take(v.len() as int) =~= v@);
    while end >= 3 && v[end - 3] == '.' && v[end - 2] == 'm' && v[end - 1] == 'd'
        invariant
            end <= v.len(),
            trim_md(v@.take(end as int)) == trim_md(v@),
        decreases end,
    {
        proof {
            lemma_trim_md_step(v@.take(end as int));
            assert(v@.take(end as int).take(end - 3) =~= v@.take(end - 3));
        }
        end -= 3;
    }
    proof {
        lemma_trim_md_step(v@.take(end as int));
    }
    crate::text::sub_chars(v, 0, end)
}

fn suffixed(base: &Vec<char>, suffix: usize) -> (r: Vec<char>)
    ensures
        r@ == suffixed_name(base@, suffix as nat),
{
    let mut r: Vec<char> = Vec::new();
    append_chars(&mut r, base);
    r.push('-');
    push_decimal(&mut r, suffix);
    r.push('.');
    r.push('m');
    r.push('d');
    assert(r@ =~= suffixed_name(base@, suffix as nat));
    r
}

fn name_taken(segs: &Vec<LogicalChapterSegment>, name: &Vec<char>) -> (r: bool)
    ensures
        r == names_of(seg_views(segs@)).contains(name@),
{
    let ghost names = seg_views(segs@).map_values(|s: SegmentView| s.file_name);
    let mut i: usize = 0;
    while i < segs.len()
        invariant
            i <= segs@.len(),
            names == seg_views(segs@).map_values(|s: SegmentView| s.file_name),
            forall|k: int| 0 <= k < i ==> names[k] != name@,
        decreases segs@.len() - i,
    {
        if chars_eq(&chars_of(segs[i].file_name.as_str()), name) {
            assert(names[i as int] == name@);
            assert(names.to_set().contains(name@));
            return true;
        }
        i += 1;
    }
    assert(!names.to_set().contains(name@)) by {
        if names.to_set().contains(name@) {
            let k = choose|k: int| 0 <= k < names.len() && names[k] == name@;
            assert(false);
        }
    }
    false
}

/// The segments that the navigation gives under `rule`.
#[verifier::rlimit(30)]
pub fn build_logical_segments(
    nav: &[NavPoint],
    chapters: &[ChapterData],
    rule: &SplitRule,
    max_depth: usize,
) -> (res: Vec<LogicalChapterSegment>)
    requires
        nav@.len() <= usize::MAX - 3,
    ensures
        seg_views(res@) == spec_build_segments(nav@, chapters@, *rule, max_depth as nat),
{
    let mut segments: Vec<LogicalChapterSegment> = Vec::new();
    let mut nav_index: usize = 0;
    while nav_index < nav.len()
        invariant
            nav_index <= nav@.len(),
            nav@.len() <= usize::MAX - 3,
            segments@.len() <= nav_index,
            seg_views(segments@) == spec_build_segments(nav@.take(nav_index as int), chapters@, *rule, max_depth as nat),
        decreases nav@.len() - nav_index,
    {
        let ghost t = nav@.take(nav_index + 1);
        assert(t.drop_last() =~= nav@.take(nav_index as int));
        assert(t.last() == nav@[nav_index as int]);
        let point = &nav[nav_index];
        match spine_index_for_path(chapters, point.epub_path.as_str()) {
            None => {},
            Some(spine_index) => {
                if splits_at(rule, max_depth, point) {
                    let ghost prev = seg_views(segments@);
                    let ghost taken = names_of(prev);
                    let index = segments.len() + 1;
                    assert(segments@.len() == prev.len());
                    let natural = chapter_file_name(index, Some(point.title.as_str()), point.epub_path.as_str());
                    let mut file_name = chars_of(natural.as_str());
                    if name_taken(&segments, &file_name) {
                        let base = trim_md_chars(&file_name);
                        let mut suffix: usize = 2;
                        proof {
                            seg_views(segments@).map_values(|s: SegmentView| s.file_name).lemma_cardinality_of_set();
                            lemma_free_suffix_exists(base@, taken);
                        }
                        let mut candidate = suffixed(&base, suffix);
                        while name_taken(&segments, &candidate)
                            invariant
                                2 <= suffix,
                                taken == names_of(seg_views(segments@)),
                                taken.finite(),
                                taken.len() <= segments@.len(),
                                segments@.len() < usize::MAX - 3,
                                candidate@ == suffixed_name(base@, suffix as nat),
                                forall|t: nat| 2 <= t < suffix ==> taken.contains(#[trigger] suffixed_name(base@, t)),
                                exists|s: nat| 2 <= s < taken.len() + 3 && !taken.contains(#[trigger] suffixed_name(base@, s)),
                            decreases taken.len() + 3 - suffix,
                        {
                            proof {
                                if suffix >= taken.len() + 3 {
                                    let s = choose|s: nat| 2 <= s < taken.len() + 3 && !taken.contains(#[trigger] suffixed_name(base@, s));
                                    assert(taken.contains(suffixed_name(base@, s)));
                                }
                            }
                            suffix += 1;
                            candidate = suffixed(&base, suffix);
                        }
                        proof {
                            lemma_first_free_suffix(base@, taken, suffix as nat);
                        }
                        file_name = candidate;
                    }
                    let segment = LogicalChapterSegment {
                        title: point.title.clone(),
                        file_name: string_of(&file_name),
                        nav_index,
                        start: NavTarget { spine_index, fragment: clone_opt_string(&point.fragment) },
                    };
                    let ghost before = segments@;
                    segments.push(segment);
                    proof {
                        assert(segments@ =~= before.push(segment));
                        assert(seg_views(segments@) =~= prev.push(seg_view(segment)));
                    }
                }
            },
        }
        nav_index += 1;
    }
    assert(nav@.take(nav@.len() as int) =~= nav@);
    segments
}


proof fn lemma_pick_name_fresh(name: Seq<char>, taken: Set<Seq<char>>)
    requires
        taken.finite(),
    ensures
        !taken.contains(pick_name(name, taken)),
{
    if taken.contains(name) {
        let base = trim_md(name);
        lemma_free_suffix_exists(base, taken);
        let s0 = choose|s: nat| 2 <= s < taken.len() + 3 && !taken.contains(#[trigger] suffixed_name(base, s));
        lemma_least_free_suffix(base, taken, s0);
    }
}

/// From any free suffix there is a least one, and `first_free_suffix`
/// names a free one.
proof fn lemma_least_free_suffix(base: Seq<char>, taken: Set<Seq<char>>, s0: nat)
    requires
        s0 >= 2,
        !taken.contains(suffixed_name(base, s0)),
    ensures
        first_free_suffix(base, taken) >= 2,
        !taken.contains(suffixed_name(base, first_free_suffix(base, taken))),
    decreases s0,
{
    if forall|t: nat| 2 <= t < s0 ==> taken.contains(#[trigger] suffixed_name(base, t)) {
        lemma_first_free_suffix(base, taken, s0);
    } else {
        let t = choose|t: nat| 2 <= t < s0 && !taken.contains(#[trigger] suffixed_name(base, t));
        lemma_least_free_suffix(base, taken, t);
    }
}

pub open spec fn distinct_names(segs: Seq<SegmentView>) -> bool {
    forall|i: int, j: int| 0 <= i < j < segs.len() ==> segs[i].file_name != segs[j].file_name
}

/// The logical chapters that the navigation gives never share a file name.
pub proof fn law_segment_file_names_distinct(
    nav: Seq<NavPoint>,
    chapters: Seq<ChapterData>,
    rule: SplitRule,
    max_depth: nat,
)
    ensures
        distinct_names(spec_build_segments(nav, chapters, rule, max_depth)),
    decreases nav.len(),
{
    if nav.len() > 0 {
        law_segment_file_names_distinct(nav.drop_last(), chapters, rule, max_depth);
        let prev = spec_build_segments(nav.drop_last(), chapters, rule, max_depth);
        let p = nav.last();
        if is_selected(chapters, rule, max_depth, p) {
            let names = prev.map_values(|s: SegmentView| s.file_name);
            names.lemma_cardinality_of_set();
            vstd::seq_lib::seq_to_set_is_finite(names);
            let name = spec_chapter_file_name((prev.len() + 1) as nat, Some(p.title@), p.epub_path@);
            lemma_pick_name_fresh(name, names_of(prev));
            let all = spec_build_segments(nav, chapters, rule, max_depth);
            assert forall|i: int, j: int| 0 <= i < j < all.len() implies all[i].file_name != all[j].file_name by {
                if j == all.len() - 1 {
                    assert(all[i] == prev[i]);
                    assert(names[i] == prev[i].file_name);
                    assert(names.to_set().contains(names[i]));
                } else {
                    assert(all[i] == prev[i]);
                    assert(all[j] == prev[j]);
                }
            }
        }
    }
}

/// The most recent segment before `k` that starts in the same spine
/// document.
pub open spec fn previous_same_spine(segs: Seq<SegmentView>, k: int, j: int) -> Option<int>
    decreases j,
{
    if j <= 0 {
        None
    } else if segs[j - 1].spine_index == segs[k].spine_index {
        Some(j - 1)
    } else {
        previous_same_spine(segs, k, j - 1)
    }
}

/// Segment `k` starts in the same document as an earlier one without an
/// anchor of its own, or at the same anchor.
pub open spec fn ambiguous_at(segs: Seq<SegmentView>, k: int) -> bool {
    match previous_same_spine(segs, k, k) {
        Some(j) => segs[k].fragment is None || segs[j].fragment == segs[k].fragment,
        None => false,
    }
}

pub open spec fn spec_has_ambiguous_boundaries(segs: Seq<SegmentView>) -> bool {
    exists|k: int| 0 <= k < segs.len() && ambiguous_at(segs, k)
}

/// Whether two segments cannot be told apart inside one spine document.
pub fn has_ambiguous_segment_boundaries(segments: &Vec<LogicalChapterSegment>) -> (r: bool)
    ensures
        r == spec_has_ambiguous_boundaries(seg_views(segments@)),
{
    let ghost v = seg_views(segments@);
    let mut k: usize = 0;
    while k < segments.len()
        invariant
            k <= segments@.len(),
            v == seg_views(segments@),
            forall|m: int| 0 <= m < k ==> !ambiguous_at(v, m),
        decreases segments@.len() - k,
    {
        let mut j = k;
        while j > 0 && segments[j - 1].start.spine_index != segments[k].start.spine_index
            invariant
                j <= k < segments@.len(),
                v == seg_views(segments@),
                previous_same_spine(v, k as int, j as int) == previous_same_spine(v, k as int, k as int),
            decreases j,
        {
            assert(v[j - 1].spine_index == segments@[j - 1].start.spine_index);
            j -= 1;
        }
        if j > 0 {
            assert(v[j - 1].spine_index == v[k as int].spine_index);
            if segments[k].start.fragment.is_none()
                || opt_string_eq(&segments[j - 1].start.fragment, &segments[k].start.fragment) {
                assert(ambiguous_at(v, k as int));
                return true;
            }
        }
        k += 1;
    }
    false
}

pub open spec fn spec_usable_segments(segs: Seq<SegmentView>) -> Seq<SegmentView> {
    if spec_has_ambiguous_boundaries(segs) || segs.len() < 2 { Seq::<SegmentView>::empty() } else { segs }
}

/// The segments, or none when they are ambiguous or fewer than two.
pub fn usable_logical_segments(segments: Vec<LogicalChapterSegment>) -> (r: Vec<LogicalChapterSegment>)
    ensures
        seg_views(r@) == spec_usable_segments(seg_views(segments@)),
{
    if has_ambiguous_segment_boundaries(&segments) {
        let e: Vec<LogicalChapterSegment> = Vec::new();
        assert(seg_views(e@) =~= Seq::<SegmentView>::empty());
        return e;
    }
    if segments.len() < 2 {
        let e: Vec<LogicalChapterSegment> = Vec::new();
        assert(seg_views(e@) =~= Seq::<SegmentView>::empty());
        e
    } else {
        segments
    }
}

/// Navigation entries with an anchor in the document at `path`.
pub open spec fn anchored_points_at(nav: Seq<NavPoint>, path: Seq<char>) -> nat
    decreases nav.len(),
{
    if nav.len() == 0 {
        0
    } else {
        anchored_points_at(nav.drop_last(), path)
            + if nav.last().fragment is Some && nav.last().epub_path@ == path { 1nat } else { 0nat }
    }
}

/// The largest spine document, in bytes.
pub open spec fn max_spine_bytes(chapters: Seq<ChapterData>) -> nat
    decreases chapters.len(),
{
    if chapters.len() == 0 {
        0
    } else {
        let rest = max_spine_bytes(chapters.drop_last());
        let here = chapters.last().data@.len();
        if here > rest { here } else { rest }
    }
}

/// A book with a long navigation packed into large documents, which the
/// conservative cut left with few chapters.
pub open spec fn spec_should_split_aggressively(
    chapters: Seq<ChapterData>,
    nav: Seq<NavPoint>,
    conservative_len: nat,
) -> bool {
    &&& !(nav.len() < 12 || conservative_len > 4)
    &&& max_spine_bytes(chapters) >= 160_000
    &&& exists|i: int| 0 <= i < nav.len() && nav[i].fragment is Some
        && anchored_points_at(nav, nav[i].epub_path@) >= 12
}

fn count_anchored_points_at(nav: &[NavPoint], path: &str) -> (r: usize)
    ensures
        r == anchored_points_at(nav@, path@),
{
    let mut count: usize = 0;
    let mut i: usize = 0;
    while i < nav.len()
        invariant
            i <= nav@.len(),
            count == anchored_points_at(nav@.take(i as int), path@),
            count <= i,
        decreases nav@.len() - i,
    {
        let ghost t = nav@.take(i + 1);
        assert(t.drop_last() =~= nav@.take(i as int));
        if nav[i].fragment.is_some() && str_eq(nav[i].epub_path.as_str(), path) {
            count += 1;
        }
        i += 1;
    }
    assert(nav@.take(nav@.len() as int) =~= nav@);
    count
}

pub fn should_aggressively_split_nav(
    chapters: &[ChapterData],
    nav: &[NavPoint],
    conservative: &Vec<LogicalChapterSegment>,
) -> (r: bool)
    ensures
        r == spec_should_split_aggressively(chapters@, nav@, conservative@.len()),
{
    if nav.len() < 12 || conservative.len() > 4 {
        return false;
    }
    let mut largest: usize = 0;
    let mut i: usize = 0;
    while i < chapters.len()
        invariant
            i <= chapters@.len(),
            largest == max_spine_bytes(chapters@.take(i as int)),
        decreases chapters@.len() - i,
    {
        let ghost t = chapters@.take(i + 1);
        assert(t.drop_last() =~= chapters@.take(i as int));
        if chapters[i].data.len() > largest {
            largest = chapters[i].data.len();
        }
        i += 1;
    }
    assert(chapters@.take(chapters@.len() as int) =~= chapters@);
    if largest < 160_000 {
        return false;
    }
    let mut k: usize = 0;
    while k < nav.len()
        invariant
            k <= nav@.len(),
            max_spine_bytes(chapters@) >= 160_000,
            !(nav@.len() < 12 || conservative@.len() > 4),
            forall|m: int| 0 <= m < k ==> !(nav@[m].fragment is Some
                && anchored_points_at(nav@, nav@[m].epub_path@) >= 12),
        decreases nav@.len() - k,
    {
        if nav[k].fragment.is_some() && count_anchored_points_at(nav, nav[k].epub_path.as_str()) >= 12 {
            assert(0 <= k < nav@.len() && nav@[k as int].fragment is Some
                && anchored_points_at(nav@, nav@[k as int].epub_path@) >= 12);
            return true;
        }
        k += 1;
    }
    false
}

/// The logical chapters of a book: the conservative cut, or the
/// aggressive one when the book calls for it and it gives more chapters.
pub open spec fn spec_logical_segments(chapters: Seq<ChapterData>, nav: Seq<NavPoint>) -> Seq<SegmentView> {
    if nav.len() == 0 {
        Seq::<SegmentView>::empty()
    } else {
        let md = max_depth(nav);
        let conservative = spec_usable_segments(spec_build_segments(nav, chapters, SplitRule::Conservative, md));
        let aggressive = spec_usable_segments(spec_build_segments(nav, chapters, SplitRule::Aggressive, md));
        if spec_should_split_aggressively(chapters, nav, conservative.len())
            && aggressive.len() > conservative.len() {
            aggressive
        } else {
            conservative
        }
    }
}

/// Cuts the book into logical chapters along its navigation.
pub fn logical_chapter_segments(chapters: &[ChapterData], nav: &[NavPoint]) -> (res: Vec<LogicalChapterSegment>)
    requires
        nav@.len() <= usize::MAX - 3,
    ensures
        seg_views(res@) == spec_logical_segments(chapters@, nav@),
{
    if nav.len() == 0 {
        let e: Vec<LogicalChapterSegment> = Vec::new();
        assert(seg_views(e@) =~= Seq::<SegmentView>::empty());
        return e;
    }
    let md = max_nav_depth(nav);
    let conservative = usable_logical_segments(build_logical_segments(nav, chapters, &SplitRule::Conservative, md));
    proof {
        assert(conservative@.len() == seg_views(conservative@).len());
    }
    if should_aggressively_split_nav(chapters, nav, &conservative) {
        let aggressive = usable_logical_segments(build_logical_segments(nav, chapters, &SplitRule::Aggressive, md));
        assert(aggressive@.len() == seg_views(aggressive@).len());
        if aggressive.len() > conservative.len() {
            return aggressive;
        }
    }
    conservative
}

/// Index of the last segment in the leading run whose start is at or
/// before spine document `spine_index`, else of the first segment.
pub open spec fn leading_run(segs: Seq<SegmentView>, p: spec_fn(SegmentView) -> bool) -> nat
    decreases segs.len(),
{
    if segs.len() == 0 || !p(segs[0]) { 0 } else { 1 + leading_run(segs.drop_first(), p) }
}

pub open spec fn last_of_run_or_first(segs: Seq<SegmentView>, run: nat) -> Option<nat> {
    if run > 0 { Some((run - 1) as nat) } else if segs.len() > 0 { Some(0) } else { None }
}

pub open spec fn starts_at_or_before(spine_index: nat) -> spec_fn(SegmentView) -> bool {
    |s: SegmentView| s.spine_index <= spine_index
}

pub open spec fn starts_before(spine_index: nat) -> spec_fn(SegmentView) -> bool {
    |s: SegmentView| s.spine_index < spine_index
}

pub open spec fn nav_at_or_before(nav_index: nat) -> spec_fn(SegmentView) -> bool {
    |s: SegmentView| s.nav_index <= nav_index
}

pub proof fn lemma_leading_run_bound(segs: Seq<SegmentView>, p: spec_fn(SegmentView) -> bool)
    ensures
        leading_run(segs, p) <= segs.len(),
    decreases segs.len(),
{
    if segs.len() > 0 && p(segs[0]) {
        lemma_leading_run_bound(segs.drop_first(), p);
    }
}

fn in_run(s: &LogicalChapterSegment, mode: u8, bound: usize) -> (r: bool)
    ensures
        mode == 0 ==> r == starts_at_or_before(bound as nat)(seg_view(*s)),
        mode == 1 ==> r == starts_before(bound as nat)(seg_view(*s)),
        mode != 0 && mode != 1 ==> r == nav_at_or_before(bound as nat)(seg_view(*s)),
{
    if mode == 0 {
        s.start.spine_index <= bound
    } else if mode == 1 {
        s.start.spine_index < bound
    } else {
        s.nav_index <= bound
    }
}

pub open spec fn opt_nat(o: Option<usize>) -> Option<nat> {
    match o {
        Some(k) => Some(k as nat),
        None => None,
    }
}

/// Counts the leading segments that satisfy the test for one mode.
fn leading_count(segments: &Vec<LogicalChapterSegment>, mode: u8, bound: usize) -> (r: usize)
    ensures
        r <= segments@.len(),
        mode == 0 ==> r == leading_run(seg_views(segments@), starts_at_or_before(bound as nat)),
        mode == 1 ==> r == leading_run(seg_views(segments@), starts_before(bound as nat)),
        mode != 0 && mode != 1 ==> r == leading_run(seg_views(segments@), nav_at_or_before(bound as nat)),
{
    let ghost v = seg_views(segments@);
    let ghost p = if mode == 0 { starts_at_or_before(bound as nat) } else if mode == 1 {
        starts_before(bound as nat) } else { nav_at_or_before(bound as nat) };
    let mut i: usize = 0;
    assert(v.skip(0) =~= v);
    while i < segments.len() && in_run(&segments[i], mode, bound)
        invariant
            i <= segments@.len(),
            v == seg_views(segments@),
            p == (if mode == 0 { starts_at_or_before(bound as nat) } else if mode == 1 {
                starts_before(bound as nat) } else { nav_at_or_before(bound as nat) }),
            leading_run(v, p) == i + leading_run(v.skip(i as int), p),
        decreases segments@.len() - i,
    {
        let ghost w = v.skip(i as int);
        assert(w[0] == v[i as int]);
        assert(v[i as int] == seg_view(segments@[i as int]));
        assert(p(w[0]));
        assert(w.drop_first() =~= v.skip(i + 1));
        i += 1;
    }
    proof {
        let w = v.skip(i as int);
        if i < segments@.len() {
            assert(w[0] == v[i as int]);
            assert(v[i as int] == seg_view(segments@[i as int]));
        }
    }
    i
}

/// The segment that spine document `spine_index` starts in.
pub fn segment_for_spine_start(spine_index: usize, segments: &Vec<LogicalChapterSegment>) -> (r: Option<usize>)
    ensures
        opt_nat(r) == last_of_run_or_first(seg_views(segments@),
            leading_run(seg_views(segments@), starts_at_or_before(spine_index as nat))),
{
    let run = leading_count(segments, 0, spine_index);
    if run > 0 { Some(run - 1) } else if segments.len() > 0 { Some(0) } else { None }
}

/// The segment that navigation entry `nav_index` belongs to.
pub fn segment_for_nav_index(nav_index: usize, segments: &Vec<LogicalChapterSegment>) -> (r: Option<usize>)
    ensures
        opt_nat(r) == last_of_run_or_first(seg_views(segments@),
            leading_run(seg_views(segments@), nav_at_or_before(nav_index as nat))),
{
    let run = leading_count(segments, 2, nav_index);
    if run > 0 { Some(run - 1) } else if segments.len() > 0 { Some(0) } else { None }
}

/// The last of the leading segments that start before spine document
/// `spine_index`.
pub fn previous_segment_before_spine(spine_index: usize, segments: &Vec<LogicalChapterSegment>) -> (r: Option<usize>)
    ensures
        opt_nat(r) == (if leading_run(seg_views(segments@), starts_before(spine_index as nat)) > 0 {
            Some((leading_run(seg_views(segments@), starts_before(spine_index as nat)) - 1) as nat)
        } else {
            None::<nat>
        }),
{
    let run = leading_count(segments, 1, spine_index);
    if run > 0 { Some(run - 1) } else { None }
}


} // verus!
