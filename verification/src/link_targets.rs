//! Which chapter file each document and anchor of the book ends up in.
use vstd::prelude::*;
use crate::text::{chars_of, string_of, append_chars};
use crate::textmap::TextMap;
use crate::links::map_string_view;
use crate::content::{xhtml_anchor_ids, spec_anchor_ids};
use crate::segments::{
    segment_for_spine_start, segment_for_nav_index, previous_segment_before_spine, leading_run,
    last_of_run_or_first, starts_at_or_before, starts_before, nav_at_or_before, opt_nat, lemma_leading_run_bound,
};
use crate::model::{ChapterData, NavPoint, LogicalChapterSegment, SegmentView, seg_view, seg_views, opt_view};

verus! {

broadcast use vstd::string::group_string_axioms;

/// The map after inserting the pairs in order, a later pair replacing an
/// earlier one with the same key.
pub open spec fn insert_pairs(m: Map<Seq<char>, Seq<char>>, ps: Seq<(Seq<char>, Seq<char>)>) -> Map<Seq<char>, Seq<char>>
    decreases ps.len(),
{
    if ps.len() == 0 {
        m
    } else {
        insert_pairs(m, ps.drop_last()).insert(ps.last().0, ps.last().1)
    }
}

/// `text#fragment`.
pub open spec fn with_fragment(text: Seq<char>, fragment: Seq<char>) -> Seq<char> {
    text.push('#') + fragment
}

fn join_fragment(text: &str, fragment: &str) -> (r: String)
    ensures
        r@ == with_fragment(text@, fragment@),
{
    let mut v = chars_of(text);
    v.push('#');
    append_chars(&mut v, &chars_of(fragment));
    string_of(&v)
}

/// The segment a spine document starts in: the last segment that starts
/// at or before it, else the first.
pub open spec fn spine_start_segment(segs: Seq<SegmentView>, spine_index: nat) -> Option<nat> {
    last_of_run_or_first(segs, leading_run(segs, starts_at_or_before(spine_index)))
}

pub open spec fn nav_segment(segs: Seq<SegmentView>, nav_index: nat) -> Option<nat> {
    last_of_run_or_first(segs, leading_run(segs, nav_at_or_before(nav_index)))
}

/// Each of the first `k` spine documents, to its own chapter file.
pub open spec fn plain_pairs(chapters: Seq<ChapterData>, k: int) -> Seq<(Seq<char>, Seq<char>)>
    decreases k,
{
    if k <= 0 || k > chapters.len() {
        Seq::empty()
    } else {
        plain_pairs(chapters, k - 1).push((chapters[k - 1].item.absolute_path@, chapters[k - 1].file_name@))
    }
}

/// Each of the first `k` spine documents, to the segment it starts in.
pub open spec fn spine_pairs(chapters: Seq<ChapterData>, segs: Seq<SegmentView>, k: int) -> Seq<(Seq<char>, Seq<char>)>
    decreases k,
{
    if k <= 0 || k > chapters.len() {
        Seq::empty()
    } else {
        let rest = spine_pairs(chapters, segs, k - 1);
        match spine_start_segment(segs, (k - 1) as nat) {
            Some(s) => rest.push((chapters[k - 1].item.absolute_path@, segs[s as int].file_name)),
            None => rest,
        }
    }
}

/// Each of the first `k` navigation entries (with its fragment, if any)
/// to the segment that holds it.
pub open spec fn nav_pairs(nav: Seq<NavPoint>, segs: Seq<SegmentView>, k: int) -> Seq<(Seq<char>, Seq<char>)>
    decreases k,
{
    if k <= 0 || k > nav.len() {
        Seq::empty()
    } else {
        let rest = nav_pairs(nav, segs, k - 1);
        let p = nav[k - 1];
        match nav_segment(segs, (k - 1) as nat) {
            Some(s) => match p.fragment {
                Some(f) => rest.push((with_fragment(p.epub_path@, f@), with_fragment(segs[s as int].file_name, f@))),
                None => rest.push((p.epub_path@, segs[s as int].file_name)),
            },
            None => rest,
        }
    }
}

/// The position of `fragment` among a document's anchors (the last
/// one that matches), or 0.
pub open spec fn anchor_pos(anchors: Seq<Seq<char>>, fragment: Option<Seq<char>>) -> nat
    decreases anchors.len(),
{
    match fragment {
        Some(f) => if anchors.len() == 0 {
            0
        } else if anchors.last() == f {
            (anchors.len() - 1) as nat
        } else {
            anchor_pos(anchors.drop_last(), fragment)
        },
        None => 0,
    }
}

/// Among the first `k` segments, the one that starts in spine document
/// `spine` at or before anchor `a` and comes last by (anchor position,
/// navigation index), the later segment on a tie.
pub open spec fn best_segment(segs: Seq<SegmentView>, anchors: Seq<Seq<char>>, spine: nat, a: nat, k: int) -> Option<nat>
    decreases k,
{
    if k <= 0 || k > segs.len() {
        None
    } else {
        let prev = best_segment(segs, anchors, spine, a, k - 1);
        let i = k - 1;
        let pos = anchor_pos(anchors, segs[i].fragment);
        if segs[i].spine_index == spine && pos <= a {
            match prev {
                Some(p) => {
                    let ppos = anchor_pos(anchors, segs[p as int].fragment);
                    if ppos < pos || (ppos == pos && segs[p as int].nav_index <= segs[i].nav_index) {
                        Some(i as nat)
                    } else {
                        Some(p)
                    }
                },
                None => Some(i as nat),
            }
        } else {
            prev
        }
    }
}

/// The segment that holds anchor `a` of spine document `spine`: the best
/// segment of that document, else the last segment that starts before
/// the document, else the first.
pub open spec fn anchor_segment(segs: Seq<SegmentView>, anchors: Seq<Seq<char>>, spine: nat, a: nat) -> Option<nat> {
    match best_segment(segs, anchors, spine, a, segs.len() as int) {
        Some(i) => Some(i),
        None => {
            let run = leading_run(segs, starts_before(spine));
            if run > 0 {
                Some((run - 1) as nat)
            } else if segs.len() > 0 {
                Some(0)
            } else {
                None
            }
        },
    }
}

/// The first `k` anchors of spine document `spine` (at `path`), each to
/// the segment that holds it.
pub open spec fn anchor_pairs(path: Seq<char>, anchors: Seq<Seq<char>>, segs: Seq<SegmentView>, spine: nat, k: int) -> Seq<(Seq<char>, Seq<char>)>
    decreases k,
{
    if k <= 0 || k > anchors.len() {
        Seq::empty()
    } else {
        let rest = anchor_pairs(path, anchors, segs, spine, k - 1);
        match anchor_segment(segs, anchors, spine, (k - 1) as nat) {
            Some(s) => rest.push((with_fragment(path, anchors[k - 1]), with_fragment(segs[s as int].file_name, anchors[k - 1]))),
            None => rest,
        }
    }
}

/// The anchors of the first `k` spine documents, in order.
pub open spec fn fragment_pairs(chapters: Seq<ChapterData>, segs: Seq<SegmentView>, k: int) -> Seq<(Seq<char>, Seq<char>)>
    decreases k,
{
    if k <= 0 || k > chapters.len() {
        Seq::empty()
    } else {
        let c = chapters[k - 1];
        let anchors = spec_anchor_ids(c.data@);
        fragment_pairs(chapters, segs, k - 1) + anchor_pairs(c.item.absolute_path@, anchors, segs, (k - 1) as nat, anchors.len() as int)
    }
}

proof fn lemma_insert_pairs_append(m: Map<Seq<char>, Seq<char>>, a: Seq<(Seq<char>, Seq<char>)>, b: Seq<(Seq<char>, Seq<char>)>)
    ensures
        insert_pairs(m, a + b) == insert_pairs(insert_pairs(m, a), b),
    decreases b.len(),
{
    if b.len() == 0 {
        assert(a + b =~= a);
    } else {
        lemma_insert_pairs_append(m, a, b.drop_last());
        assert((a + b).drop_last() =~= a + b.drop_last());
    }
}

proof fn lemma_insert_view(m: Map<Seq<char>, String>, k: Seq<char>, v: String)
    ensures
        map_string_view(m.insert(k, v)) == map_string_view(m).insert(k, v@),
{
    assert(map_string_view(m.insert(k, v)) =~= map_string_view(m).insert(k, v@));
}

fn anchor_position(anchors: &Vec<String>, fragment: &Option<String>) -> (r: usize)
    ensures
        r == anchor_pos(anchors@.map_values(|s: String| s@), opt_view(*fragment)),
{
    let ghost av = anchors@.map_values(|s: String| s@);
    match fragment {
        Some(f) => {
            let mut i = anchors.len();
            assert(av.take(anchors@.len() as int) =~= av);
            while i > 0
                invariant
                    i <= anchors@.len(),
                    av == anchors@.map_values(|s: String| s@),
                    anchor_pos(av.take(i as int), opt_view(*fragment)) == anchor_pos(av, opt_view(*fragment)),
                    *fragment == Some(*f),
                decreases i,
            {
                let ghost t = av.take(i as int);
                assert(t.last() == anchors@[i - 1]@);
                if crate::text::str_eq(anchors[i - 1].as_str(), f.as_str()) {
                    return i - 1;
                }
                assert(t.drop_last() =~= av.take(i - 1));
                i -= 1;
            }
            0
        },
        None => 0,
    }
}

/// Records where each anchor of each spine document ends up: in the
/// segment of that document that starts last at or before the anchor,
/// else in the segment before the document, else in the first segment.
pub fn insert_fragment_output_paths(chapters: &[ChapterData], segments: &Vec<LogicalChapterSegment>, output: &mut TextMap<String>)
    ensures
        map_string_view(final(output)@) == insert_pairs(
            map_string_view(old(output)@),
            fragment_pairs(chapters@, seg_views(segments@), chapters@.len() as int),
        ),
{
    let ghost segs = seg_views(segments@);
    let ghost start = map_string_view(output@);
    let mut spine_index: usize = 0;
    assert(start == insert_pairs(start, fragment_pairs(chapters@, segs, 0)));
    while spine_index < chapters.len()
        invariant
            spine_index <= chapters@.len(),
            segs == seg_views(segments@),
            map_string_view(output@) == insert_pairs(start, fragment_pairs(chapters@, segs, spine_index as int)),
        decreases chapters@.len() - spine_index,
    {
        let chapter = &chapters[spine_index];
        let anchors = xhtml_anchor_ids(chapter.data.as_slice());
        let ghost av = anchors@.map_values(|s: String| s@);
        let ghost before = map_string_view(output@);
        let ghost path = chapter.item.absolute_path@;
        let mut a: usize = 0;
        assert(before == insert_pairs(before, anchor_pairs(path, av, segs, spine_index as nat, 0)));
        while a < anchors.len()
            invariant
                a <= anchors@.len(),
                segs == seg_views(segments@),
                av == anchors@.map_values(|s: String| s@),
                path == chapter.item.absolute_path@,
                map_string_view(output@) == insert_pairs(before, anchor_pairs(path, av, segs, spine_index as nat, a as int)),
            decreases anchors@.len() - a,
        {
            let mut best: Option<usize> = None;
            let mut best_pos: usize = 0;
            let mut k: usize = 0;
            while k < segments.len()
                invariant
                    k <= segments@.len(),
                    segs == seg_views(segments@),
                    av == anchors@.map_values(|s: String| s@),
                    opt_nat(best) == best_segment(segs, av, spine_index as nat, a as nat, k as int),
                    best matches Some(b) ==> b < k && best_pos == anchor_pos(av, segs[b as int].fragment),
                decreases segments@.len() - k,
            {
                let s = &segments[k];
                assert(segs[k as int] == seg_view(*s));
                if s.start.spine_index == spine_index {
                    let pos = anchor_position(&anchors, &s.start.fragment);
                    if pos <= a {
                        match best {
                            Some(b) => {
                                assert(segs[b as int] == seg_view(segments@[b as int]));
                                if best_pos < pos || (best_pos == pos && segments[b].nav_index <= s.nav_index) {
                                    best = Some(k);
                                    best_pos = pos;
                                }
                            },
                            None => {
                                best = Some(k);
                                best_pos = pos;
                            },
                        }
                    }
                }
                k += 1;
            }
            let chosen = match best {
                Some(b) => Some(b),
                None => match previous_segment_before_spine(spine_index, segments) {
                    Some(p) => Some(p),
                    None => if segments.len() > 0 { Some(0) } else { None },
                },
            };
            proof {
                lemma_leading_run_bound(segs, starts_before(spine_index as nat));
            }
            assert(opt_nat(chosen) == anchor_segment(segs, av, spine_index as nat, a as nat));
            let ghost prev = map_string_view(output@);
            let ghost rest = anchor_pairs(path, av, segs, spine_index as nat, a as int);
            assert(av[a as int] == anchors@[a as int]@);
            match chosen {
                Some(c) => {
                    let key = join_fragment(chapter.item.absolute_path.as_str(), anchors[a].as_str());
                    let value = join_fragment(segments[c].file_name.as_str(), anchors[a].as_str());
                    assert(segs[c as int] == seg_view(segments@[c as int]));
                    proof { lemma_insert_view(output@, key@, value); }
                    let ghost pair = (key@, value@);
                    output.insert(key, value);
                    assert(anchor_pairs(path, av, segs, spine_index as nat, a + 1) == rest.push(pair));
                    assert(rest.push(pair).drop_last() =~= rest);
                },
                None => {
                    assert(anchor_pairs(path, av, segs, spine_index as nat, a + 1) == rest);
                },
            }
            assert(map_string_view(output@) == insert_pairs(before, anchor_pairs(path, av, segs, spine_index as nat, a + 1)));
            a += 1;
        }
        proof {
            lemma_insert_pairs_append(start, fragment_pairs(chapters@, segs, spine_index as int),
                anchor_pairs(path, av, segs, spine_index as nat, av.len() as int));
        }
        spine_index += 1;
    }
}


/// Where each spine document, navigation entry and anchor ends up: each
/// document in its own chapter file when the book is not cut into
/// segments; else the documents, then the navigation entries, then the
/// anchors, each in the segment that holds it, a later entry replacing an
/// earlier one for the same link.
pub open spec fn spec_chapter_output_map(chapters: Seq<ChapterData>, nav: Seq<NavPoint>, segs: Seq<SegmentView>) -> Map<Seq<char>, Seq<char>> {
    if segs.len() == 0 {
        insert_pairs(Map::empty(), plain_pairs(chapters, chapters.len() as int))
    } else {
        let by_spine = insert_pairs(Map::empty(), spine_pairs(chapters, segs, chapters.len() as int));
        let by_nav = insert_pairs(by_spine, nav_pairs(nav, segs, nav.len() as int));
        insert_pairs(by_nav, fragment_pairs(chapters, segs, chapters.len() as int))
    }
}

pub fn chapter_output_map(chapters: &[ChapterData], nav_points: &[NavPoint], segments: &Vec<LogicalChapterSegment>) -> (r: TextMap<String>)
    ensures
        map_string_view(r@) == spec_chapter_output_map(chapters@, nav_points@, seg_views(segments@)),
{
    let ghost segs = seg_views(segments@);
    let mut output: TextMap<String> = TextMap::new();
    assert(map_string_view(output@) =~= Map::<Seq<char>, Seq<char>>::empty());
    if segments.len() == 0 {
        let mut i: usize = 0;
        while i < chapters.len()
            invariant
                i <= chapters@.len(),
                map_string_view(output@) == insert_pairs(Map::empty(), plain_pairs(chapters@, i as int)),
            decreases chapters@.len() - i,
        {
            let ghost rest = plain_pairs(chapters@, i as int);
            let key = chapters[i].item.absolute_path.clone();
            let value = chapters[i].file_name.clone();
            proof { lemma_insert_view(output@, key@, value); }
            let ghost pair = (key@, value@);
            output.insert(key, value);
            assert(plain_pairs(chapters@, i + 1) == rest.push(pair));
            assert(rest.push(pair).drop_last() =~= rest);
            i += 1;
        }
        return output;
    }
    let mut i: usize = 0;
    while i < chapters.len()
        invariant
            i <= chapters@.len(),
            segs == seg_views(segments@),
            map_string_view(output@) == insert_pairs(Map::empty(), spine_pairs(chapters@, segs, i as int)),
        decreases chapters@.len() - i,
    {
        let ghost rest = spine_pairs(chapters@, segs, i as int);
        proof { lemma_leading_run_bound(segs, starts_at_or_before(i as nat)); }
        match segment_for_spine_start(i, segments) {
            Some(s) => {
                let key = chapters[i].item.absolute_path.clone();
                let value = segments[s].file_name.clone();
                assert(segs[s as int] == seg_view(segments@[s as int]));
                proof { lemma_insert_view(output@, key@, value); }
                let ghost pair = (key@, value@);
                output.insert(key, value);
                assert(spine_pairs(chapters@, segs, i + 1) == rest.push(pair));
                assert(rest.push(pair).drop_last() =~= rest);
            },
            None => {
                assert(spine_pairs(chapters@, segs, i + 1) == rest);
            },
        }
        i += 1;
    }
    let ghost by_spine = map_string_view(output@);
    let mut j: usize = 0;
    assert(by_spine == insert_pairs(by_spine, nav_pairs(nav_points@, segs, 0)));
    while j < nav_points.len()
        invariant
            j <= nav_points@.len(),
            segs == seg_views(segments@),
            map_string_view(output@) == insert_pairs(by_spine, nav_pairs(nav_points@, segs, j as int)),
        decreases nav_points@.len() - j,
    {
        let ghost rest = nav_pairs(nav_points@, segs, j as int);
        proof { lemma_leading_run_bound(segs, nav_at_or_before(j as nat)); }
        let point = &nav_points[j];
        match segment_for_nav_index(j, segments) {
            Some(s) => {
                assert(segs[s as int] == seg_view(segments@[s as int]));
                let (key, value) = match &point.fragment {
                    Some(f) => (
                        join_fragment(point.epub_path.as_str(), f.as_str()),
                        join_fragment(segments[s].file_name.as_str(), f.as_str()),
                    ),
                    None => (point.epub_path.clone(), segments[s].file_name.clone()),
                };
                proof { lemma_insert_view(output@, key@, value); }
                let ghost pair = (key@, value@);
                output.insert(key, value);
                assert(nav_pairs(nav_points@, segs, j + 1) == rest.push(pair));
                assert(rest.push(pair).drop_last() =~= rest);
            },
            None => {
                assert(nav_pairs(nav_points@, segs, j + 1) == rest);
            },
        }
        j += 1;
    }
    insert_fragment_output_paths(chapters, segments, &mut output);
    output
}

} // verus!
