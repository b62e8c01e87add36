//! Paths inside an EPUB archive: joining, normalising, fragments.
use vstd::prelude::*;
use crate::text::{chars_of, string_of, push_char, sub_chars, append_chars};

verus! {

/// `s` cut at every occurrence of `sep`, as `str::split` does: `n`
/// separators give `n + 1` pieces, empty ones included.
pub open spec fn split_on(s: Seq<char>, sep: char) -> Seq<Seq<char>>
    decreases s.len(),
{
    if s.len() == 0 {
        seq![Seq::<char>::empty()]
    } else {
        let p = split_on(s.drop_last(), sep);
        if s.last() == sep {
            p.push(Seq::<char>::empty())
        } else {
            p.update(p.len() - 1, p.last().push(s.last()))
        }
    }
}

/// The pieces joined back with `sep` between them.
pub open spec fn join_on(parts: Seq<Seq<char>>, sep: char) -> Seq<char>
    decreases parts.len(),
{
    if parts.len() == 0 {
        Seq::<char>::empty()
    } else if parts.len() == 1 {
        parts[0]
    } else {
        join_on(parts.drop_last(), sep).push(sep) + parts.last()
    }
}

pub open spec fn is_dot(c: Seq<char>) -> bool {
    c == seq!['.']
}

pub open spec fn is_dot_dot(c: Seq<char>) -> bool {
    c == seq!['.', '.']
}

/// One step of normalisation: empty and `.` components vanish, `..`
/// removes the last kept component (if any), anything else is kept.
pub open spec fn normalize_step(kept: Seq<Seq<char>>, c: Seq<char>) -> Seq<Seq<char>> {
    if c.len() == 0 || is_dot(c) {
        kept
    } else if is_dot_dot(c) {
        if kept.len() == 0 { kept } else { kept.drop_last() }
    } else {
        kept.push(c)
    }
}

pub open spec fn normalize_components(cs: Seq<Seq<char>>) -> Seq<Seq<char>>
    decreases cs.len(),
{
    if cs.len() == 0 {
        Seq::<Seq<char>>::empty()
    } else {
        normalize_step(normalize_components(cs.drop_last()), cs.last())
    }
}

/// The normalised form of a `/`-separated path.
pub open spec fn spec_normalize_path(p: Seq<char>) -> Seq<char> {
    join_on(normalize_components(split_on(p, '/')), '/')
}

/// A component that normalisation keeps as it is.
pub open spec fn plain_component(c: Seq<char>) -> bool {
    &&& c.len() > 0
    &&& !is_dot(c)
    &&& !is_dot_dot(c)
    &&& !c.contains('/')
}

proof fn lemma_split_last_grows(s: Seq<char>, sep: char)
    ensures
        split_on(s, sep).len() >= 1,
    decreases s.len(),
{
    if s.len() > 0 {
        lemma_split_last_grows(s.drop_last(), sep);
    }
}

proof fn lemma_normalized_plain(cs: Seq<Seq<char>>)
    requires
        forall|i: int| 0 <= i < cs.len() ==> !(#[trigger] cs[i]).contains('/'),
    ensures
        forall|i: int| 0 <= i < normalize_components(cs).len()
            ==> plain_component(#[trigger] normalize_components(cs)[i]),
    decreases cs.len(),
{
    if cs.len() > 0 {
        let p = cs.drop_last();
        assert forall|i: int| 0 <= i < p.len() implies !(#[trigger] p[i]).contains('/') by {
            assert(p[i] == cs[i]);
        }
        lemma_normalized_plain(p);
        let c = cs[cs.len() - 1];
        assert(!c.contains('/'));
        let k = normalize_components(p);
        assert(normalize_components(cs) == normalize_step(k, c));
        assert forall|i: int| 0 <= i < normalize_step(k, c).len()
            implies plain_component(#[trigger] normalize_step(k, c)[i]) by {
            if c.len() == 0 || is_dot(c) {
            } else if is_dot_dot(c) {
                if k.len() > 0 {
                    assert(k.drop_last()[i] == k[i]);
                }
            } else {
                if i < k.len() {
                    assert(k.push(c)[i] == k[i]);
                }
            }
        }
    }
}

proof fn lemma_split_pieces_have_no_sep(s: Seq<char>, sep: char)
    ensures
        forall|i: int| 0 <= i < split_on(s, sep).len()
            ==> !(#[trigger] split_on(s, sep)[i]).contains(sep),
    decreases s.len(),
{
    if s.len() > 0 {
        lemma_split_pieces_have_no_sep(s.drop_last(), sep);
        lemma_split_last_grows(s.drop_last(), sep);
        let p = split_on(s.drop_last(), sep);
        if s.last() != sep {
            let q = p.last().push(s.last());
            assert(!p.last().contains(sep));
            assert forall|j: int| 0 <= j < q.len() implies q[j] != sep by {
                if j < p.last().len() {
                    assert(q[j] == p.last()[j]);
                }
            }
        }
    }
}

/// Splitting a join of pieces without the separator gives the pieces back.
proof fn lemma_split_join(parts: Seq<Seq<char>>, sep: char)
    requires
        parts.len() > 0,
        forall|i: int| 0 <= i < parts.len() ==> !(#[trigger] parts[i]).contains(sep),
    ensures
        split_on(join_on(parts, sep), sep) == parts,
    decreases parts.len(),
{
    if parts.len() == 1 {
        lemma_split_no_sep(parts[0], sep);
    } else {
        let init = parts.drop_last();
        assert forall|i: int| 0 <= i < init.len() implies !(#[trigger] init[i]).contains(sep) by {
            assert(init[i] == parts[i]);
        }
        lemma_split_join(init, sep);
        let head = join_on(init, sep).push(sep);
        assert(split_on(head, sep) == parts.drop_last().push(Seq::<char>::empty())) by {
            assert(head.drop_last() =~= join_on(init, sep));
        }
        lemma_split_append(head, parts.last(), sep);
        assert(parts.drop_last().push(Seq::<char>::empty()).update(parts.len() - 1, parts.last())
            =~= parts);
    }
}

proof fn lemma_split_no_sep(s: Seq<char>, sep: char)
    requires
        !s.contains(sep),
    ensures
        split_on(s, sep) == seq![s],
    decreases s.len(),
{
    if s.len() == 0 {
        assert(s =~= Seq::<char>::empty());
    } else {
        assert(!s.drop_last().contains(sep)) by {
            if s.drop_last().contains(sep) {
                let k = choose|k: int| 0 <= k < s.drop_last().len() && s.drop_last()[k] == sep;
                assert(s[k] == sep);
            }
        }
        lemma_split_no_sep(s.drop_last(), sep);
        assert(s.last() != sep) by {
            assert(s[s.len() - 1] == s.last());
        }
        assert(s.drop_last().push(s.last()) =~= s);
        assert(seq![s.drop_last()].update(0, s.drop_last().push(s.last())) =~= seq![s]);
    }
}

/// Appending characters without the separator extends the last piece.
proof fn lemma_split_append(head: Seq<char>, tail: Seq<char>, sep: char)
    requires
        !tail.contains(sep),
    ensures
        split_on(head + tail, sep) == split_on(head, sep).update(
            split_on(head, sep).len() - 1,
            split_on(head, sep).last() + tail,
        ),
    decreases tail.len(),
{
    lemma_split_last_grows(head, sep);
    if tail.len() == 0 {
        assert(head + tail =~= head);
        assert(split_on(head, sep).last() + tail =~= split_on(head, sep).last());
        assert(split_on(head, sep).update(split_on(head, sep).len() - 1, split_on(head, sep).last())
            =~= split_on(head, sep));
    } else {
        let t0 = tail.drop_last();
        assert(!t0.contains(sep)) by {
            if t0.contains(sep) {
                let k = choose|k: int| 0 <= k < t0.len() && t0[k] == sep;
                assert(tail[k] == sep);
            }
        }
        lemma_split_append(head, t0, sep);
        assert((head + tail).drop_last() =~= head + t0);
        assert((head + tail).last() == tail.last());
        assert(tail.last() != sep) by {
            assert(tail[tail.len() - 1] == tail.last());
        }
        lemma_split_last_grows(head + t0, sep);
        assert((split_on(head, sep).last() + t0).push(tail.last())
            =~= split_on(head, sep).last() + tail);
    }
}

proof fn lemma_normalize_plain_is_identity(cs: Seq<Seq<char>>)
    requires
        forall|i: int| 0 <= i < cs.len() ==> plain_component(#[trigger] cs[i]),
    ensures
        normalize_components(cs) == cs,
    decreases cs.len(),
{
    if cs.len() > 0 {
        let p = cs.drop_last();
        assert forall|i: int| 0 <= i < p.len() implies plain_component(#[trigger] p[i]) by {
            assert(p[i] == cs[i]);
        }
        lemma_normalize_plain_is_identity(p);
        assert(plain_component(cs[cs.len() - 1]));
        assert(p.push(cs.last()) =~= cs);
    }
}

/// Normalising a normalised path changes nothing.
pub proof fn law_normalize_path_idempotent(p: Seq<char>)
    ensures
        spec_normalize_path(spec_normalize_path(p)) == spec_normalize_path(p),
{
    let cs = normalize_components(split_on(p, '/'));
    lemma_split_pieces_have_no_sep(p, '/');
    lemma_normalized_plain(split_on(p, '/'));
    if cs.len() == 0 {
        assert(split_on(Seq::<char>::empty(), '/') =~= seq![Seq::<char>::empty()]);
        let e = seq![Seq::<char>::empty()];
        assert(normalize_components(e) == normalize_step(
            normalize_components(e.drop_last()), e.last()));
        assert(normalize_components(e) =~= Seq::<Seq<char>>::empty());
    } else {
        assert forall|i: int| 0 <= i < cs.len() implies !(#[trigger] cs[i]).contains('/') by {
            assert(plain_component(cs[i]));
        }
        lemma_split_join(cs, '/');
        lemma_normalize_plain_is_identity(cs);
    }
}

/// A normalised path has no empty, `.` or `..` component.
pub proof fn law_normalized_components_are_plain(p: Seq<char>)
    ensures
        forall|i: int| 0 <= i < normalize_components(split_on(p, '/')).len()
            ==> plain_component(#[trigger] normalize_components(split_on(p, '/'))[i]),
{
    lemma_split_pieces_have_no_sep(p, '/');
    lemma_normalized_plain(split_on(p, '/'));
}

fn is_dot_component(c: &Vec<char>) -> (r: bool)
    ensures
        r == is_dot(c@),
{
    let r = c.len() == 1 && c[0] == '.';
    proof {
        if r {
            assert(c@ =~= seq!['.']);
        }
    }
    r
}

fn is_dot_dot_component(c: &Vec<char>) -> (r: bool)
    ensures
        r == is_dot_dot(c@),
{
    let r = c.len() == 2 && c[0] == '.' && c[1] == '.';
    proof {
        if r {
            assert(c@ =~= seq!['.', '.']);
        }
    }
    r
}

fn apply_normalize_step(kept: &mut Vec<Vec<char>>, c: Vec<char>)
    ensures
        final(kept)@.map_values(|v: Vec<char>| v@) == normalize_step(
            old(kept)@.map_values(|v: Vec<char>| v@),
            c@,
        ),
{
    let ghost before = kept@.map_values(|v: Vec<char>| v@);
    if c.len() == 0 || is_dot_component(&c) {
    } else if is_dot_dot_component(&c) {
        if kept.len() > 0 {
            kept.pop();
            assert(kept@.map_values(|v: Vec<char>| v@) =~= before.drop_last());
        }
    } else {
        kept.push(c);
        assert(kept@.map_values(|v: Vec<char>| v@) =~= before.push(c@));
    }
}

fn join_components(parts: &Vec<Vec<char>>, sep: char) -> (res: Vec<char>)
    ensures
        res@ == join_on(parts@.map_values(|v: Vec<char>| v@), sep),
{
    let ghost views = parts@.map_values(|v: Vec<char>| v@);
    let mut res: Vec<char> = Vec::new();
    let mut i: usize = 0;
    while i < parts.len()
        invariant
            i <= parts.len(),
            views == parts@.map_values(|v: Vec<char>| v@),
            res@ == join_on(views.take(i as int), sep),
        decreases parts.len() - i,
    {
        let ghost prev = res@;
        if i > 0 {
            res.push(sep);
        }
        let part = &parts[i];
        let mut j: usize = 0;
        while j < part.len()
            invariant
                j <= part.len(),
                res@ == (if i > 0 { prev.push(sep) } else { prev }) + part@.take(j as int),
            decreases part.len() - j,
        {
            res.push(part[j]);
            assert(part@.take(j + 1) =~= part@.take(j as int).push(part@[j as int]));
            j += 1;
        }
        proof {
            assert(part@.take(part.len() as int) =~= part@);
            let t = views.take(i + 1);
            assert(t.drop_last() =~= views.take(i as int));
            assert(t.last() == part@);
            if i == 0 {
                assert(res@ =~= part@);
            }
        }
        i += 1;
    }
    assert(views.take(parts.len() as int) =~= views);
    res
}

/// Lexically normalises a `/`-separated path: drops empty and `.`
/// components and lets `..` remove the component before it.
pub fn normalize_path(path: &str) -> (res: String)
    ensures
        res@ == spec_normalize_path(path@),
{
    let chars = chars_of(path);
    let mut kept: Vec<Vec<char>> = Vec::new();
    let mut current: Vec<char> = Vec::new();
    let mut i: usize = 0;
    proof {
        let e = split_on(chars@.take(0), '/');
        assert(chars@.take(0) =~= Seq::<char>::empty());
        assert(e =~= seq![Seq::<char>::empty()]);
        assert(e.drop_last() =~= Seq::<Seq<char>>::empty());
        assert(normalize_components(e) == normalize_step(
            normalize_components(e.drop_last()), e.last()));
        assert(kept@.map_values(|v: Vec<char>| v@) =~= Seq::<Seq<char>>::empty());
    }
    while i < chars.len()
        invariant
            i <= chars.len(),
            chars@ == path@,
            normalize_components(split_on(chars@.take(i as int), '/'))
                == normalize_step(kept@.map_values(|v: Vec<char>| v@), current@),
            split_on(chars@.take(i as int), '/').last() == current@,
            split_on(chars@.take(i as int), '/').len() >= 1,
            normalize_components(split_on(chars@.take(i as int), '/').drop_last())
                == kept@.map_values(|v: Vec<char>| v@),
        decreases chars.len() - i,
    {
        let c = chars[i];
        let ghost s = chars@.take(i + 1);
        proof {
            assert(s.drop_last() =~= chars@.take(i as int));
            assert(s.last() == c);
        }
        if c == '/' {
            let finished = current;
            current = Vec::new();
            apply_normalize_step(&mut kept, finished);
            proof {
                let p = split_on(s.drop_last(), '/');
                assert(split_on(s, '/') == p.push(Seq::<char>::empty()));
                assert(split_on(s, '/').drop_last() =~= p);
                assert(normalize_components(p) == normalize_step(
                    normalize_components(p.drop_last()), p.last()));
                assert(normalize_components(split_on(s, '/')) == normalize_step(
                    normalize_components(p), Seq::<char>::empty()));
                assert(current@ =~= Seq::<char>::empty());
            }
        } else {
            current.push(c);
            proof {
                let p = split_on(s.drop_last(), '/');
                let q = split_on(s, '/');
                assert(q == p.update(p.len() - 1, p.last().push(c)));
                assert(q.drop_last() =~= p.drop_last());
                assert(q.last() == current@);
                assert(normalize_components(q) == normalize_step(
                    normalize_components(q.drop_last()), q.last()));
            }
        }
        i += 1;
    }
    apply_normalize_step(&mut kept, current);
    proof {
        assert(chars@.take(chars.len() as int) =~= path@);
        let q = split_on(path@, '/');
        assert(normalize_components(q) == normalize_step(
            normalize_components(q.drop_last()), q.last()));
    }
    let joined = join_components(&kept, '/');
    string_of(&joined)
}


/// `s` cut at every occurrence of `sep`.
pub fn split_chars(s: &Vec<char>, sep: char) -> (res: Vec<Vec<char>>)
    ensures
        res@.map_values(|v: Vec<char>| v@) == split_on(s@, sep),
        res@.len() >= 1,
{
    let mut done: Vec<Vec<char>> = Vec::new();
    let mut current: Vec<char> = Vec::new();
    let mut i: usize = 0;
    proof {
        assert(s@.take(0) =~= Seq::<char>::empty());
        assert(split_on(s@.take(0), sep) =~= seq![Seq::<char>::empty()]);
    }
    while i < s.len()
        invariant
            i <= s.len(),
            split_on(s@.take(i as int), sep) == done@.map_values(|v: Vec<char>| v@).push(current@),
        decreases s.len() - i,
    {
        let c = s[i];
        let ghost prefix = s@.take(i + 1);
        let ghost before = done@.map_values(|v: Vec<char>| v@);
        proof {
            assert(prefix.drop_last() =~= s@.take(i as int));
            assert(prefix.last() == c);
        }
        if c == sep {
            let finished = current;
            current = Vec::new();
            done.push(finished);
            proof {
                assert(done@.map_values(|v: Vec<char>| v@) =~= before.push(finished@));
                assert(current@ =~= Seq::<char>::empty());
            }
        } else {
            current.push(c);
            proof {
                assert(before.push(old_current_view(current@)).update(before.len() as int, current@)
                    =~= before.push(current@));
            }
        }
        i += 1;
    }
    assert(s@.take(s.len() as int) =~= s@);
    let ghost before = done@.map_values(|v: Vec<char>| v@);
    done.push(current);
    assert(done@.map_values(|v: Vec<char>| v@) =~= before.push(current@));
    done
}

spec fn old_current_view(v: Seq<char>) -> Seq<char> {
    v.drop_last()
}

/// Position of the first `c` in `s`, or `s.len()` when there is none.
pub open spec fn first_pos(s: Seq<char>, c: char) -> int
    decreases s.len(),
{
    if s.len() == 0 {
        0
    } else if s[0] == c {
        0
    } else {
        1 + first_pos(s.drop_first(), c)
    }
}

pub proof fn lemma_first_pos(s: Seq<char>, c: char)
    ensures
        0 <= first_pos(s, c) <= s.len(),
        forall|k: int| 0 <= k < first_pos(s, c) ==> s[k] != c,
        first_pos(s, c) < s.len() ==> s[first_pos(s, c)] == c,
        (first_pos(s, c) == s.len()) == !s.contains(c),
    decreases s.len(),
{
    if s.len() > 0 && s[0] != c {
        lemma_first_pos(s.drop_first(), c);
        assert forall|k: int| 0 <= k < first_pos(s, c) implies s[k] != c by {
            if k > 0 {
                assert(s[k] == s.drop_first()[k - 1]);
            }
        }
        if first_pos(s, c) == s.len() {
            assert(!s.contains(c)) by {
                if s.contains(c) {
                    let k = choose|k: int| 0 <= k < s.len() && s[k] == c;
                    assert(false);
                }
            }
        } else {
            assert(s[first_pos(s, c)] == s.drop_first()[first_pos(s, c) - 1]);
        }
    }
}

/// Finds the first `c` at or after `from`.
pub fn find_char_from(s: &Vec<char>, c: char, from: usize) -> (res: usize)
    requires
        from <= s.len(),
    ensures
        from <= res <= s.len(),
        forall|k: int| from <= k < res ==> s@[k] != c,
        res < s.len() ==> s@[res as int] == c,
{
    let mut i = from;
    while i < s.len() && s[i] != c
        invariant
            from <= i <= s.len(),
            forall|k: int| from <= k < i ==> s@[k] != c,
        decreases s.len() - i,
    {
        i += 1;
    }
    i
}

/// The href without its `#fragment` part.
pub open spec fn spec_remove_fragment(href: Seq<char>) -> Seq<char> {
    href.take(first_pos(href, '#'))
}

/// The part of the href after the first `#`, if there is one.
pub open spec fn spec_fragment(href: Seq<char>) -> Option<Seq<char>> {
    if first_pos(href, '#') < href.len() {
        Some(href.skip(first_pos(href, '#') + 1))
    } else {
        None
    }
}

/// `href.split('#').next()`: everything before the first `#`.
pub fn remove_fragment(href: &str) -> (res: String)
    ensures
        res@ == spec_remove_fragment(href@),
        !res@.contains('#'),
{
    let chars = chars_of(href);
    let end = find_char_from(&chars, '#', 0);
    proof {
        lemma_first_pos(href@, '#');
        if first_pos(href@, '#') < end {
            assert(href@[first_pos(href@, '#')] == '#');
        }
        if end < first_pos(href@, '#') {
            assert(href@[end as int] == '#');
        }
    }
    let res = string_of(&sub_chars(&chars, 0, end));
    assert(chars@.subrange(0, end as int) =~= href@.take(end as int));
    assert(!res@.contains('#')) by {
        if res@.contains('#') {
            let k = choose|k: int| 0 <= k < res@.len() && res@[k] == '#';
            assert(href@[k] == '#');
        }
    }
    res
}

/// `href.split_once('#')`: the text after the first `#`, if any.
pub fn fragment(href: &str) -> (res: Option<String>)
    ensures
        res matches Some(f) ==> spec_fragment(href@) == Some(f@),
        res is None <==> spec_fragment(href@) is None,
{
    let chars = chars_of(href);
    let pos = find_char_from(&chars, '#', 0);
    proof {
        lemma_first_pos(href@, '#');
        if first_pos(href@, '#') < pos {
            assert(href@[first_pos(href@, '#')] == '#');
        }
        if pos < first_pos(href@, '#') {
            assert(href@[pos as int] == '#');
        }
    }
    if pos < chars.len() {
        let res = string_of(&sub_chars(&chars, pos + 1, chars.len()));
        assert(chars@.subrange(pos + 1, chars.len() as int) =~= href@.skip(pos + 1));
        Some(res)
    } else {
        None
    }
}

/// An href is its fragment-free part, followed by `#` and the fragment
/// when it has one.
pub proof fn law_fragment_split_rebuilds_href(href: Seq<char>)
    ensures
        match spec_fragment(href) {
            Some(f) => spec_remove_fragment(href).push('#') + f == href,
            None => spec_remove_fragment(href) == href,
        },
{
    lemma_first_pos(href, '#');
    let k = first_pos(href, '#');
    if k < href.len() {
        assert(href.take(k).push('#') + href.skip(k + 1) =~= href);
    } else {
        assert(href.take(k) =~= href);
    }
}

/// `s` without its trailing run of `c`.
pub open spec fn trim_end_char(s: Seq<char>, c: char) -> Seq<char>
    decreases s.len(),
{
    if s.len() > 0 && s.last() == c {
        trim_end_char(s.drop_last(), c)
    } else {
        s
    }
}

pub open spec fn spec_join_path(base: Seq<char>, path: Seq<char>) -> Seq<char> {
    if base.len() == 0 {
        path
    } else {
        trim_end_char(base, '/').push('/') + path
    }
}

/// `path` resolved against the directory `base`.
pub fn join_path(base: &str, path: &str) -> (res: String)
    ensures
        res@ == spec_join_path(base@, path@),
{
    let b = chars_of(base);
    if b.len() == 0 {
        return string_of(&chars_of(path));
    }
    let mut end = b.len();
    assert(b@.take(b.len() as int) =~= b@);
    while end > 0 && b[end - 1] == '/'
        invariant
            end <= b.len(),
            trim_end_char(b@.take(end as int), '/') == trim_end_char(base@, '/'),
            b@ == base@,
        decreases end,
    {
        assert(b@.take(end - 1) =~= b@.take(end as int).drop_last());
        end -= 1;
    }
    proof {
        assert(b@.take(b.len() as int) =~= b@);
    }
    let mut res = sub_chars(&b, 0, end);
    assert(res@ =~= b@.take(end as int));
    res.push('/');
    let p = chars_of(path);
    append_chars(&mut res, &p);
    assert(res@ =~= trim_end_char(base@, '/').push('/') + path@);
    string_of(&res)
}

/// The position after the last `c` in `s`, or 0 when there is none.
pub open spec fn last_pos(s: Seq<char>, c: char) -> int
    decreases s.len(),
{
    if s.len() == 0 {
        -1
    } else if s.last() == c {
        s.len() - 1
    } else {
        last_pos(s.drop_last(), c)
    }
}

pub open spec fn map_backslashes(s: Seq<char>) -> Seq<char> {
    Seq::new(s.len(), |i: int| if s[i] == '\\' { '/' } else { s[i] })
}

/// The directory part of a normalised path, `""` at the top.
pub open spec fn spec_parent_dir(path: Seq<char>) -> Seq<char> {
    let n = spec_normalize_path(path);
    if last_pos(n, '/') >= 0 {
        map_backslashes(n.take(last_pos(n, '/')))
    } else {
        Seq::<char>::empty()
    }
}

proof fn lemma_last_pos(s: Seq<char>, c: char)
    ensures
        -1 <= last_pos(s, c) < s.len(),
        last_pos(s, c) >= 0 ==> s[last_pos(s, c)] == c,
        forall|k: int| last_pos(s, c) < k < s.len() ==> s[k] != c,
    decreases s.len(),
{
    if s.len() > 0 && s.last() != c {
        lemma_last_pos(s.drop_last(), c);
        assert forall|k: int| last_pos(s, c) < k < s.len() implies s[k] != c by {
            if k < s.len() - 1 {
                assert(s[k] == s.drop_last()[k]);
            }
        }
    }
}

/// The directory that contains `path`, after normalising it.
pub fn parent_dir(path: &str) -> (res: String)
    ensures
        res@ == spec_parent_dir(path@),
{
    let normalized = normalize_path(path);
    let n = chars_of(normalized.as_str());
    let mut end = n.len();
    assert(n@.take(n.len() as int) =~= n@);
    while end > 0 && n[end - 1] != '/'
        invariant
            end <= n.len(),
            n@ == normalized@,
            last_pos(n@.take(end as int), '/') == last_pos(n@, '/'),
        decreases end,
    {
        assert(n@.take(end - 1) =~= n@.take(end as int).drop_last());
        end -= 1;
    }
    proof {
        assert(n@.take(n.len() as int) =~= n@);
        lemma_last_pos(n@, '/');
    }
    if end == 0 {
        proof {
            assert(n@.take(0) =~= Seq::<char>::empty());
        }
        return String::new();
    }
    let ghost k = end - 1;
    assert(n@.take(end as int).last() == '/');
    assert(last_pos(n@, '/') == k);
    let mut res = String::new();
    let mut i: usize = 0;
    while i < end - 1
        invariant
            i <= end - 1,
            end - 1 < n.len(),
            res@ == map_backslashes(n@.take(end - 1)).take(i as int),
        decreases end - 1 - i,
    {
        let c = if n[i] == '\\' { '/' } else { n[i] };
        push_char(&mut res, c);
        assert(map_backslashes(n@.take(end - 1)).take(i + 1)
            =~= map_backslashes(n@.take(end - 1)).take(i as int).push(c));
        i += 1;
    }
    assert(map_backslashes(n@.take(end - 1)).take((end - 1) as int)
        =~= map_backslashes(n@.take(end - 1)));
    res
}


/// The last component of a `/`-separated path as `Path::file_name`
/// sees it: empty and `.` components are skipped, and a final `..`
/// has no file name.
pub open spec fn spec_file_name_of_parts(parts: Seq<Seq<char>>) -> Option<Seq<char>>
    decreases parts.len(),
{
    if parts.len() == 0 {
        None
    } else if parts.last().len() == 0 || is_dot(parts.last()) {
        spec_file_name_of_parts(parts.drop_last())
    } else if is_dot_dot(parts.last()) {
        None
    } else {
        Some(parts.last())
    }
}

pub open spec fn spec_file_name(path: Seq<char>) -> Option<Seq<char>> {
    spec_file_name_of_parts(split_on(path, '/'))
}

/// The file name split at its last `.`, as `Path::file_stem` and
/// `Path::extension` do: a name whose only `.` leads it has no extension.
pub open spec fn spec_stem_of_name(name: Seq<char>) -> Seq<char> {
    let k = last_pos(name, '.');
    if k <= 0 { name } else { name.take(k) }
}

pub open spec fn spec_extension_of_name(name: Seq<char>) -> Option<Seq<char>> {
    let k = last_pos(name, '.');
    if k <= 0 { None } else { Some(name.skip(k + 1)) }
}

pub open spec fn spec_file_stem(path: Seq<char>) -> Option<Seq<char>> {
    match spec_file_name(path) {
        Some(name) => Some(spec_stem_of_name(name)),
        None => None,
    }
}

pub open spec fn spec_extension(path: Seq<char>) -> Option<Seq<char>> {
    match spec_file_name(path) {
        Some(name) => spec_extension_of_name(name),
        None => None,
    }
}

/// `Path::file_name` on a `/`-separated path.
pub fn file_name(path: &str) -> (res: Option<Vec<char>>)
    ensures
        res matches Some(n) ==> spec_file_name(path@) == Some(n@),
        res is None <==> spec_file_name(path@) is None,
{
    let parts = split_chars(&chars_of(path), '/');
    let ghost views = parts@.map_values(|v: Vec<char>| v@);
    let mut i = parts.len();
    assert(views.take(parts.len() as int) =~= views);
    while i > 0 && (parts[i - 1].len() == 0 || is_dot_component(&parts[i - 1]))
        invariant
            i <= parts.len(),
            views == parts@.map_values(|v: Vec<char>| v@),
            views == split_on(path@, '/'),
            spec_file_name_of_parts(views.take(i as int)) == spec_file_name(path@),
        decreases i,
    {
        assert(views.take(i as int).last() == parts@[i - 1]@);
        assert(views.take(i - 1) =~= views.take(i as int).drop_last());
        i -= 1;
    }
    if i == 0 {
        return None;
    }
    assert(views.take(i as int).last() == parts@[i - 1]@);
    if is_dot_dot_component(&parts[i - 1]) {
        return None;
    }
    Some(sub_chars(&parts[i - 1], 0, parts[i - 1].len()))
}

/// Position of the last `c` in `v`, if any.
pub fn find_last_char(v: &Vec<char>, c: char) -> (res: Option<usize>)
    ensures
        match res {
            Some(k) => k < v.len() && last_pos(v@, c) == k,
            None => last_pos(v@, c) == -1,
        },
{
    let mut end = v.len();
    assert(v@.take(v.len() as int) =~= v@);
    while end > 0 && v[end - 1] != c
        invariant
            end <= v.len(),
            last_pos(v@.take(end as int), c) == last_pos(v@, c),
        decreases end,
    {
        assert(v@.take(end - 1) =~= v@.take(end as int).drop_last());
        end -= 1;
    }
    if end == 0 {
        None
    } else {
        assert(v@.take(end as int).last() == c);
        Some(end - 1)
    }
}

/// `Path::file_stem` on a `/`-separated path.
pub fn file_stem(path: &str) -> (res: Option<Vec<char>>)
    ensures
        res matches Some(n) ==> spec_file_stem(path@) == Some(n@),
        res is None <==> spec_file_stem(path@) is None,
{
    match file_name(path) {
        None => None,
        Some(name) => {
            match find_last_char(&name, '.') {
                Some(k) => {
                    if k == 0 {
                        Some(name)
                    } else {
                        Some(sub_chars(&name, 0, k))
                    }
                },
                None => Some(name),
            }
        },
    }
}

/// `Path::extension` on a `/`-separated path.
pub fn extension(path: &str) -> (res: Option<Vec<char>>)
    ensures
        res matches Some(n) ==> spec_extension(path@) == Some(n@),
        res is None <==> spec_extension(path@) is None,
{
    match file_name(path) {
        None => None,
        Some(name) => {
            match find_last_char(&name, '.') {
                Some(k) => {
                    if k == 0 {
                        None
                    } else {
                        Some(sub_chars(&name, k + 1, name.len()))
                    }
                },
                None => None,
            }
        },
    }
}

} // verus!
